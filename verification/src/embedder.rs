//! Embedding models, and how many sessions run them.
//!
//! There is one session per worker, each with its share of the cores; embedding
//! work is split across the workers. For tiny encoders this beats one session
//! with many threads.

use vstd::arithmetic::div_mod::*;
use vstd::prelude::*;
use vstd::string::*;

use crate::number::{decimal, is_digit, law_decimal_parses, lemma_decimal_digits, parse_u64, parsed, push_decimal};
use crate::sorted::{same, StrMap};
use crate::text::{blank, cut, is_space, is_word, join, join_strings, law_cut_at_first, law_lines_in_order, law_occurs, law_split_at_separator, law_trim, law_words_in_order, occurs, split_lines, split_on, split_once, split_string, split_words, strip_prefix, text_lines, after_prefix, trim, trimmed, views, words};

verus! {

/// The encoders that can be run on the CPU.
#[derive(Debug, Clone, Copy, PartialEq, Eq, Structural)]
pub enum EmbeddingModel {
    BgeSmallEnV15Q,
    BgeSmallEnV15,
    BgeBaseEnV15,
    AllMiniLmL6V2,
    JinaEmbeddingsV2BaseCode,
}

/// A model that was chosen by name.
#[derive(Debug, Clone, Copy)]
pub struct ModelChoice {
    pub enum_id: EmbeddingModel,
    pub canonical_id: &'static str,
    /// Short, stable slug used as the notes-ref segment
    /// (`refs/notes/vector-grep/<short_id>`). Matches `[a-z0-9-]+`.
    pub short_id: &'static str,
    pub dim: usize,
}

/// The model of a choice.
pub struct ModelView {
    pub enum_id: EmbeddingModel,
    pub canonical_id: Seq<char>,
    pub short_id: Seq<char>,
    pub dim: nat,
}

impl View for ModelChoice {
    type V = ModelView;

    open spec fn view(&self) -> ModelView {
        ModelView {
            enum_id: self.enum_id,
            canonical_id: self.canonical_id@,
            short_id: self.short_id@,
            dim: self.dim as nat,
        }
    }
}

/// No model has this name.
#[derive(Debug)]
pub struct UnknownModel {
    pub name: String,
}

impl UnknownModel {
    /// The error in words.
    pub fn message(&self) -> (r: String)
        ensures
            r@ == "unknown model: "@ + self.name@,
    {
        let mut s = "unknown model: ".to_owned();
        s.append(self.name.as_str());
        s
    }
}

/// The model of a name, which is its slug or its canonical id.
pub open spec fn model_of(name: Seq<char>) -> Option<ModelView> {
    if name == "bge-small-q"@ || name == "BAAI/bge-small-en-v1.5-quantized"@ {
        Some(
            ModelView {
                enum_id: EmbeddingModel::BgeSmallEnV15Q,
                canonical_id: "BAAI/bge-small-en-v1.5-quantized"@,
                short_id: "bge-small-q"@,
                dim: 384,
            },
        )
    } else if name == "bge-small"@ || name == "BAAI/bge-small-en-v1.5"@ {
        Some(
            ModelView {
                enum_id: EmbeddingModel::BgeSmallEnV15,
                canonical_id: "BAAI/bge-small-en-v1.5"@,
                short_id: "bge-small"@,
                dim: 384,
            },
        )
    } else if name == "bge-base"@ || name == "BAAI/bge-base-en-v1.5"@ {
        Some(
            ModelView {
                enum_id: EmbeddingModel::BgeBaseEnV15,
                canonical_id: "BAAI/bge-base-en-v1.5"@,
                short_id: "bge-base"@,
                dim: 768,
            },
        )
    } else if name == "minilm"@ || name == "sentence-transformers/all-MiniLM-L6-v2"@ {
        Some(
            ModelView {
                enum_id: EmbeddingModel::AllMiniLmL6V2,
                canonical_id: "sentence-transformers/all-MiniLM-L6-v2"@,
                short_id: "minilm"@,
                dim: 384,
            },
        )
    } else if name == "jina-code"@ || name == "jinaai/jina-embeddings-v2-base-code"@ {
        Some(
            ModelView {
                enum_id: EmbeddingModel::JinaEmbeddingsV2BaseCode,
                canonical_id: "jinaai/jina-embeddings-v2-base-code"@,
                short_id: "jina-code"@,
                dim: 768,
            },
        )
    } else {
        None
    }
}

/// Finds a model by name.
pub fn parse_model(name: &str) -> (r: Result<ModelChoice, UnknownModel>)
    ensures
        match model_of(name@) {
            Some(m) => r matches Ok(c) && c@ == m,
            None => r matches Err(e) && e.name@ == name@,
        },
{
    if same(name, "bge-small-q") || same(name, "BAAI/bge-small-en-v1.5-quantized") {
        return Ok(
            ModelChoice {
                enum_id: EmbeddingModel::BgeSmallEnV15Q,
                canonical_id: "BAAI/bge-small-en-v1.5-quantized",
                short_id: "bge-small-q",
                dim: 384,
            },
        );
    }
    if same(name, "bge-small") || same(name, "BAAI/bge-small-en-v1.5") {
        return Ok(
            ModelChoice {
                enum_id: EmbeddingModel::BgeSmallEnV15,
                canonical_id: "BAAI/bge-small-en-v1.5",
                short_id: "bge-small",
                dim: 384,
            },
        );
    }
    if same(name, "bge-base") || same(name, "BAAI/bge-base-en-v1.5") {
        return Ok(
            ModelChoice {
                enum_id: EmbeddingModel::BgeBaseEnV15,
                canonical_id: "BAAI/bge-base-en-v1.5",
                short_id: "bge-base",
                dim: 768,
            },
        );
    }
    if same(name, "minilm") || same(name, "sentence-transformers/all-MiniLM-L6-v2") {
        return Ok(
            ModelChoice {
                enum_id: EmbeddingModel::AllMiniLmL6V2,
                canonical_id: "sentence-transformers/all-MiniLM-L6-v2",
                short_id: "minilm",
                dim: 384,
            },
        );
    }
    if same(name, "jina-code") || same(name, "jinaai/jina-embeddings-v2-base-code") {
        return Ok(
            ModelChoice {
                enum_id: EmbeddingModel::JinaEmbeddingsV2BaseCode,
                canonical_id: "jinaai/jina-embeddings-v2-base-code",
                short_id: "jina-code",
                dim: 768,
            },
        );
    }
    Err(UnknownModel { name: name.to_owned() })
}

/// The components of the directory that models are kept in, below the user's
/// cache directory if there is one.
pub open spec fn cache_components(cache_dir: Option<Seq<char>>) -> Seq<Seq<char>> {
    match cache_dir {
        Some(d) => seq![d, "git-vector-grep"@, "models"@],
        None => seq![".git-vector-grep-models"@],
    }
}

/// The components of the directory that models are kept in.
pub fn default_cache_dir(cache_dir: Option<String>) -> (r: Vec<String>)
    ensures
        views(r@) == cache_components(
            match cache_dir {
                Some(d) => Some(d@),
                None => None,
            },
        ),
{
    let mut out: Vec<String> = Vec::new();
    match cache_dir {
        Some(d) => {
            let ghost first = d@;
            out.push(d);
            out.push("git-vector-grep".to_owned());
            out.push("models".to_owned());
            assert(views(out@) =~= seq![first, "git-vector-grep"@, "models"@]);
        },
        None => {
            out.push(".git-vector-grep-models".to_owned());
            assert(views(out@) =~= seq![".git-vector-grep-models"@]);
        },
    }
    out
}

/// One GiB.
pub const GIB: u64 = 0x4000_0000;

pub const MAX_AUTO_SMALL_MODEL_WORKERS: usize = 8;

/// The models that automatic multi-session inference is used for: the small
/// 384-dimensional encoders.
pub open spec fn is_small(model: Seq<char>) -> bool {
    model == "minilm"@ || model == "bge-small"@ || model == "bge-small-q"@
}

/// How much memory is kept free of `ram` bytes for everything else, in quarters of
/// a byte: 1.5 GiB, and a quarter of the memory where that is more.
pub open spec fn headroom4(ram: nat) -> nat {
    if ram > 6 * GIB {
        ram
    } else {
        6 * GIB as nat
    }
}

/// How many sessions of 0.75 GiB fit into `ram` bytes beside the headroom.
pub open spec fn sessions_in(ram: nat) -> nat {
    if 4 * ram < headroom4(ram) {
        0
    } else {
        ((4 * ram - headroom4(ram)) / (3 * GIB as int)) as nat
    }
}

/// The least of three numbers, and at least 1.
pub open spec fn clamp3(a: nat, b: nat, c: nat) -> nat {
    let m = if a < b {
        a
    } else {
        b
    };
    let m = if m < c {
        m
    } else {
        c
    };
    if m < 1 {
        1
    } else {
        m
    }
}

/// How many sessions are run where the user gives no number. Without knowledge of
/// the memory, and for larger models, it is one.
pub open spec fn auto_workers(model: Seq<char>, cpus: nat, ram: Option<nat>) -> nat {
    match ram {
        Some(bytes) => clamp3(
            cpus,
            if is_small(model) {
                MAX_AUTO_SMALL_MODEL_WORKERS as nat
            } else {
                1
            },
            sessions_in(bytes),
        ),
        None => 1,
    }
}

/// How many sessions are run where the user gives no number. `ram` is the memory
/// in bytes.
pub fn auto_worker_count(model: &str, cpus: usize, ram: Option<u64>) -> (r: usize)
    ensures
        r == auto_workers(
            model@,
            cpus as nat,
            match ram {
                Some(b) => Some(b as nat),
                None => None,
            },
        ),
        1 <= r <= MAX_AUTO_SMALL_MODEL_WORKERS,
{
    let cpus: usize = if cpus < 1 {
        1
    } else {
        cpus
    };
    let max_workers: usize = if same(model, "minilm") || same(model, "bge-small") || same(
        model,
        "bge-small-q",
    ) {
        MAX_AUTO_SMALL_MODEL_WORKERS
    } else {
        1
    };
    let bytes: u64 = match ram {
        Some(b) => b,
        None => {
            return 1;
        },
    };
    let four: u128 = 4 * bytes as u128;
    let reserve: u128 = if bytes > 6 * GIB {
        bytes as u128
    } else {
        6 * GIB as u128
    };
    let by_ram: u128 = if four < reserve {
        0
    } else {
        (four - reserve) / (3 * GIB as u128)
    };
    let mut n: usize = if cpus < max_workers {
        cpus
    } else {
        max_workers
    };
    if by_ram < n as u128 {
        n = by_ram as usize;
    }
    if n < 1 {
        n = 1;
    }
    n
}

/// Automatic sessions leave their headroom: they never take more than what is
/// left beside it, unless there is only one.
pub proof fn law_workers_leave_headroom(model: Seq<char>, cpus: nat, ram: nat)
    ensures
        auto_workers(model, cpus, Some(ram)) == 1 || 3 * GIB * auto_workers(
            model,
            cpus,
            Some(ram),
        ) + headroom4(ram) <= 4 * ram,
{
    let n = auto_workers(model, cpus, Some(ram)) as int;
    let size = 3 * GIB as int;
    let left = 4 * ram - headroom4(ram);
    if n > 1 {
        lemma_fundamental_div_mod(left, size);
        assert(n <= left / size);
        assert(size * n <= size * (left / size)) by (nonlinear_arith)
            requires
                n <= left / size,
                size >= 0,
        ;
    }
}

/// More memory never makes fewer sessions.
pub proof fn law_workers_grow_with_memory(model: Seq<char>, cpus: nat, less: nat, more: nat)
    requires
        less <= more,
    ensures
        auto_workers(model, cpus, Some(less)) <= auto_workers(model, cpus, Some(more)),
{
    let a = 4 * less - headroom4(less);
    let b = 4 * more - headroom4(more);
    if a >= 0 {
        lemma_div_is_ordered(a, b, 3 * GIB as int);
    }
}

/// The limit that a cgroup file gives: a positive number of bytes. `max` is no
/// limit.
pub open spec fn cgroup_limit(raw: Seq<char>) -> Option<nat> {
    match parsed(trimmed(raw)) {
        Some(n) => if 0 < n <= u64::MAX {
            Some(n)
        } else {
            None
        },
        None => None,
    }
}

/// Reads the limit that a cgroup file gives.
pub fn parse_cgroup_memory_limit(raw: &str) -> (r: Option<u64>)
    ensures
        match r {
            Some(n) => cgroup_limit(raw@) == Some(n as nat),
            None => cgroup_limit(raw@) is None,
        },
{
    let text = trim(raw);
    match parse_u64(text.as_str()) {
        Some(n) => if n > 0 {
            Some(n)
        } else {
            None
        },
        None => None,
    }
}

/// The smaller of two limits that may be missing.
pub open spec fn smaller(a: Option<nat>, b: Option<nat>) -> Option<nat> {
    match (a, b) {
        (Some(x), Some(y)) => if x < y {
            Some(x)
        } else {
            Some(y)
        },
        (Some(x), None) => Some(x),
        (None, y) => y,
    }
}

/// The value of a limit that may be missing.
pub open spec fn limit_view(a: Option<u64>) -> Option<nat> {
    match a {
        Some(x) => Some(x as nat),
        None => None,
    }
}

/// The memory that can be used: the smaller of what the host has and what the
/// cgroup allows.
pub fn select_memory_limit(host_bytes: Option<u64>, cgroup_bytes: Option<u64>) -> (r: Option<u64>)
    ensures
        limit_view(r) == smaller(limit_view(host_bytes), limit_view(cgroup_bytes)),
{
    match (host_bytes, cgroup_bytes) {
        (Some(host), Some(cgroup)) => if host < cgroup {
            Some(host)
        } else {
            Some(cgroup)
        },
        (Some(host), None) => Some(host),
        (None, Some(cgroup)) => Some(cgroup),
        (None, None) => None,
    }
}

/// What follows a prefix on the first line that starts with it.
pub open spec fn first_after(lines: Seq<Seq<char>>, prefix: Seq<char>) -> Option<Seq<char>>
    decreases lines.len(),
{
    if lines.len() == 0 {
        None
    } else {
        match first_after(lines.drop_last(), prefix) {
            Some(rest) => Some(rest),
            None => after_prefix(lines.last(), prefix),
        }
    }
}

/// A text is settled by the lines so far.
proof fn lemma_first_after(lines: Seq<Seq<char>>, prefix: Seq<char>, i: int)
    requires
        0 <= i <= lines.len(),
        first_after(lines.take(i), prefix) is Some,
    ensures
        first_after(lines, prefix) == first_after(lines.take(i), prefix),
    decreases lines.len() - i,
{
    if i < lines.len() {
        assert(lines.take(i + 1).drop_last() == lines.take(i));
        lemma_first_after(lines, prefix, i + 1);
    } else {
        assert(lines.take(i) == lines);
    }
}

/// What follows a prefix on the first line that starts with it.
fn find_after(text: &str, prefix: &str) -> (r: Option<String>)
    ensures
        match r {
            Some(s) => first_after(text_lines(text@), prefix@) == Some(s@),
            None => first_after(text_lines(text@), prefix@) is None,
        },
{
    let lines = split_lines(text);
    let ghost all = text_lines(text@);
    let mut i: usize = 0;
    assert(all.take(0) == Seq::<Seq<char>>::empty());
    while i < lines.len()
        invariant
            i <= lines@.len(),
            views(lines@) == all,
            all == text_lines(text@),
            first_after(all.take(i as int), prefix@) is None,
        decreases lines@.len() - i,
    {
        proof {
            assert(all.take(i + 1).drop_last() == all.take(i as int));
            assert(all.take(i + 1).last() == lines@[i as int]@);
        }
        match strip_prefix(lines[i].as_str(), prefix) {
            Some(s) => {
                proof {
                    lemma_first_after(all, prefix@, i + 1);
                }
                return Some(s);
            },
            None => {},
        }
        i = i + 1;
    }
    assert(all.take(all.len() as int) == all);
    None
}

/// A number of KiB behind a prefix, in bytes: the first word behind the prefix on
/// the first line that starts with it.
pub open spec fn kib_field(text: Seq<char>, prefix: Seq<char>) -> Option<nat> {
    match first_after(text_lines(text), prefix) {
        Some(rest) => if words(rest).len() == 0 {
            None
        } else {
            match parsed(words(rest)[0]) {
                Some(kib) => if kib * 1024 <= u64::MAX {
                    Some(kib * 1024)
                } else {
                    None
                },
                None => None,
            }
        },
        None => None,
    }
}

/// Reads a number of KiB behind a prefix, in bytes.
pub fn read_kib_field(text: &str, prefix: &str) -> (r: Option<u64>)
    ensures
        limit_view(r) == kib_field(text@, prefix@),
{
    match find_after(text, prefix) {
        Some(rest) => {
            let fields = split_words(rest.as_str());
            assert(views(fields@).len() == fields@.len());
            if fields.len() == 0 {
                return None;
            }
            assert(views(fields@)[0] == fields@[0]@);
            match parse_u64(fields[0].as_str()) {
                Some(kib) => kib.checked_mul(1024),
                None => None,
            }
        },
        None => None,
    }
}

/// The memory of the host in bytes, from the text of `/proc/meminfo`.
pub fn host_total_ram_bytes(meminfo: &str) -> (r: Option<u64>)
    ensures
        limit_view(r) == kib_field(meminfo@, "MemTotal:"@),
{
    read_kib_field(meminfo, "MemTotal:")
}

/// A component of a path that names something: not empty, and not `.`.
pub open spec fn names_something(c: Seq<char>) -> bool {
    c.len() > 0 && c != "."@
}

/// The components of a path.
pub open spec fn components(path: Seq<char>) -> Seq<Seq<char>> {
    kept_components(split_on(path, '/'))
}

/// The components that name something, in order.
pub open spec fn kept_components(parts: Seq<Seq<char>>) -> Seq<Seq<char>>
    decreases parts.len(),
{
    if parts.len() == 0 {
        Seq::empty()
    } else {
        let before = kept_components(parts.drop_last());
        if names_something(parts.last()) {
            before.push(parts.last())
        } else {
            before
        }
    }
}

/// The directory `k` levels below the root on the way to a path.
pub open spec fn level(path: Seq<char>, k: int) -> Seq<char> {
    join(components(path).take(k), "/"@)
}

/// The components of a path.
fn split_components(path: &str) -> (r: Vec<String>)
    ensures
        views(r@) == components(path@),
{
    let parts = split_string(path, '/');
    let ghost all = split_on(path@, '/');
    let mut out: Vec<String> = Vec::new();
    let mut i: usize = 0;
    assert(views(out@) == kept_components(all.take(0)));
    while i < parts.len()
        invariant
            i <= parts@.len(),
            views(parts@) == all,
            views(out@) == kept_components(all.take(i as int)),
        decreases parts@.len() - i,
    {
        let ghost before = views(out@);
        proof {
            assert(all.take(i + 1).drop_last() == all.take(i as int));
            assert(all.take(i + 1).last() == parts@[i as int]@);
        }
        if !parts[i].as_str().is_empty() && !same(parts[i].as_str(), ".") {
            out.push(parts[i].clone());
            assert(views(out@) == before.push(parts@[i as int]@));
        }
        i = i + 1;
    }
    assert(all.take(all.len() as int) == all);
    out
}

/// The directories on the way up from a cgroup to the root, the cgroup's own
/// first; the root is the empty path.
pub fn cgroup_levels(relative: &str) -> (r: Vec<String>)
    ensures
        views(r@) == Seq::new(
            components(relative@).len() + 1,
            |i: int| level(relative@, components(relative@).len() - i),
        ),
{
    let mut parts = split_components(relative);
    let ghost all = components(relative@);
    let n: usize = parts.len();
    assert(views(parts@).len() == parts@.len());
    assert(all.take(all.len() as int) == all);
    let mut out: Vec<String> = Vec::new();
    loop
        invariant_except_break
            parts@.len() + out@.len() == n,
        invariant
            all == components(relative@),
            n == all.len(),
            parts@.len() <= n,
            views(parts@) == all.take(parts@.len() as int),
            forall|i: int|
                0 <= i < out@.len() ==> (#[trigger] out@[i])@ == level(relative@, n - i),
        ensures
            out@.len() == n + 1,
        decreases parts@.len(),
    {
        out.push(join_strings(&parts, "/"));
        if parts.len() == 0 {
            break;
        }
        let ghost before = views(parts@);
        parts.pop();
        proof {
            assert(views(parts@) == before.drop_last());
            assert(before.drop_last() == all.take(parts@.len() as int));
        }
    }
    assert(views(out@) =~= Seq::new((n + 1) as nat, |i: int| level(relative@, n - i)));
    out
}

/// The limit that a file of a directory gives, if it can be read.
pub open spec fn limit_at(files: Map<Seq<char>, String>, dir: Seq<char>) -> Option<nat> {
    if files.contains_key(dir) {
        cgroup_limit(files[dir]@)
    } else {
        None
    }
}

/// The least limit of the directories from the root to level `k`.
pub open spec fn least_limit(files: Map<Seq<char>, String>, path: Seq<char>, k: int) -> Option<nat>
    decreases k + 1,
{
    if k < 0 {
        None
    } else {
        smaller(limit_at(files, level(path, k)), least_limit(files, path, k - 1))
    }
}

/// The memory limit of a cgroup: the least one of the cgroup and those above it.
/// `files` holds the texts of the limit files, by directory below the root.
pub fn cgroup_limit_up_tree(relative: &str, files: &StrMap<String>) -> (r: Option<u64>)
    ensures
        limit_view(r) == least_limit(
            files@,
            relative@,
            components(relative@).len() as int,
        ),
{
    let levels = cgroup_levels(relative);
    let ghost n = components(relative@).len() as int;
    let ghost path = relative@;
    proof {
        assert(views(levels@).len() == levels@.len());
        assert forall|j: int| 0 <= j < levels@.len() implies (#[trigger] levels@[j])@ == level(
            path,
            n - j,
        ) by {
            assert(views(levels@)[j] == levels@[j]@);
        }
    }
    let mut limit: Option<u64> = None;
    let mut i: usize = levels.len();
    while i > 0
        invariant
            i <= levels@.len(),
            levels@.len() == n + 1,
            path == relative@,
            forall|j: int| 0 <= j < levels@.len() ==> (#[trigger] levels@[j])@ == level(path, n - j),
            limit_view(limit) == least_limit(files@, path, n - i),
        decreases i,
    {
        i = i - 1;
        let here: Option<u64> = match files.get(levels[i].as_str()) {
            Some(raw) => parse_cgroup_memory_limit(raw.as_str()),
            None => None,
        };
        limit = select_memory_limit(here, limit);
    }
    limit
}

/// Taking parents into account never raises a limit.
pub proof fn law_parents_only_lower(files: Map<Seq<char>, String>, path: Seq<char>, k: int, j: int)
    requires
        0 <= j <= k,
        limit_at(files, level(path, j)) is Some,
    ensures
        least_limit(files, path, k) matches Some(n) && n <= limit_at(files, level(path, j))->0,
    decreases k,
{
    if j < k {
        law_parents_only_lower(files, path, k - 1, j);
    }
}

/// The hierarchy, the controllers and the path of a line of `/proc/self/cgroup`:
/// what stands before the first colon, before the second, and behind it.
pub open spec fn membership(line: Seq<char>) -> (Seq<char>, Seq<char>, Seq<char>) {
    match cut(line, ':') {
        Some((hierarchy, rest)) => match cut(rest, ':') {
            Some((controllers, path)) => (hierarchy, controllers, path),
            None => (hierarchy, rest, Seq::empty()),
        },
        None => (line, Seq::empty(), Seq::empty()),
    }
}

/// The texts of the memory limit files, by directory below the root of their
/// hierarchy.
pub struct CgroupFiles {
    /// `memory.max` below `/sys/fs/cgroup`: the unified hierarchy.
    pub unified: StrMap<String>,
    /// `memory.limit_in_bytes` below `/sys/fs/cgroup/memory`: the usual layout of
    /// the older hierarchies.
    pub memory: StrMap<String>,
    /// `memory.limit_in_bytes` below `/sys/fs/cgroup`: combined controllers.
    pub combined: StrMap<String>,
}

/// The limit that a line of `/proc/self/cgroup` leads to.
pub open spec fn line_limit(line: Seq<char>, files: CgroupFiles) -> Option<nat> {
    let (hierarchy, controllers, path) = membership(line);
    let n = components(path).len() as int;
    if hierarchy == "0"@ && controllers.len() == 0 {
        least_limit(files.unified@, path, n)
    } else if split_on(controllers, ',').contains("memory"@) {
        match least_limit(files.memory@, path, n) {
            Some(limit) => Some(limit),
            None => least_limit(files.combined@, path, n),
        }
    } else {
        None
    }
}

/// The least limit of some lines.
pub open spec fn lines_limit(lines: Seq<Seq<char>>, files: CgroupFiles) -> Option<nat>
    decreases lines.len(),
{
    if lines.len() == 0 {
        None
    } else {
        smaller(lines_limit(lines.drop_last(), files), line_limit(lines.last(), files))
    }
}

/// Splits a line of `/proc/self/cgroup`.
fn split_membership(line: &str) -> (r: (String, String, String))
    ensures
        (r.0@, r.1@, r.2@) == membership(line@),
{
    match split_once(line, ':') {
        Some((hierarchy, rest)) => match split_once(rest.as_str(), ':') {
            Some((controllers, path)) => (hierarchy, controllers, path),
            None => {
                let none = String::new();
                assert(none@ == Seq::<char>::empty());
                (hierarchy, rest, none)
            },
        },
        None => {
            let a = String::new();
            let b = String::new();
            assert(a@ == Seq::<char>::empty());
            assert(b@ == Seq::<char>::empty());
            (line.to_owned(), a, b)
        },
    }
}

/// Whether a list of controllers, parted by commas, has the memory controller.
fn has_memory(controllers: &str) -> (r: bool)
    ensures
        r == split_on(controllers@, ',').contains("memory"@),
{
    let parts = split_string(controllers, ',');
    let ghost all = split_on(controllers@, ',');
    let mut i: usize = 0;
    while i < parts.len()
        invariant
            i <= parts@.len(),
            views(parts@) == all,
            all == split_on(controllers@, ','),
            forall|k: int| 0 <= k < i ==> #[trigger] all[k] != "memory"@,
        decreases parts@.len() - i,
    {
        assert(all[i as int] == parts@[i as int]@);
        if same(parts[i].as_str(), "memory") {
            assert(all.contains("memory"@));
            return true;
        }
        i = i + 1;
    }
    false
}

/// The memory limit of this process, from the text of `/proc/self/cgroup` and the
/// limit files of the directories that it leads to.
pub fn cgroup_memory_limit_bytes(memberships: &str, files: &CgroupFiles) -> (r: Option<u64>)
    ensures
        limit_view(r) == lines_limit(text_lines(memberships@), *files),
{
    let lines = split_lines(memberships);
    let ghost all = text_lines(memberships@);
    let mut limit: Option<u64> = None;
    let mut i: usize = 0;
    assert(all.take(0) == Seq::<Seq<char>>::empty());
    while i < lines.len()
        invariant
            i <= lines@.len(),
            views(lines@) == all,
            limit_view(limit) == lines_limit(all.take(i as int), *files),
        decreases lines@.len() - i,
    {
        proof {
            assert(all.take(i + 1).drop_last() == all.take(i as int));
            assert(all.take(i + 1).last() == lines@[i as int]@);
        }
        let (hierarchy, controllers, path) = split_membership(lines[i].as_str());
        let found: Option<u64> = if same(hierarchy.as_str(), "0")
            && controllers.as_str().is_empty() {
            cgroup_limit_up_tree(path.as_str(), &files.unified)
        } else if has_memory(controllers.as_str()) {
            match cgroup_limit_up_tree(path.as_str(), &files.memory) {
                Some(n) => Some(n),
                None => cgroup_limit_up_tree(path.as_str(), &files.combined),
            }
        } else {
            None
        };
        limit = select_memory_limit(limit, found);
        i = i + 1;
    }
    assert(all.take(all.len() as int) == all);
    limit
}

/// The directories whose limit files matter to this process, in the order of the
/// lines of `/proc/self/cgroup`.
pub open spec fn line_levels(lines: Seq<Seq<char>>) -> Seq<Seq<char>>
    decreases lines.len(),
{
    if lines.len() == 0 {
        Seq::empty()
    } else {
        let path = membership(lines.last()).2;
        line_levels(lines.drop_last()) + Seq::new(
            components(path).len() + 1,
            |i: int| level(path, components(path).len() - i),
        )
    }
}

/// The directories whose limit files are to be read.
pub fn cgroup_dirs(memberships: &str) -> (r: Vec<String>)
    ensures
        views(r@) == line_levels(text_lines(memberships@)),
{
    let lines = split_lines(memberships);
    let ghost all = text_lines(memberships@);
    let mut out: Vec<String> = Vec::new();
    let mut i: usize = 0;
    assert(all.take(0) == Seq::<Seq<char>>::empty());
    assert(views(out@) == Seq::<Seq<char>>::empty());
    while i < lines.len()
        invariant
            i <= lines@.len(),
            views(lines@) == all,
            views(out@) == line_levels(all.take(i as int)),
        decreases lines@.len() - i,
    {
        proof {
            assert(all.take(i + 1).drop_last() == all.take(i as int));
            assert(all.take(i + 1).last() == lines@[i as int]@);
        }
        let (_, _, path) = split_membership(lines[i].as_str());
        let mut levels = cgroup_levels(path.as_str());
        let ghost before = views(out@);
        let ghost more = views(levels@);
        out.append(&mut levels);
        assert(views(out@) =~= before + more);
        i = i + 1;
    }
    assert(all.take(all.len() as int) == all);
    out
}

/// Slots for the sessions of some workers. The first session is there from the
/// start; the others are made when they are first needed.
pub fn lazy_worker_slots<T>(workers: usize, first: T) -> (r: Vec<Option<T>>)
    ensures
        r@.len() == (if workers < 1 {
            1
        } else {
            workers
        }),
        r@[0] == Some(first),
        forall|i: int| 1 <= i < r@.len() ==> #[trigger] r@[i] is None,
{
    let n: usize = if workers < 1 {
        1
    } else {
        workers
    };
    let mut out: Vec<Option<T>> = Vec::new();
    out.push(Some(first));
    let mut i: usize = 1;
    while i < n
        invariant
            1 <= i <= n,
            out@.len() == i,
            out@[0] == Some(first),
            forall|k: int| 1 <= k < i ==> #[trigger] out@[k] is None,
        decreases n - i,
    {
        out.push(None);
        i = i + 1;
    }
    out
}

/// How a model is run on the CPU.
pub struct EmbedderPlan {
    pub choice: ModelChoice,
    /// How many sessions are run side by side.
    pub workers: usize,
    /// How many threads each session uses.
    pub intra_threads: usize,
}

/// How many sessions are run: as many as the user says, or an automatic number;
/// at least one.
pub open spec fn worker_count(
    model: Seq<char>,
    workers: Option<usize>,
    cpus: nat,
    ram: Option<nat>,
) -> nat {
    match workers {
        Some(n) => if n < 1 {
            1
        } else {
            n as nat
        },
        None => auto_workers(model, cpus, ram),
    }
}

/// A division that gives at least 1.
pub open spec fn share(a: nat, b: nat) -> nat {
    if a / b < 1 {
        1
    } else {
        a / b
    }
}

/// The text that describes a plan.
pub open spec fn plan_text(short_id: Seq<char>, workers: nat, threads: nat) -> Seq<char> {
    "cpu/onnx \u{b7} "@ + short_id + " \u{b7} "@ + decimal(workers)
        + " planned session(s) (1 eager, "@ + decimal((workers - 1) as nat) + " lazy) \u{d7} "@
        + decimal(threads)
        + " intra-threads \u{b7} memory scales with sessions \u{d7} batch size \u{b7} tweak: --workers N to cap parallelism, or --backend mlx for the GPU"@
}

impl EmbedderPlan {
    /// Plans how to run a model on a machine with `cpus` cores and `ram` bytes of
    /// memory.
    pub fn new(model_name: &str, workers: Option<usize>, cpus: usize, ram: Option<u64>) -> (r:
        Result<EmbedderPlan, UnknownModel>)
        ensures
            match model_of(model_name@) {
                Some(m) => r matches Ok(p) && p.choice@ == m && p.workers == worker_count(
                    m.short_id,
                    workers,
                    cpus as nat,
                    limit_view(ram),
                ) && p.intra_threads == share(cpus as nat, p.workers as nat) && p.workers >= 1,
                None => r matches Err(e) && e.name@ == model_name@,
            },
    {
        let choice = match parse_model(model_name) {
            Ok(c) => c,
            Err(e) => {
                return Err(e);
            },
        };
        let workers: usize = match workers {
            Some(n) => if n < 1 {
                1
            } else {
                n
            },
            None => auto_worker_count(choice.short_id, cpus, ram),
        };
        let threads: usize = cpus / workers;
        Ok(
            EmbedderPlan {
                choice,
                workers,
                intra_threads: if threads < 1 {
                    1
                } else {
                    threads
                },
            },
        )
    }

    /// One-line summary of the plan and how to tweak it.
    pub fn describe(&self) -> (r: String)
        requires
            self.workers >= 1,
        ensures
            r@ == plan_text(
                self.choice.short_id@,
                self.workers as nat,
                self.intra_threads as nat,
            ),
    {
        let mut s = "cpu/onnx \u{b7} ".to_owned();
        s.append(self.choice.short_id);
        s.append(" \u{b7} ");
        push_decimal(&mut s, self.workers as u128);
        s.append(" planned session(s) (1 eager, ");
        push_decimal(&mut s, (self.workers - 1) as u128);
        s.append(" lazy) \u{d7} ");
        push_decimal(&mut s, self.intra_threads as u128);
        s.append(
            " intra-threads \u{b7} memory scales with sessions \u{d7} batch size \u{b7} tweak: --workers N to cap parallelism, or --backend mlx for the GPU",
        );
        s
    }

    /// The batch size that the CPU prefers: one text per dynamic-shape batch
    /// avoids padding.
    pub fn default_batch_size(&self) -> (r: usize)
        ensures
            r == 1,
    {
        1
    }
}

/// The batch size that a backend prefers where it does not say otherwise.
pub const DEFAULT_BATCH_SIZE: usize = 16;

/// A slug: lower-case letters, digits and hyphens, at least one.
pub open spec fn is_slug(s: Seq<char>) -> bool {
    &&& s.len() > 0
    &&& forall|i: int|
        0 <= i < s.len() ==> {
            let c = #[trigger] s[i];
            ('a' <= c && c <= 'z') || ('0' <= c && c <= '9') || c == '-'
        }
}

/// The short id of a model can be a segment of a ref name.
pub proof fn law_short_id_is_slug(name: Seq<char>)
    requires
        model_of(name) is Some,
    ensures
        is_slug(model_of(name)->0.short_id),
{
    reveal_strlit("bge-small-q");
    reveal_strlit("bge-small");
    reveal_strlit("bge-base");
    reveal_strlit("minilm");
    reveal_strlit("jina-code");
}

/// A model is found by its short id, and by its canonical id.
pub proof fn law_model_found_by_either_name(name: Seq<char>)
    requires
        model_of(name) is Some,
    ensures
        model_of(model_of(name)->0.short_id) == model_of(name),
        model_of(model_of(name)->0.canonical_id) == model_of(name),
{
    reveal_strlit("bge-small-q");
    reveal_strlit("bge-small");
    reveal_strlit("bge-base");
    reveal_strlit("minilm");
    reveal_strlit("jina-code");
    reveal_strlit("BAAI/bge-small-en-v1.5-quantized");
    reveal_strlit("BAAI/bge-small-en-v1.5");
    reveal_strlit("BAAI/bge-base-en-v1.5");
    reveal_strlit("sentence-transformers/all-MiniLM-L6-v2");
    reveal_strlit("jinaai/jina-embeddings-v2-base-code");
    assert("bge-small-q"@.len() == 11);
    assert("bge-small"@.len() == 9);
    assert("bge-base"@.len() == 8);
    assert("minilm"@.len() == 6);
    assert("jina-code"@.len() == 9);
    assert("BAAI/bge-small-en-v1.5-quantized"@.len() == 32);
    assert("BAAI/bge-small-en-v1.5"@.len() == 22);
    assert("BAAI/bge-base-en-v1.5"@.len() == 21);
    assert("sentence-transformers/all-MiniLM-L6-v2"@.len() == 38);
    assert("jinaai/jina-embeddings-v2-base-code"@.len() == 35);
    assert("bge-small"@[0] == 'b' && "jina-code"@[0] == 'j');
}

/// Automatic sessions take three quarters of a GiB each and leave a GiB and a half,
/// and a quarter of the memory, unless there is only one. There are no more than
/// cores, or than eight, and more than one only for a small encoder. And there are
/// as many as all this allows: one more would not fit. Without knowledge of the
/// memory there is one.
pub proof fn law_workers_fill_memory(model: Seq<char>, cpus: nat, ram: nat)
    ensures
        ({
            let w = auto_workers(model, cpus, Some(ram));
            let small = model == "minilm"@ || model == "bge-small"@ || model == "bge-small-q"@;
            let fits = |n: nat|
                0x3000_0000 * n + 0x6000_0000 <= ram && 4 * (0x3000_0000 * n) <= 3 * ram;
            &&& w >= 1
            &&& w > 1 ==> small && w <= cpus && w <= 8 && fits(w)
            &&& small && w < cpus && w < 8 ==> !fits((w + 1) as nat)
        }),
        auto_workers(model, cpus, None) == 1,
{
    let w = auto_workers(model, cpus, Some(ram));
    let spare = 4 * ram - headroom4(ram);
    let s = sessions_in(ram);
    if spare >= 0 {
        lemma_fundamental_div_mod(spare, 3 * GIB as int);
        lemma_mod_bound(spare, 3 * GIB as int);
        assert(3 * GIB * s <= spare < 3 * GIB * s + 3 * GIB);
    }
}

/// Every session gets its share of the cores: as many threads as go evenly, and at
/// least one.
pub proof fn law_threads_share_cores(cpus: nat, workers: nat)
    requires
        workers >= 1,
    ensures
        share(cpus, workers) >= 1,
        share(cpus, workers) == 1 || share(cpus, workers) * workers <= cpus,
        (share(cpus, workers) + 1) * workers > cpus,
{
    let q = cpus as int / workers as int;
    lemma_fundamental_div_mod(cpus as int, workers as int);
    lemma_mod_bound(cpus as int, workers as int);
    assert(workers * q == q * workers) by (nonlinear_arith);
    assert((q + 1) * workers == q * workers + workers) by (nonlinear_arith);
    if share(cpus, workers) != q {
        assert(2 * workers > cpus);
    }
}

/// A user's number of sessions counts, if it is not zero.
pub proof fn law_workers_as_asked(model: Seq<char>, n: usize, cpus: nat, ram: Option<nat>)
    ensures
        n >= 1 ==> worker_count(model, Some(n), cpus, ram) == n,
        worker_count(model, Some(0), cpus, ram) == 1,
        worker_count(model, None, cpus, ram) == auto_workers(model, cpus, ram),
{
}

/// A limit is the number that its file holds, if that is positive and fits; white
/// space around it makes no difference, and anything else is no limit.
pub proof fn law_limit_is_read(a: Seq<char>, n: nat, b: Seq<char>, raw: Seq<char>)
    requires
        blank(a),
        blank(b),
    ensures
        0 < n <= u64::MAX ==> cgroup_limit(a + decimal(n) + b) == Some(n),
        n == 0 || n > u64::MAX ==> cgroup_limit(a + decimal(n) + b) is None,
        parsed(trimmed(raw)) is None ==> cgroup_limit(raw) is None,
{
    let d = decimal(n);
    law_decimal_parses(n);
    lemma_decimal_digits(n);
    assert(is_digit(d[0]) && is_digit(d[d.len() - 1]));
    law_trim(a, d, b);
}

/// Of two limits the smaller one counts, in whatever order they come, and one that
/// is missing does not count.
pub proof fn law_smaller_limit(a: nat, b: nat, x: Option<nat>)
    ensures
        smaller(Some(a), Some(b)) == Some(if a <= b {
            a
        } else {
            b
        }),
        smaller(x, None) == x,
        smaller(None, x) == x,
{
}

/// A field of a status text is read off the first line that starts with its name:
/// the number that comes next, in KiB, as bytes. Other lines before it are passed
/// over.
pub proof fn law_kib_field_is_read(
    line: Seq<char>,
    rest: Seq<char>,
    prefix: Seq<char>,
    gap: Seq<char>,
    kib: nat,
    tail: Seq<char>,
)
    requires
        !line.contains('\n'),
        line.len() > 0 ==> line.last() != '\r',
        blank(gap),
        tail.len() == 0 || is_space(tail[0]),
    ensures
        !prefix.is_prefix_of(line) ==> kib_field(line + seq!['\n'] + rest, prefix) == kib_field(
            rest,
            prefix,
        ),
        line == prefix + gap + decimal(kib) + tail ==> kib_field(
            line + seq!['\n'] + rest,
            prefix,
        ) == (if kib * 1024 <= u64::MAX {
            Some(kib * 1024)
        } else {
            None
        }),
        kib_field(Seq::empty(), prefix) is None,
{
    law_lines_in_order(line, rest);
    let text = line + seq!['\n'] + rest;
    lemma_first_after_cons(line, text_lines(rest), prefix);
    let d = decimal(kib);
    law_decimal_parses(kib);
    lemma_decimal_digits(kib);
    let none = Seq::<Seq<char>>::empty();
    assert(text_lines(Seq::<char>::empty()) == none);
    assert(first_after(none, prefix) is None);
    if line == prefix + gap + d + tail {
        assert(prefix.is_prefix_of(line));
        let after = gap + d + tail;
        assert(line.skip(prefix.len() as int) == after);
        assert(is_word(d)) by {
            assert forall|i: int| 0 <= i < d.len() implies !is_space(#[trigger] d[i]) by {
                assert(is_digit(d[i]));
            }
        }
        let empty = Seq::<char>::empty();
        assert(blank(empty));
        if tail.len() == 0 {
            law_words_in_order(d, empty, empty, empty);
            assert(d + tail == d + empty + empty);
        } else {
            let one = seq![tail[0]];
            assert(blank(one));
            law_words_in_order(d, one, tail.drop_first(), empty);
            assert(d + tail == d + one + tail.drop_first());
        }
        assert(words(d + tail)[0] == d);
        assert(after == gap + (d + tail));
        if gap.len() == 0 {
            assert(gap + (d + tail) == d + tail);
        } else {
            law_words_in_order(d, gap, d + tail, empty);
        }
        assert(words(after) == words(d + tail));
    }
}

/// The first line that starts with a prefix is the first line, or one behind it.
proof fn lemma_first_after_cons(line: Seq<char>, lines: Seq<Seq<char>>, prefix: Seq<char>)
    ensures
        first_after(seq![line] + lines, prefix) == (if prefix.is_prefix_of(line) {
            Some(line.skip(prefix.len() as int))
        } else {
            first_after(lines, prefix)
        }),
    decreases lines.len(),
{
    let all = seq![line] + lines;
    if lines.len() == 0 {
        assert(all.drop_last() == Seq::<Seq<char>>::empty());
        assert(first_after(all.drop_last(), prefix) is None);
        assert(all.last() == line);
    } else {
        lemma_first_after_cons(line, lines.drop_last(), prefix);
        assert(all.drop_last() == seq![line] + lines.drop_last());
        assert(all.last() == lines.last());
    }
}

/// The components of a path are what stands between its slashes, in order, but for
/// empty ones and `.`. Each level is the one above it, a slash and the next
/// component; the root is the empty path.
pub proof fn law_levels_of_path(a: Seq<char>, b: Seq<char>, c: Seq<char>, path: Seq<char>, k: int)
    requires
        !c.contains('/'),
        1 <= k < components(path).len(),
    ensures
        components(a + seq!['/'] + b) == components(a) + components(b),
        c.len() > 0 && c != seq!['.'] ==> components(c) == seq![c],
        c.len() == 0 || c == seq!['.'] ==> components(c).len() == 0,
        level(path, 0).len() == 0,
        level(path, 1) == components(path)[0],
        level(path, k + 1) == level(path, k) + seq!['/'] + components(path)[k],
{
    reveal_strlit(".");
    reveal_strlit("/");
    assert("."@ =~= seq!['.']);
    assert("/"@ =~= seq!['/']);
    law_split_at_separator(a, '/', b);
    lemma_kept_components(split_on(a, '/'), split_on(b, '/'));
    law_split_at_separator(c, '/', b);
    let none = Seq::<Seq<char>>::empty();
    assert(seq![c].drop_last() == none);
    assert(kept_components(none) == none);
    assert(components(c) == kept_components(seq![c]));
    let cs = components(path);
    assert(cs.take(0) == none);
    assert(cs.take(1) == seq![cs[0]]);
    assert(cs.take(k + 1).drop_last() == cs.take(k));
    assert(cs.take(k + 1).last() == cs[k]);
}

/// Components are kept one by one.
proof fn lemma_kept_components(a: Seq<Seq<char>>, b: Seq<Seq<char>>)
    ensures
        kept_components(a + b) == kept_components(a) + kept_components(b),
    decreases b.len(),
{
    if b.len() == 0 {
        assert(a + b == a);
    } else {
        lemma_kept_components(a, b.drop_last());
        assert((a + b).drop_last() == a + b.drop_last());
        assert((a + b).last() == b.last());
    }
}

/// The limit of a path is that of one of the directories on the way to it, and no
/// directory on the way has a smaller one; without any limit there is none.
pub proof fn law_limit_is_least(
    files: Map<Seq<char>, String>,
    path: Seq<char>,
    k: int,
) -> (j: int)
    requires
        k >= 0,
    ensures
        least_limit(files, path, k) is Some ==> 0 <= j <= k && files.contains_key(level(path, j))
            && cgroup_limit(files[level(path, j)]@) == least_limit(files, path, k),
        forall|i: int|
            0 <= i <= k && files.contains_key(#[trigger] level(path, i)) && cgroup_limit(
                files[level(path, i)]@,
            ) is Some ==> least_limit(files, path, k) is Some && least_limit(files, path, k)->0
                <= cgroup_limit(files[level(path, i)]@)->0,
    decreases k,
{
    let here = limit_at(files, level(path, k));
    if k == 0 {
        assert(least_limit(files, path, -1) is None);
        0
    } else {
        let j = law_limit_is_least(files, path, k - 1);
        let above = least_limit(files, path, k - 1);
        assert(least_limit(files, path, k) == smaller(here, above));
        if here is Some && (above is None || here->0 < above->0) {
            k
        } else {
            j
        }
    }
}

/// A line of `/proc/self/cgroup` is read as it is made up: a hierarchy, its
/// controllers and a path, with a colon between each two. The path may hold colons.
pub proof fn law_membership_reads_back(
    hierarchy: Seq<char>,
    controllers: Seq<char>,
    path: Seq<char>,
    files: CgroupFiles,
)
    requires
        !hierarchy.contains(':'),
        !controllers.contains(':'),
    ensures
        ({
            let line = hierarchy + seq![':'] + controllers + seq![':'] + path;
            let n = components(path).len() as int;
            let older = least_limit(files.memory@, path, n);
            &&& membership(line) == (hierarchy, controllers, path)
            &&& hierarchy == "0"@ && controllers.len() == 0 ==> line_limit(line, files)
                == least_limit(files.unified@, path, n)
            &&& split_on(controllers, ',').contains("memory"@) ==> line_limit(line, files) == (
            if older is Some {
                older
            } else {
                least_limit(files.combined@, path, n)
            })
            &&& (hierarchy != "0"@ || controllers.len() > 0) && !split_on(
                controllers,
                ',',
            ).contains("memory"@) ==> line_limit(line, files) is None
        }),
{
    let line = hierarchy + seq![':'] + controllers + seq![':'] + path;
    assert(line == hierarchy + seq![':'] + (controllers + seq![':'] + path));
    law_cut_at_first(hierarchy, ':', controllers + seq![':'] + path);
    law_cut_at_first(controllers, ':', path);
    if controllers.len() == 0 {
        assert(controllers == Seq::<char>::empty());
        assert(split_on(controllers, ',') == seq![Seq::<char>::empty()]);
        reveal_strlit("memory");
        assert forall|i: int| 0 <= i < 1 implies split_on(controllers, ',')[i] != "memory"@ by {}
    }
}

/// The least limit of some lines is that of one of them, and none of them has a
/// smaller one.
pub proof fn law_least_of_lines(lines: Seq<Seq<char>>, files: CgroupFiles) -> (j: int)
    ensures
        lines_limit(lines, files) is Some ==> 0 <= j < lines.len() && line_limit(lines[j], files)
            == lines_limit(lines, files),
        forall|i: int|
            0 <= i < lines.len() && line_limit(#[trigger] lines[i], files) is Some ==> lines_limit(
                lines,
                files,
            ) is Some && lines_limit(lines, files)->0 <= line_limit(lines[i], files)->0,
    decreases lines.len(),
{
    if lines.len() == 0 {
        0
    } else {
        let init = lines.drop_last();
        let j = law_least_of_lines(init, files);
        let above = lines_limit(init, files);
        let here = line_limit(lines.last(), files);
        assert forall|i: int|
            0 <= i < lines.len() && line_limit(#[trigger] lines[i], files) is Some implies lines_limit(
            lines,
            files,
        ) is Some && lines_limit(lines, files)->0 <= line_limit(lines[i], files)->0 by {
            if i < init.len() {
                assert(init[i] == lines[i]);
            }
        }
        if above is Some && (here is None || above->0 < here->0) {
            assert(init[j] == lines[j]);
            j
        } else {
            lines.len() - 1
        }
    }
}

/// The directories to look at are, line by line, every level of the line's path,
/// from the path itself up to the root.
pub proof fn law_levels_line_by_line(a: Seq<Seq<char>>, b: Seq<Seq<char>>, line: Seq<char>, k: int)
    requires
        0 <= k <= components(membership(line).2).len(),
    ensures
        line_levels(a + b) == line_levels(a) + line_levels(b),
        line_levels(seq![line]).len() == components(membership(line).2).len() + 1,
        line_levels(seq![line])[components(membership(line).2).len() - k] == level(
            membership(line).2,
            k,
        ),
    decreases b.len(),
{
    let none = Seq::<Seq<char>>::empty();
    assert(seq![line].drop_last() == none);
    assert(line_levels(none) == none);
    if b.len() == 0 {
        assert(a + b == a);
    } else {
        law_levels_line_by_line(a, b.drop_last(), line, k);
        assert((a + b).drop_last() == a + b.drop_last());
        assert((a + b).last() == b.last());
    }
}

/// There are five models. Each has one slug and one canonical id, and the two small
/// BGE encoders, quantized or not, and MiniLM have 384 dimensions, the others 768.
pub proof fn law_models(name: Seq<char>)
    ensures
        model_of(name) is Some <==> seq![
            "bge-small-q"@,
            "bge-small"@,
            "bge-base"@,
            "minilm"@,
            "jina-code"@,
            "BAAI/bge-small-en-v1.5-quantized"@,
            "BAAI/bge-small-en-v1.5"@,
            "BAAI/bge-base-en-v1.5"@,
            "sentence-transformers/all-MiniLM-L6-v2"@,
            "jinaai/jina-embeddings-v2-base-code"@,
        ].contains(name),
        model_of(name) matches Some(m) ==> match m.enum_id {
            EmbeddingModel::BgeSmallEnV15Q => m.short_id == "bge-small-q"@ && m.canonical_id
                == "BAAI/bge-small-en-v1.5-quantized"@ && m.dim == 384,
            EmbeddingModel::BgeSmallEnV15 => m.short_id == "bge-small"@ && m.canonical_id
                == "BAAI/bge-small-en-v1.5"@ && m.dim == 384,
            EmbeddingModel::BgeBaseEnV15 => m.short_id == "bge-base"@ && m.canonical_id
                == "BAAI/bge-base-en-v1.5"@ && m.dim == 768,
            EmbeddingModel::AllMiniLmL6V2 => m.short_id == "minilm"@ && m.canonical_id
                == "sentence-transformers/all-MiniLM-L6-v2"@ && m.dim == 384,
            EmbeddingModel::JinaEmbeddingsV2BaseCode => m.short_id == "jina-code"@
                && m.canonical_id == "jinaai/jina-embeddings-v2-base-code"@ && m.dim == 768,
        },
        model_of(name) matches Some(m) ==> name == m.short_id || name == m.canonical_id,
{
    let names = seq![
        "bge-small-q"@,
        "bge-small"@,
        "bge-base"@,
        "minilm"@,
        "jina-code"@,
        "BAAI/bge-small-en-v1.5-quantized"@,
        "BAAI/bge-small-en-v1.5"@,
        "BAAI/bge-base-en-v1.5"@,
        "sentence-transformers/all-MiniLM-L6-v2"@,
        "jinaai/jina-embeddings-v2-base-code"@,
    ];
    assert(names[0] == "bge-small-q"@ && names[1] == "bge-small"@ && names[2] == "bge-base"@
        && names[3] == "minilm"@ && names[4] == "jina-code"@);
    assert(names[5] == "BAAI/bge-small-en-v1.5-quantized"@ && names[6]
        == "BAAI/bge-small-en-v1.5"@ && names[7] == "BAAI/bge-base-en-v1.5"@ && names[8]
        == "sentence-transformers/all-MiniLM-L6-v2"@ && names[9]
        == "jinaai/jina-embeddings-v2-base-code"@);
}

/// What is said of a plan shows the model, the sessions and the threads of each.
pub proof fn law_plan_is_shown(short_id: Seq<char>, workers: nat, threads: nat)
    requires
        workers >= 1,
    ensures
        occurs(short_id, plan_text(short_id, workers, threads)),
        occurs(
            decimal(workers) + " planned session(s)"@,
            plan_text(short_id, workers, threads),
        ),
        occurs(decimal(threads) + " intra-threads"@, plan_text(short_id, workers, threads)),
{
    let a = "cpu/onnx \u{b7} "@;
    let b = " \u{b7} "@;
    let c = " planned session(s) (1 eager, "@;
    let d = decimal((workers - 1) as nat) + " lazy) \u{d7} "@;
    let e = " intra-threads \u{b7} memory scales with sessions \u{d7} batch size \u{b7} tweak: --workers N to cap parallelism, or --backend mlx for the GPU"@;
    let t = plan_text(short_id, workers, threads);
    reveal_strlit(" planned session(s)");
    reveal_strlit(" planned session(s) (1 eager, ");
    reveal_strlit(" intra-threads");
    reveal_strlit(
        " intra-threads \u{b7} memory scales with sessions \u{d7} batch size \u{b7} tweak: --workers N to cap parallelism, or --backend mlx for the GPU",
    );
    let w = decimal(workers);
    let n = decimal(threads);
    assert(t =~= a + short_id + (b + w + c + d + n + e));
    let _ = law_occurs(a, short_id, b + w + c + d + n + e);
    let c1 = " planned session(s)"@;
    let c2 = c.skip(19);
    assert(c =~= c1 + c2);
    assert(t =~= (a + short_id + b) + (w + c1) + (c2 + d + n + e));
    let _ = law_occurs(a + short_id + b, w + c1, c2 + d + n + e);
    let e1 = " intra-threads"@;
    let e2 = e.skip(14);
    assert(e =~= e1 + e2);
    assert(t =~= (a + short_id + b + w + c + d) + (n + e1) + e2);
    let _ = law_occurs(a + short_id + b + w + c + d, n + e1, e2);
}

} // verus!
