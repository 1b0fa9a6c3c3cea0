//! What the command line decides: the backend, the model, and what git is asked.

use vstd::prelude::*;
use vstd::string::*;

use crate::chunker::{chunks_of, law_chunk_holds_its_lines, lines_of};
use crate::embedder::{model_of, parse_model, UnknownModel};
use crate::mlx_embed::{mlx_model_of, parse_mlx_model, UnknownMlxModel};
use crate::notes::NOTES_REF_PREFIX;
use crate::payload::{field, has_header, law_header_pack, packed, peek_n};
use crate::sorted::same;
use crate::store::payload_views;
use crate::text::{
    blank, is_space, join, join_strings, law_trim, split_lines, split_on, split_string, text_lines, trim, trimmed, views,
};

verus! {

/// The MLX backend is to be used: the user asks for it, or leaves the choice open
/// on a build that has it, for a model that it has.
pub open spec fn wants_mlx(backend: Seq<char>, model: Seq<char>, built: bool) -> bool {
    if backend == "mlx"@ {
        true
    } else if backend == "cpu"@ {
        false
    } else {
        built && mlx_model_of(model) is Some
    }
}

/// Whether to use the MLX (Apple GPU) backend. `built` says whether this build has
/// it.
pub fn want_mlx(backend: &str, model: &str, built: bool) -> (r: bool)
    ensures
        r == wants_mlx(backend@, model@, built),
{
    if same(backend, "mlx") {
        true
    } else if same(backend, "cpu") {
        false
    } else {
        built && parse_mlx_model(model).is_ok()
    }
}

/// What to do for an embedder.
#[derive(Debug, Clone, Copy, PartialEq, Eq, Structural)]
pub enum EmbedderStep {
    /// Load the MLX backend. Where that fails and `fall_back` holds, load the CPU
    /// backend instead.
    Mlx { fall_back: bool },
    /// Load the CPU backend.
    Cpu,
    /// Refuse: this build has no MLX backend.
    NoMlx,
}

/// What to do for an embedder.
pub open spec fn embedder_step(backend: Seq<char>, model: Seq<char>, built: bool) -> EmbedderStep {
    if !wants_mlx(backend, model, built) {
        EmbedderStep::Cpu
    } else if built {
        EmbedderStep::Mlx { fall_back: backend == "auto"@ }
    } else if backend == "mlx"@ {
        EmbedderStep::NoMlx
    } else {
        EmbedderStep::Cpu
    }
}

/// Decides what to do for an embedder.
pub fn build_embedder(backend: &str, model: &str, built: bool) -> (r: EmbedderStep)
    ensures
        r == embedder_step(backend@, model@, built),
{
    if !want_mlx(backend, model, built) {
        EmbedderStep::Cpu
    } else if built {
        EmbedderStep::Mlx { fall_back: same(backend, "auto") }
    } else if same(backend, "mlx") {
        EmbedderStep::NoMlx
    } else {
        EmbedderStep::Cpu
    }
}

/// No backend has a model of this name.
#[derive(Debug)]
pub enum SpecError {
    Mlx(UnknownMlxModel),
    Cpu(UnknownModel),
}

impl SpecError {
    /// The name that no model has.
    pub open spec fn name(&self) -> Seq<char> {
        match self {
            SpecError::Mlx(e) => e.name@,
            SpecError::Cpu(e) => e.name@,
        }
    }
}

/// Resolve (short_id, dim) without loading a model.
pub fn resolve_spec(backend: &str, model: &str, built: bool) -> (r: Result<
    (String, usize),
    SpecError,
>)
    ensures
        wants_mlx(backend@, model@, built) && built ==> match mlx_model_of(model@) {
            Some(m) => r matches Ok(p) && p.0@ == m.short_id && p.1 == m.dim,
            None => r matches Err(e) && e is Mlx && e.name() == model@,
        },
        !(wants_mlx(backend@, model@, built) && built) ==> match model_of(model@) {
            Some(m) => r matches Ok(p) && p.0@ == m.short_id && p.1 == m.dim,
            None => r matches Err(e) && e is Cpu && e.name() == model@,
        },
{
    if want_mlx(backend, model, built) && built {
        return match parse_mlx_model(model) {
            Ok(s) => Ok((s.short_id.to_owned(), s.dim)),
            Err(e) => Err(SpecError::Mlx(e)),
        };
    }
    match parse_model(model) {
        Ok(c) => Ok((c.short_id.to_owned(), c.dim)),
        Err(e) => Err(SpecError::Cpu(e)),
    }
}

/// A build without the MLX backend resolves every model name as the CPU backend
/// does.
pub proof fn law_without_mlx_everything_is_cpu(backend: Seq<char>, model: Seq<char>)
    ensures
        embedder_step(backend, model, false) != (EmbedderStep::Mlx { fall_back: true }),
        embedder_step(backend, model, false) != (EmbedderStep::Mlx { fall_back: false }),
        embedder_step(backend, model, false) == EmbedderStep::NoMlx <==> backend == "mlx"@,
{
    reveal_strlit("mlx");
    reveal_strlit("cpu");
    assert("mlx"@[0] == 'm' && "cpu"@[0] == 'c');
}

/// The batch size of a run: the user's, or that which the backend prefers.
pub fn batch_size(asked: Option<usize>, preferred: usize) -> (r: usize)
    ensures
        r == (match asked {
            Some(n) => n,
            None => preferred,
        }),
{
    match asked {
        Some(n) => n,
        None => preferred,
    }
}

/// The query that some arguments make up, joined by blanks; `None` where it is
/// empty.
pub fn query_text(args: &Vec<String>) -> (r: Option<String>)
    ensures
        match r {
            Some(q) => q@ == join(views(args@), " "@) && q@.len() > 0,
            None => join(views(args@), " "@).len() == 0,
        },
{
    let q = join_strings(args, " ");
    if q.as_str().is_empty() {
        None
    } else {
        Some(q)
    }
}

/// The refspec that pushes the caches of all models.
pub open spec fn push_spec() -> Seq<char> {
    NOTES_REF_PREFIX@ + "/*:"@ + NOTES_REF_PREFIX@ + "/*"@
}

/// The refspec that pushes the caches of all models. Each model has a ref of its
/// own in one namespace.
pub fn push_refspec() -> (r: String)
    ensures
        r@ == push_spec(),
{
    let mut s = NOTES_REF_PREFIX.to_owned();
    s.append("/*:");
    s.append(NOTES_REF_PREFIX);
    s.append("/*");
    s
}

/// The refspec that fetches the caches of all models, whether or not that is a
/// fast-forward.
pub fn pull_refspec() -> (r: String)
    ensures
        r@ == "+"@ + push_spec(),
{
    let mut s = "+".to_owned();
    let rest = push_refspec();
    s.append(rest.as_str());
    s
}

/// The arguments of the git command that pushes the caches.
pub fn push_args(remote: &str, force: bool) -> (r: Vec<String>)
    ensures
        views(r@) == (if force {
            seq!["push"@, "--force"@, remote@, push_spec()]
        } else {
            seq!["push"@, remote@, push_spec()]
        }),
{
    let mut out: Vec<String> = Vec::new();
    out.push("push".to_owned());
    if force {
        out.push("--force".to_owned());
    }
    out.push(remote.to_owned());
    out.push(push_refspec());
    proof {
        if force {
            assert(views(out@) =~= seq!["push"@, "--force"@, remote@, push_spec()]);
        } else {
            assert(views(out@) =~= seq!["push"@, remote@, push_spec()]);
        }
    }
    out
}

/// The configuration key of the refspecs that `git fetch` uses for a remote.
pub fn fetch_key(remote: &str) -> (r: String)
    ensures
        r@ == "remote."@ + remote@ + ".fetch"@,
{
    let mut s = "remote.".to_owned();
    s.append(remote);
    s.append(".fetch");
    s
}

/// Some line is a text, but for white space around it.
pub open spec fn has_line(lines: Seq<Seq<char>>, text: Seq<char>) -> bool {
    exists|i: int| 0 <= i < lines.len() && trimmed(#[trigger] lines[i]) == text
}

/// Whether the refspec is among those that `git config --get-all` prints.
pub fn already_configured(body: &str) -> (r: bool)
    ensures
        r == has_line(text_lines(body@), "+"@ + push_spec()),
{
    let want = pull_refspec();
    let lines = split_lines(body);
    let ghost all = text_lines(body@);
    let mut i: usize = 0;
    while i < lines.len()
        invariant
            i <= lines@.len(),
            views(lines@) == all,
            all == text_lines(body@),
            want@ == "+"@ + push_spec(),
            forall|k: int| 0 <= k < i ==> trimmed(#[trigger] all[k]) != want@,
        decreases lines@.len() - i,
    {
        assert(all[i as int] == lines@[i as int]@);
        if same(trim(lines[i].as_str()).as_str(), want.as_str()) {
            return true;
        }
        i = i + 1;
    }
    false
}

/// The line before which an excerpt starts, counted from 0.
pub open spec fn excerpt_start(start_line: u32) -> int {
    if start_line == 0 {
        0
    } else {
        start_line - 1
    }
}

/// The line before which an excerpt ends.
pub open spec fn excerpt_end(text: Seq<char>, end_line: u32) -> int {
    if end_line < split_on(text, '\n').len() {
        end_line as int
    } else {
        split_on(text, '\n').len() as int
    }
}

/// Whether a text still has the lines of a hit.
pub fn has_excerpt(text: &str, start_line: u32, end_line: u32) -> (r: bool)
    ensures
        r == (excerpt_start(start_line) <= excerpt_end(text@, end_line)),
{
    let lines = split_string(text, '\n');
    assert(views(lines@).len() == lines@.len());
    let start: usize = if start_line == 0 {
        0
    } else {
        (start_line - 1) as usize
    };
    let end: usize = if (end_line as usize) < lines.len() {
        end_line as usize
    } else {
        lines.len()
    };
    start <= end
}

/// The lines of a hit: from `start_line` to `end_line`, counted from 1, as far as
/// the text has them.
pub fn excerpt(text: &str, start_line: u32, end_line: u32) -> (r: Vec<String>)
    requires
        excerpt_start(start_line) <= excerpt_end(text@, end_line),
    ensures
        views(r@) == split_on(text@, '\n').subrange(
            excerpt_start(start_line),
            excerpt_end(text@, end_line),
        ),
{
    let lines = split_string(text, '\n');
    let ghost all = split_on(text@, '\n');
    assert(views(lines@).len() == lines@.len());
    let start: usize = if start_line == 0 {
        0
    } else {
        (start_line - 1) as usize
    };
    let end: usize = if (end_line as usize) < lines.len() {
        end_line as usize
    } else {
        lines.len()
    };
    let mut out: Vec<String> = Vec::new();
    let mut i: usize = start;
    assert(views(out@) == all.subrange(start as int, start as int));
    while i < end
        invariant
            start <= i <= end <= lines@.len(),
            views(lines@) == all,
            views(out@) == all.subrange(start as int, i as int),
        decreases end - i,
    {
        let ghost before = views(out@);
        out.push(lines[i].clone());
        proof {
            assert(all[i as int] == lines@[i as int]@);
            assert(views(out@) == before.push(all[i as int]));
            assert(all.subrange(start as int, i + 1) =~= before.push(all[i as int]));
        }
        i = i + 1;
    }
    out
}

/// The number of chunks that some payloads announce.
pub open spec fn announced_chunks(payloads: Seq<(Seq<char>, Seq<u8>)>) -> nat
    decreases payloads.len(),
{
    if payloads.len() == 0 {
        0
    } else {
        let b = payloads.last().1;
        announced_chunks(payloads.drop_last()) + (if has_header(b) {
            field(b, 8, 4)
        } else {
            0
        })
    }
}

/// The number of bytes of some payloads.
pub open spec fn payload_bytes(payloads: Seq<(Seq<char>, Seq<u8>)>) -> nat
    decreases payloads.len(),
{
    if payloads.len() == 0 {
        0
    } else {
        payload_bytes(payloads.drop_last()) + payloads.last().1.len()
    }
}

/// How many chunks and bytes some payloads have together.
pub fn payload_totals(payloads: &Vec<(String, Vec<u8>)>) -> (r: (u128, u128))
    ensures
        r.0 == announced_chunks(payload_views(payloads@)),
        r.1 == payload_bytes(payload_views(payloads@)),
{
    let ghost all = payload_views(payloads@);
    let mut chunks: u128 = 0;
    let mut bytes: u128 = 0;
    let mut i: usize = 0;
    assert(all.take(0) == Seq::<(Seq<char>, Seq<u8>)>::empty());
    while i < payloads.len()
        invariant
            i <= payloads@.len(),
            all == payload_views(payloads@),
            chunks == announced_chunks(all.take(i as int)),
            bytes == payload_bytes(all.take(i as int)),
            chunks <= i * 0xffff_ffff,
            bytes <= i * 0xffff_ffff_ffff_ffff,
        decreases payloads@.len() - i,
    {
        let b = &payloads[i].1;
        proof {
            assert(all.take(i + 1).drop_last() == all.take(i as int));
            assert(all.take(i + 1).last() == (payloads@[i as int].0@, b@));
            crate::number::lemma_le_bounds();
            if has_header(b@) {
                crate::number::law_le_writes_back(b@.subrange(8, 12));
            }
        }
        bytes = bytes + b.len() as u128;
        match peek_n(b.as_slice()) {
            Some(n) => {
                chunks = chunks + n as u128;
            },
            None => {},
        }
        i = i + 1;
    }
    assert(all.take(all.len() as int) == all);
    (chunks, bytes)
}

/// Who asks for a backend gets it or is refused; who leaves the choice open gets
/// the GPU where this build has it and it has the model, with the CPU to fall back
/// on, and the CPU otherwise.
pub proof fn law_backend_choice(backend: Seq<char>, model: Seq<char>, built: bool)
    ensures
        backend != "cpu"@ && backend != "mlx"@ ==> embedder_step(backend, model, built) == (
        if built && mlx_model_of(model) is Some {
            EmbedderStep::Mlx { fall_back: backend == "auto"@ }
        } else {
            EmbedderStep::Cpu
        }),
        embedder_step("cpu"@, model, built) == EmbedderStep::Cpu,
        embedder_step("mlx"@, model, true) == (EmbedderStep::Mlx { fall_back: false }),
        embedder_step("mlx"@, model, false) == EmbedderStep::NoMlx,
        embedder_step("auto"@, model, built) == (if built && mlx_model_of(model) is Some {
            EmbedderStep::Mlx { fall_back: true }
        } else {
            EmbedderStep::Cpu
        }),
{
    reveal_strlit("cpu");
    reveal_strlit("mlx");
    reveal_strlit("auto");
    assert("cpu"@[0] == 'c' && "mlx"@[0] == 'm' && "auto"@[0] == 'a');
}

/// Pushing and pulling speak of every ref below that of the caches, on both sides.
pub proof fn law_refspec_names_all_models()
    ensures
        push_spec() == "refs/notes/vector-grep/*:refs/notes/vector-grep/*"@,
{
    reveal_strlit("refs/notes/vector-grep");
    reveal_strlit("/*:");
    reveal_strlit("/*");
    reveal_strlit("refs/notes/vector-grep/*:refs/notes/vector-grep/*");
    assert(push_spec() =~= "refs/notes/vector-grep/*:refs/notes/vector-grep/*"@);
}

/// An excerpt starts at the line before which `start_line - 1` others stand, and
/// ends behind `end_line`, or with the text.
pub proof fn law_excerpt_bounds(text: Seq<char>, start_line: u32, end_line: u32)
    ensures
        start_line >= 1 ==> excerpt_start(start_line) + 1 == start_line,
        start_line == 0 ==> excerpt_start(start_line) == 0,
        excerpt_end(text, end_line) <= end_line,
        excerpt_end(text, end_line) <= split_on(text, '\n').len(),
        excerpt_end(text, end_line) == end_line || excerpt_end(text, end_line) == split_on(
            text,
            '\n',
        ).len(),
{
}

/// The excerpt for a chunk is the lines that the chunk was made of.
pub proof fn law_excerpt_shows_chunk(text: Seq<char>, k: int)
    requires
        0 <= k < chunks_of(text).len(),
        lines_of(text).len() <= u32::MAX,
    ensures
        ({
            let c = chunks_of(text)[k];
            let n = lines_of(text).len() as int;
            let last = if 32 * k + 40 < n {
                32 * k + 40
            } else {
                n
            };
            split_on(text, '\n').subrange(
                excerpt_start(c.start_line),
                excerpt_end(text, c.end_line),
            ) == lines_of(text).subrange(32 * k, last)
        }),
{
    law_chunk_holds_its_lines(text, k);
    let c = chunks_of(text)[k];
    let n = lines_of(text).len() as int;
    let last = if 32 * k + 40 < n {
        32 * k + 40
    } else {
        n
    };
    assert(excerpt_end(text, c.end_line) == last);
    assert(split_on(text, '\n').subrange(32 * k, last) =~= lines_of(text).subrange(32 * k, last));
}

/// Totals add up: those of two lists are those of both together. A packed payload
/// counts its chunks and all of its bytes; bytes without a header count no chunk.
pub proof fn law_totals_add_up(
    a: Seq<(Seq<char>, Seq<u8>)>,
    b: Seq<(Seq<char>, Seq<u8>)>,
    sha: Seq<char>,
    bytes: Seq<u8>,
    dim: nat,
    ranges: Seq<(u32, u32)>,
    bits: Seq<u32>,
)
    requires
        dim <= u16::MAX,
        ranges.len() <= u32::MAX,
    ensures
        announced_chunks(a + b) == announced_chunks(a) + announced_chunks(b),
        payload_bytes(a + b) == payload_bytes(a) + payload_bytes(b),
        announced_chunks(seq![(sha, packed(dim, ranges, bits))]) == ranges.len(),
        payload_bytes(seq![(sha, bytes)]) == bytes.len(),
        bytes.len() < 12 ==> announced_chunks(seq![(sha, bytes)]) == 0,
    decreases b.len(),
{
    law_header_pack(dim, ranges, bits);
    let none = Seq::<(Seq<char>, Seq<u8>)>::empty();
    let one = seq![(sha, packed(dim, ranges, bits))];
    assert(one.drop_last() == none);
    assert(announced_chunks(one.drop_last()) == 0);
    assert(seq![(sha, bytes)].drop_last() == none);
    assert(announced_chunks(none) == 0 && payload_bytes(none) == 0);
    if b.len() == 0 {
        assert(a + b == a);
    } else {
        law_totals_add_up(a, b.drop_last(), sha, bytes, dim, ranges, bits);
        assert((a + b).drop_last() == a + b.drop_last());
        assert((a + b).last() == b.last());
    }
}

/// A refspec is configured if a line of the configuration holds it, with white space
/// around it or not, and nothing else.
pub proof fn law_line_is_found(
    before: Seq<Seq<char>>,
    a: Seq<char>,
    text: Seq<char>,
    b: Seq<char>,
    behind: Seq<Seq<char>>,
    lines: Seq<Seq<char>>,
)
    requires
        blank(a),
        blank(b),
        text.len() > 0,
        !is_space(text[0]) && !is_space(text.last()),
        forall|i: int| 0 <= i < lines.len() ==> trimmed(#[trigger] lines[i]) != text,
    ensures
        has_line(before + seq![a + text + b] + behind, text),
        !has_line(lines, text),
{
    law_trim(a, text, b);
    let all = before + seq![a + text + b] + behind;
    assert(all[before.len() as int] == a + text + b);
}

} // verus!
