//! Embedding storage as a git notes ref.
//!
//! Layout under `refs/notes/vector-grep/<model-short-id>`:
//!
//! ```text
//! <2hex>/<rest38>            payload, attached to the *source* blob OID
//! ```
//!
//! This is the conventional `git notes` tree layout: each note is a regular blob
//! whose tree path is the SHA1 of the object it annotates. The schema is in every
//! payload's header and the model is in the ref name, so switching models
//! invalidates nothing.
//!
//! Writes go through `git fast-import`, reads through `git cat-file --batch`.
//! This module computes what is written to git and reads what git answers;
//! running git is left to the caller.

use vstd::prelude::*;
use vstd::slice::*;
use vstd::string::*;
use vstd::utf8::*;

use crate::notes::{is_hex_digit, is_object_name, law_note_path_form, law_note_path_reads_back, law_note_path_unique, law_ref_name_form, note_path, note_subpath, path_sha, ref_name_of, sha_from_note_path, splittable};
use crate::number::{decimal, is_digit, law_decimal_parses, lemma_decimal_digits, parse_usize, parsed, push_decimal};
use crate::payload::{law_header_pack, pack_payload, packed, peek_dim, peeked_dim};
use crate::repo::lemma_encoding_lacks;
use crate::sorted::{ascending, law_set_holds_nothing_twice, lemma_ascending_index, precedes, same, StrMap, StrSet};
use crate::text::{blank, contains_bytes, cut, ends_with, first_index, is_space, is_word, law_cut_at_first, law_occurs, law_words_in_order, lemma_encode_concat, lemma_first_index, lemma_first_index_is, lemma_words_blank, lemma_words_push, occurs, split_lines, split_once, split_words, text_lines, trim, trim_end, trimmed, trimmed_end, utf8_string, views, words};

pub use crate::notes::{ref_for, NOTES_REF_PREFIX};
pub use crate::payload::{peek_n, unpack_payload, SCHEMA};

verus! {

/// Why an answer of git could not be read.
#[derive(Debug, Clone, Copy, PartialEq, Eq, Structural)]
pub enum StoreError {
    /// Text that is not UTF-8.
    Utf8,
    /// An object that ends before the size that was announced.
    Eof,
}

/// In-memory representation of one model's notes ref.
pub struct Store {
    pub short_id: String,
    pub ref_name: String,
    pub dim: usize,
    /// Pending new note payloads, keyed by source blob_sha. Flushed by a commit.
    pub blob_payloads: StrMap<Vec<u8>>,
    /// Blob SHAs that should be present after the next commit. Anything not in
    /// here is pruned. None = keep everything.
    pub referenced: Option<StrSet>,
    /// Blob SHAs whose notes the next commit drops.
    pub removed: StrSet,
    /// True if anything mutated.
    pub dirty: bool,
}

/// The model of a store.
pub struct StoreView {
    pub short_id: Seq<char>,
    pub ref_name: Seq<char>,
    pub dim: nat,
    /// The pending payloads.
    pub pending: Map<Seq<char>, Seq<u8>>,
    /// The blobs with a pending payload, in ascending order.
    pub order: Seq<Seq<char>>,
    pub referenced: Option<Seq<Seq<char>>>,
    pub removed: Seq<Seq<char>>,
    pub dirty: bool,
}

impl View for Store {
    type V = StoreView;

    open spec fn view(&self) -> StoreView {
        StoreView {
            short_id: self.short_id@,
            ref_name: self.ref_name@,
            dim: self.dim as nat,
            pending: self.blob_payloads@.map_values(|v: Vec<u8>| v@),
            order: self.blob_payloads.keys(),
            referenced: match self.referenced {
                Some(s) => Some(s@),
                None => None,
            },
            removed: self.removed@,
            dirty: self.dirty,
        }
    }
}

/// A store with nothing pending.
pub open spec fn opened(short_id: Seq<char>, dim: nat) -> StoreView {
    StoreView {
        short_id,
        ref_name: ref_name_of(short_id),
        dim,
        pending: Map::empty(),
        order: Seq::empty(),
        referenced: None,
        removed: Seq::empty(),
        dirty: false,
    }
}

/// The object that a line of `git ls-tree` annotates.
pub open spec fn line_sha(line: Seq<char>) -> Option<Seq<char>> {
    match cut(line, '\t') {
        Some((meta, path)) => path_sha(path),
        None => None,
    }
}

/// The objects that the lines of `git ls-tree` annotate.
pub open spec fn listed_shas(lines: Seq<Seq<char>>) -> Seq<Seq<char>>
    decreases lines.len(),
{
    if lines.len() == 0 {
        Seq::empty()
    } else {
        let before = listed_shas(lines.drop_last());
        match line_sha(lines.last()) {
            Some(s) => before.push(s),
            None => before,
        }
    }
}

/// Only objects are annotated.
proof fn lemma_listed_names(lines: Seq<Seq<char>>, sha: Seq<char>)
    requires
        listed_shas(lines).contains(sha),
    ensures
        is_object_name(sha),
    decreases lines.len(),
{
    if lines.len() > 0 {
        let before = listed_shas(lines.drop_last());
        let i = choose|i: int| 0 <= i < listed_shas(lines).len() && listed_shas(lines)[i] == sha;
        if i < before.len() {
            assert(before[i] == sha);
            lemma_listed_names(lines.drop_last(), sha);
        } else {
            let (meta, path) = cut(lines.last(), '\t')->0;
            law_note_path_unique(path);
        }
    }
}

/// The path and the object of a line of `git ls-tree` that names a blob.
pub open spec fn line_entry(line: Seq<char>) -> Option<(Seq<char>, Seq<char>)> {
    match cut(line, '\t') {
        Some((meta, path)) => if words(meta).len() >= 3 && words(meta)[1] == "blob"@ {
            Some((path, words(meta)[2]))
        } else {
            None
        },
        None => None,
    }
}

/// The paths and objects of the lines of `git ls-tree` that name blobs.
pub open spec fn listed_entries(lines: Seq<Seq<char>>) -> Seq<(Seq<char>, Seq<char>)>
    decreases lines.len(),
{
    if lines.len() == 0 {
        Seq::empty()
    } else {
        let before = listed_entries(lines.drop_last());
        match line_entry(lines.last()) {
            Some(e) => before.push(e),
            None => before,
        }
    }
}

/// The views of a sequence of pairs of strings.
pub open spec fn pair_views(v: Seq<(String, String)>) -> Seq<(Seq<char>, Seq<char>)> {
    v.map_values(|p: (String, String)| (p.0@, p.1@))
}

/// The answer of a git command: its output, or nothing where it failed because
/// the object that it was asked for is not there. `None` is another failure.
pub open spec fn git_answer(success: bool, stdout: Seq<u8>, stderr: Seq<u8>) -> Option<Seq<u8>> {
    if success {
        Some(stdout)
    } else if occurs(encode_utf8("unknown revision"@), stderr) || occurs(
        encode_utf8("Not a valid object"@),
        stderr,
    ) || occurs(encode_utf8("does not exist"@), stderr) {
        Some(Seq::empty())
    } else {
        None
    }
}

/// The answer of a git command, from its exit status and what it printed.
pub fn run_git(success: bool, stdout: Vec<u8>, stderr: &[u8]) -> (r: Option<Vec<u8>>)
    ensures
        match r {
            Some(v) => git_answer(success, stdout@, stderr@) == Some(v@),
            None => git_answer(success, stdout@, stderr@) is None,
        },
{
    if success {
        return Some(stdout);
    }
    if contains_bytes(stderr, "unknown revision".as_bytes()) || contains_bytes(
        stderr,
        "Not a valid object".as_bytes(),
    ) || contains_bytes(stderr, "does not exist".as_bytes()) {
        let none: Vec<u8> = Vec::new();
        assert(none@ == Seq::<u8>::empty());
        return Some(none);
    }
    None
}

impl Store {
    /// A store on the notes ref of a model, with nothing pending.
    pub fn open(short_id: &str, dim: usize) -> (r: Result<Store, StoreError>)
        ensures
            r matches Ok(s) && s@ == opened(short_id@, dim as nat),
    {
        let r = Store {
            short_id: short_id.to_owned(),
            ref_name: ref_for(short_id),
            dim,
            blob_payloads: StrMap::new(),
            referenced: None,
            removed: StrSet::new(),
            dirty: false,
        };
        assert(r@.pending =~= Map::<Seq<char>, Seq<u8>>::empty());
        Ok(r)
    }

    /// The commit that `git rev-parse --verify --quiet` found, if any.
    pub fn rev_parse(&self, success: bool, stdout: &[u8]) -> (r: Result<Option<String>, StoreError>)
        ensures
            r is Err <==> success && !valid_utf8(stdout@),
            r matches Err(e) ==> e == StoreError::Utf8,
            r matches Ok(Some(s)) ==> success && s@ == trimmed(decode_utf8(stdout@)) && s@.len() > 0,
            r matches Ok(None) ==> !success || trimmed(decode_utf8(stdout@)).len() == 0,
    {
        if !success {
            return Ok(None);
        }
        match utf8_string(stdout) {
            Some(s) => {
                let t = trim(s.as_str());
                if t.as_str().is_empty() {
                    Ok(None)
                } else {
                    Ok(Some(t))
                }
            },
            None => Err(StoreError::Utf8),
        }
    }

    /// Source blob SHAs currently annotated by this notes ref, from what
    /// `git ls-tree -r` prints for it.
    pub fn known_blob_shas(&self, listing: &[u8]) -> (r: Result<StrSet, StoreError>)
        ensures
            r is Err <==> !valid_utf8(listing@),
            r matches Err(e) ==> e == StoreError::Utf8,
            r matches Ok(set) ==> ascending(set@) && forall|x: Seq<char>| #[trigger]
                set@.contains(x) <==> listed_shas(text_lines(decode_utf8(listing@))).contains(x),
            r matches Ok(set) ==> forall|i: int|
                0 <= i < set@.len() ==> is_object_name(#[trigger] set@[i]) && splittable(set@[i]),
    {
        let text = match utf8_string(listing) {
            Some(t) => t,
            None => {
                return Err(StoreError::Utf8);
            },
        };
        let lines = split_lines(text.as_str());
        let ghost all = text_lines(decode_utf8(listing@));
        let mut shas: Vec<String> = Vec::new();
        let mut i: usize = 0;
        assert(all.take(0) == Seq::<Seq<char>>::empty());
        assert(views(shas@) == listed_shas(all.take(0)));
        while i < lines.len()
            invariant
                i <= lines@.len(),
                views(lines@) == all,
                views(shas@) == listed_shas(all.take(i as int)),
            decreases lines@.len() - i,
        {
            let ghost before = views(shas@);
            proof {
                assert(all.take(i + 1).drop_last() == all.take(i as int));
                assert(all.take(i + 1).last() == lines@[i as int]@);
            }
            match split_once(lines[i].as_str(), '\t') {
                Some((_, path)) => {
                    match sha_from_note_path(path.as_str()) {
                        Some(sha) => {
                            let ghost x = sha@;
                            shas.push(sha);
                            assert(views(shas@) == before.push(x));
                        },
                        None => {},
                    }
                },
                None => {},
            }
            i = i + 1;
        }
        assert(all.take(all.len() as int) == all);
        let set = StrSet::from_vec(shas);
        proof {
            assert forall|i: int| 0 <= i < set@.len() implies is_object_name(#[trigger] set@[i])
                && splittable(set@[i]) by {
                assert(set@.contains(set@[i]));
                lemma_listed_names(all, set@[i]);
                law_note_path_reads_back(set@[i]);
            }
        }
        Ok(set)
    }

    /// The path and the object of every note, from what `git ls-tree -r` prints
    /// for the commit on top of which a new one is made. Where there is no such
    /// commit there are no notes.
    pub fn existing_note_tree_paths(&self, parent: &Option<String>, listing: &[u8]) -> (r: Result<
        Vec<(String, String)>,
        StoreError,
    >)
        ensures
            r is Err <==> parent is Some && !valid_utf8(listing@),
            r matches Err(e) ==> e == StoreError::Utf8,
            r matches Ok(v) ==> pair_views(v@) == existing_entries(parent is Some, listing@),
    {
        let mut out: Vec<(String, String)> = Vec::new();
        assert(pair_views(out@) == Seq::<(Seq<char>, Seq<char>)>::empty());
        if parent.is_none() {
            return Ok(out);
        }
        let text = match utf8_string(listing) {
            Some(t) => t,
            None => {
                return Err(StoreError::Utf8);
            },
        };
        let lines = split_lines(text.as_str());
        let ghost all = text_lines(decode_utf8(listing@));
        let mut i: usize = 0;
        assert(all.take(0) == Seq::<Seq<char>>::empty());
        while i < lines.len()
            invariant
                i <= lines@.len(),
                views(lines@) == all,
                pair_views(out@) == listed_entries(all.take(i as int)),
            decreases lines@.len() - i,
        {
            let ghost before = pair_views(out@);
            proof {
                assert(all.take(i + 1).drop_last() == all.take(i as int));
                assert(all.take(i + 1).last() == lines@[i as int]@);
            }
            match split_once(lines[i].as_str(), '\t') {
                Some((meta, path)) => {
                    let fields = split_words(meta.as_str());
                    assert(views(fields@) == words(meta@));
                    assert(views(fields@).len() == fields@.len());
                    if fields.len() >= 3 && same(fields[1].as_str(), "blob") {
                        let oid = fields[2].clone();
                        proof {
                            assert(views(fields@)[1] == fields@[1]@);
                            assert(views(fields@)[2] == fields@[2]@);
                        }
                        let ghost e = (path@, oid@);
                        out.push((path, oid));
                        assert(pair_views(out@) == before.push(e));
                    } else {
                        proof {
                            if fields@.len() >= 3 {
                                assert(views(fields@)[1] == fields@[1]@);
                            }
                        }
                    }
                },
                None => {},
            }
            i = i + 1;
        }
        assert(all.take(all.len() as int) == all);
        Ok(out)
    }
}

/// The notes that stand in the tree of the commit below.
pub open spec fn existing_entries(has_parent: bool, listing: Seq<u8>) -> Seq<
    (Seq<char>, Seq<char>),
> {
    if has_parent {
        listed_entries(text_lines(decode_utf8(listing)))
    } else {
        Seq::empty()
    }
}

/// The first line of a run of bytes, with its line feed if it has one.
pub open spec fn first_line(b: Seq<u8>) -> Seq<u8> {
    let i = first_index(b, 10u8);
    if i < b.len() {
        b.take(i + 1)
    } else {
        b
    }
}

/// The size that a header line of `git cat-file --batch` announces: its third
/// word, and 0 where that is no number.
pub open spec fn announced_size(header: Seq<char>) -> nat {
    if words(header).len() >= 3 {
        match parsed(words(header)[2]) {
            Some(n) => if n <= usize::MAX {
                n
            } else {
                0
            },
            None => 0,
        }
    } else {
        0
    }
}

/// One object of the output of `git cat-file --batch`, `None` for a missing one,
/// and what follows it.
pub open spec fn next_object(b: Seq<u8>) -> Result<(Option<Seq<u8>>, Seq<u8>), StoreError> {
    let line = first_line(b);
    let rest = b.skip(line.len() as int);
    if !valid_utf8(line) {
        Err(StoreError::Utf8)
    } else {
        let header = trimmed_end(decode_utf8(line));
        if " missing"@.is_suffix_of(header) {
            Ok((None, rest))
        } else {
            let n = announced_size(header) as int;
            if rest.len() < n {
                Err(StoreError::Eof)
            } else if rest.len() == n {
                Ok((Some(rest), Seq::empty()))
            } else {
                Ok((Some(rest.take(n)), rest.skip(n + 1)))
            }
        }
    }
}

/// The first `count` objects of the output of `git cat-file --batch`.
pub open spec fn objects(b: Seq<u8>, count: nat) -> Result<Seq<Option<Seq<u8>>>, StoreError>
    decreases count,
{
    if count == 0 {
        Ok(Seq::empty())
    } else {
        match next_object(b) {
            Ok((x, rest)) => match objects(rest, (count - 1) as nat) {
                Ok(xs) => Ok(seq![x] + xs),
                Err(e) => Err(e),
            },
            Err(e) => Err(e),
        }
    }
}

/// The view of an object that may be missing.
pub open spec fn object_view(o: Option<Vec<u8>>) -> Option<Seq<u8>> {
    match o {
        Some(v) => Some(v@),
        None => None,
    }
}

/// The views of a sequence of objects.
pub open spec fn object_views(v: Seq<Option<Vec<u8>>>) -> Seq<Option<Seq<u8>>> {
    v.map_values(|o: Option<Vec<u8>>| object_view(o))
}

/// Where the line that starts at `at` ends.
fn line_end(b: &[u8], at: usize) -> (r: usize)
    requires
        at <= b@.len(),
    ensures
        at <= r <= b@.len(),
        b@.subrange(at as int, r as int) == first_line(b@.skip(at as int)),
{
    let ghost rest = b@.skip(at as int);
    let mut i: usize = at;
    while i < b.len() && b[i] != 10
        invariant
            at <= i <= b@.len(),
            rest == b@.skip(at as int),
            forall|k: int| 0 <= k < i - at ==> #[trigger] rest[k] != 10u8,
        decreases b@.len() - i,
    {
        proof {
            assert(rest[i - at] == b@[i as int]);
        }
        i = i + 1;
    }
    proof {
        if i < b@.len() {
            assert(rest[i - at] == b@[i as int]);
        }
        lemma_first_index_is(rest, 10u8, i - at);
    }
    if i < b.len() {
        assert(b@.subrange(at as int, i + 1) == rest.take(i - at + 1));
        i + 1
    } else {
        assert(b@.subrange(at as int, i as int) == rest);
        i
    }
}

/// The size that a header line announces.
fn header_size(header: &str) -> (r: usize)
    ensures
        r == announced_size(header@),
{
    let fields = split_words(header);
    assert(views(fields@).len() == fields@.len());
    if fields.len() < 3 {
        return 0;
    }
    assert(views(fields@)[2] == fields@[2]@);
    match parse_usize(fields[2].as_str()) {
        Some(n) => n,
        None => 0,
    }
}

/// Reads `count` objects from the output of `git cat-file --batch`.
pub fn batch_cat_blobs(output: &[u8], count: usize) -> (r: Result<Vec<Option<Vec<u8>>>, StoreError>)
    ensures
        match r {
            Ok(v) => objects(output@, count as nat) == Ok::<Seq<Option<Seq<u8>>>, StoreError>(
                object_views(v@),
            ),
            Err(e) => objects(output@, count as nat) == Err::<Seq<Option<Seq<u8>>>, StoreError>(e),
        },
{
    let mut out: Vec<Option<Vec<u8>>> = Vec::new();
    let mut at: usize = 0;
    let mut i: usize = 0;
    proof {
        assert(output@.skip(0) == output@);
        match objects(output@, count as nat) {
            Ok(ys) => {
                assert(object_views(out@) + ys == ys);
            },
            Err(_) => {},
        }
    }
    while i < count
        invariant
            i <= count,
            at <= output@.len(),
            out@.len() == i,
            match objects(output@.skip(at as int), (count - i) as nat) {
                Ok(ys) => objects(output@, count as nat) == Ok::<
                    Seq<Option<Seq<u8>>>,
                    StoreError,
                >(object_views(out@) + ys),
                Err(e) => objects(output@, count as nat) == Err::<
                    Seq<Option<Seq<u8>>>,
                    StoreError,
                >(e),
            },
        decreases count - i,
    {
        let ghost b = output@.skip(at as int);
        let ghost done = object_views(out@);
        let end: usize = line_end(output, at);
        let line = slice_subrange(output, at, end);
        let ghost rest = output@.skip(end as int);
        assert(rest == b.skip(first_line(b).len() as int));
        let header = match utf8_string(line) {
            Some(t) => trim_end(t.as_str()),
            None => {
                return Err(StoreError::Utf8);
            },
        };
        if ends_with(header.as_str(), " missing") {
            out.push(None);
            at = end;
            proof {
                assert(object_views(out@) == done.push(None));
            }
        } else {
            let n: usize = header_size(header.as_str());
            if output.len() - end < n {
                return Err(StoreError::Eof);
            }
            let body = slice_to_vec(slice_subrange(output, end, end + n));
            assert(body@ == rest.take(n as int));
            let ghost x = body@;
            out.push(Some(body));
            proof {
                assert(object_views(out@) == done.push(Some(x)));
            }
            if output.len() - end == n {
                at = output.len();
                proof {
                    assert(rest.take(n as int) == rest);
                    assert(output@.skip(at as int) == Seq::<u8>::empty());
                }
            } else {
                at = end + n + 1;
                proof {
                    assert(output@.skip(at as int) == rest.skip(n + 1));
                }
            }
        }
        i = i + 1;
        proof {
            match next_object(b) {
                Ok((x, after)) => {
                    assert(output@.skip(at as int) == after);
                    assert(object_views(out@) == done.push(x));
                    match objects(after, (count - i) as nat) {
                        Ok(ys) => {
                            assert(done + (seq![x] + ys) == object_views(out@) + ys);
                        },
                        Err(_) => {},
                    }
                },
                Err(_) => {},
            }
        }
    }
    proof {
        assert(object_views(out@) + Seq::<Option<Seq<u8>>>::empty() == object_views(out@));
    }
    Ok(out)
}

/// What `git cat-file --batch` is asked for, for the note of an object.
pub open spec fn note_spec(ref_name: Seq<char>, sha: Seq<char>) -> Seq<char> {
    ref_name + ":"@ + note_path(sha)
}

/// The payloads among the answers, each with its blob: a missing one is left
/// out, and so is one whose header names another dimension.
pub open spec fn matching_payloads(
    shas: Seq<Seq<char>>,
    answers: Seq<Option<Seq<u8>>>,
    dim: nat,
) -> Seq<(Seq<char>, Seq<u8>)>
    decreases shas.len(),
{
    if shas.len() == 0 || answers.len() == 0 {
        Seq::empty()
    } else {
        let before = matching_payloads(shas.drop_last(), answers.drop_last(), dim);
        match answers.last() {
            Some(b) => if peeked_dim(b) matches Some(d) && d != dim {
                before
            } else {
                before.push((shas.last(), b))
            },
            None => before,
        }
    }
}

/// The views of a sequence of payloads with their blobs.
pub open spec fn payload_views(v: Seq<(String, Vec<u8>)>) -> Seq<(Seq<char>, Seq<u8>)> {
    v.map_values(|p: (String, Vec<u8>)| (p.0@, p.1@))
}

impl Store {
    /// What `git cat-file --batch` is asked for: the note of every blob.
    pub fn payload_specs(&self, shas: &StrSet) -> (r: Vec<String>)
        requires
            forall|i: int| 0 <= i < shas@.len() ==> splittable(#[trigger] shas@[i]),
        ensures
            views(r@) == shas@.map_values(|s: Seq<char>| note_spec(self@.ref_name, s)),
    {
        let list = shas.as_vec();
        let mut out: Vec<String> = Vec::new();
        let mut i: usize = 0;
        while i < list.len()
            invariant
                i <= list@.len(),
                views(list@) == shas@,
                forall|k: int| 0 <= k < shas@.len() ==> splittable(#[trigger] shas@[k]),
                out@.len() == i,
                forall|k: int|
                    0 <= k < i ==> #[trigger] views(out@)[k] == note_spec(self@.ref_name, shas@[k]),
            decreases list@.len() - i,
        {
            let ghost before = out@;
            assert(views(list@)[i as int] == list@[i as int]@);
            assert(splittable(shas@[i as int]));
            let mut spec_text = self.ref_name.clone();
            spec_text.append(":");
            spec_text.append(note_subpath(list[i].as_str()).as_str());
            out.push(spec_text);
            proof {
                assert forall|k: int| 0 <= k < i + 1 implies #[trigger] views(out@)[k]
                    == note_spec(self@.ref_name, shas@[k]) by {
                    if k < i {
                        assert(views(out@)[k] == views(before)[k]);
                    }
                }
            }
            i = i + 1;
        }
        assert(views(out@) =~= shas@.map_values(|s: Seq<char>| note_spec(self@.ref_name, s)));
        out
    }

    /// Every (blob_sha, payload_bytes) currently in this notes ref, in blob_sha
    /// order, from the output of one `git cat-file --batch` for the whole set.
    pub fn iter_all_payloads(&self, shas: &StrSet, output: &[u8]) -> (r: Result<
        Vec<(String, Vec<u8>)>,
        StoreError,
    >)
        ensures
            match objects(output@, shas@.len()) {
                Ok(answers) => r matches Ok(v) && payload_views(v@) == matching_payloads(
                    shas@,
                    answers,
                    self@.dim,
                ),
                Err(e) => r == Err::<Vec<(String, Vec<u8>)>, StoreError>(e),
            },
    {
        let list = shas.as_vec();
        let answers = match batch_cat_blobs(output, list.len()) {
            Ok(v) => v,
            Err(e) => {
                return Err(e);
            },
        };
        let ghost all = object_views(answers@);
        proof {
            lemma_objects_len(output@, shas@.len());
            assert(all.len() == shas@.len());
        }
        let mut out: Vec<(String, Vec<u8>)> = Vec::new();
        let mut i: usize = 0;
        assert(payload_views(out@) == matching_payloads(shas@.take(0), all.take(0), self@.dim));
        while i < list.len()
            invariant
                i <= list@.len(),
                views(list@) == shas@,
                all == object_views(answers@),
                answers@.len() == list@.len(),
                payload_views(out@) == matching_payloads(
                    shas@.take(i as int),
                    all.take(i as int),
                    self@.dim,
                ),
            decreases list@.len() - i,
        {
            let ghost before = payload_views(out@);
            proof {
                assert(shas@.take(i + 1).drop_last() == shas@.take(i as int));
                assert(all.take(i + 1).drop_last() == all.take(i as int));
                assert(shas@.take(i + 1).last() == list@[i as int]@);
                assert(all.take(i + 1).last() == object_view(answers@[i as int]));
            }
            match &answers[i] {
                Some(b) => {
                    // Defensively reject payloads that don't match expectations.
                    let matching: bool = match peek_dim(b.as_slice()) {
                        Some(d) => d as usize == self.dim,
                        None => true,
                    };
                    if matching {
                        let sha = list[i].clone();
                        let bytes = b.clone();
                        assert(bytes@ == b@);
                        let ghost e = (sha@, bytes@);
                        out.push((sha, bytes));
                        assert(payload_views(out@) == before.push(e));
                    }
                },
                None => {},
            }
            i = i + 1;
        }
        proof {
            assert(shas@.take(shas@.len() as int) == shas@);
            assert(all.take(all.len() as int) == all);
        }
        Ok(out)
    }

    /// Gives a blob a pending payload, which takes the place of an earlier one.
    pub fn insert_chunks(
        &mut self,
        blob_sha: &str,
        ranges: &[(u32, u32)],
        bits: &[u32],
        dim: usize,
    )
        requires
            bits@.len() == ranges@.len() * dim,
        ensures
            final(self)@ == (StoreView {
                pending: old(self)@.pending.insert(
                    blob_sha@,
                    packed(dim as nat, ranges@, bits@),
                ),
                order: final(self)@.order,
                dirty: true,
                ..old(self)@
            }),
            ascending(final(self)@.order),
            forall|x: Seq<char>| #[trigger]
                final(self)@.order.contains(x) <==> final(self)@.pending.contains_key(x),
    {
        let payload = pack_payload(dim, ranges, bits);
        let ghost bytes = payload@;
        self.blob_payloads.insert(blob_sha.to_owned(), payload);
        self.dirty = true;
        let n: usize = self.blob_payloads.len();
        proof {
            assert(self@.pending =~= old(self)@.pending.insert(blob_sha@, bytes));
        }
    }

    /// Set the exact set of blob SHAs that should be present after commit.
    pub fn set_referenced(&mut self, set: StrSet)
        ensures
            final(self)@ == (StoreView { referenced: Some(set@), dirty: true, ..old(self)@ }),
    {
        self.referenced = Some(set);
        self.dirty = true;
    }

    /// Has the next commit drop the notes of these blobs, in place of those that
    /// it was to drop before.
    pub fn remove_notes(&mut self, set: StrSet)
        ensures
            final(self)@ == (StoreView { removed: set@, dirty: true, ..old(self)@ }),
    {
        self.removed = set;
        self.dirty = true;
    }
}

/// As many objects come out as were asked for.
proof fn lemma_objects_len(b: Seq<u8>, count: nat)
    ensures
        objects(b, count) matches Ok(v) ==> v.len() == count,
    decreases count,
{
    if count > 0 {
        match next_object(b) {
            Ok((x, rest)) => {
                lemma_objects_len(rest, (count - 1) as nat);
            },
            Err(_) => {},
        }
    }
}

/// Where the content of a note comes from: a blob written earlier in the same
/// stream, or an object that git has.
pub enum SourceView {
    Mark(nat),
    Oid(Seq<char>),
}

/// Where the content of a note comes from.
enum BlobSource {
    Mark(u64),
    Oid(String),
}

impl View for BlobSource {
    type V = SourceView;

    closed spec fn view(&self) -> SourceView {
        match self {
            BlobSource::Mark(m) => SourceView::Mark(*m as nat),
            BlobSource::Oid(o) => SourceView::Oid(o@),
        }
    }
}

/// A blob may have a note after a commit.
pub open spec fn wants(store: StoreView, sha: Seq<char>) -> bool {
    store.referenced matches Some(set) ==> set.contains(sha)
}

/// Those of some blobs that may have a note after a commit, in order.
pub open spec fn wanted(store: StoreView, shas: Seq<Seq<char>>) -> Seq<Seq<char>>
    decreases shas.len(),
{
    if shas.len() == 0 {
        Seq::empty()
    } else {
        let before = wanted(store, shas.drop_last());
        if wants(store, shas.last()) {
            before.push(shas.last())
        } else {
            before
        }
    }
}

/// The blobs whose pending payloads a commit writes, in ascending order.
pub open spec fn written(store: StoreView) -> Seq<Seq<char>> {
    wanted(store, store.order)
}

/// Whether a commit keeps the note that stands at a path.
pub open spec fn keeps(store: StoreView, path: Seq<char>) -> bool {
    match path_sha(path) {
        Some(sha) => {
            &&& wants(store, sha)
            &&& !store.removed.contains(sha)
            &&& !store.pending.contains_key(sha)
        },
        None => false,
    }
}

/// The notes that a commit keeps, in order.
pub open spec fn kept_entries(store: StoreView, existing: Seq<(Seq<char>, Seq<char>)>) -> Seq<
    (Seq<char>, SourceView),
>
    decreases existing.len(),
{
    if existing.len() == 0 {
        Seq::empty()
    } else {
        let before = kept_entries(store, existing.drop_last());
        if keeps(store, existing.last().0) {
            before.push((existing.last().0, SourceView::Oid(existing.last().1)))
        } else {
            before
        }
    }
}

/// The notes that a commit writes, in order; the first has mark 1.
pub open spec fn fresh_entries(shas: Seq<Seq<char>>) -> Seq<(Seq<char>, SourceView)> {
    Seq::new(shas.len(), |i: int| (note_path(shas[i]), SourceView::Mark((i + 1) as nat)))
}

/// The tree of a commit.
pub open spec fn tree_of(store: StoreView, existing: Seq<(Seq<char>, Seq<char>)>) -> Seq<
    (Seq<char>, SourceView),
> {
    fresh_entries(written(store)) + kept_entries(store, existing)
}

/// The record of one blob in the stream.
pub open spec fn blob_record(mark: nat, data: Seq<u8>) -> Seq<u8> {
    encode_utf8("blob\nmark :"@ + decimal(mark) + "\ndata "@ + decimal(data.len()) + "\n"@) + data
}

/// The records of the first `n` payloads that a commit writes.
pub open spec fn blob_records(store: StoreView, n: nat) -> Seq<u8>
    decreases n,
{
    if n == 0 {
        Seq::empty()
    } else {
        blob_records(store, (n - 1) as nat) + blob_record(
            n,
            store.pending[written(store)[n - 1]],
        )
    }
}

/// How the stream names the content of a note.
pub open spec fn source_text(source: SourceView) -> Seq<char> {
    match source {
        SourceView::Mark(m) => ":"@ + decimal(m),
        SourceView::Oid(o) => o,
    }
}

/// The line of the stream that puts a note into the tree.
pub open spec fn tree_line(entry: (Seq<char>, SourceView)) -> Seq<u8> {
    encode_utf8("M 100644 "@ + source_text(entry.1) + " "@ + entry.0 + "\n"@)
}

/// The lines of the stream that put notes into the tree.
pub open spec fn tree_lines(entries: Seq<(Seq<char>, SourceView)>) -> Seq<u8>
    decreases entries.len(),
{
    if entries.len() == 0 {
        Seq::empty()
    } else {
        tree_lines(entries.drop_last()) + tree_line(entries.last())
    }
}

/// The message of a commit.
pub open spec fn commit_message(short_id: Seq<char>) -> Seq<char> {
    "git-vector-grep snapshot ("@ + short_id + ")\n"@
}

/// The head of the commit in the stream: who made it when, the message, the
/// commit below, and that the tree starts empty.
pub open spec fn commit_head(store: StoreView, parent: Option<Seq<char>>, now: nat) -> Seq<char> {
    let message = commit_message(store.short_id);
    let start = "commit "@ + store.ref_name
        + "\ncommitter git-vector-grep <vgrep@local> "@ + decimal(now) + " +0000\ndata "@ + decimal(
        encode_utf8(message).len(),
    ) + "\n"@ + message;
    match parent {
        Some(p) => start + "from "@ + p + "\ndeleteall\n"@,
        None => start + "deleteall\n"@,
    }
}

/// What `git fast-import` reads: the payloads to write, and one commit whose tree
/// holds their notes and those that are kept.
pub open spec fn commit_stream(
    store: StoreView,
    parent: Option<Seq<char>>,
    existing: Seq<(Seq<char>, Seq<char>)>,
    now: nat,
) -> Seq<u8> {
    blob_records(store, written(store).len()) + encode_utf8(commit_head(store, parent, now))
        + tree_lines(tree_of(store, existing)) + encode_utf8("done\n"@)
}

/// The view of a commit that may not be there.
pub open spec fn parent_view(parent: Option<String>) -> Option<Seq<char>> {
    match parent {
        Some(p) => Some(p@),
        None => None,
    }
}

/// Appends the UTF-8 bytes of a string.
fn put(out: &mut Vec<u8>, s: &str)
    ensures
        final(out)@ == old(out)@ + encode_utf8(s@),
{
    let bytes = s.as_bytes();
    put_bytes(out, bytes);
}

/// Appends bytes.
fn put_bytes(out: &mut Vec<u8>, bytes: &[u8])
    ensures
        final(out)@ == old(out)@ + bytes@,
{
    let mut copy = slice_to_vec(bytes);
    out.append(&mut copy);
}

/// Appends the record of one blob.
fn write_blob_with_mark(out: &mut Vec<u8>, mark: u64, bytes: &[u8])
    ensures
        final(out)@ == old(out)@ + blob_record(mark as nat, bytes@),
{
    let ghost before = out@;
    let mut head = "blob\nmark :".to_owned();
    push_decimal(&mut head, mark as u128);
    head.append("\ndata ");
    push_decimal(&mut head, bytes.len() as u128);
    head.append("\n");
    put(out, head.as_str());
    put_bytes(out, bytes);
    assert(out@ == before + blob_record(mark as nat, bytes@));
}

/// Appends the line that puts a note into the tree.
fn write_tree_line(out: &mut Vec<u8>, path: &str, source: &BlobSource)
    ensures
        final(out)@ == old(out)@ + tree_line((path@, source@)),
{
    let mut line = "M 100644 ".to_owned();
    match source {
        BlobSource::Mark(m) => {
            let mut mark = ":".to_owned();
            push_decimal(&mut mark, *m as u128);
            line.append(mark.as_str());
        },
        BlobSource::Oid(o) => {
            line.append(o.as_str());
        },
    }
    line.append(" ");
    line.append(path);
    line.append("\n");
    put(out, line.as_str());
}

/// What became of an attempt to commit.
#[derive(Debug, Clone, Copy, PartialEq, Eq, Structural)]
pub enum CommitStep {
    /// The ref points at the new commit.
    Committed,
    /// Another writer moved the ref first: list its tree and try again.
    Retry,
    /// Git refused for another reason.
    Failed,
}

/// A store whose pending changes have reached the ref.
pub open spec fn flushed(store: StoreView) -> StoreView {
    StoreView {
        pending: Map::empty(),
        order: Seq::empty(),
        referenced: None,
        removed: Seq::empty(),
        dirty: false,
        ..store
    }
}

impl Store {
    /// The head of the commit in the stream.
    fn head_text(&self, parent: &Option<String>, now: u64) -> (r: String)
        ensures
            r@ == commit_head(self@, parent_view(*parent), now as nat),
    {
        let mut message = "git-vector-grep snapshot (".to_owned();
        message.append(self.short_id.as_str());
        message.append(")\n");
        let mut head = "commit ".to_owned();
        head.append(self.ref_name.as_str());
        head.append("\ncommitter git-vector-grep <vgrep@local> ");
        push_decimal(&mut head, now as u128);
        head.append(" +0000\ndata ");
        push_decimal(&mut head, message.as_str().as_bytes().len() as u128);
        head.append("\n");
        head.append(message.as_str());
        match parent {
            Some(p) => {
                head.append("from ");
                head.append(p.as_str());
                head.append("\ndeleteall\n");
            },
            None => {
                head.append("deleteall\n");
            },
        }
        head
    }

    /// Whether a blob may have a note after a commit.
    fn wants_blob(&self, sha: &str) -> (r: bool)
        ensures
            r == wants(self@, sha@),
    {
        match &self.referenced {
            Some(set) => set.contains(sha),
            None => true,
        }
    }

    /// The blobs whose pending payloads a commit writes.
    fn blobs_to_write(&self) -> (r: Vec<String>)
        ensures
            views(r@) == written(self@),
            forall|i: int| 0 <= i < r@.len() ==> self@.pending.contains_key(#[trigger] r@[i]@),
    {
        let n: usize = self.blob_payloads.len();
        let mut out: Vec<String> = Vec::new();
        let mut i: usize = 0;
        assert(self@.order.take(0) == Seq::<Seq<char>>::empty());
        assert(views(out@) == Seq::<Seq<char>>::empty());
        while i < n
            invariant
                i <= n,
                n == self@.order.len(),
                views(out@) == wanted(self@, self@.order.take(i as int)),
                forall|k: int|
                    0 <= k < out@.len() ==> self@.pending.contains_key(#[trigger] out@[k]@),
            decreases n - i,
        {
            let ghost next = self@.order.take(i + 1);
            let ghost before = views(out@);
            let sha = self.blob_payloads.key_at(i);
            proof {
                assert(next.drop_last() == self@.order.take(i as int));
                assert(next.last() == sha@);
                assert(self@.pending.contains_key(sha@));
            }
            if self.wants_blob(sha.as_str()) {
                out.push(sha.clone());
                assert(views(out@) == before.push(sha@));
            }
            i = i + 1;
        }
        assert(self@.order.take(n as int) == self@.order);
        out
    }

    /// Whether a commit keeps the note that stands at a path.
    fn keeps_path(&self, path: &str) -> (r: bool)
        ensures
            r == keeps(self@, path@),
    {
        match sha_from_note_path(path) {
            Some(sha) => {
                self.wants_blob(sha.as_str()) && !self.removed.contains(sha.as_str())
                    && self.blob_payloads.get(sha.as_str()).is_none()
            },
            None => false,
        }
    }

    /// Materialize a new commit on the ref, linear history: what
    /// `git fast-import` is to read, or `None` where nothing changed. `parent` is
    /// the commit that the ref points at, `listing` what `git ls-tree -r` prints
    /// for it, and `now` the time in seconds since 1970.
    pub fn commit(&self, parent: &Option<String>, listing: &[u8], now: u64) -> (r: Result<
        Option<Vec<u8>>,
        StoreError,
    >)
        requires
            self@.dirty ==> forall|sha: Seq<char>| #[trigger]
                self@.pending.contains_key(sha) ==> splittable(sha),
        ensures
            r is Err <==> self@.dirty && parent is Some && !valid_utf8(listing@),
            r matches Err(e) ==> e == StoreError::Utf8,
            r matches Ok(None) ==> !self@.dirty,
            r matches Ok(Some(v)) ==> self@.dirty && v@ == commit_stream(
                self@,
                parent_view(*parent),
                existing_entries(parent is Some, listing@),
                now as nat,
            ),
    {
        if !self.dirty {
            return Ok(None);
        }
        let existing = match self.existing_note_tree_paths(parent, listing) {
            Ok(v) => v,
            Err(e) => {
                return Err(e);
            },
        };
        let ghost old_notes = pair_views(existing@);
        let todo = self.blobs_to_write();
        let n: usize = todo.len();
        let mut out: Vec<u8> = Vec::new();
        let mut i: usize = 0;
        while i < n
            invariant
                i <= n,
                n == todo@.len(),
                views(todo@) == written(self@),
                forall|k: int|
                    0 <= k < todo@.len() ==> self@.pending.contains_key(#[trigger] todo@[k]@),
                out@ == blob_records(self@, i as nat),
            decreases n - i,
        {
            proof {
                assert(written(self@)[i as int] == todo@[i as int]@);
                assert(self@.pending.contains_key(todo@[i as int]@));
            }
            match self.blob_payloads.get(todo[i].as_str()) {
                Some(bytes) => {
                    assert(self@.pending[todo@[i as int]@] == bytes@);
                    write_blob_with_mark(&mut out, (i + 1) as u64, bytes.as_slice());
                },
                None => {},
            }
            i = i + 1;
        }
        let head = self.head_text(parent, now);
        put(&mut out, head.as_str());
        let ghost start = out@;
        let ghost fresh = fresh_entries(written(self@));
        i = 0;
        assert(fresh.take(0) == Seq::<(Seq<char>, SourceView)>::empty());
        assert(start + tree_lines(fresh.take(0)) == start);
        while i < n
            invariant
                i <= n,
                n == todo@.len(),
                views(todo@) == written(self@),
                fresh == fresh_entries(written(self@)),
                forall|k: int|
                    0 <= k < todo@.len() ==> self@.pending.contains_key(#[trigger] todo@[k]@),
                forall|sha: Seq<char>| #[trigger]
                    self@.pending.contains_key(sha) ==> splittable(sha),
                out@ == start + tree_lines(fresh.take(i as int)),
            decreases n - i,
        {
            assert(self@.pending.contains_key(todo@[i as int]@));
            assert(written(self@)[i as int] == todo@[i as int]@);
            let path = note_subpath(todo[i].as_str());
            let source = BlobSource::Mark((i + 1) as u64);
            write_tree_line(&mut out, path.as_str(), &source);
            proof {
                let now_entries = fresh.take(i + 1);
                assert(now_entries.drop_last() == fresh.take(i as int));
                assert(now_entries.last() == fresh[i as int]);
                assert(fresh[i as int] == (path@, source@));
                assert(out@ == start + tree_lines(now_entries));
            }
            i = i + 1;
        }
        assert(fresh.take(fresh.len() as int) == fresh);
        i = 0;
        assert(old_notes.take(0) == Seq::<(Seq<char>, Seq<char>)>::empty());
        assert(fresh + kept_entries(self@, old_notes.take(0)) == fresh);
        while i < existing.len()
            invariant
                i <= existing@.len(),
                old_notes == pair_views(existing@),
                out@ == start + tree_lines(fresh + kept_entries(self@, old_notes.take(i as int))),
            decreases existing@.len() - i,
        {
            let ghost entries = fresh + kept_entries(self@, old_notes.take(i as int));
            let ghost next = old_notes.take(i + 1);
            proof {
                assert(next.drop_last() == old_notes.take(i as int));
                assert(next.last() == (existing@[i as int].0@, existing@[i as int].1@));
            }
            if self.keeps_path(existing[i].0.as_str()) {
                let source = BlobSource::Oid(existing[i].1.clone());
                write_tree_line(&mut out, existing[i].0.as_str(), &source);
                proof {
                    let e = (existing@[i as int].0@, source@);
                    let more = fresh + kept_entries(self@, next);
                    assert(more == entries.push(e));
                    assert(more.drop_last() == entries);
                    assert(out@ == start + tree_lines(more));
                }
            } else {
                assert(fresh + kept_entries(self@, next) == entries);
            }
            i = i + 1;
        }
        assert(old_notes.take(old_notes.len() as int) == old_notes);
        put(&mut out, "done\n");
        Ok(Some(out))
    }

    /// Takes note of how `git fast-import` ended. `parent` is the commit that was
    /// built upon, `tip` the one that the ref points at now. Only a commit that
    /// reached the ref flushes what is pending; one that was refused because the
    /// ref had moved on meanwhile is to be built again on the new tip.
    pub fn finish_commit(
        &mut self,
        success: bool,
        parent: &Option<String>,
        tip: &Option<String>,
    ) -> (r: CommitStep)
        ensures
            success ==> r == CommitStep::Committed && final(self)@ == flushed(old(self)@),
            !success ==> final(self)@ == old(self)@ && r == (if parent_view(*parent)
                != parent_view(*tip) {
                CommitStep::Retry
            } else {
                CommitStep::Failed
            }),
    {
        if success {
            self.blob_payloads = StrMap::new();
            self.referenced = None;
            self.removed = StrSet::new();
            self.dirty = false;
            assert(self@.pending =~= Map::<Seq<char>, Seq<u8>>::empty());
            return CommitStep::Committed;
        }
        let unmoved: bool = match (parent, tip) {
            (Some(a), Some(b)) => same(a.as_str(), b.as_str()),
            (None, None) => true,
            _ => false,
        };
        if unmoved {
            CommitStep::Failed
        } else {
            CommitStep::Retry
        }
    }
}

/// Some note of a tree annotates an object.
pub open spec fn annotates(tree: Seq<(Seq<char>, SourceView)>, sha: Seq<char>) -> bool {
    exists|i: int| 0 <= i < tree.len() && path_sha((#[trigger] tree[i]).0) == Some(sha)
}

/// Some note that git lists annotates an object.
pub open spec fn lists_note(existing: Seq<(Seq<char>, Seq<char>)>, sha: Seq<char>) -> bool {
    exists|i: int| 0 <= i < existing.len() && path_sha((#[trigger] existing[i]).0) == Some(sha)
}

/// The pending payloads belong to objects, and `order` lists them.
pub open spec fn proper(store: StoreView) -> bool {
    &&& ascending(store.order)
    &&& forall|x: Seq<char>| #[trigger] store.order.contains(x) <==> store.pending.contains_key(x)
    &&& forall|x: Seq<char>| #[trigger] store.pending.contains_key(x) ==> is_object_name(x)
}

/// A listing shows a note of a tree: its path and, where the tree names it, its
/// object.
pub open spec fn shows(
    listed: Seq<(Seq<char>, Seq<char>)>,
    entry: (Seq<char>, SourceView),
) -> bool {
    exists|j: int|
        0 <= j < listed.len() && (#[trigger] listed[j]).0 == entry.0 && (
        entry.1 matches SourceView::Oid(o) ==> listed[j].1 == o)
}

/// A note stands in a tree at a path.
pub open spec fn stands_in(tree: Seq<(Seq<char>, SourceView)>, path: Seq<char>) -> bool {
    exists|i: int| 0 <= i < tree.len() && (#[trigger] tree[i]).0 == path
}

/// A listing shows the notes of a tree, in any order, and no others.
pub open spec fn lists_tree(
    listed: Seq<(Seq<char>, Seq<char>)>,
    tree: Seq<(Seq<char>, SourceView)>,
) -> bool {
    &&& forall|i: int| 0 <= i < tree.len() ==> shows(listed, #[trigger] tree[i])
    &&& forall|j: int| 0 <= j < listed.len() ==> stands_in(tree, (#[trigger] listed[j]).0)
}

/// What the kept notes are.
proof fn lemma_kept(store: StoreView, existing: Seq<(Seq<char>, Seq<char>)>)
    ensures
        forall|i: int|
            0 <= i < kept_entries(store, existing).len() ==> keeps(
                store,
                (#[trigger] kept_entries(store, existing)[i]).0,
            ) && exists|j: int|
                0 <= j < existing.len() && (#[trigger] existing[j]).0 == kept_entries(
                    store,
                    existing,
                )[i].0 && SourceView::Oid(existing[j].1) == kept_entries(store, existing)[i].1,
        forall|j: int|
            0 <= j < existing.len() && keeps(store, (#[trigger] existing[j]).0)
                ==> kept_entries(store, existing).contains(
                (existing[j].0, SourceView::Oid(existing[j].1)),
            ),
    decreases existing.len(),
{
    if existing.len() > 0 {
        let init = existing.drop_last();
        lemma_kept(store, init);
        let before = kept_entries(store, init);
        let all = kept_entries(store, existing);
        assert forall|i: int| 0 <= i < all.len() implies keeps(store, (#[trigger] all[i]).0)
            && exists|j: int|
            0 <= j < existing.len() && (#[trigger] existing[j]).0 == all[i].0 && SourceView::Oid(
                existing[j].1,
            ) == all[i].1 by {
            if i < before.len() {
                assert(all[i] == before[i]);
                let j = choose|j: int|
                    0 <= j < init.len() && (#[trigger] init[j]).0 == before[i].0
                        && SourceView::Oid(init[j].1) == before[i].1;
                assert(existing[j] == init[j]);
            } else {
                assert(existing[existing.len() - 1] == existing.last());
            }
        }
        assert forall|j: int|
            0 <= j < existing.len() && keeps(store, (#[trigger] existing[j]).0) implies all.contains(
            (existing[j].0, SourceView::Oid(existing[j].1)),
        ) by {
            let e = (existing[j].0, SourceView::Oid(existing[j].1));
            if j < init.len() {
                assert(init[j] == existing[j]);
                assert(before.contains(e));
                let m = choose|m: int| 0 <= m < before.len() && before[m] == e;
                assert(all[m] == e);
            } else {
                assert(all[all.len() - 1] == e);
            }
        }
    }
}

/// What the wanted ones of some blobs are.
proof fn lemma_wanted(store: StoreView, shas: Seq<Seq<char>>)
    ensures
        forall|x: Seq<char>| #[trigger]
            wanted(store, shas).contains(x) <==> shas.contains(x) && wants(store, x),
        ascending(shas) ==> ascending(wanted(store, shas)),
    decreases shas.len(),
{
    if shas.len() > 0 {
        let init = shas.drop_last();
        let before = wanted(store, init);
        let all = wanted(store, shas);
        let last = shas.len() - 1;
        lemma_wanted(store, init);
        assert forall|x: Seq<char>| #[trigger] all.contains(x) <==> shas.contains(x) && wants(
            store,
            x,
        ) by {
            if all.contains(x) {
                let i = choose|i: int| 0 <= i < all.len() && all[i] == x;
                if i < before.len() {
                    assert(before.contains(before[i]));
                    let j = choose|j: int| 0 <= j < init.len() && init[j] == x;
                    assert(shas[j] == x);
                } else {
                    assert(shas[last] == x);
                }
            }
            if shas.contains(x) && wants(store, x) {
                let j = choose|j: int| 0 <= j < shas.len() && shas[j] == x;
                if j < last {
                    assert(init[j] == x);
                    assert(before.contains(x));
                    let i = choose|i: int| 0 <= i < before.len() && before[i] == x;
                    assert(all[i] == x);
                } else {
                    assert(all[all.len() - 1] == x);
                }
            }
        }
        if ascending(shas) {
            assert forall|i: int, j: int|
                #![trigger init[i], init[j]]
                0 <= i < j < init.len() implies precedes(init[i], init[j]) by {
                assert(init[i] == shas[i] && init[j] == shas[j]);
            }
            assert forall|i: int, j: int|
                #![trigger all[i], all[j]]
                0 <= i < j < all.len() implies precedes(all[i], all[j]) by {
                if j < before.len() {
                    assert(all[i] == before[i] && all[j] == before[j]);
                } else {
                    assert(all[i] == before[i]);
                    assert(before.contains(before[i]));
                    let m = choose|m: int| 0 <= m < init.len() && init[m] == before[i];
                    assert(shas[m] == init[m]);
                    assert(all[j] == shas[last]);
                }
            }
        }
    }
}

/// After a commit a blob has a note exactly if its payload was pending, or it had
/// a note that was not removed, and it is in the set of referenced blobs where
/// there is one.
pub proof fn law_commit_annotates(
    store: StoreView,
    existing: Seq<(Seq<char>, Seq<char>)>,
    sha: Seq<char>,
)
    requires
        proper(store),
    ensures
        annotates(tree_of(store, existing), sha) <==> (store.pending.contains_key(sha) || (
        lists_note(existing, sha) && !store.removed.contains(sha))) && (
        store.referenced matches Some(set) ==> set.contains(sha)),
{
    let tree = tree_of(store, existing);
    let todo = written(store);
    let fresh = fresh_entries(todo);
    let kept = kept_entries(store, existing);
    lemma_kept(store, existing);
    lemma_wanted(store, store.order);
    if annotates(tree, sha) {
        let i = choose|i: int| 0 <= i < tree.len() && path_sha((#[trigger] tree[i]).0) == Some(sha);
        if i < fresh.len() {
            assert(tree[i] == fresh[i]);
            let x = todo[i];
            assert(todo.contains(x));
            assert(store.order.contains(x));
            law_note_path_reads_back(x);
            assert(x == sha);
        } else {
            let m = i - fresh.len();
            assert(tree[i] == kept[m]);
            assert(keeps(store, kept[m].0));
            let j = choose|j: int|
                0 <= j < existing.len() && (#[trigger] existing[j]).0 == kept[m].0
                    && SourceView::Oid(existing[j].1) == kept[m].1;
            assert(path_sha(existing[j].0) == Some(sha));
        }
    }
    if store.pending.contains_key(sha) && wants(store, sha) {
        assert(store.order.contains(sha));
        assert(todo.contains(sha));
        let i = choose|i: int| 0 <= i < todo.len() && todo[i] == sha;
        law_note_path_reads_back(sha);
        assert(tree[i] == fresh[i]);
        assert(path_sha(tree[i].0) == Some(sha));
    } else if lists_note(existing, sha) && !store.removed.contains(sha) && wants(store, sha) {
        let j = choose|j: int|
            0 <= j < existing.len() && path_sha((#[trigger] existing[j]).0) == Some(sha);
        assert(keeps(store, existing[j].0));
        let e = (existing[j].0, SourceView::Oid(existing[j].1));
        assert(kept.contains(e));
        let m = choose|m: int| 0 <= m < kept.len() && kept[m] == e;
        assert(tree[fresh.len() + m] == kept[m]);
        assert(path_sha(tree[fresh.len() + m].0) == Some(sha));
    }
}

/// A commit leaves a note as it is, unless its blob has a pending payload, is
/// removed, or is pruned.
pub proof fn law_commit_keeps_note(
    store: StoreView,
    existing: Seq<(Seq<char>, Seq<char>)>,
    j: int,
)
    requires
        0 <= j < existing.len(),
        path_sha(existing[j].0) matches Some(sha) && !store.pending.contains_key(sha)
            && !store.removed.contains(sha) && (store.referenced matches Some(set) ==> set.contains(
            sha,
        )),
    ensures
        tree_of(store, existing).contains((existing[j].0, SourceView::Oid(existing[j].1))),
{
    let e = (existing[j].0, SourceView::Oid(existing[j].1));
    let kept = kept_entries(store, existing);
    lemma_kept(store, existing);
    assert(keeps(store, existing[j].0));
    assert(kept.contains(e));
    let m = choose|m: int| 0 <= m < kept.len() && kept[m] == e;
    assert(tree_of(store, existing)[written(store).len() + m] == e);
}

/// A commit gives every blob with a pending payload a note, unless it is pruned,
/// and the note's mark is that of the blob with the payload.
pub proof fn law_commit_writes_pending(
    store: StoreView,
    existing: Seq<(Seq<char>, Seq<char>)>,
    sha: Seq<char>,
) -> (i: int)
    requires
        proper(store),
        store.pending.contains_key(sha),
        store.referenced matches Some(set) ==> set.contains(sha),
    ensures
        0 <= i < written(store).len(),
        written(store)[i] == sha,
        tree_of(store, existing)[i] == (note_path(sha), SourceView::Mark((i + 1) as nat)),
        blob_records(store, (i + 1) as nat) == blob_records(store, i as nat) + blob_record(
            (i + 1) as nat,
            store.pending[sha],
        ),
{
    let todo = written(store);
    lemma_wanted(store, store.order);
    assert(store.order.contains(sha));
    assert(todo.contains(sha));
    let i = choose|i: int| 0 <= i < todo.len() && todo[i] == sha;
    assert(tree_of(store, existing)[i] == fresh_entries(todo)[i]);
    i
}

/// Where every blob of the set of referenced ones has a note or a pending payload
/// and none is removed, exactly these blobs have a note after a commit.
pub proof fn law_commit_leaves_exact_set(
    store: StoreView,
    existing: Seq<(Seq<char>, Seq<char>)>,
    set: Seq<Seq<char>>,
    sha: Seq<char>,
)
    requires
        proper(store),
        store.referenced == Some(set),
        store.removed.len() == 0,
        forall|x: Seq<char>| #[trigger]
            set.contains(x) ==> lists_note(existing, x) || store.pending.contains_key(x),
    ensures
        annotates(tree_of(store, existing), sha) <==> set.contains(sha),
{
    law_commit_annotates(store, existing, sha);
}

/// What a listing of a tree annotates is what the tree annotates.
pub proof fn law_listed_tree_annotates(
    listed: Seq<(Seq<char>, Seq<char>)>,
    tree: Seq<(Seq<char>, SourceView)>,
    sha: Seq<char>,
)
    requires
        lists_tree(listed, tree),
    ensures
        lists_note(listed, sha) <==> annotates(tree, sha),
{
    if annotates(tree, sha) {
        let i = choose|i: int| 0 <= i < tree.len() && path_sha((#[trigger] tree[i]).0) == Some(sha);
        assert(shows(listed, tree[i]));
        let j = choose|j: int|
            0 <= j < listed.len() && (#[trigger] listed[j]).0 == tree[i].0 && (
            tree[i].1 matches SourceView::Oid(o) ==> listed[j].1 == o);
        assert(path_sha(listed[j].0) == Some(sha));
    }
    if lists_note(listed, sha) {
        let j = choose|j: int|
            0 <= j < listed.len() && path_sha((#[trigger] listed[j]).0) == Some(sha);
        assert(stands_in(tree, listed[j].0));
        let i = choose|i: int| 0 <= i < tree.len() && (#[trigger] tree[i]).0 == listed[j].0;
        assert(path_sha(tree[i].0) == Some(sha));
    }
}

/// Of two writers that add notes and drop none, neither loses what the other
/// wrote: the second one builds on the tree of the first.
pub proof fn law_concurrent_commits(
    first: StoreView,
    second: StoreView,
    existing: Seq<(Seq<char>, Seq<char>)>,
    listed: Seq<(Seq<char>, Seq<char>)>,
    sha: Seq<char>,
)
    requires
        proper(first),
        proper(second),
        first.referenced is None,
        first.removed.len() == 0,
        second.referenced is None,
        second.removed.len() == 0,
        lists_tree(listed, tree_of(first, existing)),
    ensures
        annotates(tree_of(second, listed), sha) <==> first.pending.contains_key(sha)
            || second.pending.contains_key(sha) || lists_note(existing, sha),
{
    law_commit_annotates(first, existing, sha);
    law_commit_annotates(second, listed, sha);
    law_listed_tree_annotates(listed, tree_of(first, existing), sha);
}

/// A commit does not give a blob two notes, if it had at most one.
pub proof fn law_commit_one_note_each(
    store: StoreView,
    existing: Seq<(Seq<char>, Seq<char>)>,
    a: int,
    b: int,
)
    requires
        proper(store),
        forall|i: int, j: int|
            #![trigger existing[i], existing[j]]
            0 <= i < j < existing.len() ==> existing[i].0 != existing[j].0,
        0 <= a < b < tree_of(store, existing).len(),
    ensures
        tree_of(store, existing)[a].0 != tree_of(store, existing)[b].0,
{
    let todo = written(store);
    let fresh = fresh_entries(todo);
    let kept = kept_entries(store, existing);
    let tree = tree_of(store, existing);
    lemma_kept(store, existing);
    lemma_wanted(store, store.order);
    let n = fresh.len();
    if b < n {
        assert(tree[a] == fresh[a] && tree[b] == fresh[b]);
        assert(todo.contains(todo[a]) && todo.contains(todo[b]));
        assert(store.order.contains(todo[a]) && store.order.contains(todo[b]));
        law_note_path_reads_back(todo[a]);
        law_note_path_reads_back(todo[b]);
        lemma_ascending_index(todo, a);
        lemma_ascending_index(todo, b);
    } else if a < n {
        assert(tree[a] == fresh[a] && tree[b] == kept[b - n]);
        assert(todo.contains(todo[a]));
        assert(store.order.contains(todo[a]));
        law_note_path_reads_back(todo[a]);
        assert(keeps(store, kept[b - n].0));
    } else {
        lemma_kept_distinct(store, existing, a - n, b - n);
    }
}

/// Keeping notes makes none of them twice.
proof fn lemma_kept_distinct(
    store: StoreView,
    existing: Seq<(Seq<char>, Seq<char>)>,
    a: int,
    b: int,
)
    requires
        forall|i: int, j: int|
            #![trigger existing[i], existing[j]]
            0 <= i < j < existing.len() ==> existing[i].0 != existing[j].0,
        0 <= a < b < kept_entries(store, existing).len(),
    ensures
        kept_entries(store, existing)[a].0 != kept_entries(store, existing)[b].0,
    decreases existing.len(),
{
    let init = existing.drop_last();
    let before = kept_entries(store, init);
    let all = kept_entries(store, existing);
    assert forall|i: int, j: int|
        #![trigger init[i], init[j]]
        0 <= i < j < init.len() implies init[i].0 != init[j].0 by {
        assert(init[i] == existing[i] && init[j] == existing[j]);
    }
    if b < before.len() {
        lemma_kept_distinct(store, init, a, b);
    } else {
        lemma_kept(store, init);
        assert(all[a] == before[a]);
        let j = choose|j: int|
            0 <= j < init.len() && (#[trigger] init[j]).0 == before[a].0 && SourceView::Oid(
                init[j].1,
            ) == before[a].1;
        assert(existing[j] == init[j]);
        assert(existing[existing.len() - 1].0 == all[b].0);
    }
}

/// A note that git lists is that of a known blob.
pub proof fn law_listed_note_is_known(lines: Seq<Seq<char>>, sha: Seq<char>)
    requires
        lists_note(listed_entries(lines), sha),
    ensures
        listed_shas(lines).contains(sha),
    decreases lines.len(),
{
    let entries = listed_entries(lines);
    let j = choose|j: int|
        0 <= j < entries.len() && path_sha((#[trigger] entries[j]).0) == Some(sha);
    let init = lines.drop_last();
    let before = listed_entries(init);
    let shas = listed_shas(lines);
    if j < before.len() {
        assert(entries[j] == before[j]);
        assert(lists_note(before, sha));
        law_listed_note_is_known(init, sha);
        let m = choose|m: int| 0 <= m < listed_shas(init).len() && listed_shas(init)[m] == sha;
        assert(shas[m] == sha);
    } else {
        assert(line_sha(lines.last()) == Some(sha));
        assert(shas[shas.len() - 1] == sha);
    }
}

/// A known blob has a note that git lists, where whatever stands at the path of a
/// note is a blob.
pub proof fn law_known_blob_is_listed(lines: Seq<Seq<char>>, sha: Seq<char>)
    requires
        listed_shas(lines).contains(sha),
        forall|i: int|
            0 <= i < lines.len() && line_sha(#[trigger] lines[i]) is Some ==> line_entry(
                lines[i],
            ) is Some,
    ensures
        lists_note(listed_entries(lines), sha),
    decreases lines.len(),
{
    let shas = listed_shas(lines);
    let m = choose|m: int| 0 <= m < shas.len() && shas[m] == sha;
    let init = lines.drop_last();
    let before = listed_shas(init);
    let entries = listed_entries(lines);
    if m < before.len() {
        assert(before[m] == sha);
        assert forall|i: int| 0 <= i < init.len() && line_sha(#[trigger] init[i]) is Some implies
            line_entry(init[i]) is Some by {
            assert(init[i] == lines[i]);
        }
        law_known_blob_is_listed(init, sha);
        let old_entries = listed_entries(init);
        let j = choose|j: int|
            0 <= j < old_entries.len() && path_sha((#[trigger] old_entries[j]).0) == Some(sha);
        assert(entries[j] == old_entries[j]);
    } else {
        assert(lines[lines.len() - 1] == lines.last());
        assert(line_sha(lines.last()) == Some(sha));
        assert(path_sha(entries[entries.len() - 1].0) == Some(sha));
    }
}

/// What `git cat-file --batch` prints for a blob.
pub open spec fn batch_record(oid: Seq<char>, content: Seq<u8>) -> Seq<u8> {
    encode_utf8(oid + " blob "@ + decimal(content.len()) + "\n"@) + content + seq![10u8]
}

/// What `git cat-file --batch` prints for some blobs.
pub open spec fn batch_output(blobs: Seq<(Seq<char>, Seq<u8>)>) -> Seq<u8>
    decreases blobs.len(),
{
    if blobs.len() == 0 {
        Seq::empty()
    } else {
        batch_record(blobs[0].0, blobs[0].1) + batch_output(blobs.drop_first())
    }
}

/// The header line of a blob is read as such.
proof fn lemma_header_line(oid: Seq<char>, size: nat)
    requires
        is_object_name(oid),
        size <= usize::MAX,
    ensures
        ({
            let h = oid + " blob "@ + decimal(size) + "\n"@;
            &&& is_ascii_chars(h)
            &&& first_index(encode_utf8(h), 10u8) == encode_utf8(h).len() - 1
            &&& !" missing"@.is_suffix_of(trimmed_end(h))
            &&& announced_size(trimmed_end(h)) == size
        }),
{
    reveal_strlit(" blob ");
    reveal_strlit("\n");
    reveal_strlit(" missing");
    reveal_strlit("blob");
    let d = decimal(size);
    lemma_decimal_digits(size);
    law_decimal_parses(size);
    let t = oid + " blob "@ + d;
    let h = t + "\n"@;
    assert forall|i: int| 0 <= i < t.len() implies '\0' <= #[trigger] t[i] <= '\u{7f}' && t[i]
        != '\n' by {
        if i < 40 {
            assert(t[i] == oid[i]);
            assert(is_hex_digit(oid[i]));
        } else if i < 46 {
            assert(t[i] == " blob "@[i - 40]);
        } else {
            assert(t[i] == d[i - 46]);
            assert(is_digit(d[i - 46]));
        }
    }
    assert(is_ascii_chars(h)) by {
        assert forall|i: int| 0 <= i < h.len() implies '\0' <= #[trigger] h[i] <= '\u{7f}' by {
            if i < t.len() {
                assert(h[i] == t[i]);
            }
        }
    }
    is_ascii_chars_encode_utf8(h);
    let b = encode_utf8(h);
    let last = t.len() as int;
    assert(h[last] == '\n');
    assert forall|i: int| 0 <= i < last implies #[trigger] b[i] != 10u8 by {
        assert(h[i] == t[i]);
        assert(h[i] as u8 == b[i]);
    }
    lemma_first_index_is(b, 10u8, last);
    assert(t.last() == d.last());
    assert(is_digit(d[d.len() - 1]));
    assert(h.drop_last() == t);
    assert(!is_space(t.last()));
    assert(trimmed_end(t) == t);
    assert(h.last() == '\n' && is_space(h.last()));
    assert(trimmed_end(h) == trimmed_end(h.drop_last()));
    if " missing"@.is_suffix_of(t) {
        assert(t.subrange(t.len() - 8, t.len() as int)[7] == t[t.len() - 1]);
        assert(" missing"@[7] == 'g');
    }
    assert(is_word(oid)) by {
        assert forall|i: int| 0 <= i < oid.len() implies !is_space(#[trigger] oid[i]) by {
            assert(is_hex_digit(oid[i]));
        }
    }
    assert(is_word(d)) by {
        assert forall|i: int| 0 <= i < d.len() implies !is_space(#[trigger] d[i]) by {
            assert(is_digit(d[i]));
        }
    }
    let none = Seq::<char>::empty();
    lemma_words_push(none, oid);
    assert(none + oid == oid);
    lemma_words_blank(oid);
    let a = oid + seq![' '];
    assert(is_word("blob"@));
    lemma_words_push(a, "blob"@);
    lemma_words_blank(a + "blob"@);
    let c = a + "blob"@ + seq![' '];
    lemma_words_push(c, d);
    assert(" blob "@ =~= seq![' '] + "blob"@ + seq![' ']);
    assert(c + d =~= t);
    assert(words(t) =~= seq![oid, "blob"@, d]);
}

/// One blob that git prints comes out as it is.
proof fn lemma_next_object(oid: Seq<char>, content: Seq<u8>, more: Seq<u8>)
    requires
        is_object_name(oid),
        content.len() <= usize::MAX,
    ensures
        next_object(batch_record(oid, content) + more) == Ok::<
            (Option<Seq<u8>>, Seq<u8>),
            StoreError,
        >((Some(content), more)),
{
    let h = oid + " blob "@ + decimal(content.len()) + "\n"@;
    let line = encode_utf8(h);
    let b = batch_record(oid, content) + more;
    lemma_header_line(oid, content.len());
    lemma_first_index(line, 10u8);
    assert forall|i: int| 0 <= i < line.len() - 1 implies #[trigger] b[i] != 10u8 by {
        assert(b[i] == line[i]);
    }
    assert(b[line.len() - 1] == line[line.len() - 1]);
    lemma_first_index_is(b, 10u8, line.len() - 1);
    assert(b.take(line.len() as int) == line);
    assert(first_line(b) == line);
    encode_utf8_valid_utf8(h);
    encode_utf8_decode_utf8(h);
    let rest = b.skip(line.len() as int);
    let n = content.len() as int;
    assert(rest.len() > n);
    assert(rest.take(n) == content);
    assert(rest.skip(n + 1) == more);
}

/// The blobs that git prints come out as they went in.
pub proof fn law_batch_reads_back(blobs: Seq<(Seq<char>, Seq<u8>)>)
    requires
        forall|i: int|
            0 <= i < blobs.len() ==> is_object_name((#[trigger] blobs[i]).0) && blobs[i].1.len()
                <= usize::MAX,
    ensures
        objects(batch_output(blobs), blobs.len()) == Ok::<Seq<Option<Seq<u8>>>, StoreError>(
            blobs.map_values(|p: (Seq<char>, Seq<u8>)| Some(p.1)),
        ),
    decreases blobs.len(),
{
    let want = blobs.map_values(|p: (Seq<char>, Seq<u8>)| Some(p.1));
    if blobs.len() == 0 {
        assert(want == Seq::<Option<Seq<u8>>>::empty());
    } else {
        let rest = blobs.drop_first();
        assert forall|i: int| 0 <= i < rest.len() implies is_object_name((#[trigger] rest[i]).0)
            && rest[i].1.len() <= usize::MAX by {
            assert(rest[i] == blobs[i + 1]);
        }
        law_batch_reads_back(rest);
        lemma_next_object(blobs[0].0, blobs[0].1, batch_output(rest));
        assert(seq![Some(blobs[0].1)] + rest.map_values(
            |p: (Seq<char>, Seq<u8>)| Some(p.1),
        ) =~= want);
    }
}

/// Listings are read line by line: the lines of one and of a further one give what
/// the first gives and behind it what the second gives. A line for a blob gives
/// its path and its object; one for anything else, or without a tab, gives none.
/// Whatever a line says before the tab, the path behind it says what it annotates.
pub proof fn law_listing_line_by_line(
    a: Seq<Seq<char>>,
    b: Seq<Seq<char>>,
    mode: Seq<char>,
    kind: Seq<char>,
    oid: Seq<char>,
    path: Seq<char>,
)
    requires
        is_word(mode),
        is_word(kind),
        is_word(oid),
    ensures
        ({
            let line = mode + seq![' '] + kind + seq![' '] + oid + seq!['\t'] + path;
            &&& listed_entries(a + b) == listed_entries(a) + listed_entries(b)
            &&& listed_shas(a + b) == listed_shas(a) + listed_shas(b)
            &&& kind == "blob"@ ==> listed_entries(seq![line]) == seq![(path, oid)]
            &&& kind != "blob"@ ==> listed_entries(seq![line]).len() == 0
            &&& path_sha(path) is Some ==> listed_shas(seq![line]) == seq![path_sha(path)->0]
            &&& path_sha(path) is None ==> listed_shas(seq![line]).len() == 0
            &&& !path.contains('\t') ==> listed_entries(seq![path]).len() == 0 && listed_shas(
                seq![path],
            ).len() == 0
        }),
    decreases b.len(),
{
    let head = mode + seq![' '] + kind + seq![' '] + oid;
    let line = head + seq!['\t'] + path;
    let none = Seq::<Seq<char>>::empty();
    assert(seq![line].drop_last() == none);
    assert(seq![path].drop_last() == none);
    assert(listed_entries(none) == Seq::<(Seq<char>, Seq<char>)>::empty());
    assert(listed_shas(none) == Seq::<Seq<char>>::empty());
    assert forall|i: int| 0 <= i < head.len() implies head[i] != '\t' by {
        let x = mode.len() as int;
        let y = x + 1 + kind.len();
        if i < x {
            assert(!is_space(mode[i]));
        } else if x < i < y {
            assert(!is_space(kind[i - x - 1]));
        } else if i > y {
            assert(!is_space(oid[i - y - 1]));
        }
    }
    law_cut_at_first(head, '\t', path);
    if !path.contains('\t') {
        law_cut_at_first(path, '\t', path);
    }
    let gap = seq![' '];
    assert(blank(gap));
    let rest = kind + gap + oid;
    assert(head == mode + gap + rest);
    law_words_in_order(mode, gap, rest, gap);
    law_words_in_order(kind, gap, oid, gap);
    law_words_in_order(oid, Seq::empty(), Seq::empty(), gap);
    assert(oid + Seq::<char>::empty() + Seq::<char>::empty() == oid);
    assert(words(Seq::<char>::empty()).len() == 0);
    assert(words(head) =~= seq![mode, kind, oid]);
    if b.len() == 0 {
        assert(a + b == a);
    } else {
        law_listing_line_by_line(a, b.drop_last(), mode, kind, oid, path);
        assert((a + b).drop_last() == a + b.drop_last());
        assert((a + b).last() == b.last());
    }
}

/// A command that succeeded answers with what it printed. One that failed for want
/// of the object, which it says somewhere in its complaint, answers with nothing,
/// and any other failure is one.
pub proof fn law_git_answer(
    stdout: Seq<u8>,
    before: Seq<u8>,
    behind: Seq<u8>,
    stderr: Seq<u8>,
) -> (r: (Seq<u8>, Seq<u8>))
    ensures
        git_answer(true, stdout, stderr) == Some(stdout),
        git_answer(false, stdout, before + encode_utf8("unknown revision"@) + behind) == Some(
            Seq::<u8>::empty(),
        ),
        git_answer(false, stdout, before + encode_utf8("Not a valid object"@) + behind) == Some(
            Seq::<u8>::empty(),
        ),
        git_answer(false, stdout, before + encode_utf8("does not exist"@) + behind) == Some(
            Seq::<u8>::empty(),
        ),
        git_answer(false, stdout, stderr) is Some ==> {
            ||| stderr == r.0 + encode_utf8("unknown revision"@) + r.1
            ||| stderr == r.0 + encode_utf8("Not a valid object"@) + r.1
            ||| stderr == r.0 + encode_utf8("does not exist"@) + r.1
        },
{
    let a = encode_utf8("unknown revision"@);
    let b = encode_utf8("Not a valid object"@);
    let c = encode_utf8("does not exist"@);
    let _ = law_occurs(before, a, behind);
    let _ = law_occurs(before, b, behind);
    let _ = law_occurs(before, c, behind);
    let p = law_occurs(stderr, a, behind);
    let q = law_occurs(stderr, b, behind);
    let r = law_occurs(stderr, c, behind);
    if p is Some {
        p->0
    } else if q is Some {
        q->0
    } else if r is Some {
        r->0
    } else {
        (stderr, stderr)
    }
}

/// What `git cat-file --batch` prints for an object that is not there.
pub open spec fn missing_record(name: Seq<char>) -> Seq<u8> {
    encode_utf8(name + " missing\n"@)
}

/// An object that git does not have comes out as missing, and what follows it is
/// read from its own first byte on. An object that breaks off before its size is
/// an error.
pub proof fn law_missing_and_short(
    name: Seq<char>,
    oid: Seq<char>,
    content: Seq<u8>,
    part: Seq<u8>,
    more: Seq<u8>,
)
    requires
        forall|i: int| 0 <= i < name.len() ==> #[trigger] name[i] != '\n',
        is_object_name(oid),
        content.len() <= usize::MAX,
        part.len() < content.len(),
    ensures
        next_object(missing_record(name) + more) == Ok::<(Option<Seq<u8>>, Seq<u8>), StoreError>(
            (None, more),
        ),
        next_object(batch_record(oid, content) + more) == Ok::<
            (Option<Seq<u8>>, Seq<u8>),
            StoreError,
        >((Some(content), more)),
        next_object(encode_utf8(oid + " blob "@ + decimal(content.len()) + "\n"@) + part) == Err::<
            (Option<Seq<u8>>, Seq<u8>),
            StoreError,
        >(StoreError::Eof),
{
    lemma_next_object(oid, content, more);
    reveal_strlit(" missing\n");
    reveal_strlit(" missing");
    let t = name + " missing"@;
    let h = t + seq!['\n'];
    assert(name + " missing\n"@ =~= h);
    let line = encode_utf8(h);
    assert(missing_record(name) == line);
    assert forall|i: int| 0 <= i < t.len() implies #[trigger] t[i] != '\n' by {
        if i < name.len() {
            assert(t[i] == name[i]);
        } else {
            assert(t[i] == " missing"@[i - name.len()]);
        }
    }
    lemma_line_ends(t, more);
    encode_utf8_valid_utf8(h);
    encode_utf8_decode_utf8(h);
    let b = line + more;
    assert(first_line(b) == line);
    assert(b.skip(line.len() as int) == more);
    assert(t.last() == 'g');
    assert(h.drop_last() == t);
    assert(is_space(h.last()));
    assert(trimmed_end(t) == t);
    assert(trimmed_end(h) == t);
    assert(" missing"@.is_suffix_of(t));
    let k = oid + " blob "@ + decimal(content.len()) + "\n"@;
    let kl = encode_utf8(k);
    lemma_header_line(oid, content.len());
    lemma_first_index(kl, 10u8);
    let s = kl + part;
    assert forall|i: int| 0 <= i < kl.len() - 1 implies #[trigger] s[i] != 10u8 by {
        assert(s[i] == kl[i]);
    }
    assert(s[kl.len() - 1] == kl[kl.len() - 1]);
    lemma_first_index_is(s, 10u8, kl.len() - 1);
    assert(s.take(kl.len() as int) == kl);
    encode_utf8_valid_utf8(k);
    encode_utf8_decode_utf8(k);
    assert(s.skip(kl.len() as int) == part);
}

/// A line ends at its line feed.
proof fn lemma_line_ends(t: Seq<char>, more: Seq<u8>)
    requires
        forall|i: int| 0 <= i < t.len() ==> #[trigger] t[i] != '\n',
    ensures
        first_line(encode_utf8(t + seq!['\n']) + more) == encode_utf8(t + seq!['\n']),
{
    let line = encode_utf8(t + seq!['\n']);
    lemma_encode_concat(t, seq!['\n']);
    assert(is_ascii_chars(seq!['\n']));
    is_ascii_chars_encode_utf8(seq!['\n']);
    assert(encode_utf8(seq!['\n']) =~= seq![10u8]);
    lemma_encoding_lacks(t, '\n');
    let n = encode_utf8(t).len() as int;
    let b = line + more;
    assert forall|i: int| 0 <= i < n implies #[trigger] b[i] != 10u8 by {
        assert(b[i] == encode_utf8(t)[i]);
    }
    assert(b[n] == 10u8);
    lemma_first_index_is(b, 10u8, n);
    assert(b.take(n + 1) == line);
}

/// One answer of `git cat-file --batch`: a blob, or that it is missing.
pub open spec fn answer_record(answer: (Seq<char>, Option<Seq<u8>>)) -> Seq<u8> {
    match answer.1 {
        Some(content) => batch_record(answer.0, content),
        None => missing_record(answer.0),
    }
}

/// Answers come out as they went in and in their order, those that are missing
/// among them, whatever the contents hold.
pub proof fn law_answers_read_back(answers: Seq<(Seq<char>, Option<Seq<u8>>)>, more: Seq<u8>)
    requires
        forall|i: int|
            0 <= i < answers.len() ==> is_object_name((#[trigger] answers[i]).0) && (
            answers[i].1 matches Some(c) ==> c.len() <= usize::MAX),
    ensures
        objects(
            answers.map_values(
                |x: (Seq<char>, Option<Seq<u8>>)| answer_record(x),
            ).flatten() + more,
            answers.len(),
        ) == Ok::<Seq<Option<Seq<u8>>>, StoreError>(
            answers.map_values(|x: (Seq<char>, Option<Seq<u8>>)| x.1),
        ),
    decreases answers.len(),
{
    let f = |x: (Seq<char>, Option<Seq<u8>>)| answer_record(x);
    let g = |x: (Seq<char>, Option<Seq<u8>>)| x.1;
    let recs = answers.map_values(f);
    let want = answers.map_values(g);
    if answers.len() == 0 {
        assert(want == Seq::<Option<Seq<u8>>>::empty());
    } else {
        let rest = answers.drop_first();
        assert forall|i: int| 0 <= i < rest.len() implies is_object_name((#[trigger] rest[i]).0)
            && (rest[i].1 matches Some(c) ==> c.len() <= usize::MAX) by {
            assert(rest[i] == answers[i + 1]);
        }
        law_answers_read_back(rest, more);
        assert(recs.drop_first() =~= rest.map_values(f));
        assert(recs.first() == answer_record(answers[0]));
        let tail = rest.map_values(f).flatten() + more;
        assert(recs.flatten() + more =~= answer_record(answers[0]) + tail);
        let name = answers[0].0;
        assert forall|i: int| 0 <= i < name.len() implies #[trigger] name[i] != '\n' by {
            assert(is_hex_digit(name[i]));
        }
        match answers[0].1 {
            Some(c) => {
                lemma_next_object(name, c, tail);
            },
            None => {
                law_missing_and_short(name, name, seq![0u8], Seq::empty(), tail);
            },
        }
        assert(seq![answers[0].1] + rest.map_values(g) =~= want);
    }
}

/// Answers are matched with the blobs that were asked for one by one. What came for
/// a blob is its payload, unless its header names another dimension; a blob
/// without an answer has none.
pub proof fn law_payloads_one_by_one(
    shas: Seq<Seq<char>>,
    answers: Seq<Option<Seq<u8>>>,
    more: Seq<Seq<char>>,
    further: Seq<Option<Seq<u8>>>,
    sha: Seq<char>,
    bytes: Seq<u8>,
    dim: nat,
)
    requires
        shas.len() == answers.len(),
        more.len() == further.len(),
    ensures
        matching_payloads(shas + more, answers + further, dim) == matching_payloads(
            shas,
            answers,
            dim,
        ) + matching_payloads(more, further, dim),
        matching_payloads(seq![sha], seq![None], dim).len() == 0,
        peeked_dim(bytes) is None || peeked_dim(bytes)->0 == dim ==> matching_payloads(
            seq![sha],
            seq![Some(bytes)],
            dim,
        ) == seq![(sha, bytes)],
        peeked_dim(bytes) is Some && peeked_dim(bytes)->0 != dim ==> matching_payloads(
            seq![sha],
            seq![Some(bytes)],
            dim,
        ).len() == 0,
    decreases more.len(),
{
    let none = Seq::<Seq<char>>::empty();
    assert(seq![sha].drop_last() == none);
    assert(matching_payloads(none, seq![None].drop_last(), dim) == Seq::<
        (Seq<char>, Seq<u8>),
    >::empty());
    assert(matching_payloads(none, seq![Some(bytes)].drop_last(), dim) == Seq::<
        (Seq<char>, Seq<u8>),
    >::empty());
    if more.len() == 0 {
        assert(shas + more == shas);
        assert(answers + further == answers);
        assert(matching_payloads(more, further, dim) == Seq::<(Seq<char>, Seq<u8>)>::empty());
    } else {
        law_payloads_one_by_one(
            shas,
            answers,
            more.drop_last(),
            further.drop_last(),
            sha,
            bytes,
            dim,
        );
        assert((shas + more).drop_last() == shas + more.drop_last());
        assert((answers + further).drop_last() == answers + further.drop_last());
        assert((shas + more).last() == more.last());
        assert((answers + further).last() == further.last());
    }
}

/// A payload that was packed in the dimension of the store is among those that are
/// read, whatever else was asked for.
pub proof fn law_stored_payload_is_read(
    shas: Seq<Seq<char>>,
    answers: Seq<Option<Seq<u8>>>,
    dim: nat,
    i: int,
    ranges: Seq<(u32, u32)>,
    bits: Seq<u32>,
)
    requires
        shas.len() == answers.len(),
        0 <= i < shas.len(),
        dim <= u16::MAX,
        ranges.len() <= u32::MAX,
        answers[i] == Some(packed(dim, ranges, bits)),
    ensures
        matching_payloads(shas, answers, dim).contains((shas[i], packed(dim, ranges, bits))),
{
    let b = packed(dim, ranges, bits);
    law_header_pack(dim, ranges, bits);
    let one = seq![shas[i]];
    let got = seq![answers[i]];
    let (s, t) = (shas.take(i), shas.skip(i + 1));
    let (x, y) = (answers.take(i), answers.skip(i + 1));
    assert(shas == (s + one) + t);
    assert(answers == (x + got) + y);
    law_payloads_one_by_one(s + one, x + got, t, y, shas[i], b, dim);
    law_payloads_one_by_one(s, x, one, got, shas[i], b, dim);
    assert(peeked_dim(b) == Some(dim as u16));
    let all = matching_payloads(shas, answers, dim);
    assert(all[matching_payloads(s, x, dim).len() as int] == (shas[i], b));
}

/// The stream holds every payload that a commit writes, from its first byte to its
/// last, behind a header that gives its mark and its size.
pub proof fn law_stream_carries_payload(
    store: StoreView,
    parent: Option<Seq<char>>,
    existing: Seq<(Seq<char>, Seq<char>)>,
    now: nat,
    i: int,
) -> (around: (Seq<u8>, Seq<u8>))
    requires
        0 <= i < written(store).len(),
    ensures
        commit_stream(store, parent, existing, now) == around.0 + encode_utf8(
            "blob\nmark :"@ + decimal((i + 1) as nat) + "\ndata "@ + decimal(
                store.pending[written(store)[i]].len(),
            ) + "\n"@,
        ) + store.pending[written(store)[i]] + around.1,
        tree_of(store, existing)[i] == (
            note_path(written(store)[i]),
            SourceView::Mark((i + 1) as nat),
        ),
{
    let n = written(store).len();
    let tail = encode_utf8(commit_head(store, parent, now)) + tree_lines(tree_of(store, existing))
        + encode_utf8("done\n"@);
    let behind = lemma_record_in_stream(store, n, i);
    let around = (blob_records(store, i as nat), behind + tail);
    let data = store.pending[written(store)[i]];
    let head = encode_utf8(
        "blob\nmark :"@ + decimal((i + 1) as nat) + "\ndata "@ + decimal(data.len()) + "\n"@,
    );
    assert(blob_record((i + 1) as nat, data) == head + data);
    assert(commit_stream(store, parent, existing, now) =~= blob_records(store, n) + tail);
    assert(commit_stream(store, parent, existing, now) =~= around.0 + head + data + around.1);
    assert(tree_of(store, existing)[i] == fresh_entries(written(store))[i]);
    around
}

/// The record of a payload stands among the records.
proof fn lemma_record_in_stream(store: StoreView, n: nat, i: int) -> (behind: Seq<u8>)
    requires
        0 <= i < n,
    ensures
        blob_records(store, n) == blob_records(store, i as nat) + blob_record(
            (i + 1) as nat,
            store.pending[written(store)[i]],
        ) + behind,
    decreases n,
{
    let last = blob_record(n, store.pending[written(store)[n - 1]]);
    if i == n - 1 {
        assert(blob_records(store, n) == blob_records(store, i as nat) + last);
        Seq::empty()
    } else {
        let behind = lemma_record_in_stream(store, (n - 1) as nat, i);
        behind + last
    }
}

/// The lines that put notes into the tree are one line for each note, in order: a
/// regular file, its content and its path.
pub proof fn law_tree_line_by_line(
    a: Seq<(Seq<char>, SourceView)>,
    b: Seq<(Seq<char>, SourceView)>,
    path: Seq<char>,
    mark: nat,
    oid: Seq<char>,
)
    ensures
        tree_lines(a + b) == tree_lines(a) + tree_lines(b),
        tree_lines(seq![(path, SourceView::Mark(mark))]) == encode_utf8(
            "M 100644 :"@ + decimal(mark) + " "@ + path + "\n"@,
        ),
        tree_lines(seq![(path, SourceView::Oid(oid))]) == encode_utf8(
            "M 100644 "@ + oid + " "@ + path + "\n"@,
        ),
    decreases b.len(),
{
    reveal_strlit("M 100644 ");
    reveal_strlit("M 100644 :");
    reveal_strlit(":");
    let none = Seq::<(Seq<char>, SourceView)>::empty();
    let x = (path, SourceView::Mark(mark));
    let y = (path, SourceView::Oid(oid));
    assert(seq![x].drop_last() == none);
    assert(seq![y].drop_last() == none);
    assert(tree_lines(none) == Seq::<u8>::empty());
    assert("M 100644 "@ + (":"@ + decimal(mark)) =~= "M 100644 :"@ + decimal(mark));
    assert(Seq::<u8>::empty() + tree_line(x) == tree_line(x));
    assert(Seq::<u8>::empty() + tree_line(y) == tree_line(y));
    if b.len() == 0 {
        assert(a + b == a);
    } else {
        law_tree_line_by_line(a, b.drop_last(), path, mark, oid);
        assert((a + b).drop_last() == a + b.drop_last());
        assert((a + b).last() == b.last());
    }
}

/// The stream ends in one commit on the store's ref, and nothing follows it: its
/// message is as long as the stream says, it stands on the parent where there is
/// one, its tree starts empty, and then come the lines of the tree.
pub proof fn law_stream_ends_in_commit(
    store: StoreView,
    parent: Option<Seq<char>>,
    existing: Seq<(Seq<char>, Seq<char>)>,
    now: nat,
)
    ensures
        ({
            let message = "git-vector-grep snapshot ("@ + store.short_id + ")\n"@;
            let base = match parent {
                Some(p) => "from "@ + p + "\n"@,
                None => Seq::empty(),
            };
            let head = "commit "@ + store.ref_name + "\n"@
                + "committer git-vector-grep <vgrep@local> "@ + decimal(now) + " +0000\n"@
                + "data "@ + decimal(encode_utf8(message).len()) + "\n"@ + message + base
                + "deleteall\n"@;
            let end = encode_utf8(head) + tree_lines(tree_of(store, existing)) + encode_utf8(
                "done\n"@,
            );
            let stream = commit_stream(store, parent, existing, now);
            &&& end.len() <= stream.len()
            &&& stream.skip(stream.len() - end.len()) == end
            &&& stream.take(stream.len() - end.len()) == blob_records(store, written(store).len())
        }),
{
    reveal_strlit("\ncommitter git-vector-grep <vgrep@local> ");
    reveal_strlit("committer git-vector-grep <vgrep@local> ");
    reveal_strlit(" +0000\ndata ");
    reveal_strlit(" +0000\n");
    reveal_strlit("data ");
    reveal_strlit("\n");
    reveal_strlit("\ndeleteall\n");
    reveal_strlit("deleteall\n");
    let message = "git-vector-grep snapshot ("@ + store.short_id + ")\n"@;
    let base = match parent {
        Some(p) => "from "@ + p + "\n"@,
        None => Seq::empty(),
    };
    let head = "commit "@ + store.ref_name + "\n"@ + "committer git-vector-grep <vgrep@local> "@
        + decimal(now) + " +0000\n"@ + "data "@ + decimal(encode_utf8(message).len()) + "\n"@
        + message + base + "deleteall\n"@;
    assert(commit_head(store, parent, now) =~= head);
    let blobs = blob_records(store, written(store).len());
    let end = encode_utf8(head) + tree_lines(tree_of(store, existing)) + encode_utf8("done\n"@);
    let stream = commit_stream(store, parent, existing, now);
    assert(stream =~= blobs + end);
    assert(stream.skip(stream.len() - end.len()) =~= end);
    assert(stream.take(stream.len() - end.len()) =~= blobs);
}

/// What git is asked for is the ref, a colon and the path of the note.
pub proof fn law_note_is_asked_for(ref_name: Seq<char>, sha: Seq<char>)
    requires
        is_object_name(sha),
    ensures
        note_spec(ref_name, sha) == ref_name + seq![':'] + sha.take(2) + seq!['/'] + sha.skip(2),
{
    reveal_strlit(":");
    law_note_path_form(sha, sha);
    let p = note_path(sha);
    assert(p =~= p.take(2) + seq![p[2]] + p.skip(3));
    assert(note_spec(ref_name, sha) =~= ref_name + seq![':'] + sha.take(2) + seq!['/'] + sha.skip(
        2,
    ));
}

/// A new store and one whose commit reached the ref have nothing to write, prune
/// or drop, and keep the model that they are for.
pub proof fn law_nothing_pending(store: StoreView, short_id: Seq<char>, dim: nat, sha: Seq<char>)
    ensures
        !flushed(store).dirty,
        !flushed(store).pending.contains_key(sha),
        flushed(store).order.len() == 0,
        flushed(store).referenced is None,
        flushed(store).removed.len() == 0,
        flushed(store).short_id == store.short_id,
        flushed(store).ref_name == store.ref_name,
        flushed(store).dim == store.dim,
        opened(short_id, dim) == flushed(opened(short_id, dim)),
        opened(short_id, dim).short_id == short_id,
        opened(short_id, dim).dim == dim,
        opened(short_id, dim).ref_name.skip(23) == short_id,
{
    law_ref_name_form(short_id);
}

/// Without a commit below there are no notes; with one they are those of its
/// listing, line by line.
pub proof fn law_notes_of_parent(text: Seq<char>, listing: Seq<u8>)
    ensures
        existing_entries(false, listing).len() == 0,
        existing_entries(true, encode_utf8(text)) == listed_entries(text_lines(text)),
{
    encode_utf8_decode_utf8(text);
}

/// A header line that is not UTF-8 is an error, and so is any output in which one
/// comes up among the objects that are asked for.
pub proof fn law_unreadable_header(b: Seq<u8>, count: nat)
    requires
        count > 0,
        !valid_utf8(first_line(b)),
    ensures
        objects(b, count) == Err::<Seq<Option<Seq<u8>>>, StoreError>(StoreError::Utf8),
{
}

/// The payloads that a commit writes are those of the pending blobs that are wanted,
/// each once and in ascending order.
pub proof fn law_written_once(store: StoreView, sha: Seq<char>)
    requires
        proper(store),
    ensures
        written(store).contains(sha) <==> store.pending.contains_key(sha) && (
        store.referenced matches Some(set) ==> set.contains(sha)),
        ascending(written(store)),
        written(store).no_duplicates(),
{
    lemma_wanted(store, store.order);
    assert(store.order.contains(sha) <==> store.pending.contains_key(sha));
    law_set_holds_nothing_twice(written(store));
}

/// The model of a store shows it field by field.
pub proof fn law_store_model(store: Store, sha: Seq<char>)
    ensures
        store@.short_id == store.short_id@,
        store@.ref_name == store.ref_name@,
        store@.dim == store.dim,
        store@.dirty == store.dirty,
        store@.removed == store.removed@,
        store@.referenced is Some <==> store.referenced is Some,
        store.referenced matches Some(set) ==> store@.referenced == Some(set@),
        store@.pending.contains_key(sha) <==> store.blob_payloads@.contains_key(sha),
        store.blob_payloads@.contains_key(sha) ==> store@.pending[sha]
            == store.blob_payloads@[sha]@,
{
}

/// Every payload is what git answered for its blob.
pub proof fn law_payload_has_answer(
    shas: Seq<Seq<char>>,
    answers: Seq<Option<Seq<u8>>>,
    dim: nat,
    p: int,
) -> (j: int)
    requires
        shas.len() == answers.len(),
        0 <= p < matching_payloads(shas, answers, dim).len(),
    ensures
        0 <= j < shas.len(),
        shas[j] == matching_payloads(shas, answers, dim)[p].0,
        answers[j] == Some(matching_payloads(shas, answers, dim)[p].1),
    decreases shas.len(),
{
    let before = matching_payloads(shas.drop_last(), answers.drop_last(), dim);
    if p < before.len() {
        let j = law_payload_has_answer(shas.drop_last(), answers.drop_last(), dim, p);
        assert(shas.drop_last()[j] == shas[j]);
        assert(answers.drop_last()[j] == answers[j]);
        j
    } else {
        shas.len() - 1
    }
}

/// The stream holds a line for every note of the tree.
pub proof fn law_stream_carries_note(
    store: StoreView,
    parent: Option<Seq<char>>,
    existing: Seq<(Seq<char>, Seq<char>)>,
    now: nat,
    i: int,
) -> (around: (Seq<u8>, Seq<u8>))
    requires
        0 <= i < tree_of(store, existing).len(),
    ensures
        ({
            let note = tree_of(store, existing)[i];
            let line = match note.1 {
                SourceView::Mark(m) => encode_utf8(
                    "M 100644 :"@ + decimal(m) + " "@ + note.0 + "\n"@,
                ),
                SourceView::Oid(o) => encode_utf8("M 100644 "@ + o + " "@ + note.0 + "\n"@),
            };
            commit_stream(store, parent, existing, now) == around.0 + line + around.1
        }),
{
    let tree = tree_of(store, existing);
    let note = tree[i];
    let a = tree.take(i);
    let one = seq![note];
    let b = tree.skip(i + 1);
    assert(tree =~= (a + one) + b);
    let mark = match note.1 {
        SourceView::Mark(m) => m,
        SourceView::Oid(o) => 0,
    };
    let oid = match note.1 {
        SourceView::Mark(m) => Seq::<char>::empty(),
        SourceView::Oid(o) => o,
    };
    law_tree_line_by_line(a + one, b, note.0, mark, oid);
    law_tree_line_by_line(a, one, note.0, mark, oid);
    assert(one == seq![(note.0, note.1)]);
    let line = tree_lines(one);
    let x = blob_records(store, written(store).len()) + encode_utf8(
        commit_head(store, parent, now),
    );
    let y = encode_utf8("done\n"@);
    let stream = commit_stream(store, parent, existing, now);
    assert(stream =~= (x + tree_lines(a)) + line + (tree_lines(b) + y));
    (x + tree_lines(a), tree_lines(b) + y)
}

/// A header that announces no size, and not that the object is missing, stands for an
/// object without content.
pub proof fn law_header_without_size(h: Seq<char>, more: Seq<u8>)
    requires
        forall|i: int| 0 <= i < h.len() ==> #[trigger] h[i] != '\n',
        h.len() > 0 && !is_space(h.last()),
        !" missing"@.is_suffix_of(h),
        words(h).len() < 3 || parsed(words(h)[2]) is None,
    ensures
        next_object(encode_utf8(h + seq!['\n']) + more) == Ok::<
            (Option<Seq<u8>>, Seq<u8>),
            StoreError,
        >(
            (
                Some(Seq::empty()),
                if more.len() == 0 {
                    more
                } else {
                    more.skip(1)
                },
            ),
        ),
{
    let line = encode_utf8(h + seq!['\n']);
    let b = line + more;
    lemma_line_ends(h, more);
    encode_utf8_valid_utf8(h + seq!['\n']);
    encode_utf8_decode_utf8(h + seq!['\n']);
    assert((h + seq!['\n']).drop_last() == h);
    assert(trimmed_end(h) == h);
    assert(trimmed_end(h + seq!['\n']) == h);
    assert(b.skip(line.len() as int) == more);
    assert(more.take(0) == Seq::<u8>::empty());
    if more.len() == 0 {
        assert(more == Seq::<u8>::empty());
    }
}

} // verus!
