//! The benchmark corpus and the dumps of vectors: what stands in their files.
//!
//! ```text
//! magic   [u8; 8]  = "VGGCORP1"
//! n       u64 LE
//! then n records, each: len u32 LE, bytes[len] (UTF-8, not NUL-terminated)
//! ```

use vstd::arithmetic::power::*;
use vstd::prelude::*;
use vstd::slice::*;
use vstd::utf8::*;

use crate::indexer::{blob_views, first_path, held_shas, lemma_first_path_is_first, TrackedBlob, TrackedBlobView};
use crate::number::{law_le_reads_back, le, le_value, lemma_le_bounds, lemma_le_len, push_le, read_le};
use crate::payload::{bytes_to_words, field, lemma_word_bytes, word_bytes, words_to_bytes};
use crate::sorted::{ascending, lemma_ascending_index, precedes, StrMap};
use crate::text::{utf8_string, views};

verus! {

/// The magic at the start of a corpus: `VGGCORP1`.
pub open spec fn corpus_magic() -> Seq<u8> {
    seq![0x56u8, 0x47u8, 0x47u8, 0x43u8, 0x4fu8, 0x52u8, 0x50u8, 0x31u8]
}

/// The record of a text.
pub open spec fn text_record(text: Seq<char>) -> Seq<u8> {
    le(encode_utf8(text).len(), 4) + encode_utf8(text)
}

/// The records of some texts.
pub open spec fn text_records(texts: Seq<Seq<char>>) -> Seq<u8>
    decreases texts.len(),
{
    if texts.len() == 0 {
        Seq::empty()
    } else {
        text_records(texts.drop_last()) + text_record(texts.last())
    }
}

/// The bytes of a corpus.
pub open spec fn corpus_bytes(texts: Seq<Seq<char>>) -> Seq<u8> {
    corpus_magic() + le(texts.len(), 8) + text_records(texts)
}

/// Why bytes are no corpus.
#[derive(Debug, Clone, Copy, PartialEq, Eq, Structural)]
pub enum CorpusError {
    /// Not a corpus file.
    Magic,
    /// Shorter than it says.
    Eof,
    /// A text that is not UTF-8.
    Utf8,
}

/// The first `n` texts of a run of records.
pub open spec fn read_records(b: Seq<u8>, n: nat) -> Result<Seq<Seq<char>>, CorpusError>
    decreases n,
{
    if n == 0 {
        Ok(Seq::empty())
    } else if b.len() < 4 || b.len() < 4 + field(b, 0, 4) {
        Err(CorpusError::Eof)
    } else {
        let len = field(b, 0, 4) as int;
        let text = b.subrange(4, 4 + len);
        if !valid_utf8(text) {
            Err(CorpusError::Utf8)
        } else {
            match read_records(b.skip(4 + len), (n - 1) as nat) {
                Ok(rest) => Ok(seq![decode_utf8(text)] + rest),
                Err(e) => Err(e),
            }
        }
    }
}

/// The texts of a corpus. What stands behind the last record is not looked at.
pub open spec fn corpus_texts(b: Seq<u8>) -> Result<Seq<Seq<char>>, CorpusError> {
    if b.len() < 8 {
        Err(CorpusError::Eof)
    } else if b.take(8) != corpus_magic() {
        Err(CorpusError::Magic)
    } else if b.len() < 16 {
        Err(CorpusError::Eof)
    } else {
        read_records(b.skip(16), field(b, 8, 8))
    }
}

/// Appends bytes.
fn put_bytes(out: &mut Vec<u8>, bytes: &[u8])
    ensures
        final(out)@ == old(out)@ + bytes@,
{
    let mut copy = slice_to_vec(bytes);
    out.append(&mut copy);
}

/// The bytes of a corpus.
pub fn write(texts: &Vec<String>) -> (r: Vec<u8>)
    ensures
        r@ == corpus_bytes(views(texts@)),
{
    let ghost all = views(texts@);
    let mut out: Vec<u8> = Vec::new();
    out.push(0x56);
    out.push(0x47);
    out.push(0x47);
    out.push(0x43);
    out.push(0x4f);
    out.push(0x52);
    out.push(0x50);
    out.push(0x31);
    assert(out@ == corpus_magic());
    push_le(&mut out, texts.len() as u64, 8);
    let ghost head = out@;
    let mut i: usize = 0;
    assert(all.take(0) == Seq::<Seq<char>>::empty());
    assert(head + text_records(all.take(0)) == head);
    while i < texts.len()
        invariant
            i <= texts@.len(),
            all == views(texts@),
            out@ == head + text_records(all.take(i as int)),
        decreases texts@.len() - i,
    {
        let bytes = texts[i].as_str().as_bytes();
        push_le(&mut out, bytes.len() as u64, 4);
        put_bytes(&mut out, bytes);
        proof {
            let now = all.take(i + 1);
            assert(now.drop_last() == all.take(i as int));
            assert(now.last() == texts@[i as int]@);
            assert(out@ == head + text_records(now));
        }
        i = i + 1;
    }
    assert(all.take(all.len() as int) == all);
    out
}

/// Whether the magic of a corpus stands at the start.
fn magic_at_start(bytes: &[u8]) -> (r: bool)
    requires
        bytes@.len() >= 8,
    ensures
        r == (bytes@.take(8) == corpus_magic()),
{
    let r = bytes[0] == 0x56 && bytes[1] == 0x47 && bytes[2] == 0x47 && bytes[3] == 0x43
        && bytes[4] == 0x4f && bytes[5] == 0x52 && bytes[6] == 0x50 && bytes[7] == 0x31;
    proof {
        let t = bytes@.take(8);
        let m = corpus_magic();
        if r {
            assert(t =~= m);
        } else if t == m {
            assert(t[0] == m[0] && t[1] == m[1] && t[2] == m[2] && t[3] == m[3] && t[4] == m[4]
                && t[5] == m[5] && t[6] == m[6] && t[7] == m[7]);
        }
    }
    r
}

/// Reads the texts of a corpus.
pub fn read(bytes: &[u8]) -> (r: Result<Vec<String>, CorpusError>)
    ensures
        match r {
            Ok(v) => corpus_texts(bytes@) == Ok::<Seq<Seq<char>>, CorpusError>(views(v@)),
            Err(e) => corpus_texts(bytes@) == Err::<Seq<Seq<char>>, CorpusError>(e),
        },
{
    if bytes.len() < 8 {
        return Err(CorpusError::Eof);
    }
    if !magic_at_start(bytes) {
        return Err(CorpusError::Magic);
    }
    if bytes.len() < 16 {
        return Err(CorpusError::Eof);
    }
    let n: u64 = read_le(bytes, 8, 8);
    let ghost want = corpus_texts(bytes@);
    let mut out: Vec<String> = Vec::new();
    let mut at: usize = 16;
    let mut i: u64 = 0;
    proof {
        lemma_le_bounds();
        match want {
            Ok(ys) => {
                assert(views(out@) + ys == ys);
            },
            Err(_) => {},
        }
    }
    while i < n
        invariant
            i <= n,
            16 <= at <= bytes@.len(),
            bytes@.len() <= usize::MAX,
            want == corpus_texts(bytes@),
            pow(256, 4) == 0x1_0000_0000,
            match read_records(bytes@.skip(at as int), (n - i) as nat) {
                Ok(ys) => want == Ok::<Seq<Seq<char>>, CorpusError>(views(out@) + ys),
                Err(e) => want == Err::<Seq<Seq<char>>, CorpusError>(e),
            },
        decreases n - i,
    {
        let ghost b = bytes@.skip(at as int);
        let ghost done = views(out@);
        if bytes.len() - at < 4 {
            return Err(CorpusError::Eof);
        }
        let len: u64 = read_le(bytes, at, 4);
        proof {
            assert(bytes@.subrange(at as int, at + 4) == b.subrange(0, 4));
        }
        if ((bytes.len() - at - 4) as u64) < len {
            return Err(CorpusError::Eof);
        }
        let start: usize = at + 4;
        let end: usize = start + len as usize;
        let text = slice_subrange(bytes, start, end);
        proof {
            assert(text@ == b.subrange(4, 4 + len as int));
            assert(bytes@.skip(end as int) == b.skip(4 + len as int));
        }
        match utf8_string(text) {
            Some(s) => {
                let ghost x = s@;
                out.push(s);
                proof {
                    assert(views(out@) == done.push(x));
                    match read_records(b.skip(4 + len as int), (n - i - 1) as nat) {
                        Ok(ys) => {
                            assert(done + (seq![x] + ys) == views(out@) + ys);
                        },
                        Err(_) => {},
                    }
                }
            },
            None => {
                return Err(CorpusError::Utf8);
            },
        }
        at = end;
        i = i + 1;
    }
    proof {
        assert(views(out@) + Seq::<Seq<char>>::empty() == views(out@));
    }
    Ok(out)
}

/// The records of some texts start with that of the first.
proof fn lemma_records_first(texts: Seq<Seq<char>>)
    requires
        texts.len() > 0,
    ensures
        text_records(texts) == text_record(texts[0]) + text_records(texts.drop_first()),
    decreases texts.len(),
{
    if texts.len() == 1 {
        assert(texts.drop_last() == Seq::<Seq<char>>::empty());
        assert(texts.drop_first() == Seq::<Seq<char>>::empty());
        let none = Seq::<u8>::empty();
        let only = text_record(texts[0]);
        assert(texts.last() == texts[0]);
        assert(text_records(Seq::<Seq<char>>::empty()) == none);
        assert(text_records(texts.drop_last()) == none);
        assert(text_records(texts) == none + only);
        assert(text_records(texts.drop_first()) == none);
        assert(none + only == only + none);
    } else {
        let init = texts.drop_last();
        lemma_records_first(init);
        assert(init.drop_first() == texts.drop_first().drop_last());
        assert(init[0] == texts[0]);
        assert(texts.drop_first().last() == texts.last());
        let first = text_record(texts[0]);
        let middle = text_records(init.drop_first());
        let last = text_record(texts.last());
        assert(text_records(texts.drop_first()) == middle + last);
        assert((first + middle) + last == first + (middle + last));
    }
}

/// Reading the records of texts gives them back.
proof fn lemma_records_read_back(texts: Seq<Seq<char>>)
    requires
        forall|i: int|
            0 <= i < texts.len() ==> encode_utf8(#[trigger] texts[i]).len() <= u32::MAX,
    ensures
        read_records(text_records(texts), texts.len()) == Ok::<Seq<Seq<char>>, CorpusError>(texts),
    decreases texts.len(),
{
    if texts.len() > 0 {
        let b = text_records(texts);
        let text = texts[0];
        let bytes = encode_utf8(text);
        let rest = texts.drop_first();
        lemma_records_first(texts);
        lemma_le_len(bytes.len(), 4);
        lemma_le_bounds();
        assert(bytes.len() <= u32::MAX);
        law_le_reads_back(bytes.len(), 4);
        assert(b.subrange(0, 4) == le(bytes.len(), 4));
        assert(b.subrange(4, 4 + bytes.len() as int) == bytes);
        assert(b.skip(4 + bytes.len() as int) == text_records(rest));
        encode_utf8_valid_utf8(text);
        encode_utf8_decode_utf8(text);
        assert forall|i: int| 0 <= i < rest.len() implies encode_utf8(#[trigger] rest[i]).len()
            <= u32::MAX by {
            assert(rest[i] == texts[i + 1]);
        }
        lemma_records_read_back(rest);
        assert(seq![text] + rest == texts);
    } else {
        assert(texts == Seq::<Seq<char>>::empty());
    }
}

/// A corpus reads as the texts that were written.
pub proof fn law_corpus_reads_back(texts: Seq<Seq<char>>)
    requires
        texts.len() <= u64::MAX,
        forall|i: int|
            0 <= i < texts.len() ==> encode_utf8(#[trigger] texts[i]).len() <= u32::MAX,
    ensures
        corpus_texts(corpus_bytes(texts)) == Ok::<Seq<Seq<char>>, CorpusError>(texts),
{
    let b = corpus_bytes(texts);
    lemma_le_len(texts.len(), 8);
    lemma_le_bounds();
    law_le_reads_back(texts.len(), 8);
    lemma_records_read_back(texts);
    assert(b.take(8) == corpus_magic());
    assert(b.subrange(8, 16) == le(texts.len(), 8));
    assert(b.skip(16) == text_records(texts));
}

/// The blobs of a corpus in ascending order, each with the first path that holds
/// it.
pub open spec fn is_corpus_plan(
    plan: Seq<(Seq<char>, Seq<char>)>,
    held: Seq<TrackedBlobView>,
) -> bool {
    let shas = plan.map_values(|p: (Seq<char>, Seq<char>)| p.0);
    &&& ascending(shas)
    &&& forall|x: Seq<char>| #[trigger] shas.contains(x) <==> held_shas(held).contains(x)
    &&& forall|i: int|
        0 <= i < plan.len() ==> first_path(held, (#[trigger] plan[i]).0, false) == Some(plan[i].1)
}

/// The views of a corpus plan.
pub open spec fn plan_views(v: Seq<(String, String)>) -> Seq<(Seq<char>, Seq<char>)> {
    v.map_values(|p: (String, String)| (p.0@, p.1@))
}

/// A map holds the first path of every blob.
spec fn maps_first(m: Map<Seq<char>, String>, held: Seq<TrackedBlobView>) -> bool {
    forall|sha: Seq<char>|
        #![trigger m.contains_key(sha)]
        {
            &&& m.contains_key(sha) <==> first_path(held, sha, false) is Some
            &&& m.contains_key(sha) ==> first_path(held, sha, false) == Some(m[sha]@)
        }
}

/// One canonical path per unique blob, in the order of the blobs: a corpus is
/// stable, whatever order the files come in.
pub fn corpus_plan(held: &Vec<TrackedBlob>) -> (r: Vec<(String, String)>)
    ensures
        is_corpus_plan(plan_views(r@), blob_views(held@)),
{
    let ghost all = blob_views(held@);
    let mut paths: StrMap<String> = StrMap::new();
    let mut i: usize = 0;
    while i < held.len()
        invariant
            i <= held@.len(),
            all == blob_views(held@),
            maps_first(paths@, all.take(i as int)),
        decreases held@.len() - i,
    {
        let f = &held[i];
        let ghost part = all.take(i as int);
        let ghost next = all.take(i + 1);
        let ghost before = paths@;
        proof {
            assert(next.drop_last() == part);
            assert(next.last() == f@);
            assert(before.contains_key(f.sha@) || !before.contains_key(f.sha@));
        }
        if paths.get(f.sha.as_str()).is_none() {
            paths.insert(f.sha.clone(), f.path.clone());
        }
        proof {
            assert forall|sha: Seq<char>|
                #![trigger paths@.contains_key(sha)]
                {
                    &&& paths@.contains_key(sha) <==> first_path(next, sha, false) is Some
                    &&& paths@.contains_key(sha) ==> first_path(next, sha, false) == Some(
                        paths@[sha]@,
                    )
                } by {
                assert(before.contains_key(sha) || !before.contains_key(sha));
            }
        }
        i = i + 1;
    }
    assert(all.take(all.len() as int) == all);
    let n: usize = paths.len();
    let mut out: Vec<(String, String)> = Vec::new();
    i = 0;
    while i < n
        invariant
            i <= n,
            n == paths.keys().len(),
            maps_first(paths@, all),
            forall|k: Seq<char>| #[trigger] paths.keys().contains(k) <==> paths@.contains_key(k),
            out@.len() == i,
            forall|k: int|
                0 <= k < i ==> (#[trigger] out@[k]).0@ == paths.keys()[k] && first_path(
                    all,
                    out@[k].0@,
                    false,
                ) == Some(out@[k].1@),
        decreases n - i,
    {
        let sha = paths.key_at(i);
        let path = paths.value_at(i);
        assert(paths@.contains_key(sha@));
        out.push((sha.clone(), path.clone()));
        i = i + 1;
    }
    proof {
        let plan = plan_views(out@);
        let shas = plan.map_values(|p: (Seq<char>, Seq<char>)| p.0);
        assert(shas =~= paths.keys());
        assert forall|x: Seq<char>| #[trigger] shas.contains(x) <==> held_shas(all).contains(
            x,
        ) by {
            assert(paths@.contains_key(x) || !paths@.contains_key(x));
            crate::indexer::lemma_first_path(all, x);
        }
        assert forall|k: int| 0 <= k < plan.len() implies first_path(
            all,
            (#[trigger] plan[k]).0,
            false,
        ) == Some(plan[k].1) by {
            assert(plan[k] == (out@[k].0@, out@[k].1@));
        }
    }
    out
}

/// How many of `count` rows are dumped where `asked` are asked for.
pub open spec fn dump_count(asked: nat, count: nat) -> nat {
    if asked < count {
        asked
    } else {
        count
    }
}

/// The bytes of a dump: the dimension and the number of vectors, and the vectors.
pub open spec fn dump_bytes(bits: Seq<u32>, dim: nat, n: nat) -> Seq<u8> {
    le(dim, 4) + le(n, 4) + word_bytes(bits.take((n * dim) as int))
}

/// The bytes of a dump of the first `n` vectors, or of all if there are fewer.
pub fn dump_vectors(bits: &[u32], dim: usize, n: usize) -> (r: Vec<u8>)
    requires
        dim > 0,
    ensures
        r@ == dump_bytes(bits@, dim as nat, dump_count(n as nat, bits@.len() / dim as nat)),
{
    let count: usize = bits.len() / dim;
    let n: usize = if n < count {
        n
    } else {
        count
    };
    proof {
        vstd::arithmetic::div_mod::lemma_fundamental_div_mod(bits@.len() as int, dim as int);
        assert(n * dim <= bits@.len()) by (nonlinear_arith)
            requires
                n <= count,
                0 <= dim,
                bits@.len() == dim * count + bits@.len() % dim as nat,
                0 <= bits@.len() % dim as nat,
        ;
        assert(0 <= n * dim) by (nonlinear_arith)
            requires
                0 <= n,
                0 <= dim,
        ;
    }
    let mut out: Vec<u8> = Vec::new();
    push_le(&mut out, dim as u64, 4);
    push_le(&mut out, n as u64, 4);
    let mut words = words_to_bytes(slice_subrange(bits, 0, n * dim));
    out.append(&mut words);
    proof {
        assert(bits@.subrange(0, (n * dim) as int) == bits@.take((n * dim) as int));
        assert(out@ =~= dump_bytes(bits@, dim as nat, n as nat));
    }
    out
}

/// The vectors of a dump; `None` where it is shorter than it says.
pub open spec fn dumped(b: Seq<u8>) -> Option<Seq<u32>> {
    if b.len() < 8 || b.len() < 8 + 4 * (field(b, 4, 4) * field(b, 0, 4)) {
        None
    } else {
        Some(
            Seq::new(
                field(b, 4, 4) * field(b, 0, 4),
                |i: int| field(b, 8 + 4 * i, 4) as u32,
            ),
        )
    }
}

/// Reads the vectors of a dump.
pub fn load_vectors(bytes: &[u8]) -> (r: Option<Vec<u32>>)
    ensures
        match r {
            Some(v) => dumped(bytes@) == Some(v@),
            None => dumped(bytes@) is None,
        },
{
    if bytes.len() < 8 {
        return None;
    }
    proof {
        lemma_le_bounds();
    }
    let dim: u64 = read_le(bytes, 0, 4);
    let n: u64 = read_le(bytes, 4, 4);
    assert(0 <= n * dim <= 0xffff_ffff * 0xffff_ffff) by (nonlinear_arith)
        requires
            0 <= n <= 0xffff_ffff,
            0 <= dim <= 0xffff_ffff,
    ;
    let count: u64 = n * dim;
    if (bytes.len() as u128) < 8 + 4 * count as u128 {
        return None;
    }
    let count: usize = count as usize;
    let body = slice_subrange(bytes, 8, 8 + 4 * count);
    let words = bytes_to_words(body);
    proof {
        assert forall|i: int| 0 <= i < words@.len() implies #[trigger] words@[i] == field(
            bytes@,
            8 + 4 * i,
            4,
        ) as u32 by {
            assert(body@.subrange(4 * i, 4 * i + 4) == bytes@.subrange(
                8 + 4 * i,
                8 + 4 * i + 4,
            ));
        }
        assert(dumped(bytes@)->0 =~= words@);
    }
    Some(words)
}

/// A dump reads as the vectors that were dumped.
pub proof fn law_dump_reads_back(bits: Seq<u32>, dim: nat, n: nat)
    requires
        dim <= u32::MAX,
        n <= u32::MAX,
        n * dim <= bits.len(),
    ensures
        dumped(dump_bytes(bits, dim, n)) == Some(bits.take((n * dim) as int)),
{
    let b = dump_bytes(bits, dim, n);
    let part = bits.take((n * dim) as int);
    lemma_le_len(dim, 4);
    lemma_le_len(n, 4);
    lemma_le_bounds();
    law_le_reads_back(dim, 4);
    law_le_reads_back(n, 4);
    lemma_word_bytes(part);
    assert(b.subrange(0, 4) == le(dim, 4));
    assert(b.subrange(4, 8) == le(n, 4));
    let got = dumped(b)->0;
    assert forall|i: int| 0 <= i < n * dim implies #[trigger] got[i] == part[i] by {
        assert(b.subrange(8 + 4 * i, 8 + 4 * i + 4) == word_bytes(part).subrange(4 * i, 4 * i + 4));
        law_le_reads_back(part[i] as nat, 4);
    }
    assert(got =~= part);
}

/// How many vectors two dumps of one dimension are compared by.
pub fn compared_rows(reference_len: usize, dim: usize, n: usize) -> (r: usize)
    requires
        dim > 0,
    ensures
        r == dump_count(n as nat, reference_len as nat / dim as nat),
{
    let m: usize = reference_len / dim;
    if n < m {
        n
    } else {
        m
    }
}

/// Where everything stands in a corpus: the eight letters `VGGCORP1`, the number of
/// texts in eight bytes, least significant first, and one record behind the other;
/// a record is the text's length in four bytes and its UTF-8 bytes.
pub proof fn law_corpus_layout(a: Seq<Seq<char>>, b: Seq<Seq<char>>, text: Seq<char>)
    requires
        a.len() <= u64::MAX,
        encode_utf8(text).len() <= u32::MAX,
    ensures
        corpus_bytes(a).take(8) == encode_utf8("VGGCORP1"@),
        le_value(corpus_bytes(a).subrange(8, 16)) == a.len(),
        corpus_bytes(a).skip(16) == text_records(a),
        text_records(a + b) == text_records(a) + text_records(b),
        text_records(seq![text]).len() == 4 + encode_utf8(text).len(),
        le_value(text_records(seq![text]).take(4)) == encode_utf8(text).len(),
        text_records(seq![text]).skip(4) == encode_utf8(text),
    decreases b.len(),
{
    lemma_le_len(a.len(), 8);
    lemma_le_bounds();
    law_le_reads_back(a.len(), 8);
    let c = corpus_bytes(a);
    reveal_strlit("VGGCORP1");
    is_ascii_chars_encode_utf8("VGGCORP1"@);
    assert(c.take(8) =~= corpus_magic());
    assert(encode_utf8("VGGCORP1"@) =~= corpus_magic());
    assert(c.subrange(8, 16) =~= le(a.len(), 8));
    assert(c.skip(16) =~= text_records(a));
    let n = encode_utf8(text).len();
    lemma_le_len(n, 4);
    law_le_reads_back(n, 4);
    let none = Seq::<Seq<char>>::empty();
    assert(seq![text].drop_last() == none);
    assert(text_records(none) == Seq::<u8>::empty());
    let r = text_records(seq![text]);
    assert(r =~= text_record(text));
    assert(r.take(4) =~= le(n, 4));
    assert(r.skip(4) =~= encode_utf8(text));
    if b.len() == 0 {
        assert(a + b == a);
    } else {
        law_corpus_layout(a, b.drop_last(), text);
        assert((a + b).drop_last() == a + b.drop_last());
        assert((a + b).last() == b.last());
    }
}

/// Bytes are refused as a corpus if they do not start with its letters, or end
/// before the texts that they announce.
pub proof fn law_corpus_errors(b: Seq<u8>)
    ensures
        b.len() < 16 ==> corpus_texts(b) is Err,
        b.len() >= 8 && b.take(8) != encode_utf8("VGGCORP1"@) ==> corpus_texts(b) == Err::<
            Seq<Seq<char>>,
            CorpusError,
        >(CorpusError::Magic),
        corpus_texts(b) is Ok ==> corpus_texts(b)->Ok_0.len() == le_value(b.subrange(8, 16)),
{
    reveal_strlit("VGGCORP1");
    is_ascii_chars_encode_utf8("VGGCORP1"@);
    assert(encode_utf8("VGGCORP1"@) =~= corpus_magic());
    if b.len() >= 16 {
        lemma_records_count(b.skip(16), field(b, 8, 8));
    }
}

/// As many texts come out as were asked for.
proof fn lemma_records_count(b: Seq<u8>, n: nat)
    ensures
        read_records(b, n) is Ok ==> read_records(b, n)->Ok_0.len() == n,
    decreases n,
{
    if n > 0 && b.len() >= 4 && b.len() >= 4 + field(b, 0, 4) {
        lemma_records_count(b.skip(4 + field(b, 0, 4) as int), (n - 1) as nat);
    }
}

/// A corpus plan names every blob of the tracked files once, in ascending order, with
/// the path of the first file that holds it, and nothing else.
pub proof fn law_corpus_plan_is_complete(
    plan: Seq<(Seq<char>, Seq<char>)>,
    held: Seq<TrackedBlobView>,
    i: int,
    j: int,
) -> (r: (int, int))
    requires
        is_corpus_plan(plan, held),
        0 <= i < held.len(),
        0 <= j < plan.len(),
    ensures
        0 <= r.0 < plan.len(),
        plan[r.0].0 == held[i].sha,
        forall|m: int| 0 <= m < plan.len() && m != j ==> (#[trigger] plan[m]).0 != plan[j].0,
        forall|m: int| 0 <= m < j ==> precedes((#[trigger] plan[m]).0, plan[j].0),
        0 <= r.1 < held.len(),
        held[r.1].sha == plan[j].0,
        held[r.1].path == plan[j].1,
        forall|m: int| 0 <= m < r.1 ==> (#[trigger] held[m]).sha != plan[j].0,
{
    let shas = plan.map_values(|p: (Seq<char>, Seq<char>)| p.0);
    let all = held_shas(held);
    assert(all[i] == held[i].sha);
    assert(all.contains(held[i].sha));
    assert(shas.contains(held[i].sha));
    let r0 = choose|m: int| 0 <= m < shas.len() && shas[m] == held[i].sha;
    assert(shas[r0] == plan[r0].0);
    assert forall|m: int| 0 <= m < plan.len() && m != j implies (#[trigger] plan[m]).0
        != plan[j].0 by {
        assert(shas[m] == plan[m].0 && shas[j] == plan[j].0);
        lemma_ascending_index(shas, m);
        lemma_ascending_index(shas, j);
    }
    assert forall|m: int| 0 <= m < j implies precedes((#[trigger] plan[m]).0, plan[j].0) by {
        assert(shas[m] == plan[m].0 && shas[j] == plan[j].0);
    }
    let r1 = lemma_first_path_is_first(held, plan[j].0, false);
    (r0, r1)
}

/// A dump holds the dimension and the number of vectors in four bytes each, least
/// significant first, and behind them four bytes for each component.
pub proof fn law_dump_layout(bits: Seq<u32>, dim: nat, n: nat, i: int)
    requires
        dim <= u32::MAX,
        n <= u32::MAX,
        n * dim <= bits.len(),
        0 <= i < n * dim,
    ensures
        dump_bytes(bits, dim, n).len() == 8 + 4 * (n * dim),
        le_value(dump_bytes(bits, dim, n).take(4)) == dim,
        le_value(dump_bytes(bits, dim, n).subrange(4, 8)) == n,
        le_value(dump_bytes(bits, dim, n).subrange(8 + 4 * i, 12 + 4 * i)) == bits[i],
{
    let part = bits.take((n * dim) as int);
    lemma_word_bytes(part);
    lemma_le_len(dim, 4);
    lemma_le_len(n, 4);
    lemma_le_bounds();
    law_le_reads_back(dim, 4);
    law_le_reads_back(n, 4);
    law_le_reads_back(bits[i] as nat, 4);
    let b = dump_bytes(bits, dim, n);
    assert(b.take(4) =~= le(dim, 4));
    assert(b.subrange(4, 8) =~= le(n, 4));
    assert(part[i] == bits[i]);
    assert(b.subrange(8 + 4 * i, 12 + 4 * i) =~= word_bytes(part).subrange(4 * i, 4 * i + 4));
}

/// As many vectors are dumped as are asked for, or as there are.
pub proof fn law_dump_count(asked: nat, count: nat)
    ensures
        dump_count(asked, count) <= asked,
        dump_count(asked, count) <= count,
        dump_count(asked, count) == asked || dump_count(asked, count) == count,
{
}

/// What stands behind the texts of a corpus does not matter, but that they are all
/// there does: a corpus that breaks off inside its last text is refused, and so is
/// one with a text that is not UTF-8.
pub proof fn law_corpus_ends(texts: Seq<Seq<char>>, text: Seq<char>, tail: Seq<u8>)
    requires
        texts.len() < u64::MAX,
        forall|i: int|
            0 <= i < texts.len() ==> encode_utf8(#[trigger] texts[i]).len() <= u32::MAX,
        encode_utf8(text).len() <= u32::MAX,
    ensures
        corpus_texts(corpus_bytes(texts) + tail) == Ok::<Seq<Seq<char>>, CorpusError>(texts),
        tail.len() < text_records(seq![text]).len() && tail.is_prefix_of(text_records(seq![text]))
            ==> corpus_texts(
            encode_utf8("VGGCORP1"@) + le(texts.len() + 1, 8) + text_records(texts) + tail,
        ) == Err::<Seq<Seq<char>>, CorpusError>(CorpusError::Eof),
        tail.len() <= u32::MAX && !valid_utf8(tail) ==> corpus_texts(
            encode_utf8("VGGCORP1"@) + le(texts.len() + 1, 8) + text_records(texts) + le(
                tail.len(),
                4,
            ) + tail,
        ) == Err::<Seq<Seq<char>>, CorpusError>(CorpusError::Utf8),
{
    let n = texts.len();
    let magic = encode_utf8("VGGCORP1"@);
    reveal_strlit("VGGCORP1");
    is_ascii_chars_encode_utf8("VGGCORP1"@);
    assert(magic =~= corpus_magic());
    lemma_le_len(n, 8);
    lemma_le_len(n + 1, 8);
    lemma_le_bounds();
    law_le_reads_back(n, 8);
    law_le_reads_back(n + 1, 8);
    let whole = corpus_bytes(texts) + tail;
    assert(whole.take(8) =~= corpus_magic());
    assert(whole.subrange(8, 16) =~= le(n, 8));
    assert(whole.skip(16) =~= text_records(texts) + tail);
    lemma_records_then(texts, tail, n);
    let some = read_records(tail, 0);
    assert(some == Ok::<Seq<Seq<char>>, CorpusError>(Seq::empty()));
    assert(texts + Seq::<Seq<char>>::empty() == texts);
    let short = magic + le(n + 1, 8) + text_records(texts) + tail;
    assert(short.take(8) =~= corpus_magic());
    assert(short.subrange(8, 16) =~= le(n + 1, 8));
    assert(short.skip(16) =~= text_records(texts) + tail);
    lemma_records_then(texts, tail, n + 1);
    let one = text_records(seq![text]);
    law_corpus_layout(texts, texts, text);
    if tail.len() < one.len() && tail.is_prefix_of(one) {
        if tail.len() >= 4 {
            assert(tail.subrange(0, 4) =~= one.take(4));
        }
        assert(read_records(tail, 1) == Err::<Seq<Seq<char>>, CorpusError>(CorpusError::Eof));
    }
    if tail.len() <= u32::MAX && !valid_utf8(tail) {
        let rec = le(tail.len(), 4) + tail;
        lemma_le_len(tail.len(), 4);
        law_le_reads_back(tail.len(), 4);
        let bad = magic + le(n + 1, 8) + text_records(texts) + le(tail.len(), 4) + tail;
        assert(bad.take(8) =~= corpus_magic());
        assert(bad.subrange(8, 16) =~= le(n + 1, 8));
        assert(bad.skip(16) =~= text_records(texts) + rec);
        lemma_records_then(texts, rec, n + 1);
        assert(rec.subrange(0, 4) =~= le(tail.len(), 4));
        assert(rec.subrange(4, 4 + tail.len() as int) =~= tail);
        assert(read_records(rec, 1) == Err::<Seq<Seq<char>>, CorpusError>(CorpusError::Utf8));
    }
}

/// Reading the records of texts goes on behind them.
proof fn lemma_records_then(texts: Seq<Seq<char>>, tail: Seq<u8>, n: nat)
    requires
        forall|i: int|
            0 <= i < texts.len() ==> encode_utf8(#[trigger] texts[i]).len() <= u32::MAX,
        n >= texts.len(),
    ensures
        read_records(text_records(texts) + tail, n) == (match read_records(
            tail,
            (n - texts.len()) as nat,
        ) {
            Ok(rest) => Ok::<Seq<Seq<char>>, CorpusError>(texts + rest),
            Err(e) => Err::<Seq<Seq<char>>, CorpusError>(e),
        }),
    decreases texts.len(),
{
    let b = text_records(texts) + tail;
    if texts.len() == 0 {
        assert(b =~= tail);
        match read_records(tail, n) {
            Ok(rest) => {
                assert(texts + rest =~= rest);
            },
            Err(e) => {},
        }
    } else {
        let rest = texts.drop_first();
        assert forall|i: int| 0 <= i < rest.len() implies encode_utf8(#[trigger] rest[i]).len()
            <= u32::MAX by {
            assert(rest[i] == texts[i + 1]);
        }
        lemma_records_then(rest, tail, (n - 1) as nat);
        lemma_records_first(texts);
        let t = encode_utf8(texts[0]);
        let len = t.len();
        assert(len <= u32::MAX);
        lemma_le_len(len, 4);
        lemma_le_bounds();
        law_le_reads_back(len, 4);
        assert(b.subrange(0, 4) =~= le(len, 4));
        assert(b.subrange(4, 4 + len as int) =~= t);
        assert(b.skip(4 + len as int) =~= text_records(rest) + tail);
        encode_utf8_valid_utf8(texts[0]);
        encode_utf8_decode_utf8(texts[0]);
        match read_records(tail, (n - texts.len()) as nat) {
            Ok(more) => {
                assert(seq![texts[0]] + (rest + more) =~= texts + more);
            },
            Err(e) => {},
        }
    }
}

/// A dump that is shorter than its dimension and its number of vectors call for
/// gives nothing; what stands behind the vectors does not matter.
pub proof fn law_dump_ends(b: Seq<u8>, more: Seq<u8>)
    ensures
        b.len() < 8 ==> dumped(b) is None,
        b.len() >= 8 ==> (dumped(b) is None <==> b.len() < 8 + 4 * (le_value(b.subrange(4, 8))
            * le_value(b.take(4)))),
        dumped(b) is Some ==> dumped(b + more) == dumped(b),
{
    if b.len() >= 8 {
        assert(b.take(4) =~= b.subrange(0, 4));
        let c = b + more;
        assert(c.subrange(0, 4) =~= b.subrange(0, 4));
        assert(c.subrange(4, 8) =~= b.subrange(4, 8));
        if dumped(b) is Some {
            let x = dumped(b)->0;
            let y = dumped(c)->0;
            assert forall|i: int| 0 <= i < x.len() implies #[trigger] x[i] == y[i] by {
                assert(c.subrange(8 + 4 * i, 8 + 4 * i + 4) =~= b.subrange(
                    8 + 4 * i,
                    8 + 4 * i + 4,
                ));
            }
            assert(x =~= y);
        }
    }
}

} // verus!
