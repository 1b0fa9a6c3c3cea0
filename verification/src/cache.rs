//! The rows of the SQLite embedding cache, keyed by git blob SHA.
//!
//! The cache stores a few meta rows that record the model, the dimension and the
//! version of the schema, and is wiped when they do not match.

use vstd::prelude::*;
use vstd::slice::*;
use vstd::string::*;

use crate::number::{decimal, decimal_string, law_decimal_parses, law_le_reads_back, le_value, lemma_le_bounds};
use crate::payload::{lemma_word_bytes, word_bytes, words_to_bytes};
use crate::rows::lemma_row_fits;
use crate::sorted::{same, StrMap};
use crate::store::pair_views;

verus! {

pub const SCHEMA_VERSION: i64 = 1;

/// What the cache knows of a file.
#[derive(Debug, Clone)]
pub struct FileRow {
    pub blob_sha: String,
    pub mtime_ns: i64,
    pub size: i64,
    pub n_chunks: i64,
}

/// What is to be done with the meta rows of a cache that was opened.
#[derive(Debug, Clone, Copy, PartialEq, Eq, Structural)]
pub enum MetaAction {
    /// The cache is new: write them.
    Insert,
    /// They match.
    Keep,
    /// They do not match: delete everything and write them anew.
    Wipe,
}

/// The meta rows that a cache for a model has.
pub open spec fn wanted_meta(model_id: Seq<char>, dim: nat) -> Seq<(Seq<char>, Seq<char>)> {
    seq![("model_id"@, model_id), ("dim"@, decimal(dim)), ("schema"@, decimal(1))]
}

/// A meta row is there.
pub open spec fn has_row(rows: Map<Seq<char>, String>, row: (Seq<char>, Seq<char>)) -> bool {
    rows.contains_key(row.0) && rows[row.0]@ == row.1
}

/// What is to be done with a cache that has these meta rows.
pub open spec fn meta_action(
    rows: Map<Seq<char>, String>,
    empty: bool,
    model_id: Seq<char>,
    dim: nat,
) -> MetaAction {
    if empty {
        MetaAction::Insert
    } else if forall|i: int|
        0 <= i < 3 ==> has_row(rows, #[trigger] wanted_meta(model_id, dim)[i]) {
        MetaAction::Keep
    } else {
        MetaAction::Wipe
    }
}

/// The meta rows that a cache for a model has.
pub fn meta_rows(model_id: &str, dim: usize) -> (r: Vec<(String, String)>)
    ensures
        pair_views(r@) == wanted_meta(model_id@, dim as nat),
{
    let mut out: Vec<(String, String)> = Vec::new();
    out.push(("model_id".to_owned(), model_id.to_owned()));
    out.push(("dim".to_owned(), decimal_string(dim as u128)));
    out.push(("schema".to_owned(), decimal_string(SCHEMA_VERSION as u128)));
    assert(pair_views(out@) =~= wanted_meta(model_id@, dim as nat));
    out
}

/// Decides what is to be done with the meta rows of a cache.
pub fn check_meta(rows: &StrMap<String>, model_id: &str, dim: usize) -> (r: MetaAction)
    ensures
        r == meta_action(rows@, rows.keys().len() == 0, model_id@, dim as nat),
{
    if rows.len() == 0 {
        return MetaAction::Insert;
    }
    let want = meta_rows(model_id, dim);
    let ghost all = wanted_meta(model_id@, dim as nat);
    assert(pair_views(want@).len() == want@.len());
    let mut i: usize = 0;
    while i < want.len()
        invariant
            i <= want@.len(),
            want@.len() == 3,
            pair_views(want@) == all,
            all == wanted_meta(model_id@, dim as nat),
            rows.keys().len() > 0,
            forall|k: int| 0 <= k < i ==> has_row(rows@, #[trigger] all[k]),
        decreases want@.len() - i,
    {
        assert(all[i as int] == (want@[i as int].0@, want@[i as int].1@));
        let there: bool = match rows.get(want[i].0.as_str()) {
            Some(v) => same(v.as_str(), want[i].1.as_str()),
            None => false,
        };
        if !there {
            assert(!has_row(rows@, all[i as int]));
            return MetaAction::Wipe;
        }
        i = i + 1;
    }
    MetaAction::Keep
}

/// The row of one chunk.
pub struct ChunkRow {
    pub idx: i64,
    pub start_line: i64,
    pub end_line: i64,
    /// The vector, in little-endian float32.
    pub vec: Vec<u8>,
}

/// The row of chunk `i` of a blob.
pub open spec fn is_chunk_row(
    row: ChunkRow,
    ranges: Seq<(u32, u32)>,
    bits: Seq<u32>,
    dim: nat,
    i: int,
) -> bool {
    &&& row.idx == i
    &&& row.start_line == ranges[i].0
    &&& row.end_line == ranges[i].1
    &&& row.vec@ == word_bytes(bits.subrange(i * dim, i * dim + dim))
}

/// The rows of the chunks of a blob.
pub fn chunk_rows(ranges: &[(u32, u32)], bits: &[u32], dim: usize) -> (r: Vec<ChunkRow>)
    requires
        bits@.len() == ranges@.len() * dim,
        ranges@.len() <= i64::MAX,
    ensures
        r@.len() == ranges@.len(),
        forall|i: int|
            0 <= i < r@.len() ==> is_chunk_row(
                #[trigger] r@[i],
                ranges@,
                bits@,
                dim as nat,
                i,
            ),
{
    let mut out: Vec<ChunkRow> = Vec::new();
    let mut i: usize = 0;
    assert(bits.len() == bits@.len());
    while i < ranges.len()
        invariant
            i <= ranges@.len(),
            ranges@.len() <= i64::MAX,
            bits@.len() == ranges@.len() * dim,
            bits@.len() <= usize::MAX,
            out@.len() == i,
            forall|k: int|
                0 <= k < i ==> is_chunk_row(
                    #[trigger] out@[k],
                    ranges@,
                    bits@,
                    dim as nat,
                    k,
                ),
        decreases ranges@.len() - i,
    {
        proof {
            lemma_row_fits(i as int, ranges@.len() as int, dim as int);
        }
        let from: usize = i * dim;
        let part = slice_subrange(bits, from, from + dim);
        out.push(
            ChunkRow {
                idx: i as i64,
                start_line: ranges[i].0 as i64,
                end_line: ranges[i].1 as i64,
                vec: words_to_bytes(part),
            },
        );
        i = i + 1;
    }
    out
}

/// A cache is kept by the model and the dimension that it was made for, and wiped
/// by any other; a new one gets its rows.
pub proof fn law_cache_is_for_one_model(
    rows: Map<Seq<char>, String>,
    model: Seq<char>,
    dim: nat,
    other: Seq<char>,
    other_dim: nat,
)
    requires
        forall|i: int| 0 <= i < 3 ==> has_row(rows, #[trigger] wanted_meta(model, dim)[i]),
    ensures
        meta_action(rows, false, model, dim) == MetaAction::Keep,
        other != model || other_dim != dim ==> meta_action(rows, false, other, other_dim)
            == MetaAction::Wipe,
        meta_action(rows, true, other, other_dim) == MetaAction::Insert,
{
    let w = wanted_meta(model, dim);
    let o = wanted_meta(other, other_dim);
    law_decimal_parses(dim);
    law_decimal_parses(other_dim);
    assert(has_row(rows, w[0]));
    assert(has_row(rows, w[1]));
    if other != model {
        assert(!has_row(rows, o[0]));
    }
    if other_dim != dim {
        assert(!has_row(rows, o[1]));
    }
}

/// The rows that say what a cache is for are named after the model, the dimension
/// and the schema, which is 1.
pub proof fn law_meta_rows(model: Seq<char>, dim: nat)
    ensures
        wanted_meta(model, dim).len() == 3,
        wanted_meta(model, dim).contains(("model_id"@, model)),
        wanted_meta(model, dim).contains(("dim"@, decimal(dim))),
        wanted_meta(model, dim).contains(("schema"@, seq!['1'])),
{
    let w = wanted_meta(model, dim);
    assert(w[0] == ("model_id"@, model));
    assert(w[1] == ("dim"@, decimal(dim)));
    assert(decimal(1) =~= seq!['1']);
    assert(w[2] == ("schema"@, seq!['1']));
}

/// The row of a chunk gives back the chunk's number, its lines, and every component
/// of its vector.
pub proof fn law_chunk_row_reads_back(
    row: ChunkRow,
    ranges: Seq<(u32, u32)>,
    bits: Seq<u32>,
    dim: nat,
    i: int,
    c: int,
)
    requires
        is_chunk_row(row, ranges, bits, dim, i),
        0 <= i < ranges.len(),
        bits.len() == ranges.len() * dim,
        0 <= c < dim,
    ensures
        row.idx == i,
        row.start_line == ranges[i].0,
        row.end_line == ranges[i].1,
        row.vec@.len() == 4 * dim,
        le_value(row.vec@.subrange(4 * c, 4 * c + 4)) == bits[i * dim + c],
{
    lemma_row_fits(i, ranges.len() as int, dim as int);
    let part = bits.subrange(i * dim, i * dim + dim);
    lemma_word_bytes(part);
    lemma_le_bounds();
    assert(part[c] == bits[i * dim + c]);
    law_le_reads_back(part[c] as nat, 4);
}

/// A cache is kept only if it has all three rows with the values that are wanted: its
/// model, its dimension and its schema.
pub proof fn law_kept_cache_matches(rows: Map<Seq<char>, String>, model: Seq<char>, dim: nat)
    requires
        meta_action(rows, false, model, dim) == MetaAction::Keep,
    ensures
        rows.contains_key("model_id"@) && rows["model_id"@]@ == model,
        rows.contains_key("dim"@) && rows["dim"@]@ == decimal(dim),
        rows.contains_key("schema"@) && rows["schema"@]@ == seq!['1'],
{
    let w = wanted_meta(model, dim);
    assert(has_row(rows, w[0]));
    assert(has_row(rows, w[1]));
    assert(has_row(rows, w[2]));
    assert(decimal(1) =~= seq!['1']);
}

} // verus!
