//! In-memory cosine search.
//!
//! No path -> blob_sha mapping is stored; it comes from `git ls-files -s` on
//! every search. One winning chunk corresponds to one blob_sha; there is one hit
//! per path currently pointing at that blob.
//!
//! A score is carried as the 32 bits of its IEEE 754 encoding.

use vstd::arithmetic::power2::*;
use vstd::prelude::*;
use vstd::seq_lib::*;
use vstd::string::*;

use crate::order::{key_values, lemma_stable_order, no_later, position_values, sort_positions, stable_order};
use crate::payload::{unpack_payload, unpacked, PayloadView};
use crate::sorted::{StrMap, StrSet};
use crate::store::{matching_payloads, objects, pair_views, payload_views, Store, StoreError};
use crate::text::{starts_with, views};

verus! {

/// A place that matches a query.
#[derive(Debug, Clone)]
pub struct Hit {
    pub path: String,
    pub start_line: u32,
    pub end_line: u32,
    /// The bits of the score.
    pub score: u32,
    pub blob_sha: String,
    pub chunk_idx: u32,
}

/// The model of a hit.
pub struct HitView {
    pub path: Seq<char>,
    pub start_line: u32,
    pub end_line: u32,
    pub score: u32,
    pub blob_sha: Seq<char>,
    pub chunk_idx: u32,
}

impl View for Hit {
    type V = HitView;

    open spec fn view(&self) -> HitView {
        HitView {
            path: self.path@,
            start_line: self.start_line,
            end_line: self.end_line,
            score: self.score,
            blob_sha: self.blob_sha@,
            chunk_idx: self.chunk_idx,
        }
    }
}

/// The views of a sequence of hits.
pub open spec fn hit_views(v: Seq<Hit>) -> Seq<HitView> {
    v.map_values(|h: Hit| h@)
}

/// Which chunk a row of the matrix belongs to.
pub struct RowMeta {
    pub blob_sha: String,
    pub chunk_idx: u32,
    pub start_line: u32,
    pub end_line: u32,
}

/// The model of a row's chunk.
pub struct RowMetaView {
    pub blob_sha: Seq<char>,
    pub chunk_idx: u32,
    pub start_line: u32,
    pub end_line: u32,
}

impl View for RowMeta {
    type V = RowMetaView;

    open spec fn view(&self) -> RowMetaView {
        RowMetaView {
            blob_sha: self.blob_sha@,
            chunk_idx: self.chunk_idx,
            start_line: self.start_line,
            end_line: self.end_line,
        }
    }
}

/// The views of a sequence of rows.
pub open spec fn meta_views(v: Seq<RowMeta>) -> Seq<RowMetaView> {
    v.map_values(|m: RowMeta| m@)
}

/// The vectors of the current work tree.
pub struct Index {
    pub dim: usize,
    /// The bits of the rows, one after the other.
    pub matrix: Vec<u32>,
    pub meta: Vec<RowMeta>,
    /// blob_sha -> all currently-tracked paths backed by that blob.
    pub blob_to_paths: StrMap<Vec<String>>,
}

/// The paths that hold a blob, in order.
pub open spec fn paths_of(files: Seq<(Seq<char>, Seq<char>)>, sha: Seq<char>) -> Seq<Seq<char>>
    decreases files.len(),
{
    if files.len() == 0 {
        Seq::empty()
    } else {
        let before = paths_of(files.drop_last(), sha);
        if files.last().1 == sha {
            before.push(files.last().0)
        } else {
            before
        }
    }
}

/// A map holds the paths of every blob that has any.
pub open spec fn maps_paths(
    m: Map<Seq<char>, Vec<String>>,
    files: Seq<(Seq<char>, Seq<char>)>,
) -> bool {
    forall|sha: Seq<char>|
        #![trigger m.contains_key(sha)]
        {
            &&& m.contains_key(sha) <==> paths_of(files, sha).len() > 0
            &&& m.contains_key(sha) ==> views(m[sha]@) == paths_of(files, sha)
        }
}

/// The rows of one payload.
pub open spec fn payload_meta(sha: Seq<char>, p: PayloadView) -> Seq<RowMetaView> {
    Seq::new(
        p.ranges.len(),
        |i: int|
            RowMetaView {
                blob_sha: sha,
                chunk_idx: i as u32,
                start_line: p.ranges[i].0,
                end_line: p.ranges[i].1,
            },
    )
}

/// A payload is loaded: its blob is in the work tree, and it can be read.
pub open spec fn is_loaded(
    payload: (Seq<char>, Seq<u8>),
    files: Seq<(Seq<char>, Seq<char>)>,
) -> bool {
    paths_of(files, payload.0).len() > 0 && unpacked(payload.1) is Ok
}

/// A payload is corrupt: its blob is in the work tree, and it cannot be read.
pub open spec fn is_corrupt(
    payload: (Seq<char>, Seq<u8>),
    files: Seq<(Seq<char>, Seq<char>)>,
) -> bool {
    paths_of(files, payload.0).len() > 0 && unpacked(payload.1) is Err
}

/// The chunks of the loaded payloads, in order.
pub open spec fn loaded_meta(
    payloads: Seq<(Seq<char>, Seq<u8>)>,
    files: Seq<(Seq<char>, Seq<char>)>,
) -> Seq<RowMetaView>
    decreases payloads.len(),
{
    if payloads.len() == 0 {
        Seq::empty()
    } else {
        let before = loaded_meta(payloads.drop_last(), files);
        let p = payloads.last();
        if is_loaded(p, files) {
            before + payload_meta(p.0, unpacked(p.1)->Ok_0)
        } else {
            before
        }
    }
}

/// The vectors of the loaded payloads, in order.
pub open spec fn loaded_bits(
    payloads: Seq<(Seq<char>, Seq<u8>)>,
    files: Seq<(Seq<char>, Seq<char>)>,
) -> Seq<u32>
    decreases payloads.len(),
{
    if payloads.len() == 0 {
        Seq::empty()
    } else {
        let before = loaded_bits(payloads.drop_last(), files);
        let p = payloads.last();
        if is_loaded(p, files) {
            before + unpacked(p.1)->Ok_0.bits
        } else {
            before
        }
    }
}

/// The blobs of the corrupt payloads, in order.
pub open spec fn corrupt_shas(
    payloads: Seq<(Seq<char>, Seq<u8>)>,
    files: Seq<(Seq<char>, Seq<char>)>,
) -> Seq<Seq<char>>
    decreases payloads.len(),
{
    if payloads.len() == 0 {
        Seq::empty()
    } else {
        let before = corrupt_shas(payloads.drop_last(), files);
        let p = payloads.last();
        if is_corrupt(p, files) {
            before.push(p.0)
        } else {
            before
        }
    }
}

/// An index, and the blobs whose notes are to be removed and embedded anew.
pub struct Loaded {
    pub index: Index,
    pub corrupt: Vec<String>,
}

/// Appends words.
fn extend(out: &mut Vec<u32>, more: &Vec<u32>)
    ensures
        final(out)@ == old(out)@ + more@,
{
    let mut copy = vstd::slice::slice_to_vec(more.as_slice());
    out.append(&mut copy);
}

/// The paths of every blob in the work tree.
fn group_paths(files: &Vec<(String, String)>) -> (r: StrMap<Vec<String>>)
    ensures
        maps_paths(r@, pair_views(files@)),
{
    let ghost all = pair_views(files@);
    let mut out: StrMap<Vec<String>> = StrMap::new();
    let mut i: usize = 0;
    while i < files.len()
        invariant
            i <= files@.len(),
            all == pair_views(files@),
            maps_paths(out@, all.take(i as int)),
        decreases files@.len() - i,
    {
        let ghost before = out@;
        let ghost part = all.take(i as int);
        let ghost next = all.take(i + 1);
        let sha = &files[i].1;
        proof {
            assert(next.drop_last() == part);
            assert(next.last() == (files@[i as int].0@, sha@));
            assert(before.contains_key(sha@) || !before.contains_key(sha@));
        }
        let mut list: Vec<String> = match out.get(sha.as_str()) {
            Some(v) => v.clone(),
            None => Vec::new(),
        };
        proof {
            assert(views(list@) =~= paths_of(part, sha@));
        }
        let ghost was = views(list@);
        list.push(files[i].0.clone());
        assert(views(list@) == was.push(files@[i as int].0@));
        out.insert(sha.clone(), list);
        proof {
            assert forall|x: Seq<char>|
                #![trigger out@.contains_key(x)]
                {
                    &&& out@.contains_key(x) <==> paths_of(next, x).len() > 0
                    &&& out@.contains_key(x) ==> views(out@[x]@) == paths_of(next, x)
                } by {
                assert(before.contains_key(x) || !before.contains_key(x));
            }
        }
        i = i + 1;
    }
    assert(all.take(all.len() as int) == all);
    out
}

impl Index {
    /// The index is consistent: a row per chunk.
    pub open spec fn wf(&self) -> bool {
        self.matrix@.len() == self.meta@.len() * self.dim
    }

    /// Loads the vectors of the blobs in the work tree. `shas` are the blobs that
    /// have a note, `output` what `git cat-file --batch` prints for their notes,
    /// and `files` the (path, blob_sha) pairs of the work tree. A payload that
    /// cannot be read is left out and reported.
    pub fn load(
        store: &Store,
        shas: &StrSet,
        output: &[u8],
        files: &Vec<(String, String)>,
    ) -> (r: Result<Loaded, StoreError>)
        ensures
            match objects(output@, shas@.len()) {
                Ok(answers) => {
                    let payloads = matching_payloads(shas@, answers, store@.dim);
                    let here = pair_views(files@);
                    r matches Ok(l) && {
                        &&& l.index.wf()
                        &&& l.index.dim == store.dim
                        &&& meta_views(l.index.meta@) == loaded_meta(payloads, here)
                        &&& l.index.matrix@ == loaded_bits(payloads, here)
                        &&& maps_paths(l.index.blob_to_paths@, here)
                        &&& views(l.corrupt@) == corrupt_shas(payloads, here)
                    }
                },
                Err(e) => r == Err::<Loaded, StoreError>(e),
            },
    {
        let payloads = match store.iter_all_payloads(shas, output) {
            Ok(v) => v,
            Err(e) => {
                return Err(e);
            },
        };
        let ghost all = payload_views(payloads@);
        let ghost here = pair_views(files@);
        let blob_to_paths = group_paths(files);
        let mut matrix: Vec<u32> = Vec::new();
        let mut meta: Vec<RowMeta> = Vec::new();
        let mut corrupt: Vec<String> = Vec::new();
        let mut i: usize = 0;
        proof {
            lemma_matching_dims(shas@, objects(output@, shas@.len())->Ok_0, store@.dim);
            assert(meta_views(meta@) == loaded_meta(all.take(0), here));
            assert(matrix@ == loaded_bits(all.take(0), here));
            assert(views(corrupt@) == corrupt_shas(all.take(0), here));
        }
        while i < payloads.len()
            invariant
                i <= payloads@.len(),
                all == payload_views(payloads@),
                here == pair_views(files@),
                maps_paths(blob_to_paths@, here),
                forall|k: int|
                    0 <= k < all.len() ==> (unpacked((#[trigger] all[k]).1) matches Ok(p) ==> p.dim
                        == store.dim),
                meta_views(meta@) == loaded_meta(all.take(i as int), here),
                matrix@ == loaded_bits(all.take(i as int), here),
                views(corrupt@) == corrupt_shas(all.take(i as int), here),
                matrix@.len() == meta@.len() * store.dim,
            decreases payloads@.len() - i,
        {
            let sha = &payloads[i].0;
            let ghost part = all.take(i as int);
            let ghost next = all.take(i + 1);
            proof {
                assert(next.drop_last() == part);
                assert(all[i as int] == (sha@, payloads@[i as int].1@));
                assert(next.last() == all[i as int]);
                assert(blob_to_paths@.contains_key(sha@) || !blob_to_paths@.contains_key(sha@));
            }
            if blob_to_paths.get(sha.as_str()).is_some() {
                match unpack_payload(payloads[i].1.as_slice()) {
                    Ok(p) => {
                        let ghost was = meta_views(meta@);
                        let ghost rows = payload_meta(sha@, p@);
                        let ghost count = meta@.len();
                        extend(&mut matrix, &p.bits);
                        let mut j: usize = 0;
                        assert(was + rows.take(0) == was);
                        while j < p.ranges.len()
                            invariant
                                j <= p.ranges@.len(),
                                rows == payload_meta(sha@, p@),
                                meta@.len() == count + j,
                                meta_views(meta@) == was + rows.take(j as int),
                            decreases p.ranges@.len() - j,
                        {
                            let ghost sofar = meta_views(meta@);
                            let m = RowMeta {
                                blob_sha: sha.clone(),
                                chunk_idx: j as u32,
                                start_line: p.ranges[j].0,
                                end_line: p.ranges[j].1,
                            };
                            let ghost x = m@;
                            meta.push(m);
                            proof {
                                assert(meta_views(meta@) == sofar.push(x));
                                assert(rows[j as int] == x);
                                assert(rows.take(j + 1) == rows.take(j as int).push(x));
                                assert(meta_views(meta@) == was + rows.take(j + 1));
                            }
                            j = j + 1;
                        }
                        proof {
                            assert(rows.take(rows.len() as int) == rows);
                            let n = p.ranges@.len();
                            assert(p@.dim == store.dim);
                            assert((count + n) * store.dim == count * store.dim + n * store.dim)
                                by (nonlinear_arith);
                        }
                    },
                    Err(_) => {
                        let ghost was = views(corrupt@);
                        corrupt.push(sha.clone());
                        assert(views(corrupt@) == was.push(sha@));
                    },
                }
            }
            i = i + 1;
        }
        assert(all.take(all.len() as int) == all);
        Ok(Loaded { index: Index { dim: store.dim, matrix, meta, blob_to_paths }, corrupt })
    }

    /// How many chunks the index holds.
    pub fn len(&self) -> (r: usize)
        ensures
            r == self.meta@.len(),
    {
        self.meta.len()
    }
}

/// The payloads that match a dimension have it.
pub proof fn lemma_matching_dims(
    shas: Seq<Seq<char>>,
    answers: Seq<Option<Seq<u8>>>,
    dim: nat,
)
    ensures
        forall|k: int|
            0 <= k < matching_payloads(shas, answers, dim).len() ==> (unpacked(
                (#[trigger] matching_payloads(shas, answers, dim)[k]).1,
            ) matches Ok(p) ==> p.dim == dim),
    decreases shas.len(),
{
    if shas.len() > 0 && answers.len() > 0 {
        lemma_matching_dims(shas.drop_last(), answers.drop_last(), dim);
        let before = matching_payloads(shas.drop_last(), answers.drop_last(), dim);
        let all = matching_payloads(shas, answers, dim);
        assert forall|k: int| 0 <= k < all.len() implies (unpacked(
            (#[trigger] all[k]).1,
        ) matches Ok(p) ==> p.dim == dim) by {
            if k < before.len() {
                assert(all[k] == before[k]);
            } else {
                let b = all[k].1;
                if unpacked(b) is Ok {
                    crate::number::law_le_writes_back(b.subrange(6, 8));
                    crate::number::lemma_le_bounds();
                }
            }
        }
    }
}

/// The magnitude of a score: its bits without the sign.
pub open spec fn magnitude(bits: u32) -> int {
    if bits < 0x8000_0000 {
        bits as int
    } else {
        bits - 0x8000_0000
    }
}

/// A score is a finite number.
pub open spec fn is_finite(bits: u32) -> bool {
    magnitude(bits) < 0x7f80_0000
}

/// The bits of minus infinity.
pub const NEG_INFINITY: u32 = 0xff80_0000;

/// A number that grows with the score; the two zeros have the same one, and what
/// is not a number has the lowest.
pub open spec fn score_key(bits: u32) -> int {
    if magnitude(bits) > 0x7f80_0000 {
        -0x8000_0000
    } else if bits < 0x8000_0000 {
        magnitude(bits)
    } else {
        -magnitude(bits)
    }
}

/// A path matches the filter.
pub open spec fn path_matches(path: Seq<char>, prefix: Option<Seq<char>>) -> bool {
    match prefix {
        Some(p) => p.is_prefix_of(path),
        None => true,
    }
}

/// The paths of a blob that match the filter, in order.
pub open spec fn matching_paths(paths: Seq<Seq<char>>, prefix: Option<Seq<char>>) -> Seq<Seq<char>>
    decreases paths.len(),
{
    if paths.len() == 0 {
        Seq::empty()
    } else {
        let before = matching_paths(paths.drop_last(), prefix);
        if path_matches(paths.last(), prefix) {
            before.push(paths.last())
        } else {
            before
        }
    }
}

/// The view of a path filter.
pub open spec fn prefix_view(prefix: Option<&str>) -> Option<Seq<char>> {
    match prefix {
        Some(p) => Some(p@),
        None => None,
    }
}

/// The hits of one chunk: one per path, all at the same score.
pub open spec fn chunk_hits(m: RowMetaView, score: u32, paths: Seq<Seq<char>>) -> Seq<HitView> {
    paths.map_values(
        |path: Seq<char>|
            HitView {
                path,
                start_line: m.start_line,
                end_line: m.end_line,
                score,
                blob_sha: m.blob_sha,
                chunk_idx: m.chunk_idx,
            },
    )
}

/// Fewer paths match than there are.
proof fn lemma_matching_some(paths: Seq<Seq<char>>, prefix: Option<Seq<char>>)
    ensures
        matching_paths(paths, prefix).len() > 0 <==> exists|i: int|
            0 <= i < paths.len() && path_matches(#[trigger] paths[i], prefix),
    decreases paths.len(),
{
    if paths.len() > 0 {
        let init = paths.drop_last();
        lemma_matching_some(init, prefix);
        if exists|i: int| 0 <= i < init.len() && path_matches(#[trigger] init[i], prefix) {
            let i = choose|i: int| 0 <= i < init.len() && path_matches(#[trigger] init[i], prefix);
            assert(path_matches(paths[i], prefix));
        }
        if exists|i: int| 0 <= i < paths.len() && path_matches(#[trigger] paths[i], prefix) {
            let i = choose|i: int|
                0 <= i < paths.len() && path_matches(#[trigger] paths[i], prefix);
            if i < init.len() {
                assert(path_matches(init[i], prefix));
            }
        }
        if path_matches(paths.last(), prefix) {
            assert(path_matches(paths[paths.len() - 1], prefix));
        }
    }
}

/// Whether a path matches the filter.
fn matches_prefix(path: &str, prefix: Option<&str>) -> (r: bool)
    ensures
        r == path_matches(path@, prefix_view(prefix)),
{
    match prefix {
        Some(p) => starts_with(path, p),
        None => true,
    }
}

/// The number that grows with the score.
fn key_of(bits: u32) -> (r: i128)
    ensures
        r == score_key(bits),
{
    let m: i128 = if bits < 0x8000_0000 {
        bits as i128
    } else {
        bits as i128 - 0x8000_0000
    };
    if m > 0x7f80_0000 {
        -0x8000_0000
    } else if bits < 0x8000_0000 {
        m
    } else {
        -m
    }
}

/// Whether a score is a finite number.
fn finite(bits: u32) -> (r: bool)
    ensures
        r == is_finite(bits),
{
    if bits < 0x8000_0000 {
        bits < 0x7f80_0000
    } else {
        bits - 0x8000_0000 < 0x7f80_0000
    }
}

impl Index {
    /// The paths that hold a blob.
    pub open spec fn paths(&self, sha: Seq<char>) -> Seq<Seq<char>> {
        if self.blob_to_paths@.contains_key(sha) {
            views(self.blob_to_paths@[sha]@)
        } else {
            Seq::empty()
        }
    }

    /// A row passes the filter iff at least one path bound to its blob matches.
    pub open spec fn passes(&self, i: int, prefix: Option<Seq<char>>) -> bool {
        matching_paths(self.paths(self.meta@[i].blob_sha@), prefix).len() > 0
    }

    /// The score that a row is ranked by: a row that does not pass the filter
    /// comes behind all others.
    pub open spec fn rank_score(&self, scores: Seq<u32>, i: int, prefix: Option<Seq<char>>) -> u32 {
        if self.passes(i, prefix) {
            scores[i]
        } else {
            NEG_INFINITY
        }
    }

    /// The keys by which rows are sorted: the best score first.
    pub open spec fn rank_keys(&self, scores: Seq<u32>, prefix: Option<Seq<char>>) -> Seq<int> {
        Seq::new(
            self.meta@.len(),
            |i: int| -score_key(self.rank_score(scores, i, prefix)),
        )
    }

    /// The best `k` rows, best first; rows of equal score in the order of the
    /// index.
    pub open spec fn top(&self, scores: Seq<u32>, k: nat, prefix: Option<Seq<char>>) -> Seq<int> {
        let order = stable_order(self.rank_keys(scores, prefix));
        if k < order.len() {
            order.take(k as int)
        } else {
            order
        }
    }

    /// The hits of one row.
    pub open spec fn row_hits(
        &self,
        scores: Seq<u32>,
        i: int,
        prefix: Option<Seq<char>>,
    ) -> Seq<HitView> {
        let score = self.rank_score(scores, i, prefix);
        if is_finite(score) {
            chunk_hits(
                self.meta@[i]@,
                score,
                matching_paths(self.paths(self.meta@[i].blob_sha@), prefix),
            )
        } else {
            Seq::empty()
        }
    }

    /// The hits of some rows, in order.
    pub open spec fn hits_of(
        &self,
        rows: Seq<int>,
        scores: Seq<u32>,
        prefix: Option<Seq<char>>,
    ) -> Seq<HitView>
        decreases rows.len(),
    {
        if rows.len() == 0 {
            Seq::empty()
        } else {
            self.hits_of(rows.drop_last(), scores, prefix) + self.row_hits(
                scores,
                rows.last(),
                prefix,
            )
        }
    }

    /// Whether a row passes the filter.
    pub fn row_passes(&self, i: usize, path_prefix: Option<&str>) -> (r: bool)
        requires
            i < self.meta@.len(),
        ensures
            r == self.passes(i as int, prefix_view(path_prefix)),
    {
        let ghost prefix = prefix_view(path_prefix);
        match self.blob_to_paths.get(self.meta[i].blob_sha.as_str()) {
            Some(paths) => {
                let ghost all = views(paths@);
                proof {
                    lemma_matching_some(all, prefix);
                }
                let mut j: usize = 0;
                while j < paths.len()
                    invariant
                        j <= paths@.len(),
                        all == views(paths@),
                        prefix == prefix_view(path_prefix),
                        forall|m: int| 0 <= m < j ==> !path_matches(#[trigger] all[m], prefix),
                        all == self.paths(self.meta@[i as int].blob_sha@),
                        matching_paths(all, prefix).len() > 0 <==> exists|i: int|
                            0 <= i < all.len() && path_matches(#[trigger] all[i], prefix),
                    decreases paths@.len() - j,
                {
                    assert(all[j as int] == paths@[j as int]@);
                    if matches_prefix(paths[j].as_str(), path_prefix) {
                        return true;
                    }
                    j = j + 1;
                }
                false
            },
            None => false,
        }
    }

    /// Top-k hits. If a winning chunk's blob maps to multiple paths, there is one
    /// hit per path (all at the same score). `k` bounds the number of chunks that
    /// are selected, not the number of hits. `scores` are the bits of the scores
    /// of the rows; that of a row that does not pass the filter plays no part.
    pub fn search(&self, scores: &[u32], k: usize, path_prefix: Option<&str>) -> (r: Vec<Hit>)
        requires
            scores@.len() == self.meta@.len(),
        ensures
            hit_views(r@) == self.hits_of(
                self.top(scores@, k as nat, prefix_view(path_prefix)),
                scores@,
                prefix_view(path_prefix),
            ),
    {
        let ghost prefix = prefix_view(path_prefix);
        let n: usize = self.meta.len();
        let mut ranked: Vec<u32> = Vec::new();
        let mut keys: Vec<i128> = Vec::new();
        let mut i: usize = 0;
        while i < n
            invariant
                i <= n,
                n == self.meta@.len(),
                n == scores@.len(),
                prefix == prefix_view(path_prefix),
                ranked@.len() == i,
                keys@.len() == i,
                forall|m: int|
                    0 <= m < i ==> #[trigger] ranked@[m] == self.rank_score(scores@, m, prefix),
                forall|m: int| 0 <= m < i ==> #[trigger] keys@[m] == -score_key(ranked@[m]),
            decreases n - i,
        {
            let s: u32 = if self.row_passes(i, path_prefix) {
                scores[i]
            } else {
                NEG_INFINITY
            };
            ranked.push(s);
            keys.push(-key_of(s));
            i = i + 1;
        }
        let ghost rank = self.rank_keys(scores@, prefix);
        assert(key_values(keys@) =~= rank);
        let order = sort_positions(&keys);
        proof {
            lemma_stable_order(rank);
            assert(position_values(order@).len() == order@.len());
        }
        let count: usize = if k < n {
            k
        } else {
            n
        };
        let ghost rows = self.top(scores@, k as nat, prefix);
        proof {
            assert(stable_order(rank).take(n as int) == stable_order(rank));
            assert(rows.len() == count);
        }
        let mut out: Vec<Hit> = Vec::new();
        i = 0;
        assert(rows.take(0) == Seq::<int>::empty());
        assert(hit_views(out@) == Seq::<HitView>::empty());
        while i < count
            invariant
                i <= count,
                count <= n,
                n == self.meta@.len(),
                n == scores@.len(),
                n == order@.len(),
                n == ranked@.len(),
                prefix == prefix_view(path_prefix),
                rank == self.rank_keys(scores@, prefix),
                position_values(order@) == stable_order(rank),
                rows.len() == count,
                forall|m: int| 0 <= m < count ==> #[trigger] rows[m] == stable_order(rank)[m],
                forall|m: int| 0 <= m < n ==> 0 <= #[trigger] stable_order(rank)[m] < n,
                forall|m: int|
                    0 <= m < n ==> #[trigger] ranked@[m] == self.rank_score(scores@, m, prefix),
                hit_views(out@) == self.hits_of(rows.take(i as int), scores@, prefix),
            decreases count - i,
        {
            let row: usize = order[i];
            proof {
                assert(position_values(order@)[i as int] == row as int);
                assert(rows[i as int] == row);
                assert(rows.take(i + 1).drop_last() == rows.take(i as int));
                assert(rows.take(i + 1).last() == row);
            }
            let score: u32 = ranked[row];
            let ghost before = hit_views(out@);
            if finite(score) {
                self.push_hits(row, score, path_prefix, &mut out);
            } else {
                assert(before + Seq::<HitView>::empty() == before);
            }
            i = i + 1;
        }
        assert(rows.take(rows.len() as int) == rows);
        out
    }

    /// Appends the hits of one chunk.
    fn push_hits(&self, row: usize, score: u32, path_prefix: Option<&str>, out: &mut Vec<Hit>)
        requires
            row < self.meta@.len(),
        ensures
            hit_views(final(out)@) == hit_views(old(out)@) + chunk_hits(
                self.meta@[row as int]@,
                score,
                matching_paths(
                    self.paths(self.meta@[row as int].blob_sha@),
                    prefix_view(path_prefix),
                ),
            ),
    {
        let ghost prefix = prefix_view(path_prefix);
        let m = &self.meta[row];
        let ghost before = hit_views(out@);
        match self.blob_to_paths.get(m.blob_sha.as_str()) {
            Some(paths) => {
                let ghost all = views(paths@);
                let mut j: usize = 0;
                assert(all.take(0) == Seq::<Seq<char>>::empty());
                assert(before + chunk_hits(m@, score, matching_paths(all.take(0), prefix))
                    == before);
                while j < paths.len()
                    invariant
                        j <= paths@.len(),
                        all == views(paths@),
                        prefix == prefix_view(path_prefix),
                        hit_views(out@) == before + chunk_hits(
                            m@,
                            score,
                            matching_paths(all.take(j as int), prefix),
                        ),
                    decreases paths@.len() - j,
                {
                    let ghost sofar = hit_views(out@);
                    let ghost part = matching_paths(all.take(j as int), prefix);
                    proof {
                        assert(all.take(j + 1).drop_last() == all.take(j as int));
                        assert(all.take(j + 1).last() == paths@[j as int]@);
                    }
                    if matches_prefix(paths[j].as_str(), path_prefix) {
                        let h = Hit {
                            path: paths[j].clone(),
                            start_line: m.start_line,
                            end_line: m.end_line,
                            score,
                            blob_sha: m.blob_sha.clone(),
                            chunk_idx: m.chunk_idx,
                        };
                        let ghost x = h@;
                        out.push(h);
                        proof {
                            assert(hit_views(out@) == sofar.push(x));
                            assert(chunk_hits(m@, score, part.push(paths@[j as int]@))
                                == chunk_hits(m@, score, part).push(x));
                            assert(hit_views(out@) == before + chunk_hits(
                                m@,
                                score,
                                matching_paths(all.take(j + 1), prefix),
                            ));
                        }
                    }
                    j = j + 1;
                }
                assert(all.take(all.len() as int) == all);
            },
            None => {
                assert(before + chunk_hits(m@, score, matching_paths(Seq::empty(), prefix))
                    == before);
            },
        }
    }
}

/// No row that is left out scores better than one that is selected.
pub proof fn law_top_is_best(
    index: Index,
    scores: Seq<u32>,
    k: nat,
    prefix: Option<Seq<char>>,
    i: int,
    j: int,
)
    requires
        index.top(scores, k, prefix).contains(i),
        0 <= j < index.meta@.len(),
        !index.top(scores, k, prefix).contains(j),
    ensures
        score_key(index.rank_score(scores, i, prefix)) >= score_key(
            index.rank_score(scores, j, prefix),
        ),
{
    let keys = index.rank_keys(scores, prefix);
    let order = stable_order(keys);
    let top = index.top(scores, k, prefix);
    lemma_stable_order(keys);
    let a = choose|a: int| 0 <= a < top.len() && top[a] == i;
    assert(order[a] == i);
    assert(order.contains(j));
    let b = choose|b: int| 0 <= b < order.len() && order[b] == j;
    if b < top.len() {
        assert(top[b] == j);
    }
    assert(a < b);
    assert(no_later(keys, order[a], order[b]));
}

/// As many rows are selected as were asked for, if there are that many, and none
/// of them twice.
pub proof fn law_top_selects(index: Index, scores: Seq<u32>, k: nat, prefix: Option<Seq<char>>)
    ensures
        index.top(scores, k, prefix).len() == (if k < index.meta@.len() {
            k
        } else {
            index.meta@.len()
        }),
        index.top(scores, k, prefix).no_duplicates(),
        forall|a: int|
            0 <= a < index.top(scores, k, prefix).len() ==> 0 <= #[trigger] index.top(
                scores,
                k,
                prefix,
            )[a] < index.meta@.len(),
{
    let keys = index.rank_keys(scores, prefix);
    let order = stable_order(keys);
    let top = index.top(scores, k, prefix);
    lemma_stable_order(keys);
    assert forall|a: int| 0 <= a < top.len() implies 0 <= #[trigger] top[a]
        < index.meta@.len() by {
        assert(top[a] == order[a]);
    }
}

/// A hit comes of a selected row, has its score, which is finite, and names a
/// path that now holds the blob and matches the filter.
pub proof fn law_hit_is_current(
    index: Index,
    rows: Seq<int>,
    scores: Seq<u32>,
    prefix: Option<Seq<char>>,
    h: int,
) -> (i: int)
    requires
        0 <= h < index.hits_of(rows, scores, prefix).len(),
    ensures
        0 <= i < rows.len(),
        ({
            let hit = index.hits_of(rows, scores, prefix)[h];
            let m = index.meta@[rows[i]]@;
            &&& hit.blob_sha == m.blob_sha
            &&& hit.chunk_idx == m.chunk_idx
            &&& hit.start_line == m.start_line
            &&& hit.end_line == m.end_line
            &&& hit.score == index.rank_score(scores, rows[i], prefix)
            &&& is_finite(hit.score)
            &&& index.paths(hit.blob_sha).contains(hit.path)
            &&& path_matches(hit.path, prefix)
        }),
    decreases rows.len(),
{
    let init = rows.drop_last();
    let before = index.hits_of(init, scores, prefix);
    if h < before.len() {
        let i = law_hit_is_current(index, init, scores, prefix, h);
        assert(init[i] == rows[i]);
        i
    } else {
        let i = rows.len() - 1;
        let paths = index.paths(index.meta@[rows[i]].blob_sha@);
        lemma_matching_path(paths, prefix, h - before.len());
        i
    }
}

/// A path that was kept is a path of the blob, and matches.
pub proof fn lemma_matching_path(paths: Seq<Seq<char>>, prefix: Option<Seq<char>>, j: int)
    requires
        0 <= j < matching_paths(paths, prefix).len(),
    ensures
        paths.contains(matching_paths(paths, prefix)[j]),
        path_matches(matching_paths(paths, prefix)[j], prefix),
    decreases paths.len(),
{
    let init = paths.drop_last();
    let before = matching_paths(init, prefix);
    if j < before.len() {
        lemma_matching_path(init, prefix, j);
        let m = choose|m: int| 0 <= m < init.len() && init[m] == before[j];
        assert(paths[m] == before[j]);
    } else {
        assert(paths[paths.len() - 1] == paths.last());
    }
}

/// Hits come best first.
pub proof fn law_hits_are_sorted(
    index: Index,
    scores: Seq<u32>,
    k: nat,
    prefix: Option<Seq<char>>,
    a: int,
    b: int,
)
    requires
        0 <= a <= b < index.hits_of(index.top(scores, k, prefix), scores, prefix).len(),
    ensures
        ({
            let hits = index.hits_of(index.top(scores, k, prefix), scores, prefix);
            score_key(hits[a].score) >= score_key(hits[b].score)
        }),
{
    let keys = index.rank_keys(scores, prefix);
    let top = index.top(scores, k, prefix);
    lemma_stable_order(keys);
    let (i, j) = lemma_hit_rows(index, top, scores, prefix, a, b);
    let order = stable_order(keys);
    assert(top[i] == order[i] && top[j] == order[j]);
    law_top_selects(index, scores, k, prefix);
    assert(0 <= top[i] < index.meta@.len());
    assert(0 <= top[j] < index.meta@.len());
    if i < j {
        assert(no_later(keys, order[i], order[j]));
    }
}

/// Hits stand in the order of their rows.
proof fn lemma_hit_rows(
    index: Index,
    rows: Seq<int>,
    scores: Seq<u32>,
    prefix: Option<Seq<char>>,
    a: int,
    b: int,
) -> (r: (int, int))
    requires
        0 <= a <= b < index.hits_of(rows, scores, prefix).len(),
    ensures
        0 <= r.0 <= r.1 < rows.len(),
        index.hits_of(rows, scores, prefix)[a].score == index.rank_score(scores, rows[r.0], prefix),
        index.hits_of(rows, scores, prefix)[b].score == index.rank_score(scores, rows[r.1], prefix),
    decreases rows.len(),
{
    let init = rows.drop_last();
    let before = index.hits_of(init, scores, prefix);
    if b < before.len() {
        let r = lemma_hit_rows(index, init, scores, prefix, a, b);
        assert(init[r.0] == rows[r.0] && init[r.1] == rows[r.1]);
        r
    } else if a < before.len() {
        let r = lemma_hit_rows(index, init, scores, prefix, a, a);
        assert(init[r.0] == rows[r.0]);
        (r.0, rows.len() - 1)
    } else {
        (rows.len() - 1, rows.len() - 1)
    }
}

/// Only blobs of the current work tree are loaded.
pub proof fn law_loaded_is_current(
    payloads: Seq<(Seq<char>, Seq<u8>)>,
    files: Seq<(Seq<char>, Seq<char>)>,
    i: int,
)
    requires
        0 <= i < loaded_meta(payloads, files).len(),
    ensures
        paths_of(files, loaded_meta(payloads, files)[i].blob_sha).len() > 0,
    decreases payloads.len(),
{
    let init = payloads.drop_last();
    if i < loaded_meta(init, files).len() {
        law_loaded_is_current(init, files, i);
    }
}

/// The blob of a corrupt payload is reported.
pub proof fn law_corrupt_is_reported(
    payloads: Seq<(Seq<char>, Seq<u8>)>,
    files: Seq<(Seq<char>, Seq<char>)>,
    j: int,
)
    requires
        0 <= j < payloads.len(),
        is_corrupt(payloads[j], files),
    ensures
        corrupt_shas(payloads, files).contains(payloads[j].0),
    decreases payloads.len(),
{
    let init = payloads.drop_last();
    let all = corrupt_shas(payloads, files);
    if j < init.len() {
        assert(init[j] == payloads[j]);
        law_corrupt_is_reported(init, files, j);
        let before = corrupt_shas(init, files);
        let m = choose|m: int| 0 <= m < before.len() && before[m] == payloads[j].0;
        assert(all[m] == payloads[j].0);
    } else {
        assert(all[all.len() - 1] == payloads[j].0);
    }
}

/// Every path that holds the blob of a selected chunk and matches the filter gets
/// a hit.
pub proof fn law_every_path_has_a_hit(
    index: Index,
    rows: Seq<int>,
    scores: Seq<u32>,
    prefix: Option<Seq<char>>,
    i: int,
    path: Seq<char>,
)
    requires
        0 <= i < rows.len(),
        is_finite(index.rank_score(scores, rows[i], prefix)),
        index.paths(index.meta@[rows[i]].blob_sha@).contains(path),
        path_matches(path, prefix),
    ensures
        index.hits_of(rows, scores, prefix).contains(
            HitView {
                path,
                start_line: index.meta@[rows[i]].start_line,
                end_line: index.meta@[rows[i]].end_line,
                score: index.rank_score(scores, rows[i], prefix),
                blob_sha: index.meta@[rows[i]].blob_sha@,
                chunk_idx: index.meta@[rows[i]].chunk_idx,
            },
        ),
    decreases rows.len(),
{
    let hits = index.hits_of(rows, scores, prefix);
    let init = rows.drop_last();
    let before = index.hits_of(init, scores, prefix);
    let m = index.meta@[rows[i]];
    let score = index.rank_score(scores, rows[i], prefix);
    let hit = HitView {
        path,
        start_line: m.start_line,
        end_line: m.end_line,
        score,
        blob_sha: m.blob_sha@,
        chunk_idx: m.chunk_idx,
    };
    if i < init.len() {
        assert(init[i] == rows[i]);
        law_every_path_has_a_hit(index, init, scores, prefix, i, path);
        let h = choose|h: int| 0 <= h < before.len() && before[h] == hit;
        assert(hits[h] == hit);
    } else {
        let paths = index.paths(m.blob_sha@);
        let kept = matching_paths(paths, prefix);
        lemma_path_is_kept(paths, prefix, path);
        let j = choose|j: int| 0 <= j < kept.len() && kept[j] == path;
        assert(chunk_hits(m@, score, kept)[j] == hit);
        assert(hits[before.len() + j] == hit);
    }
}

/// A path that matches is kept.
pub proof fn lemma_path_is_kept(paths: Seq<Seq<char>>, prefix: Option<Seq<char>>, path: Seq<char>)
    requires
        paths.contains(path),
        path_matches(path, prefix),
    ensures
        matching_paths(paths, prefix).contains(path),
    decreases paths.len(),
{
    let init = paths.drop_last();
    let before = matching_paths(init, prefix);
    let all = matching_paths(paths, prefix);
    let i = choose|i: int| 0 <= i < paths.len() && paths[i] == path;
    if i < init.len() {
        assert(init[i] == path);
        lemma_path_is_kept(init, prefix, path);
        let j = choose|j: int| 0 <= j < before.len() && before[j] == path;
        assert(all[j] == path);
    } else {
        assert(all[all.len() - 1] == path);
    }
}

/// The number that the bits of a score encode by IEEE 754, in units of the
/// smallest one above zero: a sign, eight bits of exponent and twenty-three of
/// fraction. Infinity counts as the number one step beyond the largest.
pub open spec fn ieee_value(bits: u32) -> int {
    let m = bits as int % 0x8000_0000;
    let exponent = m / 0x80_0000;
    let fraction = m % 0x80_0000;
    let value = if exponent == 0 {
        fraction
    } else {
        (0x80_0000 + fraction) * pow2((exponent - 1) as nat)
    };
    if bits < 0x8000_0000 {
        value
    } else {
        -value
    }
}

/// The bits encode a number, or an infinity.
pub open spec fn is_number(bits: u32) -> bool {
    bits as int % 0x8000_0000 <= 0x7f80_0000
}

/// Scores are compared as the numbers that they encode: one ranks below another
/// exactly if its number is the smaller one. What is not a number ranks below
/// all numbers.
pub proof fn law_scores_compare_as_numbers(a: u32, b: u32)
    requires
        is_number(b),
    ensures
        is_number(a) ==> (score_key(a) < score_key(b) <==> ieee_value(a) < ieee_value(b)),
        !is_number(a) ==> score_key(a) < score_key(b),
{
    let m = a as int % 0x8000_0000;
    let n = b as int % 0x8000_0000;
    assert(m == magnitude(a));
    assert(n == magnitude(b));
    if m < n {
        lemma_value_grows(m, n);
    } else if n < m {
        lemma_value_grows(n, m);
    }
    lemma_value_grows(m, m + 1);
    lemma_value_grows(n, n + 1);
    assert(unsigned_value(0) == 0);
    assert(ieee_value(a) == if a < 0x8000_0000 {
        unsigned_value(m)
    } else {
        -unsigned_value(m)
    });
    assert(ieee_value(b) == if b < 0x8000_0000 {
        unsigned_value(n)
    } else {
        -unsigned_value(n)
    });
}

/// The number that bits without a sign encode.
spec fn unsigned_value(m: int) -> int {
    if m / 0x80_0000 == 0 {
        m % 0x80_0000
    } else {
        (0x80_0000 + m % 0x80_0000) * pow2((m / 0x80_0000 - 1) as nat)
    }
}

/// Larger bits encode a larger number.
proof fn lemma_value_grows(m: int, n: int)
    requires
        0 <= m < n,
    ensures
        unsigned_value(m) < unsigned_value(n),
        unsigned_value(m) >= 0,
        m > 0 ==> unsigned_value(m) > 0,
{
    let e = m / 0x80_0000;
    let f = m % 0x80_0000;
    let d = n / 0x80_0000;
    let g = n % 0x80_0000;
    lemma2_to64();
    if e > 0 {
        lemma_pow2_pos((e - 1) as nat);
        let p = pow2((e - 1) as nat) as int;
        assert((0x80_0000 + f) * p > 0) by (nonlinear_arith)
            requires
                f >= 0,
                p > 0,
        ;
    }
    if e == d {
        if e > 0 {
            let p = pow2((e - 1) as nat) as int;
            assert((0x80_0000 + f) * p < (0x80_0000 + g) * p) by (nonlinear_arith)
                requires
                    f < g,
                    p > 0,
            ;
        }
    } else {
        let q = pow2((d - 1) as nat) as int;
        lemma_pow2_pos((d - 1) as nat);
        assert((0x80_0000 + g) * q >= 0x80_0000 * q) by (nonlinear_arith)
            requires
                g >= 0,
                q > 0,
        ;
        if e == 0 {
            assert(0x80_0000 * q > f) by (nonlinear_arith)
                requires
                    f < 0x80_0000,
                    q > 0,
            ;
        } else {
            let p = pow2((e - 1) as nat) as int;
            lemma_pow2_unfold(e as nat);
            if e < d - 1 {
                lemma_pow2_strictly_increases(e as nat, (d - 1) as nat);
            }
            assert(2 * p <= q);
            assert((0x80_0000 + f) * p < 0x80_0000 * q) by (nonlinear_arith)
                requires
                    f < 0x80_0000,
                    p > 0,
                    2 * p <= q,
            ;
        }
    }
}

/// A path begins with what the filter asks for.
pub open spec fn begins(path: Seq<char>, prefix: Option<Seq<char>>) -> bool {
    match prefix {
        Some(p) => p.len() <= path.len() && path.take(p.len() as int) == p,
        None => true,
    }
}

/// A path passes the filter exactly if its first characters are those of the
/// filter; without a filter every path passes.
pub proof fn law_filter_takes_prefixes(path: Seq<char>, prefix: Option<Seq<char>>)
    ensures
        path_matches(path, prefix) <==> begins(path, prefix),
{
    match prefix {
        Some(p) => {
            if p.is_prefix_of(path) {
                assert(path.take(p.len() as int) == p);
            }
            if begins(path, prefix) {
                assert forall|i: int| 0 <= i < p.len() implies #[trigger] p[i] == path[i] by {
                    assert(path.take(p.len() as int)[i] == p[i]);
                }
                assert(p.is_prefix_of(path));
            }
        },
        None => {},
    }
}

/// Every hit of a search stands for a row of the index: it names the row's blob,
/// chunk and lines and has the row's own score, a finite number. Its path is one
/// of those that hold the blob, and its first characters are those of the filter.
pub proof fn law_search_finds_rows(
    index: Index,
    scores: Seq<u32>,
    k: nat,
    prefix: Option<Seq<char>>,
    h: int,
) -> (i: int)
    requires
        0 <= h < index.hits_of(index.top(scores, k, prefix), scores, prefix).len(),
    ensures
        0 <= i < index.meta@.len(),
        ({
            let hit = index.hits_of(index.top(scores, k, prefix), scores, prefix)[h];
            &&& hit.blob_sha == index.meta@[i].blob_sha@
            &&& hit.chunk_idx == index.meta@[i].chunk_idx
            &&& hit.start_line == index.meta@[i].start_line
            &&& hit.end_line == index.meta@[i].end_line
            &&& hit.score == scores[i]
            &&& scores[i] as int % 0x8000_0000 < 0x7f80_0000
            &&& index.blob_to_paths@.contains_key(hit.blob_sha)
            &&& views(index.blob_to_paths@[hit.blob_sha]@).contains(hit.path)
            &&& prefix matches Some(p) ==> p.len() <= hit.path.len() && hit.path.take(
                p.len() as int,
            ) == p
        }),
{
    let top = index.top(scores, k, prefix);
    law_top_selects(index, scores, k, prefix);
    let r = law_hit_is_current(index, top, scores, prefix, h);
    let hit = index.hits_of(top, scores, prefix)[h];
    law_filter_takes_prefixes(hit.path, prefix);
    assert(0 <= top[r] < index.meta@.len());
    top[r]
}

/// A search leaves out a row, though its score is finite and a path of its blob
/// begins with the filter, only for `k` other rows that have such a path too and
/// whose scores are larger numbers, or as large at an earlier place.
pub proof fn law_search_leaves_out_the_worst(
    index: Index,
    scores: Seq<u32>,
    k: nat,
    prefix: Option<Seq<char>>,
    j: int,
    path: Seq<char>,
)
    requires
        0 <= j < index.meta@.len(),
        scores[j] as int % 0x8000_0000 < 0x7f80_0000,
        index.paths(index.meta@[j].blob_sha@).contains(path),
        begins(path, prefix),
        !index.hits_of(index.top(scores, k, prefix), scores, prefix).contains(
            HitView {
                path,
                start_line: index.meta@[j].start_line,
                end_line: index.meta@[j].end_line,
                score: scores[j],
                blob_sha: index.meta@[j].blob_sha@,
                chunk_idx: index.meta@[j].chunk_idx,
            },
        ),
    ensures
        index.top(scores, k, prefix).len() == k,
        index.top(scores, k, prefix).no_duplicates(),
        forall|a: int|
            0 <= a < k ==> beats(index, scores, prefix, #[trigger] index.top(scores, k, prefix)[a], j),
{
    let keys = index.rank_keys(scores, prefix);
    let order = stable_order(keys);
    let top = index.top(scores, k, prefix);
    let paths = index.paths(index.meta@[j].blob_sha@);
    lemma_stable_order(keys);
    law_top_selects(index, scores, k, prefix);
    law_filter_takes_prefixes(path, prefix);
    lemma_path_is_kept(paths, prefix, path);
    assert(index.rank_score(scores, j, prefix) == scores[j]);
    assert(is_finite(scores[j]));
    if top.contains(j) {
        let a = choose|a: int| 0 <= a < top.len() && top[a] == j;
        law_every_path_has_a_hit(index, top, scores, prefix, a, path);
    }
    assert(order.contains(j));
    let b = choose|b: int| 0 <= b < order.len() && order[b] == j;
    if b < top.len() {
        assert(top[b] == j);
    }
    assert(top.len() == k);
    assert forall|a: int| 0 <= a < k implies beats(index, scores, prefix, #[trigger] top[a], j) by {
        let i = top[a];
        assert(order[a] == i);
        assert(no_later(keys, order[a], order[b]));
        law_scores_compare_as_numbers(NEG_INFINITY, scores[j]);
        assert(score_key(NEG_INFINITY) == -0x7f80_0000);
        assert(index.passes(i, prefix));
        law_scores_compare_as_numbers(scores[i], scores[j]);
        if is_number(scores[i]) {
            law_scores_compare_as_numbers(scores[j], scores[i]);
        }
        let held = index.paths(index.meta@[i].blob_sha@);
        lemma_matching_path(held, prefix, 0);
        let p = matching_paths(held, prefix)[0];
        law_filter_takes_prefixes(p, prefix);
        assert(held.contains(p) && begins(p, prefix));
    }
}

/// Row `i` comes before row `j`: it has a path that begins with the filter, and
/// its score is the larger number, or as large at an earlier place.
pub open spec fn beats(
    index: Index,
    scores: Seq<u32>,
    prefix: Option<Seq<char>>,
    i: int,
    j: int,
) -> bool {
    &&& 0 <= i < index.meta@.len()
    &&& i != j
    &&& is_number(scores[i])
    &&& ieee_value(scores[i]) > ieee_value(scores[j]) || (ieee_value(scores[i]) == ieee_value(
        scores[j],
    ) && i < j)
    &&& exists|p: Seq<char>| #[trigger]
        index.paths(index.meta@[i].blob_sha@).contains(p) && begins(p, prefix)
}

/// The scores of the hits, as the numbers that they encode, never grow from one
/// hit to a later one.
pub proof fn law_search_goes_down(
    index: Index,
    scores: Seq<u32>,
    k: nat,
    prefix: Option<Seq<char>>,
    a: int,
    b: int,
)
    requires
        0 <= a <= b < index.hits_of(index.top(scores, k, prefix), scores, prefix).len(),
    ensures
        ({
            let hits = index.hits_of(index.top(scores, k, prefix), scores, prefix);
            ieee_value(hits[a].score) >= ieee_value(hits[b].score)
        }),
{
    let top = index.top(scores, k, prefix);
    let hits = index.hits_of(top, scores, prefix);
    law_hits_are_sorted(index, scores, k, prefix, a, b);
    let i = law_hit_is_current(index, top, scores, prefix, a);
    let j = law_hit_is_current(index, top, scores, prefix, b);
    law_scores_compare_as_numbers(hits[a].score, hits[b].score);
}

/// Rows are answered one after the other: the hits of some rows and of further
/// rows are the hits of all of them. One row of finite score is answered by one
/// hit for each of its blob's paths that begins with the filter, in their order;
/// a row whose score is not finite by none.
pub proof fn law_hits_row_by_row(
    index: Index,
    a: Seq<int>,
    b: Seq<int>,
    scores: Seq<u32>,
    prefix: Option<Seq<char>>,
    i: int,
)
    ensures
        index.hits_of(a + b, scores, prefix) == index.hits_of(a, scores, prefix) + index.hits_of(
            b,
            scores,
            prefix,
        ),
        scores[i] as int % 0x8000_0000 < 0x7f80_0000 ==> index.hits_of(
            seq![i],
            scores,
            prefix,
        ).map_values(|h: HitView| h.path) == index.paths(index.meta@[i].blob_sha@).filter(
            |p: Seq<char>| begins(p, prefix),
        ),
        scores[i] as int % 0x8000_0000 >= 0x7f80_0000 ==> index.hits_of(
            seq![i],
            scores,
            prefix,
        ).len() == 0,
    decreases b.len(),
{
    if b.len() == 0 {
        assert(a + b == a);
        assert(index.hits_of(b, scores, prefix) == Seq::<HitView>::empty());
    } else {
        law_hits_row_by_row(index, a, b.drop_last(), scores, prefix, i);
        assert((a + b).drop_last() == a + b.drop_last());
        assert((a + b).last() == b.last());
    }
    let paths = index.paths(index.meta@[i].blob_sha@);
    let kept = matching_paths(paths, prefix);
    let hits = index.hits_of(seq![i], scores, prefix);
    assert(seq![i].drop_last() == Seq::<int>::empty());
    assert(index.hits_of(seq![i].drop_last(), scores, prefix) == Seq::<HitView>::empty());
    assert(hits == index.row_hits(scores, i, prefix));
    lemma_matching_is_filter(paths, prefix);
    if scores[i] as int % 0x8000_0000 < 0x7f80_0000 {
        assert(hits.map_values(|h: HitView| h.path) =~= kept);
    }
}

/// The paths that match are those that begin with the filter.
proof fn lemma_matching_is_filter(paths: Seq<Seq<char>>, prefix: Option<Seq<char>>)
    ensures
        matching_paths(paths, prefix) == paths.filter(|p: Seq<char>| begins(p, prefix)),
    decreases paths.len(),
{
    reveal(Seq::filter);
    if paths.len() > 0 {
        lemma_matching_is_filter(paths.drop_last(), prefix);
        law_filter_takes_prefixes(paths.last(), prefix);
    }
}

/// The paths of a blob are those of the files that hold it, in order: two lists of
/// files give the paths of the first and behind them those of the second.
pub proof fn law_paths_of_files(
    a: Seq<(Seq<char>, Seq<char>)>,
    b: Seq<(Seq<char>, Seq<char>)>,
    file: (Seq<char>, Seq<char>),
    sha: Seq<char>,
)
    ensures
        paths_of(a + b, sha) == paths_of(a, sha) + paths_of(b, sha),
        file.1 == sha ==> paths_of(seq![file], sha) == seq![file.0],
        file.1 != sha ==> paths_of(seq![file], sha).len() == 0,
    decreases b.len(),
{
    assert(seq![file].drop_last() == Seq::<(Seq<char>, Seq<char>)>::empty());
    assert(paths_of(seq![file].drop_last(), sha) == Seq::<Seq<char>>::empty());
    if b.len() == 0 {
        assert(a + b == a);
    } else {
        law_paths_of_files(a, b.drop_last(), file, sha);
        assert((a + b).drop_last() == a + b.drop_last());
        assert((a + b).last() == b.last());
    }
}

/// A file's path is among those of its blob.
proof fn lemma_file_has_path(files: Seq<(Seq<char>, Seq<char>)>, f: int)
    requires
        0 <= f < files.len(),
    ensures
        paths_of(files, files[f].1).contains(files[f].0),
        paths_of(files, files[f].1).len() > 0,
{
    let sha = files[f].1;
    let a = files.take(f);
    let one = seq![files[f]];
    let b = files.skip(f + 1);
    assert(files == (a + one) + b);
    law_paths_of_files(a + one, b, files[f], sha);
    law_paths_of_files(a, one, files[f], sha);
    assert(paths_of(files, sha)[paths_of(a, sha).len() as int] == files[f].0);
}

/// A path of a blob is that of a file that holds it.
proof fn lemma_path_has_file(files: Seq<(Seq<char>, Seq<char>)>, sha: Seq<char>, i: int) -> (f: int)
    requires
        0 <= i < paths_of(files, sha).len(),
    ensures
        0 <= f < files.len(),
        files[f] == (paths_of(files, sha)[i], sha),
    decreases files.len(),
{
    let init = files.drop_last();
    if i < paths_of(init, sha).len() {
        let f = lemma_path_has_file(init, sha, i);
        assert(init[f] == files[f]);
        f
    } else {
        files.len() - 1
    }
}

/// The map of an index says of every file that its blob is held at its path, and
/// says nothing else.
pub proof fn law_map_shows_the_files(
    m: Map<Seq<char>, Vec<String>>,
    files: Seq<(Seq<char>, Seq<char>)>,
    f: int,
    sha: Seq<char>,
    i: int,
) -> (g: int)
    requires
        maps_paths(m, files),
    ensures
        0 <= f < files.len() ==> m.contains_key(files[f].1) && views(m[files[f].1]@).contains(
            files[f].0,
        ),
        m.contains_key(sha) && 0 <= i < m[sha]@.len() ==> 0 <= g < files.len() && files[g] == (
            m[sha]@[i]@,
            sha,
        ),
{
    if 0 <= f < files.len() {
        lemma_file_has_path(files, f);
        assert(m.contains_key(files[f].1));
    }
    if m.contains_key(sha) && 0 <= i < m[sha]@.len() {
        assert(views(m[sha]@)[i] == m[sha]@[i]@);
        lemma_path_has_file(files, sha, i)
    } else {
        0
    }
}

/// Every chunk of every readable payload is loaded, if any file of the work tree
/// holds the payload's blob: there is a row that names the blob, the chunk and its
/// lines, and the same row of the matrix is the payload's vector of that chunk.
pub proof fn law_current_is_loaded(
    payloads: Seq<(Seq<char>, Seq<u8>)>,
    files: Seq<(Seq<char>, Seq<char>)>,
    dim: nat,
    j: int,
    f: int,
    i: int,
) -> (row: int)
    requires
        0 <= j < payloads.len(),
        0 <= f < files.len(),
        files[f].1 == payloads[j].0,
        unpacked(payloads[j].1) is Ok,
        0 <= i < unpacked(payloads[j].1)->Ok_0.ranges.len(),
        forall|m: int|
            0 <= m < payloads.len() && unpacked((#[trigger] payloads[m]).1) is Ok ==> unpacked(
                payloads[m].1,
            )->Ok_0.dim == dim,
    ensures
        ({
            let p = unpacked(payloads[j].1)->Ok_0;
            &&& 0 <= row < loaded_meta(payloads, files).len()
            &&& loaded_meta(payloads, files)[row] == (RowMetaView {
                blob_sha: payloads[j].0,
                chunk_idx: i as u32,
                start_line: p.ranges[i].0,
                end_line: p.ranges[i].1,
            })
            &&& loaded_bits(payloads, files).len() == loaded_meta(payloads, files).len() * dim
            &&& loaded_bits(payloads, files).subrange(row * dim, row * dim + dim)
                == p.bits.subrange(i * dim, i * dim + dim)
        }),
    decreases payloads.len(),
{
    let init = payloads.drop_last();
    let q = payloads.last();
    let meta = loaded_meta(init, files);
    let bits = loaded_bits(init, files);
    assert forall|m: int|
        0 <= m < init.len() && unpacked((#[trigger] init[m]).1) is Ok implies unpacked(
        init[m].1,
    )->Ok_0.dim == dim by {
        assert(init[m] == payloads[m]);
    }
    assert(q == payloads[payloads.len() - 1]);
    lemma_bits_follow_meta(init, files, dim);
    lemma_bits_follow_meta(payloads, files, dim);
    let d = dim as int;
    let n = meta.len() as int;
    if j < init.len() {
        assert(init[j] == payloads[j]);
        let row = law_current_is_loaded(init, files, dim, j, f, i);
        assert(row * d + d <= n * d) by (nonlinear_arith)
            requires
                0 <= row < n,
                d >= 0,
        ;
        assert(0 <= row * d) by (nonlinear_arith)
            requires
                0 <= row,
                d >= 0,
        ;
        assert(loaded_bits(payloads, files).subrange(row * d, row * d + d) =~= bits.subrange(
            row * d,
            row * d + d,
        ));
        row
    } else {
        lemma_file_has_path(files, f);
        assert(is_loaded(q, files));
        let p = unpacked(q.1)->Ok_0;
        let row = n + i;
        assert(row * d == n * d + i * d) by (nonlinear_arith)
            requires
                row == n + i,
        ;
        assert(i * d + d <= p.ranges.len() * d) by (nonlinear_arith)
            requires
                0 <= i < p.ranges.len(),
                d >= 0,
        ;
        assert(0 <= i * d) by (nonlinear_arith)
            requires
                0 <= i,
                d >= 0,
        ;
        assert(loaded_bits(payloads, files).subrange(row * d, row * d + d) =~= p.bits.subrange(
            i * d,
            i * d + d,
        ));
        row
    }
}

/// There is a vector for every row.
proof fn lemma_bits_follow_meta(
    payloads: Seq<(Seq<char>, Seq<u8>)>,
    files: Seq<(Seq<char>, Seq<char>)>,
    dim: nat,
)
    requires
        forall|m: int|
            0 <= m < payloads.len() && unpacked((#[trigger] payloads[m]).1) is Ok ==> unpacked(
                payloads[m].1,
            )->Ok_0.dim == dim,
    ensures
        loaded_bits(payloads, files).len() == loaded_meta(payloads, files).len() * dim,
        forall|m: int|
            0 <= m < payloads.len() && unpacked((#[trigger] payloads[m]).1) is Ok ==> unpacked(
                payloads[m].1,
            )->Ok_0.bits.len() == unpacked(payloads[m].1)->Ok_0.ranges.len() * dim,
    decreases payloads.len(),
{
    if payloads.len() > 0 {
        let init = payloads.drop_last();
        assert forall|m: int|
            0 <= m < init.len() && unpacked((#[trigger] init[m]).1) is Ok implies unpacked(
            init[m].1,
        )->Ok_0.dim == dim by {
            assert(init[m] == payloads[m]);
        }
        lemma_bits_follow_meta(init, files, dim);
        assert forall|m: int|
            0 <= m < payloads.len() && unpacked((#[trigger] payloads[m]).1) is Ok implies unpacked(
            payloads[m].1,
        )->Ok_0.bits.len() == unpacked(payloads[m].1)->Ok_0.ranges.len() * dim by {
            let p = unpacked(payloads[m].1)->Ok_0;
            assert(p.bits.len() == p.ranges.len() * p.dim);
        }
        let q = payloads[payloads.len() - 1];
        if is_loaded(q, files) {
            let p = unpacked(q.1)->Ok_0;
            let n = loaded_meta(init, files).len();
            let r = p.ranges.len();
            assert((n + r) * dim == n * dim + r * dim) by (nonlinear_arith);
        }
    }
}

/// Payloads are loaded one after the other, each on its own account: a list and a
/// further list give the rows, the vectors and the corrupt blobs of the first and
/// behind them those of the second. A payload whose blob no file holds gives
/// nothing, a readable one as many rows as it has chunks, and only one that cannot
/// be read is corrupt.
pub proof fn law_load_one_by_one(
    a: Seq<(Seq<char>, Seq<u8>)>,
    b: Seq<(Seq<char>, Seq<u8>)>,
    p: (Seq<char>, Seq<u8>),
    files: Seq<(Seq<char>, Seq<char>)>,
)
    ensures
        loaded_meta(a + b, files) == loaded_meta(a, files) + loaded_meta(b, files),
        loaded_bits(a + b, files) == loaded_bits(a, files) + loaded_bits(b, files),
        corrupt_shas(a + b, files) == corrupt_shas(a, files) + corrupt_shas(b, files),
        (forall|f: int| 0 <= f < files.len() ==> (#[trigger] files[f]).1 != p.0) ==> {
            &&& loaded_meta(seq![p], files).len() == 0
            &&& loaded_bits(seq![p], files).len() == 0
            &&& corrupt_shas(seq![p], files).len() == 0
        },
        forall|f: int|
            0 <= f < files.len() && (#[trigger] files[f]).1 == p.0 ==> match unpacked(p.1) {
                Ok(q) => {
                    &&& loaded_meta(seq![p], files).len() == q.ranges.len()
                    &&& loaded_bits(seq![p], files) == q.bits
                    &&& corrupt_shas(seq![p], files).len() == 0
                },
                Err(_) => {
                    &&& loaded_meta(seq![p], files).len() == 0
                    &&& loaded_bits(seq![p], files).len() == 0
                    &&& corrupt_shas(seq![p], files) == seq![p.0]
                },
            },
    decreases b.len(),
{
    let none = Seq::<(Seq<char>, Seq<u8>)>::empty();
    assert(seq![p].drop_last() == none);
    assert(loaded_meta(none, files) == Seq::<RowMetaView>::empty());
    assert(loaded_bits(none, files) == Seq::<u32>::empty());
    assert(corrupt_shas(none, files) == Seq::<Seq<char>>::empty());
    if paths_of(files, p.0).len() > 0 {
        let f = lemma_path_has_file(files, p.0, 0);
        assert(files[f].1 == p.0);
    }
    assert forall|f: int| 0 <= f < files.len() && (#[trigger] files[f]).1 == p.0 implies paths_of(
        files,
        p.0,
    ).len() > 0 by {
        lemma_file_has_path(files, f);
    }
    if b.len() == 0 {
        assert(a + b == a);
    } else {
        law_load_one_by_one(a, b.drop_last(), p, files);
        assert((a + b).drop_last() == a + b.drop_last());
        assert((a + b).last() == b.last());
    }
}

/// Selected rows come in the order of the numbers that their scores encode, the
/// largest first, and rows of equal score in the order of the index, as far as a
/// path of theirs begins with the filter.
pub proof fn law_ties_keep_order(
    index: Index,
    scores: Seq<u32>,
    k: nat,
    prefix: Option<Seq<char>>,
    a: int,
    b: int,
    path: Seq<char>,
)
    requires
        0 <= a < b < index.top(scores, k, prefix).len(),
        index.paths(index.meta@[index.top(scores, k, prefix)[b]].blob_sha@).contains(path),
        begins(path, prefix),
        scores[index.top(scores, k, prefix)[b]] as int % 0x8000_0000 < 0x7f80_0000,
    ensures
        beats(
            index,
            scores,
            prefix,
            index.top(scores, k, prefix)[a],
            index.top(scores, k, prefix)[b],
        ),
{
    let keys = index.rank_keys(scores, prefix);
    let order = stable_order(keys);
    let top = index.top(scores, k, prefix);
    let i = top[a];
    let j = top[b];
    lemma_stable_order(keys);
    law_top_selects(index, scores, k, prefix);
    assert(order[a] == i && order[b] == j);
    assert(no_later(keys, order[a], order[b]));
    assert(0 <= i < index.meta@.len() && 0 <= j < index.meta@.len());
    law_filter_takes_prefixes(path, prefix);
    lemma_path_is_kept(index.paths(index.meta@[j].blob_sha@), prefix, path);
    assert(index.rank_score(scores, j, prefix) == scores[j]);
    law_scores_compare_as_numbers(NEG_INFINITY, scores[j]);
    assert(score_key(NEG_INFINITY) == -0x7f80_0000);
    assert(index.passes(i, prefix));
    law_scores_compare_as_numbers(scores[i], scores[j]);
    if is_number(scores[i]) {
        law_scores_compare_as_numbers(scores[j], scores[i]);
    }
    let held = index.paths(index.meta@[i].blob_sha@);
    lemma_matching_path(held, prefix, 0);
    let p = matching_paths(held, prefix)[0];
    law_filter_takes_prefixes(p, prefix);
    assert(held.contains(p) && begins(p, prefix));
}

/// What is stored is found: a search over the index of some payloads and files,
/// wide enough for all rows, gives a hit for every chunk of a readable payload, at
/// the path of every file that holds its blob, unless its score is not finite.
pub proof fn law_stored_chunk_is_found(
    index: Index,
    payloads: Seq<(Seq<char>, Seq<u8>)>,
    files: Seq<(Seq<char>, Seq<char>)>,
    dim: nat,
    j: int,
    f: int,
    i: int,
    scores: Seq<u32>,
    k: nat,
) -> (row: int)
    requires
        meta_views(index.meta@) == loaded_meta(payloads, files),
        maps_paths(index.blob_to_paths@, files),
        0 <= j < payloads.len(),
        0 <= f < files.len(),
        files[f].1 == payloads[j].0,
        unpacked(payloads[j].1) is Ok,
        0 <= i < unpacked(payloads[j].1)->Ok_0.ranges.len(),
        forall|m: int|
            0 <= m < payloads.len() && unpacked((#[trigger] payloads[m]).1) is Ok ==> unpacked(
                payloads[m].1,
            )->Ok_0.dim == dim,
        k >= index.meta@.len(),
    ensures
        0 <= row < index.meta@.len(),
        loaded_bits(payloads, files).subrange(row * dim, row * dim + dim) == unpacked(
            payloads[j].1,
        )->Ok_0.bits.subrange(i * dim, i * dim + dim),
        scores[row] as int % 0x8000_0000 < 0x7f80_0000 ==> index.hits_of(
            index.top(scores, k, None),
            scores,
            None,
        ).contains(
            HitView {
                path: files[f].0,
                start_line: unpacked(payloads[j].1)->Ok_0.ranges[i].0,
                end_line: unpacked(payloads[j].1)->Ok_0.ranges[i].1,
                score: scores[row],
                blob_sha: payloads[j].0,
                chunk_idx: i as u32,
            },
        ),
{
    let row = law_current_is_loaded(payloads, files, dim, j, f, i);
    assert(meta_views(index.meta@)[row] == index.meta@[row]@);
    let none = Option::<Seq<char>>::None;
    let sha = payloads[j].0;
    let _ = law_map_shows_the_files(index.blob_to_paths@, files, f, sha, 0);
    assert(index.paths(sha).contains(files[f].0));
    if scores[row] as int % 0x8000_0000 < 0x7f80_0000 {
        lemma_path_is_kept(index.paths(sha), none, files[f].0);
        let keys = index.rank_keys(scores, none);
        lemma_stable_order(keys);
        let top = index.top(scores, k, none);
        assert(top =~= stable_order(keys));
        assert(top.contains(row));
        let a = choose|a: int| 0 <= a < top.len() && top[a] == row;
        law_every_path_has_a_hit(index, top, scores, none, a, files[f].0);
    }
    row
}

/// The models of hits and rows show them field by field.
pub proof fn law_search_models(hits: Seq<Hit>, meta: Seq<RowMeta>, i: int)
    ensures
        hit_views(hits).len() == hits.len(),
        meta_views(meta).len() == meta.len(),
        0 <= i < hits.len() ==> {
            let h = hit_views(hits)[i];
            &&& h.path == hits[i].path@
            &&& h.start_line == hits[i].start_line
            &&& h.end_line == hits[i].end_line
            &&& h.score == hits[i].score
            &&& h.blob_sha == hits[i].blob_sha@
            &&& h.chunk_idx == hits[i].chunk_idx
        },
        0 <= i < meta.len() ==> {
            let m = meta_views(meta)[i];
            &&& m.blob_sha == meta[i].blob_sha@
            &&& m.chunk_idx == meta[i].chunk_idx
            &&& m.start_line == meta[i].start_line
            &&& m.end_line == meta[i].end_line
        },
{
}

/// Every row is a chunk of one of the payloads, which can be read.
pub proof fn law_row_has_payload(
    payloads: Seq<(Seq<char>, Seq<u8>)>,
    files: Seq<(Seq<char>, Seq<char>)>,
    row: int,
) -> (w: (int, int))
    requires
        0 <= row < loaded_meta(payloads, files).len(),
    ensures
        0 <= w.0 < payloads.len(),
        unpacked(payloads[w.0].1) is Ok,
        0 <= w.1 < unpacked(payloads[w.0].1)->Ok_0.ranges.len(),
        loaded_meta(payloads, files)[row] == (RowMetaView {
            blob_sha: payloads[w.0].0,
            chunk_idx: w.1 as u32,
            start_line: unpacked(payloads[w.0].1)->Ok_0.ranges[w.1].0,
            end_line: unpacked(payloads[w.0].1)->Ok_0.ranges[w.1].1,
        }),
    decreases payloads.len(),
{
    let init = payloads.drop_last();
    let before = loaded_meta(init, files);
    if row < before.len() {
        let w = law_row_has_payload(init, files, row);
        assert(init[w.0] == payloads[w.0]);
        w
    } else {
        (payloads.len() - 1, row - before.len())
    }
}

/// Some file of the work tree holds the blob of every row.
pub proof fn law_row_has_file(
    payloads: Seq<(Seq<char>, Seq<u8>)>,
    files: Seq<(Seq<char>, Seq<char>)>,
    row: int,
) -> (f: int)
    requires
        0 <= row < loaded_meta(payloads, files).len(),
    ensures
        0 <= f < files.len(),
        files[f].1 == loaded_meta(payloads, files)[row].blob_sha,
{
    law_loaded_is_current(payloads, files, row);
    lemma_path_has_file(files, loaded_meta(payloads, files)[row].blob_sha, 0)
}

} // verus!
