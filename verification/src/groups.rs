//! Embedding in bounded groups.
//!
//! The blobs to embed stand in a queue. They are taken from it in groups that
//! hold a bounded number of chunks, and each group is stored before the next one
//! is taken, so that an interrupted run loses at most the group at hand.

use vstd::arithmetic::mul::*;
use vstd::prelude::*;
use vstd::string::*;
use vstd::utf8::*;

use crate::chunker::{chunk_bytes, chunk_views, file_chunks, ChunkView};
use crate::indexer::Planned;
use crate::number::{decimal, law_decimal_parses, parse_usize, parsed};
use crate::order::position_values;
use crate::payload::{law_unpack_pack, packed, unpacked};
use crate::repo::{blob_name, git_blob_sha1};
use crate::rows::{embedding_order, law_rows_follow_texts, law_rows_go_back, lemma_row_fits, lemma_text_order, restore_rows, scattered, sorted_texts, text_order};
use crate::sorted::{ascending, same};
use crate::store::{Store, StoreView};
use crate::text::views;

verus! {

/// How many chunks a group holds at most, unless the user says otherwise.
pub const DEFAULT_CHUNK_GROUP: usize = 512;

/// The bound that a setting gives: the number that it reads as, if that fits.
pub open spec fn group_limit(setting: Option<Seq<char>>) -> nat {
    match setting {
        Some(s) => match parsed(s) {
            Some(n) => if n <= usize::MAX {
                n
            } else {
                DEFAULT_CHUNK_GROUP as nat
            },
            None => DEFAULT_CHUNK_GROUP as nat,
        },
        None => DEFAULT_CHUNK_GROUP as nat,
    }
}

/// The bound on a group, from the setting `GVG_CHUNK_GROUP`.
pub fn chunk_group(setting: Option<&str>) -> (r: usize)
    ensures
        r == group_limit(
            match setting {
                Some(s) => Some(s@),
                None => None,
            },
        ),
{
    match setting {
        Some(s) => match parse_usize(s) {
            Some(n) => n,
            None => DEFAULT_CHUNK_GROUP,
        },
        None => DEFAULT_CHUNK_GROUP,
    }
}

/// A blob cut into chunks: their line ranges and their texts.
pub struct ChunkedBlob {
    pub sha: String,
    pub ranges: Vec<(u32, u32)>,
    pub texts: Vec<String>,
}

/// The model of a blob cut into chunks.
#[verifier::ext_equal]
pub struct ChunkedView {
    pub sha: Seq<char>,
    pub ranges: Seq<(u32, u32)>,
    pub texts: Seq<Seq<char>>,
}

impl View for ChunkedBlob {
    type V = ChunkedView;

    open spec fn view(&self) -> ChunkedView {
        ChunkedView { sha: self.sha@, ranges: self.ranges@, texts: views(self.texts@) }
    }
}

/// The views of a sequence of blobs.
pub open spec fn chunked_views(v: Seq<ChunkedBlob>) -> Seq<ChunkedView> {
    v.map_values(|c: ChunkedBlob| c@)
}

/// A blob with these chunks.
pub open spec fn chunked(sha: Seq<char>, chunks: Seq<ChunkView>) -> ChunkedView {
    ChunkedView {
        sha,
        ranges: chunks.map_values(|c: ChunkView| (c.start_line, c.end_line)),
        texts: chunks.map_values(|c: ChunkView| c.text),
    }
}

/// Cuts the bytes of a file into chunks. Where the blob was computed from bytes
/// on disk, bytes that hash to another one are refused: the file has changed
/// meanwhile. The SHA from the index may be that of filtered bytes and is not
/// compared.
pub fn chunk_blob(planned: &Planned, bytes: &[u8]) -> (r: Option<ChunkedBlob>)
    ensures
        r is None <==> planned.verify_raw_sha && blob_name(bytes@) != planned.sha@,
        r matches Some(c) ==> c@ == chunked(planned.sha@, file_chunks(bytes@))
            && c.ranges@.len() == c.texts@.len(),
{
    if planned.verify_raw_sha && !same(git_blob_sha1(bytes).as_str(), planned.sha.as_str()) {
        return None;
    }
    let chunks = chunk_bytes(bytes);
    let ghost all = chunk_views(chunks@);
    let mut ranges: Vec<(u32, u32)> = Vec::new();
    let mut texts: Vec<String> = Vec::new();
    let mut i: usize = 0;
    while i < chunks.len()
        invariant
            i <= chunks@.len(),
            all == chunk_views(chunks@),
            ranges@.len() == i,
            texts@.len() == i,
            forall|k: int|
                0 <= k < i ==> #[trigger] ranges@[k] == (all[k].start_line, all[k].end_line),
            forall|k: int| 0 <= k < i ==> (#[trigger] texts@[k])@ == all[k].text,
        decreases chunks@.len() - i,
    {
        assert(all[i as int] == chunks@[i as int]@);
        ranges.push((chunks[i].start_line, chunks[i].end_line));
        texts.push(chunks[i].text.clone());
        i = i + 1;
    }
    let c = ChunkedBlob { sha: planned.sha.clone(), ranges, texts };
    assert(c@ =~= chunked(planned.sha@, all));
    Some(c)
}

/// How many chunks some blobs have together.
pub open spec fn total(blobs: Seq<ChunkedView>) -> nat
    decreases blobs.len(),
{
    if blobs.len() == 0 {
        0
    } else {
        total(blobs.drop_last()) + blobs.last().texts.len()
    }
}

/// The texts of some blobs, in order.
pub open spec fn all_texts(blobs: Seq<ChunkedView>) -> Seq<Seq<char>>
    decreases blobs.len(),
{
    if blobs.len() == 0 {
        Seq::empty()
    } else {
        all_texts(blobs.drop_last()) + blobs.last().texts
    }
}

/// Where a group ends that holds `acc` chunks already and may take the blob at
/// `i`. A group is closed before a blob that would make it too large, unless it
/// holds no chunk yet, and behind one that makes it full.
pub open spec fn fill(blobs: Seq<ChunkedView>, i: int, acc: nat, limit: nat) -> int
    decreases blobs.len() - i,
{
    if i < 0 || i >= blobs.len() {
        blobs.len() as int
    } else {
        let n = blobs[i].texts.len();
        if acc > 0 && acc + n > limit {
            i
        } else if acc + n >= limit {
            i + 1
        } else {
            fill(blobs, i + 1, acc + n, limit)
        }
    }
}

/// Where the group ends that starts at `start`.
pub open spec fn group_end(blobs: Seq<ChunkedView>, start: int, limit: nat) -> int {
    fill(blobs, start, 0, limit)
}

/// The pending payloads after the blobs of a group have got theirs.
pub open spec fn with_payloads(
    pending: Map<Seq<char>, Seq<u8>>,
    group: Seq<ChunkedView>,
    bits: Seq<u32>,
    dim: nat,
) -> Map<Seq<char>, Seq<u8>>
    decreases group.len(),
{
    if group.len() == 0 {
        pending
    } else {
        let init = group.drop_last();
        with_payloads(pending, init, bits, dim).insert(
            group.last().sha,
            packed(
                dim,
                group.last().ranges,
                bits.subrange((total(init) * dim) as int, (total(group) * dim) as int),
            ),
        )
    }
}

/// As many texts as chunks.
pub proof fn lemma_all_texts_len(blobs: Seq<ChunkedView>)
    ensures
        all_texts(blobs).len() == total(blobs),
    decreases blobs.len(),
{
    if blobs.len() > 0 {
        lemma_all_texts_len(blobs.drop_last());
    }
}

/// A longer run of blobs has no fewer chunks.
pub proof fn lemma_total_take(blobs: Seq<ChunkedView>, i: int, j: int)
    requires
        0 <= i <= j <= blobs.len(),
    ensures
        total(blobs.take(j)) == total(blobs.take(i)) + total(blobs.subrange(i, j)),
        total(blobs.take(i)) <= total(blobs.take(j)),
        total(blobs.take(j)) <= total(blobs),
    decreases blobs.len() - i,
{
    lemma_total_split(blobs, i, j);
    lemma_total_split(blobs, j, blobs.len() as int);
    assert(blobs.take(blobs.len() as int) == blobs);
}

proof fn lemma_total_split(blobs: Seq<ChunkedView>, i: int, j: int)
    requires
        0 <= i <= j <= blobs.len(),
    ensures
        total(blobs.take(j)) == total(blobs.take(i)) + total(blobs.subrange(i, j)),
    decreases j,
{
    if i < j {
        lemma_total_split(blobs, i, j - 1);
        assert(blobs.take(j).drop_last() == blobs.take(j - 1));
        assert(blobs.subrange(i, j).drop_last() == blobs.subrange(i, j - 1));
    }
}

/// A group holds at least one blob, and ends within the queue.
pub proof fn law_group_progress(blobs: Seq<ChunkedView>, start: int, limit: nat)
    requires
        0 <= start < blobs.len(),
    ensures
        start < group_end(blobs, start, limit) <= blobs.len(),
{
    let n = blobs[start].texts.len();
    if n < limit {
        lemma_fill_range(blobs, start + 1, n, limit);
    }
}

proof fn lemma_fill_range(blobs: Seq<ChunkedView>, i: int, acc: nat, limit: nat)
    requires
        0 <= i <= blobs.len(),
    ensures
        i <= fill(blobs, i, acc, limit) <= blobs.len(),
    decreases blobs.len() - i,
{
    if i < blobs.len() {
        let n = blobs[i].texts.len();
        if !(acc > 0 && acc + n > limit) && acc + n < limit {
            lemma_fill_range(blobs, i + 1, acc + n, limit);
        }
    }
}

/// A group holds no more chunks than the bound, unless a single blob of it has
/// more by itself and the others have none.
pub proof fn law_group_bounded(blobs: Seq<ChunkedView>, start: int, limit: nat)
    requires
        0 <= start < blobs.len(),
    ensures
        ({
            let group = blobs.subrange(start, group_end(blobs, start, limit));
            total(group) <= limit || total(group.drop_last()) == 0
        }),
{
    law_group_progress(blobs, start, limit);
    assert(total(blobs.subrange(start, start)) == 0);
    lemma_fill_bounded(blobs, start, start, 0, limit);
}

proof fn lemma_fill_bounded(blobs: Seq<ChunkedView>, start: int, i: int, acc: nat, limit: nat)
    requires
        0 <= start <= i <= blobs.len(),
        start < fill(blobs, i, acc, limit) <= blobs.len(),
        acc == total(blobs.subrange(start, i)),
        acc < limit || acc == 0,
    ensures
        ({
            let group = blobs.subrange(start, fill(blobs, i, acc, limit));
            total(group) <= limit || total(group.drop_last()) == 0
        }),
    decreases blobs.len() - i,
{
    if i < blobs.len() {
        let n = blobs[i].texts.len();
        let next = blobs.subrange(start, i + 1);
        assert(next.drop_last() == blobs.subrange(start, i));
        assert(next.last() == blobs[i]);
        if acc > 0 && acc + n > limit {
        } else if acc + n >= limit {
        } else {
            lemma_fill_range(blobs, i + 1, acc + n, limit);
            lemma_fill_bounded(blobs, start, i + 1, acc + n, limit);
        }
    }
}

/// A queue of blobs that are embedded group by group.
pub struct IndexRun {
    pub dim: usize,
    pub limit: usize,
    pub blobs: Vec<ChunkedBlob>,
    /// How many blobs have been stored.
    pub pos: usize,
    /// Where the group that was handed out ends; `pos` where none is out.
    pub end: usize,
    /// The order in which the texts of that group were handed out.
    pub order: Vec<usize>,
    /// How many chunks have been stored.
    pub chunks_done: usize,
}

impl IndexRun {
    /// The queue.
    pub open spec fn queue(&self) -> Seq<ChunkedView> {
        chunked_views(self.blobs@)
    }

    /// The group that is handed out.
    pub open spec fn group(&self) -> Seq<ChunkedView> {
        self.queue().subrange(self.pos as int, self.end as int)
    }

    /// The run is consistent.
    pub open spec fn wf(&self) -> bool {
        &&& self.pos <= self.end <= self.blobs@.len()
        &&& total(self.queue()) <= usize::MAX
        &&& self.chunks_done == total(self.queue().take(self.pos as int))
        &&& forall|i: int|
            0 <= i < self.blobs@.len() ==> (#[trigger] self.blobs@[i]).ranges@.len()
                == self.blobs@[i].texts@.len()
        &&& self.end > self.pos ==> {
            &&& self.end == group_end(self.queue(), self.pos as int, self.limit as nat)
            &&& position_values(self.order@) == text_order(all_texts(self.group()))
        }
    }

    /// How many chunks some blobs have together; `None` where that does not fit.
    pub fn count_chunks(blobs: &Vec<ChunkedBlob>) -> (r: Option<usize>)
        ensures
            r is None <==> total(chunked_views(blobs@)) > usize::MAX,
            r matches Some(n) ==> n == total(chunked_views(blobs@)),
    {
        let ghost all = chunked_views(blobs@);
        let mut sum: usize = 0;
        let mut i: usize = 0;
        assert(total(all.take(0)) == 0);
        while i < blobs.len()
            invariant
                i <= blobs@.len(),
                all == chunked_views(blobs@),
                sum == total(all.take(i as int)),
            decreases blobs@.len() - i,
        {
            proof {
                assert(all.take(i + 1).drop_last() == all.take(i as int));
                assert(all.take(i + 1).last() == blobs@[i as int]@);
                lemma_total_take(all, i + 1, i + 1);
            }
            let n: usize = blobs[i].texts.len();
            if n > usize::MAX - sum {
                return None;
            }
            sum = sum + n;
            i = i + 1;
        }
        assert(all.take(all.len() as int) == all);
        Some(sum)
    }

    /// A run over a queue of blobs.
    pub fn new(blobs: Vec<ChunkedBlob>, dim: usize, limit: usize) -> (r: IndexRun)
        requires
            total(chunked_views(blobs@)) <= usize::MAX,
            forall|i: int|
                0 <= i < blobs@.len() ==> (#[trigger] blobs@[i]).ranges@.len()
                    == blobs@[i].texts@.len(),
        ensures
            r.wf(),
            r.queue() == chunked_views(blobs@),
            r.pos == 0,
            r.end == 0,
            r.dim == dim,
            r.limit == limit,
            r.chunks_done == 0,
    {
        assert(total(chunked_views(blobs@).take(0)) == 0);
        IndexRun { dim, limit, blobs, pos: 0, end: 0, order: Vec::new(), chunks_done: 0 }
    }

    /// Where the next group ends.
    fn find_end(&self) -> (r: usize)
        requires
            self.wf(),
            self.pos < self.blobs@.len(),
        ensures
            r == group_end(self.queue(), self.pos as int, self.limit as nat),
    {
        let ghost all = self.queue();
        let mut acc: usize = 0;
        let mut i: usize = self.pos;
        while i < self.blobs.len()
            invariant
                self.pos <= i <= self.blobs@.len(),
                all == self.queue(),
                acc == 0 || acc < self.limit,
                fill(all, i as int, acc as nat, self.limit as nat) == group_end(
                    all,
                    self.pos as int,
                    self.limit as nat,
                ),
            decreases self.blobs@.len() - i,
        {
            let n: usize = self.blobs[i].texts.len();
            assert(all[i as int] == self.blobs@[i as int]@);
            if acc > 0 && n > self.limit - acc {
                return i;
            }
            if acc == 0 && n >= self.limit || acc > 0 && n == self.limit - acc {
                return i + 1;
            }
            acc = acc + n;
            i = i + 1;
        }
        i
    }

    /// The texts of a run of blobs, in order.
    fn gather_texts(&self, start: usize, end: usize) -> (r: Vec<String>)
        requires
            start <= end <= self.blobs@.len(),
        ensures
            views(r@) == all_texts(self.queue().subrange(start as int, end as int)),
    {
        let ghost all = self.queue();
        let mut out: Vec<String> = Vec::new();
        let mut i: usize = start;
        assert(views(out@) == all_texts(all.subrange(start as int, start as int)));
        while i < end
            invariant
                start <= i <= end <= self.blobs@.len(),
                all == self.queue(),
                views(out@) == all_texts(all.subrange(start as int, i as int)),
            decreases end - i,
        {
            let b = &self.blobs[i];
            let ghost before = views(out@);
            let ghost more = views(b.texts@);
            let mut j: usize = 0;
            assert(before + more.take(0) == before);
            while j < b.texts.len()
                invariant
                    j <= b.texts@.len(),
                    more == views(b.texts@),
                    views(out@) == before + more.take(j as int),
                decreases b.texts@.len() - j,
            {
                let ghost sofar = views(out@);
                out.push(b.texts[j].clone());
                proof {
                    assert(views(out@) == sofar.push(more[j as int]));
                    assert(more.take(j + 1) == more.take(j as int).push(more[j as int]));
                    assert(views(out@) == before + more.take(j + 1));
                }
                j = j + 1;
            }
            proof {
                assert(more.take(more.len() as int) == more);
                let next = all.subrange(start as int, i + 1);
                assert(next.drop_last() == all.subrange(start as int, i as int));
                assert(next.last() == b@);
            }
            i = i + 1;
        }
        out
    }

    /// Hands out the texts of the next group in the order in which they are to be
    /// embedded; `None` when the queue is empty.
    pub fn next_batch(&mut self) -> (r: Option<Vec<String>>)
        requires
            old(self).wf(),
        ensures
            final(self).wf(),
            final(self).queue() == old(self).queue(),
            final(self).pos == old(self).pos,
            final(self).chunks_done == old(self).chunks_done,
            final(self).dim == old(self).dim,
            final(self).limit == old(self).limit,
            r is None <==> old(self).pos == old(self).queue().len(),
            r matches Some(v) ==> final(self).end > final(self).pos && views(v@) == sorted_texts(
                all_texts(final(self).group()),
            ),
    {
        if self.pos == self.blobs.len() {
            return None;
        }
        let end: usize = self.find_end();
        proof {
            law_group_progress(self.queue(), self.pos as int, self.limit as nat);
        }
        let texts = self.gather_texts(self.pos, end);
        let ghost all = views(texts@);
        let order = embedding_order(&texts);
        proof {
            lemma_text_order(all);
            assert(position_values(order@).len() == order@.len());
        }
        let mut i: usize = 0;
        let mut out: Vec<String> = Vec::new();
        while i < order.len()
            invariant
                i <= order@.len(),
                all == views(texts@),
                position_values(order@) == text_order(all),
                order@.len() == texts@.len(),
                forall|k: int| 0 <= k < order@.len() ==> 0 <= #[trigger] text_order(all)[k] < texts@.len(),
                out@.len() == i,
                forall|k: int|
                    0 <= k < i ==> (#[trigger] out@[k])@ == all[text_order(all)[k]],
            decreases order@.len() - i,
        {
            let p: usize = order[i];
            assert(position_values(order@)[i as int] == p as int);
            assert(text_order(all)[i as int] == p);
            out.push(texts[p].clone());
            i = i + 1;
        }
        assert(views(out@) =~= sorted_texts(all));
        self.end = end;
        self.order = order;
        Some(out)
    }
}

impl IndexRun {
    /// Stores the vectors of the group that was handed out: each of its blobs
    /// gets a pending payload. Row `i` of `bits` is the vector of the `i`-th text
    /// that was handed out. The result says whether the group was closed by the
    /// bound, and not by the end of the queue.
    pub fn accept(&mut self, bits: &[u32], store: &mut Store) -> (r: bool)
        requires
            old(self).wf(),
            old(self).end > old(self).pos,
            bits@.len() >= total(old(self).group()) * old(self).dim,
        ensures
            final(self).wf(),
            final(self).queue() == old(self).queue(),
            final(self).pos == old(self).end,
            final(self).end == old(self).end,
            final(self).dim == old(self).dim,
            final(self).limit == old(self).limit,
            final(self).chunks_done == old(self).chunks_done + total(old(self).group()),
            final(store)@ == (StoreView {
                pending: with_payloads(
                    old(store)@.pending,
                    old(self).group(),
                    scattered(
                        text_order(all_texts(old(self).group())),
                        bits@,
                        old(self).dim as nat,
                    ),
                    old(self).dim as nat,
                ),
                order: final(store)@.order,
                dirty: true,
                ..old(store)@
            }),
            ascending(final(store)@.order),
            forall|x: Seq<char>| #[trigger]
                final(store)@.order.contains(x) <==> final(store)@.pending.contains_key(x),
            r == (old(self).end < old(self).queue().len() || total(old(self).group())
                >= old(self).limit),
    {
        let ghost group = self.group();
        let ghost texts = all_texts(group);
        let ghost dim = self.dim as nat;
        let ghost all = self.queue();
        proof {
            lemma_all_texts_len(group);
        }
        proof {
            lemma_text_order(texts);
        }
        let rows = restore_rows(&self.order, bits, self.dim);
        let ghost done = rows@;
        proof {
            assert(rows.len() == rows@.len());
            assert(rows@.len() == total(group) * dim);
            lemma_total_take(all, self.pos as int, self.end as int);
        }
        let mut at: usize = 0;
        let mut i: usize = self.pos;
        let ghost first = self.pos as int;
        assert(total(all.subrange(first, first)) == 0);
        assert(0 * dim == 0) by (nonlinear_arith);
        while i < self.end
            invariant
                self.wf(),
                self.pos <= i <= self.end,
                first == self.pos,
                all == self.queue(),
                dim == self.dim,
                group == all.subrange(first, self.end as int),
                done == rows@,
                rows@.len() == total(group) * dim,
                total(group) <= usize::MAX,
                rows@.len() <= usize::MAX,
                at == total(all.subrange(first, i as int)),
                store@ == (StoreView {
                    pending: with_payloads(
                        old(store)@.pending,
                        all.subrange(first, i as int),
                        done,
                        dim,
                    ),
                    order: store@.order,
                    dirty: store@.dirty,
                    ..old(store)@
                }),
                i > self.pos ==> store@.dirty && ascending(store@.order) && forall|
                    x: Seq<char>,
                | #[trigger]
                    store@.order.contains(x) <==> store@.pending.contains_key(x),
            decreases self.end - i,
        {
            let b = &self.blobs[i];
            let n: usize = b.texts.len();
            let ghost so_far = all.subrange(first, i as int);
            let ghost next = all.subrange(first, i + 1);
            proof {
                assert(next.drop_last() == so_far);
                assert(next.last() == b@);
                assert(group.take(next.len() as int) == next);
                assert(group.take(so_far.len() as int) == so_far);
                lemma_total_take(group, so_far.len() as int, next.len() as int);
                assert(at + n == total(next));
                assert(total(next) <= total(group));
                lemma_mul_inequality(total(next) as int, total(group) as int, dim as int);
                lemma_mul_inequality(at as int, total(next) as int, dim as int);
                assert((at + n) * dim == at * dim + n * dim) by (nonlinear_arith);
            }
            let from: usize = at * self.dim;
            let to: usize = (at + n) * self.dim;
            let part = vstd::slice::slice_subrange(rows.as_slice(), from, to);
            store.insert_chunks(b.sha.as_str(), b.ranges.as_slice(), part, self.dim);
            at = at + n;
            i = i + 1;
        }
        proof {
            lemma_total_take(all, first, self.end as int);
        }
        let full: bool = self.end < self.blobs.len() || at >= self.limit;
        self.chunks_done = self.chunks_done + at;
        self.pos = self.end;
        full
    }
}

/// Every blob of a group has a payload afterwards, and no other blob gets one.
pub proof fn law_group_is_stored(
    pending: Map<Seq<char>, Seq<u8>>,
    group: Seq<ChunkedView>,
    bits: Seq<u32>,
    dim: nat,
    sha: Seq<char>,
)
    ensures
        with_payloads(pending, group, bits, dim).contains_key(sha) <==> pending.contains_key(sha)
            || exists|i: int| 0 <= i < group.len() && (#[trigger] group[i]).sha == sha,
        !(exists|i: int| 0 <= i < group.len() && (#[trigger] group[i]).sha == sha)
            && pending.contains_key(sha) ==> with_payloads(pending, group, bits, dim)[sha]
            == pending[sha],
    decreases group.len(),
{
    if group.len() > 0 {
        let init = group.drop_last();
        law_group_is_stored(pending, init, bits, dim, sha);
        if exists|i: int| 0 <= i < init.len() && (#[trigger] init[i]).sha == sha {
            let i = choose|i: int| 0 <= i < init.len() && (#[trigger] init[i]).sha == sha;
            assert(group[i].sha == sha);
        }
        if exists|i: int| 0 <= i < group.len() && (#[trigger] group[i]).sha == sha {
            let i = choose|i: int| 0 <= i < group.len() && (#[trigger] group[i]).sha == sha;
            if i < init.len() {
                assert(init[i].sha == sha);
            }
        }
        assert(group[group.len() - 1] == group.last());
    }
}

/// The texts of a blob stand in a row in those of its group.
proof fn lemma_texts_of_blob(group: Seq<ChunkedView>, k: int, j: int)
    requires
        0 <= k < group.len(),
        0 <= j < group[k].texts.len(),
    ensures
        total(group.take(k)) + j < all_texts(group).len(),
        all_texts(group)[total(group.take(k)) + j] == group[k].texts[j],
    decreases group.len(),
{
    let init = group.drop_last();
    lemma_all_texts_len(init);
    lemma_all_texts_len(group);
    if k < init.len() {
        assert(init.take(k) == group.take(k));
        assert(init[k] == group[k]);
        lemma_texts_of_blob(init, k, j);
    } else {
        assert(group.take(k) == init);
    }
}

/// The payload that a blob of a group gets.
proof fn lemma_payload_of_blob(
    pending: Map<Seq<char>, Seq<u8>>,
    group: Seq<ChunkedView>,
    bits: Seq<u32>,
    dim: nat,
    k: int,
)
    requires
        0 <= k < group.len(),
        forall|i: int, j: int|
            #![trigger group[i], group[j]]
            0 <= i < j < group.len() ==> group[i].sha != group[j].sha,
    ensures
        with_payloads(pending, group, bits, dim).contains_key(group[k].sha),
        with_payloads(pending, group, bits, dim)[group[k].sha] == packed(
            dim,
            group[k].ranges,
            bits.subrange(
                (total(group.take(k)) * dim) as int,
                (total(group.take(k + 1)) * dim) as int,
            ),
        ),
    decreases group.len(),
{
    let init = group.drop_last();
    if k < init.len() {
        assert forall|i: int, j: int|
            #![trigger init[i], init[j]]
            0 <= i < j < init.len() implies init[i].sha != init[j].sha by {
            assert(init[i] == group[i] && init[j] == group[j]);
        }
        lemma_payload_of_blob(pending, init, bits, dim, k);
        assert(init[k] == group[k]);
        assert(init.take(k) == group.take(k));
        assert(init.take(k + 1) == group.take(k + 1));
        assert(group[k].sha != group[group.len() - 1].sha);
    } else {
        assert(group.take(k) == init);
        assert(group.take(k + 1) == group);
    }
}

/// What is stored for a blob reads as its line ranges and the vectors of its
/// texts, in order, where the embedder gives `vector(t)` for a text `t`.
pub proof fn law_payload_holds_vectors(
    pending: Map<Seq<char>, Seq<u8>>,
    group: Seq<ChunkedView>,
    bits: Seq<u32>,
    dim: nat,
    vector: spec_fn(Seq<char>) -> Seq<u32>,
    k: int,
    j: int,
)
    requires
        0 <= k < group.len(),
        0 <= j < group[k].texts.len(),
        group[k].ranges.len() == group[k].texts.len() <= u32::MAX,
        dim <= u16::MAX,
        forall|a: int, b: int|
            #![trigger group[a], group[b]]
            0 <= a < b < group.len() ==> group[a].sha != group[b].sha,
        bits.len() >= total(group) * dim,
        forall|i: int|
            #![trigger sorted_texts(all_texts(group))[i]]
            0 <= i < total(group) ==> bits.subrange(i * dim, i * dim + dim) == vector(
                sorted_texts(all_texts(group))[i],
            ),
    ensures
        ({
            let rows = scattered(text_order(all_texts(group)), bits, dim);
            let payload = with_payloads(pending, group, rows, dim)[group[k].sha];
            unpacked(payload) matches Ok(v) && v.dim == dim && v.ranges == group[k].ranges
                && v.bits.subrange(j * dim, j * dim + dim) == vector(group[k].texts[j])
        }),
{
    let texts = all_texts(group);
    let rows = scattered(text_order(texts), bits, dim);
    let before = total(group.take(k));
    let after = total(group.take(k + 1));
    lemma_all_texts_len(group);
    lemma_payload_of_blob(pending, group, rows, dim, k);
    lemma_texts_of_blob(group, k, j);
    law_rows_follow_texts(texts, bits, dim, vector, before + j);
    lemma_total_take(group, k, k + 1);
    assert(group.take(k + 1).drop_last() == group.take(k));
    assert(after == before + group[k].texts.len());
    lemma_mul_inequality(before as int, after as int, dim as int);
    lemma_mul_inequality(after as int, total(group) as int, dim as int);
    let part = rows.subrange((before * dim) as int, (after * dim) as int);
    let n = group[k].texts.len();
    assert(after * dim == before * dim + n * dim) by (nonlinear_arith)
        requires
            after == before + n,
    ;
    assert(0 <= before * dim) by (nonlinear_arith)
        requires
            0 <= before,
            0 <= dim,
    ;
    assert(part.len() == n * dim);
    law_unpack_pack(dim, group[k].ranges, part);
    lemma_row_fits(j, n as int, dim as int);
    assert((before + j) * dim == before * dim + j * dim) by (nonlinear_arith);
    assert(part.subrange(j * dim, j * dim + dim) =~= rows.subrange(
        (before + j) * dim,
        (before + j) * dim + dim,
    ));
}

/// A group is closed no sooner than it must be: where blobs are left behind it, it
/// is full, or it holds something and the next one would make it too large. And it
/// is closed no later:
/// what it holds before its last blob is below the bound.
pub proof fn law_group_is_filled(blobs: Seq<ChunkedView>, start: int, limit: nat)
    requires
        0 <= start < blobs.len(),
    ensures
        ({
            let end = group_end(blobs, start, limit);
            let group = blobs.subrange(start, end);
            &&& end < blobs.len() ==> total(group) >= limit || (total(group) > 0 && total(group)
                + blobs[end].texts.len() > limit)
            &&& forall|m: int|
                start < m < end ==> total(#[trigger] blobs.subrange(start, m)) < limit
        }),
{
    assert(total(blobs.subrange(start, start)) == 0);
    lemma_fill_is_maximal(blobs, start, start, 0, limit);
}

proof fn lemma_fill_is_maximal(blobs: Seq<ChunkedView>, start: int, i: int, acc: nat, limit: nat)
    requires
        0 <= start <= i <= blobs.len(),
        acc == total(blobs.subrange(start, i)),
        i > start ==> acc < limit,
        forall|m: int| start < m < i ==> total(#[trigger] blobs.subrange(start, m)) < limit,
    ensures
        ({
            let end = fill(blobs, i, acc, limit);
            let group = blobs.subrange(start, end);
            &&& end < blobs.len() ==> total(group) >= limit || (total(group) > 0 && total(group)
                + blobs[end].texts.len() > limit)
            &&& forall|m: int|
                start < m < end ==> total(#[trigger] blobs.subrange(start, m)) < limit
        }),
    decreases blobs.len() - i,
{
    if i < blobs.len() {
        let n = blobs[i].texts.len();
        let next = blobs.subrange(start, i + 1);
        assert(next.drop_last() == blobs.subrange(start, i));
        assert(next.last() == blobs[i]);
        if acc > 0 && acc + n > limit {
        } else if acc + n >= limit {
        } else {
            lemma_fill_is_maximal(blobs, start, i + 1, acc + n, limit);
        }
    }
}

/// The texts of some blobs and of further ones are those of all of them, in order,
/// and there are as many as they have chunks together.
pub proof fn law_texts_blob_by_blob(a: Seq<ChunkedView>, b: Seq<ChunkedView>, c: ChunkedView)
    ensures
        all_texts(a + b) == all_texts(a) + all_texts(b),
        all_texts(seq![c]) == c.texts,
        total(a + b) == total(a) + total(b),
        total(a) == all_texts(a).len(),
    decreases b.len(),
{
    lemma_all_texts_len(a);
    assert(seq![c].drop_last() == Seq::<ChunkedView>::empty());
    assert(all_texts(seq![c].drop_last()) == Seq::<Seq<char>>::empty());
    assert(Seq::<Seq<char>>::empty() + c.texts == c.texts);
    if b.len() == 0 {
        assert(a + b == a);
    } else {
        law_texts_blob_by_blob(a, b.drop_last(), c);
        assert((a + b).drop_last() == a + b.drop_last());
        assert((a + b).last() == b.last());
    }
}

/// A blob in chunks keeps every chunk of its file, in order: the lines of each, and
/// the text of each.
pub proof fn law_blob_keeps_chunks(sha: Seq<char>, chunks: Seq<ChunkView>, i: int)
    requires
        0 <= i < chunks.len(),
    ensures
        chunked(sha, chunks).sha == sha,
        chunked(sha, chunks).ranges.len() == chunks.len(),
        chunked(sha, chunks).texts.len() == chunks.len(),
        chunked(sha, chunks).ranges[i].0 == chunks[i].start_line,
        chunked(sha, chunks).ranges[i].1 == chunks[i].end_line,
        chunked(sha, chunks).texts[i] == chunks[i].text,
{
}

/// The bound is the number that the user writes, if it fits a machine word, and
/// 512 otherwise.
pub proof fn law_group_limit(n: nat, s: Seq<char>)
    ensures
        n <= usize::MAX ==> group_limit(Some(decimal(n))) == n,
        n > usize::MAX ==> group_limit(Some(decimal(n))) == 512,
        parsed(s) is None ==> group_limit(Some(s)) == 512,
        group_limit(None) == 512,
{
    law_decimal_parses(n);
}

/// What is stored for a blob reads as its line ranges and, for each of its texts, the
/// row that came back for that text, in whatever place it was handed out.
pub proof fn law_payload_holds_rows(
    pending: Map<Seq<char>, Seq<u8>>,
    group: Seq<ChunkedView>,
    bits: Seq<u32>,
    dim: nat,
    k: int,
    j: int,
) -> (i: int)
    requires
        0 <= k < group.len(),
        0 <= j < group[k].texts.len(),
        group[k].ranges.len() == group[k].texts.len() <= u32::MAX,
        dim <= u16::MAX,
        forall|a: int, b: int|
            #![trigger group[a], group[b]]
            0 <= a < b < group.len() ==> group[a].sha != group[b].sha,
        bits.len() >= total(group) * dim,
    ensures
        0 <= i < total(group),
        sorted_texts(all_texts(group))[i] == group[k].texts[j],
        ({
            let rows = scattered(text_order(all_texts(group)), bits, dim);
            let pending_now = with_payloads(pending, group, rows, dim);
            let v = unpacked(pending_now[group[k].sha])->Ok_0;
            &&& pending_now.contains_key(group[k].sha)
            &&& unpacked(pending_now[group[k].sha]) is Ok
            &&& v.dim == dim
            &&& v.ranges == group[k].ranges
            &&& v.bits.len() == group[k].texts.len() * dim
            &&& v.bits.subrange(j * dim, j * dim + dim) == bits.subrange(i * dim, i * dim + dim)
        }),
{
    let texts = all_texts(group);
    let order = text_order(texts);
    let rows = scattered(order, bits, dim);
    let before = total(group.take(k));
    let after = total(group.take(k + 1));
    lemma_all_texts_len(group);
    lemma_payload_of_blob(pending, group, rows, dim, k);
    lemma_texts_of_blob(group, k, j);
    lemma_text_order(texts);
    let t = before + j;
    assert(order.contains(t));
    let i = choose|i: int| 0 <= i < order.len() && order[i] == t;
    law_rows_go_back(order, bits, dim, i);
    lemma_total_take(group, k, k + 1);
    assert(group.take(k + 1).drop_last() == group.take(k));
    assert(after == before + group[k].texts.len());
    lemma_mul_inequality(before as int, after as int, dim as int);
    lemma_mul_inequality(after as int, total(group) as int, dim as int);
    let part = rows.subrange((before * dim) as int, (after * dim) as int);
    let n = group[k].texts.len();
    assert(after * dim == before * dim + n * dim) by (nonlinear_arith)
        requires
            after == before + n,
    ;
    assert(0 <= before * dim) by (nonlinear_arith)
        requires
            0 <= before,
            0 <= dim,
    ;
    assert(part.len() == n * dim);
    law_unpack_pack(dim, group[k].ranges, part);
    lemma_row_fits(j, n as int, dim as int);
    assert((before + j) * dim == before * dim + j * dim) by (nonlinear_arith);
    assert(part.subrange(j * dim, j * dim + dim) =~= rows.subrange(t * dim, t * dim + dim));
    i
}

} // verus!
