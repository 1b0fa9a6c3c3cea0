//! A whole index run: the commits that it makes, and what they leave in the ref.

use vstd::prelude::*;

use crate::groups::{group_end, law_group_is_stored, law_group_progress, with_payloads, ChunkedView};
use crate::indexer::{
    held_shas, law_cached_blobs_are_not_embedded, planned_shas, planned_views, plans, IndexPlan,
    TrackedBlobView,
};
use crate::notes::{is_object_name, path_sha};
use crate::sorted::ascending;
use crate::store::{
    law_commit_annotates, law_commit_keeps_note, law_listed_tree_annotates, lists_note,
    lists_tree, proper, shows, tree_of, SourceView, StoreView,
};

verus! {

/// Where the `k`-th group of a queue starts, counted from 0.
pub open spec fn group_start(queue: Seq<ChunkedView>, limit: nat, k: nat) -> int
    decreases k,
{
    if k == 0 {
        0
    } else {
        let before = group_start(queue, limit, (k - 1) as nat);
        if before < queue.len() {
            group_end(queue, before, limit)
        } else {
            queue.len() as int
        }
    }
}

/// The `k`-th group of a queue, counted from 0.
pub open spec fn nth_group(queue: Seq<ChunkedView>, limit: nat, k: nat) -> Seq<ChunkedView> {
    queue.subrange(group_start(queue, limit, k), group_start(queue, limit, k + 1))
}

/// What a store with nothing pending commits after it has got the vectors of a
/// group: their payloads, and nothing is dropped.
pub open spec fn commits_group(
    store: StoreView,
    group: Seq<ChunkedView>,
    bits: Seq<u32>,
    dim: nat,
) -> bool {
    &&& store.pending == with_payloads(Map::empty(), group, bits, dim)
    &&& ascending(store.order)
    &&& forall|x: Seq<char>| #[trigger] store.order.contains(x) <==> store.pending.contains_key(x)
    &&& store.referenced is None
    &&& store.removed.len() == 0
}

/// An index run as far as it has come: commit `k` is that of the `k`-th group of
/// the queue with the vectors `bits[k]`. `listings[k]` is what git lists before
/// it, and `listings[k + 1]` what git lists afterwards.
pub open spec fn is_run(
    queue: Seq<ChunkedView>,
    limit: nat,
    dim: nat,
    bits: Seq<Seq<u32>>,
    commits: Seq<StoreView>,
    listings: Seq<Seq<(Seq<char>, Seq<char>)>>,
) -> bool {
    &&& bits.len() == commits.len()
    &&& listings.len() == commits.len() + 1
    &&& forall|k: int|
        0 <= k < commits.len() ==> group_start(queue, limit, k as nat) < queue.len()
            && commits_group(
            #[trigger] commits[k],
            nth_group(queue, limit, k as nat),
            bits[k],
            dim,
        )
    &&& forall|k: int|
        0 <= k < commits.len() ==> lists_tree(
            listings[k + 1],
            tree_of(#[trigger] commits[k], listings[k]),
        )
}

/// A queue holds only blobs that a plan has to embed.
pub open spec fn queues(queue: Seq<ChunkedView>, plan: IndexPlan) -> bool {
    forall|i: int|
        0 <= i < queue.len() ==> planned_shas(planned_views(plan.to_embed@)).contains(
            (#[trigger] queue[i]).sha,
        )
}

/// A queue holds a blob.
pub open spec fn in_queue(queue: Seq<ChunkedView>, sha: Seq<char>) -> bool {
    exists|i: int| 0 <= i < queue.len() && (#[trigger] queue[i]).sha == sha
}

/// Groups lie one behind the other in the queue.
proof fn lemma_group_start(queue: Seq<ChunkedView>, limit: nat, k: nat)
    ensures
        0 <= group_start(queue, limit, k) <= group_start(queue, limit, k + 1) <= queue.len(),
    decreases k,
{
    if k > 0 {
        lemma_group_start(queue, limit, (k - 1) as nat);
    } else {
        assert(group_start(queue, limit, 0) == 0);
    }
    let start = group_start(queue, limit, k);
    if start < queue.len() {
        law_group_progress(queue, start, limit);
    }
}

/// The blobs that a commit of a run writes are those of its group.
proof fn lemma_pending_is_group(
    store: StoreView,
    group: Seq<ChunkedView>,
    bits: Seq<u32>,
    dim: nat,
    sha: Seq<char>,
)
    requires
        commits_group(store, group, bits, dim),
    ensures
        store.pending.contains_key(sha) <==> in_queue(group, sha),
{
    law_group_is_stored(Map::empty(), group, bits, dim, sha);
}

/// What a group holds is in the queue.
proof fn lemma_group_in_queue(queue: Seq<ChunkedView>, limit: nat, k: nat, sha: Seq<char>)
    requires
        in_queue(nth_group(queue, limit, k), sha),
    ensures
        in_queue(queue, sha),
{
    lemma_group_start(queue, limit, k);
    let group = nth_group(queue, limit, k);
    let i = choose|i: int| 0 <= i < group.len() && (#[trigger] group[i]).sha == sha;
    assert(queue[group_start(queue, limit, k) + i] == group[i]);
}

/// The blobs that a commit of a run writes have names.
proof fn lemma_commit_proper(
    queue: Seq<ChunkedView>,
    limit: nat,
    dim: nat,
    bits: Seq<Seq<u32>>,
    commits: Seq<StoreView>,
    listings: Seq<Seq<(Seq<char>, Seq<char>)>>,
    k: int,
)
    requires
        is_run(queue, limit, dim, bits, commits, listings),
        forall|i: int| 0 <= i < queue.len() ==> is_object_name((#[trigger] queue[i]).sha),
        0 <= k < commits.len(),
    ensures
        proper(commits[k]),
{
    let group = nth_group(queue, limit, k as nat);
    assert(commits_group(commits[k], group, bits[k], dim));
    assert forall|x: Seq<char>| #[trigger]
        commits[k].pending.contains_key(x) implies is_object_name(x) by {
        lemma_pending_is_group(commits[k], group, bits[k], dim, x);
        lemma_group_in_queue(queue, limit, k as nat, x);
        let i = choose|i: int| 0 <= i < queue.len() && (#[trigger] queue[i]).sha == x;
        assert(is_object_name(queue[i].sha));
    }
}

/// An index run is append-only. Every note that stood at the path of a blob before
/// a run stands there after each of its commits, and is the same object: notes of
/// other branches and of interrupted runs are neither pruned nor rewritten,
/// wherever the run ends.
pub proof fn law_run_keeps_notes(
    plan: IndexPlan,
    held: Seq<TrackedBlobView>,
    known: Seq<Seq<char>>,
    queue: Seq<ChunkedView>,
    limit: nat,
    dim: nat,
    bits: Seq<Seq<u32>>,
    commits: Seq<StoreView>,
    listings: Seq<Seq<(Seq<char>, Seq<char>)>>,
    k: int,
    j: int,
)
    requires
        plans(plan, held, known),
        queues(queue, plan),
        is_run(queue, limit, dim, bits, commits, listings),
        forall|x: Seq<char>| #[trigger] lists_note(listings[0], x) ==> known.contains(x),
        0 <= k <= commits.len(),
        0 <= j < listings[0].len(),
        path_sha(listings[0][j].0) is Some,
    ensures
        listings[k].contains(listings[0][j]),
    decreases k,
{
    let note = listings[0][j];
    let sha = path_sha(note.0)->0;
    if k > 0 {
        law_run_keeps_notes(
            plan,
            held,
            known,
            queue,
            limit,
            dim,
            bits,
            commits,
            listings,
            k - 1,
            j,
        );
        let before = listings[k - 1];
        let store = commits[k - 1];
        let group = nth_group(queue, limit, (k - 1) as nat);
        let tree = tree_of(store, before);
        let e = (note.0, SourceView::Oid(note.1));
        assert(commits_group(store, group, bits[k - 1], dim));
        assert(lists_note(listings[0], sha));
        assert(!store.pending.contains_key(sha)) by {
            lemma_pending_is_group(store, group, bits[k - 1], dim, sha);
            if in_queue(group, sha) {
                lemma_group_in_queue(queue, limit, (k - 1) as nat, sha);
                let i = choose|i: int| 0 <= i < queue.len() && (#[trigger] queue[i]).sha == sha;
                assert(planned_shas(planned_views(plan.to_embed@)).contains(queue[i].sha));
            }
        }
        let m = choose|m: int| 0 <= m < before.len() && before[m] == note;
        law_commit_keeps_note(store, before, m);
        assert(tree.contains(e));
        let t = choose|t: int| 0 <= t < tree.len() && tree[t] == e;
        assert(lists_tree(listings[(k - 1) + 1], tree_of(commits[k - 1], listings[k - 1])));
        assert(shows(listings[k], tree[t]));
        let n = choose|n: int|
            0 <= n < listings[k].len() && (#[trigger] listings[k][n]).0 == e.0 && (
            e.1 matches SourceView::Oid(o) ==> listings[k][n].1 == o);
        assert(listings[k][n] == note);
    } else {
        assert(listings[0][j] == note);
    }
}

/// After some commits of a run, the blobs of its first groups have notes.
proof fn lemma_run_annotates(
    queue: Seq<ChunkedView>,
    limit: nat,
    dim: nat,
    bits: Seq<Seq<u32>>,
    commits: Seq<StoreView>,
    listings: Seq<Seq<(Seq<char>, Seq<char>)>>,
    k: int,
    sha: Seq<char>,
)
    requires
        is_run(queue, limit, dim, bits, commits, listings),
        forall|i: int| 0 <= i < queue.len() ==> is_object_name((#[trigger] queue[i]).sha),
        0 <= k <= commits.len(),
        lists_note(listings[0], sha) || in_queue(
            queue.take(group_start(queue, limit, k as nat)),
            sha,
        ),
    ensures
        lists_note(listings[k], sha),
    decreases k,
{
    if k > 0 {
        let store = commits[k - 1];
        let group = nth_group(queue, limit, (k - 1) as nat);
        let start = group_start(queue, limit, (k - 1) as nat);
        let end = group_start(queue, limit, k as nat);
        lemma_group_start(queue, limit, (k - 1) as nat);
        assert(commits_group(store, group, bits[k - 1], dim));
        lemma_commit_proper(queue, limit, dim, bits, commits, listings, k - 1);
        lemma_pending_is_group(store, group, bits[k - 1], dim, sha);
        if in_queue(queue.take(end), sha) {
            let i = choose|i: int|
                0 <= i < queue.take(end).len() && (#[trigger] queue.take(end)[i]).sha == sha;
            if i < start {
                assert(queue.take(start)[i].sha == sha);
                assert(in_queue(queue.take(start), sha));
            } else {
                assert(group[i - start].sha == sha);
                assert(in_queue(group, sha));
            }
        }
        if lists_note(listings[0], sha) || in_queue(queue.take(start), sha) {
            lemma_run_annotates(queue, limit, dim, bits, commits, listings, k - 1, sha);
        }
        law_commit_annotates(store, listings[k - 1], sha);
        assert(lists_tree(listings[(k - 1) + 1], tree_of(commits[k - 1], listings[k - 1])));
        law_listed_tree_annotates(listings[k], tree_of(store, listings[k - 1]), sha);
    } else {
        assert(queue.take(0).len() == 0);
    }
}

/// A run that skips no blob and comes to the end of its queue leaves every tracked
/// blob with a note.
pub proof fn law_run_annotates_every_blob(
    plan: IndexPlan,
    held: Seq<TrackedBlobView>,
    known: Seq<Seq<char>>,
    queue: Seq<ChunkedView>,
    limit: nat,
    dim: nat,
    bits: Seq<Seq<u32>>,
    commits: Seq<StoreView>,
    listings: Seq<Seq<(Seq<char>, Seq<char>)>>,
    i: int,
)
    requires
        plans(plan, held, known),
        forall|a: int| 0 <= a < held.len() ==> is_object_name((#[trigger] held[a]).sha),
        queue.len() == plan.to_embed@.len(),
        forall|a: int|
            0 <= a < queue.len() ==> (#[trigger] queue[a]).sha == plan.to_embed@[a].sha@,
        is_run(queue, limit, dim, bits, commits, listings),
        group_start(queue, limit, commits.len()) == queue.len(),
        forall|x: Seq<char>| #[trigger] known.contains(x) ==> lists_note(listings[0], x),
        0 <= i < held.len(),
    ensures
        lists_note(listings[commits.len() as int], held[i].sha),
{
    let sha = held[i].sha;
    let todo = planned_shas(planned_views(plan.to_embed@));
    assert(held_shas(held)[i] == sha);
    assert forall|a: int| 0 <= a < queue.len() implies is_object_name((#[trigger] queue[a]).sha) by {
        assert(todo[a] == queue[a].sha);
        assert(todo.contains(queue[a].sha));
        assert(held_shas(held).contains(queue[a].sha));
        let b = choose|b: int| 0 <= b < held_shas(held).len() && held_shas(held)[b] == queue[a].sha;
        assert(held[b].sha == queue[a].sha);
    }
    if !known.contains(sha) {
        assert(todo.contains(sha));
        let a = choose|a: int| 0 <= a < todo.len() && todo[a] == sha;
        assert(queue[a].sha == sha);
        assert(queue.take(queue.len() as int) == queue);
        assert(in_queue(queue, sha));
    }
    lemma_run_annotates(
        queue,
        limit,
        dim,
        bits,
        commits,
        listings,
        commits.len() as int,
        sha,
    );
}

/// A second run embeds nothing: after a run that skipped no blob and came to its
/// end, a plan on the same files and the ref as it then stands has nothing to
/// embed, and counts every blob as cached.
pub proof fn law_second_run_embeds_nothing(
    plan: IndexPlan,
    held: Seq<TrackedBlobView>,
    known: Seq<Seq<char>>,
    queue: Seq<ChunkedView>,
    limit: nat,
    dim: nat,
    bits: Seq<Seq<u32>>,
    commits: Seq<StoreView>,
    listings: Seq<Seq<(Seq<char>, Seq<char>)>>,
    again: IndexPlan,
    known_again: Seq<Seq<char>>,
)
    requires
        plans(plan, held, known),
        forall|a: int| 0 <= a < held.len() ==> is_object_name((#[trigger] held[a]).sha),
        queue.len() == plan.to_embed@.len(),
        forall|a: int|
            0 <= a < queue.len() ==> (#[trigger] queue[a]).sha == plan.to_embed@[a].sha@,
        is_run(queue, limit, dim, bits, commits, listings),
        group_start(queue, limit, commits.len()) == queue.len(),
        forall|x: Seq<char>| #[trigger] known.contains(x) ==> lists_note(listings[0], x),
        forall|x: Seq<char>| #[trigger]
            lists_note(listings[commits.len() as int], x) ==> known_again.contains(x),
        plans(again, held, known_again),
    ensures
        again.to_embed@.len() == 0,
        again.blobs_already_cached == again.blobs_unique,
{
    assert forall|i: int| 0 <= i < held.len() implies known_again.contains((#[trigger] held[i]).sha) by {
        law_run_annotates_every_blob(
            plan,
            held,
            known,
            queue,
            limit,
            dim,
            bits,
            commits,
            listings,
            i,
        );
    }
    law_cached_blobs_are_not_embedded(again, held, known_again);
}

} // verus!
