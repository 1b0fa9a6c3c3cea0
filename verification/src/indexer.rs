//! Bring the cache up to date with the current repo state.
//!
//! The cache is an append-only union of source blob SHAs seen in any worktree.
//! No path mapping is stored: paths are reconstructed at search time from
//! `git ls-files -s`, and search only loads payloads referenced by the current
//! worktree.
//!
//! Algorithm:
//!   1. `git ls-files -s` -> (path, index_blob_sha) per tracked file.
//!   2. `git diff --name-only` -> paths whose working tree differs from the
//!      index; for these, the blob SHA is that of the bytes on disk.
//!   3. target = set of unique blob_shas for tracked textual files.
//!   4. known = the blobs that have a note.
//!   5. Embed target - known, checkpointing each bounded group.
//!   6. Keep existing notes so other branches and interrupted runs stay cached.

use vstd::prelude::*;
use vstd::string::*;

use crate::number::{decimal, push_decimal};
use crate::repo::{
    blob_name, git_blob_sha1, list_tracked, looks_textual, modified_paths, path_records, textual,
    tracked_records, tracked_views, NotUtf8, TrackedFileView,
};
use crate::sorted::{ascending, lemma_ascending_index, lemma_filter_ascending, precedes, StrMap, StrSet};
use crate::text::{law_occurs, occurs, occurs_at, split_on, views};

verus! {

/// A tracked file and the blob that it holds.
#[derive(Debug, Clone)]
pub struct TrackedBlob {
    pub path: String,
    pub sha: String,
    /// Whether `sha` was computed from the bytes on disk.
    pub raw_sha: bool,
}

/// The model of a tracked file and its blob.
pub struct TrackedBlobView {
    pub path: Seq<char>,
    pub sha: Seq<char>,
    pub raw_sha: bool,
}

impl View for TrackedBlob {
    type V = TrackedBlobView;

    open spec fn view(&self) -> TrackedBlobView {
        TrackedBlobView { path: self.path@, sha: self.sha@, raw_sha: self.raw_sha }
    }
}

/// The views of a sequence of tracked files.
pub open spec fn blob_views(v: Seq<TrackedBlob>) -> Seq<TrackedBlobView> {
    v.map_values(|b: TrackedBlob| b@)
}

/// The contents of files, by path.
pub open spec fn contents_view(m: Map<Seq<char>, Vec<u8>>) -> Map<Seq<char>, Seq<u8>> {
    m.map_values(|v: Vec<u8>| v@)
}

/// The textual files among the tracked ones, with their blobs: that of the index,
/// or that of the bytes on disk where those differ from the index. A file that
/// differs and cannot be read is left out.
pub open spec fn tracked_blobs(
    files: Seq<TrackedFileView>,
    modified: Seq<Seq<char>>,
    contents: Map<Seq<char>, Seq<u8>>,
) -> Seq<TrackedBlobView>
    decreases files.len(),
{
    if files.len() == 0 {
        Seq::empty()
    } else {
        let before = tracked_blobs(files.drop_last(), modified, contents);
        let f = files.last();
        if !textual(f.path) {
            before
        } else if !modified.contains(f.path) {
            before.push(TrackedBlobView { path: f.path, sha: f.index_blob_sha, raw_sha: false })
        } else if contents.contains_key(f.path) {
            before.push(
                TrackedBlobView { path: f.path, sha: blob_name(contents[f.path]), raw_sha: true },
            )
        } else {
            before
        }
    }
}

/// The textual files among the tracked ones that differ from the index.
pub open spec fn modified_textual(
    files: Seq<TrackedFileView>,
    modified: Seq<Seq<char>>,
) -> Seq<Seq<char>>
    decreases files.len(),
{
    if files.len() == 0 {
        Seq::empty()
    } else {
        let before = modified_textual(files.drop_last(), modified);
        let p = files.last().path;
        if textual(p) && modified.contains(p) {
            before.push(p)
        } else {
            before
        }
    }
}

/// Both answers of git can be read.
pub open spec fn readable(ls_files: Seq<u8>, diff: Seq<u8>) -> bool {
    tracked_records(split_on(ls_files, 0u8)) is Ok && path_records(split_on(diff, 0u8)) is Ok
}

/// The files that `git ls-files -s -z` lists.
pub open spec fn listed_files(ls_files: Seq<u8>) -> Seq<TrackedFileView> {
    tracked_records(split_on(ls_files, 0u8))->Ok_0
}

/// The paths that `git diff --name-only -z` lists.
pub open spec fn listed_paths(diff: Seq<u8>) -> Seq<Seq<char>> {
    path_records(split_on(diff, 0u8))->Ok_0
}

/// The files whose bytes on disk decide which blob they hold.
pub fn paths_to_hash(ls_files: &[u8], diff: &[u8]) -> (r: Result<Vec<String>, NotUtf8>)
    ensures
        r is Ok <==> readable(ls_files@, diff@),
        r matches Ok(v) ==> views(v@) == modified_textual(
            listed_files(ls_files@),
            listed_paths(diff@),
        ),
{
    let files = match list_tracked(ls_files) {
        Ok(v) => v,
        Err(e) => {
            return Err(e);
        },
    };
    let paths = match modified_paths(diff) {
        Ok(v) => v,
        Err(e) => {
            return Err(e);
        },
    };
    let ghost listed = views(paths@);
    let modified = StrSet::from_vec(paths);
    let ghost all = tracked_views(files@);
    let mut out: Vec<String> = Vec::new();
    let mut i: usize = 0;
    assert(views(out@) == modified_textual(all.take(0), listed));
    while i < files.len()
        invariant
            i <= files@.len(),
            all == tracked_views(files@),
            forall|x: Seq<char>| #[trigger] modified@.contains(x) <==> listed.contains(x),
            views(out@) == modified_textual(all.take(i as int), listed),
        decreases files@.len() - i,
    {
        let ghost before = views(out@);
        proof {
            assert(all.take(i + 1).drop_last() == all.take(i as int));
            assert(all.take(i + 1).last() == files@[i as int]@);
        }
        if looks_textual(files[i].path.as_str()) && modified.contains(files[i].path.as_str()) {
            out.push(files[i].path.clone());
            assert(views(out@) == before.push(files@[i as int].path@));
        }
        i = i + 1;
    }
    assert(all.take(all.len() as int) == all);
    Ok(out)
}

/// The tracked textual files and their blobs, from what `git ls-files -s -z` and
/// `git diff --name-only -z` print and from the bytes of the files that differ.
pub fn list_tracked_with_blob_details(
    ls_files: &[u8],
    diff: &[u8],
    contents: &StrMap<Vec<u8>>,
) -> (r: Result<Vec<TrackedBlob>, NotUtf8>)
    ensures
        r is Ok <==> readable(ls_files@, diff@),
        r matches Ok(v) ==> blob_views(v@) == tracked_blobs(
            listed_files(ls_files@),
            listed_paths(diff@),
            contents_view(contents@),
        ),
{
    let files = match list_tracked(ls_files) {
        Ok(v) => v,
        Err(e) => {
            return Err(e);
        },
    };
    let paths = match modified_paths(diff) {
        Ok(v) => v,
        Err(e) => {
            return Err(e);
        },
    };
    let ghost listed = views(paths@);
    let ghost disk = contents_view(contents@);
    let modified = StrSet::from_vec(paths);
    let ghost all = tracked_views(files@);
    let mut out: Vec<TrackedBlob> = Vec::new();
    let mut i: usize = 0;
    assert(blob_views(out@) == tracked_blobs(all.take(0), listed, disk));
    while i < files.len()
        invariant
            i <= files@.len(),
            all == tracked_views(files@),
            disk == contents_view(contents@),
            forall|x: Seq<char>| #[trigger] modified@.contains(x) <==> listed.contains(x),
            blob_views(out@) == tracked_blobs(all.take(i as int), listed, disk),
        decreases files@.len() - i,
    {
        let ghost before = blob_views(out@);
        let f = &files[i];
        proof {
            assert(all.take(i + 1).drop_last() == all.take(i as int));
            assert(all.take(i + 1).last() == f@);
        }
        if looks_textual(f.path.as_str()) {
            if modified.contains(f.path.as_str()) {
                match contents.get(f.path.as_str()) {
                    Some(bytes) => {
                        let b = TrackedBlob {
                            path: f.path.clone(),
                            sha: git_blob_sha1(bytes.as_slice()),
                            raw_sha: true,
                        };
                        let ghost x = b@;
                        out.push(b);
                        assert(blob_views(out@) == before.push(x));
                    },
                    None => {},
                }
            } else {
                let b = TrackedBlob {
                    path: f.path.clone(),
                    sha: f.index_blob_sha.clone(),
                    raw_sha: false,
                };
                let ghost x = b@;
                out.push(b);
                assert(blob_views(out@) == before.push(x));
            }
        }
        i = i + 1;
    }
    assert(all.take(all.len() as int) == all);
    Ok(out)
}

/// The path and the blob of each tracked file.
pub open spec fn path_and_sha(v: Seq<TrackedBlobView>) -> Seq<(Seq<char>, Seq<char>)> {
    v.map_values(|b: TrackedBlobView| (b.path, b.sha))
}

/// (path, blob_sha) for every tracked textual file.
pub fn list_tracked_with_blobs(
    ls_files: &[u8],
    diff: &[u8],
    contents: &StrMap<Vec<u8>>,
) -> (r: Result<Vec<(String, String)>, NotUtf8>)
    ensures
        r is Ok <==> readable(ls_files@, diff@),
        r matches Ok(v) ==> v@.map_values(|p: (String, String)| (p.0@, p.1@)) == path_and_sha(
            tracked_blobs(
                listed_files(ls_files@),
                listed_paths(diff@),
                contents_view(contents@),
            ),
        ),
{
    let blobs = match list_tracked_with_blob_details(ls_files, diff, contents) {
        Ok(v) => v,
        Err(e) => {
            return Err(e);
        },
    };
    let mut out: Vec<(String, String)> = Vec::new();
    let mut i: usize = 0;
    while i < blobs.len()
        invariant
            i <= blobs@.len(),
            out@.len() == i,
            forall|k: int|
                0 <= k < i ==> (#[trigger] out@[k]).0@ == blobs@[k].path@ && out@[k].1@
                    == blobs@[k].sha@,
        decreases blobs@.len() - i,
    {
        out.push((blobs[i].path.clone(), blobs[i].sha.clone()));
        i = i + 1;
    }
    proof {
        assert(out@.map_values(|p: (String, String)| (p.0@, p.1@)) =~= path_and_sha(
            blob_views(blobs@),
        ));
    }
    Ok(out)
}

/// A blob to embed, and the file whose bytes it is read from.
pub struct Planned {
    pub sha: String,
    pub path: String,
    /// Whether the bytes must hash to `sha`.
    pub verify_raw_sha: bool,
}

/// The model of a blob to embed.
pub struct PlannedView {
    pub sha: Seq<char>,
    pub path: Seq<char>,
    pub verify_raw_sha: bool,
}

impl View for Planned {
    type V = PlannedView;

    open spec fn view(&self) -> PlannedView {
        PlannedView { sha: self.sha@, path: self.path@, verify_raw_sha: self.verify_raw_sha }
    }
}

/// The views of a sequence of blobs to embed.
pub open spec fn planned_views(v: Seq<Planned>) -> Seq<PlannedView> {
    v.map_values(|p: Planned| p@)
}

/// The path of the first file that holds a blob; with `raw`, of the first whose
/// blob was computed from the bytes on disk.
pub open spec fn first_path(
    held: Seq<TrackedBlobView>,
    sha: Seq<char>,
    raw: bool,
) -> Option<Seq<char>>
    decreases held.len(),
{
    if held.len() == 0 {
        None
    } else {
        match first_path(held.drop_last(), sha, raw) {
            Some(p) => Some(p),
            None => if held.last().sha == sha && (raw ==> held.last().raw_sha) {
                Some(held.last().path)
            } else {
                None
            },
        }
    }
}

/// One canonical path per blob. A path whose SHA was computed from raw
/// working-tree bytes is preferred, since that is the only case where raw hashing
/// is valid in the presence of git clean filters and line-ending normalization.
pub open spec fn planned(held: Seq<TrackedBlobView>, sha: Seq<char>) -> PlannedView {
    match first_path(held, sha, true) {
        Some(path) => PlannedView { sha, path, verify_raw_sha: true },
        None => PlannedView {
            sha,
            path: first_path(held, sha, false)->0,
            verify_raw_sha: false,
        },
    }
}

/// The blobs that the tracked files hold.
pub open spec fn held_shas(held: Seq<TrackedBlobView>) -> Seq<Seq<char>> {
    held.map_values(|b: TrackedBlobView| b.sha)
}

/// What an index run has to do.
pub struct IndexPlan {
    pub files_total: usize,
    pub blobs_unique: usize,
    pub blobs_already_cached: usize,
    /// The blobs to embed, in ascending order.
    pub to_embed: Vec<Planned>,
}

/// The blobs of a sequence of planned ones.
pub open spec fn planned_shas(v: Seq<PlannedView>) -> Seq<Seq<char>> {
    v.map_values(|p: PlannedView| p.sha)
}

/// What a plan says of the tracked files and the blobs that have a note.
pub open spec fn plans(plan: IndexPlan, held: Seq<TrackedBlobView>, known: Seq<Seq<char>>) -> bool {
    let todo = planned_views(plan.to_embed@);
    &&& plan.files_total == held.len()
    &&& ascending(planned_shas(todo))
    &&& forall|x: Seq<char>| #[trigger]
        planned_shas(todo).contains(x) <==> held_shas(held).contains(x) && !known.contains(x)
    &&& forall|i: int| 0 <= i < todo.len() ==> #[trigger] todo[i] == planned(held, todo[i].sha)
    &&& exists|target: Seq<Seq<char>>| #[trigger]
        is_target(target, held) && plan.blobs_unique == target.len()
            && plan.blobs_already_cached == target.filter(|x: Seq<char>| known.contains(x)).len()
    &&& plan.blobs_unique == plan.blobs_already_cached + todo.len()
}

/// The unique blobs of the tracked files, in ascending order.
pub open spec fn is_target(target: Seq<Seq<char>>, held: Seq<TrackedBlobView>) -> bool {
    &&& ascending(target)
    &&& forall|x: Seq<char>| #[trigger] target.contains(x) <==> held_shas(held).contains(x)
}

/// What is kept and what is left out make up the whole.
pub proof fn lemma_filter_parts(s: Seq<Seq<char>>, known: Seq<Seq<char>>)
    ensures
        s.filter(|x: Seq<char>| known.contains(x)).len() + s.filter(
            |x: Seq<char>| !known.contains(x),
        ).len() == s.len(),
    decreases s.len(),
{
    reveal(Seq::filter);
    if s.len() > 0 {
        lemma_filter_parts(s.drop_last(), known);
    }
}

/// A blob that a file holds has a first path, and one that no file holds has
/// none.
pub proof fn lemma_first_path(held: Seq<TrackedBlobView>, sha: Seq<char>)
    ensures
        first_path(held, sha, false) is Some <==> held_shas(held).contains(sha),
        first_path(held, sha, true) is Some ==> first_path(held, sha, false) is Some,
    decreases held.len(),
{
    if held.len() > 0 {
        let init = held.drop_last();
        lemma_first_path(init, sha);
        let all = held_shas(held);
        assert(all.drop_last() == held_shas(init));
        assert(all.last() == held.last().sha);
        if held_shas(init).contains(sha) {
            let i = choose|i: int| 0 <= i < init.len() && held_shas(init)[i] == sha;
            assert(all[i] == sha);
        }
        if all.contains(sha) {
            let i = choose|i: int| 0 <= i < all.len() && all[i] == sha;
            if i < init.len() {
                assert(held_shas(init)[i] == sha);
            }
        }
        if held.last().sha == sha {
            assert(all[all.len() - 1] == sha);
        }
    }
}

/// The canonical path of a blob, and whether its SHA is that of raw bytes.
struct Source {
    path: String,
    raw: bool,
}

/// The sources of the blobs of the first `n` tracked files.
spec fn sources_of(m: Map<Seq<char>, Source>, held: Seq<TrackedBlobView>) -> bool {
    forall|sha: Seq<char>|
        #![trigger m.contains_key(sha)]
        {
            &&& m.contains_key(sha) <==> first_path(held, sha, false) is Some
            &&& m.contains_key(sha) ==> planned(held, sha) == (PlannedView {
                sha,
                path: m[sha].path@,
                verify_raw_sha: m[sha].raw,
            })
        }
}

/// Finds the canonical path of every blob.
fn find_sources(held: &Vec<TrackedBlob>) -> (r: StrMap<Source>)
    ensures
        sources_of(r@, blob_views(held@)),
{
    let ghost all = blob_views(held@);
    let mut out: StrMap<Source> = StrMap::new();
    let mut i: usize = 0;
    while i < held.len()
        invariant
            i <= held@.len(),
            all == blob_views(held@),
            sources_of(out@, all.take(i as int)),
        decreases held@.len() - i,
    {
        let f = &held[i];
        let ghost part = all.take(i as int);
        let ghost next = all.take(i + 1);
        let ghost before = out@;
        proof {
            assert(next.drop_last() == part);
            assert(next.last() == f@);
            lemma_first_path(part, f.sha@);
        }
        let replace: bool = match out.get(f.sha.as_str()) {
            Some(s) => f.raw_sha && !s.raw,
            None => true,
        };
        if replace {
            out.insert(f.sha.clone(), Source { path: f.path.clone(), raw: f.raw_sha });
        }
        proof {
            assert(before.contains_key(f.sha@) || !before.contains_key(f.sha@));
            assert forall|sha: Seq<char>|
                #![trigger out@.contains_key(sha)]
                {
                    &&& out@.contains_key(sha) <==> first_path(next, sha, false) is Some
                    &&& out@.contains_key(sha) ==> planned(next, sha) == (PlannedView {
                        sha,
                        path: out@[sha].path@,
                        verify_raw_sha: out@[sha].raw,
                    })
                } by {
                assert(before.contains_key(sha) || !before.contains_key(sha));
                lemma_first_path(part, sha);
            }
        }
        i = i + 1;
    }
    assert(all.take(all.len() as int) == all);
    out
}

/// The blobs of the tracked files.
fn shas_of(held: &Vec<TrackedBlob>) -> (r: Vec<String>)
    ensures
        views(r@) == held_shas(blob_views(held@)),
{
    let mut out: Vec<String> = Vec::new();
    let mut i: usize = 0;
    while i < held.len()
        invariant
            i <= held@.len(),
            out@.len() == i,
            forall|k: int| 0 <= k < i ==> (#[trigger] out@[k])@ == held@[k].sha@,
        decreases held@.len() - i,
    {
        out.push(held[i].sha.clone());
        i = i + 1;
    }
    assert(views(out@) =~= held_shas(blob_views(held@)));
    out
}

impl IndexPlan {
    /// Plans an index run: every unique blob of the tracked files that has no
    /// note yet is to be embedded.
    pub fn new(held: &Vec<TrackedBlob>, known: &StrSet) -> (r: IndexPlan)
        ensures
            plans(r, blob_views(held@), known@),
    {
        let ghost all = blob_views(held@);
        let target = StrSet::from_vec(shas_of(held));
        let cached: usize = target.count_in(known);
        let missing = target.minus(known);
        let sources = find_sources(held);
        proof {
            lemma_filter_parts(target@, known@);
            lemma_filter_ascending(target@, |x: Seq<char>| !known@.contains(x));
            assert(is_target(target@, all));
        }
        let list = missing.as_vec();
        let mut todo: Vec<Planned> = Vec::new();
        let mut i: usize = 0;
        while i < list.len()
            invariant
                i <= list@.len(),
                views(list@) == missing@,
                all == blob_views(held@),
                sources_of(sources@, all),
                forall|x: Seq<char>| #[trigger]
                    missing@.contains(x) ==> held_shas(all).contains(x),
                todo@.len() == i,
                forall|k: int|
                    0 <= k < i ==> (#[trigger] todo@[k])@ == planned(all, missing@[k]),
            decreases list@.len() - i,
        {
            let sha = &list[i];
            proof {
                assert(missing@[i as int] == sha@);
                assert(missing@.contains(sha@));
                lemma_first_path(all, sha@);
                assert(sources@.contains_key(sha@));
            }
            match sources.get(sha.as_str()) {
                Some(s) => {
                    todo.push(
                        Planned { sha: sha.clone(), path: s.path.clone(), verify_raw_sha: s.raw },
                    );
                },
                None => {},
            }
            i = i + 1;
        }
        let r = IndexPlan {
            files_total: held.len(),
            blobs_unique: target.len(),
            blobs_already_cached: cached,
            to_embed: todo,
        };
        proof {
            let views_todo = planned_views(todo@);
            assert(planned_shas(views_todo) =~= missing@);
            assert forall|k: int| 0 <= k < views_todo.len() implies #[trigger] views_todo[k]
                == planned(all, views_todo[k].sha) by {
                assert(views_todo[k] == todo@[k]@);
            }
        }
        r
    }
}

/// A blob that has a note is not embedded again: where every blob of the tracked
/// files has one, nothing is to be done.
pub proof fn law_cached_blobs_are_not_embedded(
    plan: IndexPlan,
    held: Seq<TrackedBlobView>,
    known: Seq<Seq<char>>,
)
    requires
        plans(plan, held, known),
        forall|i: int| 0 <= i < held.len() ==> known.contains((#[trigger] held[i]).sha),
    ensures
        plan.to_embed@.len() == 0,
        plan.blobs_already_cached == plan.blobs_unique,
{
    let todo = planned_views(plan.to_embed@);
    if todo.len() > 0 {
        let x = planned_shas(todo)[0];
        assert(planned_shas(todo).contains(x));
        let i = choose|i: int| 0 <= i < held.len() && held_shas(held)[i] == x;
        assert(held[i].sha == x);
    }
}

/// Indexing twice embeds nothing the second time: once every blob of a plan has a
/// note, and no note was lost, a new plan on the same files is empty.
pub proof fn law_second_run_is_idle(
    first: IndexPlan,
    second: IndexPlan,
    held: Seq<TrackedBlobView>,
    before: Seq<Seq<char>>,
    after: Seq<Seq<char>>,
)
    requires
        plans(first, held, before),
        plans(second, held, after),
        forall|x: Seq<char>| #[trigger] before.contains(x) ==> after.contains(x),
        forall|i: int|
            0 <= i < first.to_embed@.len() ==> after.contains((#[trigger] first.to_embed@[i]).sha@),
    ensures
        second.to_embed@.len() == 0,
        second.blobs_already_cached == second.blobs_unique,
{
    assert forall|i: int| 0 <= i < held.len() implies after.contains((#[trigger] held[i]).sha) by {
        let x = held[i].sha;
        assert(held_shas(held)[i] == x);
        assert(held_shas(held).contains(x));
        if !before.contains(x) {
            let todo = planned_views(first.to_embed@);
            assert(planned_shas(todo).contains(x));
            let j = choose|j: int| 0 <= j < todo.len() && planned_shas(todo)[j] == x;
            assert(first.to_embed@[j].sha@ == x);
        }
    }
    law_cached_blobs_are_not_embedded(second, held, after);
}

/// What an index run did.
#[derive(Debug)]
pub struct IndexStats {
    pub files_total: usize,
    pub blobs_unique: usize,
    pub blobs_already_cached: usize,
    pub blobs_embedded: usize,
    pub blobs_skipped: usize,
    /// Always 0: append-only caches do not prune.
    pub blobs_pruned: usize,
    pub chunks_embedded: usize,
    pub elapsed_ms: u128,
}

impl Default for IndexStats {
    fn default() -> (r: IndexStats)
        ensures
            r == (IndexStats {
                files_total: 0,
                blobs_unique: 0,
                blobs_already_cached: 0,
                blobs_embedded: 0,
                blobs_skipped: 0,
                blobs_pruned: 0,
                chunks_embedded: 0,
                elapsed_ms: 0,
            }),
    {
        IndexStats {
            files_total: 0,
            blobs_unique: 0,
            blobs_already_cached: 0,
            blobs_embedded: 0,
            blobs_skipped: 0,
            blobs_pruned: 0,
            chunks_embedded: 0,
            elapsed_ms: 0,
        }
    }
}

/// The statistics in words.
pub open spec fn stats_text(s: IndexStats) -> Seq<char> {
    "files: "@ + decimal(s.files_total as nat) + " | blobs: "@ + decimal(s.blobs_unique as nat)
        + " unique, "@ + decimal(s.blobs_already_cached as nat) + " cached, "@ + decimal(
        s.blobs_embedded as nat,
    ) + " embedded, "@ + decimal(s.blobs_skipped as nat) + " skipped | chunks embedded: "@
        + decimal(s.chunks_embedded as nat) + " | "@ + decimal(s.elapsed_ms as nat) + "ms"@
}

impl IndexStats {
    /// The statistics in words.
    pub fn summary(&self) -> (r: String)
        ensures
            r@ == stats_text(*self),
    {
        let mut s = "files: ".to_owned();
        push_decimal(&mut s, self.files_total as u128);
        s.append(" | blobs: ");
        push_decimal(&mut s, self.blobs_unique as u128);
        s.append(" unique, ");
        push_decimal(&mut s, self.blobs_already_cached as u128);
        s.append(" cached, ");
        push_decimal(&mut s, self.blobs_embedded as u128);
        s.append(" embedded, ");
        push_decimal(&mut s, self.blobs_skipped as u128);
        s.append(" skipped | chunks embedded: ");
        push_decimal(&mut s, self.chunks_embedded as u128);
        s.append(" | ");
        push_decimal(&mut s, self.elapsed_ms);
        s.append("ms");
        s
    }
}

impl IndexPlan {
    /// The statistics of a run on this plan in which `chunked` of the blobs could
    /// be read. The others are skipped.
    pub fn stats(&self, chunked: usize, chunks_embedded: usize, elapsed_ms: u128) -> (r: IndexStats)
        requires
            self.blobs_unique == self.blobs_already_cached + self.to_embed@.len(),
            chunked <= self.to_embed@.len(),
        ensures
            r == (IndexStats {
                files_total: self.files_total,
                blobs_unique: self.blobs_unique,
                blobs_already_cached: self.blobs_already_cached,
                blobs_embedded: chunked,
                blobs_skipped: (self.to_embed@.len() - chunked) as usize,
                blobs_pruned: 0,
                chunks_embedded,
                elapsed_ms,
            }),
            r.blobs_embedded == r.blobs_unique - r.blobs_already_cached - r.blobs_skipped,
    {
        let blobs_skipped: usize = self.to_embed.len() - chunked;
        IndexStats {
            files_total: self.files_total,
            blobs_unique: self.blobs_unique,
            blobs_already_cached: self.blobs_already_cached,
            blobs_embedded: self.blobs_unique - self.blobs_already_cached - blobs_skipped,
            blobs_skipped,
            blobs_pruned: 0,
            chunks_embedded,
            elapsed_ms,
        }
    }
}

/// Progress is shown unless silenced, if there is anything to embed. Verbose
/// output has lines of its own.
pub open spec fn shows_progress(verbose: bool, quiet: bool, total: nat) -> bool {
    !quiet && !verbose && total > 0
}

/// Whether the progress of a run is shown.
pub fn show_progress(verbose: bool, quiet: bool, total_chunks: usize) -> (r: bool)
    ensures
        r == shows_progress(verbose, quiet, total_chunks as nat),
{
    !quiet && !verbose && total_chunks > 0
}

/// What is printed before the first group.
pub open spec fn opening_text(
    verbose: bool,
    quiet: bool,
    total: nat,
    blobs: nat,
    limit: nat,
) -> Option<Seq<char>> {
    if verbose && total > 0 {
        Some(
            "[index] embedding "@ + decimal(total) + " chunks across "@ + decimal(blobs)
                + " unique blobs in groups of \u{2264}"@ + decimal(limit) + "..."@,
        )
    } else if shows_progress(verbose, quiet, total) {
        Some(
            "indexing: embedding "@ + decimal(total) + " new chunks from "@ + decimal(blobs)
                + " blobs..."@,
        )
    } else {
        None
    }
}

/// What is printed before the first group, if anything.
pub fn opening_message(
    verbose: bool,
    quiet: bool,
    total_chunks: usize,
    blobs: usize,
    limit: usize,
) -> (r: Option<String>)
    ensures
        match r {
            Some(s) => opening_text(
                verbose,
                quiet,
                total_chunks as nat,
                blobs as nat,
                limit as nat,
            ) == Some(s@),
            None => opening_text(
                verbose,
                quiet,
                total_chunks as nat,
                blobs as nat,
                limit as nat,
            ) is None,
        },
{
    if verbose && total_chunks > 0 {
        let mut s = "[index] embedding ".to_owned();
        push_decimal(&mut s, total_chunks as u128);
        s.append(" chunks across ");
        push_decimal(&mut s, blobs as u128);
        s.append(" unique blobs in groups of \u{2264}");
        push_decimal(&mut s, limit as u128);
        s.append("...");
        Some(s)
    } else if show_progress(verbose, quiet, total_chunks) {
        let mut s = "indexing: embedding ".to_owned();
        push_decimal(&mut s, total_chunks as u128);
        s.append(" new chunks from ");
        push_decimal(&mut s, blobs as u128);
        s.append(" blobs...");
        Some(s)
    } else {
        None
    }
}

/// What verbose output says when a group is done.
pub fn group_message(groups_done: usize, chunks_done: usize) -> (r: String)
    ensures
        r@ == "[index] ... group "@ + decimal(groups_done as nat) + " done ("@ + decimal(
            chunks_done as nat,
        ) + " chunks total)"@,
{
    let mut s = "[index] ... group ".to_owned();
    push_decimal(&mut s, groups_done as u128);
    s.append(" done (");
    push_decimal(&mut s, chunks_done as u128);
    s.append(" chunks total)");
    s
}

/// Files are looked at one by one: those of two lists give what the first gives and
/// behind it what the second gives. A textual file that is as in the index holds
/// the index's blob; one that differs holds that of its bytes on disk, or is left
/// out where it cannot be read. Any other file is left out.
pub proof fn law_file_by_file(
    a: Seq<TrackedFileView>,
    b: Seq<TrackedFileView>,
    f: TrackedFileView,
    modified: Seq<Seq<char>>,
    contents: Map<Seq<char>, Seq<u8>>,
)
    ensures
        tracked_blobs(a + b, modified, contents) == tracked_blobs(a, modified, contents)
            + tracked_blobs(b, modified, contents),
        modified_textual(a + b, modified) == modified_textual(a, modified) + modified_textual(
            b,
            modified,
        ),
        !textual(f.path) ==> tracked_blobs(seq![f], modified, contents).len() == 0
            && modified_textual(seq![f], modified).len() == 0,
        textual(f.path) && !modified.contains(f.path) ==> tracked_blobs(
            seq![f],
            modified,
            contents,
        ) == seq![TrackedBlobView { path: f.path, sha: f.index_blob_sha, raw_sha: false }]
            && modified_textual(seq![f], modified).len() == 0,
        textual(f.path) && modified.contains(f.path) ==> {
            &&& modified_textual(seq![f], modified) == seq![f.path]
            &&& contents.contains_key(f.path) ==> tracked_blobs(seq![f], modified, contents)
                == seq![
                TrackedBlobView { path: f.path, sha: blob_name(contents[f.path]), raw_sha: true },
            ]
            &&& !contents.contains_key(f.path) ==> tracked_blobs(
                seq![f],
                modified,
                contents,
            ).len() == 0
        },
    decreases b.len(),
{
    let none = Seq::<TrackedFileView>::empty();
    assert(seq![f].drop_last() == none);
    assert(tracked_blobs(none, modified, contents) == Seq::<TrackedBlobView>::empty());
    assert(modified_textual(none, modified) == Seq::<Seq<char>>::empty());
    if b.len() == 0 {
        assert(a + b == a);
    } else {
        law_file_by_file(a, b.drop_last(), f, modified, contents);
        assert((a + b).drop_last() == a + b.drop_last());
        assert((a + b).last() == b.last());
    }
}

/// A blob is read from a file that holds it: from the first whose blob is that of
/// its bytes on disk, and then the bytes are held against it; from the first of
/// all where there is no such file.
pub proof fn law_blob_is_read_from_first(held: Seq<TrackedBlobView>, sha: Seq<char>) -> (i: int)
    requires
        exists|k: int| 0 <= k < held.len() && (#[trigger] held[k]).sha == sha,
    ensures
        0 <= i < held.len(),
        held[i].sha == sha,
        planned(held, sha).sha == sha,
        planned(held, sha).path == held[i].path,
        planned(held, sha).verify_raw_sha == held[i].raw_sha,
        forall|k: int|
            0 <= k < i && (#[trigger] held[k]).sha == sha ==> held[i].raw_sha && !held[k].raw_sha,
        held[i].raw_sha || forall|k: int|
            0 <= k < held.len() && (#[trigger] held[k]).sha == sha ==> !held[k].raw_sha,
{
    let k = choose|k: int| 0 <= k < held.len() && (#[trigger] held[k]).sha == sha;
    lemma_first_path(held, sha);
    assert(held_shas(held)[k] == sha);
    lemma_first_path_is_first(held, sha, true);
    lemma_first_path_is_first(held, sha, false);
    let raw = first_path(held, sha, true) is Some;
    let i = lemma_first_path_is_first(held, sha, raw);
    i
}

/// Which file a first path is that of.
pub proof fn lemma_first_path_is_first(held: Seq<TrackedBlobView>, sha: Seq<char>, raw: bool) -> (i: int)
    ensures
        first_path(held, sha, raw) is Some ==> {
            &&& 0 <= i < held.len()
            &&& held[i].sha == sha
            &&& raw ==> held[i].raw_sha
            &&& first_path(held, sha, raw) == Some(held[i].path)
            &&& forall|k: int|
                0 <= k < i && (#[trigger] held[k]).sha == sha ==> raw && !held[k].raw_sha
        },
        first_path(held, sha, raw) is None ==> forall|k: int|
            0 <= k < held.len() && (#[trigger] held[k]).sha == sha ==> raw && !held[k].raw_sha,
    decreases held.len(),
{
    if held.len() == 0 {
        0
    } else {
        let init = held.drop_last();
        let i = lemma_first_path_is_first(init, sha, raw);
        assert(forall|k: int| 0 <= k < init.len() ==> init[k] == held[k]);
        if first_path(init, sha, raw) is Some {
            i
        } else {
            assert forall|k: int|
                0 <= k < init.len() && (#[trigger] held[k]).sha == sha implies raw
                && !held[k].raw_sha by {
                assert(init[k] == held[k]);
            }
            held.len() - 1
        }
    }
}

/// A plan embeds every blob that a tracked file holds and that has no note, once and
/// in ascending order, and reads it from such a file; it embeds no other. It counts each blob once,
/// however many files hold it.
pub proof fn law_plan_embeds_what_lacks(
    plan: IndexPlan,
    held: Seq<TrackedBlobView>,
    known: Seq<Seq<char>>,
    i: int,
    j: int,
) -> (r: (int, int))
    requires
        plans(plan, held, known),
        0 <= i < held.len(),
        0 <= j < plan.to_embed@.len(),
    ensures
        !known.contains(held[i].sha) ==> 0 <= r.0 < plan.to_embed@.len() && plan.to_embed@[r.0].sha@
            == held[i].sha,
        forall|m: int|
            0 <= m < plan.to_embed@.len() && m != j ==> (#[trigger] plan.to_embed@[m]).sha@
                != plan.to_embed@[j].sha@,
        forall|m: int|
            0 <= m < j ==> precedes((#[trigger] plan.to_embed@[m]).sha@, plan.to_embed@[j].sha@),
        !known.contains(plan.to_embed@[j].sha@),
        0 <= r.1 < held.len(),
        held[r.1] == (TrackedBlobView {
            path: plan.to_embed@[j].path@,
            sha: plan.to_embed@[j].sha@,
            raw_sha: plan.to_embed@[j].verify_raw_sha,
        }),
        plan.files_total == held.len(),
        plan.blobs_unique == held.map_values(|b: TrackedBlobView| b.sha).to_set().len(),
        plan.blobs_already_cached + plan.to_embed@.len() == plan.blobs_unique,
{
    let todo = planned_views(plan.to_embed@);
    let shas = planned_shas(todo);
    let all = held_shas(held);
    let r0 = if known.contains(held[i].sha) {
        0
    } else {
        assert(all[i] == held[i].sha);
        assert(all.contains(held[i].sha));
        assert(shas.contains(held[i].sha));
        choose|m: int| 0 <= m < shas.len() && shas[m] == held[i].sha
    };
    assert(shas[j] == plan.to_embed@[j].sha@);
    assert(shas.contains(shas[j]));
    assert forall|m: int|
        0 <= m < plan.to_embed@.len() && m != j implies (#[trigger] plan.to_embed@[m]).sha@
        != plan.to_embed@[j].sha@ by {
        assert(shas[m] == plan.to_embed@[m].sha@);
        lemma_ascending_index(shas, m);
        lemma_ascending_index(shas, j);
    }
    assert forall|m: int| 0 <= m < j implies precedes(
        (#[trigger] plan.to_embed@[m]).sha@,
        plan.to_embed@[j].sha@,
    ) by {
        assert(shas[m] == plan.to_embed@[m].sha@);
    }
    let k = choose|k: int| 0 <= k < all.len() && all[k] == shas[j];
    assert(held[k].sha == shas[j]);
    assert(todo[j] == planned(held, todo[j].sha));
    let r1 = law_blob_is_read_from_first(held, shas[j]);
    let target = choose|target: Seq<Seq<char>>| #[trigger]
        is_target(target, held) && plan.blobs_unique == target.len() && plan.blobs_already_cached
            == target.filter(|x: Seq<char>| known.contains(x)).len();
    assert(target.no_duplicates()) by {
        assert forall|x: int, y: int| 0 <= x < target.len() && 0 <= y < target.len() && x
            != y implies target[x] != target[y] by {
            lemma_ascending_index(target, x);
            lemma_ascending_index(target, y);
        }
    }
    target.unique_seq_to_set();
    assert(target.to_set() =~= all.to_set());
    assert(held.map_values(|b: TrackedBlobView| b.sha) =~= all);
    (r0, r1)
}

/// Every file with its blob is one of the tracked files.
pub proof fn law_blob_has_file(
    files: Seq<TrackedFileView>,
    modified: Seq<Seq<char>>,
    contents: Map<Seq<char>, Seq<u8>>,
    m: int,
) -> (i: int)
    requires
        0 <= m < tracked_blobs(files, modified, contents).len(),
    ensures
        0 <= i < files.len(),
        ({
            let b = tracked_blobs(files, modified, contents)[m];
            &&& b.path == files[i].path
            &&& textual(b.path)
            &&& b.raw_sha == modified.contains(b.path)
            &&& b.raw_sha ==> contents.contains_key(b.path) && b.sha == blob_name(
                contents[b.path],
            )
            &&& !b.raw_sha ==> b.sha == files[i].index_blob_sha
        }),
    decreases files.len(),
{
    let init = files.drop_last();
    let before = tracked_blobs(init, modified, contents);
    if m < before.len() {
        let i = law_blob_has_file(init, modified, contents, m);
        assert(init[i] == files[i]);
        i
    } else {
        files.len() - 1
    }
}

/// Every textual file has its blob: that of the index, or that of its bytes on disk
/// where it differs and can be read.
pub proof fn law_file_has_blob(
    files: Seq<TrackedFileView>,
    modified: Seq<Seq<char>>,
    contents: Map<Seq<char>, Seq<u8>>,
    i: int,
)
    requires
        0 <= i < files.len(),
        textual(files[i].path),
    ensures
        !modified.contains(files[i].path) ==> tracked_blobs(files, modified, contents).contains(
            TrackedBlobView {
                path: files[i].path,
                sha: files[i].index_blob_sha,
                raw_sha: false,
            },
        ),
        modified.contains(files[i].path) ==> modified_textual(files, modified).contains(
            files[i].path,
        ),
        modified.contains(files[i].path) && contents.contains_key(files[i].path)
            ==> tracked_blobs(files, modified, contents).contains(
            TrackedBlobView {
                path: files[i].path,
                sha: blob_name(contents[files[i].path]),
                raw_sha: true,
            },
        ),
{
    let f = files[i];
    let a = files.take(i);
    let b = files.skip(i + 1);
    assert(files =~= (a + seq![f]) + b);
    law_file_by_file(a + seq![f], b, f, modified, contents);
    law_file_by_file(a, seq![f], f, modified, contents);
    let all = tracked_blobs(files, modified, contents);
    let at = tracked_blobs(a, modified, contents).len() as int;
    let one = tracked_blobs(seq![f], modified, contents);
    if one.len() > 0 {
        assert(all[at] == one[0]);
    }
    let paths = modified_textual(files, modified);
    let from = modified_textual(a, modified).len() as int;
    if modified.contains(f.path) {
        assert(paths[from] == modified_textual(seq![f], modified)[0]);
    }
}

/// Progress is shown for a run that embeds something, if it is neither silenced nor
/// verbose; verbose output is not silenced; and nothing is announced of nothing.
pub proof fn law_opening_is_shown(verbose: bool, quiet: bool, total: nat, blobs: nat, limit: nat)
    ensures
        opening_text(verbose, quiet, total, blobs, limit) is Some <==> total > 0 && (verbose
            || !quiet),
        shows_progress(verbose, quiet, total) <==> total > 0 && !verbose && !quiet,
        opening_text(verbose, quiet, total, blobs, limit) matches Some(t) ==> occurs(
            decimal(total),
            t,
        ) && occurs(decimal(blobs), t),
{
    let n = decimal(total);
    let m = decimal(blobs);
    let a = "[index] embedding "@;
    let b = " chunks across "@;
    let c = " unique blobs in groups of \u{2264}"@ + decimal(limit) + "..."@;
    let x = "indexing: embedding "@;
    let y = " new chunks from "@;
    let z = " blobs..."@;
    if opening_text(verbose, quiet, total, blobs, limit) is Some {
        let t = opening_text(verbose, quiet, total, blobs, limit)->0;
        if verbose {
            assert(t =~= a + n + (b + m + c));
            assert(t =~= (a + n + b) + m + c);
            let _ = law_occurs(a, n, b + m + c);
            let _ = law_occurs(a + n + b, m, c);
        } else {
            assert(t =~= x + n + (y + m + z));
            assert(t =~= (x + n + y) + m + z);
            let _ = law_occurs(x, n, y + m + z);
            let _ = law_occurs(x + n + y, m, z);
        }
    }
}

/// The statistics in words show every number of a run between what it counts.
pub proof fn law_stats_are_shown(s: IndexStats)
    ensures
        occurs("files: "@ + decimal(s.files_total as nat) + " | blobs: "@, stats_text(s)),
        occurs(" | blobs: "@ + decimal(s.blobs_unique as nat) + " unique, "@, stats_text(s)),
        occurs(" unique, "@ + decimal(s.blobs_already_cached as nat) + " cached, "@, stats_text(s)),
        occurs(" cached, "@ + decimal(s.blobs_embedded as nat) + " embedded, "@, stats_text(s)),
        occurs(
            " embedded, "@ + decimal(s.blobs_skipped as nat) + " skipped | chunks embedded: "@,
            stats_text(s),
        ),
        occurs(
            " skipped | chunks embedded: "@ + decimal(s.chunks_embedded as nat) + " | "@,
            stats_text(s),
        ),
        occurs(" | "@ + decimal(s.elapsed_ms as nat) + "ms"@, stats_text(s)),
{
    let (l0, a) = ("files: "@, decimal(s.files_total as nat));
    let (l1, b) = (" | blobs: "@, decimal(s.blobs_unique as nat));
    let (l2, c) = (" unique, "@, decimal(s.blobs_already_cached as nat));
    let (l3, d) = (" cached, "@, decimal(s.blobs_embedded as nat));
    let (l4, e) = (" embedded, "@, decimal(s.blobs_skipped as nat));
    let (l5, f) = (" skipped | chunks embedded: "@, decimal(s.chunks_embedded as nat));
    let (l6, g) = (" | "@, decimal(s.elapsed_ms as nat));
    let l7 = "ms"@;
    let none = Seq::<char>::empty();
    let t0 = l0 + a + l1;
    let t1 = t0 + b + l2;
    let t2 = t1 + c + l3;
    let t3 = t2 + d + l4;
    let t4 = t3 + e + l5;
    let t5 = t4 + f + l6;
    let t6 = t5 + g + l7;
    assert(none + l0 =~= l0);
    lemma_shown(none, l0, a, l1);
    lemma_shown(l0 + a, l1, b, l2);
    lemma_shown(t0 + b, l2, c, l3);
    lemma_shown(t1 + c, l3, d, l4);
    lemma_shown(t2 + d, l4, e, l5);
    lemma_shown(t3 + e, l5, f, l6);
    lemma_shown(t4 + f, l6, g, l7);
    lemma_stays(l0 + a + l1, t0, b, l2);
    lemma_stays(l0 + a + l1, t1, c, l3);
    lemma_stays(l0 + a + l1, t2, d, l4);
    lemma_stays(l0 + a + l1, t3, e, l5);
    lemma_stays(l0 + a + l1, t4, f, l6);
    lemma_stays(l0 + a + l1, t5, g, l7);
    lemma_stays(l1 + b + l2, t1, c, l3);
    lemma_stays(l1 + b + l2, t2, d, l4);
    lemma_stays(l1 + b + l2, t3, e, l5);
    lemma_stays(l1 + b + l2, t4, f, l6);
    lemma_stays(l1 + b + l2, t5, g, l7);
    lemma_stays(l2 + c + l3, t2, d, l4);
    lemma_stays(l2 + c + l3, t3, e, l5);
    lemma_stays(l2 + c + l3, t4, f, l6);
    lemma_stays(l2 + c + l3, t5, g, l7);
    lemma_stays(l3 + d + l4, t3, e, l5);
    lemma_stays(l3 + d + l4, t4, f, l6);
    lemma_stays(l3 + d + l4, t5, g, l7);
    lemma_stays(l4 + e + l5, t4, f, l6);
    lemma_stays(l4 + e + l5, t5, g, l7);
    lemma_stays(l5 + f + l6, t5, g, l7);
}

/// A number between what is around it occurs in a text that ends in it.
proof fn lemma_shown(before: Seq<char>, left: Seq<char>, number: Seq<char>, right: Seq<char>)
    ensures
        occurs(left + number + right, before + left + number + right),
{
    let t = before + left + number + right;
    let part = left + number + right;
    let i = before.len() as int;
    assert(t.subrange(i, i + part.len()) =~= part);
    assert(occurs_at(part, t, i));
}

/// What occurs in a text occurs in a longer one.
proof fn lemma_stays(part: Seq<char>, t: Seq<char>, x: Seq<char>, y: Seq<char>)
    requires
        occurs(part, t),
    ensures
        occurs(part, t + x + y),
{
    let i = choose|i: int| #[trigger] occurs_at(part, t, i);
    assert((t + x + y).subrange(i, i + part.len()) =~= t.subrange(i, i + part.len()));
    assert(occurs_at(part, t + x + y, i));
}

} // verus!
