//! What the operations of the library do, said of their calls: whatever a call may
//! give back for what it was given, this holds of it.

use vstd::prelude::*;
use vstd::string::*;
use vstd::utf8::*;

use crate::bench::Watch;
use crate::chunker::{chunk_bytes, chunk_text, chunk_views, chunks_of, file_chunks, law_chunk_holds_its_lines, law_chunks_of_file, law_sniff, law_text_has_chunks, lines_of, looks_binary, truncate_chars, Chunk};
use crate::cli::{excerpt, law_excerpt_shows_chunk};
use crate::corpus::{law_corpus_reads_back, CorpusError};
use crate::embedder::{auto_worker_count, law_workers_fill_memory};
use crate::groups::{all_texts, chunk_blob, chunked, chunked_views, law_blob_keeps_chunks, law_group_is_stored, law_payload_holds_rows, lemma_all_texts_len, total, with_payloads, ChunkedBlob, IndexRun};
use crate::indexer::{blob_views, contents_view, law_file_has_blob, law_plan_embeds_what_lacks, list_tracked_with_blob_details, lemma_filter_parts, list_tracked_with_blobs, path_and_sha, IndexPlan, IndexStats, Planned, TrackedBlob, TrackedBlobView};
use crate::notes::{is_object_name, law_note_path_form, law_note_path_reads_back, note_path, note_subpath, sha_from_note_path};
use crate::number::{decimal, decimal_string, law_decimal_parses, parse_u64};
use crate::order::position_values;
use crate::payload::{law_header_pack, law_pack_unpack, law_peek_shows_payload, law_unpack_pack, pack_payload, packed, peek_dim, peek_n, unpack_payload, unpacked, Payload, PayloadError};
use crate::repo::{blob_name, excluded, git_blob_sha1, hex_value, is_blob_object, law_blob_name_shows_digest, law_changes_read_back, law_listing_reads_back, law_textual_by_extension, list_tracked, listed_record, looks_textual, modified_paths, sha1_of, textual, tracked_views, NotUtf8, TrackedFile, TrackedFileView};
use crate::rows::{batch_ranges, batch_views, embedding_order, gather_shards, is_permutation, is_shard, law_batches_in_place, law_gathered_in_turn, law_ranges_cover, law_rows_go_back, law_shard_count, law_shards_deal_texts, law_texts_go_by_length, lemma_row_fits, lemma_row_index, lemma_text_order, place_batches, restore_rows, result_view, result_views, scattered, shard_texts, text_order, GatherError};
use crate::search::{begins, beats, hit_views, ieee_value, law_current_is_loaded, law_filter_takes_prefixes, law_map_shows_the_files, law_row_has_file, law_row_has_payload, law_search_finds_rows, law_search_goes_down, law_search_leaves_out_the_worst, lemma_matching_dims, lemma_matching_path, lemma_path_is_kept, matching_paths, meta_views, prefix_view, Hit, HitView, Index, Loaded};
use crate::sorted::{StrMap, StrSet};
use crate::store::{answer_record, batch_cat_blobs, existing_entries, law_answers_read_back, law_commit_writes_pending, law_listing_line_by_line, law_payload_has_answer, law_stored_payload_is_read, law_stream_carries_note, law_stream_carries_payload, listed_shas, matching_payloads, object_view, object_views, objects, pair_views, parent_view, proper, CommitStep, Store, StoreError};
use crate::text::{is_space, is_word, join, join_strings, law_fit_is_longest, law_join_split, law_occurs, law_split_pieces, lower, occurs, split_string, text_lines, views};
use crate::tokens::{encoded_views, hidden_state, is_hidden_state, law_padded_row_by_row, law_width_is_longest, pad_batch, shape_view, Encoded, PaddedBatch};
use crate::version::{build_version, law_version_choice, text_view};

verus! {

/// Cutting a text into chunks: chunk `k` holds forty lines from line `32 k` on, or
/// as many as are left, and says which these are, counted from 1; its text is the
/// longest part of them, from their start, that takes at most 4000 bytes. There is
/// a chunk at least, and the one that reaches the last line is the last.
pub proof fn law_chunk_text(text: &str, r: Vec<Chunk>, k: int)
    requires
        call_ensures(chunk_text, (text,), r),
        lines_of(text@).len() <= u32::MAX,
        0 <= k < r@.len(),
    ensures
        ({
            let lines = lines_of(text@);
            let n = lines.len() as int;
            let last = if 32 * k + 40 < n {
                32 * k + 40
            } else {
                n
            };
            let body = join(lines.subrange(32 * k, last), seq!['\n']);
            let t = r@[k].text@;
            &&& 32 * k < n
            &&& r@[k].start_line == 32 * k + 1
            &&& r@[k].end_line == last
            &&& t.len() <= body.len()
            &&& t == body.take(t.len() as int)
            &&& encode_utf8(t).len() <= 4000
            &&& encode_utf8(body).len() <= 4000 ==> t == body
            &&& t.len() < body.len() ==> encode_utf8(body.take(t.len() as int + 1)).len() > 4000
            &&& k + 1 == r@.len() <==> last == n
        }),
{
    let all = chunk_views(r@);
    assert(all.len() == r@.len());
    assert(all[k] == r@[k]@);
    law_chunk_holds_its_lines(text@, k);
}

/// Cutting a file into chunks: a file of 16 to 2000000 bytes of UTF-8 without a NUL
/// among the first 8192 has the chunks of its text, which are some; any other file
/// has none.
pub proof fn law_chunk_bytes(data: &[u8], r: Vec<Chunk>, text: &str, t: Vec<Chunk>, k: int)
    requires
        call_ensures(chunk_bytes, (data,), r),
        call_ensures(chunk_text, (text,), t),
    ensures
        data@.len() < 16 || data@.len() > 2_000_000 || !valid_utf8(data@) ==> r@.len() == 0,
        forall|i: int|
            0 <= i < data@.len() && i < 8192 && #[trigger] data@[i] == 0 ==> r@.len() == 0,
        16 <= data@.len() <= 2_000_000 && data@ == encode_utf8(text@) && (forall|i: int|
            0 <= i < data@.len() && i < 8192 ==> #[trigger] data@[i] != 0) ==> {
            &&& r@.len() == t@.len() > 0
            &&& 0 <= k < t@.len() ==> r@[k].text@ == t@[k].text@ && r@[k].start_line
                == t@[k].start_line && r@[k].end_line == t@[k].end_line
        },
{
    law_chunks_of_file(data@);
    law_text_has_chunks(text@);
    encode_utf8_valid_utf8(text@);
    let a = chunk_views(r@);
    let b = chunk_views(t@);
    assert(a.len() == r@.len() && b.len() == t@.len());
    if 16 <= data@.len() <= 2_000_000 && data@ == encode_utf8(text@) && forall|i: int|
        0 <= i < data@.len() && i < 8192 ==> #[trigger] data@[i] != 0 {
        assert(file_chunks(data@) == chunks_of(text@));
        assert(a == b);
        if 0 <= k < t@.len() {
            assert(a[k] == r@[k]@ && b[k] == t@[k]@);
        }
    }
}

/// A file looks binary exactly if there is a NUL among its first 8192 bytes.
pub proof fn law_looks_binary(data: &[u8], r: bool)
    requires
        call_ensures(looks_binary, (data,), r),
    ensures
        r <==> exists|i: int| 0 <= i < data@.len() && i < 8192 && #[trigger] data@[i] == 0,
{
    law_sniff(data@);
}

/// Cutting a text to a number of bytes keeps the most of it, from its start, that
/// takes no more.
pub proof fn law_truncate(s: &str, max: usize, r: String)
    requires
        call_ensures(truncate_chars, (s, max), r),
    ensures
        r@.len() <= s@.len(),
        r@ == s@.take(r@.len() as int),
        encode_utf8(r@).len() <= max,
        forall|k: int|
            r@.len() < k <= s@.len() ==> encode_utf8(#[trigger] s@.take(k)).len() > max,
{
    law_fit_is_longest(s@, max as nat);
}

/// The hash of a blob shows, in hexadecimal, the SHA-1 digest of `blob `, the number
/// of its bytes, a NUL, and all of its bytes.
pub proof fn law_git_blob_sha1(content: &[u8], r: String, object: Seq<u8>, i: int)
    requires
        call_ensures(git_blob_sha1, (content,), r),
        is_blob_object(object, content@),
        0 <= i < sha1_of(object).len(),
    ensures
        r@.len() == 40,
        r@.len() == 2 * sha1_of(object).len(),
        sha1_of(object)[i] == 16 * hex_value(r@[2 * i]) + hex_value(r@[2 * i + 1]),
{
    law_blob_name_shows_digest(content@, object, i);
}

/// Every hit of a search stands for a row of the index: it names the row's blob,
/// chunk and lines and has the row's own score, a finite number. Its path is one
/// that holds the blob, and its first characters are those of the filter.
pub proof fn law_search_hit(
    index: &Index,
    scores: &[u32],
    k: usize,
    path_prefix: Option<&str>,
    r: Vec<Hit>,
    h: int,
) -> (i: int)
    requires
        call_ensures(Index::search, (index, scores, k, path_prefix), r),
        0 <= h < r@.len(),
    ensures
        0 <= i < index.meta@.len(),
        r@[h].blob_sha@ == index.meta@[i].blob_sha@,
        r@[h].chunk_idx == index.meta@[i].chunk_idx,
        r@[h].start_line == index.meta@[i].start_line,
        r@[h].end_line == index.meta@[i].end_line,
        r@[h].score == scores@[i],
        scores@[i] as int % 0x8000_0000 < 0x7f80_0000,
        index.blob_to_paths@.contains_key(r@[h].blob_sha@),
        views(index.blob_to_paths@[r@[h].blob_sha@]@).contains(r@[h].path@),
        path_prefix matches Some(p) ==> p@.len() <= r@[h].path@.len() && r@[h].path@.take(
            p@.len() as int,
        ) == p@,
{
    let hits = hit_views(r@);
    assert(hits[h] == r@[h]@);
    law_search_finds_rows(*index, scores@, k as nat, prefix_view(path_prefix), h)
}

/// The hits of a search come by the numbers that their scores encode, the largest
/// first.
pub proof fn law_search_order(
    index: &Index,
    scores: &[u32],
    k: usize,
    path_prefix: Option<&str>,
    r: Vec<Hit>,
    a: int,
    b: int,
)
    requires
        call_ensures(Index::search, (index, scores, k, path_prefix), r),
        0 <= a <= b < r@.len(),
    ensures
        ieee_value(r@[a].score) >= ieee_value(r@[b].score),
{
    let hits = hit_views(r@);
    assert(hits[a] == r@[a]@ && hits[b] == r@[b]@);
    law_search_goes_down(*index, scores@, k as nat, prefix_view(path_prefix), a, b);
}

/// A search that has no hit for a row and a path of its blob, though the path begins
/// with the filter and the score is finite, has `k` rows before it that beat this
/// one.
pub proof fn law_search_misses(
    index: &Index,
    scores: &[u32],
    k: usize,
    path_prefix: Option<&str>,
    r: Vec<Hit>,
    j: int,
    path: Seq<char>,
) -> (rows: Seq<int>)
    requires
        call_ensures(Index::search, (index, scores, k, path_prefix), r),
        0 <= j < index.meta@.len(),
        scores@[j] as int % 0x8000_0000 < 0x7f80_0000,
        index.blob_to_paths@.contains_key(index.meta@[j].blob_sha@),
        views(index.blob_to_paths@[index.meta@[j].blob_sha@]@).contains(path),
        path_prefix matches Some(p) ==> p@.len() <= path.len() && path.take(p@.len() as int) == p@,
        forall|h: int|
            0 <= h < r@.len() ==> !((#[trigger] r@[h]).path@ == path && r@[h].blob_sha@
                == index.meta@[j].blob_sha@ && r@[h].chunk_idx == index.meta@[j].chunk_idx),
    ensures
        rows.len() == k,
        rows.no_duplicates(),
        forall|a: int|
            0 <= a < k ==> beats(
                *index,
                scores@,
                prefix_view(path_prefix),
                #[trigger] rows[a],
                j,
            ),
{
    let prefix = prefix_view(path_prefix);
    let hits = hit_views(r@);
    let hit = HitView {
        path,
        start_line: index.meta@[j].start_line,
        end_line: index.meta@[j].end_line,
        score: scores@[j],
        blob_sha: index.meta@[j].blob_sha@,
        chunk_idx: index.meta@[j].chunk_idx,
    };
    assert(begins(path, prefix));
    if hits.contains(hit) {
        let h = choose|h: int| 0 <= h < hits.len() && hits[h] == hit;
        assert(hits[h] == r@[h]@);
        assert(r@[h].path@ == path);
    }
    law_search_leaves_out_the_worst(*index, scores@, k as nat, prefix, j, path);
    index.top(scores@, k as nat, prefix)
}

/// Loading an index loads every chunk of every payload that git answered with, was
/// packed in the store's dimension, and belongs to a blob that a file of the work
/// tree holds: a row names the blob, the chunk and its lines, and the same row of
/// the matrix is the chunk's vector.
pub proof fn law_load_is_complete(
    store: &Store,
    shas: &StrSet,
    output: &[u8],
    files: &Vec<(String, String)>,
    r: Result<Loaded, StoreError>,
    answers: Seq<Option<Seq<u8>>>,
    j: int,
    f: int,
    ranges: Seq<(u32, u32)>,
    bits: Seq<u32>,
    i: int,
) -> (row: int)
    requires
        call_ensures(Index::load, (store, shas, output, files), r),
        objects(output@, shas@.len()) == Ok::<Seq<Option<Seq<u8>>>, StoreError>(answers),
        0 <= j < shas@.len() == answers.len(),
        answers[j] == Some(packed(store.dim as nat, ranges, bits)),
        store.dim <= u16::MAX,
        ranges.len() <= u32::MAX,
        bits.len() == ranges.len() * store.dim,
        0 <= f < files@.len(),
        files@[f].1@ == shas@[j],
        0 <= i < ranges.len(),
    ensures
        r is Ok,
        ({
            let index = r->Ok_0.index;
            let d = store.dim as int;
            &&& 0 <= row < index.meta@.len()
            &&& index.dim == d
            &&& index.meta@[row].blob_sha@ == shas@[j]
            &&& index.meta@[row].chunk_idx == i
            &&& index.meta@[row].start_line == ranges[i].0
            &&& index.meta@[row].end_line == ranges[i].1
            &&& index.matrix@.len() == index.meta@.len() * d
            &&& index.matrix@.subrange(row * d, row * d + d) == bits.subrange(i * d, i * d + d)
            &&& index.blob_to_paths@.contains_key(shas@[j])
            &&& views(index.blob_to_paths@[shas@[j]]@).contains(files@[f].0@)
        }),
{
    let dim = store.dim as nat;
    let here = pair_views(files@);
    let payloads = matching_payloads(shas@, answers, dim);
    let b = packed(dim, ranges, bits);
    law_stored_payload_is_read(shas@, answers, dim, j, ranges, bits);
    law_unpack_pack(dim, ranges, bits);
    lemma_matching_dims(shas@, answers, dim);
    assert(store@.dim == dim);
    assert forall|m: int|
        0 <= m < payloads.len() && unpacked((#[trigger] payloads[m]).1) is Ok implies unpacked(
        payloads[m].1,
    )->Ok_0.dim == dim by {}
    let p = choose|p: int| 0 <= p < payloads.len() && payloads[p] == (shas@[j], b);
    assert(here[f] == (files@[f].0@, files@[f].1@));
    let row = law_current_is_loaded(payloads, here, dim, p, f, i);
    let index = r->Ok_0.index;
    assert(meta_views(index.meta@)[row] == index.meta@[row]@);
    let _ = law_map_shows_the_files(index.blob_to_paths@, here, f, shas@[j], 0);
    row
}

/// Loading an index loads nothing else: every row is a chunk of a payload that git
/// answered with and that can be read, for a blob that a file of the work tree
/// holds.
pub proof fn law_load_is_sound(
    store: &Store,
    shas: &StrSet,
    output: &[u8],
    files: &Vec<(String, String)>,
    r: Result<Loaded, StoreError>,
    answers: Seq<Option<Seq<u8>>>,
    row: int,
) -> (w: (int, int))
    requires
        call_ensures(Index::load, (store, shas, output, files), r),
        objects(output@, shas@.len()) == Ok::<Seq<Option<Seq<u8>>>, StoreError>(answers),
        shas@.len() == answers.len(),
        r is Ok,
        0 <= row < r->Ok_0.index.meta@.len(),
    ensures
        ({
            let m = r->Ok_0.index.meta@[row];
            &&& 0 <= w.0 < shas@.len()
            &&& shas@[w.0] == m.blob_sha@
            &&& answers[w.0] is Some
            &&& unpacked(answers[w.0]->0) is Ok
            &&& m.chunk_idx < unpacked(answers[w.0]->0)->Ok_0.ranges.len()
            &&& unpacked(answers[w.0]->0)->Ok_0.ranges[m.chunk_idx as int] == (
                m.start_line,
                m.end_line,
            )
            &&& 0 <= w.1 < files@.len()
            &&& files@[w.1].1@ == m.blob_sha@
        }),
{
    let dim = store.dim as nat;
    let here = pair_views(files@);
    let payloads = matching_payloads(shas@, answers, dim);
    assert(store@.dim == dim);
    let index = r->Ok_0.index;
    assert(meta_views(index.meta@)[row] == index.meta@[row]@);
    let (p, i) = law_row_has_payload(payloads, here, row);
    let j = law_payload_has_answer(shas@, answers, dim, p);
    law_pack_unpack(payloads[p].1, Seq::empty());
    let f = law_row_has_file(payloads, here, row);
    assert(here[f] == (files@[f].0@, files@[f].1@));
    (j, f)
}

/// A listing of the index gives one file more for one record more: its path, its
/// blob, and before it the same files as without the record.
pub proof fn law_list_tracked(
    listing: &[u8],
    r: Result<Vec<TrackedFile>, NotUtf8>,
    longer: &[u8],
    s: Result<Vec<TrackedFile>, NotUtf8>,
    mode: Seq<char>,
    sha: Seq<char>,
    stage: Seq<char>,
    path: Seq<char>,
    i: int,
)
    requires
        call_ensures(list_tracked, (listing,), r),
        call_ensures(list_tracked, (longer,), s),
        r is Ok,
        listing@.len() == 0 || listing@.last() == 0,
        longer@ == listing@ + encode_utf8(
            mode + seq![' '] + sha + seq![' '] + stage + seq!['\t'] + path,
        ) + seq![0u8],
        is_word(mode),
        is_word(sha),
        is_word(stage),
        !encode_utf8(mode + seq![' '] + sha + seq![' '] + stage + seq!['\t'] + path).contains(0u8),
    ensures
        listing@.len() == 0 ==> r->Ok_0@.len() == 0,
        s is Ok,
        s->Ok_0@.len() == r->Ok_0@.len() + 1,
        s->Ok_0@.last().path@ == path,
        s->Ok_0@.last().index_blob_sha@ == sha,
        0 <= i < r->Ok_0@.len() ==> s->Ok_0@[i].path@ == r->Ok_0@[i].path@
            && s->Ok_0@[i].index_blob_sha@ == r->Ok_0@[i].index_blob_sha@,
{
    law_listing_reads_back(listing@, mode, sha, stage, path);
    let a = tracked_views(r->Ok_0@);
    let b = tracked_views(s->Ok_0@);
    assert(listing@ + listed_record(mode, sha, stage, path) + seq![0u8] == longer@);
    assert(b == a.push(TrackedFileView { path, index_blob_sha: sha }));
    assert(a.len() == r->Ok_0@.len() && b.len() == s->Ok_0@.len());
    assert(b[a.len() as int] == s->Ok_0@.last()@);
    if 0 <= i < a.len() {
        assert(a[i] == r->Ok_0@[i]@ && b[i] == s->Ok_0@[i]@);
    }
    if listing@.len() == 0 {
        assert(listing@ == Seq::<u8>::empty());
    }
}

/// A list of changed files gives one path more for one record more.
pub proof fn law_modified_paths(
    listing: &[u8],
    r: Result<Vec<String>, NotUtf8>,
    longer: &[u8],
    s: Result<Vec<String>, NotUtf8>,
    path: Seq<char>,
)
    requires
        call_ensures(modified_paths, (listing,), r),
        call_ensures(modified_paths, (longer,), s),
        r is Ok,
        listing@.len() == 0 || listing@.last() == 0,
        longer@ == listing@ + encode_utf8(path) + seq![0u8],
        path.len() > 0,
        !encode_utf8(path).contains(0u8),
    ensures
        listing@.len() == 0 ==> r->Ok_0@.len() == 0,
        s is Ok,
        views(s->Ok_0@) == views(r->Ok_0@).push(path),
{
    law_changes_read_back(listing@, path);
    if listing@.len() == 0 {
        assert(listing@ == Seq::<u8>::empty());
        assert(views(r->Ok_0@).len() == r->Ok_0@.len());
    }
}

/// What is packed is unpacked: the dimension, the lines and the vectors come back as
/// they were, also where something follows them.
pub proof fn law_pack_and_unpack(
    dim: usize,
    ranges: &[(u32, u32)],
    bits: &[u32],
    b: Vec<u8>,
    stored: &[u8],
    r: Result<Payload, PayloadError>,
    n: Option<u32>,
    d: Option<u16>,
)
    requires
        call_ensures(pack_payload, (dim, ranges, bits), b),
        bits@.len() == ranges@.len() * dim,
        dim <= u16::MAX,
        ranges@.len() <= u32::MAX,
        b@.is_prefix_of(stored@),
        call_ensures(unpack_payload, (stored,), r),
        call_ensures(peek_n, (stored,), n),
        call_ensures(peek_dim, (stored,), d),
    ensures
        b@.len() == 12 + 8 * ranges@.len() + 4 * bits@.len(),
        r is Ok,
        r->Ok_0.dim == dim,
        r->Ok_0.ranges@ == ranges@,
        r->Ok_0.bits@ == bits@,
        n is Some && n->0 == ranges@.len(),
        d is Some && d->0 == dim,
{
    law_header_pack(dim as nat, ranges@, bits@);
    law_unpack_pack(dim as nat, ranges@, bits@);
    let more = stored@.skip(b@.len() as int);
    assert(stored@ =~= b@ + more);
    law_pack_unpack(b@, more);
    law_peek_shows_payload(stored@);
    assert(r->Ok_0@ == unpacked(stored@)->Ok_0);
}

/// A note stands at the object's name, split by a slash behind two digits, and from
/// there the name is read back.
pub proof fn law_note_place(sha: &str, p: String, path: &str, r: Option<String>)
    requires
        is_object_name(sha@),
        call_ensures(note_subpath, (sha,), p),
        path@ == p@,
        call_ensures(sha_from_note_path, (path,), r),
    ensures
        p@ == sha@.take(2) + seq!['/'] + sha@.skip(2),
        r is Some,
        r->0@ == sha@,
{
    law_note_path_reads_back(sha@);
    law_note_path_form(sha@, path@);
    assert(p@ =~= p@.take(2) + seq![p@[2]] + p@.skip(3));
}

/// What git prints for some objects is read back object by object, missing ones
/// among them, whatever their contents.
pub proof fn law_batch_cat(
    answers: Seq<(Seq<char>, Option<Seq<u8>>)>,
    more: Seq<u8>,
    output: &[u8],
    count: usize,
    r: Result<Vec<Option<Vec<u8>>>, StoreError>,
    i: int,
)
    requires
        forall|x: int|
            0 <= x < answers.len() ==> is_object_name((#[trigger] answers[x]).0) && (
            answers[x].1 matches Some(c) ==> c.len() <= usize::MAX),
        output@ == answers.map_values(
            |x: (Seq<char>, Option<Seq<u8>>)| answer_record(x),
        ).flatten() + more,
        count == answers.len(),
        call_ensures(batch_cat_blobs, (output, count), r),
        0 <= i < answers.len(),
    ensures
        r is Ok,
        r->Ok_0@.len() == answers.len(),
        answers[i].1 is None ==> r->Ok_0@[i] is None,
        answers[i].1 matches Some(c) ==> r->Ok_0@[i] is Some && r->Ok_0@[i]->0@ == c,
{
    law_answers_read_back(answers, more);
    let got = object_views(r->Ok_0@);
    let want = answers.map_values(|x: (Seq<char>, Option<Seq<u8>>)| x.1);
    assert(got == want);
    assert(got.len() == r->Ok_0@.len());
    assert(got[i] == object_view(r->Ok_0@[i]));
    assert(want[i] == answers[i].1);
}

/// A commit of a store that changed holds every pending payload that is wanted, from
/// its first byte to its last, behind its size, and puts it where the blob's note
/// belongs. A store that did not change commits nothing.
pub proof fn law_commit(
    store: &Store,
    parent: &Option<String>,
    listing: &[u8],
    now: u64,
    r: Result<Option<Vec<u8>>, StoreError>,
    sha: Seq<char>,
) -> (w: (Seq<u8>, nat, Seq<u8>))
    requires
        call_ensures(Store::commit, (store, parent, listing, now), r),
        proper(store@),
        r is Ok,
    ensures
        r->Ok_0 is None <==> !store.dirty,
        store.dirty && store.blob_payloads@.contains_key(sha) && (
        store.referenced matches Some(set) ==> set@.contains(sha)) ==> {
            let stream = r->Ok_0->0@;
            let payload = store.blob_payloads@[sha]@;
            let line = encode_utf8("M 100644 :"@ + decimal(w.1) + " "@ + note_path(sha) + "\n"@);
            &&& stream == w.0 + encode_utf8(
                "blob\nmark :"@ + decimal(w.1) + "\ndata "@ + decimal(payload.len()) + "\n"@,
            ) + payload + w.2
            &&& occurs(line, stream)
        },
{
    let s = store@;
    let existing = existing_entries(parent is Some, listing@);
    let p = parent_view(*parent);
    if store.dirty && store.blob_payloads@.contains_key(sha) && (
    store.referenced matches Some(set) ==> set@.contains(sha)) {
        let stream = r->Ok_0->0@;
        assert(s.pending.contains_key(sha));
        assert(s.pending[sha] == store.blob_payloads@[sha]@);
        let i = law_commit_writes_pending(s, existing, sha);
        let mark = (i + 1) as nat;
        let around = law_stream_carries_payload(s, p, existing, now as nat, i);
        let beside = law_stream_carries_note(s, p, existing, now as nat, i);
        let line = encode_utf8("M 100644 :"@ + decimal(mark) + " "@ + note_path(sha) + "\n"@);
        let _ = law_occurs(beside.0, line, beside.1);
        (around.0, mark, around.1)
    } else {
        (Seq::empty(), 0, Seq::empty())
    }
}

/// Every textual file that git lists comes out with its blob: that of the index
/// where git does not list it as changed, and that of its bytes where it does and
/// they are given.
pub proof fn law_file_details(
    ls_files: &[u8],
    diff: &[u8],
    contents: &StrMap<Vec<u8>>,
    files: Vec<TrackedFile>,
    changed: Vec<String>,
    r: Result<Vec<TrackedBlob>, NotUtf8>,
    i: int,
) -> (m: int)
    requires
        call_ensures(list_tracked, (ls_files,), Ok::<Vec<TrackedFile>, NotUtf8>(files)),
        call_ensures(modified_paths, (diff,), Ok::<Vec<String>, NotUtf8>(changed)),
        call_ensures(list_tracked_with_blob_details, (ls_files, diff, contents), r),
        0 <= i < files@.len(),
        textual(files@[i].path@),
    ensures
        r is Ok,
        !views(changed@).contains(files@[i].path@) || contents@.contains_key(files@[i].path@) ==> {
            let b = r->Ok_0@[m];
            &&& 0 <= m < r->Ok_0@.len()
            &&& b.path@ == files@[i].path@
            &&& b.raw_sha == views(changed@).contains(files@[i].path@)
            &&& b.raw_sha ==> b.sha@ == blob_name(contents@[files@[i].path@]@)
            &&& !b.raw_sha ==> b.sha@ == files@[i].index_blob_sha@
        },
{
    let all = tracked_views(files@);
    let modified = views(changed@);
    let disk = contents_view(contents@);
    assert(all[i] == files@[i]@);
    law_file_has_blob(all, modified, disk, i);
    let out = blob_views(r->Ok_0@);
    let path = files@[i].path@;
    let raw = modified.contains(path);
    if raw && contents@.contains_key(path) {
        let b = TrackedBlobView { path, sha: blob_name(disk[path]), raw_sha: true };
        let m = choose|m: int| 0 <= m < out.len() && out[m] == b;
        assert(out[m] == r->Ok_0@[m]@);
        m
    } else if !raw {
        let b = TrackedBlobView { path, sha: files@[i].index_blob_sha@, raw_sha: false };
        let m = choose|m: int| 0 <= m < out.len() && out[m] == b;
        assert(out[m] == r->Ok_0@[m]@);
        m
    } else {
        0
    }
}

/// A plan embeds every blob that a file holds and that has no note, once, reads it
/// from such a file, and embeds no other.
pub proof fn law_index_plan(
    held: &Vec<TrackedBlob>,
    known: &StrSet,
    plan: IndexPlan,
    i: int,
    j: int,
) -> (w: (int, int))
    requires
        call_ensures(IndexPlan::new, (held, known), plan),
        0 <= i < held@.len(),
        0 <= j < plan.to_embed@.len(),
    ensures
        !known@.contains(held@[i].sha@) ==> 0 <= w.0 < plan.to_embed@.len()
            && plan.to_embed@[w.0].sha@ == held@[i].sha@,
        !known@.contains(plan.to_embed@[j].sha@),
        forall|m: int|
            0 <= m < plan.to_embed@.len() && m != j ==> (#[trigger] plan.to_embed@[m]).sha@
                != plan.to_embed@[j].sha@,
        0 <= w.1 < held@.len(),
        held@[w.1].path@ == plan.to_embed@[j].path@,
        held@[w.1].sha@ == plan.to_embed@[j].sha@,
        held@[w.1].raw_sha == plan.to_embed@[j].verify_raw_sha,
        plan.files_total == held@.len(),
        plan.blobs_already_cached + plan.to_embed@.len() == plan.blobs_unique,
{
    let all = blob_views(held@);
    assert(all[i] == held@[i]@);
    let w = law_plan_embeds_what_lacks(plan, all, known@, i, j);
    assert(all[w.1] == held@[w.1]@);
    w
}

/// A blob that was planned by the bytes on disk is refused if the bytes hash to
/// another name, and only then; otherwise it has the chunks of the bytes, all of
/// them and in order.
pub proof fn law_chunk_blob(
    planned: &Planned,
    bytes: &[u8],
    r: Option<ChunkedBlob>,
    name: String,
    chunks: Vec<Chunk>,
    k: int,
)
    requires
        call_ensures(chunk_blob, (planned, bytes), r),
        call_ensures(git_blob_sha1, (bytes,), name),
        call_ensures(chunk_bytes, (bytes,), chunks),
    ensures
        r is None <==> planned.verify_raw_sha && name@ != planned.sha@,
        r matches Some(b) ==> {
            &&& b.sha@ == planned.sha@
            &&& b.ranges@.len() == chunks@.len()
            &&& b.texts@.len() == chunks@.len()
            &&& 0 <= k < chunks@.len() ==> b.ranges@[k] == (
                chunks@[k].start_line,
                chunks@[k].end_line,
            ) && b.texts@[k]@ == chunks@[k].text@
        },
{
    if r is Some {
        let b = r->0;
        let all = chunk_views(chunks@);
        assert(all.len() == chunks@.len());
        assert(views(b.texts@).len() == b.texts@.len());
        assert(b@ == chunked(planned.sha@, all));
        if 0 <= k < chunks@.len() {
            law_blob_keeps_chunks(planned.sha@, all, k);
            assert(all[k] == chunks@[k]@);
            assert(views(b.texts@)[k] == b.texts@[k]@);
        } else {
            assert(chunked(planned.sha@, all).texts.len() == all.len());
        }
    }
}

/// Two files with one extension, in letters of either case, are both textual or
/// neither, whatever their directories and names, if neither is excluded.
pub proof fn law_textual_like_its_kind(
    a: &str,
    ra: bool,
    b: &str,
    rb: bool,
    dir_a: Seq<char>,
    dir_b: Seq<char>,
    stem_a: Seq<char>,
    stem_b: Seq<char>,
    tail_a: Seq<char>,
    tail_b: Seq<char>,
)
    requires
        call_ensures(looks_textual, (a,), ra),
        call_ensures(looks_textual, (b,), rb),
        a@ == dir_a + stem_a + seq!['.'] + tail_a,
        b@ == dir_b + stem_b + seq!['.'] + tail_b,
        dir_a.len() == 0 || dir_a.last() == '/',
        dir_b.len() == 0 || dir_b.last() == '/',
        !stem_a.contains('/') && !stem_b.contains('/'),
        !tail_a.contains('/') && !tail_b.contains('/'),
        !tail_a.contains('.') && !tail_b.contains('.'),
        lower(tail_a) == lower(tail_b),
        !excluded(a@) && !excluded(b@),
    ensures
        ra == rb,
{
    law_textual_by_extension(dir_a, stem_a, tail_a);
    law_textual_by_extension(dir_b, stem_b, tail_b);
}

/// Rows are restored to where they were taken from.
pub proof fn law_restore_rows(
    order: &Vec<usize>,
    bits: &[u32],
    dim: usize,
    r: Vec<u32>,
    i: int,
)
    requires
        call_ensures(restore_rows, (order, bits, dim), r),
        is_permutation(position_values(order@)),
        bits@.len() >= order@.len() * dim,
        0 <= i < order@.len(),
    ensures
        r@.len() == order@.len() * dim,
        r@.subrange(order@[i] * dim, order@[i] * dim + dim) == bits@.subrange(
            i * dim,
            i * dim + dim,
        ),
{
    let o = position_values(order@);
    assert(o[i] == order@[i]);
    law_rows_go_back(o, bits@, dim as nat, i);
}

/// Texts are embedded by their length in bytes, each once, and those of one length in
/// their order.
pub proof fn law_embedding_order(texts: &Vec<String>, r: Vec<usize>, a: int, b: int)
    requires
        call_ensures(embedding_order, (texts,), r),
        0 <= a < b < texts@.len(),
    ensures
        r@.len() == texts@.len(),
        r@[a] < texts@.len(),
        r@[b] < texts@.len(),
        r@[a] != r@[b],
        encode_utf8(texts@[r@[a] as int]@).len() <= encode_utf8(texts@[r@[b] as int]@).len(),
        encode_utf8(texts@[r@[a] as int]@).len() == encode_utf8(texts@[r@[b] as int]@).len()
            ==> r@[a] < r@[b],
{
    let all = views(texts@);
    let o = position_values(r@);
    law_texts_go_by_length(all, a, b);
    lemma_text_order(all);
    assert(o.len() == r@.len());
    assert(o[a] == r@[a] && o[b] == r@[b]);
    assert(0 <= o[b] < texts@.len());
    assert(all[o[a]] == texts@[r@[a] as int]@);
    assert(all[o[b]] == texts@[r@[b] as int]@);
}

/// What goes out in shards comes back row by row: the row of text `i` is the vector
/// that its shard gave for it, and each shard gets every text of its turn.
pub proof fn law_shards_and_back(
    texts: &Vec<String>,
    workers: usize,
    shards: Vec<Vec<String>>,
    results: &Vec<Option<Vec<Vec<u32>>>>,
    dim: usize,
    r: Result<Vec<u32>, GatherError>,
    i: int,
    c: int,
)
    requires
        call_ensures(shard_texts, (texts, workers), shards),
        call_ensures(gather_shards, (results, texts.len(), dim), r),
        texts@.len() * dim <= usize::MAX,
        results@.len() == shards@.len(),
        forall|w: int|
            0 <= w < results@.len() ==> (#[trigger] results@[w]) is Some
                && results@[w]->0@.len() == shards@[w]@.len(),
        r is Ok,
        0 <= i < texts@.len(),
        0 <= c < dim,
    ensures
        ({
            let n = shards@.len() as int;
            &&& n >= 1
            &&& (i / n) < shards@[i % n]@.len()
            &&& shards@[i % n]@[i / n]@ == texts@[i]@
            &&& r->Ok_0@.len() == texts@.len() * dim
            &&& r->Ok_0@[i * dim + c] == results@[i % n]->0@[i / n]@[c]
        }),
{
    let n = shards@.len() as int;
    let all = views(texts@);
    let parts = Seq::new(shards@.len(), |w: int| views(shards@[w]@));
    law_shard_count(workers as nat, texts@.len());
    assert forall|x: int| #![trigger parts[x]] 0 <= x < parts.len() implies is_shard(
        parts[x],
        all,
        parts.len() as int,
        x,
    ) by {
        assert(parts[x] == views(shards@[x]@));
    }
    law_shards_deal_texts(all, parts, i, 0, 0);
    let w = i % n;
    let k = i / n;
    vstd::arithmetic::div_mod::lemma_fundamental_div_mod(i, n);
    vstd::arithmetic::div_mod::lemma_mod_bound(i, n);
    assert(parts[w] == views(shards@[w]@));
    assert(parts[w][k] == shards@[w]@[k]@);
    assert(all[i] == texts@[i]@);
    let got = result_views(results@);
    assert(results@[w] is Some);
    assert(got[w] == result_view(results@[w]));
    assert(got[w]->0.len() == results@[w]->0@.len());
    assert(0 <= k) by (nonlinear_arith)
        requires
            i == n * k + w,
            0 <= i,
            0 <= w < n,
    ;
    assert(w + k * n == i) by (nonlinear_arith)
        requires
            i == n * k + w,
    ;
    law_gathered_in_turn(got, w, k, c);
    assert(got[w]->0[k] == results@[w]->0@[k]@);
    lemma_row_fits(i, texts@.len() as int, dim as int);
    lemma_row_index(i, c, dim as int);
}

/// Items are cut into runs that follow one another without a gap from the first item
/// to the last, all of the size but the last, which may be shorter.
pub proof fn law_batch_ranges(n: usize, size: usize, r: Vec<(usize, usize)>, j: int)
    requires
        call_ensures(batch_ranges, (n, size), r),
        size >= 1,
        n >= 1,
        0 <= j < r@.len(),
    ensures
        r@[0].0 == 0,
        r@[r@.len() - 1].1 == n,
        r@[j].0 < r@[j].1 <= n,
        r@[j].1 - r@[j].0 <= size,
        j + 1 < r@.len() ==> r@[j].1 == r@[j + 1].0 && r@[j].1 - r@[j].0 == size,
{
    law_ranges_cover(r@, n as int, size as int, j, 0);
}

/// Tokens are laid out row by row: each text has a row to itself, its tokens from the
/// first cell on, each marked by a one, and zeros behind them.
pub proof fn law_pad_batch(
    encodings: &Vec<Encoded>,
    max: usize,
    r: Option<PaddedBatch>,
    row: int,
    c: int,
)
    requires
        call_ensures(pad_batch, (encodings, max), r),
        r is Some,
        0 <= row < encodings@.len(),
        0 <= c < r->0.width,
    ensures
        ({
            let p = r->0;
            let ids = encodings@[row].ids@;
            let x = row * p.width + c;
            &&& p.rows == encodings@.len()
            &&& p.ids@.len() == p.rows * p.width
            &&& c < ids.len() ==> p.ids@[x] == ids[c] && p.mask@[x] == 1
            &&& c >= ids.len() ==> p.ids@[x] == 0 && p.mask@[x] == 0
            &&& ids.len() <= p.width || max <= p.width
        }),
{
    let all = encoded_views(encodings@);
    assert(all[row] == encodings@[row]@);
    law_padded_row_by_row(r->0, all, max as nat, row, c);
    let _ = law_width_is_longest(all, max as nat);
}

/// A corpus that is written and read again holds the same texts.
pub proof fn law_corpus_round_trip(
    texts: &Vec<String>,
    b: Vec<u8>,
    bytes: &[u8],
    r: Result<Vec<String>, CorpusError>,
)
    requires
        call_ensures(crate::corpus::write, (texts,), b),
        bytes@ == b@,
        call_ensures(crate::corpus::read, (bytes,), r),
        forall|i: int|
            0 <= i < texts@.len() ==> encode_utf8((#[trigger] texts@[i])@).len() <= u32::MAX,
        texts@.len() <= u64::MAX,
    ensures
        r is Ok,
        views(r->Ok_0@) == views(texts@),
{
    let all = views(texts@);
    assert forall|i: int| 0 <= i < all.len() implies encode_utf8(#[trigger] all[i]).len()
        <= u32::MAX by {
        assert(all[i] == texts@[i]@);
    }
    law_corpus_reads_back(all);
}

/// A number that is written in decimal reads as itself.
pub proof fn law_number_round_trip(n: u128, s: String, t: &str, r: Option<u64>)
    requires
        call_ensures(decimal_string, (n,), s),
        t@ == s@,
        call_ensures(parse_u64, (t,), r),
    ensures
        n <= u64::MAX ==> r is Some && r->0 == n,
        n > u64::MAX ==> r is None,
{
    law_decimal_parses(n as nat);
}

/// A text that is split at a character and joined by it is the text again, and no
/// piece holds the character.
pub proof fn law_split_and_join(
    s: &str,
    sep: char,
    parts: Vec<String>,
    list: &Vec<String>,
    by: &str,
    r: String,
    i: int,
)
    requires
        call_ensures(split_string, (s, sep), parts),
        list@ == parts@,
        by@ == seq![sep],
        call_ensures(join_strings, (list, by), r),
        0 <= i < parts@.len(),
    ensures
        r@ == s@,
        !parts@[i]@.contains(sep),
{
    law_join_split(s@, sep);
    assert(views(parts@)[i] == parts@[i]@);
    law_split_pieces(s@, sep, i);
}

/// The lines that are shown for a chunk are the lines that it was made of: the text
/// of the chunk starts them, and is all of them if they are not too long.
pub proof fn law_excerpt_of_chunk(
    text: &str,
    chunks: Vec<Chunk>,
    k: int,
    lines: Vec<String>,
    start_line: u32,
    end_line: u32,
)
    requires
        call_ensures(chunk_text, (text,), chunks),
        lines_of(text@).len() <= u32::MAX,
        0 <= k < chunks@.len(),
        start_line == chunks@[k].start_line,
        end_line == chunks@[k].end_line,
        call_ensures(excerpt, (text, start_line, end_line), lines),
    ensures
        ({
            let body = join(views(lines@), seq!['\n']);
            let t = chunks@[k].text@;
            &&& lines@.len() == end_line - start_line + 1
            &&& t.len() <= body.len()
            &&& t == body.take(t.len() as int)
            &&& encode_utf8(body).len() <= 4000 ==> t == body
        }),
{
    law_chunk_text(text, chunks, k);
    let all = chunk_views(chunks@);
    assert(all[k] == chunks@[k]@);
    law_excerpt_shows_chunk(text@, k);
    assert(views(lines@).len() == lines@.len());
}

/// Automatic sessions fit into the memory beside a GiB and a half and a quarter of
/// it, three quarters of a GiB each, unless there is only one; there are no more
/// than cores, or than eight.
pub proof fn law_auto_workers(model: &str, cpus: usize, ram: Option<u64>, r: usize)
    requires
        call_ensures(auto_worker_count, (model, cpus, ram), r),
    ensures
        1 <= r <= 8,
        r > 1 ==> r <= cpus && ram is Some && 0x3000_0000 * r + 0x6000_0000 <= ram->0 && 4 * (
        0x3000_0000 * r) <= 3 * ram->0,
{
    if ram is Some {
        law_workers_fill_memory(model@, cpus as nat, ram->0 as nat);
    } else {
        law_workers_fill_memory(model@, cpus as nat, 0);
    }
}

/// A group that is handed out and accepted is stored: each of its blobs has a pending
/// payload that reads as the blob's line ranges and, for each of its texts, the row
/// of vectors that came back at the place at which that text was handed out. No
/// other blob's payload changes.
pub proof fn law_group_round_trip(
    run: &mut IndexRun,
    batch: Option<Vec<String>>,
    out: &mut IndexRun,
    bits: &[u32],
    store: &mut Store,
    full: bool,
    k: int,
    j: int,
    other: Seq<char>,
)
    requires
        call_ensures(IndexRun::next_batch, (run,), batch),
        *old(out) == *final(run),
        call_ensures(IndexRun::accept, (out, bits, store), full),
        old(run).wf(),
        batch is Some,
        bits@.len() >= batch->0@.len() * old(run).dim,
        old(run).dim <= u16::MAX,
        forall|a: int, b: int|
            #![trigger old(run).blobs@[a], old(run).blobs@[b]]
            0 <= a < b < old(run).blobs@.len() ==> old(run).blobs@[a].sha@
                != old(run).blobs@[b].sha@,
        old(run).pos <= k < final(out).pos,
        0 <= j < old(run).blobs@[k].texts@.len() <= u32::MAX,
        forall|a: int|
            old(run).pos <= a < final(out).pos ==> (#[trigger] old(run).blobs@[a]).sha@ != other,
    ensures
        old(run).pos < final(out).pos <= old(run).blobs@.len(),
        ({
            let d = old(run).dim as int;
            let b = old(run).blobs@[k];
            let p = unpacked(final(store).blob_payloads@[b.sha@]@)->Ok_0;
            &&& final(store).dirty
            &&& final(store).blob_payloads@.contains_key(b.sha@)
            &&& unpacked(final(store).blob_payloads@[b.sha@]@) is Ok
            &&& p.dim == d
            &&& p.ranges == b.ranges@
            &&& p.bits.len() == b.texts@.len() * d
            &&& exists|i: int|
                0 <= i < batch->0@.len() && (#[trigger] batch->0@[i])@ == b.texts@[j]@
                    && p.bits.subrange(j * d, j * d + d) == bits@.subrange(i * d, i * d + d)
        }),
        final(store).blob_payloads@.contains_key(other) <==> old(store).blob_payloads@.contains_key(other),
        old(store).blob_payloads@.contains_key(other) ==> final(store).blob_payloads@[other]@
            == old(store).blob_payloads@[other]@,
{
    let mid = *final(run);
    let queue = mid.queue();
    let group = mid.group();
    let dim = mid.dim as nat;
    let texts = all_texts(group);
    let pos = mid.pos as int;
    assert(queue == chunked_views(old(run).blobs@));
    lemma_all_texts_len(group);
    lemma_text_order(texts);
    let v = batch->0;
    assert(views(v@).len() == v@.len());
    assert(v@.len() == total(group));
    assert forall|a: int, b: int|
        #![trigger group[a], group[b]]
        0 <= a < b < group.len() implies group[a].sha != group[b].sha by {
        assert(queue[pos + a] == old(run).blobs@[pos + a]@);
        assert(queue[pos + b] == old(run).blobs@[pos + b]@);
    }
    let m = k - pos;
    assert(group[m] == queue[k]);
    assert(queue[k] == old(run).blobs@[k]@);
    assert(old(run).blobs@[k].ranges@.len() == old(run).blobs@[k].texts@.len());
    assert(views(old(run).blobs@[k].texts@).len() == old(run).blobs@[k].texts@.len());
    let pending = old(store)@.pending;
    let i = law_payload_holds_rows(pending, group, bits@, dim, m, j);
    assert(views(v@)[i] == v@[i]@);
    assert(group[m].texts[j] == old(run).blobs@[k].texts@[j]@);
    let rows = scattered(text_order(texts), bits@, dim);
    law_group_is_stored(pending, group, rows, dim, other);
    assert forall|a: int| 0 <= a < group.len() implies (#[trigger] group[a]).sha != other by {
        assert(queue[pos + a] == old(run).blobs@[pos + a]@);
    }
    let sha = group[m].sha;
    assert(final(store)@.pending == with_payloads(pending, group, rows, dim));
    assert(final(store)@.pending.contains_key(sha));
    assert(final(store)@.pending[sha] == final(store).blob_payloads@[sha]@);
    assert(final(store)@.pending.contains_key(other) <==> final(store).blob_payloads@.contains_key(other));
    assert(pending.contains_key(other) <==> old(store).blob_payloads@.contains_key(other));
}

/// A commit that reached the ref leaves nothing pending and the store unchanged
/// otherwise; one that did not leaves everything, and is tried again exactly if the
/// ref has moved.
pub proof fn law_finish_commit(
    store: &mut Store,
    success: bool,
    parent: &Option<String>,
    tip: &Option<String>,
    r: CommitStep,
    sha: Seq<char>,
)
    requires
        call_ensures(Store::finish_commit, (store, success, parent, tip), r),
    ensures
        success ==> r == CommitStep::Committed && !final(store).dirty && !final(store).blob_payloads@.contains_key(sha) && final(store).referenced is None && final(store).removed@.len() == 0,
        final(store).dim == old(store).dim,
        final(store).short_id@ == old(store).short_id@,
        final(store).ref_name@ == old(store).ref_name@,
        !success ==> final(store)@ == old(store)@,
        !success && (parent is Some <==> tip is Some) && (parent is Some ==> parent->0@ == tip->0@)
            ==> r == CommitStep::Failed,
        !success && !((parent is Some <==> tip is Some) && (parent is Some ==> parent->0@
            == tip->0@)) ==> r == CommitStep::Retry,
{
    assert(final(store)@.pending.contains_key(sha) <==> final(store).blob_payloads@.contains_key(
        sha,
    ));
}

/// The payload that a blob is given reads as the lines and the vectors that it was
/// given, and the others stay as they are.
pub proof fn law_insert_chunks(
    store: &mut Store,
    sha: &str,
    ranges: &[(u32, u32)],
    bits: &[u32],
    dim: usize,
    other: Seq<char>,
)
    requires
        call_ensures(Store::insert_chunks, (store, sha, ranges, bits, dim), ()),
        bits@.len() == ranges@.len() * dim,
        dim <= u16::MAX,
        ranges@.len() <= u32::MAX,
        other != sha@,
    ensures
        final(store).dirty,
        final(store).blob_payloads@.contains_key(sha@),
        ({
            let p = unpacked(final(store).blob_payloads@[sha@]@);
            p is Ok && p->Ok_0.dim == dim && p->Ok_0.ranges == ranges@ && p->Ok_0.bits == bits@
        }),
        final(store).blob_payloads@.contains_key(other) <==> old(store).blob_payloads@.contains_key(other),
        old(store).blob_payloads@.contains_key(other) ==> final(store).blob_payloads@[other]@
            == old(store).blob_payloads@[other]@,
        final(store)@.referenced == old(store)@.referenced,
        final(store)@.removed == old(store)@.removed,
{
    law_unpack_pack(dim as nat, ranges@, bits@);
    assert(final(store)@.pending.contains_key(sha@));
    assert(final(store)@.pending[sha@] == final(store).blob_payloads@[sha@]@);
    assert(final(store)@.pending.contains_key(other) <==> final(store).blob_payloads@.contains_key(other));
    assert(old(store)@.pending.contains_key(other) <==> old(store).blob_payloads@.contains_key(
        other,
    ));
    if old(store).blob_payloads@.contains_key(other) {
        assert(final(store)@.pending[other] == final(store).blob_payloads@[other]@);
        assert(old(store)@.pending[other] == old(store).blob_payloads@[other]@);
    }
}

/// The watchdog keeps the most memory that it has seen, and calls for an end exactly
/// when there is a bound and the process is above it.
pub proof fn law_watch(watch: &mut Watch, rss: u64, r: bool)
    requires
        call_ensures(Watch::observe, (watch, rss), r),
    ensures
        final(watch).peak >= rss,
        final(watch).peak >= old(watch).peak,
        final(watch).peak == rss || final(watch).peak == old(watch).peak,
        final(watch).budget == old(watch).budget,
        r <==> old(watch).budget is Some && rss > old(watch).budget->0,
{
}

/// The hidden state is the first output of three axes of which the last is the
/// dimension.
pub proof fn law_hidden_state(
    shapes: &Vec<Option<Vec<i64>>>,
    dim: usize,
    r: Option<usize>,
    i: int,
)
    requires
        call_ensures(hidden_state, (shapes, dim), r),
        0 <= i < shapes@.len(),
    ensures
        shapes@[i] is Some && shapes@[i]->0@.len() == 3 && shapes@[i]->0@[2] == dim ==> r is Some
            && r->0 <= i,
        r is Some ==> r->0 < shapes@.len() && shapes@[r->0 as int] is Some && shapes@[
            r->0 as int
        ]->0@.len() == 3,
{
    let here = shape_view(shapes@[i]);
    if shapes@[i] is Some && shapes@[i]->0@.len() == 3 && shapes@[i]->0@[2] == dim {
        assert(is_hidden_state(here, dim));
    }
}

/// A pinned version is reported as it is; without one, a tag is reported without the
/// `v` before it, where the package is a repository of its own.
pub proof fn law_build_version(
    value: Option<&str>,
    described: Option<&str>,
    tag: Seq<char>,
    package: &str,
    r: String,
)
    requires
        call_ensures(build_version, (value, true, true, described, package), r),
        described is Some && described->0@ == seq!['v'] + tag,
    ensures
        value is None ==> r@ == tag,
        value matches Some(v) ==> v@.len() > 0 && !is_space(v@[0]) && !is_space(v@.last())
            && !v@.contains('\n') && !v@.contains('\r') ==> r@ == v@,
{
    let none = Seq::<char>::empty();
    let one = seq!['x'];
    law_version_choice(one, none, none, None, true, true, tag, package@);
    if value is Some {
        let v = value->0@;
        if v.len() > 0 && !is_space(v[0]) && !is_space(v.last()) && !v.contains('\n')
            && !v.contains('\r') {
            law_version_choice(v, none, none, text_view(described), true, true, tag, package@);
            assert(none + v + none =~= v);
        }
    }
}

/// A row passes the filter exactly if its blob is held at a path that begins with it.
pub proof fn law_row_passes(
    index: &Index,
    i: usize,
    path_prefix: Option<&str>,
    r: bool,
) -> (j: int)
    requires
        call_ensures(Index::row_passes, (index, i, path_prefix), r),
        i < index.meta@.len(),
    ensures
        ({
            let sha = index.meta@[i as int].blob_sha@;
            let m = index.blob_to_paths@;
            &&& r ==> m.contains_key(sha) && 0 <= j < m[sha]@.len() && begins(
                m[sha]@[j]@,
                prefix_view(path_prefix),
            )
            &&& m.contains_key(sha) && (exists|x: int|
                0 <= x < m[sha]@.len() && begins(
                    (#[trigger] m[sha]@[x])@,
                    prefix_view(path_prefix),
                )) ==> r
        }),
{
    let sha = index.meta@[i as int].blob_sha@;
    let prefix = prefix_view(path_prefix);
    let m = index.blob_to_paths@;
    let paths = index.paths(sha);
    if m.contains_key(sha) && exists|x: int|
        0 <= x < m[sha]@.len() && begins((#[trigger] m[sha]@[x])@, prefix) {
        let x = choose|x: int| 0 <= x < m[sha]@.len() && begins((#[trigger] m[sha]@[x])@, prefix);
        assert(paths[x] == m[sha]@[x]@);
        law_filter_takes_prefixes(paths[x], prefix);
        lemma_path_is_kept(paths, prefix, paths[x]);
    }
    if r {
        lemma_matching_path(paths, prefix, 0);
        let p = matching_paths(paths, prefix)[0];
        law_filter_takes_prefixes(p, prefix);
        let j = choose|j: int| 0 <= j < paths.len() && paths[j] == p;
        assert(paths[j] == m[sha]@[j]@);
        j
    } else {
        0
    }
}

/// The pairs of paths and blobs are those of the files with their blobs, one by one.
pub proof fn law_paths_and_blobs(
    ls_files: &[u8],
    diff: &[u8],
    contents: &StrMap<Vec<u8>>,
    r: Result<Vec<(String, String)>, NotUtf8>,
    s: Result<Vec<TrackedBlob>, NotUtf8>,
    i: int,
)
    requires
        call_ensures(list_tracked_with_blobs, (ls_files, diff, contents), r),
        call_ensures(list_tracked_with_blob_details, (ls_files, diff, contents), s),
    ensures
        r is Ok <==> s is Ok,
        r is Ok ==> r->Ok_0@.len() == s->Ok_0@.len(),
        r is Ok && 0 <= i < r->Ok_0@.len() ==> r->Ok_0@[i].0@ == s->Ok_0@[i].path@
            && r->Ok_0@[i].1@ == s->Ok_0@[i].sha@,
{
    if r is Ok {
        let a = r->Ok_0@.map_values(|p: (String, String)| (p.0@, p.1@));
        let b = blob_views(s->Ok_0@);
        assert(a == path_and_sha(b));
        assert(a.len() == r->Ok_0@.len() && b.len() == s->Ok_0@.len());
        if 0 <= i < a.len() {
            assert(a[i] == (r->Ok_0@[i].0@, r->Ok_0@[i].1@));
            assert(path_and_sha(b)[i] == (b[i].path, b[i].sha));
            assert(b[i] == s->Ok_0@[i]@);
        }
    }
}

/// The blobs that have a note are those at whose place the listing of the ref shows
/// something: a line for the note of an object makes it known, whatever the other
/// lines say, and without such a line it is not.
pub proof fn law_known_blobs(
    store: &Store,
    listing: &[u8],
    r: Result<StrSet, StoreError>,
    text: Seq<char>,
    before: Seq<Seq<char>>,
    mode: Seq<char>,
    kind: Seq<char>,
    oid: Seq<char>,
    sha: Seq<char>,
    behind: Seq<Seq<char>>,
)
    requires
        call_ensures(Store::known_blob_shas, (store, listing), r),
        listing@ == encode_utf8(text),
        is_word(mode),
        is_word(kind),
        is_word(oid),
        is_object_name(sha),
        text_lines(text) == before + seq![
            mode + seq![' '] + kind + seq![' '] + oid + seq!['\t'] + sha.take(2) + seq!['/']
                + sha.skip(2),
        ] + behind,
    ensures
        r is Ok,
        r->Ok_0@.contains(sha),
{
    encode_utf8_valid_utf8(text);
    encode_utf8_decode_utf8(text);
    law_note_path_reads_back(sha);
    law_note_path_form(sha, sha);
    let p = note_path(sha);
    assert(p =~= p.take(2) + seq![p[2]] + p.skip(3));
    let head = mode + seq![' '] + kind + seq![' '] + oid + seq!['\t'];
    let line = head + p;
    assert(line =~= head + sha.take(2) + seq!['/'] + sha.skip(2));
    law_listing_line_by_line(before + seq![line], behind, mode, kind, oid, p);
    law_listing_line_by_line(before, seq![line], mode, kind, oid, p);
    let all = listed_shas(text_lines(text));
    assert(all[listed_shas(before).len() as int] == sha);
}

/// Vector `k` of batch `b` stands in row `b * size + k` of the matrix.
pub proof fn law_place_batches(
    results: &Vec<Vec<Vec<u32>>>,
    size: usize,
    n: usize,
    dim: usize,
    r: Vec<u32>,
    b: int,
    k: int,
    c: int,
)
    requires
        call_ensures(place_batches, (results, size, n, dim), r),
        n * dim <= usize::MAX,
        forall|x: int| 0 <= x < results@.len() ==> (#[trigger] results@[x])@.len() <= size,
        0 <= b < results@.len(),
        0 <= k < results@[b]@.len(),
        b * size + k < n,
        0 <= c < dim,
    ensures
        r@.len() == n * dim,
        r@[(b * size + k) * dim + c] == results@[b]@[k]@[c],
{
    let all = batch_views(results@);
    assert forall|x: int| 0 <= x < all.len() implies (#[trigger] all[x]).len() <= size by {
        assert(all[x].len() == results@[x]@.len());
    }
    assert(all[b].len() == results@[b]@.len());
    assert(all[b][k] == results@[b]@[k]@);
    law_batches_in_place(all, size as int, b, k, c);
    let row = b * size + k;
    assert(0 <= row) by (nonlinear_arith)
        requires
            row == b * size + k,
            0 <= b,
            0 <= k,
            0 <= size,
    ;
    lemma_row_fits(row, n as int, dim as int);
    lemma_row_index(row, c, dim as int);
}

/// The statistics of a run account for every blob: it is cached, embedded or skipped;
/// and none is pruned.
pub proof fn law_stats_add_up(
    plan: &IndexPlan,
    chunked_blobs: usize,
    chunks: usize,
    elapsed_ms: u128,
    r: IndexStats,
)
    requires
        call_ensures(IndexPlan::stats, (plan, chunked_blobs, chunks, elapsed_ms), r),
        plan.blobs_unique == plan.blobs_already_cached + plan.to_embed@.len(),
        chunked_blobs <= plan.to_embed@.len(),
    ensures
        r.blobs_already_cached + r.blobs_embedded + r.blobs_skipped == r.blobs_unique,
        r.blobs_embedded == chunked_blobs,
        r.blobs_pruned == 0,
        r.chunks_embedded == chunks,
        r.files_total == plan.files_total,
        r.blobs_unique == plan.blobs_unique,
        r.elapsed_ms == elapsed_ms,
{
}

/// What is left of a set without another is what is in the one and not in the other,
/// and what they share and what is left make up the set.
pub proof fn law_set_difference(
    a: &StrSet,
    b: &StrSet,
    rest: StrSet,
    shared: usize,
    x: Seq<char>,
)
    requires
        call_ensures(StrSet::minus, (a, b), rest),
        call_ensures(StrSet::count_in, (a, b), shared),
    ensures
        rest@.contains(x) <==> a@.contains(x) && !b@.contains(x),
        rest@.len() + shared == a@.len(),
{
    let left = |y: Seq<char>| !b@.contains(y);
    lemma_filter_parts(a@, b@);
    if a@.contains(x) && !b@.contains(x) {
        let i = choose|i: int| 0 <= i < a@.len() && a@[i] == x;
        a@.lemma_filter_contains(left, i);
    }
    if rest@.contains(x) {
        let i = choose|i: int| 0 <= i < rest@.len() && rest@[i] == x;
        a@.lemma_filter_pred(left, i);
        a@.lemma_filter_contains_rev(left, x);
    }
}

} // verus!
