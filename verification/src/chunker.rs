//! Line-window chunker.
//!
//! Simple, language-agnostic. Splits text into overlapping line windows.
//! Skips binary files and oversized files.

use vstd::prelude::*;
use vstd::slice::*;
use vstd::string::*;
use vstd::utf8::*;

use crate::text::{fit_bytes, join, law_fit_is_longest, law_join_split, law_split_at_separator, law_split_pieces, lemma_encode_concat, lemma_encode_injective, lemma_encode_take_grows, lemma_fit_bytes, lemma_fit_bytes_is, lemma_prefix_is_boundary, lemma_split_nonempty, split_on, split_string, utf8_string, views};

verus! {

pub const TARGET_LINES: usize = 40;

pub const OVERLAP_LINES: usize = 8;

pub const MAX_CHARS: usize = 4000;

pub const MIN_FILE_BYTES: usize = 16;

pub const MAX_FILE_BYTES: usize = 2_000_000;

/// How far into a file the search for a NUL byte goes.
pub const SNIFF_BYTES: usize = 8192;

/// One window of lines of a file.
#[derive(Debug, Clone)]
pub struct Chunk {
    pub text: String,
    /// 1-based, inclusive.
    pub start_line: u32,
    /// 1-based, inclusive.
    pub end_line: u32,
}

/// The model of a chunk.
pub struct ChunkView {
    pub text: Seq<char>,
    pub start_line: u32,
    pub end_line: u32,
}

impl View for Chunk {
    type V = ChunkView;

    open spec fn view(&self) -> ChunkView {
        ChunkView { text: self.text@, start_line: self.start_line, end_line: self.end_line }
    }
}

/// The views of a sequence of chunks.
pub open spec fn chunk_views(v: Seq<Chunk>) -> Seq<ChunkView> {
    v.map_values(|c: Chunk| c@)
}

/// The lines of a text, without their terminators. A final newline ends the
/// last line; it does not start another one.
pub open spec fn lines_of(text: Seq<char>) -> Seq<Seq<char>> {
    let lines = split_on(text, '\n');
    if lines.len() > 1 && lines.last().len() == 0 {
        lines.drop_last()
    } else {
        lines
    }
}

/// How far apart the starts of two neighbouring windows are.
pub open spec fn step() -> int {
    TARGET_LINES - OVERLAP_LINES
}

/// How many windows a text of `n` lines is cut into.
pub open spec fn window_count(n: int) -> int {
    if n <= TARGET_LINES {
        1
    } else {
        (n - TARGET_LINES + step() - 1) / step() + 1
    }
}

/// The first line of window `k`, counted from 0.
pub open spec fn window_start(k: int) -> int {
    k * step()
}

/// One past the last line of window `k` in a text of `n` lines.
pub open spec fn window_end(n: int, k: int) -> int {
    if window_start(k) + TARGET_LINES <= n {
        window_start(k) + TARGET_LINES
    } else {
        n
    }
}

/// The chunk that window `k` gives.
pub open spec fn chunk_at(lines: Seq<Seq<char>>, k: int) -> ChunkView {
    let n = lines.len() as int;
    let body = join(lines.subrange(window_start(k), window_end(n, k)), seq!['\n']);
    ChunkView {
        text: fit_bytes(body, MAX_CHARS as nat),
        start_line: (window_start(k) + 1) as u32,
        end_line: window_end(n, k) as u32,
    }
}

/// The chunks of a text: its windows in order.
pub open spec fn chunks_of(text: Seq<char>) -> Seq<ChunkView> {
    let lines = lines_of(text);
    Seq::new(window_count(lines.len() as int) as nat, |k: int| chunk_at(lines, k))
}

/// Calls `memchr::memchr`, which gives the index of the first occurrence of
/// `needle`, or `None` where there is none.
#[verifier::external_body]
fn find_byte(needle: u8, haystack: &[u8]) -> (r: Option<usize>)
    ensures
        match r {
            Some(i) => i < haystack@.len() && haystack@[i as int] == needle && forall|j: int|
                0 <= j < i ==> haystack@[j] != needle,
            None => !haystack@.contains(needle),
        },
{
    memchr::memchr(needle, haystack)
}

/// The bytes that the search for a NUL byte looks at.
pub open spec fn sniffed(data: Seq<u8>) -> Seq<u8> {
    if data.len() <= SNIFF_BYTES {
        data
    } else {
        data.take(SNIFF_BYTES as int)
    }
}

/// Quick & cheap binary sniff: any NUL in the first 8KB.
pub fn looks_binary(data: &[u8]) -> (r: bool)
    ensures
        r == sniffed(data@).contains(0u8),
{
    let n: usize = if data.len() < SNIFF_BYTES {
        data.len()
    } else {
        SNIFF_BYTES
    };
    let head = slice_subrange(data, 0, n);
    assert(head@ == sniffed(data@));
    find_byte(0, head).is_some()
}

/// Cuts a text at the last character boundary at or below `max` bytes.
pub fn truncate_chars(s: &str, max: usize) -> (r: String)
    ensures
        r@ == fit_bytes(s@, max as nat),
{
    let bytes = s.as_bytes();
    if bytes.len() <= max {
        return s.to_owned();
    }
    let mut i: usize = max;
    proof {
        encode_utf8_valid_utf8(s@);
    }
    while i > 0 && !s.is_char_boundary(i)
        invariant
            i <= max < bytes@.len(),
            bytes@ == encode_utf8(s@),
            forall|j: int| i < j <= max ==> !#[trigger] is_char_boundary(bytes@, j),
        decreases i,
    {
        i = i - 1;
    }
    proof {
        is_char_boundary_start_end_of_seq(bytes@);
    }
    let (head, tail) = s.split_at(i);
    proof {
        let k = head@.len() as int;
        lemma_encode_concat(head@, tail@);
        assert(bytes@ =~= bytes@.subrange(0, i as int) + bytes@.subrange(
            i as int,
            bytes@.len() as int,
        ));
        lemma_encode_injective(head@ + tail@, s@);
        assert(s@.take(k) == head@);
        if k < s@.len() {
            lemma_prefix_is_boundary(s@, k + 1);
            lemma_encode_take_grows(s@, k);
        }
        lemma_fit_bytes_is(s@, k, max as nat);
    }
    head.to_owned()
}

/// Joins lines with newlines between them.
pub fn join_lines(lines: &[String]) -> (r: String)
    ensures
        r@ == join(views(lines@), seq!['\n']),
{
    let mut s = String::new();
    let mut i: usize = 0;
    while i < lines.len()
        invariant
            i <= lines@.len(),
            s@ == join(views(lines@).take(i as int), seq!['\n']),
        decreases lines@.len() - i,
    {
        let ghost parts = views(lines@);
        assert(parts.take(i + 1).drop_last() == parts.take(i as int));
        if i > 0 {
            s.push('\n');
        }
        s.append(lines[i].as_str());
        assert(s@ == join(parts.take(i + 1), seq!['\n']));
        i = i + 1;
    }
    assert(views(lines@).take(lines@.len() as int) == views(lines@));
    s
}

/// The chunk of the lines from `start` up to `end`.
fn window_chunk(lines: &[String], start: usize, end: usize) -> (r: Chunk)
    requires
        start <= end <= lines@.len(),
        start < usize::MAX,
    ensures
        r@ == (ChunkView {
            text: fit_bytes(
                join(views(lines@).subrange(start as int, end as int), seq!['\n']),
                MAX_CHARS as nat,
            ),
            start_line: (start + 1) as u32,
            end_line: end as u32,
        }),
{
    let window = slice_subrange(lines, start, end);
    let body = join_lines(window);
    assert(views(window@) == views(lines@).subrange(start as int, end as int));
    Chunk {
        text: truncate_chars(body.as_str(), MAX_CHARS),
        start_line: (start + 1) as u32,
        end_line: end as u32,
    }
}

/// Cuts a text into its chunks.
pub fn chunk_text(text: &str) -> (r: Vec<Chunk>)
    ensures
        chunk_views(r@) == chunks_of(text@),
{
    let mut lines = split_string(text, '\n');
    proof {
        lemma_split_nonempty(text@, '\n');
    }
    // If the file ends with a newline, the split produces a trailing empty
    // element that is no line.
    if lines.len() > 1 && lines[lines.len() - 1].as_str().is_empty() {
        let ghost all = views(lines@);
        let _ = lines.pop();
        assert(views(lines@) == all.drop_last());
    }
    let ghost model = lines_of(text@);
    assert(views(lines@) == model);
    let n: usize = lines.len();
    let mut out: Vec<Chunk> = Vec::new();
    let mut i: usize = 0;
    loop
        invariant_except_break
            i == window_start(out@.len() as int),
            out@.len() < window_count(n as int),
            i < n,
        invariant
            n == lines@.len(),
            n >= 1,
            views(lines@) == model,
            model == lines_of(text@),
            chunk_views(out@) == Seq::new(out@.len(), |k: int| chunk_at(model, k)),
        ensures
            chunk_views(out@) == chunks_of(text@),
        decreases n - i,
    {
        let end: usize = if n - i <= TARGET_LINES {
            n
        } else {
            i + TARGET_LINES
        };
        let ghost k = out@.len() as int;
        let ghost before = chunk_views(out@);
        let chunk = window_chunk(lines.as_slice(), i, end);
        assert(chunk@ == chunk_at(model, k));
        out.push(chunk);
        assert(chunk_views(out@) == before.push(chunk@));
        assert(chunk_views(out@) == Seq::new(out@.len(), |k: int| chunk_at(model, k)));
        if end == n {
            break;
        }
        i = i + (TARGET_LINES - OVERLAP_LINES);
    }
    out
}

/// Chunks the bytes of a file; a file that is too small, too large, binary or
/// not UTF-8 has no chunks.
pub fn chunk_bytes(data: &[u8]) -> (r: Vec<Chunk>)
    ensures
        chunk_views(r@) == file_chunks(data@),
{
    if data.len() < MIN_FILE_BYTES || data.len() > MAX_FILE_BYTES {
        let r: Vec<Chunk> = Vec::new();
        assert(chunk_views(r@) == Seq::<ChunkView>::empty());
        return r;
    }
    if looks_binary(data) {
        let r: Vec<Chunk> = Vec::new();
        assert(chunk_views(r@) == Seq::<ChunkView>::empty());
        return r;
    }
    match utf8_string(data) {
        Some(text) => chunk_text(text.as_str()),
        None => {
            let r: Vec<Chunk> = Vec::new();
            assert(chunk_views(r@) == Seq::<ChunkView>::empty());
            r
        },
    }
}

/// Whether a file of these bytes is worth chunking.
pub open spec fn chunkable(data: Seq<u8>) -> bool {
    &&& MIN_FILE_BYTES <= data.len() <= MAX_FILE_BYTES
    &&& !sniffed(data).contains(0u8)
    &&& valid_utf8(data)
}

/// The chunks of a file.
pub open spec fn file_chunks(data: Seq<u8>) -> Seq<ChunkView> {
    if chunkable(data) {
        chunks_of(decode_utf8(data))
    } else {
        Seq::empty()
    }
}

/// Every line of a text lies in one of its windows.
pub proof fn law_windows_cover(n: int, line: int)
    requires
        0 <= line < n,
    ensures
        exists|k: int|
            0 <= k < window_count(n) && #[trigger] window_start(k) <= line < window_end(n, k),
{
    let count = window_count(n);
    let k = if line / step() < count {
        line / step()
    } else {
        count - 1
    };
    assert(0 <= k < count && window_start(k) <= line < window_end(n, k));
}

/// Neighbouring windows share exactly `OVERLAP_LINES` lines, every window but
/// the last holds `TARGET_LINES`, and the last one ends with the text.
pub proof fn law_windows_overlap(n: int, k: int)
    requires
        n >= 1,
        0 <= k < window_count(n),
    ensures
        window_start(k) < window_end(n, k) <= n,
        window_end(n, k) - window_start(k) <= TARGET_LINES,
        k + 1 < window_count(n) ==> {
            &&& window_end(n, k) - window_start(k) == TARGET_LINES
            &&& window_end(n, k) - window_start(k + 1) == OVERLAP_LINES
        },
        k + 1 == window_count(n) ==> window_end(n, k) == n,
{
}

/// The text of a chunk is what its lines hold, cut to at most `MAX_CHARS` bytes
/// at a character boundary.
pub proof fn law_chunk_text_bounded(text: Seq<char>, k: int)
    requires
        0 <= k < chunks_of(text).len(),
    ensures
        ({
            let lines = lines_of(text);
            let window = lines.subrange(window_start(k), window_end(lines.len() as int, k));
            &&& encode_utf8(chunks_of(text)[k].text).len() <= MAX_CHARS
            &&& chunks_of(text)[k].text.is_prefix_of(join(window, seq!['\n']))
        }),
{
    let lines = lines_of(text);
    let window = lines.subrange(window_start(k), window_end(lines.len() as int, k));
    lemma_fit_bytes(join(window, seq!['\n']), MAX_CHARS as nat);
}

/// A text has at least one chunk.
pub proof fn law_text_has_chunks(text: Seq<char>)
    ensures
        chunks_of(text).len() >= 1,
{
}

/// The lines of a text make it up again, with a line feed between neighbours and
/// one behind the last where the text ends in one; no line holds a line feed.
pub proof fn law_lines_make_text(text: Seq<char>)
    ensures
        lines_of(text).len() >= 1,
        text == join(lines_of(text), seq!['\n']) + (if text.len() > 0 && text.last() == '\n' {
            seq!['\n']
        } else {
            Seq::empty()
        }),
        forall|i: int| 0 <= i < lines_of(text).len() ==> !(#[trigger] lines_of(text)[i]).contains(
            '\n',
        ),
{
    let all = split_on(text, '\n');
    let lines = lines_of(text);
    lemma_split_nonempty(text, '\n');
    law_join_split(text, '\n');
    assert forall|i: int| 0 <= i < lines.len() implies !(#[trigger] lines[i]).contains('\n') by {
        law_split_pieces(text, '\n', i);
        assert(lines[i] == all[i]);
    }
    if text.len() > 0 && text.last() == '\n' {
        let head = text.drop_last();
        lemma_split_nonempty(head, '\n');
        assert(text == head + seq!['\n'] + Seq::<char>::empty());
        law_split_at_separator(head, '\n', Seq::empty());
        assert(all.last().len() == 0);
        assert(lines == split_on(head, '\n'));
        law_join_split(head, '\n');
    } else if text.len() > 0 {
        assert(all.last().last() == text.last());
    } else {
        assert(all == seq![Seq::<char>::empty()]);
    }
}

/// Chunk `k` holds forty lines from line `32 k` on, or as many as are left, and
/// says which these are, counted from 1. Its text is the longest part of them,
/// from their start, that takes at most 4000 bytes. The chunk that reaches the
/// last line is the last one.
pub proof fn law_chunk_holds_its_lines(text: Seq<char>, k: int)
    requires
        0 <= k < chunks_of(text).len(),
        lines_of(text).len() <= u32::MAX,
    ensures
        ({
            let lines = lines_of(text);
            let n = lines.len() as int;
            let last = if 32 * k + 40 < n {
                32 * k + 40
            } else {
                n
            };
            let body = join(lines.subrange(32 * k, last), seq!['\n']);
            let c = chunks_of(text)[k];
            &&& 32 * k < n
            &&& c.start_line == 32 * k + 1
            &&& c.end_line == last
            &&& c.text.len() <= body.len()
            &&& c.text == body.take(c.text.len() as int)
            &&& encode_utf8(c.text).len() <= 4000
            &&& encode_utf8(body).len() <= 4000 ==> c.text == body
            &&& c.text.len() < body.len() ==> encode_utf8(body.take(c.text.len() as int + 1)).len() > 4000
            &&& k + 1 == chunks_of(text).len() <==> last == n
        }),
{
    let lines = lines_of(text);
    let n = lines.len() as int;
    lemma_split_nonempty(text, '\n');
    law_windows_overlap(n, k);
    let body = join(lines.subrange(window_start(k), window_end(n, k)), seq!['\n']);
    law_fit_is_longest(body, MAX_CHARS as nat);
    assert(chunks_of(text)[k] == chunk_at(lines, k));
}

/// A file has chunks if it holds from 16 to 2000000 bytes of UTF-8 with no NUL
/// among the first 8192: those of its text. Any other file has none.
pub proof fn law_chunks_of_file(data: Seq<u8>)
    ensures
        data.len() < 16 || data.len() > 2_000_000 ==> file_chunks(data).len() == 0,
        forall|i: int|
            0 <= i < data.len() && i < 8192 && #[trigger] data[i] == 0 ==> file_chunks(data).len()
                == 0,
        !valid_utf8(data) ==> file_chunks(data).len() == 0,
        16 <= data.len() <= 2_000_000 && valid_utf8(data) && (forall|i: int|
            0 <= i < data.len() && i < 8192 ==> #[trigger] data[i] != 0) ==> {
            &&& file_chunks(data).len() > 0
            &&& forall|text: Seq<char>|
                #[trigger] encode_utf8(text) == data ==> file_chunks(data) == chunks_of(text)
        },
{
    assert forall|i: int| 0 <= i < data.len() && i < 8192 && #[trigger] data[i] == 0 implies file_chunks(
        data,
    ).len() == 0 by {
        assert(sniffed(data)[i] == 0);
    }
    assert forall|text: Seq<char>| #[trigger] encode_utf8(text) == data implies decode_utf8(data)
        == text by {
        encode_utf8_decode_utf8(text);
    }
    if forall|i: int| 0 <= i < data.len() && i < 8192 ==> #[trigger] data[i] != 0 {
        assert forall|i: int| 0 <= i < sniffed(data).len() implies sniffed(data)[i] != 0 by {
            assert(sniffed(data)[i] == data[i]);
        }
    }
    law_text_has_chunks(decode_utf8(data));
}

/// A NUL is looked for in the first 8192 bytes, and nowhere else.
pub proof fn law_sniff(data: Seq<u8>)
    ensures
        sniffed(data).contains(0u8) <==> exists|i: int|
            0 <= i < data.len() && i < 8192 && #[trigger] data[i] == 0,
{
    if sniffed(data).contains(0u8) {
        let i = choose|i: int| 0 <= i < sniffed(data).len() && sniffed(data)[i] == 0;
        assert(data[i] == 0);
    }
    if exists|i: int| 0 <= i < data.len() && i < 8192 && #[trigger] data[i] == 0 {
        let i = choose|i: int| 0 <= i < data.len() && i < 8192 && #[trigger] data[i] == 0;
        assert(sniffed(data)[i] == 0);
    }
}

} // verus!
