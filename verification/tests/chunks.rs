use git_vector_grep::chunker::{
    chunk_bytes, chunk_text, join_lines, looks_binary, truncate_chars, MAX_CHARS, MAX_FILE_BYTES,
};

fn numbered(n: usize) -> String {
    (1..=n).map(|i| format!("line {}\n", i)).collect()
}

#[test]
fn a_short_text_is_one_chunk() {
    let chunks = chunk_text("a\nb\n");
    assert_eq!(chunks.len(), 1);
    assert_eq!(chunks[0].text, "a\nb");
    assert_eq!((chunks[0].start_line, chunks[0].end_line), (1, 2));
}

#[test]
fn an_empty_text_is_one_empty_line() {
    let chunks = chunk_text("");
    assert_eq!(chunks.len(), 1);
    assert_eq!(chunks[0].text, "");
    assert_eq!((chunks[0].start_line, chunks[0].end_line), (1, 1));
    assert_eq!(chunk_text("\n").len(), 1);
    assert_eq!(chunk_text("\n\n")[0].end_line, 2);
}

#[test]
fn long_texts_are_cut_into_overlapping_windows() {
    let ranges = |n: usize| -> Vec<(u32, u32)> {
        chunk_text(&numbered(n)).iter().map(|c| (c.start_line, c.end_line)).collect()
    };
    assert_eq!(ranges(40), vec![(1, 40)]);
    assert_eq!(ranges(41), vec![(1, 40), (33, 41)]);
    assert_eq!(ranges(72), vec![(1, 40), (33, 72)]);
    assert_eq!(ranges(73), vec![(1, 40), (33, 72), (65, 73)]);
    assert_eq!(ranges(100), vec![(1, 40), (33, 72), (65, 100)]);
}

#[test]
fn every_line_is_in_some_window() {
    for n in [1usize, 39, 40, 41, 72, 73, 150] {
        let chunks = chunk_text(&numbered(n));
        for line in 1..=n as u32 {
            assert!(chunks.iter().any(|c| c.start_line <= line && line <= c.end_line));
        }
    }
}

#[test]
fn windows_hold_the_text_of_their_lines() {
    let chunks = chunk_text(&numbered(41));
    assert!(chunks[1].text.starts_with("line 33\nline 34"));
    assert!(chunks[1].text.ends_with("line 41"));
}

#[test]
fn chunk_texts_are_bounded_and_end_at_a_character() {
    let text = "\u{e9}".repeat(MAX_CHARS);
    let chunks = chunk_text(&text);
    assert_eq!(chunks[0].text.len(), MAX_CHARS);
    assert_eq!(truncate_chars("a\u{e9}", 2), "a");
    assert_eq!(truncate_chars("a\u{e9}", 3), "a\u{e9}");
    assert_eq!(truncate_chars("\u{e9}", 1), "");
    assert_eq!(truncate_chars("abc", 0), "");
}

#[test]
fn lines_are_joined_by_newlines() {
    assert_eq!(join_lines(&["a".to_string(), "".to_string(), "b".to_string()]), "a\n\nb");
    assert_eq!(join_lines(&[]), "");
}

#[test]
fn small_large_binary_and_broken_files_have_no_chunks() {
    assert!(chunk_bytes(b"fifteen bytes..").is_empty());
    assert_eq!(chunk_bytes(b"sixteen bytes...").len(), 1);
    assert!(chunk_bytes(&vec![b'a'; MAX_FILE_BYTES + 1]).is_empty());
    assert_eq!(chunk_bytes(&vec![b'a'; MAX_FILE_BYTES]).len(), 1);
    assert!(chunk_bytes(b"a text with a \0 in it").is_empty());
    assert!(chunk_bytes(b"not UTF-8: \xff\xfe and more").is_empty());
}

#[test]
fn only_the_head_of_a_file_is_sniffed() {
    assert!(!looks_binary(b""));
    assert!(looks_binary(b"\0"));
    let mut data = vec![b'a'; 9000];
    data[8192] = 0;
    assert!(!looks_binary(&data));
    data[8191] = 0;
    assert!(looks_binary(&data));
}
