use git_vector_grep::number::{
    decimal_string, parse_u64, parse_usize, push_decimal, push_le, read_le,
};
use git_vector_grep::order::sort_positions;
use git_vector_grep::sorted::{relate, same, Rel, StrMap, StrSet};
use git_vector_grep::text::{
    chars_of, contains, contains_bytes, ends_with, join_strings, space, split_bytes, split_lines,
    split_once, split_string, split_words, starts_with, string_of, strip_prefix, to_lower, trim,
    trim_end,
};

fn strings(items: &[&str]) -> Vec<String> {
    items.iter().map(|s| s.to_string()).collect()
}

#[test]
fn splitting_and_joining_undo_each_other() {
    for text in ["", ",", "a", "a,b", ",a,,b,", "\u{e9},\u{1f600}"] {
        let parts = split_string(text, ',');
        assert_eq!(parts, text.split(',').map(|s| s.to_string()).collect::<Vec<_>>());
        assert_eq!(join_strings(&parts, ","), text);
        assert!(parts.iter().all(|p| !p.contains(',')));
    }
    assert_eq!(join_strings(&vec![], ", "), "");
    assert_eq!(split_bytes(b"a\0\0b", 0), vec![b"a".to_vec(), b"".to_vec(), b"b".to_vec()]);
}

#[test]
fn splitting_once_takes_the_first_separator() {
    assert_eq!(split_once("a=b=c", '='), Some(("a".to_string(), "b=c".to_string())));
    assert_eq!(split_once("=", '='), Some(("".to_string(), "".to_string())));
    assert_eq!(split_once("abc", '='), None);
}

#[test]
fn white_space_is_that_of_unicode() {
    for u in 0..0x11_0000u32 {
        if let Some(c) = char::from_u32(u) {
            assert_eq!(space(c), c.is_whitespace(), "{:x}", u);
        }
    }
}

#[test]
fn words_lines_and_trimming_agree_with_std() {
    for text in [
        "", " ", "a", " a ", "a b", "\ta\n b\r\nc \u{2003}d\u{a0}", "x\r", "x\r\n", "\n", "\r\n\n",
        "one\ntwo\r\nthree\r", "\u{3000}wide\u{3000}", "a\n\nb\n",
    ] {
        assert_eq!(split_words(text), text.split_whitespace().collect::<Vec<_>>());
        assert_eq!(split_lines(text), text.lines().collect::<Vec<_>>());
        assert_eq!(trim(text), text.trim());
        assert_eq!(trim_end(text), text.trim_end());
        assert_eq!(trim_end(&trim_end(text)), trim_end(text));
    }
}

#[test]
fn searching_agrees_with_std() {
    for s in ["", "a", "ab", "abab", "xaby", "\u{e9}ab"] {
        for p in ["", "a", "ab", "ba", "abx", "\u{e9}"] {
            assert_eq!(contains(s, p), s.contains(p));
            assert_eq!(starts_with(s, p), s.starts_with(p));
            assert_eq!(ends_with(s, p), s.ends_with(p));
            assert_eq!(strip_prefix(s, p), s.strip_prefix(p).map(|t| t.to_string()));
            assert_eq!(contains_bytes(s.as_bytes(), p.as_bytes()), s.contains(p));
        }
    }
    assert_eq!(to_lower("READ.Me\u{c9}"), "read.me\u{c9}");
    assert_eq!(string_of(&chars_of("a\u{e9}b")), "a\u{e9}b");
}

#[test]
fn numbers_are_written_in_decimal() {
    assert_eq!(decimal_string(0), "0");
    assert_eq!(decimal_string(1024), "1024");
    assert_eq!(decimal_string(u128::MAX), u128::MAX.to_string());
    let mut s = "n=".to_string();
    push_decimal(&mut s, 70);
    assert_eq!(s, "n=70");
}

#[test]
fn numbers_are_read_as_std_reads_them() {
    for text in [
        "", "+", "-1", "0", "007", "+5", "++5", "12a", " 1", "18446744073709551615",
        "18446744073709551616", "99999999999999999999999", "\u{661}",
    ] {
        assert_eq!(parse_u64(text), text.parse::<u64>().ok(), "{}", text);
        assert_eq!(parse_usize(text), text.parse::<usize>().ok(), "{}", text);
    }
    for n in [0u64, 9, 10, 12345, u64::MAX] {
        assert_eq!(parse_u64(&decimal_string(n as u128)), Some(n));
    }
}

#[test]
fn little_endian_bytes_read_back() {
    let mut out = Vec::new();
    push_le(&mut out, 0x0102_0304, 4);
    push_le(&mut out, 0x1_ffff, 2);
    assert_eq!(out, vec![4, 3, 2, 1, 0xff, 0xff]);
    assert_eq!(read_le(&out, 0, 4), 0x0102_0304);
    assert_eq!(read_le(&out, 1, 2), 0x0203);
    assert_eq!(read_le(&out, 6, 0), 0);
    let mut wide = Vec::new();
    push_le(&mut wide, u64::MAX - 1, 8);
    assert_eq!(read_le(&wide, 0, 8), u64::MAX - 1);
}

#[test]
fn positions_are_sorted_stably() {
    assert_eq!(sort_positions(&vec![3, 1, 2, 1, 3]), vec![1, 3, 2, 0, 4]);
    assert_eq!(sort_positions(&vec![]), Vec::<usize>::new());
    assert_eq!(sort_positions(&vec![-1, i128::MIN, 0]), vec![1, 0, 2]);
}

#[test]
fn strings_are_ordered_by_character() {
    assert!(matches!(relate("a", "b"), Rel::Before));
    assert!(matches!(relate("b", "a"), Rel::After));
    assert!(matches!(relate("a", "a"), Rel::Same));
    assert!(matches!(relate("a", "ab"), Rel::Before));
    assert!(matches!(relate("\u{ffff}", "\u{10000}"), Rel::Before));
    assert!(same("", ""));
    assert!(!same("a", "A"));
}

#[test]
fn sets_hold_each_member_once_in_order() {
    let mut set = StrSet::from_vec(strings(&["b", "a", "b", "c", "a"]));
    assert_eq!(set.as_vec(), &strings(&["a", "b", "c"]));
    assert_eq!(set.len(), 3);
    assert!(set.contains("b") && !set.contains("d"));
    set.insert("aa".to_string());
    set.insert("aa".to_string());
    assert_eq!(set.as_vec(), &strings(&["a", "aa", "b", "c"]));
    let other = StrSet::from_vec(strings(&["b", "x"]));
    assert_eq!(set.minus(&other).as_vec(), &strings(&["a", "aa", "c"]));
    assert_eq!(set.count_in(&other), 1);
    assert_eq!(StrSet::new().len(), 0);
}

#[test]
fn maps_keep_the_last_value_of_a_key() {
    let mut map: StrMap<u32> = StrMap::new();
    map.insert("b".to_string(), 1);
    map.insert("a".to_string(), 2);
    map.insert("b".to_string(), 3);
    assert_eq!(map.len(), 2);
    assert_eq!(map.get("b"), Some(&3));
    assert_eq!(map.get("c"), None);
    assert_eq!(map.key_at(0), "a");
    assert_eq!(map.value_at(1), &3);
}
