//! Text primitives: splitting, joining, comparing and parsing strings.
//!
//! A string is modelled by its sequence of characters, and the bytes that git
//! hands out by `Seq<u8>`.

use vstd::prelude::*;
use vstd::slice::*;
use vstd::string::*;
use vstd::utf8::*;

verus! {

/// `String::push` of the standard library: the character is added at the end.
pub assume_specification[ String::push ](s: &mut String, c: char)
    ensures
        final(s)@ == old(s)@.push(c),
;

/// Calls `std::str::from_utf8` of the standard library: it succeeds on exactly
/// the well-formed UTF-8 sequences, and gives the characters that they encode.
#[verifier::external_body]
pub(crate) fn utf8_string(bytes: &[u8]) -> (r: Option<String>)
    ensures
        r is Some <==> valid_utf8(bytes@),
        r matches Some(s) ==> s@ == decode_utf8(bytes@),
{
    match std::str::from_utf8(bytes) {
        Ok(s) => Some(s.to_owned()),
        Err(_) => None,
    }
}

/// The pieces of `s` between the occurrences of `sep`; there is one piece more
/// than there are occurrences.
pub open spec fn split_on<A>(s: Seq<A>, sep: A) -> Seq<Seq<A>>
    decreases s.len(),
{
    if s.len() == 0 {
        seq![Seq::<A>::empty()]
    } else {
        let init = split_on(s.drop_last(), sep);
        if s.last() == sep {
            init.push(Seq::<A>::empty())
        } else {
            init.drop_last().push(init.last().push(s.last()))
        }
    }
}

/// The parts in order, with `sep` between neighbours.
pub open spec fn join<A>(parts: Seq<Seq<A>>, sep: Seq<A>) -> Seq<A>
    decreases parts.len(),
{
    if parts.len() == 0 {
        Seq::empty()
    } else if parts.len() == 1 {
        parts[0]
    } else {
        join(parts.drop_last(), sep) + sep + parts.last()
    }
}

/// The views of a sequence of strings.
pub open spec fn views(v: Seq<String>) -> Seq<Seq<char>> {
    v.map_values(|s: String| s@)
}

/// Splitting gives at least one piece.
pub proof fn lemma_split_nonempty<A>(s: Seq<A>, sep: A)
    ensures
        split_on(s, sep).len() >= 1,
    decreases s.len(),
{
    if s.len() > 0 {
        lemma_split_nonempty(s.drop_last(), sep);
    }
}

/// Joining undoes splitting.
pub proof fn law_join_split<A>(s: Seq<A>, sep: A)
    ensures
        join(split_on(s, sep), seq![sep]) == s,
    decreases s.len(),
{
    if s.len() > 0 {
        let t = s.drop_last();
        let init = split_on(t, sep);
        lemma_split_nonempty(t, sep);
        law_join_split(t, sep);
        assert(s == t.push(s.last()));
        if s.last() == sep {
            let all = init.push(Seq::<A>::empty());
            assert(all.drop_last() == init);
            assert(join(all, seq![sep]) == t + seq![sep] + Seq::<A>::empty());
        } else {
            let all = init.drop_last().push(init.last().push(s.last()));
            assert(all.drop_last() == init.drop_last());
            if init.len() > 1 {
                assert(join(all, seq![sep]) == join(init.drop_last(), seq![sep]) + seq![sep]
                    + init.last().push(s.last()));
            }
        }
    }
}

/// No piece of a split holds the separator.
pub proof fn law_split_pieces<A>(s: Seq<A>, sep: A, i: int)
    requires
        0 <= i < split_on(s, sep).len(),
    ensures
        !split_on(s, sep)[i].contains(sep),
    decreases s.len(),
{
    if s.len() > 0 {
        let t = s.drop_last();
        let init = split_on(t, sep);
        lemma_split_nonempty(t, sep);
        if i < init.len() {
            law_split_pieces(t, sep, i);
        }
        if s.last() != sep && i == init.len() - 1 {
            let piece = init.last().push(s.last());
            assert forall|j: int| 0 <= j < piece.len() implies piece[j] != sep by {
                if j < init.last().len() {
                    assert(init.last()[j] == piece[j]);
                }
            }
        }
    }
}

/// The longest prefix of `s` whose UTF-8 encoding takes at most `max` bytes.
pub open spec fn fit_bytes(s: Seq<char>, max: nat) -> Seq<char>
    decreases s.len(),
{
    if s.len() == 0 || encode_utf8(s).len() <= max {
        s
    } else {
        fit_bytes(s.drop_last(), max)
    }
}

/// Encoding goes character by character.
pub proof fn lemma_encode_concat(a: Seq<char>, b: Seq<char>)
    ensures
        encode_utf8(a + b) == encode_utf8(a) + encode_utf8(b),
    decreases a.len(),
{
    if a.len() == 0 {
        assert(a + b == b);
    } else {
        assert((a + b).drop_first() == a.drop_first() + b);
        lemma_encode_concat(a.drop_first(), b);
    }
}

/// Two texts with one encoding are one text.
pub proof fn lemma_encode_injective(a: Seq<char>, b: Seq<char>)
    requires
        encode_utf8(a) == encode_utf8(b),
    ensures
        a == b,
{
    encode_utf8_decode_utf8(a);
    encode_utf8_decode_utf8(b);
}

/// A longer prefix has an encoding that is no shorter.
pub proof fn lemma_encode_take_monotonic(s: Seq<char>, i: int, j: int)
    requires
        0 <= i <= j <= s.len(),
    ensures
        encode_utf8(s.take(i)).len() <= encode_utf8(s.take(j)).len(),
{
    assert(s.take(j) == s.take(i) + s.subrange(i, j));
    lemma_encode_concat(s.take(i), s.subrange(i, j));
}

/// A non-empty text has a non-empty encoding.
pub proof fn lemma_encode_take_grows(s: Seq<char>, i: int)
    requires
        0 <= i < s.len(),
    ensures
        encode_utf8(s.take(i)).len() < encode_utf8(s.take(i + 1)).len(),
{
    let one = seq![s[i]];
    assert(s.take(i + 1) == s.take(i) + one);
    lemma_encode_concat(s.take(i), one);
    char_is_scalar(s[i]);
    assert(one.drop_first() == Seq::<char>::empty());
    assert(encode_utf8(one.drop_first()).len() == 0);
    assert(encode_utf8(one).len() == encode_scalar(s[i] as u32).len());
}

/// The encoding of a prefix ends on a character boundary.
pub proof fn lemma_prefix_is_boundary(s: Seq<char>, k: int)
    requires
        0 <= k <= s.len(),
    ensures
        is_char_boundary(encode_utf8(s), encode_utf8(s.take(k)).len() as int),
    decreases k,
{
    encode_utf8_valid_utf8(s);
    if k == 0 {
        assert(encode_utf8(s.take(0)).len() == 0);
    } else {
        let rest = s.drop_first();
        lemma_prefix_is_boundary(rest, k - 1);
        encode_utf8_first_scalar(s);
        encode_utf8_valid_utf8(rest);
        assert(pop_first_scalar(encode_utf8(s)) =~= encode_utf8(rest));
        assert(s.take(k).drop_first() == rest.take(k - 1));
        assert(s.take(k)[0] == s[0]);
        lemma_encode_take_monotonic(s, k, s.len() as int);
        assert(s.take(s.len() as int) == s);
    }
}

/// A prefix that fits, and whose extension by one character does not, is the
/// longest one that fits.
pub proof fn lemma_fit_bytes_is(s: Seq<char>, k: int, max: nat)
    requires
        0 <= k <= s.len(),
        encode_utf8(s.take(k)).len() <= max,
        k < s.len() ==> encode_utf8(s.take(k + 1)).len() > max,
    ensures
        fit_bytes(s, max) == s.take(k),
    decreases s.len() - k,
{
    if k == s.len() {
        assert(s.take(k) == s);
    } else {
        lemma_encode_take_monotonic(s, k + 1, s.len() as int);
        assert(s.take(s.len() as int) == s);
        let t = s.drop_last();
        assert(t.take(k) == s.take(k));
        if k < t.len() {
            assert(t.take(k + 1) == s.take(k + 1));
        }
        lemma_fit_bytes_is(t, k, max);
    }
}

/// What fits is a prefix, and its encoding takes at most `max` bytes.
pub proof fn lemma_fit_bytes(s: Seq<char>, max: nat)
    ensures
        fit_bytes(s, max).is_prefix_of(s),
        encode_utf8(fit_bytes(s, max)).len() <= max,
    decreases s.len(),
{
    if s.len() == 0 {
        assert(encode_utf8(s).len() == 0);
    } else if encode_utf8(s).len() > max {
        lemma_fit_bytes(s.drop_last(), max);
    }
}

/// The characters of a string.
pub fn chars_of(s: &str) -> (r: Vec<char>)
    ensures
        r@ == s@,
{
    let mut out: Vec<char> = Vec::new();
    for c in it: s.chars()
        invariant
            out@ == it.seq().take(it.index()),
            it.seq() == s@,
    {
        out.push(c);
    }
    assert(s@.take(s@.len() as int) == s@);
    out
}

/// A string from its characters.
pub fn string_of(cs: &[char]) -> (r: String)
    ensures
        r@ == cs@,
{
    let mut out = String::new();
    let mut i: usize = 0;
    while i < cs.len()
        invariant
            i <= cs@.len(),
            out@ == cs@.take(i as int),
        decreases cs@.len() - i,
    {
        out.push(cs[i]);
        i = i + 1;
    }
    assert(cs@.take(cs@.len() as int) == cs@);
    out
}

/// Splits a string at every `sep`.
pub fn split_string(s: &str, sep: char) -> (r: Vec<String>)
    ensures
        views(r@) == split_on(s@, sep),
{
    let cs = chars_of(s);
    let mut out: Vec<String> = Vec::new();
    let mut cur = String::new();
    let mut i: usize = 0;
    while i < cs.len()
        invariant
            i <= cs@.len(),
            views(out@).push(cur@) == split_on(cs@.take(i as int), sep),
        decreases cs@.len() - i,
    {
        proof {
            assert(cs@.take(i + 1).drop_last() == cs@.take(i as int));
        }
        let ghost before = views(out@).push(cur@);
        assert(before.drop_last() == views(out@));
        if cs[i] == sep {
            out.push(cur);
            cur = String::new();
            assert(views(out@) == before);
        } else {
            cur.push(cs[i]);
        }
        i = i + 1;
    }
    assert(cs@.take(cs@.len() as int) == cs@);
    let ghost done = views(out@).push(cur@);
    out.push(cur);
    assert(views(out@) == done);
    out
}

/// Splits a run of bytes at every `sep`.
pub fn split_bytes(s: &[u8], sep: u8) -> (r: Vec<Vec<u8>>)
    ensures
        byte_views(r@) == split_on(s@, sep),
{
    let mut out: Vec<Vec<u8>> = Vec::new();
    let mut cur: Vec<u8> = Vec::new();
    let mut i: usize = 0;
    while i < s.len()
        invariant
            i <= s@.len(),
            byte_views(out@).push(cur@) == split_on(s@.take(i as int), sep),
        decreases s@.len() - i,
    {
        proof {
            assert(s@.take(i + 1).drop_last() == s@.take(i as int));
        }
        let ghost before = byte_views(out@).push(cur@);
        assert(before.drop_last() == byte_views(out@));
        if s[i] == sep {
            out.push(cur);
            cur = Vec::new();
            assert(byte_views(out@) == before);
        } else {
            cur.push(s[i]);
        }
        i = i + 1;
    }
    assert(s@.take(s@.len() as int) == s@);
    let ghost done = byte_views(out@).push(cur@);
    out.push(cur);
    assert(byte_views(out@) == done);
    out
}

/// The views of a sequence of byte strings.
pub open spec fn byte_views(v: Seq<Vec<u8>>) -> Seq<Seq<u8>> {
    v.map_values(|s: Vec<u8>| s@)
}

/// Where `a` first occurs in `s`; the length of `s` where it does not.
pub open spec fn first_index<A>(s: Seq<A>, a: A) -> int
    decreases s.len(),
{
    if s.len() == 0 || s[0] == a {
        0
    } else {
        1 + first_index(s.drop_first(), a)
    }
}

/// The parts of `s` before and after the first `a`.
pub open spec fn cut<A>(s: Seq<A>, a: A) -> Option<(Seq<A>, Seq<A>)> {
    let i = first_index(s, a);
    if i < s.len() {
        Some((s.take(i), s.skip(i + 1)))
    } else {
        None
    }
}

/// What the first index is.
pub proof fn lemma_first_index<A>(s: Seq<A>, a: A)
    ensures
        0 <= first_index(s, a) <= s.len(),
        forall|j: int| 0 <= j < first_index(s, a) ==> #[trigger] s[j] != a,
        first_index(s, a) < s.len() ==> s[first_index(s, a)] == a,
    decreases s.len(),
{
    if s.len() > 0 && s[0] != a {
        let t = s.drop_first();
        lemma_first_index(t, a);
        assert forall|j: int| 0 <= j < first_index(s, a) implies #[trigger] s[j] != a by {
            if j > 0 {
                assert(t[j - 1] == s[j]);
            }
        }
    }
}

/// An index that is first is the first index.
pub proof fn lemma_first_index_is<A>(s: Seq<A>, a: A, i: int)
    requires
        0 <= i <= s.len(),
        forall|j: int| 0 <= j < i ==> #[trigger] s[j] != a,
        i < s.len() ==> s[i] == a,
    ensures
        first_index(s, a) == i,
{
    lemma_first_index(s, a);
    let k = first_index(s, a);
    if k < i {
        assert(s[k] != a);
    } else if i < k {
        assert(s[i] != a);
    }
}

/// The parts of a string before and after the first `c`.
pub fn split_once(s: &str, c: char) -> (r: Option<(String, String)>)
    ensures
        match r {
            Some(p) => cut(s@, c) == Some((p.0@, p.1@)),
            None => cut(s@, c) is None,
        },
{
    let cs = chars_of(s);
    let mut i: usize = 0;
    while i < cs.len() && cs[i] != c
        invariant
            i <= cs@.len(),
            forall|j: int| 0 <= j < i ==> #[trigger] cs@[j] != c,
        decreases cs@.len() - i,
    {
        i = i + 1;
    }
    proof {
        lemma_first_index_is(cs@, c, i as int);
    }
    if i < cs.len() {
        let a = string_of(slice_subrange(cs.as_slice(), 0, i));
        let b = string_of(slice_subrange(cs.as_slice(), i + 1, cs.len()));
        proof {
            assert(a@ == s@.take(i as int));
            assert(b@ == s@.skip(i + 1));
        }
        Some((a, b))
    } else {
        None
    }
}

/// White space: the characters that Unicode gives the property `White_Space`.
pub open spec fn is_space(c: char) -> bool {
    let u = c as u32;
    ||| 0x9 <= u <= 0xd
    ||| u == 0x20
    ||| u == 0x85
    ||| u == 0xa0
    ||| u == 0x1680
    ||| 0x2000 <= u <= 0x200a
    ||| u == 0x2028
    ||| u == 0x2029
    ||| u == 0x202f
    ||| u == 0x205f
    ||| u == 0x3000
}

/// Whether a character is white space.
pub fn space(c: char) -> (r: bool)
    ensures
        r == is_space(c),
{
    let u: u32 = c as u32;
    (0x9 <= u && u <= 0xd) || u == 0x20 || u == 0x85 || u == 0xa0 || u == 0x1680 || (0x2000 <= u
        && u <= 0x200a) || u == 0x2028 || u == 0x2029 || u == 0x202f || u == 0x205f || u == 0x3000
}

/// The words of a text: its longest runs without white space.
pub open spec fn words(s: Seq<char>) -> Seq<Seq<char>>
    decreases s.len(),
{
    if s.len() == 0 {
        Seq::empty()
    } else {
        let before = words(s.drop_last());
        if is_space(s.last()) {
            before
        } else if s.len() >= 2 && !is_space(s[s.len() - 2]) {
            before.drop_last().push(before.last().push(s.last()))
        } else {
            before.push(seq![s.last()])
        }
    }
}

/// A text that ends in a word has one.
proof fn lemma_words_end(s: Seq<char>)
    ensures
        s.len() > 0 && !is_space(s.last()) ==> words(s).len() > 0,
    decreases s.len(),
{
    if s.len() >= 2 && !is_space(s[s.len() - 2]) {
        lemma_words_end(s.drop_last());
    }
}

/// The words of a string, in order.
pub fn split_words(s: &str) -> (r: Vec<String>)
    ensures
        views(r@) == words(s@),
{
    let cs = chars_of(s);
    let mut out: Vec<String> = Vec::new();
    let mut i: usize = 0;
    assert(views(out@) == words(cs@.take(0)));
    while i < cs.len()
        invariant
            i <= cs@.len(),
            views(out@) == words(cs@.take(i as int)),
        decreases cs@.len() - i,
    {
        let ghost part = cs@.take(i + 1);
        proof {
            assert(part.drop_last() == cs@.take(i as int));
            assert(part.last() == cs@[i as int]);
            lemma_words_end(cs@.take(i as int));
        }
        let ghost before = views(out@);
        if !space(cs[i]) {
            if i > 0 && !space(cs[i - 1]) {
                proof {
                    assert(cs@.take(i as int).last() == cs@[i - 1]);
                    assert(part[part.len() - 2] == cs@[i - 1]);
                }
                let ghost prev = out@;
                match out.pop() {
                    Some(mut w) => {
                        w.push(cs[i]);
                        out.push(w);
                    },
                    None => {},
                }
                proof {
                    assert(before.last() == prev.last()@);
                    assert(views(out@) == before.drop_last().push(
                        before.last().push(cs@[i as int]),
                    ));
                }
            } else {
                if i > 0 {
                    assert(part[part.len() - 2] == cs@[i - 1]);
                }
                let mut w = String::new();
                w.push(cs[i]);
                assert(w@ == seq![cs@[i as int]]);
                out.push(w);
                assert(views(out@) == before.push(seq![cs@[i as int]]));
            }
        }
        i = i + 1;
    }
    assert(cs@.take(cs@.len() as int) == cs@);
    out
}

/// A text without the white space at its end.
pub open spec fn trimmed_end(s: Seq<char>) -> Seq<char>
    decreases s.len(),
{
    if s.len() > 0 && is_space(s.last()) {
        trimmed_end(s.drop_last())
    } else {
        s
    }
}

/// A text without the white space at its start.
pub open spec fn trimmed_start(s: Seq<char>) -> Seq<char>
    decreases s.len(),
{
    if s.len() > 0 && is_space(s[0]) {
        trimmed_start(s.drop_first())
    } else {
        s
    }
}

/// A text without the white space at its start and at its end.
pub open spec fn trimmed(s: Seq<char>) -> Seq<char> {
    trimmed_end(trimmed_start(s))
}

/// Trimming twice is trimming once.
pub proof fn law_trim_end_idempotent(s: Seq<char>)
    ensures
        trimmed_end(trimmed_end(s)) == trimmed_end(s),
    decreases s.len(),
{
    if s.len() > 0 && is_space(s.last()) {
        law_trim_end_idempotent(s.drop_last());
    }
}

/// Drops the white space at the end of a string.
pub fn trim_end(s: &str) -> (r: String)
    ensures
        r@ == trimmed_end(s@),
{
    let cs = chars_of(s);
    let mut n: usize = cs.len();
    assert(cs@.take(n as int) == cs@);
    while n > 0 && space(cs[n - 1])
        invariant
            n <= cs@.len(),
            trimmed_end(cs@.take(n as int)) == trimmed_end(cs@),
        decreases n,
    {
        proof {
            assert(cs@.take(n as int).drop_last() == cs@.take(n - 1));
            assert(cs@.take(n as int).last() == cs@[n - 1]);
        }
        n = n - 1;
    }
    proof {
        if n > 0 {
            assert(cs@.take(n as int).last() == cs@[n - 1]);
        }
    }
    string_of(slice_subrange(cs.as_slice(), 0, n))
}

/// Drops the white space at both ends of a string.
pub fn trim(s: &str) -> (r: String)
    ensures
        r@ == trimmed(s@),
{
    let cs = chars_of(s);
    let mut i: usize = 0;
    assert(cs@.skip(0) == cs@);
    while i < cs.len() && space(cs[i])
        invariant
            i <= cs@.len(),
            trimmed_start(cs@.skip(i as int)) == trimmed_start(cs@),
        decreases cs@.len() - i,
    {
        proof {
            assert(cs@.skip(i as int).drop_first() == cs@.skip(i + 1));
            assert(cs@.skip(i as int)[0] == cs@[i as int]);
        }
        i = i + 1;
    }
    proof {
        if i < cs@.len() {
            assert(cs@.skip(i as int)[0] == cs@[i as int]);
        }
    }
    let rest = string_of(slice_subrange(cs.as_slice(), i, cs.len()));
    assert(rest@ == cs@.skip(i as int));
    trim_end(rest.as_str())
}

/// A line without the carriage return at its end.
pub open spec fn without_cr(s: Seq<char>) -> Seq<char> {
    if s.len() > 0 && s.last() == '\r' {
        s.drop_last()
    } else {
        s
    }
}

/// The lines of a text. A line ends at a line feed, and loses a carriage return
/// before it; what follows the last line feed is a line if it is not empty.
pub open spec fn text_lines(s: Seq<char>) -> Seq<Seq<char>> {
    let parts = split_on(s, '\n');
    let ended = parts.drop_last().map_values(|p: Seq<char>| without_cr(p));
    if parts.last().len() == 0 {
        ended
    } else {
        ended.push(parts.last())
    }
}

/// Drops the carriage return at the end of a string.
fn strip_cr(s: &str) -> (r: String)
    ensures
        r@ == without_cr(s@),
{
    let cs = chars_of(s);
    if cs.len() > 0 && cs[cs.len() - 1] == '\r' {
        let r = string_of(slice_subrange(cs.as_slice(), 0, cs.len() - 1));
        assert(r@ == s@.drop_last());
        r
    } else {
        string_of(cs.as_slice())
    }
}

/// The lines of a string, in order.
pub fn split_lines(s: &str) -> (r: Vec<String>)
    ensures
        views(r@) == text_lines(s@),
{
    let parts = split_string(s, '\n');
    let ghost all = split_on(s@, '\n');
    proof {
        lemma_split_nonempty(s@, '\n');
        assert(views(parts@).len() == parts@.len());
    }
    let n: usize = parts.len() - 1;
    let mut out: Vec<String> = Vec::new();
    let mut i: usize = 0;
    while i < n
        invariant
            i <= n,
            n + 1 == parts@.len(),
            views(parts@) == all,
            out@.len() == i,
            forall|k: int| 0 <= k < i ==> #[trigger] views(out@)[k] == without_cr(all[k]),
        decreases n - i,
    {
        let ghost before = out@;
        out.push(strip_cr(parts[i].as_str()));
        proof {
            assert(views(parts@)[i as int] == parts@[i as int]@);
            assert forall|k: int| 0 <= k < i + 1 implies #[trigger] views(out@)[k] == without_cr(
                all[k],
            ) by {
                if k < i {
                    assert(views(out@)[k] == views(before)[k]);
                }
            }
        }
        i = i + 1;
    }
    let ghost ended = all.drop_last().map_values(|p: Seq<char>| without_cr(p));
    assert(views(out@) == ended);
    assert(views(parts@)[n as int] == parts@[n as int]@);
    assert(all.last() == parts@[n as int]@);
    let last = &parts[n];
    if !last.as_str().is_empty() {
        out.push(last.clone());
        assert(views(out@) == ended.push(all.last()));
    }
    out
}

/// `p` occurs in `s`.
pub open spec fn occurs<A>(p: Seq<A>, s: Seq<A>) -> bool {
    exists|i: int| #[trigger] occurs_at(p, s, i)
}

/// `p` occurs in `s` at position `i`.
pub open spec fn occurs_at<A>(p: Seq<A>, s: Seq<A>, i: int) -> bool {
    0 <= i && i + p.len() <= s.len() && s.subrange(i, i + p.len()) == p
}

/// Whether `p` stands at position `i` of `s`.
fn chars_at(p: &[char], s: &[char], i: usize) -> (r: bool)
    requires
        i <= s@.len(),
    ensures
        r == occurs_at(p@, s@, i as int),
{
    if p.len() > s.len() - i {
        return false;
    }
    let mut j: usize = 0;
    while j < p.len()
        invariant
            j <= p@.len(),
            i + p@.len() <= s@.len(),
            s@.len() <= usize::MAX,
            forall|k: int| 0 <= k < j ==> #[trigger] p@[k] == s@[i + k],
        decreases p@.len() - j,
    {
        if p[j] != s[i + j] {
            proof {
                assert(s@.subrange(i as int, i + p@.len())[j as int] == s@[i + j]);
            }
            return false;
        }
        j = j + 1;
    }
    assert(s@.subrange(i as int, i + p@.len()) == p@);
    true
}

/// Whether `p` stands at position `i` of `s`.
fn bytes_at(p: &[u8], s: &[u8], i: usize) -> (r: bool)
    requires
        i <= s@.len(),
    ensures
        r == occurs_at(p@, s@, i as int),
{
    if p.len() > s.len() - i {
        return false;
    }
    let mut j: usize = 0;
    while j < p.len()
        invariant
            j <= p@.len(),
            i + p@.len() <= s@.len(),
            s@.len() <= usize::MAX,
            forall|k: int| 0 <= k < j ==> #[trigger] p@[k] == s@[i + k],
        decreases p@.len() - j,
    {
        if p[j] != s[i + j] {
            proof {
                assert(s@.subrange(i as int, i + p@.len())[j as int] == s@[i + j]);
            }
            return false;
        }
        j = j + 1;
    }
    assert(s@.subrange(i as int, i + p@.len()) == p@);
    true
}

/// Whether `p` occurs in a run of bytes.
pub fn contains_bytes(s: &[u8], p: &[u8]) -> (r: bool)
    ensures
        r == occurs(p@, s@),
{
    let mut i: usize = 0;
    loop
        invariant
            i <= s@.len(),
            forall|j: int| 0 <= j < i ==> !#[trigger] occurs_at(p@, s@, j),
        decreases s@.len() - i,
    {
        if bytes_at(p, s, i) {
            return true;
        }
        if i == s.len() {
            proof {
                assert forall|j: int| !#[trigger] occurs_at(p@, s@, j) by {}
            }
            return false;
        }
        i = i + 1;
    }
}

/// Whether `p` occurs in a run of characters.
fn contains_chars(s: &[char], p: &[char]) -> (r: bool)
    ensures
        r == occurs(p@, s@),
{
    let mut i: usize = 0;
    loop
        invariant
            i <= s@.len(),
            forall|j: int| 0 <= j < i ==> !#[trigger] occurs_at(p@, s@, j),
        decreases s@.len() - i,
    {
        if chars_at(p, s, i) {
            return true;
        }
        if i == s.len() {
            proof {
                assert forall|j: int| !#[trigger] occurs_at(p@, s@, j) by {}
            }
            return false;
        }
        i = i + 1;
    }
}

/// Whether a string holds another.
pub fn contains(s: &str, p: &str) -> (r: bool)
    ensures
        r == occurs(p@, s@),
{
    let cs = chars_of(s);
    let ps = chars_of(p);
    contains_chars(cs.as_slice(), ps.as_slice())
}

/// Whether a string starts with another.
pub fn starts_with(s: &str, p: &str) -> (r: bool)
    ensures
        r == p@.is_prefix_of(s@),
{
    let cs = chars_of(s);
    let ps = chars_of(p);
    let r = chars_at(ps.as_slice(), cs.as_slice(), 0);
    proof {
        if ps@.len() <= cs@.len() {
            assert(cs@.subrange(0, ps@.len() as int) == cs@.take(ps@.len() as int));
        }
    }
    r
}

/// Whether a string ends with another.
pub fn ends_with(s: &str, p: &str) -> (r: bool)
    ensures
        r == p@.is_suffix_of(s@),
{
    let cs = chars_of(s);
    let ps = chars_of(p);
    if ps.len() > cs.len() {
        return false;
    }
    chars_at(ps.as_slice(), cs.as_slice(), cs.len() - ps.len())
}

/// What a string holds after a prefix.
pub open spec fn after_prefix(s: Seq<char>, p: Seq<char>) -> Option<Seq<char>> {
    if p.is_prefix_of(s) {
        Some(s.skip(p.len() as int))
    } else {
        None
    }
}

/// What a string holds after a prefix.
pub fn strip_prefix(s: &str, p: &str) -> (r: Option<String>)
    ensures
        match r {
            Some(t) => after_prefix(s@, p@) == Some(t@),
            None => after_prefix(s@, p@) is None,
        },
{
    if !starts_with(s, p) {
        return None;
    }
    let cs = chars_of(s);
    let ps = chars_of(p);
    let r = string_of(slice_subrange(cs.as_slice(), ps.len(), cs.len()));
    assert(r@ == s@.skip(p@.len() as int));
    Some(r)
}

/// The parts of a list in order, with `sep` between neighbours.
pub fn join_strings(parts: &Vec<String>, sep: &str) -> (r: String)
    ensures
        r@ == join(views(parts@), sep@),
{
    let mut out = String::new();
    let mut i: usize = 0;
    assert(views(parts@).take(0) == Seq::<Seq<char>>::empty());
    while i < parts.len()
        invariant
            i <= parts@.len(),
            out@ == join(views(parts@).take(i as int), sep@),
        decreases parts@.len() - i,
    {
        proof {
            let now = views(parts@).take(i + 1);
            assert(now.drop_last() == views(parts@).take(i as int));
            assert(now.last() == parts@[i as int]@);
        }
        if i > 0 {
            out.append(sep);
        }
        out.append(parts[i].as_str());
        i = i + 1;
    }
    assert(views(parts@).take(parts@.len() as int) == views(parts@));
    out
}

/// A letter of the ASCII alphabet in lower case; other characters as they are.
pub open spec fn lower_char(c: char) -> char {
    if 'A' <= c && c <= 'Z' {
        (c as u8 + 32) as char
    } else {
        c
    }
}

/// A text with the ASCII letters in lower case.
pub open spec fn lower(s: Seq<char>) -> Seq<char> {
    s.map_values(|c: char| lower_char(c))
}

/// A string with the ASCII letters in lower case.
pub fn to_lower(s: &str) -> (r: String)
    ensures
        r@ == lower(s@),
{
    let cs = chars_of(s);
    let mut out = String::new();
    let mut i: usize = 0;
    while i < cs.len()
        invariant
            i <= cs@.len(),
            out@ == lower(cs@.take(i as int)),
        decreases cs@.len() - i,
    {
        let c = cs[i];
        proof {
            assert(lower(cs@.take(i + 1)) == lower(cs@.take(i as int)).push(lower_char(c)));
        }
        if 'A' <= c && c <= 'Z' {
            out.push((c as u8 + 32) as char);
        } else {
            out.push(c);
        }
        i = i + 1;
    }
    assert(cs@.take(cs@.len() as int) == cs@);
    out
}

/// A word: not empty, and without white space.
pub open spec fn is_word(w: Seq<char>) -> bool {
    w.len() > 0 && forall|i: int| 0 <= i < w.len() ==> !is_space(#[trigger] w[i])
}

/// A word behind a blank is a word of the text.
pub proof fn lemma_words_push(s: Seq<char>, w: Seq<char>)
    requires
        is_word(w),
        s.len() == 0 || is_space(s.last()),
    ensures
        words(s + w) == words(s).push(w),
    decreases w.len(),
{
    let t = s + w;
    assert(t.last() == w.last());
    assert(!is_space(w[w.len() - 1]));
    if w.len() == 1 {
        assert(t.drop_last() == s);
        assert(seq![t.last()] == w);
        if t.len() >= 2 {
            assert(t[t.len() - 2] == s.last());
        }
    } else {
        let v = w.drop_last();
        assert(is_word(v)) by {
            assert forall|i: int| 0 <= i < v.len() implies !is_space(#[trigger] v[i]) by {
                assert(v[i] == w[i]);
            }
        }
        lemma_words_push(s, v);
        assert(t.drop_last() == s + v);
        assert(t[t.len() - 2] == v.last());
        assert(!is_space(v[v.len() - 1]));
        let before = words(s + v);
        assert(before.last() == v);
        assert(before.drop_last() == words(s));
        assert(v.push(w.last()) == w);
    }
}

/// A blank at the end of a text changes none of its words.
pub proof fn lemma_words_blank(s: Seq<char>)
    ensures
        words(s + seq![' ']) == words(s),
{
    assert((s + seq![' ']).drop_last() == s);
}

/// Parts that are joined in two groups are joined as one: the groups come in
/// order, with the separator between them.
pub proof fn law_join_groups<A>(a: Seq<Seq<A>>, b: Seq<Seq<A>>, sep: Seq<A>, p: Seq<A>)
    requires
        a.len() > 0,
        b.len() > 0,
    ensures
        join(a + b, sep) == join(a, sep) + sep + join(b, sep),
        join(seq![p], sep) == p,
        join(Seq::empty(), sep) == Seq::<A>::empty(),
    decreases b.len(),
{
    let all = a + b;
    assert(all.drop_last() == a + b.drop_last());
    assert(all.last() == b.last());
    if b.len() == 1 {
        assert(a + b.drop_last() == a);
    } else {
        law_join_groups(a, b.drop_last(), sep, p);
        assert(join(all, sep) == join(a, sep) + sep + join(b.drop_last(), sep) + sep + b.last());
    }
}

/// There is one piece more than there are separators: a text is cut exactly at
/// the place of each, whatever stands around it.
pub proof fn law_split_at_separator<A>(a: Seq<A>, sep: A, b: Seq<A>)
    ensures
        split_on(a + seq![sep] + b, sep) == split_on(a, sep) + split_on(b, sep),
        !a.contains(sep) ==> split_on(a, sep) == seq![a],
    decreases b.len(),
{
    let all = a + seq![sep] + b;
    if b.len() == 0 {
        assert(all.drop_last() == a);
        assert(b == Seq::<A>::empty());
        assert(split_on(b, sep) == seq![b]);
        assert(split_on(a, sep).push(b) == split_on(a, sep) + seq![b]);
        lemma_split_whole(a, sep);
    } else {
        let t = b.drop_last();
        law_split_at_separator(a, sep, t);
        assert(all.drop_last() == a + seq![sep] + t);
        assert(all.last() == b.last());
        lemma_split_nonempty(t, sep);
        let left = split_on(a, sep);
        let right = split_on(t, sep);
        let init = left + right;
        assert(init.last() == right.last());
        assert(init.drop_last() == left + right.drop_last());
        if b.last() == sep {
            assert(init.push(Seq::<A>::empty()) == left + right.push(Seq::<A>::empty()));
        } else {
            let piece = right.last().push(b.last());
            assert(init.drop_last().push(piece) == left + right.drop_last().push(piece));
        }
    }
}

/// A text without separators is one piece.
proof fn lemma_split_whole<A>(a: Seq<A>, sep: A)
    ensures
        !a.contains(sep) ==> split_on(a, sep) == seq![a],
    decreases a.len(),
{
    if !a.contains(sep) && a.len() > 0 {
        let t = a.drop_last();
        assert forall|i: int| 0 <= i < t.len() implies t[i] != sep by {
            assert(a[i] == t[i]);
        }
        lemma_split_whole(t, sep);
        assert(a.last() == a[a.len() - 1]);
        assert(a.last() != sep);
        assert(t.push(a.last()) == a);
        assert(seq![t].drop_last() == Seq::<Seq<A>>::empty());
        assert(split_on(a, sep) == seq![a]);
    } else if a.len() == 0 {
        assert(a == Seq::<A>::empty());
    }
}

/// A text is cut at its first separator and nowhere else; one without a
/// separator is not cut.
pub proof fn law_cut_at_first<A>(x: Seq<A>, a: A, y: Seq<A>)
    requires
        !x.contains(a),
    ensures
        cut(x + seq![a] + y, a) == Some((x, y)),
        cut(x, a) is None,
{
    let s = x + seq![a] + y;
    assert forall|j: int| 0 <= j < x.len() implies #[trigger] s[j] != a by {
        assert(x.contains(x[j]));
    }
    lemma_first_index_is(s, a, x.len() as int);
    assert(s.take(x.len() as int) == x);
    assert(s.skip(x.len() as int + 1) == y);
    assert forall|j: int| 0 <= j < x.len() implies #[trigger] x[j] != a by {
        assert(x.contains(x[j]));
    }
    lemma_first_index_is(x, a, x.len() as int);
}

/// A run of white space.
pub open spec fn blank(s: Seq<char>) -> bool {
    forall|i: int| 0 <= i < s.len() ==> is_space(#[trigger] s[i])
}

/// In ASCII, white space is the blank, the tab, the line feed, the vertical tab,
/// the form feed and the carriage return.
pub proof fn law_ascii_space(c: char)
    requires
        (c as u32) < 0x80,
    ensures
        is_space(c) <==> c == ' ' || c == '\t' || c == '\n' || c as u32 == 0xb || c as u32 == 0xc
            || c == '\r',
{
}

/// Trimming takes off the white space around a text, and nothing else.
pub proof fn law_trim(a: Seq<char>, s: Seq<char>, b: Seq<char>)
    requires
        blank(a),
        blank(b),
        s.len() > 0 ==> !is_space(s[0]) && !is_space(s.last()),
    ensures
        trimmed(a + s + b) == s,
        trimmed_end(a + s + b) == (if s.len() > 0 {
            a + s
        } else {
            Seq::empty()
        }),
{
    if s.len() == 0 {
        assert(a + s + b == a + b);
        assert(blank(a + b)) by {
            assert forall|i: int| 0 <= i < (a + b).len() implies is_space(
                #[trigger] (a + b)[i],
            ) by {
                if i >= a.len() {
                    assert(is_space(b[i - a.len()]));
                } else {
                    assert(is_space(a[i]));
                }
            }
        }
        assert(Seq::<char>::empty() + (a + b) == a + b);
        lemma_trim_end_blank(Seq::empty(), a + b);
        lemma_trim_start_blank(a + b, Seq::empty());
        assert((a + b) + Seq::<char>::empty() == a + b);
    } else {
        assert(a + s + b == (a + s) + b);
        assert((a + s).last() == s.last());
        lemma_trim_end_blank(a + s, b);
        assert(a + s + b == a + (s + b));
        assert((s + b)[0] == s[0]);
        lemma_trim_start_blank(a, s + b);
        lemma_trim_end_blank(s, b);
    }
}

/// White space at the end goes.
proof fn lemma_trim_end_blank(s: Seq<char>, b: Seq<char>)
    requires
        blank(b),
        s.len() > 0 ==> !is_space(s.last()),
    ensures
        trimmed_end(s + b) == s,
    decreases b.len(),
{
    if b.len() == 0 {
        assert(s + b == s);
    } else {
        let t = b.drop_last();
        assert forall|i: int| 0 <= i < t.len() implies is_space(#[trigger] t[i]) by {
            assert(t[i] == b[i]);
        }
        assert(is_space(b[b.len() - 1]));
        assert((s + b).drop_last() == s + t);
        lemma_trim_end_blank(s, t);
    }
}

/// White space at the start goes.
proof fn lemma_trim_start_blank(a: Seq<char>, s: Seq<char>)
    requires
        blank(a),
        s.len() > 0 ==> !is_space(s[0]),
    ensures
        trimmed_start(a + s) == s,
    decreases a.len(),
{
    if a.len() == 0 {
        assert(a + s == s);
    } else {
        let t = a.drop_first();
        assert forall|i: int| 0 <= i < t.len() implies is_space(#[trigger] t[i]) by {
            assert(t[i] == a[i + 1]);
        }
        assert(is_space(a[0]));
        assert((a + s).drop_first() == t + s);
        lemma_trim_start_blank(t, s);
    }
}

/// The words of a text come in order: white space parts them, and however much
/// of it there is makes no difference.
pub proof fn law_words_in_order(w: Seq<char>, gap: Seq<char>, rest: Seq<char>, tail: Seq<char>)
    requires
        is_word(w),
        blank(gap),
        blank(tail),
        gap.len() > 0 || rest.len() == 0,
    ensures
        words(w + gap + rest) == seq![w] + words(rest),
        words(gap + rest) == words(rest),
        words(rest + tail) == words(rest),
        words(gap).len() == 0,
    decreases rest.len(),
{
    lemma_words_of_blank(gap);
    lemma_words_trail(rest, tail);
    if rest.len() == 0 {
        assert(w + gap + rest == w + gap);
        lemma_words_trail(w, gap);
        assert(Seq::<char>::empty() + w == w);
        lemma_words_push(Seq::empty(), w);
        assert(words(w) == seq![w]);
        assert(gap + rest == gap);
    } else {
        let t = rest.drop_last();
        law_words_in_order(w, gap, t, tail);
        let x = w + gap + rest;
        let y = gap + rest;
        assert(x.drop_last() == w + gap + t);
        assert(y.drop_last() == gap + t);
        assert(x.last() == rest.last() && y.last() == rest.last());
        if t.len() > 0 {
            assert(x[x.len() - 2] == t.last() && y[y.len() - 2] == t.last());
            assert(rest[rest.len() - 2] == t.last());
            if !is_space(t.last()) && !is_space(rest.last()) {
                lemma_words_end(t);
                let before = words(t);
                let grown = before.last().push(rest.last());
                assert((seq![w] + before).last() == before.last());
                assert((seq![w] + before).drop_last().push(grown) == seq![w]
                    + before.drop_last().push(grown));
            }
        } else {
            assert(x[x.len() - 2] == gap.last() && y[y.len() - 2] == gap.last());
            assert(is_space(gap[gap.len() - 1]));
        }
        if !is_space(rest.last()) {
            assert((seq![w] + words(t)).push(seq![rest.last()]) == seq![w] + words(t).push(
                seq![rest.last()],
            ));
        }
    }
}

/// White space holds no words.
proof fn lemma_words_of_blank(s: Seq<char>)
    requires
        blank(s),
    ensures
        words(s) == Seq::<Seq<char>>::empty(),
    decreases s.len(),
{
    if s.len() > 0 {
        let t = s.drop_last();
        assert forall|i: int| 0 <= i < t.len() implies is_space(#[trigger] t[i]) by {
            assert(t[i] == s[i]);
        }
        assert(is_space(s[s.len() - 1]));
        lemma_words_of_blank(t);
    }
}

/// White space at the end adds no words.
proof fn lemma_words_trail(s: Seq<char>, b: Seq<char>)
    requires
        blank(b),
    ensures
        words(s + b) == words(s),
    decreases b.len(),
{
    if b.len() == 0 {
        assert(s + b == s);
    } else {
        let t = b.drop_last();
        assert forall|i: int| 0 <= i < t.len() implies is_space(#[trigger] t[i]) by {
            assert(t[i] == b[i]);
        }
        assert(is_space(b[b.len() - 1]));
        assert((s + b).drop_last() == s + t);
        lemma_words_trail(s, t);
    }
}

/// A line ends at its line feed, with or without a carriage return before it, and
/// the rest of the text is read on its own. A text without a line feed is one
/// line, if it holds anything.
pub proof fn law_lines_in_order(line: Seq<char>, rest: Seq<char>)
    requires
        !line.contains('\n'),
    ensures
        line.len() == 0 || line.last() != '\r' ==> {
            &&& text_lines(line + seq!['\n'] + rest) == seq![line] + text_lines(rest)
            &&& text_lines(line + seq!['\r', '\n'] + rest) == seq![line] + text_lines(rest)
        },
        line.len() > 0 ==> text_lines(line) == seq![line],
        text_lines(Seq::empty()).len() == 0,
{
    law_split_at_separator(line, '\n', rest);
    let parts = split_on(rest, '\n');
    lemma_split_nonempty(rest, '\n');
    let s = line + seq!['\n'] + rest;
    assert(split_on(s, '\n') == seq![line] + parts);
    assert(text_lines(s) =~= seq![without_cr(line)] + text_lines(rest));
    let long = line.push('\r');
    assert forall|i: int| 0 <= i < long.len() implies long[i] != '\n' by {
        if i < line.len() {
            assert(line.contains(line[i]));
        }
    }
    law_split_at_separator(long, '\n', rest);
    let t = line + seq!['\r', '\n'] + rest;
    assert(t == long + seq!['\n'] + rest);
    assert(split_on(t, '\n') == seq![long] + parts);
    assert(without_cr(long) == line);
    assert(text_lines(t) =~= seq![line] + text_lines(rest));
    assert(split_on(line, '\n') == seq![line]);
    assert(text_lines(line) =~= if line.len() == 0 {
        Seq::empty()
    } else {
        seq![line]
    });
    assert(split_on(Seq::<char>::empty(), '\n') == seq![Seq::<char>::empty()]);
}

/// A text occurs in another exactly where something before it and something
/// behind it make up the whole.
pub proof fn law_occurs<A>(before: Seq<A>, p: Seq<A>, behind: Seq<A>) -> (r: Option<(Seq<A>, Seq<A>)>)
    ensures
        occurs(p, before + p + behind),
        r is Some <==> occurs(p, before),
        r matches Some(around) ==> before == around.0 + p + around.1,
{
    let s = before + p + behind;
    assert(s.subrange(before.len() as int, before.len() as int + p.len()) == p);
    assert(occurs_at(p, s, before.len() as int));
    if occurs(p, before) {
        let i = choose|i: int| #[trigger] occurs_at(p, before, i);
        let around = (before.take(i), before.skip(i + p.len()));
        assert(before == around.0 + p + around.1);
        Some(around)
    } else {
        None
    }
}

/// Lowering keeps the length, takes each of the 26 capital letters of ASCII to its
/// small one, and keeps every other character.
pub proof fn law_lower(s: Seq<char>, i: int)
    requires
        0 <= i < s.len(),
    ensures
        lower(s).len() == s.len(),
        'A' <= s[i] <= 'Z' ==> lower(s)[i] as int - 'a' as int == s[i] as int - 'A' as int,
        !('A' <= s[i] <= 'Z') ==> lower(s)[i] == s[i],
{
}

/// What fits into a number of bytes is the longest prefix that does.
pub proof fn law_fit_is_longest(s: Seq<char>, max: nat)
    ensures
        fit_bytes(s, max) == s.take(fit_bytes(s, max).len() as int),
        fit_bytes(s, max).len() <= s.len(),
        encode_utf8(fit_bytes(s, max)).len() <= max,
        encode_utf8(s).len() <= max ==> fit_bytes(s, max) == s,
        forall|k: int|
            fit_bytes(s, max).len() < k <= s.len() ==> encode_utf8(#[trigger] s.take(k)).len()
                > max,
    decreases s.len(),
{
    lemma_fit_bytes(s, max);
    if s.len() > 0 && encode_utf8(s).len() > max {
        let t = s.drop_last();
        law_fit_is_longest(t, max);
        assert forall|k: int| fit_bytes(s, max).len() < k <= s.len() implies encode_utf8(
            #[trigger] s.take(k),
        ).len() > max by {
            if k < s.len() {
                assert(t.take(k) == s.take(k));
            } else {
                assert(s.take(k) == s);
            }
        }
    }
}

/// Beyond ASCII, white space is the next line, the no-break space, the Ogham space
/// mark, the spaces of typography from the en quad to the hair space, the line and
/// the paragraph separator, the narrow no-break, the mathematical and the
/// ideographic space.
pub proof fn law_other_space(c: char)
    requires
        c as u32 >= 0x80,
    ensures
        is_space(c) <==> seq![0x85int, 0xa0, 0x1680, 0x2028, 0x2029, 0x202f, 0x205f, 0x3000].contains(
            c as int,
        ) || 0x2000 <= c as int <= 0x200a,
{
    let others = seq![0x85int, 0xa0, 0x1680, 0x2028, 0x2029, 0x202f, 0x205f, 0x3000];
    assert(others[0] == 0x85 && others[1] == 0xa0 && others[2] == 0x1680 && others[3] == 0x2028
        && others[4] == 0x2029 && others[5] == 0x202f && others[6] == 0x205f && others[7]
        == 0x3000);
}

/// What stands behind a prefix is the rest of the text, and a text without the prefix
/// has none.
pub proof fn law_after_prefix(p: Seq<char>, rest: Seq<char>, s: Seq<char>)
    ensures
        after_prefix(p + rest, p) == Some(rest),
        after_prefix(s, p) matches Some(t) ==> s == p + t,
{
    assert(p.is_prefix_of(p + rest));
    assert((p + rest).skip(p.len() as int) =~= rest);
    if p.is_prefix_of(s) {
        assert(s =~= p + s.skip(p.len() as int));
    }
}

} // verus!
