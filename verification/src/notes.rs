//! Where a note stands in the tree of a notes ref.
//!
//! A note is a blob whose path is the name of the object that it annotates,
//! split after two digits: `<2hex>/<38hex>`, the usual fanout of `git notes`.

use vstd::prelude::*;
use vstd::slice::*;
use vstd::string::*;
use vstd::utf8::*;

use crate::text::{chars_of, cut, lemma_encode_concat, lemma_encode_take_grows, lemma_encode_take_monotonic, lemma_first_index_is, split_once, string_of};

verus! {

pub const NOTES_REF_PREFIX: &'static str = "refs/notes/vector-grep";

/// The name of the notes ref of a model.
pub open spec fn ref_name_of(short_id: Seq<char>) -> Seq<char> {
    NOTES_REF_PREFIX@ + "/"@ + short_id
}

/// Build the full notes ref name for a model short id, e.g. "minilm".
pub fn ref_for(short_id: &str) -> (r: String)
    ensures
        r@ == ref_name_of(short_id@),
{
    let mut out = NOTES_REF_PREFIX.to_owned();
    out.append("/");
    out.append(short_id);
    out
}

/// Whether a character is a hexadecimal digit of either case.
pub open spec fn is_hex_digit(c: char) -> bool {
    ||| '0' <= c && c <= '9'
    ||| 'a' <= c && c <= 'f'
    ||| 'A' <= c && c <= 'F'
}

/// All characters are hexadecimal digits.
pub open spec fn all_hex(s: Seq<char>) -> bool {
    forall|i: int| 0 <= i < s.len() ==> is_hex_digit(#[trigger] s[i])
}

/// The name of an object: forty hexadecimal digits.
pub open spec fn is_object_name(s: Seq<char>) -> bool {
    s.len() == 40 && all_hex(s)
}

/// How many characters of a name take its first two bytes.
pub open spec fn fanout_chars(s: Seq<char>) -> nat {
    if s.len() > 0 && s[0] as u32 >= 0x80 {
        1
    } else {
        2
    }
}

/// The first two bytes of a name end a character, so that it can be split there.
pub open spec fn splittable(s: Seq<char>) -> bool {
    ||| s.len() >= 2 && (s[0] as u32) < 0x80 && (s[1] as u32) < 0x80
    ||| s.len() >= 1 && 0x80 <= s[0] as u32 && (s[0] as u32) < 0x800
}

/// The path of the note of an object.
pub open spec fn note_path(sha: Seq<char>) -> Seq<char> {
    sha.take(fanout_chars(sha) as int) + "/"@ + sha.skip(fanout_chars(sha) as int)
}

/// The object that the note at a path annotates: two digits, a slash, and
/// thirty-eight digits.
pub open spec fn path_sha(p: Seq<char>) -> Option<Seq<char>> {
    match cut(p, '/') {
        Some((a, b)) => if a.len() == 2 && b.len() == 38 && all_hex(a + b) {
            Some(a + b)
        } else {
            None
        },
        None => None,
    }
}

/// Whether a name can be split after two bytes.
pub fn can_split(sha: &str) -> (r: bool)
    ensures
        r == splittable(sha@),
{
    let cs = chars_of(sha);
    (cs.len() >= 2 && (cs[0] as u32) < 0x80 && (cs[1] as u32) < 0x80) || (cs.len() >= 1 && 0x80
        <= cs[0] as u32 && (cs[0] as u32) < 0x800)
}

/// The path of the note of an object.
pub fn note_subpath(blob_sha: &str) -> (r: String)
    requires
        splittable(blob_sha@),
    ensures
        r@ == note_path(blob_sha@),
{
    let cs = chars_of(blob_sha);
    let k: usize = if cs[0] as u32 >= 0x80 {
        1
    } else {
        2
    };
    let head = string_of(slice_subrange(cs.as_slice(), 0, k));
    let tail = string_of(slice_subrange(cs.as_slice(), k, cs.len()));
    let mut out = head;
    out.append("/");
    out.append(tail.as_str());
    proof {
        assert(cs@.subrange(0, k as int) == blob_sha@.take(k as int));
        assert(cs@.subrange(k as int, cs@.len() as int) == blob_sha@.skip(k as int));
    }
    out
}

/// Whether all characters of a string are hexadecimal digits.
fn hex_only(s: &str) -> (r: bool)
    ensures
        r == all_hex(s@),
{
    let cs = chars_of(s);
    let mut i: usize = 0;
    while i < cs.len()
        invariant
            i <= cs@.len(),
            cs@ == s@,
            forall|k: int| 0 <= k < i ==> is_hex_digit(#[trigger] cs@[k]),
        decreases cs@.len() - i,
    {
        let c = cs[i];
        if !(('0' <= c && c <= '9') || ('a' <= c && c <= 'f') || ('A' <= c && c <= 'F')) {
            assert(!is_hex_digit(s@[i as int]));
            return false;
        }
        i = i + 1;
    }
    true
}

/// The object that the note at a path annotates. The default notes fanout is
/// accepted exactly.
pub fn sha_from_note_path(p: &str) -> (r: Option<String>)
    ensures
        match r {
            Some(s) => path_sha(p@) == Some(s@),
            None => path_sha(p@) is None,
        },
{
    match split_once(p, '/') {
        Some((a, b)) => {
            let n: usize = chars_of(a.as_str()).len();
            let m: usize = chars_of(b.as_str()).len();
            let mut out = a;
            out.append(b.as_str());
            if n == 2 && m == 38 && hex_only(out.as_str()) {
                Some(out)
            } else {
                None
            }
        },
        None => None,
    }
}

/// The path of the note of an object leads back to the object.
pub proof fn law_note_path_reads_back(sha: Seq<char>)
    requires
        is_object_name(sha),
    ensures
        splittable(sha),
        path_sha(note_path(sha)) == Some(sha),
{
    reveal_strlit("/");
    assert(is_hex_digit(sha[0]) && is_hex_digit(sha[1]));
    let p = note_path(sha);
    assert(p == sha.take(2) + seq!['/'] + sha.skip(2));
    assert forall|j: int| 0 <= j < 2 implies #[trigger] p[j] != '/' by {
        assert(p[j] == sha[j]);
        assert(is_hex_digit(sha[j]));
    }
    lemma_first_index_is(p, '/', 2);
    assert(p.take(2) == sha.take(2));
    assert(p.skip(3) == sha.skip(2));
    assert(sha.take(2) + sha.skip(2) == sha);
}

/// A path that leads to an object is the path of the note of that object.
pub proof fn law_note_path_unique(p: Seq<char>)
    requires
        path_sha(p) is Some,
    ensures
        is_object_name(path_sha(p)->0),
        note_path(path_sha(p)->0) == p,
{
    reveal_strlit("/");
    crate::text::lemma_first_index(p, '/');
    let (a, b) = cut(p, '/')->0;
    let sha = a + b;
    assert(is_hex_digit(sha[0]) && is_hex_digit(sha[1]));
    assert(sha.take(2) == a);
    assert(sha.skip(2) == b);
    assert(p == a + seq!['/'] + b);
}

/// Different models have different refs.
pub proof fn law_refs_are_distinct(a: Seq<char>, b: Seq<char>)
    requires
        ref_name_of(a) == ref_name_of(b),
    ensures
        a == b,
{
    let n = (NOTES_REF_PREFIX@ + "/"@).len() as int;
    assert(ref_name_of(a).skip(n) == a);
    assert(ref_name_of(b).skip(n) == b);
}

/// A note stands at forty-one characters: the first two digits of the object's
/// name, a slash, and the other thirty-eight. A path of that form, and no other,
/// leads to an object.
pub proof fn law_note_path_form(sha: Seq<char>, p: Seq<char>)
    requires
        is_object_name(sha),
    ensures
        note_path(sha).len() == 41,
        note_path(sha)[2] == '/',
        note_path(sha).take(2) == sha.take(2),
        note_path(sha).skip(3) == sha.skip(2),
        path_sha(p) is Some <==> p.len() == 41 && p[2] == '/' && forall|i: int|
            0 <= i < 41 && i != 2 ==> ('0' <= #[trigger] p[i] <= '9' || 'a' <= p[i] <= 'f' || 'A'
                <= p[i] <= 'F'),
        path_sha(p) is Some ==> path_sha(p) == Some(p.take(2) + p.skip(3)),
{
    reveal_strlit("/");
    assert(is_hex_digit(sha[0]) && is_hex_digit(sha[1]));
    let np = note_path(sha);
    assert(np == sha.take(2) + seq!['/'] + sha.skip(2));
    assert(np.take(2) == sha.take(2));
    assert(np.skip(3) == sha.skip(2));
    if path_sha(p) is Some {
        law_note_path_unique(p);
        let s = path_sha(p)->0;
        assert(is_hex_digit(s[0]) && is_hex_digit(s[1]));
        assert(p == s.take(2) + seq!['/'] + s.skip(2));
        assert(s =~= p.take(2) + p.skip(3));
        assert forall|i: int| 0 <= i < 41 && i != 2 implies ('0' <= #[trigger] p[i] <= '9' || 'a'
            <= p[i] <= 'f' || 'A' <= p[i] <= 'F') by {
            if i < 2 {
                assert(is_hex_digit(s[i]));
            } else {
                assert(is_hex_digit(s[i - 1]));
            }
        }
    } else if p.len() == 41 && p[2] == '/' && forall|i: int|
        0 <= i < 41 && i != 2 ==> ('0' <= #[trigger] p[i] <= '9' || 'a' <= p[i] <= 'f' || 'A'
            <= p[i] <= 'F') {
        assert(p[0] != '/' && p[1] != '/');
        lemma_first_index_is(p, '/', 2);
        let s = p.take(2) + p.skip(3);
        assert forall|i: int| 0 <= i < s.len() implies is_hex_digit(#[trigger] s[i]) by {
            if i < 2 {
                assert(s[i] == p[i]);
            } else {
                assert(s[i] == p[i + 1]);
            }
        }
    }
}

/// The notes of a model stand under `refs/notes/vector-grep/`, by the model's id.
pub proof fn law_ref_name_form(short_id: Seq<char>)
    ensures
        ref_name_of(short_id).take(23) == "refs/notes/vector-grep/"@,
        ref_name_of(short_id).skip(23) == short_id,
{
    reveal_strlit("refs/notes/vector-grep");
    reveal_strlit("refs/notes/vector-grep/");
    reveal_strlit("/");
    assert(ref_name_of(short_id).take(23) =~= "refs/notes/vector-grep/"@);
    assert(ref_name_of(short_id).skip(23) =~= short_id);
}

/// A name can be split exactly where its first two bytes end a character, and its
/// note then stands at what they encode, a slash, and the rest.
pub proof fn law_split_after_two_bytes(s: Seq<char>, n: int)
    requires
        0 <= n <= s.len(),
        encode_utf8(s.take(n)).len() == 2,
    ensures
        splittable(s),
        note_path(s) == s.take(n) + seq!['/'] + s.skip(n),
{
    reveal_strlit("/");
    assert("/"@ =~= seq!['/']);
    assert(s.take(0) == Seq::<char>::empty());
    assert(encode_utf8(s.take(0)).len() == 0);
    lemma_char_width(s, 0);
    lemma_encode_take_monotonic(s, 1, n);
    if n >= 2 {
        lemma_char_width(s, 1);
        lemma_encode_take_monotonic(s, 2, n);
        if n >= 3 {
            lemma_encode_take_grows(s, 2);
            lemma_encode_take_monotonic(s, 3, n);
        }
    }
}

/// How many bytes a character adds.
proof fn lemma_char_width(s: Seq<char>, i: int)
    requires
        0 <= i < s.len(),
    ensures
        ({
            let more = encode_utf8(s.take(i + 1)).len() - encode_utf8(s.take(i)).len();
            let u = s[i] as u32;
            &&& more >= 1
            &&& u < 0x80 <==> more == 1
            &&& 0x80 <= u < 0x800 <==> more == 2
        }),
{
    let one = seq![s[i]];
    assert(s.take(i + 1) == s.take(i) + one);
    lemma_encode_concat(s.take(i), one);
    char_is_scalar(s[i]);
    assert(one.drop_first() == Seq::<char>::empty());
    assert(encode_utf8(one.drop_first()).len() == 0);
    assert(encode_utf8(one).len() == encode_scalar(s[i] as u32).len());
}

} // verus!
