//! The version that the command line reports: the exact git tag or commit when it
//! is known.

use vstd::prelude::*;
use vstd::string::*;
use vstd::utf8::*;

use crate::text::{after_prefix, blank, chars_of, is_space, law_trim, strip_prefix, trim, trimmed, utf8_string};

verus! {

/// What a git command printed, without the white space around it; `None` where it
/// failed, printed nothing, or did not print text.
pub open spec fn git_value(success: bool, stdout: Seq<u8>) -> Option<Seq<char>> {
    if success && valid_utf8(stdout) && trimmed(decode_utf8(stdout)).len() > 0 {
        Some(trimmed(decode_utf8(stdout)))
    } else {
        None
    }
}

/// What a git command printed.
pub fn git_output(success: bool, stdout: &[u8]) -> (r: Option<String>)
    ensures
        match r {
            Some(s) => git_value(success, stdout@) == Some(s@),
            None => git_value(success, stdout@) is None,
        },
{
    if !success {
        return None;
    }
    match utf8_string(stdout) {
        Some(s) => {
            let t = trim(s.as_str());
            if t.as_str().is_empty() {
                None
            } else {
                Some(t)
            }
        },
        None => None,
    }
}

/// A text of one line.
pub open spec fn is_single_line(s: Seq<char>) -> bool {
    !s.contains('\r') && !s.contains('\n')
}

/// The version that is set from outside, if it is a text of one line.
pub open spec fn set_version(value: Option<Seq<char>>) -> Option<Seq<char>> {
    match value {
        Some(v) => if trimmed(v).len() > 0 && is_single_line(trimmed(v)) {
            Some(trimmed(v))
        } else {
            None
        },
        None => None,
    }
}

/// The version: the one that is set, or what `git describe` says where the package
/// is a repository of its own, or that of the package. A tag loses its leading
/// `v`.
pub open spec fn version_of(
    value: Option<Seq<char>>,
    at_root: bool,
    has_tags: bool,
    described: Option<Seq<char>>,
    package: Seq<char>,
) -> Seq<char> {
    match set_version(value) {
        Some(v) => v,
        None => match described {
            Some(d) => if !at_root {
                package
            } else if has_tags {
                match after_prefix(d, "v"@) {
                    Some(rest) => rest,
                    None => d,
                }
            } else {
                d
            },
            None => package,
        },
    }
}

/// Whether a string is of one line.
fn single_line(s: &str) -> (r: bool)
    ensures
        r == is_single_line(s@),
{
    let cs = chars_of(s);
    let mut i: usize = 0;
    while i < cs.len()
        invariant
            i <= cs@.len(),
            cs@ == s@,
            forall|k: int| 0 <= k < i ==> #[trigger] cs@[k] != '\r' && cs@[k] != '\n',
        decreases cs@.len() - i,
    {
        if cs[i] == '\r' || cs[i] == '\n' {
            assert(s@.contains(s@[i as int]));
            return false;
        }
        i = i + 1;
    }
    true
}

/// The view of a text that may be missing.
pub open spec fn text_view(s: Option<&str>) -> Option<Seq<char>> {
    match s {
        Some(t) => Some(t@),
        None => None,
    }
}

/// Chooses the version that is reported. `value` is what the environment sets,
/// `at_root` says whether the package is the root of a git repository, `described`
/// is what `git describe` printed, and `has_tags` whether there is a tag to
/// describe by.
pub fn build_version(
    value: Option<&str>,
    at_root: bool,
    has_tags: bool,
    described: Option<&str>,
    package: &str,
) -> (r: String)
    ensures
        r@ == version_of(
            text_view(value),
            at_root,
            has_tags,
            text_view(described),
            package@,
        ),
{
    match value {
        Some(v) => {
            let t = trim(v);
            if !t.as_str().is_empty() && single_line(t.as_str()) {
                return t;
            }
        },
        None => {},
    }
    match described {
        Some(d) => {
            if !at_root {
                return package.to_owned();
            }
            if has_tags {
                match strip_prefix(d, "v") {
                    Some(rest) => rest,
                    None => d.to_owned(),
                }
            } else {
                d.to_owned()
            }
        },
        None => package.to_owned(),
    }
}

/// What git printed is its text without the white space around it. A command that
/// failed, or that printed nothing else, gave no value.
pub proof fn law_git_value(a: Seq<char>, s: Seq<char>, b: Seq<char>, stdout: Seq<u8>)
    requires
        blank(a),
        blank(b),
        s.len() > 0,
        !is_space(s[0]) && !is_space(s.last()),
    ensures
        git_value(true, encode_utf8(a + s + b)) == Some(s),
        git_value(true, encode_utf8(a)) is None,
        git_value(false, stdout) is None,
{
    law_trim(a, s, b);
    encode_utf8_valid_utf8(a + s + b);
    encode_utf8_decode_utf8(a + s + b);
    let none = Seq::<char>::empty();
    law_trim(a, none, none);
    assert(a + none + none == a);
    encode_utf8_valid_utf8(a);
    encode_utf8_decode_utf8(a);
}

/// A version that is set to a text of one line counts before all others. Without
/// one, a repository of its own counts by what `git describe` says, a tag without
/// the `v` before it; and all else by the version of the package.
pub proof fn law_version_choice(
    set: Seq<char>,
    a: Seq<char>,
    b: Seq<char>,
    described: Option<Seq<char>>,
    at_root: bool,
    has_tags: bool,
    tag: Seq<char>,
    package: Seq<char>,
)
    requires
        blank(a),
        blank(b),
        set.len() > 0,
        !is_space(set[0]) && !is_space(set.last()),
        is_single_line(set),
    ensures
        version_of(Some(a + set + b), at_root, has_tags, described, package) == set,
        version_of(Some(a), at_root, has_tags, described, package) == version_of(
            None,
            at_root,
            has_tags,
            described,
            package,
        ),
        version_of(None, true, true, Some(seq!['v'] + tag), package) == tag,
        tag.len() == 0 || tag[0] != 'v' ==> version_of(None, true, true, Some(tag), package) == tag,
        version_of(None, true, false, Some(tag), package) == tag,
        version_of(None, false, has_tags, described, package) == package,
        version_of(None, at_root, has_tags, None, package) == package,
{
    law_trim(a, set, b);
    let none = Seq::<char>::empty();
    law_trim(a, none, none);
    assert(a + none + none == a);
    reveal_strlit("v");
    assert("v"@ =~= seq!['v']);
    assert("v"@.is_prefix_of(seq!['v'] + tag));
    assert((seq!['v'] + tag).skip(1) =~= tag);
    if "v"@.is_prefix_of(tag) {
        assert(tag.subrange(0, 1)[0] == tag[0]);
        assert(tag[0] == 'v');
    }
}

/// A value of more than one line sets no version.
pub proof fn law_lines_set_no_version(value: Seq<char>, i: int)
    requires
        0 <= i < trimmed(value).len(),
        trimmed(value)[i] == '\n' || trimmed(value)[i] == '\r',
    ensures
        set_version(Some(value)) is None,
{
    assert(trimmed(value).contains(trimmed(value)[i]));
}

} // verus!
