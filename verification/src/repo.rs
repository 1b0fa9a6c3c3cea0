//! What git says about a work tree, and which of its files are searched.

use sha1::Digest;
use vstd::prelude::*;
use vstd::slice::*;
use vstd::string::*;
use vstd::utf8::*;

use crate::notes::{all_hex, is_hex_digit, is_object_name};
use crate::number::{decimal, is_digit, lemma_decimal_digits, push_decimal};
use crate::sorted::same;
use crate::text::{blank, byte_views, contains, first_index, is_space, is_word, law_cut_at_first, law_occurs, law_split_at_separator, law_words_in_order, lemma_encode_concat, lemma_encode_take_grows, lemma_encode_take_monotonic, lemma_first_index, lemma_first_index_is, lemma_split_nonempty, lower, occurs, split_bytes, split_on, split_string, split_words, to_lower, trim, trimmed, utf8_string, views, words};

verus! {

/// What git printed is not UTF-8.
#[derive(Debug, Clone, Copy, PartialEq, Eq, Structural)]
pub struct NotUtf8;

/// One tracked file as reported by `git ls-files -s -z`.
#[derive(Debug, Clone)]
pub struct TrackedFile {
    pub path: String,
    /// Blob SHA from the index. For an unmodified working tree this is the
    /// content hash. If the working tree differs from the index, it is computed
    /// from the file.
    pub index_blob_sha: String,
}

/// The model of a tracked file.
pub struct TrackedFileView {
    pub path: Seq<char>,
    pub index_blob_sha: Seq<char>,
}

impl View for TrackedFile {
    type V = TrackedFileView;

    open spec fn view(&self) -> TrackedFileView {
        TrackedFileView { path: self.path@, index_blob_sha: self.index_blob_sha@ }
    }
}

/// The views of a sequence of tracked files.
pub open spec fn tracked_views(v: Seq<TrackedFile>) -> Seq<TrackedFileView> {
    v.map_values(|f: TrackedFile| f@)
}

/// What one record of `git ls-files -s -z` says:
/// `<mode> SP <sha> SP <stage> TAB <path>`. A record without a tab or without a
/// second word names no file.
pub open spec fn tracked_record(rec: Seq<u8>) -> Result<Option<TrackedFileView>, NotUtf8> {
    let tab = first_index(rec, 9u8);
    if tab >= rec.len() {
        Ok(None)
    } else if !valid_utf8(rec.take(tab)) || !valid_utf8(rec.skip(tab + 1)) {
        Err(NotUtf8)
    } else if words(decode_utf8(rec.take(tab))).len() < 2 {
        Ok(None)
    } else {
        Ok(
            Some(
                TrackedFileView {
                    path: decode_utf8(rec.skip(tab + 1)),
                    index_blob_sha: words(decode_utf8(rec.take(tab)))[1],
                },
            ),
        )
    }
}

/// What the records of `git ls-files -s -z` say, in order.
pub open spec fn tracked_records(recs: Seq<Seq<u8>>) -> Result<Seq<TrackedFileView>, NotUtf8>
    decreases recs.len(),
{
    if recs.len() == 0 {
        Ok(Seq::empty())
    } else {
        match tracked_records(recs.drop_last()) {
            Ok(v) => match tracked_record(recs.last()) {
                Ok(Some(f)) => Ok(v.push(f)),
                Ok(None) => Ok(v),
                Err(e) => Err(e),
            },
            Err(e) => Err(e),
        }
    }
}

/// The texts of the records that are not empty, in order.
pub open spec fn path_records(recs: Seq<Seq<u8>>) -> Result<Seq<Seq<char>>, NotUtf8>
    decreases recs.len(),
{
    if recs.len() == 0 {
        Ok(Seq::empty())
    } else {
        match path_records(recs.drop_last()) {
            Ok(v) => if recs.last().len() == 0 {
                Ok(v)
            } else if valid_utf8(recs.last()) {
                Ok(v.push(decode_utf8(recs.last())))
            } else {
                Err(NotUtf8)
            },
            Err(e) => Err(e),
        }
    }
}

/// An error in the records so far is the error of all of them.
proof fn lemma_tracked_error(recs: Seq<Seq<u8>>, i: int)
    requires
        0 <= i <= recs.len(),
        tracked_records(recs.take(i)) is Err,
    ensures
        tracked_records(recs) == tracked_records(recs.take(i)),
    decreases recs.len() - i,
{
    if i < recs.len() {
        assert(recs.take(i + 1).drop_last() == recs.take(i));
        lemma_tracked_error(recs, i + 1);
    } else {
        assert(recs.take(i) == recs);
    }
}

/// An error in the records so far is the error of all of them.
proof fn lemma_path_error(recs: Seq<Seq<u8>>, i: int)
    requires
        0 <= i <= recs.len(),
        path_records(recs.take(i)) is Err,
    ensures
        path_records(recs) == path_records(recs.take(i)),
    decreases recs.len() - i,
{
    if i < recs.len() {
        assert(recs.take(i + 1).drop_last() == recs.take(i));
        lemma_path_error(recs, i + 1);
    } else {
        assert(recs.take(i) == recs);
    }
}

/// The root of the repository, from what `git rev-parse --show-toplevel` prints.
pub fn find_repo_root(stdout: &[u8]) -> (r: Result<String, NotUtf8>)
    ensures
        r is Ok <==> valid_utf8(stdout@),
        r matches Ok(s) ==> s@ == trimmed(decode_utf8(stdout@)),
{
    match utf8_string(stdout) {
        Some(s) => Ok(trim(s.as_str())),
        None => Err(NotUtf8),
    }
}

/// Reads one record of `git ls-files -s -z`.
fn read_record(rec: &Vec<u8>) -> (r: Result<Option<TrackedFile>, NotUtf8>)
    ensures
        match r {
            Ok(Some(f)) => tracked_record(rec@) == Ok::<Option<TrackedFileView>, NotUtf8>(
                Some(f@),
            ),
            Ok(None) => tracked_record(rec@) == Ok::<Option<TrackedFileView>, NotUtf8>(None),
            Err(e) => tracked_record(rec@) == Err::<Option<TrackedFileView>, NotUtf8>(e),
        },
{
    let mut tab: usize = 0;
    while tab < rec.len() && rec[tab] != 9
        invariant
            tab <= rec@.len(),
            forall|k: int| 0 <= k < tab ==> #[trigger] rec@[k] != 9u8,
        decreases rec@.len() - tab,
    {
        tab = tab + 1;
    }
    proof {
        lemma_first_index_is(rec@, 9u8, tab as int);
    }
    if tab == rec.len() {
        return Ok(None);
    }
    let head_bytes = slice_subrange(rec.as_slice(), 0, tab);
    let path_bytes = slice_subrange(rec.as_slice(), tab + 1, rec.len());
    proof {
        assert(head_bytes@ == rec@.take(tab as int));
        assert(path_bytes@ == rec@.skip(tab + 1));
    }
    let head = match utf8_string(head_bytes) {
        Some(s) => s,
        None => {
            return Err(NotUtf8);
        },
    };
    let path = match utf8_string(path_bytes) {
        Some(s) => s,
        None => {
            return Err(NotUtf8);
        },
    };
    let fields = split_words(head.as_str());
    assert(views(fields@).len() == fields@.len());
    if fields.len() < 2 {
        return Ok(None);
    }
    assert(views(fields@)[1] == fields@[1]@);
    Ok(Some(TrackedFile { path, index_blob_sha: fields[1].clone() }))
}

/// The tracked files, from what `git ls-files -s -z` prints.
pub fn list_tracked(output: &[u8]) -> (r: Result<Vec<TrackedFile>, NotUtf8>)
    ensures
        match r {
            Ok(v) => tracked_records(split_on(output@, 0u8)) == Ok::<
                Seq<TrackedFileView>,
                NotUtf8,
            >(tracked_views(v@)),
            Err(e) => tracked_records(split_on(output@, 0u8)) == Err::<
                Seq<TrackedFileView>,
                NotUtf8,
            >(e),
        },
{
    let recs = split_bytes(output, 0);
    let ghost all = split_on(output@, 0u8);
    let mut out: Vec<TrackedFile> = Vec::new();
    let mut i: usize = 0;
    assert(all.take(0) == Seq::<Seq<u8>>::empty());
    assert(tracked_views(out@) == Seq::<TrackedFileView>::empty());
    while i < recs.len()
        invariant
            i <= recs@.len(),
            byte_views(recs@) == all,
            tracked_records(all.take(i as int)) == Ok::<Seq<TrackedFileView>, NotUtf8>(
                tracked_views(out@),
            ),
            all == split_on(output@, 0u8),
        decreases recs@.len() - i,
    {
        let ghost before = tracked_views(out@);
        proof {
            assert(all.take(i + 1).drop_last() == all.take(i as int));
            assert(all.take(i + 1).last() == recs@[i as int]@);
        }
        match read_record(&recs[i]) {
            Ok(Some(f)) => {
                let ghost x = f@;
                out.push(f);
                assert(tracked_views(out@) == before.push(x));
            },
            Ok(None) => {},
            Err(e) => {
                proof {
                    lemma_tracked_error(all, i + 1);
                }
                return Err(e);
            },
        }
        i = i + 1;
    }
    assert(all.take(all.len() as int) == all);
    Ok(out)
}

/// The paths whose working-tree content differs from the index, from what
/// `git diff --name-only -z` prints.
pub fn modified_paths(output: &[u8]) -> (r: Result<Vec<String>, NotUtf8>)
    ensures
        match r {
            Ok(v) => path_records(split_on(output@, 0u8)) == Ok::<Seq<Seq<char>>, NotUtf8>(
                views(v@),
            ),
            Err(e) => path_records(split_on(output@, 0u8)) == Err::<Seq<Seq<char>>, NotUtf8>(e),
        },
{
    let recs = split_bytes(output, 0);
    let ghost all = split_on(output@, 0u8);
    let mut out: Vec<String> = Vec::new();
    let mut i: usize = 0;
    assert(all.take(0) == Seq::<Seq<u8>>::empty());
    assert(views(out@) == Seq::<Seq<char>>::empty());
    while i < recs.len()
        invariant
            i <= recs@.len(),
            byte_views(recs@) == all,
            path_records(all.take(i as int)) == Ok::<Seq<Seq<char>>, NotUtf8>(views(out@)),
            all == split_on(output@, 0u8),
        decreases recs@.len() - i,
    {
        let ghost before = views(out@);
        proof {
            assert(all.take(i + 1).drop_last() == all.take(i as int));
            assert(all.take(i + 1).last() == recs@[i as int]@);
        }
        if recs[i].len() > 0 {
            match utf8_string(recs[i].as_slice()) {
                Some(s) => {
                    let ghost x = s@;
                    out.push(s);
                    assert(views(out@) == before.push(x));
                },
                None => {
                    proof {
                        lemma_path_error(all, i + 1);
                    }
                    return Err(NotUtf8);
                },
            }
        }
        i = i + 1;
    }
    assert(all.take(all.len() as int) == all);
    Ok(out)
}

/// The SHA-1 digest of a run of bytes.
pub uninterp spec fn sha1_of(data: Seq<u8>) -> Seq<u8>;

/// Calls `sha1::Sha1`: `new`, `update` with the head, `update` with the body, and
/// `finalize`. The digest is that of the head followed by the body, and has
/// twenty bytes.
#[verifier::external_body]
fn sha1_digest(head: &[u8], body: &[u8]) -> (r: Vec<u8>)
    ensures
        r@ == sha1_of(head@ + body@),
        r@.len() == 20,
{
    let mut h = sha1::Sha1::new();
    h.update(head);
    h.update(body);
    h.finalize().to_vec()
}

/// The hexadecimal digit for a value under 16, in lower case.
pub open spec fn hex_char(d: nat) -> char {
    if d < 10 {
        (48 + d) as char
    } else {
        (87 + d) as char
    }
}

/// Bytes in hexadecimal, two digits each.
pub open spec fn hex_text(bytes: Seq<u8>) -> Seq<char>
    decreases bytes.len(),
{
    if bytes.len() == 0 {
        Seq::empty()
    } else {
        hex_text(bytes.drop_last()).push(hex_char(bytes.last() as nat / 16)).push(
            hex_char(bytes.last() as nat % 16),
        )
    }
}

/// Two digits come of every byte.
pub proof fn lemma_hex_text(bytes: Seq<u8>)
    ensures
        hex_text(bytes).len() == 2 * bytes.len(),
        all_hex(hex_text(bytes)),
    decreases bytes.len(),
{
    if bytes.len() > 0 {
        lemma_hex_text(bytes.drop_last());
        let b = bytes.last() as nat;
        assert(is_hex_digit(hex_char(b / 16)));
        assert(is_hex_digit(hex_char(b % 16)));
    }
}

/// The digit for a value under 16.
fn hex_digit(d: u8) -> (r: char)
    requires
        d < 16,
    ensures
        r == hex_char(d as nat),
{
    if d < 10 {
        (48 + d) as char
    } else {
        (87 + d) as char
    }
}

/// Bytes in hexadecimal.
pub fn hex(bytes: &[u8]) -> (r: String)
    ensures
        r@ == hex_text(bytes@),
{
    let mut s = String::new();
    let mut i: usize = 0;
    while i < bytes.len()
        invariant
            i <= bytes@.len(),
            s@ == hex_text(bytes@.take(i as int)),
        decreases bytes@.len() - i,
    {
        let b: u8 = bytes[i];
        proof {
            assert(bytes@.take(i + 1).drop_last() == bytes@.take(i as int));
        }
        s.push(hex_digit(b / 16));
        s.push(hex_digit(b % 16));
        i = i + 1;
    }
    assert(bytes@.take(bytes@.len() as int) == bytes@);
    s
}

/// What git hashes for a blob: `blob `, the length in decimal, a NUL, and the
/// content.
pub open spec fn blob_object(content: Seq<u8>) -> Seq<u8> {
    encode_utf8("blob "@ + decimal(content.len()) + "\0"@) + content
}

/// The name that git gives a blob.
pub open spec fn blob_name(content: Seq<u8>) -> Seq<char> {
    hex_text(sha1_of(blob_object(content)))
}

/// Compute git's blob SHA1 for the given bytes.
pub fn git_blob_sha1(content: &[u8]) -> (r: String)
    ensures
        r@ == blob_name(content@),
        is_object_name(r@),
{
    let mut head = "blob ".to_owned();
    push_decimal(&mut head, content.len() as u128);
    head.append("\0");
    let digest = sha1_digest(head.as_str().as_bytes(), content);
    proof {
        lemma_hex_text(digest@);
    }
    hex(digest.as_slice())
}

/// Machine-generated, huge or otherwise not useful to grep, by the path.
pub open spec fn excluded(path: Seq<char>) -> bool {
    ||| occurs("/node_modules/"@, path)
    ||| occurs("/vendor/"@, path)
    ||| occurs("/target/"@, path)
    ||| occurs("/dist/"@, path)
    ||| occurs("/build/"@, path)
    ||| occurs("/.git/"@, path)
    ||| occurs("/.next/"@, path)
    ||| occurs("/.venv/"@, path)
    ||| occurs("/__pycache__/"@, path)
    ||| occurs(".min.js"@, path)
    ||| occurs(".min.css"@, path)
    ||| occurs(".map"@, path)
    ||| occurs(".lock"@, path)
    ||| occurs("package-lock.json"@, path)
    ||| occurs("yarn.lock"@, path)
    ||| occurs("pnpm-lock.yaml"@, path)
    ||| occurs("go.sum"@, path)
    ||| occurs("Cargo.lock"@, path)
    ||| occurs("poetry.lock"@, path)
    ||| occurs("uv.lock"@, path)
    ||| occurs("composer.lock"@, path)
}

/// Whether a path is machine-generated, huge or otherwise not useful to grep.
pub fn is_excluded(path: &str) -> (r: bool)
    ensures
        r == excluded(path@),
{
    contains(path, "/node_modules/") || contains(path, "/vendor/") ||
        contains(path, "/target/") || contains(path, "/dist/") || contains(path, "/build/") ||
        contains(path, "/.git/") || contains(path, "/.next/") || contains(path, "/.venv/") ||
        contains(path, "/__pycache__/") || contains(path, ".min.js") ||
        contains(path, ".min.css") || contains(path, ".map") || contains(path, ".lock") ||
        contains(path, "package-lock.json") || contains(path, "yarn.lock") ||
        contains(path, "pnpm-lock.yaml") || contains(path, "go.sum") ||
        contains(path, "Cargo.lock") || contains(path, "poetry.lock") ||
        contains(path, "uv.lock") || contains(path, "composer.lock")
}

/// The last component of a path, in lower case.
pub open spec fn file_name(path: Seq<char>) -> Seq<char> {
    lower(split_on(path, '/').last())
}

/// The names that are textual without an extension.
pub open spec fn textual_name(name: Seq<char>) -> bool {
    ||| name == "makefile"@
    ||| name == "dockerfile"@
    ||| name == "jenkinsfile"@
    ||| name == "readme"@
    ||| name == "license"@
    ||| name == "changelog"@
    ||| name == "authors"@
    ||| name == "contributors"@
    ||| name == "copying"@
    ||| name == "notice"@
}

/// The extensions of code, configuration and documents.
pub open spec fn textual_extension(ext: Seq<char>) -> bool {
    ||| ext == "py"@
    ||| ext == "pyx"@
    ||| ext == "pyi"@
    ||| ext == "ipynb"@
    ||| ext == "js"@
    ||| ext == "jsx"@
    ||| ext == "ts"@
    ||| ext == "tsx"@
    ||| ext == "mjs"@
    ||| ext == "cjs"@
    ||| ext == "go"@
    ||| ext == "rs"@
    ||| ext == "java"@
    ||| ext == "kt"@
    ||| ext == "kts"@
    ||| ext == "scala"@
    ||| ext == "swift"@
    ||| ext == "m"@
    ||| ext == "mm"@
    ||| ext == "c"@
    ||| ext == "cc"@
    ||| ext == "cpp"@
    ||| ext == "cxx"@
    ||| ext == "h"@
    ||| ext == "hh"@
    ||| ext == "hpp"@
    ||| ext == "hxx"@
    ||| ext == "rb"@
    ||| ext == "php"@
    ||| ext == "cs"@
    ||| ext == "fs"@
    ||| ext == "fsx"@
    ||| ext == "sh"@
    ||| ext == "bash"@
    ||| ext == "zsh"@
    ||| ext == "fish"@
    ||| ext == "ps1"@
    ||| ext == "sql"@
    ||| ext == "proto"@
    ||| ext == "thrift"@
    ||| ext == "graphql"@
    ||| ext == "yaml"@
    ||| ext == "yml"@
    ||| ext == "toml"@
    ||| ext == "ini"@
    ||| ext == "cfg"@
    ||| ext == "json"@
    ||| ext == "jsonc"@
    ||| ext == "md"@
    ||| ext == "mdx"@
    ||| ext == "rst"@
    ||| ext == "txt"@
    ||| ext == "adoc"@
    ||| ext == "html"@
    ||| ext == "htm"@
    ||| ext == "xml"@
    ||| ext == "svg"@
    ||| ext == "css"@
    ||| ext == "scss"@
    ||| ext == "sass"@
    ||| ext == "less"@
    ||| ext == "dockerfile"@
    ||| ext == "makefile"@
    ||| ext == "mk"@
    ||| ext == "cmake"@
    ||| ext == "tf"@
    ||| ext == "hcl"@
    ||| ext == "nix"@
    ||| ext == "lua"@
    ||| ext == "r"@
    ||| ext == "jl"@
    ||| ext == "hs"@
    ||| ext == "elm"@
    ||| ext == "ex"@
    ||| ext == "exs"@
    ||| ext == "erl"@
    ||| ext == "clj"@
    ||| ext == "cljs"@
    ||| ext == "edn"@
}

/// Likely textual code or documents, by the path: not excluded, and with a known
/// name or a known extension behind the last dot.
pub open spec fn textual(path: Seq<char>) -> bool {
    let name = file_name(path);
    let parts = split_on(name, '.');
    &&& !excluded(path)
    &&& textual_name(name) || (parts.len() >= 2 && textual_extension(parts.last()))
}

/// Whether a name is textual without an extension.
fn known_name(name: &str) -> (r: bool)
    ensures
        r == textual_name(name@),
{
    same(name, "makefile") || same(name, "dockerfile") || same(name, "jenkinsfile") ||
        same(name, "readme") || same(name, "license") || same(name, "changelog") ||
        same(name, "authors") || same(name, "contributors") || same(name, "copying") ||
        same(name, "notice")
}

/// Whether an extension is one of code, configuration or documents.
fn known_extension(ext: &str) -> (r: bool)
    ensures
        r == textual_extension(ext@),
{
    same(ext, "py") || same(ext, "pyx") || same(ext, "pyi") || same(ext, "ipynb") ||
        same(ext, "js") || same(ext, "jsx") || same(ext, "ts") || same(ext, "tsx") ||
        same(ext, "mjs") || same(ext, "cjs") || same(ext, "go") || same(ext, "rs") ||
        same(ext, "java") || same(ext, "kt") || same(ext, "kts") || same(ext, "scala") ||
        same(ext, "swift") || same(ext, "m") || same(ext, "mm") || same(ext, "c") ||
        same(ext, "cc") || same(ext, "cpp") || same(ext, "cxx") || same(ext, "h") ||
        same(ext, "hh") || same(ext, "hpp") || same(ext, "hxx") || same(ext, "rb") ||
        same(ext, "php") || same(ext, "cs") || same(ext, "fs") || same(ext, "fsx") ||
        same(ext, "sh") || same(ext, "bash") || same(ext, "zsh") || same(ext, "fish") ||
        same(ext, "ps1") || same(ext, "sql") || same(ext, "proto") || same(ext, "thrift") ||
        same(ext, "graphql") || same(ext, "yaml") || same(ext, "yml") || same(ext, "toml") ||
        same(ext, "ini") || same(ext, "cfg") || same(ext, "json") || same(ext, "jsonc") ||
        same(ext, "md") || same(ext, "mdx") || same(ext, "rst") || same(ext, "txt") ||
        same(ext, "adoc") || same(ext, "html") || same(ext, "htm") || same(ext, "xml") ||
        same(ext, "svg") || same(ext, "css") || same(ext, "scss") || same(ext, "sass") ||
        same(ext, "less") || same(ext, "dockerfile") || same(ext, "makefile") || same(ext, "mk") ||
        same(ext, "cmake") || same(ext, "tf") || same(ext, "hcl") || same(ext, "nix") ||
        same(ext, "lua") || same(ext, "r") || same(ext, "jl") || same(ext, "hs") ||
        same(ext, "elm") || same(ext, "ex") || same(ext, "exs") || same(ext, "erl") ||
        same(ext, "clj") || same(ext, "cljs") || same(ext, "edn")
}

/// Whether a path is that of likely textual code or documents.
pub fn looks_textual(path: &str) -> (r: bool)
    ensures
        r == textual(path@),
{
    if is_excluded(path) {
        return false;
    }
    let components = split_string(path, '/');
    proof {
        lemma_split_nonempty(path@, '/');
        assert(views(components@).last() == components@.last()@);
    }
    let name = to_lower(components[components.len() - 1].as_str());
    if known_name(name.as_str()) {
        return true;
    }
    let parts = split_string(name.as_str(), '.');
    assert(views(parts@).len() == parts@.len());
    if parts.len() < 2 {
        return false;
    }
    assert(views(parts@).last() == parts@.last()@);
    known_extension(parts[parts.len() - 1].as_str())
}

/// A run of bytes is the object of a content, read off the bytes alone: `blob `,
/// the length of the content in decimal, a NUL, and the content from its first
/// byte to its last.
pub open spec fn is_blob_object(object: Seq<u8>, content: Seq<u8>) -> bool {
    let h = object.len() - content.len();
    &&& h >= 7
    &&& object.take(5) == seq![98u8, 108u8, 111u8, 98u8, 32u8]
    &&& h - 6 == decimal(content.len()).len()
    &&& forall|i: int|
        0 <= i < h - 6 ==> #[trigger] object[5 + i] == decimal(content.len())[i] as u8
    &&& object[h - 1] == 0
    &&& object.skip(h) == content
}

/// What is hashed for a blob is its header and behind it all of its bytes, however
/// many they are.
pub proof fn law_blob_is_hashed_whole(content: Seq<u8>)
    ensures
        is_blob_object(blob_object(content), content),
        forall|o: Seq<u8>| #[trigger]
            is_blob_object(o, content) ==> o == blob_object(content),
{
    let n = content.len();
    let d = decimal(n);
    let head = "blob "@ + d + "\0"@;
    let o = blob_object(content);
    reveal_strlit("blob ");
    reveal_strlit("\0");
    lemma_decimal_digits(n);
    assert(is_digit(d[0]));
    assert(is_ascii_chars(head)) by {
        assert forall|i: int| 0 <= i < head.len() implies (#[trigger] head[i] as nat) < 128 by {
            if 5 <= i < 5 + d.len() {
                assert(is_digit(d[i - 5]));
            }
        }
    }
    is_ascii_chars_encode_utf8(head);
    let h = head.len() as int;
    assert(o.len() - content.len() == h);
    assert forall|i: int| 0 <= i < h implies #[trigger] o[i] == head[i] as u8 by {}
    assert forall|i: int| 0 <= i < h - 6 implies #[trigger] o[5 + i] == d[i] as u8 by {
        assert(head[5 + i] == d[i]);
    }
    assert(o.take(5) =~= seq![98u8, 108u8, 111u8, 98u8, 32u8]);
    assert(head[h - 1] == '\0');
    assert(o.skip(h) == content);
    assert forall|p: Seq<u8>| #[trigger] is_blob_object(p, content) implies p == o by {
        assert(p.len() == o.len());
        assert forall|i: int| 0 <= i < p.len() implies p[i] == o[i] by {
            if i < 5 {
                assert(p.take(5)[i] == o.take(5)[i]);
            } else if i < h - 1 {
                assert(p[5 + (i - 5)] == d[i - 5] as u8);
                assert(o[5 + (i - 5)] == d[i - 5] as u8);
            } else if i >= h {
                assert(p.skip(h)[i - h] == o.skip(h)[i - h]);
            }
        }
        assert(p =~= o);
    }
}

/// Two contents that differ in any byte, or in length, are hashed as different
/// objects.
pub proof fn law_blobs_differ(a: Seq<u8>, b: Seq<u8>)
    requires
        blob_object(a) == blob_object(b),
    ensures
        a == b,
{
    let o = blob_object(a);
    law_blob_is_hashed_whole(a);
    law_blob_is_hashed_whole(b);
    let h = o.len() - a.len();
    let g = o.len() - b.len();
    lemma_header_has_no_nul(o, a);
    lemma_header_has_no_nul(o, b);
    if h < g {
        assert(o[h - 1] != 0);
    } else if g < h {
        assert(o[g - 1] != 0);
    }
    assert(o.skip(h) == o.skip(g));
}

/// The header of an object holds no NUL but its last byte.
proof fn lemma_header_has_no_nul(object: Seq<u8>, content: Seq<u8>)
    requires
        is_blob_object(object, content),
    ensures
        forall|i: int| 0 <= i < object.len() - content.len() - 1 ==> #[trigger] object[i] != 0,
{
    let d = decimal(content.len());
    lemma_decimal_digits(content.len());
    assert forall|i: int| 0 <= i < object.len() - content.len() - 1 implies #[trigger] object[i]
        != 0 by {
        if i < 5 {
            assert(object.take(5)[i] == object[i]);
        } else {
            assert(object[5 + (i - 5)] == d[i - 5] as u8);
            assert(is_digit(d[i - 5]));
        }
    }
}

/// What a lower-case hexadecimal digit stands for.
pub open spec fn hex_value(c: char) -> int {
    if '0' <= c <= '9' {
        c as int - '0' as int
    } else if 'a' <= c <= 'f' {
        c as int - 'a' as int + 10
    } else {
        -1
    }
}

/// Every byte shows as two lower-case hexadecimal digits, the high one first.
pub proof fn law_hex_shows_bytes(bytes: Seq<u8>, i: int)
    requires
        0 <= i < bytes.len(),
    ensures
        hex_text(bytes).len() == 2 * bytes.len(),
        hex_value(hex_text(bytes)[2 * i]) >= 0,
        hex_value(hex_text(bytes)[2 * i + 1]) >= 0,
        bytes[i] == 16 * hex_value(hex_text(bytes)[2 * i]) + hex_value(
            hex_text(bytes)[2 * i + 1],
        ),
    decreases bytes.len(),
{
    lemma_hex_text(bytes);
    let init = bytes.drop_last();
    lemma_hex_text(init);
    if i < init.len() {
        law_hex_shows_bytes(init, i);
        assert(hex_text(bytes)[2 * i] == hex_text(init)[2 * i]);
        assert(hex_text(bytes)[2 * i + 1] == hex_text(init)[2 * i + 1]);
    } else {
        let b = bytes.last() as nat;
        assert(hex_value(hex_char(b / 16)) == b / 16);
        assert(hex_value(hex_char(b % 16)) == b % 16);
    }
}

/// The name of a blob shows the SHA-1 digest of its header and all of its bytes,
/// digit by digit.
pub proof fn law_blob_name_shows_digest(content: Seq<u8>, object: Seq<u8>, i: int)
    requires
        is_blob_object(object, content),
        0 <= i < sha1_of(object).len(),
    ensures
        blob_name(content).len() == 2 * sha1_of(object).len(),
        sha1_of(object)[i] == 16 * hex_value(blob_name(content)[2 * i]) + hex_value(
            blob_name(content)[2 * i + 1],
        ),
{
    law_blob_is_hashed_whole(content);
    law_hex_shows_bytes(sha1_of(object), i);
}

/// One line of a listing of the index: `<mode> SP <sha> SP <stage> TAB <path>`.
pub open spec fn listed_record(
    mode: Seq<char>,
    sha: Seq<char>,
    stage: Seq<char>,
    path: Seq<char>,
) -> Seq<u8> {
    encode_utf8(mode + seq![' '] + sha + seq![' '] + stage + seq!['\t'] + path)
}

/// A listing gives back every file that it was made of, in order: the record of
/// one more file is one more file, with its blob and its whole path, and a record
/// that is empty is none.
pub proof fn law_listing_reads_back(
    listing: Seq<u8>,
    mode: Seq<char>,
    sha: Seq<char>,
    stage: Seq<char>,
    path: Seq<char>,
)
    requires
        listing.len() == 0 || listing.last() == 0,
        tracked_records(split_on(listing, 0u8)) is Ok,
        is_word(mode),
        is_word(sha),
        is_word(stage),
        !listed_record(mode, sha, stage, path).contains(0u8),
    ensures
        tracked_records(split_on(Seq::<u8>::empty(), 0u8)) == Ok::<
            Seq<TrackedFileView>,
            NotUtf8,
        >(Seq::empty()),
        tracked_records(
            split_on(listing + listed_record(mode, sha, stage, path) + seq![0u8], 0u8),
        ) == Ok::<Seq<TrackedFileView>, NotUtf8>(
            tracked_records(split_on(listing, 0u8))->Ok_0.push(
                TrackedFileView { path, index_blob_sha: sha },
            ),
        ),
{
    let rec = listed_record(mode, sha, stage, path);
    let file = TrackedFileView { path, index_blob_sha: sha };
    lemma_reads_record(mode, sha, stage, path);
    let empty = Seq::<u8>::empty();
    lemma_no_record_in_nothing();
    assert(seq![empty].drop_last() == Seq::<Seq<u8>>::empty());
    assert(tracked_records(seq![empty]) == Ok::<Seq<TrackedFileView>, NotUtf8>(Seq::empty()));
    let old_recs = split_on(listing, 0u8);
    let recs = split_on(listing + rec + seq![0u8], 0u8);
    lemma_split_nonempty(listing, 0u8);
    assert(listing + rec + seq![0u8] == (listing + rec) + seq![0u8] + empty);
    law_split_at_separator(listing + rec, 0u8, empty);
    if listing.len() == 0 {
        assert(listing == empty);
        assert(listing + rec == rec);
        law_split_at_separator(rec, 0u8, empty);
        assert(recs == seq![rec].push(empty));
        assert(recs.drop_last() == seq![rec]);
        assert(seq![rec].drop_last() == Seq::<Seq<u8>>::empty());
        assert(tracked_records(Seq::<Seq<u8>>::empty()) == Ok::<Seq<TrackedFileView>, NotUtf8>(
            Seq::empty(),
        ));
        assert(tracked_records(seq![rec]) == Ok::<Seq<TrackedFileView>, NotUtf8>(
            Seq::<TrackedFileView>::empty().push(file),
        ));
    } else {
        let head = listing.drop_last();
        assert(listing == head + seq![0u8] + empty);
        law_split_at_separator(head, 0u8, empty);
        let kept = split_on(head, 0u8);
        assert(old_recs == kept.push(empty));
        assert(old_recs.drop_last() == kept);
        assert(listing + rec == head + seq![0u8] + rec);
        law_split_at_separator(head, 0u8, rec);
        law_split_at_separator(rec, 0u8, empty);
        assert(recs == kept.push(rec).push(empty));
        assert(recs.drop_last() == kept.push(rec));
        assert(kept.push(rec).drop_last() == kept);
        assert(old_recs.last() == empty);
        assert(tracked_records(kept) == tracked_records(old_recs));
        assert(kept.push(rec).last() == rec);
        assert(tracked_records(kept.push(rec)) == Ok::<Seq<TrackedFileView>, NotUtf8>(
            tracked_records(old_recs)->Ok_0.push(file),
        ));
    }
}

/// An empty record names no file.
proof fn lemma_no_record_in_nothing()
    ensures
        tracked_record(Seq::<u8>::empty()) == Ok::<Option<TrackedFileView>, NotUtf8>(None),
{
    let empty = Seq::<u8>::empty();
    lemma_first_index_is(empty, 9u8, 0);
}

/// A record gives its blob and its path.
proof fn lemma_reads_record(
    mode: Seq<char>,
    sha: Seq<char>,
    stage: Seq<char>,
    path: Seq<char>,
)
    requires
        is_word(mode),
        is_word(sha),
        is_word(stage),
    ensures
        tracked_record(listed_record(mode, sha, stage, path)) == Ok::<
            Option<TrackedFileView>,
            NotUtf8,
        >(Some(TrackedFileView { path, index_blob_sha: sha })),
{
    let head = mode + seq![' '] + sha + seq![' '] + stage;
    let rec = listed_record(mode, sha, stage, path);
    let tab = encode_utf8(head).len() as int;
    assert(head + seq!['\t'] + path == (head + seq!['\t']) + path);
    lemma_encode_concat(head + seq!['\t'], path);
    lemma_encode_concat(head, seq!['\t']);
    assert(is_ascii_chars(seq!['\t']));
    is_ascii_chars_encode_utf8(seq!['\t']);
    assert(encode_utf8(seq!['\t']) =~= seq![9u8]);
    assert(rec == encode_utf8(head) + seq![9u8] + encode_utf8(path));
    assert(forall|i: int| 0 <= i < head.len() ==> #[trigger] head[i] != '\t') by {
        assert forall|i: int| 0 <= i < head.len() implies #[trigger] head[i] != '\t' by {
            let a = mode.len() as int;
            let b = a + 1 + sha.len();
            if i < a {
                assert(!is_space(mode[i]));
            } else if a < i < b {
                assert(!is_space(sha[i - a - 1]));
            } else if i > b {
                assert(!is_space(stage[i - b - 1]));
            }
        }
    }
    lemma_encoding_lacks(head, '\t');
    assert forall|i: int| 0 <= i < tab implies #[trigger] rec[i] != 9u8 by {
        assert(rec[i] == encode_utf8(head)[i]);
    }
    assert(rec[tab] == 9u8);
    lemma_first_index_is(rec, 9u8, tab);
    assert(rec.take(tab) == encode_utf8(head));
    assert(rec.skip(tab + 1) == encode_utf8(path));
    encode_utf8_valid_utf8(head);
    encode_utf8_valid_utf8(path);
    encode_utf8_decode_utf8(head);
    encode_utf8_decode_utf8(path);
    let gap = seq![' '];
    assert(blank(gap));
    let rest = sha + gap + stage;
    assert(head == mode + gap + rest);
    law_words_in_order(mode, gap, rest, gap);
    law_words_in_order(sha, gap, stage, gap);
    assert(words(head) == seq![mode] + (seq![sha] + words(stage)));
    assert(words(head)[1] == sha);
}

/// An ASCII character that a text does not hold is no byte of its encoding.
pub proof fn lemma_encoding_lacks(s: Seq<char>, c: char)
    requires
        (c as u32) < 0x80,
        forall|i: int| 0 <= i < s.len() ==> #[trigger] s[i] != c,
    ensures
        forall|i: int| 0 <= i < encode_utf8(s).len() ==> #[trigger] encode_utf8(s)[i] != c as u8,
    decreases s.len(),
{
    if s.len() > 0 {
        let t = s.drop_last();
        let one = seq![s.last()];
        assert forall|i: int| 0 <= i < t.len() implies #[trigger] t[i] != c by {
            assert(t[i] == s[i]);
        }
        lemma_encoding_lacks(t, c);
        assert(s == t + one);
        lemma_encode_concat(t, one);
        char_is_scalar(s.last());
        assert(one.drop_first() == Seq::<char>::empty());
        assert(encode_utf8(one.drop_first()).len() == 0);
        let e = encode_scalar(s.last() as u32);
        assert(encode_utf8(one) == e);
        assert(s[s.len() - 1] != c);
        let u = s.last() as u32;
        assert forall|i: int| 0 <= i < e.len() implies #[trigger] e[i] != c as u8 by {
            lemma_high_bytes(u);
            assert(c as u8 as int == c as int);
            if u < 0x80 {
                assert(has_width_1_encoding(u));
                assert(e.len() == 1);
                assert(e[0] as int == u as int);
                char_u32_cast(s.last(), u);
                char_u32_cast(c, c as u32);
                assert(u != c as u32);
            } else {
                assert(!has_width_1_encoding(u));
                assert(e[i] >= 0x80u8);
            }
        }
        assert forall|i: int| 0 <= i < encode_utf8(s).len() implies #[trigger] encode_utf8(s)[i]
            != c as u8 by {
            if i < encode_utf8(t).len() {
                assert(encode_utf8(s)[i] == encode_utf8(t)[i]);
            } else {
                assert(encode_utf8(s)[i] == e[i - encode_utf8(t).len()]);
            }
        }
    }
}

/// The bytes of a character beyond ASCII are beyond ASCII.
proof fn lemma_high_bytes(u: u32)
    by (bit_vector)
    ensures
        u < 0x80 ==> leading_byte_width_1(u) == u as u8,
        leading_byte_width_2(u) >= 0x80u8,
        leading_byte_width_3(u) >= 0x80u8,
        leading_byte_width_4(u) >= 0x80u8,
        last_continuation_byte(u) >= 0x80u8,
        second_last_continuation_byte(u) >= 0x80u8,
        third_last_continuation_byte(u) >= 0x80u8,
{
}

/// A list of changed paths gives back every path that it was made of, in order.
pub proof fn law_changes_read_back(listing: Seq<u8>, path: Seq<char>)
    requires
        listing.len() == 0 || listing.last() == 0,
        path_records(split_on(listing, 0u8)) is Ok,
        path.len() > 0,
        !encode_utf8(path).contains(0u8),
    ensures
        path_records(split_on(Seq::<u8>::empty(), 0u8)) == Ok::<Seq<Seq<char>>, NotUtf8>(
            Seq::empty(),
        ),
        path_records(split_on(listing + encode_utf8(path) + seq![0u8], 0u8)) == Ok::<
            Seq<Seq<char>>,
            NotUtf8,
        >(path_records(split_on(listing, 0u8))->Ok_0.push(path)),
{
    let rec = encode_utf8(path);
    encode_utf8_valid_utf8(path);
    encode_utf8_decode_utf8(path);
    assert(path.take(0) == Seq::<char>::empty());
    lemma_encode_take_grows(path, 0);
    lemma_encode_take_monotonic(path, 1, path.len() as int);
    assert(path.take(path.len() as int) == path);
    assert(rec.len() > 0);
    let empty = Seq::<u8>::empty();
    let none = Seq::<Seq<u8>>::empty();
    assert(seq![empty].drop_last() == none);
    assert(path_records(none) == Ok::<Seq<Seq<char>>, NotUtf8>(Seq::empty()));
    assert(path_records(seq![empty]) == Ok::<Seq<Seq<char>>, NotUtf8>(Seq::empty()));
    let old_recs = split_on(listing, 0u8);
    let recs = split_on(listing + rec + seq![0u8], 0u8);
    assert(listing + rec + seq![0u8] == (listing + rec) + seq![0u8] + empty);
    law_split_at_separator(listing + rec, 0u8, empty);
    law_split_at_separator(rec, 0u8, empty);
    if listing.len() == 0 {
        assert(listing == empty);
        assert(listing + rec == rec);
        assert(recs == seq![rec].push(empty));
        assert(recs.drop_last() == seq![rec]);
        assert(seq![rec].drop_last() == none);
        assert(path_records(seq![rec]) == Ok::<Seq<Seq<char>>, NotUtf8>(
            Seq::<Seq<char>>::empty().push(path),
        ));
    } else {
        let head = listing.drop_last();
        assert(listing == head + seq![0u8] + empty);
        law_split_at_separator(head, 0u8, empty);
        let kept = split_on(head, 0u8);
        assert(old_recs == kept.push(empty));
        assert(old_recs.drop_last() == kept);
        assert(listing + rec == head + seq![0u8] + rec);
        law_split_at_separator(head, 0u8, rec);
        assert(recs == kept.push(rec).push(empty));
        assert(recs.drop_last() == kept.push(rec));
        assert(kept.push(rec).drop_last() == kept);
        assert(old_recs.last() == empty);
        assert(path_records(kept) == path_records(old_recs));
        assert(kept.push(rec).last() == rec);
        assert(path_records(kept.push(rec)) == Ok::<Seq<Seq<char>>, NotUtf8>(
            path_records(old_recs)->Ok_0.push(path),
        ));
    }
}

/// A path is excluded wherever one of these stands in it, whatever is around it,
/// and otherwise not.
pub proof fn law_excluded_parts(a: Seq<char>, part: Seq<char>, b: Seq<char>, path: Seq<char>) -> (r: (
    Seq<char>,
    Seq<char>,
    Seq<char>,
))
    requires
        part == "/node_modules/"@ || part == "/vendor/"@ || part == "/target/"@
            || part == "/dist/"@ || part == "/build/"@ || part == "/.git/"@
            || part == "/.next/"@ || part == "/.venv/"@ || part == "/__pycache__/"@
            || part == ".min.js"@ || part == ".min.css"@ || part == ".map"@ || part == ".lock"@
            || part == "package-lock.json"@ || part == "yarn.lock"@ || part == "pnpm-lock.yaml"@
            || part == "go.sum"@ || part == "Cargo.lock"@ || part == "poetry.lock"@
            || part == "uv.lock"@ || part == "composer.lock"@,
    ensures
        excluded(a + part + b),
        excluded(path) ==> path == r.0 + r.1 + r.2 && (
        r.1 == "/node_modules/"@ || r.1 == "/vendor/"@ || r.1 == "/target/"@ || r.1 == "/dist/"@
            || r.1 == "/build/"@ || r.1 == "/.git/"@ || r.1 == "/.next/"@ || r.1 == "/.venv/"@
            || r.1 == "/__pycache__/"@ || r.1 == ".min.js"@ || r.1 == ".min.css"@
            || r.1 == ".map"@ || r.1 == ".lock"@ || r.1 == "package-lock.json"@
            || r.1 == "yarn.lock"@ || r.1 == "pnpm-lock.yaml"@ || r.1 == "go.sum"@
            || r.1 == "Cargo.lock"@ || r.1 == "poetry.lock"@ || r.1 == "uv.lock"@
            || r.1 == "composer.lock"@),
{
    let _ = law_occurs(a, part, b);
    let r0 = law_occurs(path, "/node_modules/"@, b);
    let r1 = law_occurs(path, "/vendor/"@, b);
    let r2 = law_occurs(path, "/target/"@, b);
    let r3 = law_occurs(path, "/dist/"@, b);
    let r4 = law_occurs(path, "/build/"@, b);
    let r5 = law_occurs(path, "/.git/"@, b);
    let r6 = law_occurs(path, "/.next/"@, b);
    let r7 = law_occurs(path, "/.venv/"@, b);
    let r8 = law_occurs(path, "/__pycache__/"@, b);
    let r9 = law_occurs(path, ".min.js"@, b);
    let r10 = law_occurs(path, ".min.css"@, b);
    let r11 = law_occurs(path, ".map"@, b);
    let r12 = law_occurs(path, ".lock"@, b);
    let r13 = law_occurs(path, "package-lock.json"@, b);
    let r14 = law_occurs(path, "yarn.lock"@, b);
    let r15 = law_occurs(path, "pnpm-lock.yaml"@, b);
    let r16 = law_occurs(path, "go.sum"@, b);
    let r17 = law_occurs(path, "Cargo.lock"@, b);
    let r18 = law_occurs(path, "poetry.lock"@, b);
    let r19 = law_occurs(path, "uv.lock"@, b);
    let r20 = law_occurs(path, "composer.lock"@, b);
    if r0 is Some {
        let around = r0->0;
        (around.0, "/node_modules/"@, around.1)
    } else if r1 is Some {
        let around = r1->0;
        (around.0, "/vendor/"@, around.1)
    } else if r2 is Some {
        let around = r2->0;
        (around.0, "/target/"@, around.1)
    } else if r3 is Some {
        let around = r3->0;
        (around.0, "/dist/"@, around.1)
    } else if r4 is Some {
        let around = r4->0;
        (around.0, "/build/"@, around.1)
    } else if r5 is Some {
        let around = r5->0;
        (around.0, "/.git/"@, around.1)
    } else if r6 is Some {
        let around = r6->0;
        (around.0, "/.next/"@, around.1)
    } else if r7 is Some {
        let around = r7->0;
        (around.0, "/.venv/"@, around.1)
    } else if r8 is Some {
        let around = r8->0;
        (around.0, "/__pycache__/"@, around.1)
    } else if r9 is Some {
        let around = r9->0;
        (around.0, ".min.js"@, around.1)
    } else if r10 is Some {
        let around = r10->0;
        (around.0, ".min.css"@, around.1)
    } else if r11 is Some {
        let around = r11->0;
        (around.0, ".map"@, around.1)
    } else if r12 is Some {
        let around = r12->0;
        (around.0, ".lock"@, around.1)
    } else if r13 is Some {
        let around = r13->0;
        (around.0, "package-lock.json"@, around.1)
    } else if r14 is Some {
        let around = r14->0;
        (around.0, "yarn.lock"@, around.1)
    } else if r15 is Some {
        let around = r15->0;
        (around.0, "pnpm-lock.yaml"@, around.1)
    } else if r16 is Some {
        let around = r16->0;
        (around.0, "go.sum"@, around.1)
    } else if r17 is Some {
        let around = r17->0;
        (around.0, "Cargo.lock"@, around.1)
    } else if r18 is Some {
        let around = r18->0;
        (around.0, "poetry.lock"@, around.1)
    } else if r19 is Some {
        let around = r19->0;
        (around.0, "uv.lock"@, around.1)
    } else if r20 is Some {
        let around = r20->0;
        (around.0, "composer.lock"@, around.1)
    } else {
        (path, path, path)
    }
}

/// A file is textual by its extension, in letters of either case, whatever its
/// directory and its name, if nothing excludes it: by one of these extensions, and
/// by no other.
pub proof fn law_textual_by_extension(dir: Seq<char>, stem: Seq<char>, tail: Seq<char>)
    requires
        dir.len() == 0 || dir.last() == '/',
        !stem.contains('/'),
        !tail.contains('/'),
        !tail.contains('.'),
        !excluded(dir + stem + seq!['.'] + tail),
    ensures
        ({
            let ext = lower(tail);
            textual(dir + stem + seq!['.'] + tail) <==> (
                ext == "py"@ || ext == "pyx"@ || ext == "pyi"@ || ext == "ipynb"@
                    || ext == "js"@ || ext == "jsx"@ || ext == "ts"@ || ext == "tsx"@
                    || ext == "mjs"@ || ext == "cjs"@ || ext == "go"@ || ext == "rs"@
                    || ext == "java"@ || ext == "kt"@ || ext == "kts"@ || ext == "scala"@
                    || ext == "swift"@ || ext == "m"@ || ext == "mm"@ || ext == "c"@
                    || ext == "cc"@ || ext == "cpp"@ || ext == "cxx"@ || ext == "h"@
                    || ext == "hh"@ || ext == "hpp"@ || ext == "hxx"@ || ext == "rb"@
                    || ext == "php"@ || ext == "cs"@ || ext == "fs"@ || ext == "fsx"@
                    || ext == "sh"@ || ext == "bash"@ || ext == "zsh"@ || ext == "fish"@
                    || ext == "ps1"@ || ext == "sql"@ || ext == "proto"@ || ext == "thrift"@
                    || ext == "graphql"@ || ext == "yaml"@ || ext == "yml"@ || ext == "toml"@
                    || ext == "ini"@ || ext == "cfg"@ || ext == "json"@ || ext == "jsonc"@
                    || ext == "md"@ || ext == "mdx"@ || ext == "rst"@ || ext == "txt"@
                    || ext == "adoc"@ || ext == "html"@ || ext == "htm"@ || ext == "xml"@
                    || ext == "svg"@ || ext == "css"@ || ext == "scss"@ || ext == "sass"@
                    || ext == "less"@ || ext == "dockerfile"@ || ext == "makefile"@
                    || ext == "mk"@ || ext == "cmake"@ || ext == "tf"@ || ext == "hcl"@
                    || ext == "nix"@ || ext == "lua"@ || ext == "r"@ || ext == "jl"@
                    || ext == "hs"@ || ext == "elm"@ || ext == "ex"@ || ext == "exs"@
                    || ext == "erl"@ || ext == "clj"@ || ext == "cljs"@ || ext == "edn"@)
        }),
{
    let name = stem + seq!['.'] + tail;
    let path = dir + stem + seq!['.'] + tail;
    assert(path == dir + name);
    assert forall|i: int| 0 <= i < name.len() implies name[i] != '/' by {
        if i < stem.len() {
            assert(stem.contains(stem[i]));
        } else if i > stem.len() {
            assert(tail.contains(tail[i - stem.len() - 1]));
        }
    }
    lemma_last_component(dir, name);
    let ext = lower(tail);
    assert(lower(name) =~= lower(stem) + seq!['.'] + ext);
    assert forall|i: int| 0 <= i < ext.len() implies ext[i] != '.' by {
        assert(tail.contains(tail[i]));
    }
    law_split_at_separator(lower(stem), '.', ext);
    law_split_at_separator(ext, '.', ext);
    lemma_split_nonempty(lower(stem), '.');
    assert(split_on(lower(name), '.').last() == ext);
    assert(lower(name)[stem.len() as int] == '.');
    lemma_known_names_have_no_dot(lower(name), stem.len() as int);
}

/// A file without an extension is textual by its name, in letters of either case: by
/// one of these names, and by no other.
pub proof fn law_textual_by_name(dir: Seq<char>, name: Seq<char>)
    requires
        dir.len() == 0 || dir.last() == '/',
        !name.contains('/'),
        !name.contains('.'),
        !excluded(dir + name),
    ensures
        ({
            let n = lower(name);
            textual(dir + name) <==> (
                n == "makefile"@ || n == "dockerfile"@ || n == "jenkinsfile"@ || n == "readme"@
                    || n == "license"@ || n == "changelog"@ || n == "authors"@
                    || n == "contributors"@ || n == "copying"@ || n == "notice"@)
        }),
{
    lemma_last_component(dir, name);
    let n = lower(name);
    assert forall|i: int| 0 <= i < n.len() implies n[i] != '.' by {
        assert(name.contains(name[i]));
    }
    law_split_at_separator(n, '.', n);
}

/// An excluded file is not textual, whatever its name.
pub proof fn law_excluded_is_not_textual(path: Seq<char>)
    requires
        excluded(path),
    ensures
        !textual(path),
{
}

/// The name of a file is what stands behind the last slash.
proof fn lemma_last_component(dir: Seq<char>, name: Seq<char>)
    requires
        dir.len() == 0 || dir.last() == '/',
        !name.contains('/'),
    ensures
        file_name(dir + name) == lower(name),
{
    law_split_at_separator(name, '/', name);
    if dir.len() == 0 {
        assert(dir + name == name);
    } else {
        let d = dir.drop_last();
        assert(dir + name == d + seq!['/'] + name);
        law_split_at_separator(d, '/', name);
        assert(split_on(dir + name, '/').last() == name);
    }
}

/// The names that are textual without an extension hold no dot.
proof fn lemma_known_names_have_no_dot(name: Seq<char>, i: int)
    requires
        0 <= i < name.len(),
        name[i] == '.',
    ensures
        !textual_name(name),
{
    reveal_strlit("makefile");
    reveal_strlit("dockerfile");
    reveal_strlit("jenkinsfile");
    reveal_strlit("readme");
    reveal_strlit("license");
    reveal_strlit("changelog");
    reveal_strlit("authors");
    reveal_strlit("contributors");
    reveal_strlit("copying");
    reveal_strlit("notice");
}

/// A record without a tab, or with fewer than two words before it, names no file and
/// does not disturb the others. A record with a tab whose parts are not UTF-8 makes
/// the whole listing unreadable.
pub proof fn law_odd_records(recs: Seq<Seq<u8>>, rec: Seq<u8>, head: Seq<u8>, path: Seq<u8>)
    requires
        tracked_records(recs) is Ok,
        !rec.contains(9u8),
        !head.contains(9u8),
    ensures
        tracked_records(recs.push(rec)) == tracked_records(recs),
        valid_utf8(head) && valid_utf8(path) && words(decode_utf8(head)).len() < 2
            ==> tracked_records(recs.push(head + seq![9u8] + path)) == tracked_records(recs),
        !valid_utf8(head) || !valid_utf8(path) ==> tracked_records(
            recs.push(head + seq![9u8] + path),
        ) is Err,
{
    law_cut_at_first(rec, 9u8, rec);
    law_cut_at_first(head, 9u8, path);
    let odd = head + seq![9u8] + path;
    assert(recs.push(rec).drop_last() == recs);
    assert(recs.push(odd).drop_last() == recs);
    lemma_first_index(rec, 9u8);
    lemma_first_index(odd, 9u8);
    let i = first_index(odd, 9u8);
    assert(i < odd.len());
    assert(odd.take(i) == head && odd.skip(i + 1) == path);
}

/// An empty record names no path; one that is not UTF-8 makes the whole list
/// unreadable.
pub proof fn law_odd_paths(recs: Seq<Seq<u8>>, rec: Seq<u8>)
    requires
        path_records(recs) is Ok,
    ensures
        path_records(recs.push(Seq::empty())) == path_records(recs),
        rec.len() > 0 && !valid_utf8(rec) ==> path_records(recs.push(rec)) is Err,
{
    assert(recs.push(rec).drop_last() == recs);
    assert(recs.push(Seq::empty()).drop_last() == recs);
}

} // verus!
