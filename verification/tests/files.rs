use git_vector_grep::indexer::{
    group_message, list_tracked_with_blob_details, list_tracked_with_blobs, opening_message,
    paths_to_hash, show_progress, IndexPlan, IndexStats, TrackedBlob,
};
use git_vector_grep::repo::{
    find_repo_root, git_blob_sha1, hex, is_excluded, list_tracked, looks_textual, modified_paths,
    NotUtf8,
};
use git_vector_grep::sorted::{StrMap, StrSet};
use git_vector_grep::version::{build_version, git_output};

#[test]
fn the_root_is_trimmed() {
    assert_eq!(find_repo_root(b"/home/u/repo\n"), Ok("/home/u/repo".to_string()));
    assert_eq!(find_repo_root(b"\xff"), Err(NotUtf8));
}

#[test]
fn records_of_ls_files_are_read() {
    let out = b"100644 aaa 0\tsrc/a b.rs\x00no tab\x00short\tx\x00\x00100755 bbb 0\tt\tab\x00";
    let files = list_tracked(out).unwrap();
    let got: Vec<_> =
        files.iter().map(|f| (f.path.as_str(), f.index_blob_sha.as_str())).collect();
    assert_eq!(got, vec![("src/a b.rs", "aaa"), ("t\tab", "bbb")]);
    assert_eq!(list_tracked(b"").unwrap().len(), 0);
    assert_eq!(list_tracked(b"1 a 0\tok\x001 b 0\t\xff\x00").err(), Some(NotUtf8));
    assert_eq!(list_tracked(b"\xff a 0\tok\x00").err(), Some(NotUtf8));
}

#[test]
fn records_of_diff_are_read() {
    assert_eq!(modified_paths(b"a\x00\x00b c\x00"), Ok(vec!["a".to_string(), "b c".to_string()]));
    assert_eq!(modified_paths(b""), Ok(vec![]));
    assert_eq!(modified_paths(b"a\x00\xff\x00"), Err(NotUtf8));
}

#[test]
fn blobs_are_named_as_git_names_them() {
    assert_eq!(git_blob_sha1(b""), "e69de29bb2d1d6434b8b29ae775ad8c2e48c5391");
    assert_eq!(git_blob_sha1(b"hello\n"), "ce013625030ba8dba906f756967f9e9ca394464a");
    assert_eq!(hex(&[0x00, 0x9a, 0xff]), "009aff");
    assert_eq!(hex(&[]), "");
}

#[test]
fn machine_made_paths_are_excluded() {
    for p in [
        "a/node_modules/b.js", "x/vendor/y.go", "app/target/debug/a.rs", "a/dist/b.js",
        "a/build/b.js", "a/.git/config", "a/.next/b.js", "a/.venv/b.py", "a/__pycache__/b.py",
        "a.min.js", "a.min.css", "a.js.map", "Gemfile.lock", "package-lock.json", "yarn.lock",
        "pnpm-lock.yaml", "go.sum", "Cargo.lock", "poetry.lock", "uv.lock", "composer.lock",
    ] {
        assert!(is_excluded(p), "{}", p);
        assert!(!looks_textual(p), "{}", p);
    }
    assert!(!is_excluded("target/a.rs"));
    assert!(looks_textual("vendor/a.go"));
}

#[test]
fn textual_paths_are_known_by_name_or_extension() {
    for p in [
        "src/main.rs", "a.PY", "Makefile", "docs/README", "x/LICENSE", "a.tar.md", "d.dockerfile",
        "q.ipynb", "x.edn", "x.r", ".mk", "a/b.c/Dockerfile",
    ] {
        assert!(looks_textual(p), "{}", p);
    }
    for p in ["a.png", "binary", "a.rs.bak", "src.rs/file", "", "a.", "readme.pdf"] {
        assert!(!looks_textual(p), "{}", p);
    }
}

fn listing(files: &[(&str, &str)]) -> Vec<u8> {
    let mut out = Vec::new();
    for (path, sha) in files {
        out.extend_from_slice(format!("100644 {} 0\t{}\0", sha, path).as_bytes());
    }
    out
}

#[test]
fn modified_files_have_the_blob_of_their_bytes() {
    let ls = listing(&[("a.rs", "s1"), ("b.png", "s2"), ("c.rs", "s3"), ("d.rs", "s4")]);
    let diff = b"c.rs\x00b.png\x00d.rs\x00";
    assert_eq!(paths_to_hash(&ls, diff), Ok(vec!["c.rs".to_string(), "d.rs".to_string()]));
    let mut contents = StrMap::new();
    contents.insert("c.rs".to_string(), b"hello\n".to_vec());
    let hello = "ce013625030ba8dba906f756967f9e9ca394464a".to_string();
    assert_eq!(
        list_tracked_with_blobs(&ls, diff, &contents),
        Ok(vec![("a.rs".to_string(), "s1".to_string()), ("c.rs".to_string(), hello)])
    );
    let details = list_tracked_with_blob_details(&ls, diff, &contents).unwrap();
    assert_eq!(details.iter().map(|b| b.raw_sha).collect::<Vec<_>>(), vec![false, true]);
    assert_eq!(paths_to_hash(&ls, b"\xff"), Err(NotUtf8));
    assert!(list_tracked_with_blob_details(b"1 a 0\t\xff\x00", b"", &contents).is_err());
}

fn blob(path: &str, sha: &str, raw_sha: bool) -> TrackedBlob {
    TrackedBlob { path: path.to_string(), sha: sha.to_string(), raw_sha }
}

#[test]
fn plans_embed_each_missing_blob_once_from_its_canonical_path() {
    let files = vec![
        blob("z", "s2", false),
        blob("y", "s1", false),
        blob("x", "s2", true),
        blob("w", "s2", true),
        blob("v", "s3", false),
        blob("u", "s1", false),
    ];
    let known = StrSet::from_vec(vec!["s3".to_string(), "s9".to_string()]);
    let plan = IndexPlan::new(&files, &known);
    assert_eq!((plan.files_total, plan.blobs_unique, plan.blobs_already_cached), (6, 3, 1));
    let todo: Vec<_> = plan
        .to_embed
        .iter()
        .map(|p| (p.sha.as_str(), p.path.as_str(), p.verify_raw_sha))
        .collect();
    assert_eq!(todo, vec![("s1", "y", false), ("s2", "x", true)]);
    let stats = plan.stats(1, 7, 12);
    assert_eq!(
        stats.summary(),
        "files: 6 | blobs: 3 unique, 1 cached, 1 embedded, 1 skipped | chunks embedded: 7 | 12ms"
    );
    let all = StrSet::from_vec(vec!["s1".to_string(), "s2".to_string(), "s3".to_string()]);
    assert!(IndexPlan::new(&files, &all).to_embed.is_empty());
    let none = IndexPlan::new(&vec![], &known);
    assert_eq!((none.files_total, none.blobs_unique, none.to_embed.len()), (0, 0, 0));
}

#[test]
fn empty_statistics_are_all_zero() {
    let s = IndexStats::default();
    assert_eq!((s.files_total, s.blobs_pruned, s.chunks_embedded, s.elapsed_ms), (0, 0, 0, 0));
}

#[test]
fn progress_is_announced_unless_silenced() {
    assert!(show_progress(false, false, 1));
    assert!(!show_progress(true, false, 1));
    assert!(!show_progress(false, true, 1));
    assert!(!show_progress(false, false, 0));
    assert_eq!(
        opening_message(true, true, 9, 3, 512).unwrap(),
        "[index] embedding 9 chunks across 3 unique blobs in groups of \u{2264}512..."
    );
    assert_eq!(
        opening_message(false, false, 9, 3, 512).unwrap(),
        "indexing: embedding 9 new chunks from 3 blobs..."
    );
    assert_eq!(opening_message(false, true, 9, 3, 512), None);
    assert_eq!(opening_message(true, false, 0, 3, 512), None);
    assert_eq!(group_message(2, 700), "[index] ... group 2 done (700 chunks total)");
}

#[test]
fn the_version_is_that_of_git_when_known() {
    assert_eq!(build_version(Some(" 9.9 \n"), true, true, Some("v1.2.3"), "0.1.0"), "9.9");
    assert_eq!(build_version(Some("a\nb"), true, true, Some("v1.2.3"), "0.1.0"), "1.2.3");
    assert_eq!(build_version(Some(" "), true, false, Some("v1.2.3"), "0.1.0"), "v1.2.3");
    assert_eq!(build_version(None, true, true, Some("1.2.3"), "0.1.0"), "1.2.3");
    assert_eq!(build_version(None, false, true, Some("v1.2.3"), "0.1.0"), "0.1.0");
    assert_eq!(build_version(None, true, true, None, "0.1.0"), "0.1.0");
    assert_eq!(git_output(true, b" v1 \n"), Some("v1".to_string()));
    assert_eq!(git_output(true, b"\n"), None);
    assert_eq!(git_output(false, b"v1"), None);
    assert_eq!(git_output(true, b"\xff"), None);
}
