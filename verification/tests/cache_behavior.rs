//! Runs the index and the search against a small stand-in for git, kept in memory.

use git_vector_grep::groups::{chunk_blob, chunk_group, ChunkedBlob, IndexRun};
use git_vector_grep::indexer::{
    list_tracked_with_blob_details, list_tracked_with_blobs, paths_to_hash, IndexPlan, IndexStats,
};
use git_vector_grep::repo::git_blob_sha1;
use git_vector_grep::search::{Index, Loaded};
use git_vector_grep::sorted::{StrMap, StrSet};
use git_vector_grep::store::{CommitStep, Store};

struct Note {
    path: String,
    oid: String,
}

struct Repo {
    /// (path, bytes on disk)
    disk: Vec<(String, Vec<u8>)>,
    /// (path, blob in the index)
    index: Vec<(String, String)>,
    /// paths that differ from the index
    modified: Vec<String>,
    /// the commit that the notes ref points at
    tip: Option<String>,
    commits: usize,
    notes: Vec<Note>,
    objects: Vec<(String, Vec<u8>)>,
}

impl Repo {
    fn new() -> Repo {
        Repo {
            disk: Vec::new(),
            index: Vec::new(),
            modified: Vec::new(),
            tip: None,
            commits: 0,
            notes: Vec::new(),
            objects: Vec::new(),
        }
    }

    /// Writes a file and adds it to the index.
    fn commit_file(&mut self, path: &str, bytes: &[u8]) {
        self.commit_filtered(path, bytes, bytes);
    }

    /// Writes a file whose content in the index went through a clean filter.
    fn commit_filtered(&mut self, path: &str, bytes: &[u8], clean: &[u8]) {
        self.disk.retain(|f| f.0 != path);
        self.disk.push((path.to_string(), bytes.to_vec()));
        self.index.retain(|f| f.0 != path);
        self.index.push((path.to_string(), git_blob_sha1(clean)));
        self.index.sort();
    }

    fn ls_files(&self) -> Vec<u8> {
        let mut out = Vec::new();
        for (path, sha) in &self.index {
            out.extend_from_slice(format!("100644 {} 0\t{}\0", sha, path).as_bytes());
        }
        out
    }

    fn diff(&self) -> Vec<u8> {
        let mut out = Vec::new();
        for path in &self.modified {
            out.extend_from_slice(path.as_bytes());
            out.push(0);
        }
        out
    }

    fn read(&self, path: &str) -> Option<Vec<u8>> {
        self.disk.iter().find(|f| f.0 == path).map(|f| f.1.clone())
    }

    fn ls_tree(&self) -> Vec<u8> {
        let mut out = Vec::new();
        for n in &self.notes {
            out.extend_from_slice(format!("100644 blob {}\t{}\n", n.oid, n.path).as_bytes());
        }
        out
    }

    fn cat_file(&self, ref_name: &str, specs: &[String]) -> Vec<u8> {
        let mut out = Vec::new();
        for spec in specs {
            let path = spec.strip_prefix(&format!("{}:", ref_name)).unwrap();
            match self.notes.iter().find(|n| n.path == path) {
                Some(n) => {
                    let bytes = &self.objects.iter().find(|o| o.0 == n.oid).unwrap().1;
                    out.extend_from_slice(format!("{} blob {}\n", n.oid, bytes.len()).as_bytes());
                    out.extend_from_slice(bytes);
                    out.push(b'\n');
                }
                None => out.extend_from_slice(format!("{} missing\n", spec).as_bytes()),
            }
        }
        out
    }

    fn add_object(&mut self, bytes: &[u8]) -> String {
        let oid = git_blob_sha1(bytes);
        if !self.objects.iter().any(|o| o.0 == oid) {
            self.objects.push((oid.clone(), bytes.to_vec()));
        }
        oid
    }

    /// Reads a stream as `git fast-import` does. A commit that is not built on the
    /// tip is refused.
    fn fast_import(&mut self, stream: &[u8]) -> bool {
        let mut at = 0;
        let mut marks: Vec<(String, String)> = Vec::new();
        let mut parent: Option<String> = None;
        let mut notes: Vec<Note> = Vec::new();
        loop {
            let line = next_line(stream, &mut at);
            if line == "blob" {
                let mark = next_line(stream, &mut at).strip_prefix("mark ").unwrap().to_string();
                let data = next_data(stream, &mut at);
                let oid = self.add_object(&data);
                marks.push((mark, oid));
            } else if line.starts_with("commit ") {
                assert_eq!(line, "commit refs/notes/vector-grep/test");
                assert!(next_line(stream, &mut at)
                    .starts_with("committer git-vector-grep <vgrep@local> "));
                let message = next_data(stream, &mut at);
                assert_eq!(message, b"git-vector-grep snapshot (test)\n".to_vec());
            } else if let Some(p) = line.strip_prefix("from ") {
                parent = Some(p.to_string());
            } else if line == "deleteall" {
                notes.clear();
            } else if let Some(entry) = line.strip_prefix("M 100644 ") {
                let (source, path) = entry.split_once(' ').unwrap();
                let oid = match marks.iter().find(|m| m.0 == source) {
                    Some(m) => m.1.clone(),
                    None => source.to_string(),
                };
                assert!(self.objects.iter().any(|o| o.0 == oid));
                notes.push(Note { path: path.to_string(), oid });
            } else {
                assert_eq!(line, "done");
                break;
            }
        }
        if parent != self.tip {
            return false;
        }
        notes.sort_by(|a, b| a.path.cmp(&b.path));
        self.notes = notes;
        self.commits += 1;
        self.tip = Some(format!("{:040x}", self.commits));
        true
    }

    fn contents(&self, paths: &[String]) -> StrMap<Vec<u8>> {
        let mut map = StrMap::new();
        for p in paths {
            if let Some(bytes) = self.read(p) {
                map.insert(p.clone(), bytes);
            }
        }
        map
    }
}

fn next_line(stream: &[u8], at: &mut usize) -> String {
    let end = *at + stream[*at..].iter().position(|b| *b == b'\n').unwrap();
    let line = String::from_utf8(stream[*at..end].to_vec()).unwrap();
    *at = end + 1;
    line
}

fn next_data(stream: &[u8], at: &mut usize) -> Vec<u8> {
    let len: usize =
        next_line(stream, at).strip_prefix("data ").unwrap().parse().unwrap();
    let data = stream[*at..*at + len].to_vec();
    *at += len;
    data
}

struct FakeEmbed {
    calls: usize,
    fail_after: Option<usize>,
}

impl FakeEmbed {
    fn succeeds() -> FakeEmbed {
        FakeEmbed { calls: 0, fail_after: None }
    }

    fn fail_after(successful_calls: usize) -> FakeEmbed {
        FakeEmbed { calls: 0, fail_after: Some(successful_calls) }
    }

    fn embed_flat(&mut self, texts: &[String]) -> Result<Vec<u32>, String> {
        let call = self.calls;
        self.calls += 1;
        if self.fail_after.map_or(false, |limit| call >= limit) {
            return Err("injected embedding failure".to_string());
        }
        Ok(texts.iter().flat_map(|_| [1.0f32.to_bits(), 0.0f32.to_bits()]).collect())
    }
}

fn commit(repo: &mut Repo, store: &mut Store) {
    loop {
        let parent = repo.tip.clone();
        let stream = match store.commit(&parent, &repo.ls_tree(), 1_700_000_000).unwrap() {
            Some(s) => s,
            None => return,
        };
        let success = repo.fast_import(&stream);
        match store.finish_commit(success, &parent, &repo.tip.clone()) {
            CommitStep::Committed => return,
            CommitStep::Retry => continue,
            CommitStep::Failed => panic!("git fast-import failed"),
        }
    }
}

fn index_repo(
    repo: &mut Repo,
    store: &mut Store,
    embed: &mut FakeEmbed,
    group: &str,
) -> Result<IndexStats, String> {
    let hashed = paths_to_hash(&repo.ls_files(), &repo.diff()).unwrap();
    let contents = repo.contents(&hashed);
    let files = list_tracked_with_blob_details(&repo.ls_files(), &repo.diff(), &contents).unwrap();
    let known = store.known_blob_shas(&repo.ls_tree()).unwrap();
    let plan = IndexPlan::new(&files, &known);
    if plan.to_embed.is_empty() {
        return Ok(plan.stats(0, 0, 0));
    }
    let mut chunked: Vec<ChunkedBlob> = Vec::new();
    for p in &plan.to_embed {
        if let Some(bytes) = repo.read(&p.path) {
            if let Some(c) = chunk_blob(p, &bytes) {
                chunked.push(c);
            }
        }
    }
    let count = chunked.len();
    assert!(IndexRun::count_chunks(&chunked).is_some());
    let mut run = IndexRun::new(chunked, 2, chunk_group(Some(group)));
    while let Some(texts) = run.next_batch() {
        let bits = if texts.is_empty() { Vec::new() } else { embed.embed_flat(&texts)? };
        run.accept(&bits, store);
        commit(repo, store);
    }
    Ok(plan.stats(count, run.chunks_done, 0))
}

fn load(repo: &Repo, store: &Store) -> Loaded {
    let hashed = paths_to_hash(&repo.ls_files(), &repo.diff()).unwrap();
    let contents = repo.contents(&hashed);
    let files = list_tracked_with_blobs(&repo.ls_files(), &repo.diff(), &contents).unwrap();
    let shas = store.known_blob_shas(&repo.ls_tree()).unwrap();
    let specs = store.payload_specs(&shas);
    let output = repo.cat_file(&store.ref_name, &specs);
    Index::load(store, &shas, &output, &files).unwrap()
}

fn known(repo: &Repo, store: &Store) -> usize {
    store.known_blob_shas(&repo.ls_tree()).unwrap().len()
}

#[test]
fn branch_switch_reuses_cached_blob_versions() {
    let mut repo = Repo::new();
    repo.commit_file("a.txt", b"alpha authentication token\n");
    repo.commit_file("b.txt", b"beta virtual machine provisioning\n");
    let base = (repo.disk.clone(), repo.index.clone());

    let mut embed = FakeEmbed::succeeds();
    let mut store = Store::open("test", 2).unwrap();
    let stats = index_repo(&mut repo, &mut store, &mut embed, "512").unwrap();
    assert_eq!(stats.blobs_embedded, 2);
    commit(&mut repo, &mut store);

    repo.commit_file("a.txt", b"rotated browser authentication session\n");
    let mut store = Store::open("test", 2).unwrap();
    let stats = index_repo(&mut repo, &mut store, &mut embed, "512").unwrap();
    assert_eq!(stats.blobs_embedded, 1);
    commit(&mut repo, &mut store);
    assert_eq!(known(&repo, &store), 3);

    repo.disk = base.0;
    repo.index = base.1;
    let mut store = Store::open("test", 2).unwrap();
    let stats = index_repo(&mut repo, &mut store, &mut embed, "512").unwrap();
    assert_eq!(stats.blobs_embedded, 0);
    commit(&mut repo, &mut store);
    assert_eq!(known(&repo, &store), 3);

    let loaded = load(&repo, &store);
    assert_eq!(loaded.index.len(), 2, "only current blobs should be loaded");
}

#[test]
fn interrupted_index_keeps_completed_groups() {
    let mut repo = Repo::new();
    repo.commit_file("a.txt", b"alpha authentication token\n");
    repo.commit_file("b.txt", b"beta virtual machine provisioning\n");

    let mut embed = FakeEmbed::fail_after(1);
    let mut store = Store::open("test", 2).unwrap();
    assert!(index_repo(&mut repo, &mut store, &mut embed, "1").is_err());

    let store = Store::open("test", 2).unwrap();
    assert_eq!(known(&repo, &store), 1, "the successfully embedded group should be checkpointed");
}

#[test]
fn empty_files_are_cached_as_zero_chunk_sentinels() {
    let mut repo = Repo::new();
    repo.commit_file("empty.txt", b"");
    repo.commit_file("code.txt", b"virtual machine provisioning\n");

    let mut embed = FakeEmbed::succeeds();
    let mut store = Store::open("test", 2).unwrap();
    let first = index_repo(&mut repo, &mut store, &mut embed, "512").unwrap();
    assert_eq!(first.blobs_embedded, 2);
    assert_eq!(first.blobs_skipped, 0);

    let mut store = Store::open("test", 2).unwrap();
    let second = index_repo(&mut repo, &mut store, &mut embed, "512").unwrap();
    assert_eq!(second.blobs_already_cached, 2);
    assert_eq!(second.blobs_embedded, 0);
}

#[test]
fn clean_filtered_files_use_the_index_sha() {
    let mut repo = Repo::new();
    repo.commit_file(".gitattributes", b"*.txt text\n");
    repo.commit_filtered("filtered.txt", b"first\r\nsecond\r\n", b"first\nsecond\n");
    assert!(repo.diff().is_empty());
    let index_sha = repo.index.iter().find(|f| f.0 == "filtered.txt").unwrap().1.clone();
    let raw_sha = git_blob_sha1(&repo.read("filtered.txt").unwrap());
    assert_ne!(index_sha, raw_sha);

    let mut embed = FakeEmbed::succeeds();
    let mut store = Store::open("test", 2).unwrap();
    let first = index_repo(&mut repo, &mut store, &mut embed, "512").unwrap();
    assert_eq!(first.blobs_embedded, 1);
    assert_eq!(first.blobs_skipped, 0);

    let mut store = Store::open("test", 2).unwrap();
    let second = index_repo(&mut repo, &mut store, &mut embed, "512").unwrap();
    assert_eq!(second.blobs_already_cached, 1);
    assert_eq!(second.blobs_embedded, 0);
}

#[test]
fn concurrent_commits_preserve_both_payloads() {
    let mut repo = Repo::new();
    let shas = [
        "1111111111111111111111111111111111111111",
        "2222222222222222222222222222222222222222",
    ];
    let mut stores: Vec<Store> = Vec::new();
    let mut streams: Vec<Vec<u8>> = Vec::new();
    for sha in shas {
        let mut store = Store::open("test", 2).unwrap();
        store.insert_chunks(sha, &[(1, 1)], &[1.0f32.to_bits(), 0.0f32.to_bits()], 2);
        // Both writers look at the ref before either of them writes.
        streams.push(store.commit(&None, &repo.ls_tree(), 1).unwrap().unwrap());
        stores.push(store);
    }
    assert!(repo.fast_import(&streams[0]));
    assert_eq!(stores[0].finish_commit(true, &None, &repo.tip), CommitStep::Committed);
    assert!(!repo.fast_import(&streams[1]));
    assert_eq!(stores[1].finish_commit(false, &None, &repo.tip), CommitStep::Retry);
    commit(&mut repo, &mut stores[1]);

    let store = Store::open("test", 2).unwrap();
    assert_eq!(known(&repo, &store), 2);
}

#[test]
fn corrupt_payload_is_removed_and_reembedded() {
    let mut repo = Repo::new();
    repo.commit_file("a.txt", b"alpha authentication token\n");
    repo.commit_file("b.txt", b"beta virtual machine provisioning\n");

    let mut embed = FakeEmbed::succeeds();
    let mut store = Store::open("test", 2).unwrap();
    index_repo(&mut repo, &mut store, &mut embed, "512").unwrap();
    let a_sha = repo.index.iter().find(|f| f.0 == "a.txt").unwrap().1.clone();
    let path = format!("{}/{}", &a_sha[..2], &a_sha[2..]);
    let oid = repo.add_object(b"not a vector payload");
    repo.notes.iter_mut().find(|n| n.path == path).unwrap().oid = oid;

    let mut store = Store::open("test", 2).unwrap();
    let loaded = load(&repo, &store);
    assert_eq!(loaded.corrupt, vec![a_sha]);
    store.remove_notes(StrSet::from_vec(loaded.corrupt));
    commit(&mut repo, &mut store);
    assert_eq!(loaded.index.len(), 1);
    assert_eq!(known(&repo, &store), 1);

    let stats = index_repo(&mut repo, &mut store, &mut embed, "512").unwrap();
    assert_eq!(stats.blobs_embedded, 1);
    assert_eq!(known(&repo, &store), 2);
}

#[test]
fn modified_files_are_indexed_by_their_bytes_on_disk() {
    let mut repo = Repo::new();
    repo.commit_file("a.txt", b"alpha authentication token\n");
    repo.disk[0].1 = b"alpha authentication token, edited\n".to_vec();
    repo.modified.push("a.txt".to_string());

    let mut embed = FakeEmbed::succeeds();
    let mut store = Store::open("test", 2).unwrap();
    let stats = index_repo(&mut repo, &mut store, &mut embed, "512").unwrap();
    assert_eq!(stats.blobs_embedded, 1);
    let disk_sha = git_blob_sha1(&repo.disk[0].1);
    assert!(store.known_blob_shas(&repo.ls_tree()).unwrap().contains(&disk_sha));
    assert_eq!(stats.summary(), "files: 1 | blobs: 1 unique, 0 cached, 1 embedded, 0 skipped | chunks embedded: 1 | 0ms");
}

#[test]
fn a_commit_prunes_what_is_not_referenced() {
    let mut repo = Repo::new();
    let one = "1111111111111111111111111111111111111111";
    let two = "2222222222222222222222222222222222222222";
    let mut store = Store::open("test", 2).unwrap();
    store.insert_chunks(one, &[], &[], 2);
    store.insert_chunks(two, &[], &[], 2);
    commit(&mut repo, &mut store);
    assert_eq!(known(&repo, &store), 2);
    assert!(!store.dirty);

    store.set_referenced(StrSet::from_vec(vec![two.to_string()]));
    commit(&mut repo, &mut store);
    let left = store.known_blob_shas(&repo.ls_tree()).unwrap();
    assert!(left.contains(two));
    assert!(!left.contains(one));

    // The set holds for one commit only.
    store.insert_chunks(one, &[], &[], 2);
    commit(&mut repo, &mut store);
    assert_eq!(known(&repo, &store), 2);
}

#[test]
fn a_commit_writes_no_payload_that_is_not_referenced() {
    let mut repo = Repo::new();
    let one = "1111111111111111111111111111111111111111";
    let two = "2222222222222222222222222222222222222222";
    let three = "3333333333333333333333333333333333333333";
    let mut store = Store::open("test", 2).unwrap();
    store.insert_chunks(three, &[], &[], 2);
    commit(&mut repo, &mut store);
    let note = repo.notes[0].oid.clone();

    store.insert_chunks(one, &[], &[], 2);
    store.insert_chunks(two, &[], &[], 2);
    store.set_referenced(StrSet::from_vec(vec![two.to_string(), three.to_string()]));
    let stream = store.commit(&repo.tip.clone(), &repo.ls_tree(), 7).unwrap().unwrap();
    let text = String::from_utf8_lossy(&stream).to_string();
    assert_eq!(text.matches("mark :").count(), 1);
    assert!(text.contains("M 100644 :1 22/22222222222222222222222222222222222222\n"));
    assert!(!text.contains("11/11111111"));
    commit(&mut repo, &mut store);
    let left = store.known_blob_shas(&repo.ls_tree()).unwrap();
    assert_eq!(left.as_vec(), &vec![two.to_string(), three.to_string()]);
    assert!(repo.notes.iter().any(|n| n.path.starts_with("33/") && n.oid == note));
    assert_eq!(store.blob_payloads.len(), 0);
}

#[test]
fn a_run_keeps_the_notes_of_other_branches() {
    let mut repo = Repo::new();
    let other = "1111111111111111111111111111111111111111";
    let mut store = Store::open("test", 2).unwrap();
    store.insert_chunks(other, &[], &[], 2);
    commit(&mut repo, &mut store);
    let note = repo.notes[0].oid.clone();

    repo.commit_file("a.txt", b"alpha authentication token\n");
    repo.commit_file("b.txt", b"beta virtual machine provisioning\n");
    let mut embed = FakeEmbed::succeeds();
    let mut store = Store::open("test", 2).unwrap();
    let stats = index_repo(&mut repo, &mut store, &mut embed, "1").unwrap();
    assert_eq!((stats.blobs_embedded, stats.blobs_skipped), (2, 0));
    assert!(repo.notes.iter().any(|n| n.path.starts_with("11/") && n.oid == note));
    assert_eq!(known(&repo, &store), 3);

    // Once more: nothing is embedded and the ref stays where it is.
    let (calls, tip) = (embed.calls, repo.tip.clone());
    let mut store = Store::open("test", 2).unwrap();
    let stats = index_repo(&mut repo, &mut store, &mut embed, "1").unwrap();
    commit(&mut repo, &mut store);
    assert_eq!(stats.blobs_already_cached, stats.blobs_unique);
    assert_eq!((stats.blobs_embedded, stats.blobs_skipped, stats.chunks_embedded), (0, 0, 0));
    assert_eq!((embed.calls, repo.tip), (calls, tip));
}

#[test]
fn a_failed_commit_keeps_what_is_pending() {
    let mut store = Store::open("test", 2).unwrap();
    assert!(store.commit(&None, b"", 0).unwrap().is_none());
    store.insert_chunks("1111111111111111111111111111111111111111", &[], &[], 2);
    let tip = Some("abc".to_string());
    assert_eq!(store.finish_commit(false, &tip, &tip), CommitStep::Failed);
    assert_eq!(store.finish_commit(false, &tip, &None), CommitStep::Retry);
    assert_eq!(store.blob_payloads.len(), 1);
    assert!(store.dirty);
}
