use git_vector_grep::groups::{chunk_blob, chunk_group, ChunkedBlob, IndexRun};
use git_vector_grep::indexer::Planned;
use git_vector_grep::payload::pack_payload;
use git_vector_grep::rows::{
    batch_ranges, embedding_order, gather_shards, pad_texts, place_batches, restore_rows,
    shard_texts, take_texts, GatherError,
};
use git_vector_grep::store::{unpack_payload, Store};

fn strings(items: &[&str]) -> Vec<String> {
    items.iter().map(|s| s.to_string()).collect()
}

/// A vector of two components that is different for each text.
fn vector(text: &str) -> Vec<u32> {
    vec![text.len() as u32, text.bytes().map(|b| b as u32).sum()]
}

fn blob(sha: &str, texts: &[&str]) -> ChunkedBlob {
    ChunkedBlob {
        sha: sha.to_string(),
        ranges: (0..texts.len() as u32).map(|i| (i + 1, i + 2)).collect(),
        texts: strings(texts),
    }
}

#[test]
fn the_group_bound_is_a_setting() {
    assert_eq!(chunk_group(None), 512);
    assert_eq!(chunk_group(Some("7")), 7);
    assert_eq!(chunk_group(Some("0")), 0);
    assert_eq!(chunk_group(Some("many")), 512);
}

#[test]
fn texts_are_embedded_shortest_first() {
    let texts = strings(&["ccc", "a", "\u{e9}", "b", ""]);
    assert_eq!(embedding_order(&texts), vec![4, 1, 3, 2, 0]);
}

#[test]
fn rows_return_to_the_order_of_the_texts() {
    let texts = strings(&["ccc", "a", "bb", "dddd", "e"]);
    let order = embedding_order(&texts);
    let mut bits = Vec::new();
    for i in &order {
        bits.extend(vector(&texts[*i]));
    }
    bits.push(99);
    let rows = restore_rows(&order, &bits, 2);
    let want: Vec<u32> = texts.iter().flat_map(|t| vector(t)).collect();
    assert_eq!(rows, want);
    assert_eq!(restore_rows(&vec![], &[], 3), Vec::<u32>::new());
    assert_eq!(restore_rows(&vec![1, 0], &[], 0), Vec::<u32>::new());
}

#[test]
fn groups_are_bounded_and_cover_the_queue() {
    let sizes = [2usize, 1, 0, 3, 9, 0, 1, 1, 1];
    let texts = ["t"; 9];
    let queue = || sizes.iter().enumerate().map(|(i, n)| blob(&format!("{:040}", i), &texts[..*n])).collect::<Vec<_>>();
    let groups = |limit: usize| -> Vec<usize> {
        let mut store = Store::open("m", 1).unwrap();
        let mut run = IndexRun::new(queue(), 1, limit);
        let mut out = Vec::new();
        while let Some(batch) = run.next_batch() {
            let n = run.end - run.pos;
            let bits = vec![0u32; batch.len()];
            run.accept(&bits, &mut store);
            out.push(n);
        }
        assert_eq!(run.chunks_done, 18);
        assert_eq!(store.blob_payloads.len(), 9);
        out
    };
    assert_eq!(groups(4), vec![3, 1, 1, 4]);
    assert_eq!(groups(3), vec![2, 2, 1, 4]);
    assert_eq!(groups(512), vec![9]);
    assert_eq!(groups(0), vec![1; 9]);
    assert_eq!(IndexRun::count_chunks(&queue()), Some(18));
}

#[test]
fn a_full_group_is_told_from_the_last_one() {
    let mut store = Store::open("m", 1).unwrap();
    let mut run = IndexRun::new(vec![blob("aa1", &["x"]), blob("aa2", &["y"])], 1, 1);
    assert!(run.next_batch().is_some());
    assert!(run.accept(&[1], &mut store));
    assert!(run.next_batch().is_some());
    assert!(run.accept(&[2], &mut store));
    assert!(run.next_batch().is_none());
    let mut run = IndexRun::new(vec![blob("aa1", &["x"])], 1, 5);
    assert!(run.next_batch().is_some());
    assert!(!run.accept(&[1], &mut store));
}

#[test]
fn what_is_stored_for_a_blob_are_the_vectors_of_its_texts() {
    let blobs = vec![blob("aa1", &["long text", "b"]), blob("aa2", &[]), blob("aa3", &["mid"])];
    let mut store = Store::open("m", 2).unwrap();
    let mut run = IndexRun::new(blobs, 2, 512);
    let batch = run.next_batch().unwrap();
    assert_eq!(batch, strings(&["b", "mid", "long text"]));
    let bits: Vec<u32> = batch.iter().flat_map(|t| vector(t)).collect();
    run.accept(&bits, &mut store);
    let p = unpack_payload(store.blob_payloads.get("aa1").unwrap()).ok().unwrap();
    assert_eq!(p.bits, [vector("long text"), vector("b")].concat());
    assert_eq!(p.ranges, vec![(1, 2), (2, 3)]);
    assert_eq!(store.blob_payloads.get("aa2").unwrap(), &pack_payload(2, &[], &[]));
    let p = unpack_payload(store.blob_payloads.get("aa3").unwrap()).ok().unwrap();
    assert_eq!(p.bits, vector("mid"));
    assert!(store.dirty);
}

#[test]
fn a_file_that_changed_meanwhile_is_refused() {
    let hello = b"hello, this is a file\n";
    let sha = git_vector_grep::repo::git_blob_sha1(hello);
    let planned = |sha: &str, verify| Planned {
        sha: sha.to_string(),
        path: "a".to_string(),
        verify_raw_sha: verify,
    };
    let c = chunk_blob(&planned(&sha, true), hello).unwrap();
    assert_eq!((c.sha, c.ranges, c.texts), (sha, vec![(1, 1)], strings(&["hello, this is a file"])));
    assert!(chunk_blob(&planned("other", true), hello).is_none());
    let c = chunk_blob(&planned("other", false), b"").unwrap();
    assert_eq!((c.ranges.len(), c.texts.len()), (0, 0));
}

#[test]
fn shards_go_round_robin() {
    let texts = strings(&["a", "b", "c", "d", "e"]);
    assert_eq!(shard_texts(&texts, 2), vec![strings(&["a", "c", "e"]), strings(&["b", "d"])]);
    assert_eq!(shard_texts(&texts, 9).len(), 5);
    assert_eq!(shard_texts(&texts, 0), vec![texts.clone()]);
    assert_eq!(shard_texts(&vec![], 4), vec![Vec::<String>::new()]);
}

#[test]
fn gathered_rows_follow_the_texts() {
    let texts = strings(&["a", "bb", "ccc", "dddd", "eeeee"]);
    for workers in 1..7 {
        let results: Vec<Option<Vec<Vec<u32>>>> = shard_texts(&texts, workers)
            .iter()
            .map(|s| Some(s.iter().map(|t| vector(t)).collect()))
            .collect();
        let want: Vec<u32> = texts.iter().flat_map(|t| vector(t)).collect();
        assert_eq!(gather_shards(&results, 5, 2), Ok(want));
    }
}

#[test]
fn the_first_broken_shard_decides() {
    let good = Some(vec![vec![1, 2], vec![3, 4]]);
    let bad = Some(vec![vec![1, 2], vec![3]]);
    assert_eq!(gather_shards(&vec![good.clone(), None, bad.clone()], 6, 2), Err(GatherError::Failed(1)));
    assert_eq!(gather_shards(&vec![good.clone(), bad.clone(), None], 6, 2), Err(GatherError::Dim(1)));
    // A vector that belongs to no text is not looked at, and a missing one is zero.
    assert_eq!(gather_shards(&vec![bad.clone()], 1, 2), Ok(vec![1, 2]));
    assert_eq!(gather_shards(&vec![good], 3, 2), Ok(vec![1, 2, 3, 4, 0, 0]));
}

#[test]
fn batches_cover_all_items() {
    assert_eq!(batch_ranges(7, 3), vec![(0, 3), (3, 6), (6, 7)]);
    assert_eq!(batch_ranges(6, 3), vec![(0, 3), (3, 6)]);
    assert_eq!(batch_ranges(0, 3), vec![]);
    assert_eq!(batch_ranges(2, usize::MAX), vec![(0, 2)]);
    let texts = strings(&["a", "b", "c"]);
    assert_eq!(take_texts(&texts, &vec![2, 0, 1], 1, 3), strings(&["a", "b"]));
    assert_eq!(pad_texts(strings(&["a"]), 3), strings(&["a", "", ""]));
    assert_eq!(pad_texts(strings(&["a", "b"]), 1), strings(&["a", "b"]));
}

#[test]
fn batches_are_placed_by_their_start() {
    let results = vec![vec![vec![1], vec![2]], vec![vec![3], vec![4]], vec![vec![5]]];
    assert_eq!(place_batches(&results, 2, 5, 1), vec![1, 2, 3, 4, 5]);
    let short = vec![vec![vec![1]], vec![vec![3], vec![4]]];
    assert_eq!(place_batches(&short, 2, 5, 1), vec![1, 0, 3, 4, 0]);
    let spilling = vec![vec![vec![1], vec![2], vec![9]], vec![vec![3]]];
    assert_eq!(place_batches(&spilling, 2, 3, 1), vec![1, 2, 3]);
}
