use git_vector_grep::payload::pack_payload;
use git_vector_grep::search::{Index, Loaded};
use git_vector_grep::sorted::StrSet;
use git_vector_grep::store::{Store, StoreError};

const A: &str = "aaaaaaaaaaaaaaaaaaaaaaaaaaaaaaaaaaaaaaaa";
const B: &str = "bbbbbbbbbbbbbbbbbbbbbbbbbbbbbbbbbbbbbbbb";
const C: &str = "cccccccccccccccccccccccccccccccccccccccc";

fn bits(values: &[f32]) -> Vec<u32> {
    values.iter().map(|v| v.to_bits()).collect()
}

fn load(payloads: &[(&str, Vec<u8>)], files: &[(&str, &str)]) -> Loaded {
    let store = Store::open("m", 1).unwrap();
    let shas = StrSet::from_vec(payloads.iter().map(|p| p.0.to_string()).collect());
    let mut output = Vec::new();
    for (_, bytes) in payloads {
        output.extend_from_slice(format!("{} blob {}\n", A, bytes.len()).as_bytes());
        output.extend_from_slice(bytes);
        output.push(b'\n');
    }
    let files = files.iter().map(|f| (f.0.to_string(), f.1.to_string())).collect();
    Index::load(&store, &shas, &output, &files).ok().unwrap()
}

fn sample() -> Index {
    load(
        &[
            (A, pack_payload(1, &[(1, 40), (33, 50)], &bits(&[0.5, 0.25]))),
            (B, pack_payload(1, &[(1, 9)], &bits(&[1.0]))),
        ],
        &[("src/a.rs", A), ("src/b.rs", B), ("lib/a.rs", A)],
    )
    .index
}

#[test]
fn rows_stand_in_blob_order() {
    let index = sample();
    assert_eq!(index.len(), 3);
    assert_eq!(index.matrix, bits(&[0.5, 0.25, 1.0]));
    let meta: Vec<_> =
        index.meta.iter().map(|m| (m.blob_sha.as_str(), m.chunk_idx, m.start_line, m.end_line)).collect();
    assert_eq!(meta, vec![(A, 0, 1, 40), (A, 1, 33, 50), (B, 0, 1, 9)]);
    assert_eq!(index.blob_to_paths.get(A).unwrap(), &vec!["src/a.rs".to_string(), "lib/a.rs".to_string()]);
}

#[test]
fn only_blobs_of_the_work_tree_are_loaded() {
    let loaded = load(
        &[
            (A, b"junk".to_vec()),
            (B, pack_payload(1, &[(1, 9)], &bits(&[1.0]))),
            (C, b"junk, but not in the work tree".to_vec()),
        ],
        &[("b.rs", B), ("a.rs", A)],
    );
    assert_eq!(loaded.index.len(), 1);
    assert_eq!(loaded.corrupt, vec![A.to_string()]);
    let none = load(&[(B, pack_payload(1, &[(1, 9)], &bits(&[1.0])))], &[]);
    assert_eq!(none.index.len(), 0);
}

#[test]
fn a_broken_answer_is_an_error() {
    let store = Store::open("m", 1).unwrap();
    let shas = StrSet::from_vec(vec![A.to_string()]);
    assert_eq!(Index::load(&store, &shas, b"x blob 4\n", &vec![]).err(), Some(StoreError::Eof));
}

fn hits(index: &Index, scores: &[f32], k: usize, prefix: Option<&str>) -> Vec<(String, u32, f32)> {
    index
        .search(&bits(scores), k, prefix)
        .iter()
        .map(|h| (h.path.clone(), h.start_line, f32::from_bits(h.score)))
        .collect()
}

fn hit(path: &str, line: u32, score: f32) -> (String, u32, f32) {
    (path.to_string(), line, score)
}

#[test]
fn the_best_chunks_come_first_with_a_hit_per_path() {
    let index = sample();
    assert_eq!(
        hits(&index, &[0.5, -0.25, 0.9], 2, None),
        vec![hit("src/b.rs", 1, 0.9), hit("src/a.rs", 1, 0.5), hit("lib/a.rs", 1, 0.5)]
    );
    assert_eq!(
        hits(&index, &[0.5, -0.25, 0.9], 100, None).last().unwrap(),
        &hit("lib/a.rs", 33, -0.25)
    );
    assert_eq!(hits(&index, &[0.5, -0.25, 0.9], 0, None), vec![]);
    let h = &index.search(&bits(&[0.5, -0.25, 0.9]), 1, None)[0];
    assert_eq!((h.blob_sha.as_str(), h.chunk_idx, h.end_line), (B, 0, 9));
}

#[test]
fn the_filter_takes_effect_before_the_selection() {
    let index = sample();
    assert_eq!(hits(&index, &[0.1, 0.2, 0.9], 1, Some("lib/")), vec![hit("lib/a.rs", 33, 0.2)]);
    assert_eq!(hits(&index, &[0.1, 0.2, 0.9], 3, Some("nowhere")), vec![]);
    assert!(index.row_passes(0, Some("lib/")));
    assert!(!index.row_passes(2, Some("lib/")));
    assert!(index.row_passes(2, None));
}

#[test]
fn scores_that_are_not_finite_give_no_hit() {
    let index = sample();
    assert_eq!(
        hits(&index, &[f32::NAN, f32::NEG_INFINITY, -3.0], 3, None),
        vec![hit("src/b.rs", 1, -3.0)]
    );
    assert_eq!(hits(&index, &[f32::INFINITY, 0.5, 0.25], 1, None), vec![]);
}

#[test]
fn equal_scores_keep_the_order_of_the_index() {
    let index = sample();
    let lines: Vec<u32> = hits(&index, &[0.0, -0.0, 0.0], 3, Some("src/")).iter().map(|h| h.1).collect();
    assert_eq!(lines, vec![1, 33, 1]);
}

#[test]
fn scores_are_ordered_as_floats_are() {
    let values =
        [f32::MIN, -1.5, -1.0, -f32::MIN_POSITIVE, 0.0, f32::MIN_POSITIVE, 1e-3, 1.0, 2.5, f32::MAX];
    let index = sample();
    for a in values {
        for b in values {
            if a != b {
                let best = hits(&index, &[a, a, b], 3, Some("src/"))[0].2;
                assert_eq!(best, if a > b { a } else { b });
            }
        }
    }
}
