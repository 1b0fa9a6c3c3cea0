use git_vector_grep::notes::{can_split, note_subpath, sha_from_note_path};
use git_vector_grep::payload::{
    bytes_to_words, pack_payload, peek_dim, words_to_bytes, PayloadError,
};
use git_vector_grep::sorted::StrSet;
use git_vector_grep::store::{
    batch_cat_blobs, peek_n, ref_for, run_git, unpack_payload, Store, StoreError, SCHEMA,
};

const SHA: &str = "0123456789abcdef0123456789abcdef01234567";
const OTHER: &str = "fedcba9876543210fedcba9876543210fedcba98";

fn bits(values: &[f32]) -> Vec<u32> {
    values.iter().map(|v| v.to_bits()).collect()
}

#[test]
fn payloads_have_the_documented_layout() {
    let packed = pack_payload(2, &[(1, 40), (33, 70)], &bits(&[1.0, 0.0, -2.5, 0.5]));
    let mut want = b"VGRP\x01\x00\x02\x00\x02\x00\x00\x00".to_vec();
    for n in [1u32, 40, 33, 70] {
        want.extend_from_slice(&n.to_le_bytes());
    }
    for v in [1.0f32, 0.0, -2.5, 0.5] {
        want.extend_from_slice(&v.to_le_bytes());
    }
    assert_eq!(packed, want);
    assert_eq!(SCHEMA, 1);
}

#[test]
fn payloads_read_back() {
    let ranges = [(1, 40), (33, 70)];
    let vecs = bits(&[1.0, 0.0, 3.0, -2.5, 0.5, f32::NAN]);
    let packed = pack_payload(3, &ranges, &vecs);
    let p = unpack_payload(&packed).ok().unwrap();
    assert_eq!((p.dim, p.ranges, p.bits), (3, ranges.to_vec(), vecs));
    assert_eq!(peek_n(&packed), Some(2));
    assert_eq!(peek_dim(&packed), Some(3));
    let empty = unpack_payload(&pack_payload(384, &[], &[])).ok().unwrap();
    assert_eq!((empty.dim, empty.ranges.len(), empty.bits.len()), (384, 0, 0));
}

#[test]
fn broken_payloads_are_refused() {
    let packed = pack_payload(1, &[(1, 2)], &bits(&[1.0]));
    let error = |b: &[u8]| unpack_payload(b).err();
    assert_eq!(error(b"VGRP\x01\x00\x02\x00"), Some(PayloadError::Magic));
    assert_eq!(error(b"not a vector payload"), Some(PayloadError::Magic));
    let mut version = packed.clone();
    version[4] = 7;
    assert_eq!(error(&version), Some(PayloadError::Schema(7)));
    assert_eq!(error(&packed[..packed.len() - 1]), Some(PayloadError::Truncated));
    let mut huge = packed.clone();
    huge[6] = 0xff;
    huge[7] = 0xff;
    huge[8] = 0xff;
    huge[11] = 0xff;
    assert_eq!(error(&huge), Some(PayloadError::Truncated));
    let mut longer = packed.clone();
    longer.push(9);
    assert_eq!(unpack_payload(&longer).ok().unwrap().bits, bits(&[1.0]));
    assert_eq!(peek_n(b"VGRP\x01\x00\x02\x00\x01\x00\x00"), None);
    assert_eq!(peek_dim(b"VGRP\x01\x00\x02\x00"), Some(2));
    assert_eq!(peek_dim(b"VGRQ\x01\x00\x02\x00"), None);
}

#[test]
fn words_are_flattened_and_grouped() {
    assert_eq!(words_to_bytes(&[0x0403_0201, 5]), vec![1, 2, 3, 4, 5, 0, 0, 0]);
    assert_eq!(bytes_to_words(&[1, 2, 3, 4, 5, 0, 0, 0]), vec![0x0403_0201, 5]);
}

#[test]
fn note_paths_lead_back_to_their_blobs() {
    let path = note_subpath(SHA);
    assert_eq!(path, "01/23456789abcdef0123456789abcdef01234567");
    assert_eq!(sha_from_note_path(&path), Some(SHA.to_string()));
    assert_eq!(sha_from_note_path(SHA), None);
    assert_eq!(sha_from_note_path("012/3456789abcdef0123456789abcdef01234567"), None);
    assert_eq!(sha_from_note_path("01/23456789abcdef0123456789abcdef0123456"), None);
    assert_eq!(sha_from_note_path("0g/23456789abcdef0123456789abcdef01234567"), None);
    assert_eq!(
        sha_from_note_path("AB/23456789abcdef0123456789abcdef01234567"),
        Some("AB23456789abcdef0123456789abcdef01234567".to_string())
    );
}

#[test]
fn names_are_split_after_two_bytes() {
    for name in ["", "a", "ab", "abc", "\u{e9}", "\u{e9}x", "a\u{e9}", "\u{20ac}x"] {
        assert_eq!(can_split(name), name.is_char_boundary(2));
        if can_split(name) {
            assert_eq!(note_subpath(name), format!("{}/{}", &name[..2], &name[2..]));
        }
    }
}

#[test]
fn each_model_has_a_ref_of_its_own() {
    assert_eq!(ref_for("minilm"), "refs/notes/vector-grep/minilm");
    assert_ne!(ref_for("minilm"), ref_for("mlx-minilm"));
    let s = Store::open("bge-small", 384).unwrap();
    assert_eq!((s.ref_name.as_str(), s.dim, s.dirty), ("refs/notes/vector-grep/bge-small", 384, false));
}

#[test]
fn a_missing_object_is_an_empty_answer() {
    assert_eq!(run_git(true, b"out".to_vec(), b"fatal"), Some(b"out".to_vec()));
    assert_eq!(run_git(false, b"out".to_vec(), b"fatal: Not a valid object name x"), Some(vec![]));
    assert_eq!(run_git(false, vec![], b"fatal: ambiguous argument: unknown revision"), Some(vec![]));
    assert_eq!(run_git(false, vec![], b"path does not exist in"), Some(vec![]));
    assert_eq!(run_git(false, vec![], b"fatal: not a git repository"), None);
}

#[test]
fn a_commit_is_read_from_rev_parse() {
    let s = Store::open("m", 2).unwrap();
    assert_eq!(s.rev_parse(false, b"abc\n"), Ok(None));
    assert_eq!(s.rev_parse(true, b"abc\n"), Ok(Some("abc".to_string())));
    assert_eq!(s.rev_parse(true, b" \n"), Ok(None));
    assert_eq!(s.rev_parse(true, b"\xff"), Err(StoreError::Utf8));
}

#[test]
fn listings_name_the_annotated_blobs() {
    let s = Store::open("m", 2).unwrap();
    let listing = format!(
        "100644 blob {}\t{}\n100644 blob aaaa\tREADME\nno tab here\n040000 tree bbbb\t{}\n",
        OTHER,
        note_subpath(SHA),
        note_subpath(OTHER)
    );
    let known = s.known_blob_shas(listing.as_bytes()).ok().unwrap();
    assert_eq!(known.as_vec(), &vec![SHA.to_string(), OTHER.to_string()]);
    let parent = Some("c0ffee".to_string());
    let entries = s.existing_note_tree_paths(&parent, listing.as_bytes()).unwrap();
    assert_eq!(
        entries,
        vec![
            (note_subpath(SHA), OTHER.to_string()),
            ("README".to_string(), "aaaa".to_string())
        ]
    );
    assert_eq!(s.existing_note_tree_paths(&None, b"\xff"), Ok(vec![]));
    assert_eq!(s.existing_note_tree_paths(&parent, b"\xff"), Err(StoreError::Utf8));
    assert_eq!(s.known_blob_shas(b"\xff").err(), Some(StoreError::Utf8));
    assert_eq!(s.known_blob_shas(b"").ok().unwrap().len(), 0);
}

#[test]
fn batches_of_objects_read_back() {
    let mut out = Vec::new();
    let blobs: [&[u8]; 3] = [b"one", b"", b"two\nlines\n"];
    for b in blobs {
        out.extend_from_slice(format!("{} blob {}\n", SHA, b.len()).as_bytes());
        out.extend_from_slice(b);
        out.push(b'\n');
    }
    let got = batch_cat_blobs(&out, 3).unwrap();
    assert_eq!(got, blobs.iter().map(|b| Some(b.to_vec())).collect::<Vec<_>>());
}

#[test]
fn batches_know_missing_and_broken_objects() {
    assert_eq!(
        batch_cat_blobs(b"r:aa/bb missing\nx blob 1\nZ", 2),
        Ok(vec![None, Some(b"Z".to_vec())])
    );
    assert_eq!(batch_cat_blobs(b"x blob 5\nabc", 1), Err(StoreError::Eof));
    assert_eq!(batch_cat_blobs(b"\xff\xff 3\nabc", 1), Err(StoreError::Utf8));
    assert_eq!(batch_cat_blobs(b"x blob many\n\n", 1), Ok(vec![Some(vec![])]));
    assert_eq!(batch_cat_blobs(b"", 2), Ok(vec![Some(vec![]), Some(vec![])]));
    assert_eq!(batch_cat_blobs(b"anything", 0), Ok(vec![]));
}

#[test]
fn payloads_of_another_dimension_are_left_out() {
    let s = Store::open("m", 2).unwrap();
    let third = "2222222222222222222222222222222222222222";
    let shas = StrSet::from_vec(vec![SHA.to_string(), OTHER.to_string(), third.to_string()]);
    assert_eq!(
        s.payload_specs(&shas),
        vec![
            format!("refs/notes/vector-grep/m:{}", note_subpath(SHA)),
            format!("refs/notes/vector-grep/m:{}", note_subpath(third)),
            format!("refs/notes/vector-grep/m:{}", note_subpath(OTHER)),
        ]
    );
    let mut out = Vec::new();
    for payload in [pack_payload(3, &[], &[]), b"junk".to_vec(), pack_payload(2, &[], &[])] {
        out.extend_from_slice(format!("{} blob {}\n", SHA, payload.len()).as_bytes());
        out.extend_from_slice(&payload);
        out.push(b'\n');
    }
    let got = s.iter_all_payloads(&shas, &out).unwrap();
    assert_eq!(got.iter().map(|p| p.0.as_str()).collect::<Vec<_>>(), vec![third, OTHER]);
    assert_eq!(s.iter_all_payloads(&shas, b"x blob 9\n"), Err(StoreError::Eof));
}

#[test]
fn the_commit_stream_is_what_fast_import_reads() {
    let mut s = Store::open("m", 1).unwrap();
    s.insert_chunks(OTHER, &[], &[], 1);
    let payload = pack_payload(1, &[], &[]);
    let listing = format!("100644 blob aaaa\t{}\n", note_subpath(SHA));
    let parent = Some("c0ffee".to_string());
    let stream = s.commit(&parent, listing.as_bytes(), 1234).unwrap().unwrap();
    let mut want = format!("blob\nmark :1\ndata {}\n", payload.len()).into_bytes();
    want.extend_from_slice(&payload);
    want.extend_from_slice(
        format!(
            "commit refs/notes/vector-grep/m\n\
             committer git-vector-grep <vgrep@local> 1234 +0000\n\
             data 29\ngit-vector-grep snapshot (m)\n\
             from c0ffee\ndeleteall\nM 100644 :1 {}\nM 100644 aaaa {}\ndone\n",
            note_subpath(OTHER),
            note_subpath(SHA)
        )
        .as_bytes(),
    );
    assert_eq!(String::from_utf8_lossy(&stream), String::from_utf8_lossy(&want));
    assert_eq!(s.commit(&parent, b"\xff", 0), Err(StoreError::Utf8));
}
