use git_vector_grep::bench::{
    afm_label, afm_model, afm_url, build_backend, candle_label, candle_repo, direct_label,
    model_short, oe, onnx_label, rss_bytes, select_texts, BackendError, BackendPlan, BenchArgs,
    CandleConfig, CoreMlUnits, DirectProvider, OnnxProvider, Watch,
};
use git_vector_grep::cache::{check_meta, chunk_rows, meta_rows, MetaAction};
use git_vector_grep::cli::{
    already_configured, batch_size, build_embedder, excerpt, fetch_key, has_excerpt,
    payload_totals, pull_refspec, push_args, push_refspec, query_text, resolve_spec, want_mlx,
    EmbedderStep, SpecError,
};
use git_vector_grep::corpus;
use git_vector_grep::indexer::TrackedBlob;
use git_vector_grep::mlx_embed::{
    missing_endpoint, parse_mlx_model, BertConfig, Pooling, HF_ENDPOINT,
};
use git_vector_grep::payload::pack_payload;
use git_vector_grep::sorted::StrMap;
use git_vector_grep::tokens::{
    cells_to_pool, fix_batch, hidden_state, lay_out_fixed, pad_batch, set_fixed_length,
    set_no_padding, settled, tokenize_fixed, tokenize_padded, Encoded, TextEncoder, TokenError,
};

fn strings(items: &[&str]) -> Vec<String> {
    items.iter().map(|s| s.to_string()).collect()
}

#[test]
fn mlx_models_are_found_by_either_name() {
    for (names, short_id, dim, pooling) in [
        (["bge-small", "BAAI/bge-small-en-v1.5"], "mlx-bge-small", 384, Pooling::Cls),
        (["minilm", "sentence-transformers/all-MiniLM-L6-v2"], "mlx-minilm", 384, Pooling::Mean),
        (["bge-base", "BAAI/bge-base-en-v1.5"], "mlx-bge-base", 768, Pooling::Cls),
    ] {
        for name in names {
            let m = parse_mlx_model(name).unwrap();
            assert_eq!((m.short_id, m.repo, m.dim, m.pooling), (short_id, names[1], dim, pooling));
        }
    }
    assert_eq!(
        parse_mlx_model("jina-code").unwrap_err().message(),
        "unknown mlx model: jina-code (try bge-small | minilm | bge-base)"
    );
    assert_eq!(
        parse_mlx_model("minilm").unwrap().describe(),
        "mlx/apple-gpu · mlx-minilm · GPU buffer-cache cap 512 MB · ~0.4 GB peak · tweak: --backend cpu to force CPU, --batch-size N for batch size"
    );
}

#[test]
fn encoder_shapes_are_read_from_json() {
    let c = BertConfig::from_json(br#"{"num_hidden_layers": 6, "num_attention_heads": "x"}"#);
    assert_eq!(c, Some(BertConfig { layers: 6, heads: 12 }));
    assert_eq!(BertConfig::from_json(b"[1]"), Some(BertConfig { layers: 12, heads: 12 }));
    assert_eq!(BertConfig::from_json(b"{"), None);
    assert_eq!(BertConfig::from_fields(Some(1), None), BertConfig { layers: 1, heads: 12 });
}

#[test]
fn a_blank_endpoint_is_repaired() {
    assert_eq!(missing_endpoint(None), Some(HF_ENDPOINT));
    assert_eq!(missing_endpoint(Some("")), Some(HF_ENDPOINT));
    assert_eq!(missing_endpoint(Some("http://mirror")), None);
}

#[test]
fn the_backend_is_chosen_by_name_and_build() {
    assert!(want_mlx("mlx", "nope", false));
    assert!(!want_mlx("cpu", "minilm", true));
    assert!(want_mlx("auto", "minilm", true));
    assert!(!want_mlx("auto", "jina-code", true));
    assert!(!want_mlx("auto", "minilm", false));
    assert_eq!(build_embedder("auto", "minilm", true), EmbedderStep::Mlx { fall_back: true });
    assert_eq!(build_embedder("mlx", "minilm", true), EmbedderStep::Mlx { fall_back: false });
    assert_eq!(build_embedder("mlx", "minilm", false), EmbedderStep::NoMlx);
    assert_eq!(build_embedder("auto", "minilm", false), EmbedderStep::Cpu);
    assert_eq!(build_embedder("cpu", "minilm", true), EmbedderStep::Cpu);
}

#[test]
fn specs_are_resolved_without_a_model() {
    assert_eq!(resolve_spec("auto", "minilm", false).ok(), Some(("minilm".to_string(), 384)));
    assert_eq!(resolve_spec("auto", "minilm", true).ok(), Some(("mlx-minilm".to_string(), 384)));
    assert_eq!(resolve_spec("auto", "jina-code", true).ok(), Some(("jina-code".to_string(), 768)));
    assert!(matches!(resolve_spec("mlx", "jina-code", true), Err(SpecError::Mlx(_))));
    assert!(matches!(resolve_spec("cpu", "nope", true), Err(SpecError::Cpu(_))));
    assert_eq!(batch_size(None, 1), 1);
    assert_eq!(batch_size(Some(8), 1), 8);
}

#[test]
fn queries_are_joined_by_blanks() {
    assert_eq!(query_text(&strings(&["where", "is", "it?"])), Some("where is it?".to_string()));
    assert_eq!(query_text(&strings(&[""])), None);
    assert_eq!(query_text(&vec![]), None);
}

#[test]
fn the_caches_of_all_models_are_shared() {
    let spec = "refs/notes/vector-grep/*:refs/notes/vector-grep/*";
    assert_eq!(push_refspec(), spec);
    assert_eq!(pull_refspec(), format!("+{}", spec));
    assert_eq!(push_args("origin", false), strings(&["push", "origin", spec]));
    assert_eq!(push_args("origin", true), strings(&["push", "--force", "origin", spec]));
    assert_eq!(fetch_key("origin"), "remote.origin.fetch");
    assert!(already_configured(&format!("+refs/heads/*:refs/x/*\n  +{} \n", spec)));
    assert!(!already_configured(spec));
    assert!(!already_configured(""));
}

#[test]
fn excerpts_show_the_lines_of_a_hit() {
    let text = "one\ntwo\nthree\n";
    assert_eq!(excerpt(text, 2, 3), strings(&["two", "three"]));
    assert_eq!(excerpt(text, 1, 99), strings(&["one", "two", "three", ""]));
    assert_eq!(excerpt(text, 0, 1), strings(&["one"]));
    assert!(has_excerpt(text, 5, 6));
    assert!(!has_excerpt(text, 6, 7));
}

#[test]
fn totals_count_chunks_and_bytes() {
    let payloads = vec![
        ("a".to_string(), pack_payload(1, &[(1, 1), (2, 2)], &[0, 0])),
        ("b".to_string(), b"junk".to_vec()),
    ];
    assert_eq!(payload_totals(&payloads), (2, 36 + 4));
    assert_eq!(payload_totals(&vec![]), (0, 0));
}

#[test]
fn a_cache_of_another_model_is_wiped() {
    let mut rows: StrMap<String> = StrMap::new();
    assert_eq!(check_meta(&rows, "m", 384), MetaAction::Insert);
    for (k, v) in meta_rows("m", 384) {
        rows.insert(k, v);
    }
    assert_eq!(rows.get("dim").map(|s| s.as_str()), Some("384"));
    assert_eq!(rows.get("schema").map(|s| s.as_str()), Some("1"));
    assert_eq!(check_meta(&rows, "m", 384), MetaAction::Keep);
    assert_eq!(check_meta(&rows, "m", 768), MetaAction::Wipe);
    assert_eq!(check_meta(&rows, "n", 384), MetaAction::Wipe);
    rows.insert("schema".to_string(), "2".to_string());
    assert_eq!(check_meta(&rows, "m", 384), MetaAction::Wipe);
}

#[test]
fn chunk_rows_hold_one_vector_each() {
    let rows = chunk_rows(&[(1, 40), (33, 50)], &[1.0f32.to_bits(), 0.5f32.to_bits()], 1);
    assert_eq!(rows.len(), 2);
    assert_eq!((rows[1].idx, rows[1].start_line, rows[1].end_line), (1, 33, 50));
    assert_eq!(rows[1].vec, 0.5f32.to_le_bytes().to_vec());
}

fn args(backend: &str) -> BenchArgs {
    BenchArgs {
        backend: backend.to_string(),
        model: "minilm".to_string(),
        batch: 16,
        sessions: 0,
        threads: 2,
        group: 0,
        coreml_units: "ane".to_string(),
        coreml_nn: false,
        coreml_static: true,
        half: true,
        seq_len: 256,
        afm_url: "http://127.0.0.1:9998/".to_string(),
    }
}

#[test]
fn benchmark_backends_are_chosen_by_name() {
    match build_backend(&args("onnx-cpu"), 6, false) {
        Ok(BackendPlan::Onnx { provider, sessions, threads, group }) => {
            assert_eq!((provider, sessions, threads, group), (OnnxProvider::Cpu, 6, 2, 1));
        }
        other => panic!("{:?}", other),
    }
    let coreml =
        OnnxProvider::CoreMl { units: CoreMlUnits::Ane, mlprogram: true, static_shapes: true };
    match build_backend(&args("onnx-coreml"), 6, false) {
        Ok(BackendPlan::Onnx { provider, sessions, .. }) => {
            assert_eq!((provider, sessions), (coreml, 1));
        }
        other => panic!("{:?}", other),
    }
    match build_backend(&args("afm-http"), 6, false) {
        Ok(BackendPlan::Afm { url, model, concurrency }) => {
            assert_eq!(url, "http://127.0.0.1:9998/v1/embeddings");
            assert_eq!((model.as_str(), concurrency), ("apple-nl-contextual-en", 8));
        }
        other => panic!("{:?}", other),
    }
    match build_backend(&args("onnx-direct"), 6, false) {
        Ok(BackendPlan::Direct { target, seq_len, batch }) => {
            assert_eq!((target, seq_len, batch), (DirectProvider::CoreMl(CoreMlUnits::Ane), 256, 16));
        }
        other => panic!("{:?}", other),
    }
    let mut none = args("onnx-direct");
    none.coreml_units = "none".to_string();
    assert!(matches!(
        build_backend(&none, 6, false),
        Ok(BackendPlan::Direct { target: DirectProvider::Cpu, .. })
    ));
    assert!(matches!(
        build_backend(&args("candle-metal"), 6, true),
        Ok(BackendPlan::Candle { half: true })
    ));
}

#[test]
fn unknown_benchmark_settings_are_refused() {
    let message = |a: &BenchArgs| build_backend(a, 6, false).unwrap_err().message();
    assert_eq!(message(&args("tpu")), "unknown backend tpu");
    assert_eq!(
        message(&args("candle-metal")),
        "candle-metal requires building with --features candle"
    );
    let mut units = args("onnx-coreml");
    units.coreml_units = "none".to_string();
    assert_eq!(message(&units), "unknown --coreml-units none");
    units.backend = "onnx-direct".to_string();
    units.coreml_units = "npu".to_string();
    assert!(matches!(build_backend(&units, 6, false), Err(BackendError::UnknownUnits(_))));
}

#[test]
fn servers_are_addressed_by_their_endpoint() {
    assert_eq!(afm_url("http://h:1"), "http://h:1/v1/embeddings");
    assert_eq!(afm_url("http://h:1//"), "http://h:1/v1/embeddings");
    assert_eq!(afm_url("http://h:1/v1/x"), "http://h:1/v1/x");
    assert_eq!(afm_model("apple-nl-x"), "apple-nl-x");
    assert_eq!(afm_model("bge-small"), "apple-nl-contextual-en");
}

#[test]
fn backends_are_labelled() {
    assert_eq!(onnx_label("minilm", OnnxProvider::Cpu, 8, 1), "onnx-cpu[minilmx s8 t1]");
    let coreml =
        OnnxProvider::CoreMl { units: CoreMlUnits::Gpu, mlprogram: false, static_shapes: false };
    assert_eq!(onnx_label("minilm", coreml, 1, 1), "onnx-coreml[minilm Gpu nn dyn]");
    assert_eq!(direct_label("minilm", DirectProvider::Cpu, 128, 16), "onnx-direct[minilm cpu L128 B16]");
    assert_eq!(
        direct_label("minilm", DirectProvider::CoreMl(CoreMlUnits::All), 128, 16),
        "onnx-direct[minilm coreml:All L128 B16]"
    );
    assert_eq!(afm_label("m", 512, 0), "afm-http[m d512 c1]");
    assert_eq!(candle_repo("jina-en"), Some("jinaai/jina-embeddings-v2-base-en"));
    assert_eq!(candle_repo("jinaai/jina-embeddings-v2-base-code"), Some("jinaai/jina-embeddings-v2-base-code"));
    assert_eq!(candle_repo("minilm"), None);
    assert_eq!(model_short("a/b/c"), "c");
    assert_eq!(model_short("c"), "c");
    assert_eq!(candle_label("jinaai/jina-embeddings-v2-base-en", true), "candle-metal[jina-embeddings-v2-base-en f16]");
}

#[test]
fn candle_configurations_are_overridden() {
    let base = CandleConfig { vocab_size: 30528, max_position_embeddings: 8192 };
    let c = base.override_json(br#"{"vocab_size": 61056}"#).unwrap();
    assert_eq!(c, CandleConfig { vocab_size: 61056, max_position_embeddings: 8192 });
    assert_eq!(base.override_json(b"not json"), None);
    assert_eq!(base.override_with(None, Some(5)).max_position_embeddings, 5);
}

#[test]
fn workloads_are_cut_and_sorted() {
    let texts = strings(&["ccc", "a", "bb"]);
    assert_eq!(select_texts(texts.clone(), 0, false), texts);
    assert_eq!(select_texts(texts.clone(), 2, false), strings(&["ccc", "a"]));
    assert_eq!(select_texts(texts.clone(), 9, true), strings(&["a", "bb", "ccc"]));
    assert_eq!(select_texts(texts, 2, true), strings(&["a", "ccc"]));
}

#[test]
fn the_watchdog_sees_the_peak_and_the_budget() {
    assert_eq!(rss_bytes("VmPeak: 9 kB\nVmRSS:\t   2 kB\n"), 2048);
    assert_eq!(rss_bytes(""), 0);
    let mut w = Watch { peak: 0, budget: Some(100) };
    assert!(!w.observe(100));
    assert!(w.observe(101));
    assert!(!w.observe(5));
    assert_eq!(w.peak, 101);
    let mut free = Watch { peak: 0, budget: None };
    assert!(!free.observe(u64::MAX));
}

#[test]
fn a_corpus_reads_back() {
    let texts = strings(&["", "caf\u{e9}", "two\nlines"]);
    let bytes = corpus::write(&texts);
    assert!(bytes.starts_with(b"VGGCORP1\x03\0\0\0\0\0\0\0\0\0\0\0\x05\0\0\0caf"));
    assert_eq!(corpus::read(&bytes), Ok(texts));
}

#[test]
fn a_broken_corpus_is_refused() {
    let bytes = corpus::write(&strings(&["abc"]));
    assert_eq!(corpus::read(b"VGGCORP"), Err(corpus::CorpusError::Eof));
    assert_eq!(corpus::read(b"VGGCORP2\0\0\0\0\0\0\0\0"), Err(corpus::CorpusError::Magic));
    assert_eq!(corpus::read(&bytes[..12]), Err(corpus::CorpusError::Eof));
    assert_eq!(corpus::read(&bytes[..bytes.len() - 1]), Err(corpus::CorpusError::Eof));
    let mut broken = bytes.clone();
    broken[20] = 0xff;
    assert_eq!(corpus::read(&broken), Err(corpus::CorpusError::Utf8));
}

#[test]
fn a_corpus_is_in_the_order_of_the_blobs() {
    let blob = |path: &str, sha: &str, raw_sha: bool| TrackedBlob {
        path: path.to_string(),
        sha: sha.to_string(),
        raw_sha,
    };
    let plan = corpus::corpus_plan(&vec![
        blob("z", "s2", false),
        blob("y", "s1", false),
        blob("x", "s2", true),
    ]);
    assert_eq!(
        plan,
        vec![("s1".to_string(), "y".to_string()), ("s2".to_string(), "z".to_string())]
    );
}

#[test]
fn dumped_vectors_read_back() {
    let vecs: Vec<u32> = [1.0f32, 2.0, 3.0, 4.0, 5.0].iter().map(|v| v.to_bits()).collect();
    let bytes = corpus::dump_vectors(&vecs, 2, 256);
    assert_eq!(&bytes[..8], &[2, 0, 0, 0, 2, 0, 0, 0]);
    assert_eq!(corpus::load_vectors(&bytes), Some(vecs[..4].to_vec()));
    assert_eq!(corpus::load_vectors(&corpus::dump_vectors(&vecs, 2, 1)), Some(vecs[..2].to_vec()));
    assert_eq!(corpus::load_vectors(&bytes[..bytes.len() - 1]), None);
    assert_eq!(corpus::load_vectors(&[0; 7]), None);
    assert_eq!(corpus::compared_rows(9, 2, 100), 4);
    assert_eq!(corpus::compared_rows(9, 2, 3), 3);
}

fn encoded(ids: &[u32]) -> Encoded {
    Encoded { ids: ids.to_vec(), mask: vec![1; ids.len()], types: vec![0; ids.len()] }
}

#[test]
fn batches_are_padded_to_their_longest_text() {
    let batch = vec![encoded(&[7, 8, 9]), encoded(&[5]), encoded(&[])];
    let p = pad_batch(&batch, 512).unwrap();
    assert_eq!((p.rows, p.width), (3, 3));
    assert_eq!(p.ids, vec![7, 8, 9, 5, 0, 0, 0, 0, 0]);
    assert_eq!(p.mask, vec![1, 1, 1, 1, 0, 0, 0, 0, 0]);
    let cut = pad_batch(&batch, 2).unwrap();
    assert_eq!((cut.width, cut.ids), (2, vec![7, 8, 5, 0, 0, 0]));
    let empty = pad_batch(&vec![], 512).unwrap();
    assert_eq!((empty.rows, empty.width, empty.ids.len()), (0, 1, 0));
}

#[test]
fn fixed_batches_have_three_arrays() {
    let e = Encoded { ids: vec![4, 5, 6], mask: vec![1, 1, 0], types: vec![0, 1, 1] };
    let f = fix_batch(&vec![e], 2);
    assert_eq!((f.rows, f.width), (1, 2));
    assert_eq!((f.ids, f.mask, f.types), (vec![4, 5], vec![1, 1], vec![0, 1]));
}

#[test]
fn the_hidden_state_is_the_first_output_of_its_shape() {
    let shapes = vec![None, Some(vec![2, 384]), Some(vec![2, 8, 384]), Some(vec![1, 1, 384])];
    assert_eq!(hidden_state(&shapes, 384), Some(2));
    assert_eq!(hidden_state(&shapes, 768), None);
    assert_eq!(cells_to_pool(&vec![1, 1, 0, 0, 1, 1], 1, 2, 3), vec![4, 5]);
    assert_eq!(cells_to_pool(&vec![0, 0], 0, 1, 2), Vec::<usize>::new());
}

const TOKENIZER: &str = r#"{
  "version": "1.0", "truncation": null, "padding": null, "added_tokens": [],
  "normalizer": null, "pre_tokenizer": {"type": "Whitespace"}, "post_processor": null,
  "decoder": null,
  "model": {"type": "WordLevel", "vocab": {"[UNK]": 0, "hello": 1, "world": 2}, "unk_token": "[UNK]"}
}"#;

fn plain() -> TextEncoder {
    TextEncoder::new(tokenizer_with(&[])).unwrap()
}

/// A tokenizer with some of these settings replaced.
fn tokenizer_with(settings: &[(&str, &str)]) -> tokenizers::Tokenizer {
    let mut json = TOKENIZER.to_string();
    for (from, to) in settings {
        assert!(json.contains(from));
        json = json.replace(from, to);
    }
    tokenizers::Tokenizer::from_bytes(json.as_bytes()).unwrap()
}

fn truncated(max: usize, stride: usize) -> String {
    format!(
        r#""truncation": {{"direction": "Right", "max_length": {max}, "strategy": "LongestFirst", "stride": {stride}}}"#
    )
}

fn padded(strategy: &str, multiple: &str) -> String {
    format!(
        r#""padding": {{"strategy": {strategy}, "direction": "Right", "pad_to_multiple_of": {multiple},
        "pad_id": 0, "pad_type_id": 0, "pad_token": "[PAD]"}}"#
    )
}

const NO_TRUNCATION: &str = "\"truncation\": null";
const NO_PADDING: &str = "\"padding\": null";
const NO_PROCESSOR: &str = "\"post_processor\": null";
const WHITESPACE: &str = "\"pre_tokenizer\": {\"type\": \"Whitespace\"}";
const BERT: &str = r#""post_processor": {"type": "BertProcessing", "sep": ["world", 2], "cls": ["hello", 1]}"#;

#[test]
fn texts_are_tokenized_and_padded() {
    let p = tokenize_padded(&plain(), &strings(&["hello world", "world", "else"]), 512).ok().unwrap();
    assert_eq!((p.rows, p.width), (3, 2));
    assert_eq!(p.ids, vec![1, 2, 2, 0, 0, 0]);
    assert_eq!(p.mask, vec![1, 1, 1, 0, 1, 0]);
}

#[test]
fn texts_are_tokenized_to_a_fixed_shape() {
    let encoder = plain();
    let texts = strings(&["hello world", "world hello"]);
    let f = tokenize_fixed(&encoder, &texts, 2).ok().unwrap();
    assert_eq!((f.ids, f.mask, f.types), (vec![1, 2, 2, 1], vec![1; 4], vec![0; 4]));
    assert!(matches!(tokenize_fixed(&encoder, &texts, 3), Err(TokenError::Short(2))));
    assert!(matches!(
        tokenize_fixed(&encoder, &texts, usize::MAX),
        Err(TokenError::TooLarge)
    ));
}

#[test]
fn a_word_that_the_tokenizer_refuses_is_an_error() {
    let encoder = TextEncoder::new(tokenizer_with(&[("\"[UNK]\": 0, ", "")])).unwrap();
    let known = strings(&["hello", "world"]);
    assert_eq!(tokenize_padded(&encoder, &known, 512).ok().unwrap().ids, vec![1, 2]);
    let unknown = strings(&["hello", "else"]);
    match tokenize_padded(&encoder, &unknown, 512) {
        Err(TokenError::Encode(m)) => assert!(m.contains("[UNK]")),
        _ => panic!("expected the tokenizer's error"),
    }
    assert!(matches!(tokenize_fixed(&encoder, &unknown, 1), Err(TokenError::Encode(_))));
}

/// Whether a tokenizer fails on a text of ten words. It works on an empty list of
/// texts afterwards in any case.
fn fails(tokenizer: tokenizers::Tokenizer) -> bool {
    let encoder = TextEncoder::new(tokenizer).unwrap();
    let texts = strings(&["hello world hello world hello world hello world hello world"]);
    let padded = matches!(tokenize_padded(&encoder, &texts, 512), Err(TokenError::Encode(_)));
    let fixed = matches!(tokenize_fixed(&encoder, &texts, 1), Err(TokenError::Encode(_)));
    assert_eq!(padded, fixed);
    assert_eq!(tokenize_fixed(&encoder, &vec![], 1).ok().unwrap().rows, 0);
    padded
}

#[test]
fn a_tokenizer_that_panics_is_an_error() {
    // A stride that leaves no window, a pre-tokenizer with chunks of no length, and
    // a template with a token that is not defined.
    assert!(fails(tokenizer_with(&[(NO_TRUNCATION, &truncated(8, 8))])));
    assert!(!fails(tokenizer_with(&[(NO_TRUNCATION, &truncated(8, 7))])));
    assert!(fails(tokenizer_with(&[(NO_TRUNCATION, &truncated(8, 6)), (NO_PROCESSOR, BERT)])));
    let chunks = |n: usize| format!(r#""pre_tokenizer": {{"type": "FixedLength", "length": {n}}}"#);
    assert!(fails(tokenizer_with(&[(WHITESPACE, &chunks(0))])));
    assert!(!fails(tokenizer_with(&[(WHITESPACE, &chunks(5))])));
    let template = r#""post_processor": {"type": "TemplateProcessing",
        "single": [{"SpecialToken": {"id": "x", "type_id": 0}}], "pair": [], "special_tokens": {}}"#;
    assert!(fails(tokenizer_with(&[(NO_PROCESSOR, template)])));
    let endless = padded(&format!(r#"{{"Fixed": {}}}"#, usize::MAX), "null");
    assert!(fails(tokenizer_with(&[(NO_PADDING, &endless)])));
}

#[test]
fn texts_that_need_no_cut_are_tokenized() {
    // The stride leaves no window, but there is nothing to cut.
    let settings = [(NO_TRUNCATION, truncated(4, 2)), (NO_PROCESSOR, BERT.to_string())];
    let settings: Vec<(&str, &str)> = settings.iter().map(|(a, b)| (*a, b.as_str())).collect();
    let encoder = TextEncoder::new(tokenizer_with(&settings)).unwrap();
    let p = tokenize_padded(&encoder, &strings(&["world world"]), 512).ok().unwrap();
    assert_eq!(p.ids, vec![1, 2, 2, 2]);
    let long = strings(&["world world world"]);
    assert!(matches!(tokenize_padded(&encoder, &long, 512), Err(TokenError::Encode(_))));
}

#[test]
fn regular_expressions_split_texts() {
    let split = r#""pre_tokenizer": {"type": "Split", "pattern": {"Regex": "\\s+"},
        "behavior": "Removed", "invert": false}"#;
    let encoder = TextEncoder::new(tokenizer_with(&[(WHITESPACE, split)])).unwrap();
    let p = tokenize_padded(&encoder, &strings(&["hello   world"]), 512).ok().unwrap();
    assert_eq!(p.ids, vec![1, 2]);
}

#[test]
fn settled_tokenizers_leave_nothing_to_chance() {
    assert!(settled(&tokenizer_with(&[])));
    assert!(settled(&tokenizer_with(&[(NO_TRUNCATION, &truncated(2, 0)), (NO_PROCESSOR, BERT)])));
    assert!(!settled(&tokenizer_with(&[(NO_TRUNCATION, &truncated(1, 0)), (NO_PROCESSOR, BERT)])));
    let model = TOKENIZER[TOKENIZER.find("\"model\"").unwrap()..].trim_end_matches("\n}");
    let pairs = |dropout: &str| {
        format!(
            r#""model": {{"type": "BPE", "dropout": {dropout}, "unk_token": null,
            "continuing_subword_prefix": null, "end_of_word_suffix": null, "fuse_unk": false,
            "vocab": {{"a": 0}}, "merges": []}}"#
        )
    };
    assert!(settled(&tokenizer_with(&[(model, &pairs("null"))])));
    assert!(!settled(&tokenizer_with(&[(model, &pairs("0.5"))])));
    assert!(settled(&tokenizer_with(&[(NO_PADDING, &padded(r#"{"Fixed": 16}"#, "8"))])));
    let endless = padded(r#""BatchLongest""#, &usize::MAX.to_string());
    assert!(!settled(&tokenizer_with(&[(NO_PADDING, &endless)])));
}

#[test]
fn a_tokenizer_is_set_to_a_fixed_length() {
    let mut tokenizer = tokenizer_with(&[(NO_PROCESSOR, BERT)]);
    assert!(matches!(set_fixed_length(&mut tokenizer, 1), Err(TokenError::Settings)));
    assert!(tokenizer.get_padding().is_none() && tokenizer.get_truncation().is_none());
    assert!(set_fixed_length(&mut tokenizer, 4).is_ok());
    let texts = strings(&["hello hello hello", "world", ""]);
    let encoder = TextEncoder::new(tokenizer.clone()).unwrap();
    let f = tokenize_fixed(&encoder, &texts, 4).ok().unwrap();
    assert_eq!(f.ids, vec![1, 1, 1, 2, 1, 2, 2, 0, 1, 2, 0, 0]);
    assert_eq!(f.mask, vec![1, 1, 1, 1, 1, 1, 1, 0, 1, 1, 0, 0]);
    set_no_padding(&mut tokenizer);
    let encoder = TextEncoder::new(tokenizer).unwrap();
    assert!(matches!(tokenize_fixed(&encoder, &texts, 4), Err(TokenError::Short(3))));
}

#[test]
fn padded_batches_have_at_least_one_column() {
    assert_eq!(tokenize_padded(&plain(), &strings(&[""]), 0).ok().unwrap().width, 1);
    assert_eq!(tokenize_padded(&plain(), &vec![], usize::MAX).ok().unwrap().rows, 0);
}

#[test]
fn runtime_errors_name_their_source() {
    assert_eq!(oe("no session"), "ort: no session");
}

#[test]
fn fixed_layouts_say_why_they_fail() {
    let whole = encoded(&[7, 8, 9]);
    let f = lay_out_fixed(&vec![encoded(&[7, 8, 9]), encoded(&[1, 2])], 2).ok().unwrap();
    assert_eq!((f.rows, f.width, f.ids), (2, 2, vec![7, 8, 1, 2]));
    let mut ragged = encoded(&[1, 2, 3]);
    ragged.mask = vec![1];
    assert!(matches!(
        lay_out_fixed(&vec![whole, ragged, encoded(&[])], 2),
        Err(TokenError::Short(1))
    ));
    assert!(matches!(
        lay_out_fixed(&vec![encoded(&[]), encoded(&[])], usize::MAX),
        Err(TokenError::TooLarge)
    ));
    assert_eq!(lay_out_fixed(&vec![], usize::MAX).ok().unwrap().rows, 0);
}
