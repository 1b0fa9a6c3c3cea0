use git_vector_grep::embedder::{
    auto_worker_count, cgroup_dirs, cgroup_levels, cgroup_limit_up_tree, cgroup_memory_limit_bytes,
    default_cache_dir, host_total_ram_bytes, lazy_worker_slots, parse_cgroup_memory_limit,
    parse_model, select_memory_limit, CgroupFiles, EmbedderPlan, EmbeddingModel,
};
use git_vector_grep::sorted::StrMap;

/// A number of GiB in bytes.
fn gib(n: f64) -> Option<u64> {
    Some((n * 1_073_741_824.0) as u64)
}

fn files(entries: &[(&str, &str)]) -> StrMap<String> {
    let mut map = StrMap::new();
    for (dir, text) in entries {
        map.insert(dir.to_string(), text.to_string());
    }
    map
}

#[test]
fn cgroup_limit_parser_handles_v2_max_and_numeric_limits() {
    assert_eq!(parse_cgroup_memory_limit("max\n"), None);
    assert_eq!(parse_cgroup_memory_limit("4294967296\n"), Some(4_294_967_296));
    assert_eq!(parse_cgroup_memory_limit("not-a-number"), None);
}

#[test]
fn cgroup_limit_parser_takes_positive_numbers_only() {
    assert_eq!(parse_cgroup_memory_limit("0"), None);
    assert_eq!(parse_cgroup_memory_limit(""), None);
    assert_eq!(parse_cgroup_memory_limit("-1"), None);
    assert_eq!(parse_cgroup_memory_limit(" +7 "), Some(7));
    assert_eq!(parse_cgroup_memory_limit("18446744073709551615"), Some(u64::MAX));
    assert_eq!(parse_cgroup_memory_limit("18446744073709551616"), None);
}

#[test]
fn cgroup_limit_selection_walks_parent_limits() {
    let root = files(&[
        ("", "17179869184\n"),
        ("slice", "4294967296\n"),
        ("slice/service", "max\n"),
    ]);
    assert_eq!(cgroup_limit_up_tree("slice/service", &root), Some(4_294_967_296));
}

#[test]
fn cgroup_levels_go_up_to_the_root() {
    assert_eq!(cgroup_levels("/slice/./service//"), vec!["slice/service", "slice", ""]);
    assert_eq!(cgroup_levels("/"), vec![""]);
    assert_eq!(cgroup_dirs("0::/a\n3:memory:/b/c\n"), vec!["a", "", "b/c", "b", ""]);
}

#[test]
fn cgroup_memberships_choose_the_hierarchy() {
    let all = CgroupFiles {
        unified: files(&[("a", "100")]),
        memory: files(&[("b", "50")]),
        combined: files(&[("b", "10"), ("c", "70")]),
    };
    assert_eq!(cgroup_memory_limit_bytes("0::/a\n", &all), Some(100));
    assert_eq!(cgroup_memory_limit_bytes("4:cpu,memory:/b\n", &all), Some(50));
    assert_eq!(cgroup_memory_limit_bytes("4:cpu,memory:/c\n", &all), Some(70));
    assert_eq!(cgroup_memory_limit_bytes("4:cpu:/b\n", &all), None);
    assert_eq!(cgroup_memory_limit_bytes("0::/a\n4:memory:/b\n", &all), Some(50));
    assert_eq!(cgroup_memory_limit_bytes("", &all), None);
}

#[test]
fn effective_memory_uses_the_smallest_available_limit() {
    assert_eq!(select_memory_limit(Some(16), Some(4)), Some(4));
    assert_eq!(select_memory_limit(Some(4), Some(16)), Some(4));
    assert_eq!(select_memory_limit(Some(16), None), Some(16));
    assert_eq!(select_memory_limit(None, Some(4)), Some(4));
    assert_eq!(select_memory_limit(None, None), None);
}

#[test]
fn host_memory_is_read_from_meminfo() {
    let text = "MemFree:  10 kB\nMemTotal:       16384000 kB\nMemTotal: 1 kB\n";
    assert_eq!(host_total_ram_bytes(text), Some(16_777_216_000));
    assert_eq!(host_total_ram_bytes("MemFree: 10 kB\n"), None);
    assert_eq!(host_total_ram_bytes("MemTotal:\n"), None);
    assert_eq!(host_total_ram_bytes("MemTotal: 18446744073709551615 kB\n"), None);
}

#[test]
fn cgroup_limit_reduces_auto_worker_count() {
    let bytes = select_memory_limit(Some(16 * 1_073_741_824), Some(2 * 1_073_741_824)).unwrap();
    assert_eq!(auto_worker_count("minilm", 8, Some(bytes)), 1);
}

#[test]
fn worker_slots_only_initialize_the_first_session_eagerly() {
    let slots = lazy_worker_slots(4, "ready");
    let loaded = slots.iter().filter(|slot| slot.is_some()).count();
    assert_eq!(slots.len(), 4);
    assert_eq!(loaded, 1);
}

#[test]
fn there_is_always_one_worker_slot() {
    assert_eq!(lazy_worker_slots(0, 7), vec![Some(7)]);
}

#[test]
fn auto_workers_use_all_eight_cores_for_small_models_when_memory_allows() {
    assert_eq!(auto_worker_count("minilm", 8, gib(16.0)), 8);
    assert_eq!(auto_worker_count("bge-small", 8, gib(16.0)), 8);
    assert_eq!(auto_worker_count("bge-small-q", 8, gib(16.0)), 8);
}

#[test]
fn auto_workers_are_capped_for_large_cpu_counts() {
    assert_eq!(auto_worker_count("minilm", 64, gib(64.0)), 8);
}

#[test]
fn larger_models_keep_the_safe_single_session_default() {
    assert_eq!(auto_worker_count("bge-base", 8, gib(16.0)), 1);
    assert_eq!(auto_worker_count("jina-code", 8, gib(16.0)), 1);
}

#[test]
fn auto_workers_leave_memory_headroom() {
    assert_eq!(auto_worker_count("minilm", 8, gib(4.0)), 3);
    assert_eq!(auto_worker_count("minilm", 8, gib(2.0)), 1);
}

#[test]
fn auto_workers_fall_back_to_one_without_memory_info() {
    assert_eq!(auto_worker_count("minilm", 8, None), 1);
    assert_eq!(auto_worker_count("minilm", 0, gib(16.0)), 1);
}

#[test]
fn auto_workers_agree_with_the_formula() {
    for quarter in 0..80u64 {
        let ram = quarter as f64 * 0.25;
        let headroom = 1.5f64.max(ram * 0.25);
        let by_ram = ((ram - headroom) / 0.75).floor().max(1.0) as usize;
        assert_eq!(auto_worker_count("minilm", 64, gib(ram)), by_ram.min(8));
    }
}

#[test]
fn models_are_found_by_either_name() {
    for (name, canonical, dim, id) in [
        ("bge-small-q", "BAAI/bge-small-en-v1.5-quantized", 384, EmbeddingModel::BgeSmallEnV15Q),
        ("bge-small", "BAAI/bge-small-en-v1.5", 384, EmbeddingModel::BgeSmallEnV15),
        ("bge-base", "BAAI/bge-base-en-v1.5", 768, EmbeddingModel::BgeBaseEnV15),
        ("minilm", "sentence-transformers/all-MiniLM-L6-v2", 384, EmbeddingModel::AllMiniLmL6V2),
        (
            "jina-code",
            "jinaai/jina-embeddings-v2-base-code",
            768,
            EmbeddingModel::JinaEmbeddingsV2BaseCode,
        ),
    ] {
        for n in [name, canonical] {
            let c = parse_model(n).unwrap();
            assert_eq!(c.short_id, name);
            assert_eq!(c.canonical_id, canonical);
            assert_eq!(c.dim, dim);
            assert_eq!(c.enum_id, id);
        }
    }
    assert_eq!(parse_model("gpt").unwrap_err().message(), "unknown model: gpt");
}

#[test]
fn models_are_kept_below_the_cache_directory() {
    assert_eq!(
        default_cache_dir(Some("/home/u/.cache".to_string())),
        vec!["/home/u/.cache", "git-vector-grep", "models"]
    );
    assert_eq!(default_cache_dir(None), vec![".git-vector-grep-models"]);
}

#[test]
fn plans_share_the_cores_between_the_sessions() {
    let p = EmbedderPlan::new("minilm", None, 8, gib(16.0)).ok().unwrap();
    assert_eq!((p.workers, p.intra_threads), (8, 1));
    let p = EmbedderPlan::new("minilm", Some(3), 8, None).ok().unwrap();
    assert_eq!((p.workers, p.intra_threads), (3, 2));
    let p = EmbedderPlan::new("minilm", Some(0), 4, None).ok().unwrap();
    assert_eq!((p.workers, p.intra_threads), (1, 4));
    let p = EmbedderPlan::new("minilm", Some(16), 4, None).ok().unwrap();
    assert_eq!((p.workers, p.intra_threads), (16, 1));
    assert_eq!(p.default_batch_size(), 1);
    assert_eq!(
        p.describe(),
        "cpu/onnx · minilm · 16 planned session(s) (1 eager, 15 lazy) × 1 intra-threads · memory scales with sessions × batch size · tweak: --workers N to cap parallelism, or --backend mlx for the GPU"
    );
    assert!(EmbedderPlan::new("nope", None, 4, None).is_err());
}
