use llama_dash::slots::sweep_interval_secs;
use llama_dash::{prompt_batch, BatchEntry, ContextParams, ModelParams, NumaStrategy};
use llama_dash::{
    EnsureLoaded, LlamaError, LoadStart, LoadedModel, ModelEntry, ModelManager, ModelManagerConfig,
    ModelStatus,
};

fn config(max_models: usize) -> ModelManagerConfig {
    ModelManagerConfig { max_models, ..ModelManagerConfig::default() }
}

/// Load `path` at time `now` with decoder handle `handle`; returns the
/// reference and the ids evicted.
fn load(m: &mut ModelManager, path: &str, handle: u64, now: u64) -> (LoadedModel, Vec<String>) {
    match m.load_begin(path, now) {
        LoadStart::Proceed { id, evicted } => {
            let dir = path.rsplit_once('/').map(|(d, _)| d.to_string());
            let r = m.load_finish(&id, path, dir, Ok(handle), now).unwrap();
            (r, evicted)
        }
        other => panic!("unexpected start {other:?}"),
    }
}

#[test]
fn default_config() {
    let c = ModelManagerConfig::default();
    assert_eq!(c.max_models, 4);
    assert_eq!(c.idle_timeout_secs, 0);
    assert_eq!(c.default_n_gpu_layers, -1);
    assert_eq!(c.default_ctx_size, 4096);
}

#[test]
fn lru_eviction_takes_oldest_unpinned() {
    let mut m = ModelManager::new(vec![], config(2));
    let (a, _) = load(&mut m, "/m/A.gguf", 1, 10);
    m.release(&a);
    let (b, _) = load(&mut m, "/m/B.gguf", 2, 20);
    m.release(&b);
    m.touch("a", 30);
    let (c, evicted) = load(&mut m, "/m/C.gguf", 3, 40);
    assert_eq!(evicted, vec!["b".to_string()]);
    assert!(m.is_loaded("a"));
    assert!(!m.is_loaded("b"));
    assert!(m.is_loaded("c"));
    assert_eq!(c.id, "c");
    assert_eq!(m.loaded_count(), 2);
}

#[test]
fn pin_prevents_eviction() {
    let mut m = ModelManager::new(vec![], config(1));
    let (_a, _) = load(&mut m, "/m/A.gguf", 1, 10);
    // The reference to A stays out, as a running generation holds it.
    match m.load_begin("/m/B.gguf", 20) {
        LoadStart::Proceed { id, evicted } => {
            assert_eq!(id, "b");
            assert!(evicted.is_empty());
        }
        other => panic!("unexpected start {other:?}"),
    }
    assert!(m.is_loaded("a"));
    assert_eq!(m.slot_info().len(), 2);
    m.load_finish("b", "/m/B.gguf", Some("/m".to_string()), Ok(2), 21).unwrap();
    assert_eq!(m.loaded_count(), 2);
}

#[test]
fn second_load_while_loading_is_busy() {
    let mut m = ModelManager::new(vec![], config(4));
    assert!(matches!(m.load_begin("/m/A.gguf", 1), LoadStart::Proceed { .. }));
    assert!(matches!(m.load_begin("/m/B.gguf", 2), LoadStart::Busy));
    let info = m.slot_info();
    assert_eq!(info.len(), 1);
    assert_eq!(info[0].status, ModelStatus::Loading);
    assert_eq!(info[0].path, "");
}

#[test]
fn ready_model_is_handed_out_again() {
    let mut m = ModelManager::new(vec![], config(4));
    let (a, _) = load(&mut m, "/m/A.gguf", 7, 1);
    match m.load_begin("/m/A.gguf", 5) {
        LoadStart::Ready(r) => {
            assert_eq!(r.handle, 7);
            assert_eq!(r.id, a.id);
        }
        other => panic!("unexpected start {other:?}"),
    }
    assert_eq!(m.slot_info()[0].last_used, 5);
}

#[test]
fn failed_load_removes_slot() {
    let mut m = ModelManager::new(vec![], config(4));
    assert!(matches!(m.load_begin("/m/A.gguf", 1), LoadStart::Proceed { .. }));
    let r = m.load_finish("a", "/m/A.gguf", Some("/m".to_string()), Err(LlamaError::NullPointer), 2);
    assert_eq!(r.err(), Some(LlamaError::NullPointer));
    assert!(m.slot_info().is_empty());
    assert!(!m.is_loaded("a"));
}

#[test]
fn load_registers_parent_directory() {
    let mut m = ModelManager::new(vec!["/m".to_string()], config(4));
    load(&mut m, "/m/A.gguf", 1, 1);
    load(&mut m, "/n/B.gguf", 2, 2);
    assert_eq!(m.model_dirs(), &vec!["/m".to_string(), "/n".to_string()]);
}

#[test]
fn add_model_dir_skips_duplicates() {
    let mut m = ModelManager::new(vec![], config(4));
    m.add_model_dir("/x".to_string());
    m.add_model_dir("/x".to_string());
    assert_eq!(m.model_dirs().len(), 1);
}

#[test]
fn resolve_by_name_and_most_recent() {
    let mut m = ModelManager::new(vec![], config(4));
    let (a, _) = load(&mut m, "/m/A.gguf", 1, 10);
    let (b, _) = load(&mut m, "/m/B.gguf", 2, 20);
    m.release(&a);
    m.release(&b);
    assert_eq!(m.resolve(Some("a")).unwrap().handle, 1);
    assert_eq!(m.resolve(None).unwrap().handle, 2);
    m.touch("a", 30);
    assert_eq!(m.resolve(None).unwrap().handle, 1);
    assert!(m.resolve(Some("z")).is_none());
    assert!(m.get_loaded("z").is_none());
}

#[test]
fn unload_and_ids() {
    let mut m = ModelManager::new(vec![], config(4));
    load(&mut m, "/m/A.gguf", 1, 10);
    load(&mut m, "/m/B.gguf", 2, 20);
    assert_eq!(m.loaded_model_ids(), vec!["a".to_string(), "b".to_string()]);
    assert!(m.unload("a"));
    assert!(!m.unload("a"));
    assert_eq!(m.loaded_model_ids(), vec!["b".to_string()]);
    m.unload_all();
    assert_eq!(m.loaded_count(), 0);
}

#[test]
fn sweep_idle_spares_pinned_and_recent() {
    let mut m = ModelManager::new(vec![], config(4));
    let (a, _) = load(&mut m, "/m/A.gguf", 1, 0);
    let (_b, _) = load(&mut m, "/m/B.gguf", 2, 0);
    let (c, _) = load(&mut m, "/m/C.gguf", 3, 50_000);
    m.release(&a);
    m.release(&c);
    assert!(m.sweep_idle(0, 1_000_000).is_empty());
    let gone = m.sweep_idle(60, 61_000);
    assert_eq!(gone, vec!["a".to_string()]);
    assert!(!m.is_loaded("a"));
    assert!(m.is_loaded("b"));
    assert!(m.is_loaded("c"));
}

#[test]
fn ensure_loaded_paths() {
    let mut m = ModelManager::new(vec![], config(4));
    let entry = ModelEntry {
        id: "my-model".to_string(),
        name: "My Model".to_string(),
        path: "/m/My Model.gguf".to_string(),
        file_size: 1,
        architecture: None,
        quantization: None,
        context_length: None,
        is_split: false,
        split_parts: vec!["/m/My Model.gguf".to_string()],
        mmproj_path: None,
    };
    let available = vec![entry];
    match m.ensure_loaded(Some("MY-MODEL"), &available, 1).unwrap() {
        EnsureLoaded::Load { path, n_gpu_layers, n_ctx } => {
            assert_eq!(path, "/m/My Model.gguf");
            assert_eq!(n_gpu_layers, -1);
            assert_eq!(n_ctx, 4096);
        }
        other => panic!("unexpected {other:?}"),
    }
    assert_eq!(m.ensure_loaded(None, &available, 1).err(), Some(LlamaError::ModelNotLoaded));
    assert_eq!(m.ensure_loaded(Some("other"), &available, 1).err(), Some(LlamaError::ModelNotLoaded));
    let (a, _) = load(&mut m, "/m/A.gguf", 9, 2);
    m.release(&a);
    match m.ensure_loaded(None, &available, 3).unwrap() {
        EnsureLoaded::Ready(r) => assert_eq!(r.handle, 9),
        other => panic!("unexpected {other:?}"),
    }
    assert_eq!(m.slot_info()[0].last_used, 3);
    assert_eq!(
        ModelManager::find_model_path(&available, "My-Model").as_deref(),
        Some("/m/My Model.gguf")
    );
}

#[test]
fn sweep_interval() {
    assert_eq!(sweep_interval_secs(0), None);
    assert_eq!(sweep_interval_secs(5), Some(30));
    assert_eq!(sweep_interval_secs(300), Some(300));
}

#[test]
fn decoder_settings() {
    let p = ModelParams::default();
    assert_eq!((p.n_gpu_layers, p.use_mmap, p.use_mlock), (-1, true, false));
    let c = ContextParams::with_threads(8);
    assert_eq!((c.n_ctx, c.n_batch, c.n_ubatch, c.n_threads, c.n_threads_batch), (0, 2048, 512, 8, 8));
    assert!(!c.embeddings);
    assert_eq!(NumaStrategy::Disabled.as_raw(), 0);
    assert_eq!(NumaStrategy::Mirror.as_raw(), 4);
    let b = prompt_batch(&vec![10, 11]);
    assert_eq!(
        b,
        vec![
            BatchEntry { token: 10, pos: 0, logits: false },
            BatchEntry { token: 11, pos: 1, logits: true },
        ]
    );
    assert!(prompt_batch(&vec![]).is_empty());
}

#[test]
fn load_without_directory_keeps_scan_list() {
    let mut m = ModelManager::new(vec!["/m".to_string()], config(4));
    assert!(matches!(m.load_begin("A.gguf", 1), LoadStart::Proceed { .. }));
    m.load_finish("a", "A.gguf", None, Ok(1), 1).unwrap();
    assert_eq!(m.model_dirs(), &vec!["/m".to_string()]);
}

#[test]
fn evict_makes_room_or_stops_at_pins() {
    let mut m = ModelManager::new(vec![], config(2));
    let (a, _) = load(&mut m, "/m/A.gguf", 1, 10);
    let (b, _) = load(&mut m, "/m/B.gguf", 2, 20);
    assert!(m.maybe_evict().is_empty());
    m.release(&b);
    assert_eq!(m.maybe_evict(), vec!["b".to_string()]);
    assert_eq!(m.loaded_count(), 1);
    m.release(&a);
    assert!(m.maybe_evict().is_empty());
}
