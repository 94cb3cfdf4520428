use llama_dash::catalog::{is_companion_name, path_file_name, path_parent, sort_found_files};
use llama_dash::reader::{quick_scan, read_value, ReadStop};
use llama_dash::{
    detect_split_base, file_type_name, generate_model_id, scan_directory, FoundFile, GGUFError,
    GGUFValue, GGUFValueType,
};

fn le32(v: u32) -> Vec<u8> {
    v.to_le_bytes().to_vec()
}

fn le64(v: u64) -> Vec<u8> {
    v.to_le_bytes().to_vec()
}

fn gguf_string(s: &str) -> Vec<u8> {
    let mut b = le64(s.len() as u64);
    b.extend_from_slice(s.as_bytes());
    b
}

fn header(version: u32, tensors: u64, kvs: u64) -> Vec<u8> {
    let mut b = le32(0x4655_4747);
    b.extend(le32(version));
    b.extend(le64(tensors));
    b.extend(le64(kvs));
    b
}

fn kv_string(key: &str, val: &str) -> Vec<u8> {
    let mut b = gguf_string(key);
    b.extend(le32(8));
    b.extend(gguf_string(val));
    b
}

fn kv_u32(key: &str, val: u32) -> Vec<u8> {
    let mut b = gguf_string(key);
    b.extend(le32(4));
    b.extend(le32(val));
    b
}

fn sample_file() -> Vec<u8> {
    let mut b = header(3, 7, 5);
    b.extend(kv_string("general.architecture", "qwen2"));
    b.extend(kv_string("general.name", "Tiny Model"));
    b.extend(kv_u32("general.file_type", 15));
    b.extend(kv_u32("qwen2.context_length", 32768));
    // An array of two strings.
    b.extend(gguf_string("tokenizer.ggml.tokens"));
    b.extend(le32(9));
    b.extend(le32(8));
    b.extend(le64(2));
    b.extend(gguf_string("a"));
    b.extend(gguf_string("bc"));
    b
}

#[test]
fn quick_scan_reads_known_keys() {
    let data = sample_file();
    let n = data.len() as u64;
    let q = quick_scan("/m/tiny.gguf".to_string(), n, &data).unwrap();
    assert_eq!(q.header.version, 3);
    assert_eq!(q.header.tensor_count, 7);
    assert_eq!(q.header.metadata_kv_count, 5);
    assert_eq!(q.architecture.as_deref(), Some("qwen2"));
    assert_eq!(q.name.as_deref(), Some("Tiny Model"));
    assert_eq!(q.file_type, Some(15));
    assert_eq!(q.file_type_name.as_deref(), Some("Q4_K_M"));
    assert_eq!(q.context_length, Some(32768));
    assert_eq!(q.embedding_length, None);
    assert_eq!(q.chat_template, None);
    assert_eq!(q.metadata.len(), 5);
    assert_eq!(q.file_size, n);
    match &q.metadata[4].value {
        GGUFValue::Array(t, items) => {
            assert_eq!(*t, GGUFValueType::String);
            assert_eq!(items.len(), 2);
            assert!(matches!(&items[1], GGUFValue::String(s) if s == "bc"));
        }
        other => panic!("unexpected value {other:?}"),
    }
}

#[test]
fn quick_scan_defaults_architecture_to_llama() {
    let mut data = header(2, 0, 1);
    data.extend(kv_u32("llama.context_length", 4096));
    let q = quick_scan("x.gguf".to_string(), data.len() as u64, &data).unwrap();
    assert_eq!(q.architecture, None);
    assert_eq!(q.context_length, Some(4096));
}

#[test]
fn quick_scan_last_duplicate_key_wins() {
    let mut data = header(3, 0, 2);
    data.extend(kv_string("general.name", "first"));
    data.extend(kv_string("general.name", "second"));
    let q = quick_scan("x.gguf".to_string(), data.len() as u64, &data).unwrap();
    assert_eq!(q.name.as_deref(), Some("second"));
}

#[test]
fn magic_only_file_is_truncated_header() {
    let data = vec![0x47, 0x47, 0x55, 0x46];
    let r = quick_scan("x.gguf".to_string(), 4, &data);
    assert_eq!(r.err(), Some(GGUFError::TruncatedHeader));
}

#[test]
fn empty_file_is_truncated_header() {
    let r = quick_scan("x.gguf".to_string(), 0, &Vec::new());
    assert_eq!(r.err(), Some(GGUFError::TruncatedHeader));
}

#[test]
fn bad_magic_is_rejected() {
    let mut data = header(3, 0, 0);
    data[0] = b'X';
    let r = quick_scan("x.gguf".to_string(), data.len() as u64, &data);
    let magic = u32::from_le_bytes([b'X', b'G', b'U', b'F']);
    assert_eq!(r.err(), Some(GGUFError::InvalidMagic(magic)));
}

#[test]
fn newer_version_is_rejected() {
    let data = header(4, 0, 0);
    let r = quick_scan("x.gguf".to_string(), data.len() as u64, &data);
    assert_eq!(r.err(), Some(GGUFError::UnsupportedVersion(4)));
}

#[test]
fn bad_value_tag_is_rejected() {
    let mut data = header(3, 0, 1);
    data.extend(gguf_string("k"));
    data.extend(le32(13));
    let r = quick_scan("x.gguf".to_string(), data.len() as u64, &data);
    assert_eq!(r.err(), Some(GGUFError::InvalidValueType(13)));
}

#[test]
fn oversized_array_is_rejected() {
    let mut data = header(3, 0, 1);
    data.extend(gguf_string("big"));
    data.extend(le32(9));
    data.extend(le32(0));
    data.extend(le64(10_000_001));
    let r = quick_scan("x.gguf".to_string(), data.len() as u64, &data);
    assert_eq!(r.err(), Some(GGUFError::Oversize(10_000_001)));
}

#[test]
fn oversized_string_is_rejected() {
    let mut data = header(3, 0, 1);
    data.extend(le64(1_000_001));
    let r = quick_scan("x.gguf".to_string(), data.len() as u64, &data);
    assert_eq!(r.err(), Some(GGUFError::Oversize(1_000_001)));
}

#[test]
fn truncated_metadata_keeps_earlier_entries() {
    let data = sample_file();
    let full = data.len() as u64;
    // Cut in the middle of the last entry, then at every shorter length.
    for cut in 24..data.len() {
        let part = data[..cut].to_vec();
        let q = quick_scan("x.gguf".to_string(), full, &part).unwrap();
        assert!(q.metadata.len() <= 5);
    }
    let part = data[..data.len() - 3].to_vec();
    let q = quick_scan("x.gguf".to_string(), full, &part).unwrap();
    assert_eq!(q.metadata.len(), 4);
    assert_eq!(q.context_length, Some(32768));
}

#[test]
fn scan_window_stops_at_file_size() {
    let data = sample_file();
    // A file size that ends the window after the first entry.
    let first_end = 24 + 8 + "general.architecture".len() + 4 + 8 + "qwen2".len();
    let q = quick_scan("x.gguf".to_string(), first_end as u64, &data).unwrap();
    assert_eq!(q.metadata.len(), 1);
}

#[test]
fn quantisation_names() {
    assert_eq!(file_type_name(0), "F32");
    assert_eq!(file_type_name(15), "Q4_K_M");
    assert_eq!(file_type_name(32), "BF16");
    assert_eq!(file_type_name(4), "Unknown");
    assert_eq!(file_type_name(99), "Unknown");
}

#[test]
fn split_base_of_first_part() {
    assert_eq!(detect_split_base("qwen-7b-00001-of-00003.gguf").as_deref(), Some("qwen-7b"));
    assert_eq!(detect_split_base("base-00001-of-00003.gguf").as_deref(), Some("base"));
}

#[test]
fn split_base_of_plain_name_is_none() {
    assert_eq!(detect_split_base("base.gguf"), None);
    assert_eq!(detect_split_base("a-b-c.gguf"), None);
    assert_eq!(detect_split_base("m-00001-of-00002.bin"), None);
    assert_eq!(detect_split_base("m-1x-of-2.gguf"), None);
    assert_eq!(detect_split_base("m--of-.gguf"), None);
    assert_eq!(detect_split_base("m-1-of-.gguf"), None);
    assert_eq!(detect_split_base("m--of-2.gguf"), None);
    assert_eq!(detect_split_base("m-1-of-2.gguf").as_deref(), Some("m"));
}

#[test]
fn model_id_lowercases_and_dashes() {
    assert_eq!(generate_model_id("/models/My Model Q4.gguf"), "my-model-q4");
    assert_eq!(generate_model_id("Plain.gguf"), "plain");
}

#[test]
fn path_parts() {
    assert_eq!(path_file_name("/a/b/c.gguf"), "c.gguf");
    assert_eq!(path_parent("/a/b/c.gguf"), "/a/b");
    assert_eq!(path_parent("c.gguf"), "");
    assert!(is_companion_name("x-mmproj-f16.gguf"));
    assert!(is_companion_name("x_mmproj_f16.gguf"));
    assert!(!is_companion_name("mmproj.gguf"));
}

fn found(path: &str) -> FoundFile {
    FoundFile { path: path.to_string(), scan: None }
}

#[test]
fn scan_groups_split_parts_and_companion() {
    let files = vec![
        found("/d/m-mmproj-f16.gguf"),
        found("/d/m-00002-of-00002.gguf"),
        found("/d/m-00001-of-00002.gguf"),
    ];
    let entries = scan_directory(files);
    assert_eq!(entries.len(), 1);
    let e = &entries[0];
    assert_eq!(e.split_parts.len(), 2);
    assert!(e.is_split);
    assert_eq!(e.split_parts[0], "/d/m-00001-of-00002.gguf");
    assert_eq!(e.split_parts[1], "/d/m-00002-of-00002.gguf");
    assert_eq!(e.mmproj_path.as_deref(), Some("/d/m-mmproj-f16.gguf"));
    assert_eq!(e.id, "m-00001-of-00002");
    assert_eq!(e.name, "m-00001-of-00002");
    assert_eq!(e.file_size, 0);
}

#[test]
fn scan_order_does_not_depend_on_input_order() {
    let a = scan_directory(vec![found("/d/b.gguf"), found("/d/a.gguf"), found("/e/c.gguf")]);
    let b = scan_directory(vec![found("/e/c.gguf"), found("/d/a.gguf"), found("/d/b.gguf")]);
    let ids_a: Vec<String> = a.iter().map(|e| e.id.clone()).collect();
    let ids_b: Vec<String> = b.iter().map(|e| e.id.clone()).collect();
    assert_eq!(ids_a, vec!["a", "b", "c"]);
    assert_eq!(ids_a, ids_b);
}

#[test]
fn companion_goes_to_first_free_entry_of_its_directory() {
    let entries = scan_directory(vec![
        found("/d/a.gguf"),
        found("/d/b.gguf"),
        found("/e/c.gguf"),
        found("/d/x_mmproj_1.gguf"),
        found("/e/y-mmproj-2.gguf"),
    ]);
    assert_eq!(entries.len(), 3);
    assert_eq!(entries[0].mmproj_path.as_deref(), Some("/d/x_mmproj_1.gguf"));
    assert_eq!(entries[1].mmproj_path, None);
    assert_eq!(entries[2].mmproj_path.as_deref(), Some("/e/y-mmproj-2.gguf"));
}

#[test]
fn scan_uses_quick_scan_fields() {
    let data = sample_file();
    let q = quick_scan("/d/tiny.gguf".to_string(), data.len() as u64, &data).unwrap();
    let size = q.file_size;
    let entries = scan_directory(vec![FoundFile { path: "/d/tiny.gguf".to_string(), scan: Some(q) }]);
    assert_eq!(entries[0].name, "Tiny Model");
    assert_eq!(entries[0].file_size, size);
    assert_eq!(entries[0].architecture.as_deref(), Some("qwen2"));
    assert_eq!(entries[0].quantization.as_deref(), Some("Q4_K_M"));
    assert_eq!(entries[0].context_length, Some(32768));
    assert_eq!(entries[0].split_parts, vec!["/d/tiny.gguf".to_string()]);
}

#[test]
fn fallback_name_trims_every_gguf_suffix() {
    let entries = scan_directory(vec![found("/d/odd.gguf.gguf")]);
    assert_eq!(entries[0].name, "odd");
    assert_eq!(entries[0].id, "odd.gguf");
}

#[test]
fn sort_orders_by_path() {
    let r = sort_found_files(vec![found("b"), found("a-b"), found("a"), found("ab")]);
    let p: Vec<&str> = r.iter().map(|f| f.path.as_str()).collect();
    assert_eq!(p, vec!["a", "a-b", "ab", "b"]);
}

#[test]
fn invalid_utf8_string_is_replaced() {
    let mut data = header(3, 0, 1);
    data.extend(gguf_string("general.name"));
    data.extend(le32(8));
    data.extend(le64(3));
    data.extend([b'a', 0xff, b'b']);
    let q = quick_scan("x.gguf".to_string(), data.len() as u64, &data).unwrap();
    assert_eq!(q.name.as_deref(), Some("a\u{fffd}b"));
}

#[test]
fn integer_reads_of_values() {
    assert_eq!(GGUFValue::Uint32(7).as_u32(), Some(7));
    assert_eq!(GGUFValue::Int32(-1).as_u32(), Some(u32::MAX));
    assert_eq!(GGUFValue::Uint64(1 << 32 | 5).as_u32(), Some(5));
    assert_eq!(GGUFValue::Uint8(1).as_u32(), None);
    assert_eq!(GGUFValue::Int64(-1).as_u64(), Some(u64::MAX));
    assert_eq!(GGUFValue::Uint32(9).as_u64(), Some(9));
    assert_eq!(GGUFValue::String("s".to_string()).as_str(), Some("s"));
    assert_eq!(GGUFValue::Bool(true).as_str(), None);
}

#[test]
fn value_tags() {
    assert_eq!(GGUFValueType::from_tag(9), Ok(GGUFValueType::Array));
    assert_eq!(GGUFValueType::from_tag(12), Ok(GGUFValueType::Float64));
    assert_eq!(GGUFValueType::from_tag(13), Err(GGUFError::InvalidValueType(13)));
}

#[test]
fn sort_goes_component_by_component() {
    let r = sort_found_files(vec![found("/d/a-b/x.gguf"), found("/d/a/y.gguf")]);
    let p: Vec<&str> = r.iter().map(|f| f.path.as_str()).collect();
    assert_eq!(p, vec!["/d/a/y.gguf", "/d/a-b/x.gguf"]);
}

#[test]
fn array_tag_is_checked_before_count() {
    let mut data = header(3, 0, 1);
    data.extend(gguf_string("arr"));
    data.extend(le32(9));
    data.extend(le32(77));
    // The count is cut off, but the element tag is already wrong.
    let r = quick_scan("x.gguf".to_string(), data.len() as u64 + 8, &data);
    assert_eq!(r.err(), Some(GGUFError::InvalidValueType(77)));
}

#[test]
fn read_value_refuses_oversized_array() {
    let mut data = le32(0);
    data.extend(le64(10_000_001));
    let r = read_value(&data, 0, GGUFValueType::Array);
    assert_eq!(r.err(), Some(ReadStop::Fail(GGUFError::Oversize(10_000_001))));
    let mut ok = le32(0);
    ok.extend(le64(2));
    ok.extend([5, 6]);
    let (v, end) = read_value(&ok, 0, GGUFValueType::Array).unwrap();
    assert_eq!(end, 14);
    assert!(matches!(v, GGUFValue::Array(GGUFValueType::Uint8, ref items) if items.len() == 2));
}
