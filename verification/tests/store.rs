use rusk::error::RuskError;
use rusk::store::RuskStore;

fn open_store(file: &Vec<u8>) -> RuskStore {
    match RuskStore::open(file.clone()) {
        Ok(s) => s,
        Err(e) => panic!("open failed: {}", e.message()),
    }
}

fn run_compact(store: &mut RuskStore, file: &mut Vec<u8>) {
    match store.compact(file) {
        Ok(new_file) => *file = new_file,
        Err(e) => panic!("compact failed: {}", e.message()),
    }
}

fn do_set(store: &mut RuskStore, file: &mut Vec<u8>, k: &str, v: &str) {
    let frame = store.set(k.to_string(), v.to_string());
    file.extend_from_slice(&frame);
    if store.needs_compaction() {
        run_compact(store, file);
    }
}

fn do_get(store: &RuskStore, file: &Vec<u8>, k: &str) -> Option<String> {
    match store.lookup(&k.to_string()) {
        None => None,
        Some(cp) => {
            let start = cp.offset as usize;
            let end = (cp.offset + cp.length) as usize;
            let entry = file[start..end].to_vec();
            match store.get(&k.to_string(), &entry) {
                Ok(o) => o,
                Err(e) => panic!("get failed: {}", e.message()),
            }
        },
    }
}

fn do_remove(store: &mut RuskStore, file: &mut Vec<u8>, k: &str) -> Result<(), RuskError> {
    match store.remove(k.to_string()) {
        Ok(frame) => {
            file.extend_from_slice(&frame);
            if store.needs_compaction() {
                run_compact(store, file);
            }
            Ok(())
        },
        Err(e) => Err(e),
    }
}

#[test]
fn set_then_get() {
    let mut file: Vec<u8> = Vec::new();
    let mut store = open_store(&file);
    do_set(&mut store, &mut file, "a", "1");
    assert_eq!(do_get(&store, &file, "a"), Some("1".to_string()));
    assert_eq!(do_get(&store, &file, "b"), None);
}

#[test]
fn overwrite() {
    let mut file: Vec<u8> = Vec::new();
    let mut store = open_store(&file);
    do_set(&mut store, &mut file, "k", "v1");
    do_set(&mut store, &mut file, "k", "v2");
    assert_eq!(do_get(&store, &file, "k"), Some("v2".to_string()));
    let store2 = open_store(&file);
    assert_eq!(do_get(&store2, &file, "k"), Some("v2".to_string()));
}

#[test]
fn remove_semantics() {
    let mut file: Vec<u8> = Vec::new();
    let mut store = open_store(&file);
    do_set(&mut store, &mut file, "k", "v");
    assert!(do_remove(&mut store, &mut file, "k").is_ok());
    assert_eq!(do_get(&store, &file, "k"), None);
    match do_remove(&mut store, &mut file, "k") {
        Err(RuskError::KeyNotFound) => {},
        _ => panic!("second remove must fail with KeyNotFound"),
    }
    assert_eq!(RuskError::KeyNotFound.message(), "Key not found");
}

#[test]
fn durability_across_reopen() {
    let mut file: Vec<u8> = Vec::new();
    let mut store = open_store(&file);
    do_set(&mut store, &mut file, "a", "1");
    do_set(&mut store, &mut file, "b", "2");
    do_remove(&mut store, &mut file, "a").unwrap();
    let store2 = open_store(&file);
    assert_eq!(do_get(&store2, &file, "a"), None);
    assert_eq!(do_get(&store2, &file, "b"), Some("2".to_string()));
}

#[test]
fn compaction_preserves_view() {
    let mut file: Vec<u8> = Vec::new();
    let mut store = open_store(&file);
    let mut bytes_written: usize = 0;
    let mut last = String::new();
    for i in 0..10_000u32 {
        let v = format!("{:0>100}", i);
        do_set(&mut store, &mut file, "k", &v);
        bytes_written += 100 + 40;
        last = v;
    }
    // enough dead bytes were written that compaction must have run
    assert!(bytes_written > 1_048_576);
    assert!(file.len() < bytes_written);
    // the file holds the one live entry plus what followed the last compaction
    assert!(file.len() < 1_200_000);
    assert_eq!(do_get(&store, &file, "k"), Some(last.clone()));
    let store2 = open_store(&file);
    assert_eq!(do_get(&store2, &file, "k"), Some(last));
}

#[test]
fn explicit_compact_shrinks_to_live_entries() {
    let mut file: Vec<u8> = Vec::new();
    let mut store = open_store(&file);
    for i in 0..10_000u32 {
        do_set(&mut store, &mut file, "k", &i.to_string());
    }
    run_compact(&mut store, &mut file);
    assert_eq!(store.uncompacted_bytes(), 0);
    assert_eq!(do_get(&store, &file, "k"), Some("9999".to_string()));
    // one live entry: header plus `{"Set":{"key":"k","value":"9999"}}`
    assert_eq!(file.len(), 4 + 34);
}

#[test]
fn crash_before_rename_is_safe() {
    let mut file: Vec<u8> = Vec::new();
    let mut store = open_store(&file);
    do_set(&mut store, &mut file, "a", "1");
    do_set(&mut store, &mut file, "b", "2");
    do_set(&mut store, &mut file, "a", "3");
    // stage a compaction file but never swap it in
    let staged = store.compact(&file).unwrap();
    assert!(staged.len() <= file.len());
    // next open replays the original log as if compaction was never attempted
    let store2 = open_store(&file);
    assert_eq!(do_get(&store2, &file, "a"), Some("3".to_string()));
    assert_eq!(do_get(&store2, &file, "b"), Some("2".to_string()));
}

#[test]
fn uncompacted_counts_dead_bytes() {
    let mut file: Vec<u8> = Vec::new();
    let mut store = open_store(&file);
    do_set(&mut store, &mut file, "k", "v1");
    assert_eq!(store.uncompacted_bytes(), 0);
    do_set(&mut store, &mut file, "k", "v2");
    // the first entry (header + 32-byte payload) became dead
    assert_eq!(store.uncompacted_bytes(), 36);
    run_compact(&mut store, &mut file);
    assert_eq!(store.uncompacted_bytes(), 0);
    // a reopen recomputes the same counter
    do_set(&mut store, &mut file, "k", "v3");
    let store2 = open_store(&file);
    assert_eq!(store2.uncompacted_bytes(), store.uncompacted_bytes());
    assert_eq!(store2.position(), store.position());
}

#[test]
fn keys_and_values_with_escapes_round_trip() {
    let mut file: Vec<u8> = Vec::new();
    let mut store = open_store(&file);
    let key = "qu\"ote\\back\nline\ttab\u{1}ctl";
    let value = "v\u{e9}\u{1f600}\r\u{c}\u{8}end";
    do_set(&mut store, &mut file, key, value);
    assert_eq!(do_get(&store, &file, key), Some(value.to_string()));
    let store2 = open_store(&file);
    assert_eq!(do_get(&store2, &file, key), Some(value.to_string()));
}

#[test]
fn open_ignores_trailing_partial_header() {
    let mut file: Vec<u8> = Vec::new();
    let mut store = open_store(&file);
    do_set(&mut store, &mut file, "a", "1");
    let whole = file.len() as u64;
    file.extend_from_slice(&[0u8, 0u8]);
    let store2 = open_store(&file);
    assert_eq!(store2.position(), whole);
    assert_eq!(do_get(&store2, &file, "a"), Some("1".to_string()));
}

#[test]
fn open_fails_with_io_on_truncated_payload() {
    // a header that promises more bytes than the file holds
    let file: Vec<u8> = vec![0, 0, 0, 50, 123, 34];
    match RuskStore::open(file) {
        Err(RuskError::Io(_)) => {},
        _ => panic!("expected an I/O error"),
    }
    let msg = RuskError::Io("failed to fill whole buffer".to_string()).message();
    assert_eq!(msg, "IO error: failed to fill whole buffer");
}

#[test]
fn open_fails_with_serde_on_bad_payload() {
    let mut file: Vec<u8> = vec![0, 0, 0, 3];
    file.extend_from_slice(b"zzz");
    match RuskStore::open(file) {
        Err(RuskError::Serde) => {},
        _ => panic!("expected a serialization error"),
    }
    assert_eq!(RuskError::Serde.message(), "Serialization error");
}

#[test]
fn get_on_remove_entry_is_unexpected_command() {
    let mut file: Vec<u8> = Vec::new();
    let mut store = open_store(&file);
    do_set(&mut store, &mut file, "a", "1");
    // hand get the bytes of a remove entry instead of the live set entry
    let payload = b"{\"Remove\":{\"key\":\"a\"}}".to_vec();
    let mut entry = (payload.len() as u32).to_be_bytes().to_vec();
    entry.extend_from_slice(&payload);
    match store.get(&"a".to_string(), &entry) {
        Err(RuskError::UnexpectedCommand) => {},
        _ => panic!("expected UnexpectedCommand"),
    }
    assert_eq!(RuskError::UnexpectedCommand.message(), "Unexpected command");
}

#[test]
fn get_on_garbage_entry_is_serde() {
    let mut file: Vec<u8> = Vec::new();
    let mut store = open_store(&file);
    do_set(&mut store, &mut file, "a", "1");
    let entry = vec![9u8, 9, 9];
    match store.get(&"a".to_string(), &entry) {
        Err(RuskError::Serde) => {},
        _ => panic!("expected Serde"),
    }
}
