use memtrack::metadata::{
    pid_keys_from_strings, InvalidPidKey, MemtrackMetadata, ModuleArtifacts,
};

fn entries(keys: &[&str]) -> Vec<(String, usize)> {
    keys.iter()
        .enumerate()
        .map(|(i, key)| (key.to_string(), i))
        .collect()
}

#[test]
fn pid_keys_are_parsed() {
    let map = pid_keys_from_strings(entries(&["42", "-7", "0", "2147483647", "-2147483648"]));
    let map = map.unwrap();
    assert_eq!(map.len(), 5);
    assert_eq!(map[&42], 0);
    assert_eq!(map[&-7], 1);
    assert_eq!(map[&0], 2);
    assert_eq!(map[&i32::MAX], 3);
    assert_eq!(map[&i32::MIN], 4);
}

#[test]
fn of_two_spellings_the_later_stands() {
    let map = pid_keys_from_strings(entries(&["42", "+42", "042"])).unwrap();
    assert_eq!(map.len(), 1);
    assert_eq!(map[&42], 2);
}

#[test]
fn the_first_bad_key_is_the_error() {
    for bad in ["", "-", "+", "4 2", " 42", "0x2a", "2147483648", "-2147483649"] {
        assert_eq!(
            pid_keys_from_strings(entries(&["1", bad, "also bad"])),
            Err(InvalidPidKey {
                key: bad.to_string()
            })
        );
    }
}

#[test]
fn new_metadata_has_the_current_version() {
    let metadata = MemtrackMetadata::new(
        ("codspeed-rust".to_string(), "4.2.0".to_string()),
        ModuleArtifacts::default(),
    );
    assert_eq!(metadata.version, MemtrackMetadata::CURRENT_VERSION);
    assert_eq!(metadata.version, 1);
    assert_eq!(metadata.integration.0, "codspeed-rust");
    assert_eq!(metadata.integration.1, "4.2.0");
    assert!(metadata.artifacts.path_key_to_path.is_empty());
    assert!(metadata.artifacts.mapped_process_module_symbols.is_empty());
}

#[test]
fn default_metadata_is_empty() {
    let metadata = MemtrackMetadata::default();
    assert_eq!(metadata.version, 0);
    assert_eq!(metadata.integration, (String::new(), String::new()));
    assert!(metadata.artifacts.debug_info.is_empty());
    assert!(metadata.artifacts.mapped_process_debug_info_by_pid.is_empty());
    assert!(metadata.artifacts.mapped_process_unwind_data_by_pid.is_empty());
    assert!(metadata.artifacts.mapped_process_module_symbols.is_empty());
    assert!(metadata.artifacts.path_key_to_path.is_empty());
}
