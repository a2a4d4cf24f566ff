use thp::digest::to_hex;
use thp::opcache::store::{artifact_name, cache_file, entry_name, module_artifact_name, plan_prune};
use thp::opcache::{
    decode_manifest, encode_manifest, frame_artifact, unframe_artifact, ArtifactKind, CacheEntry, CacheError, CacheKey, CacheStatus,
    FrozenManifest, PruneResult, Store, CACHE_FORMAT_VERSION,
};

fn key(source: &[u8]) -> CacheKey {
    CacheKey::calculate_with(source, "test", b"", 1, "x86_64", "linux")
}

#[test]
fn cache_round_trip_and_invalidation() {
    let first = CacheKey::calculate_with(b"one", "test", b"config", 1, "x86_64", "linux");
    let again = CacheKey::calculate_with(b"one", "test", b"config", 1, "x86_64", "linux");
    let changed = CacheKey::calculate_with(b"two", "test", b"config", 1, "x86_64", "linux");
    assert_eq!(first, again);
    assert_ne!(first, changed);
    assert_eq!(first.as_str().len(), 64);
}

#[test]
fn module_artifacts_and_frozen_manifests_round_trip() {
    let interface_key = key(b"interface");
    let framed = frame_artifact(ArtifactKind::Interface, b"canonical interface");
    assert_eq!(
        unframe_artifact(ArtifactKind::Interface, &framed).unwrap(),
        b"canonical interface"
    );

    let manifest = FrozenManifest {
        manifest_version: CACHE_FORMAT_VERSION,
        compiler_version: "test".to_owned(),
        project_fingerprint: "project".to_owned(),
        entry_id: "App\\Main".to_owned(),
        program_key: key(b"program"),
        interface_hashes: vec![interface_key.as_str().to_owned()],
        object_hashes: vec![key(b"object").as_str().to_owned()],
    };
    assert_eq!(decode_manifest(&encode_manifest(&manifest)).unwrap(), manifest);
}

#[test]
fn corrupt_module_artifacts_are_rejected() {
    assert!(unframe_artifact(ArtifactKind::Object, b"corrupt").is_err());
    let framed = frame_artifact(ArtifactKind::Object, b"object");
    assert!(unframe_artifact(ArtifactKind::Interface, &framed).is_err());
    let mut tampered = framed.clone();
    let last = tampered.len() - 1;
    tampered[last] ^= 1;
    assert_eq!(
        unframe_artifact(ArtifactKind::Object, &tampered).unwrap_err(),
        CacheError::InvalidData("corrupt or incompatible module artifact".to_owned())
    );
}

#[test]
fn artifact_frame_layout() {
    let framed = frame_artifact(ArtifactKind::Object, b"xy");
    assert_eq!(&framed[..4], b"THPA");
    assert_eq!(&framed[4..6], &[1, 0]);
    assert_eq!(framed[6], 2);
    assert_eq!(framed.len(), 39 + 2);
    assert_eq!(&framed[39..], b"xy");
    assert_eq!(ArtifactKind::Interface.extension(), "thpi");
    assert_eq!(ArtifactKind::Object.extension(), "thpo");
}

#[test]
fn digests_are_lowercase_hex() {
    let hex: String = to_hex(&[0x00, 0xab, 0xff]).into_iter().collect();
    assert_eq!(hex, "00abff");
    let empty = key(b"");
    assert!(empty.as_str().chars().all(|c| c.is_ascii_hexdigit() && !c.is_ascii_uppercase()));
}

#[test]
fn keys_restore_only_from_digests() {
    let digest = "a".repeat(64);
    assert_eq!(CacheKey::from_digest(digest.clone()).unwrap().as_str(), digest);
    assert_eq!(
        CacheKey::from_digest("xyz".to_owned()).unwrap_err(),
        CacheError::InvalidData("cache key is not a 256-bit hexadecimal digest".to_owned())
    );
    assert!(CacheKey::from_digest("g".repeat(64)).is_err());
}

#[test]
fn manifests_reject_tampering_and_missing_records() {
    let manifest = FrozenManifest {
        manifest_version: CACHE_FORMAT_VERSION,
        compiler_version: "c".to_owned(),
        project_fingerprint: "p".to_owned(),
        entry_id: "e".to_owned(),
        program_key: key(b"program"),
        interface_hashes: Vec::new(),
        object_hashes: Vec::new(),
    };
    let mut bytes = encode_manifest(&manifest);
    assert!(bytes.starts_with(b"THP-MANIFEST\nversion=1\ncompiler=c\n"));
    bytes[14] = b'2';
    assert_eq!(
        decode_manifest(&bytes).unwrap_err(),
        CacheError::InvalidData("manifest checksum mismatch".to_owned())
    );
    assert_eq!(
        decode_manifest(b"no marker").unwrap_err(),
        CacheError::InvalidData("manifest checksum is missing".to_owned())
    );
    assert_eq!(
        decode_manifest(&[0xff]).unwrap_err(),
        CacheError::InvalidData("manifest is not UTF-8".to_owned())
    );
}

fn cache_entry(name: &str, bytes: u64, modified_nanos: i128) -> CacheEntry {
    CacheEntry { name: name.to_owned(), bytes, modified_nanos }
}

#[test]
fn eviction_removes_old_entries_to_the_byte_limit() {
    let one = entry_name(&key(b"one"));
    let two = entry_name(&key(b"two"));
    let entries = vec![cache_entry(&one, 40, 10), cache_entry(&two, 40, 20)];
    let plan = plan_prune(&entries, 0);
    assert_eq!(plan.result.removed_entries, 2);
    assert_eq!(plan.result.remaining_bytes, 0);
    assert_eq!(plan.remove, vec![0, 1]);
}

#[test]
fn eviction_goes_oldest_first_and_stops_within_the_limit() {
    let entries = vec![
        cache_entry("c.thpo", 30, 300),
        cache_entry("notes.txt", 1000, 0),
        cache_entry("a.thpi", 10, 100),
        cache_entry("b.thpm", 20, 100),
        cache_entry(".thpbc", 500, 0),
        cache_entry("d.thpbc", 5, 400),
    ];
    let plan = plan_prune(&entries, 40);
    assert_eq!(plan.by_age, vec![2, 3, 0, 5]);
    assert_eq!(plan.remove, vec![2, 3]);
    assert_eq!(
        plan.result,
        PruneResult { removed_entries: 2, removed_bytes: 30, remaining_bytes: 35 }
    );
    let nothing = plan_prune(&entries, 65);
    assert!(nothing.remove.is_empty());
    assert_eq!(nothing.result.remaining_bytes, 65);
    assert_eq!(PruneResult::default().removed_entries, 0);
}

#[test]
fn only_cache_files_count_for_eviction() {
    assert!(cache_file("abc.thpbc"));
    assert!(cache_file(".x.thpm"));
    assert!(!cache_file(".thpbc"));
    assert!(!cache_file("abc.thpbc.tmp"));
    assert!(!cache_file("thpbc"));
}

#[test]
fn entries_are_named_by_key_and_kind() {
    let k = key(b"object");
    assert_eq!(entry_name(&k), format!("{}.thpbc", k.as_str()));
    assert_eq!(artifact_name(&k, "thpm"), format!("{}.thpm", k.as_str()));
    assert_eq!(module_artifact_name(&k, ArtifactKind::Object), format!("{}.thpo", k.as_str()));
}

#[test]
fn lookups_classify_missing_and_corrupt_entries() {
    assert_eq!(CacheStatus::of_lookup(false, false), CacheStatus::Miss);
    assert_eq!(CacheStatus::of_lookup(true, true), CacheStatus::Hit);
    assert_eq!(CacheStatus::of_lookup(true, false), CacheStatus::Corrupt);
}

#[test]
fn stores_keep_their_directory() {
    let store = Store::new(std::path::PathBuf::from("cache"));
    assert_eq!(store.directory(), &std::path::PathBuf::from("cache"));
}
