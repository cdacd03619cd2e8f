use dirsum::digest::{compute, digest_entries, validate_root, Entry};
use dirsum::encoding::{EntryKind, TreeHasher};
use dirsum::error::{DigestError, RootProblem};
use sha2::Digest;

fn dir(segs: &[&str]) -> Entry {
    Entry {
        kind: EntryKind::Directory,
        segments: segs.iter().map(|s| Some(s.to_string())).collect(),
        content: Vec::new(),
    }
}

fn file(segs: &[&str], content: &[u8]) -> Entry {
    Entry {
        kind: EntryKind::File,
        segments: segs.iter().map(|s| Some(s.to_string())).collect(),
        content: content.to_vec(),
    }
}

fn sha256_hex(data: &[u8]) -> String {
    let d = sha2::Sha256::digest(data);
    d.iter().map(|b| format!("{:02x}", b)).collect()
}

fn scenario() -> Vec<Entry> {
    vec![dir(&[]), file(&["file.txt"], b"hi\n"), dir(&["sub"])]
}

#[test]
fn empty_directory_digest_is_fixed() {
    let d = digest_entries(&vec![dir(&[])]).unwrap();
    assert_eq!(d, sha256_hex(&[0x00]));
    assert_eq!(d, "6e340b9cffb37a989ca544e6bb780a2c78901d3fb33738768511a30617afa01d");
}

#[test]
fn empty_directory_differs_from_one_with_empty_subdirectory() {
    let empty = digest_entries(&vec![dir(&[])]).unwrap();
    let nested = digest_entries(&vec![dir(&[]), dir(&["sub"])]).unwrap();
    assert_ne!(empty, nested);
    assert_eq!(nested, sha256_hex(&[0x00, 0x00, 0x00, b's', b'u', b'b']));
}

#[test]
fn scenario_stream_layout() {
    let mut stream: Vec<u8> = vec![0x00];
    stream.extend_from_slice(&[0x01, 0x00]);
    stream.extend_from_slice(b"file.txt");
    stream.extend_from_slice(b"hi\n");
    stream.extend_from_slice(&[0x00, 0x00]);
    stream.extend_from_slice(b"sub");
    let d = digest_entries(&scenario()).unwrap();
    assert_eq!(d, sha256_hex(&stream));
    assert_eq!(d.len(), 64);
    assert!(d.chars().all(|c| c.is_ascii_digit() || ('a'..='f').contains(&c)));
}

#[test]
fn scenario_rename_changes_digest() {
    let renamed = vec![dir(&[]), dir(&["aaa"]), file(&["file.txt"], b"hi\n")];
    assert_ne!(digest_entries(&scenario()).unwrap(), digest_entries(&renamed).unwrap());
}

#[test]
fn repeated_digests_agree() {
    let a = digest_entries(&scenario()).unwrap();
    let b = digest_entries(&scenario()).unwrap();
    assert_eq!(a, b);
}

#[test]
fn creation_order_does_not_matter_once_sorted() {
    let mut first = vec![dir(&["sub"]), file(&["file.txt"], b"hi\n"), dir(&[])];
    let mut second = vec![file(&["file.txt"], b"hi\n"), dir(&[]), dir(&["sub"])];
    let key = |e: &Entry| -> Vec<String> { e.segments.iter().map(|s| s.clone().unwrap()).collect() };
    first.sort_by_key(key);
    second.sort_by_key(key);
    assert_eq!(digest_entries(&first).unwrap(), digest_entries(&second).unwrap());
}

#[test]
fn one_content_byte_changes_digest() {
    let changed = vec![dir(&[]), file(&["file.txt"], b"hI\n"), dir(&["sub"])];
    assert_ne!(digest_entries(&scenario()).unwrap(), digest_entries(&changed).unwrap());
}

#[test]
fn kind_change_changes_digest() {
    let a = vec![dir(&[]), dir(&["x"])];
    let b = vec![dir(&[]), file(&["x"], b"")];
    assert_ne!(digest_entries(&a).unwrap(), digest_entries(&b).unwrap());
}

#[test]
fn moving_an_entry_changes_digest() {
    let a = vec![dir(&[]), dir(&["d"]), dir(&["e"]), file(&["e", "f"], b"1")];
    let b = vec![dir(&[]), dir(&["d"]), file(&["d", "f"], b"1"), dir(&["e"])];
    assert_ne!(digest_entries(&a).unwrap(), digest_entries(&b).unwrap());
}

#[test]
fn nested_segments_do_not_collide_with_joined_name() {
    let nested = vec![dir(&[]), file(&["a", "b"], b"")];
    let joined = vec![dir(&[]), file(&["a/b"], b"")];
    assert_ne!(digest_entries(&nested).unwrap(), digest_entries(&joined).unwrap());
}

#[test]
fn symlink_inside_tree_is_rejected() {
    let mut entries = scenario();
    entries.push(Entry { kind: EntryKind::Symlink, segments: vec![Some("link".to_string())], content: Vec::new() });
    assert_eq!(digest_entries(&entries), Err(DigestError::UnsupportedEntryKind));
}

#[test]
fn other_node_inside_tree_is_rejected() {
    let entries = vec![dir(&[]), Entry { kind: EntryKind::Other, segments: vec![Some("fifo".to_string())], content: Vec::new() }];
    assert_eq!(digest_entries(&entries), Err(DigestError::UnsupportedEntryKind));
}

#[test]
fn non_text_segment_is_rejected() {
    let entries = vec![dir(&[]), Entry { kind: EntryKind::File, segments: vec![Some("d".to_string()), None], content: Vec::new() }];
    assert_eq!(digest_entries(&entries), Err(DigestError::NonUnicodePath));
}

#[test]
fn kind_is_checked_before_path() {
    let entries = vec![dir(&[]), Entry { kind: EntryKind::Symlink, segments: vec![None], content: Vec::new() }];
    assert_eq!(digest_entries(&entries), Err(DigestError::UnsupportedEntryKind));
}

#[test]
fn first_error_wins() {
    let entries = vec![
        dir(&[]),
        Entry { kind: EntryKind::File, segments: vec![None], content: Vec::new() },
        Entry { kind: EntryKind::Symlink, segments: vec![Some("l".to_string())], content: Vec::new() },
    ];
    assert_eq!(digest_entries(&entries), Err(DigestError::NonUnicodePath));
}

#[test]
fn missing_root_is_invalid() {
    assert_eq!(compute(None, &scenario()), Err(DigestError::InvalidRoot(RootProblem::Missing)));
}

#[test]
fn root_checks() {
    assert_eq!(validate_root(Some(EntryKind::Directory)), Ok(()));
    assert_eq!(validate_root(Some(EntryKind::File)), Err(DigestError::InvalidRoot(RootProblem::IsFile)));
    assert_eq!(validate_root(Some(EntryKind::Symlink)), Err(DigestError::InvalidRoot(RootProblem::IsSymlink)));
    assert_eq!(validate_root(Some(EntryKind::Other)), Err(DigestError::InvalidRoot(RootProblem::UnknownKind)));
    assert_eq!(compute(Some(EntryKind::Symlink), &scenario()), Err(DigestError::InvalidRoot(RootProblem::IsSymlink)));
}

#[test]
fn compute_on_valid_root_matches_digest_entries() {
    assert_eq!(compute(Some(EntryKind::Directory), &scenario()), digest_entries(&scenario()));
}

#[test]
fn streaming_in_chunks_matches_whole_content() {
    let content: Vec<u8> = (0..1000u32).map(|i| (i % 251) as u8).collect();
    let whole = digest_entries(&vec![dir(&[]), file(&["big"], &content)]).unwrap();
    let mut h = TreeHasher::new();
    h.absorb_entry(EntryKind::Directory, &vec![]).unwrap();
    h.absorb_entry(EntryKind::File, &vec![Some("big".to_string())]).unwrap();
    for chunk in content.chunks(64) {
        h.absorb_content(chunk);
    }
    assert_eq!(h.finish(), whole);
}

#[test]
fn refused_entry_leaves_stream_unchanged() {
    let mut h = TreeHasher::new();
    h.absorb_entry(EntryKind::Directory, &vec![]).unwrap();
    assert_eq!(h.absorb_entry(EntryKind::Symlink, &vec![Some("l".to_string())]), Err(DigestError::UnsupportedEntryKind));
    assert_eq!(h.absorb_entry(EntryKind::File, &vec![None]), Err(DigestError::NonUnicodePath));
    assert_eq!(h.finish(), sha256_hex(&[0x00]));
}

#[test]
fn non_ascii_segment_is_hashed_as_utf8() {
    let d = digest_entries(&vec![dir(&[]), dir(&["é"])]).unwrap();
    assert_eq!(d, sha256_hex(&[0x00, 0x00, 0x00, 0xc3, 0xa9]));
}
