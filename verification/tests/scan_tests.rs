use anything::dirent::{scan_directory, ScanResult};
use anything::model::ExfatError;

/// One File + Stream-Extension + Filename-Extension(s) entry set.
fn file_set(name: &str, is_dir: bool, size: u64, first_cluster: u32, contiguous: bool) -> Vec<u8> {
    let units: Vec<u16> = name.encode_utf16().collect();
    let name_slots = units.len().div_ceil(15).max(1);
    let n = 1 + name_slots; // stream slot plus filename slots
    let mut set = vec![0u8; 32 * (1 + n)];
    set[0] = 0x85;
    set[1] = n as u8;
    if is_dir {
        set[4] = 0x10;
    }
    // Both timestamps: 2023-06-15 10:30:00 UTC.
    for base in [8usize, 12] {
        set[base] = 192;
        set[base + 1] = 83;
        set[base + 2] = 207;
        set[base + 3] = 86;
    }
    set[32] = 0xC0;
    if contiguous {
        set[33] |= 0x02;
    }
    set[35] = units.len() as u8;
    set[52..56].copy_from_slice(&first_cluster.to_le_bytes());
    set[56..64].copy_from_slice(&size.to_le_bytes());
    for (j, u) in units.iter().enumerate() {
        set[64 + 32 * (j / 15)] = 0xC1;
        let p = 66 + 32 * (j / 15) + 2 * (j % 15);
        set[p..p + 2].copy_from_slice(&u.to_le_bytes());
    }
    for s in 0..name_slots {
        set[64 + 32 * s] = 0xC1;
    }
    set
}

fn units_of(s: &str) -> Vec<u16> {
    s.encode_utf16().collect()
}

fn scan(bytes: &Vec<u8>, parent_path: &str, ignore: &[&str], is_root: bool) -> Result<ScanResult, ExfatError> {
    let path = units_of(parent_path);
    let ign: Vec<Vec<u16>> = ignore.iter().map(|p| units_of(p)).collect();
    scan_directory(bytes, bytes.len(), 0, &path, &ign, is_root)
}

#[test]
fn scenario_single_entry_set() {
    let mut bytes = file_set("a.txt", false, 10, 10, true);
    bytes.extend_from_slice(&[0u8; 32]);
    let out = scan(&bytes, "/mnt/", &[], true).unwrap();
    assert_eq!(out.files.len(), 1);
    let f = &out.files[0];
    assert_eq!(f.name, units_of("a.txt"));
    assert!(!f.is_dir);
    assert_eq!(f.parent, 0);
    assert_eq!(f.size, 10);
    assert_eq!(f.first_cluster, 10);
    assert!(f.contiguous);
    assert_eq!(f.create_timestamp, 1686825000);
    assert_eq!(f.last_modified_timestamp, 1686825000);
}

#[test]
fn long_name_spans_filename_slots_without_headers() {
    let name = "abcdefghijklmnopqrst"; // 20 UTF-16 units
    let bytes = file_set(name, false, 1, 4, true);
    let out = scan(&bytes, "/mnt/", &[], true).unwrap();
    assert_eq!(out.files.len(), 1);
    assert_eq!(out.files[0].name, units_of(name));
    assert_eq!(out.files[0].name.len(), 20);
}

#[test]
fn scan_stops_at_end_of_directory_marker() {
    let mut bytes = file_set("a.txt", false, 10, 10, true);
    bytes.extend_from_slice(&[0u8; 32]);
    bytes.extend(file_set("b.txt", false, 10, 11, true));
    let out = scan(&bytes, "/mnt/", &[], true).unwrap();
    assert_eq!(out.files.len(), 1);
}

#[test]
fn unknown_tags_are_ignored() {
    let mut bytes = vec![0u8; 32];
    bytes[0] = 0x81; // allocation bitmap, not decoded here
    bytes.extend(file_set("a.txt", false, 10, 10, true));
    let out = scan(&bytes, "/mnt/", &[], true).unwrap();
    assert_eq!(out.files.len(), 1);
}

#[test]
fn volume_label_is_decoded() {
    let mut bytes = vec![0u8; 32];
    bytes[0] = 0x83;
    bytes[1] = 4;
    let label = units_of("DATA");
    for (j, u) in label.iter().enumerate() {
        bytes[2 + 2 * j..4 + 2 * j].copy_from_slice(&u.to_le_bytes());
    }
    bytes.extend(file_set("a.txt", false, 10, 10, true));
    let out = scan(&bytes, "/mnt/", &[], true).unwrap();
    assert_eq!(out.label, Some(label));
    assert_eq!(out.files.len(), 1);
}

#[test]
fn ignored_entry_is_dropped_in_root_but_scan_continues() {
    let mut bytes = file_set("skipme", true, 4096, 9, true);
    bytes.extend(file_set("keep.txt", false, 10, 10, true));
    let out = scan(&bytes, "/mnt/", &["/mnt/skipme"], true).unwrap();
    assert_eq!(out.files.len(), 1);
    assert_eq!(out.files[0].name, units_of("keep.txt"));
}

#[test]
fn ignored_entry_stops_a_non_root_scan() {
    let mut bytes = file_set("skipme", true, 4096, 9, true);
    bytes.extend(file_set("keep.txt", false, 10, 10, true));
    let out = scan(&bytes, "/mnt/sub/", &["/mnt/sub/skipme"], false).unwrap();
    assert_eq!(out.files.len(), 0);
}

#[test]
fn wrong_stream_tag_is_a_structural_mismatch() {
    let mut bytes = file_set("a.txt", false, 10, 10, true);
    bytes[32] = 0xC1;
    assert_eq!(
        scan(&bytes, "/mnt/", &[], true),
        Err(ExfatError::StructuralMismatch)
    );
}

#[test]
fn wrong_filename_tag_is_a_structural_mismatch() {
    let mut bytes = file_set("a.txt", false, 10, 10, true);
    bytes[64] = 0xC0;
    assert_eq!(
        scan(&bytes, "/mnt/", &[], true),
        Err(ExfatError::StructuralMismatch)
    );
}

#[test]
fn truncated_entry_set_is_a_structural_mismatch() {
    let bytes: Vec<u8> = file_set("a.txt", false, 10, 10, true)[..64].to_vec();
    assert_eq!(
        scan(&bytes, "/mnt/", &[], true),
        Err(ExfatError::StructuralMismatch)
    );
}

#[test]
fn oversized_volume_label_is_a_structural_mismatch() {
    let mut bytes = vec![0u8; 32];
    bytes[0] = 0x83;
    bytes[1] = 12;
    assert_eq!(
        scan(&bytes, "/mnt/", &[], true),
        Err(ExfatError::StructuralMismatch)
    );
}
