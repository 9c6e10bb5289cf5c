use anything::fat::FatTable;
use anything::geometry::parse_boot_sector;
use anything::model::ExfatError;
use anything::walk::{index, Indexer};

const CLUSTER: usize = 4096;
const HEAP: usize = 32 * 512;

fn cluster_offset(c: u32) -> usize {
    (c as usize - 2) * CLUSTER + HEAP
}

/// A volume image with the sample geometry: 512-byte sectors, 4096-byte
/// clusters, FAT at sector 24, cluster heap at sector 32.
fn blank_volume(clusters: u32) -> Vec<u8> {
    let mut v = vec![0u8; cluster_offset(2 + clusters)];
    v[3..11].copy_from_slice(b"EXFAT   ");
    v[80..84].copy_from_slice(&24u32.to_le_bytes());
    v[84..88].copy_from_slice(&8u32.to_le_bytes());
    v[88..92].copy_from_slice(&32u32.to_le_bytes());
    v[96..100].copy_from_slice(&5u32.to_le_bytes());
    v[108] = 9;
    v[109] = 3;
    v[510] = 0x55;
    v[511] = 0xAA;
    v
}

fn set_fat(v: &mut Vec<u8>, cluster: u32, next: u32) {
    let p = 24 * 512 + 4 * cluster as usize;
    v[p..p + 4].copy_from_slice(&next.to_le_bytes());
}

fn file_set(name: &str, is_dir: bool, size: u64, first_cluster: u32, contiguous: bool) -> Vec<u8> {
    let units: Vec<u16> = name.encode_utf16().collect();
    let name_slots = units.len().div_ceil(15).max(1);
    let n = 1 + name_slots;
    let mut set = vec![0u8; 32 * (1 + n)];
    set[0] = 0x85;
    set[1] = n as u8;
    if is_dir {
        set[4] = 0x10;
    }
    for base in [8usize, 12] {
        set[base] = 192;
        set[base + 1] = 83;
        set[base + 2] = 207;
        set[base + 3] = 86;
    }
    set[32] = 0xC0;
    if contiguous {
        set[33] |= 0x02;
    }
    set[35] = units.len() as u8;
    set[52..56].copy_from_slice(&first_cluster.to_le_bytes());
    set[56..64].copy_from_slice(&size.to_le_bytes());
    for s in 0..name_slots {
        set[64 + 32 * s] = 0xC1;
    }
    for (j, u) in units.iter().enumerate() {
        let p = 66 + 32 * (j / 15) + 2 * (j % 15);
        set[p..p + 2].copy_from_slice(&u.to_le_bytes());
    }
    set
}

fn write_at(v: &mut Vec<u8>, pos: usize, bytes: &[u8]) -> usize {
    v[pos..pos + bytes.len()].copy_from_slice(bytes);
    pos + bytes.len()
}

/// Root (cluster 5): a file, a subdirectory with one file of its own,
/// and a subdirectory matching an ignore-prefix with content that must
/// never surface.
fn sample_volume() -> Vec<u8> {
    let mut v = blank_volume(16);
    set_fat(&mut v, 5, 0xFFFF_FFFF);
    // Root directory content.
    let mut p = cluster_offset(5);
    p = write_at(&mut v, p, &file_set("a.txt", false, 10, 10, true));
    p = write_at(&mut v, p, &file_set("sub", true, CLUSTER as u64, 6, true));
    write_at(&mut v, p, &file_set("secret", true, CLUSTER as u64, 7, true));
    // The subdirectory "sub" at cluster 6.
    let p = cluster_offset(6);
    write_at(&mut v, p, &file_set("b.txt", false, 5, 11, true));
    // The ignored subdirectory "secret" at cluster 7.
    let p = cluster_offset(7);
    write_at(&mut v, p, &file_set("c.txt", false, 5, 12, true));
    v
}

#[test]
fn indexes_a_small_tree() {
    let v = sample_volume();
    let (files, dirs) = index(&v, String::from("/mnt"), vec![], 0).unwrap();
    let dir_names: Vec<&str> = dirs.iter().map(|d| d.name.as_str()).collect();
    assert_eq!(dir_names, vec!["/mnt/", "/mnt/sub/", "/mnt/secret/"]);
    let names: Vec<&str> = files.iter().map(|f| f.name.as_str()).collect();
    assert_eq!(names, vec!["a.txt", "sub", "secret", "b.txt", "c.txt"]);
    assert_eq!(files[0].parent, 0);
    assert_eq!(files[0].size, 10);
    assert!(!files[0].is_dir);
    assert!(files[1].is_dir);
    assert_eq!(files[3].parent, 1); // b.txt sits under /mnt/sub/
    assert_eq!(files[4].parent, 2); // c.txt sits under /mnt/secret/
    assert_eq!(files[0].create_timestamp, 1686825000);
}

#[test]
fn ignored_directory_contributes_nothing_at_any_depth() {
    let v = sample_volume();
    let (files, dirs) = index(&v, String::from("/mnt"), vec![String::from("/mnt/secret")], 0)
        .unwrap();
    let names: Vec<&str> = files.iter().map(|f| f.name.as_str()).collect();
    assert_eq!(names, vec!["a.txt", "sub", "b.txt"]);
    assert!(names.iter().all(|n| *n != "secret" && *n != "c.txt"));
    let dir_names: Vec<&str> = dirs.iter().map(|d| d.name.as_str()).collect();
    assert_eq!(dir_names, vec!["/mnt/", "/mnt/sub/"]);
}

#[test]
fn parent_indexes_are_shifted_by_the_table_offset() {
    let v = sample_volume();
    let (files, dirs) = index(&v, String::from("/mnt"), vec![], 7).unwrap();
    assert_eq!(dirs.len(), 3);
    for f in &files {
        assert!(f.parent >= 7 && f.parent < 7 + dirs.len() as u32);
    }
    assert_eq!(files[3].parent, 8);
}

#[test]
fn empty_subdirectory_gets_a_table_entry() {
    let mut v = blank_volume(16);
    set_fat(&mut v, 5, 0xFFFF_FFFF);
    let mut p = cluster_offset(5);
    p = write_at(&mut v, p, &file_set("empty", true, 0, 0, true));
    write_at(&mut v, p, &file_set("a.txt", false, 10, 10, true));
    let (files, dirs) = index(&v, String::from("/mnt"), vec![], 0).unwrap();
    let dir_names: Vec<&str> = dirs.iter().map(|d| d.name.as_str()).collect();
    assert_eq!(dir_names, vec!["/mnt/", "/mnt/empty/"]);
    assert_eq!(files.len(), 2);
}

#[test]
fn directory_cycle_is_detected() {
    let mut v = blank_volume(16);
    set_fat(&mut v, 5, 0xFFFF_FFFF);
    // A subdirectory claiming the root's own cluster.
    let p = cluster_offset(5);
    write_at(&mut v, p, &file_set("loop", true, CLUSTER as u64, 5, true));
    assert_eq!(
        index(&v, String::from("/mnt"), vec![], 0),
        Err(ExfatError::CycleDetected)
    );
}

#[test]
fn fat_linked_directory_is_followed() {
    let mut v = blank_volume(20);
    set_fat(&mut v, 5, 0xFFFF_FFFF);
    // "sub" spans clusters 6 and 8, linked through the FAT.
    set_fat(&mut v, 6, 8);
    set_fat(&mut v, 8, 0xFFFF_FFFF);
    let p = cluster_offset(5);
    write_at(&mut v, p, &file_set("sub", true, 2 * CLUSTER as u64, 6, false));
    let p = cluster_offset(6);
    let p = write_at(&mut v, p, &file_set("first.txt", false, 1, 10, true));
    // Pad the first cluster with slots of an undecoded tag, so the
    // scan carries on into the next cluster of the chain.
    for slot in (p..cluster_offset(7)).step_by(32) {
        v[slot] = 0x81;
    }
    // Content in the second, non-adjacent cluster of the chain.
    let p = cluster_offset(8);
    write_at(&mut v, p, &file_set("second.txt", false, 1, 11, true));
    let (files, _dirs) = index(&v, String::from("/mnt"), vec![], 0).unwrap();
    let names: Vec<&str> = files.iter().map(|f| f.name.as_str()).collect();
    assert_eq!(names, vec!["sub", "first.txt", "second.txt"]);
}

#[test]
fn cluster_outside_the_image_is_fatal() {
    let mut v = blank_volume(16);
    set_fat(&mut v, 5, 0xFFFF_FFFF);
    let p = cluster_offset(5);
    // Cluster 900 addresses past the end of this small image.
    write_at(&mut v, p, &file_set("big", true, CLUSTER as u64, 900, true));
    assert_eq!(
        index(&v, String::from("/mnt"), vec![], 0),
        Err(ExfatError::AddressOutOfRange)
    );
}

#[test]
fn table_offset_overflow_is_reported() {
    let v = sample_volume();
    assert_eq!(
        index(&v, String::from("/mnt"), vec![], u32::MAX),
        Err(ExfatError::IndexOverflow)
    );
}

#[test]
fn corrupt_boot_sector_aborts_the_pass() {
    let mut v = sample_volume();
    v[510] = 0;
    assert_eq!(
        index(&v, String::from("/mnt"), vec![], 0),
        Err(ExfatError::BootSignatureMismatch)
    );
}

#[test]
fn root_chain_zero_entry_aborts_the_pass() {
    let mut v = sample_volume();
    set_fat(&mut v, 5, 0);
    assert_eq!(
        index(&v, String::from("/mnt"), vec![], 0),
        Err(ExfatError::CorruptChain)
    );
}

#[test]
fn stepwise_walk_matches_the_whole_pass() {
    let v = sample_volume();
    let geom = parse_boot_sector(&v).unwrap();
    let fat_bytes = v[geom.fat_byte_offset as usize
        ..(geom.fat_byte_offset + geom.fat_byte_length) as usize]
        .to_vec();
    let fat = FatTable::parse(&fat_bytes);
    let mut ix = Indexer::new(geom, fat, "/mnt", &vec![]).unwrap();
    while !ix.done() {
        let plan = ix.plan().unwrap();
        let mut bytes = Vec::new();
        for off in &plan.offsets {
            let start = *off as usize;
            bytes.extend_from_slice(&v[start..start + plan.cluster_size as usize]);
        }
        ix.step(&bytes).unwrap();
    }
    let (files, dirs) = ix.finish(0).unwrap();
    let (files2, dirs2) = index(&v, String::from("/mnt"), vec![], 0).unwrap();
    assert_eq!(files, files2);
    assert_eq!(dirs, dirs2);
}
