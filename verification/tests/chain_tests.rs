use anything::chain::{resolve_contiguous, resolve_linked, resolve_root_chain};
use anything::fat::FatTable;
use anything::model::ExfatError;

fn fat_from_entries(entries: &[u32]) -> FatTable {
    let mut bytes = Vec::new();
    for e in entries {
        bytes.extend_from_slice(&e.to_le_bytes());
    }
    FatTable::parse(&bytes)
}

#[test]
fn fat_parse_reads_little_endian_entries() {
    let f = fat_from_entries(&[7, 0xFFFF_FFFF, 3]);
    assert_eq!(f.len(), 3);
    assert_eq!(f.lookup(0), Some(7));
    assert_eq!(f.lookup(1), Some(0xFFFF_FFFF));
    assert_eq!(f.lookup(2), Some(3));
    assert_eq!(f.lookup(3), None);
}

#[test]
fn contiguous_extent_counts_up_by_one() {
    // 2 full clusters and one byte more: three clusters.
    let r = resolve_contiguous(10, 2 * 4096 + 1, 4096).unwrap();
    assert_eq!(r, vec![10, 11, 12]);
    for w in r.windows(2) {
        assert_eq!(w[1], w[0] + 1);
    }
}

#[test]
fn extent_length_is_size_over_cluster_size_rounded_up() {
    assert_eq!(resolve_contiguous(4, 0, 4096).unwrap().len(), 0);
    assert_eq!(resolve_contiguous(4, 1, 4096).unwrap().len(), 1);
    assert_eq!(resolve_contiguous(4, 4096, 4096).unwrap().len(), 1);
    assert_eq!(resolve_contiguous(4, 4097, 4096).unwrap().len(), 2);
}

#[test]
fn linked_extent_of_equal_size_has_equal_length() {
    // Chain 5 -> 9 -> 3, then a terminator.
    let mut entries = vec![0u32; 16];
    entries[5] = 9;
    entries[9] = 3;
    entries[3] = 0xFFFF_FFFF;
    let fat = fat_from_entries(&entries);
    let size = 2 * 4096 + 100;
    let linked = resolve_linked(&fat, 5, size, 4096).unwrap();
    let contiguous = resolve_contiguous(5, size, 4096).unwrap();
    assert_eq!(linked.len(), contiguous.len());
    assert_eq!(linked, vec![5, 9, 3]);
}

#[test]
fn linked_lookup_outside_table_is_fatal() {
    let entries = vec![0u32; 4];
    let fat = fat_from_entries(&entries);
    // First cluster 9 lies outside the 4-entry table; the second
    // cluster needs a lookup of it.
    assert_eq!(
        resolve_linked(&fat, 9, 2 * 4096, 4096),
        Err(ExfatError::FatLookupOutOfBounds)
    );
}

#[test]
fn root_chain_runs_to_the_end_marker() {
    let mut entries = vec![0u32; 16];
    entries[5] = 7;
    entries[7] = 9;
    entries[9] = 0xFFFF_FFFF;
    let fat = fat_from_entries(&entries);
    assert_eq!(resolve_root_chain(&fat, 5).unwrap(), vec![5, 7, 9]);
}

#[test]
fn root_chain_zero_entry_marks_corruption() {
    let mut entries = vec![0u32; 16];
    entries[5] = 7;
    // entries[7] stays 0.
    let fat = fat_from_entries(&entries);
    assert_eq!(resolve_root_chain(&fat, 5), Err(ExfatError::CorruptChain));
}

#[test]
fn root_chain_cycle_is_detected() {
    let mut entries = vec![0u32; 16];
    entries[5] = 7;
    entries[7] = 5;
    let fat = fat_from_entries(&entries);
    assert_eq!(resolve_root_chain(&fat, 5), Err(ExfatError::CycleDetected));
}

#[test]
fn root_chain_outside_table_is_fatal() {
    let fat = fat_from_entries(&[0, 0]);
    assert_eq!(
        resolve_root_chain(&fat, 9),
        Err(ExfatError::FatLookupOutOfBounds)
    );
}
