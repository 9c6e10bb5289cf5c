use anything::geometry::parse_boot_sector;
use anything::model::ExfatError;

/// A minimal valid boot sector: sector-shift 9 (512 B sectors),
/// cluster-shift 3 (8 sectors per cluster), FAT at sector 24 for 8
/// sectors, cluster heap at sector 32, root directory at cluster 5.
fn sample_boot_sector() -> Vec<u8> {
    let mut b = vec![0u8; 512];
    b[3..11].copy_from_slice(b"EXFAT   ");
    b[80..84].copy_from_slice(&24u32.to_le_bytes());
    b[84..88].copy_from_slice(&8u32.to_le_bytes());
    b[88..92].copy_from_slice(&32u32.to_le_bytes());
    b[96..100].copy_from_slice(&5u32.to_le_bytes());
    b[108] = 9;
    b[109] = 3;
    b[510] = 0x55;
    b[511] = 0xAA;
    b
}

#[test]
fn scenario_geometry_and_addressing() {
    let g = parse_boot_sector(&sample_boot_sector()).unwrap();
    assert_eq!(g.bytes_per_sector, 512);
    assert_eq!(g.sectors_per_cluster, 8);
    assert_eq!(g.cluster_size, 4096);
    assert_eq!(g.cluster_heap_byte_offset, 32 * 512);
    assert_eq!(g.fat_byte_offset, 24 * 512);
    assert_eq!(g.fat_byte_length, 8 * 512);
    assert_eq!(g.root_dir_cluster, 5);
    assert_eq!(g.cluster_to_byte(5), 3 * 4096 + 32 * 512);
    assert_eq!(g.cluster_to_byte(5), 28672);
}

#[test]
fn cluster_size_is_power_of_two() {
    let g = parse_boot_sector(&sample_boot_sector()).unwrap();
    assert!(g.cluster_size.is_power_of_two());
}

#[test]
fn first_data_cluster_sits_at_heap_start() {
    let g = parse_boot_sector(&sample_boot_sector()).unwrap();
    assert_eq!(g.cluster_to_byte(2), g.cluster_heap_byte_offset);
}

#[test]
fn short_boot_sector_is_rejected() {
    let b = vec![0u8; 511];
    assert_eq!(parse_boot_sector(&b), Err(ExfatError::ShortRead));
}

#[test]
fn wrong_filesystem_name_is_rejected() {
    let mut b = sample_boot_sector();
    b[3] = b'N';
    assert_eq!(parse_boot_sector(&b), Err(ExfatError::FilesystemNameMismatch));
}

#[test]
fn wrong_boot_signature_is_rejected() {
    let mut b = sample_boot_sector();
    b[511] = 0x00;
    assert_eq!(parse_boot_sector(&b), Err(ExfatError::BootSignatureMismatch));
}

#[test]
fn out_of_range_shift_is_rejected() {
    let mut b = sample_boot_sector();
    b[108] = 13;
    assert_eq!(parse_boot_sector(&b), Err(ExfatError::GeometryOutOfRange));
    let mut b = sample_boot_sector();
    b[109] = 17;
    assert_eq!(parse_boot_sector(&b), Err(ExfatError::GeometryOutOfRange));
}
