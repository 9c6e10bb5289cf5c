//! Boot-sector reader and cluster addressing: the volume geometry is
//! parsed once from the first 512 bytes of the device and is immutable
//! for the rest of the pass.

use vstd::prelude::*;
use crate::lebytes::{le32_at, read_le32};
use crate::model::ExfatError;

verus! {

/// Geometry parameters of one exFAT volume, as the boot sector states
/// them. `cluster_size`, the byte offsets and the byte length are
/// derived from the raw fields and cached.
#[derive(Debug, Clone, Copy, PartialEq, Eq, Structural)]
pub struct VolumeGeometry {
    pub bytes_per_sector_shift: u8,
    pub sectors_per_cluster_shift: u8,
    pub bytes_per_sector: u64,
    pub sectors_per_cluster: u64,
    pub cluster_size: u64,
    pub cluster_heap_byte_offset: u64,
    pub root_dir_cluster: u32,
    pub fat_byte_offset: u64,
    pub fat_byte_length: u64,
}

impl VolumeGeometry {
    /// The shape every geometry built by `parse_boot_sector` has: the
    /// sizes are the stated powers of two, the shifts lie in the ranges
    /// the exFAT format allows, and the derived quantities are small
    /// enough that cluster addressing can never overflow a `u64`.
    pub open spec fn wf(self) -> bool {
        &&& 9 <= self.bytes_per_sector_shift <= 12
        &&& self.sectors_per_cluster_shift + self.bytes_per_sector_shift <= 25
        &&& self.bytes_per_sector == (1u64 << self.bytes_per_sector_shift)
        &&& self.sectors_per_cluster == (1u64 << self.sectors_per_cluster_shift)
        &&& self.cluster_size == self.bytes_per_sector * self.sectors_per_cluster
        &&& 512 <= self.cluster_size <= 0x200_0000
        &&& self.cluster_heap_byte_offset <= 0xFFF_FFFF_F000
        &&& self.fat_byte_offset <= 0xFFF_FFFF_F000
        &&& self.fat_byte_length <= 0xFFF_FFFF_F000
    }

    /// Absolute device byte offset of a data cluster: clusters 0 and 1
    /// are reserved, cluster 2 opens the cluster heap.
    pub open spec fn cluster_byte_spec(self, cluster: u32) -> int {
        (cluster - 2) * self.cluster_size + self.cluster_heap_byte_offset
    }

    /// Maps a cluster index to its absolute device byte offset.
    pub fn cluster_to_byte(&self, cluster: u32) -> (r: u64)
        requires
            self.wf(),
            cluster >= 2,
        ensures
            r == self.cluster_byte_spec(cluster),
    {
        proof {
            assert((cluster - 2) * self.cluster_size <= 0xFFFF_FFFFu64 * 0x200_0000) by (nonlinear_arith)
                requires
                    cluster <= 0xFFFF_FFFFu64 + 2,
                    2 <= cluster,
                    self.cluster_size <= 0x200_0000,
            ;
        }
        (cluster as u64 - 2) * self.cluster_size + self.cluster_heap_byte_offset
    }
}

/// `n` is an exact power of two.
pub open spec fn is_power_of_two(n: u64) -> bool {
    exists|k: u64| k < 64 && n == (1u64 << k)
}

/// The cluster size of any well-formed geometry — bytes per sector
/// times sectors per cluster — is a power of two.
pub proof fn lemma_cluster_size_power_of_two(g: VolumeGeometry)
    requires
        g.wf(),
    ensures
        is_power_of_two(g.cluster_size),
{
    let a = g.bytes_per_sector_shift;
    let b = g.sectors_per_cluster_shift;
    assert((1u64 << a) * (1u64 << b) == (1u64 << (a + b) as u64)) by (bit_vector)
        requires
            a + b <= 25,
    ;
    assert(g.cluster_size == (1u64 << ((a + b) as u64)));
}

/// Resolving the first data cluster lands exactly at the start of the
/// cluster heap: `offset(2)` is the cluster-heap byte offset.
pub proof fn lemma_cluster_two_at_heap_start(g: VolumeGeometry)
    requires
        g.wf(),
    ensures
        g.cluster_byte_spec(2) == g.cluster_heap_byte_offset,
{
}

/// The eight bytes of the boot sector's filesystem-name field spell
/// the exFAT literal (`"EXFAT   "`).
pub open spec fn has_exfat_name(b: Seq<u8>) -> bool {
    &&& b[3] == 0x45u8
    &&& b[4] == 0x58u8
    &&& b[5] == 0x46u8
    &&& b[6] == 0x41u8
    &&& b[7] == 0x54u8
    &&& b[8] == 0x20u8
    &&& b[9] == 0x20u8
    &&& b[10] == 0x20u8
}

/// The trailing boot signature bytes are `0x55 0xAA`.
pub open spec fn has_boot_signature(b: Seq<u8>) -> bool {
    b[510] == 0x55u8 && b[511] == 0xAAu8
}

/// The two shift fields lie inside the ranges the exFAT format allows:
/// sector sizes of 512 to 4096 bytes and clusters of at most 32 MiB.
pub open spec fn shifts_in_range(b: Seq<u8>) -> bool {
    &&& 9 <= b[108] <= 12
    &&& b[109] + b[108] <= 25
}

/// The geometry that a valid 512-byte boot sector describes.
pub open spec fn geometry_of(b: Seq<u8>) -> VolumeGeometry {
    let bps = (1u64 << b[108]) as u64;
    VolumeGeometry {
        bytes_per_sector_shift: b[108],
        sectors_per_cluster_shift: b[109],
        bytes_per_sector: bps,
        sectors_per_cluster: (1u64 << b[109]) as u64,
        cluster_size: (bps * (1u64 << b[109])) as u64,
        cluster_heap_byte_offset: (le32_at(b, 88) * bps) as u64,
        root_dir_cluster: le32_at(b, 96),
        fat_byte_offset: (le32_at(b, 80) * bps) as u64,
        fat_byte_length: (le32_at(b, 84) * bps) as u64,
    }
}

/// Parses the first sector of the device into the volume geometry.
///
/// Succeeds exactly on buffers of at least 512 bytes that carry the
/// exFAT filesystem name, the boot signature, and shift fields in
/// range; the errors say which of those was missing, checked in that
/// order.
pub fn parse_boot_sector(buffer: &Vec<u8>) -> (r: Result<VolumeGeometry, ExfatError>)
    ensures
        buffer@.len() < 512 ==> r == Err::<VolumeGeometry, ExfatError>(ExfatError::ShortRead),
        buffer@.len() >= 512 && !has_exfat_name(buffer@) ==> r == Err::<VolumeGeometry,
            ExfatError>(ExfatError::FilesystemNameMismatch),
        buffer@.len() >= 512 && has_exfat_name(buffer@) && !has_boot_signature(buffer@) ==> r
            == Err::<VolumeGeometry, ExfatError>(ExfatError::BootSignatureMismatch),
        buffer@.len() >= 512 && has_exfat_name(buffer@) && has_boot_signature(buffer@)
            && !shifts_in_range(buffer@) ==> r == Err::<VolumeGeometry, ExfatError>(
            ExfatError::GeometryOutOfRange),
        buffer@.len() >= 512 && has_exfat_name(buffer@) && has_boot_signature(buffer@)
            && shifts_in_range(buffer@) ==> r == Ok::<VolumeGeometry, ExfatError>(geometry_of(
            buffer@)) && geometry_of(buffer@).wf(),
{
    if buffer.len() < 512 {
        return Err(ExfatError::ShortRead);
    }
    if !(buffer[3] == 0x45 && buffer[4] == 0x58 && buffer[5] == 0x46 && buffer[6] == 0x41
        && buffer[7] == 0x54 && buffer[8] == 0x20 && buffer[9] == 0x20 && buffer[10] == 0x20) {
        return Err(ExfatError::FilesystemNameMismatch);
    }
    if !(buffer[510] == 0x55 && buffer[511] == 0xAA) {
        return Err(ExfatError::BootSignatureMismatch);
    }
    let bytes_per_sector_shift = buffer[108];
    let sectors_per_cluster_shift = buffer[109];
    if !(9 <= bytes_per_sector_shift && bytes_per_sector_shift <= 12
        && sectors_per_cluster_shift as u64 + bytes_per_sector_shift as u64 <= 25) {
        return Err(ExfatError::GeometryOutOfRange);
    }
    let bytes_per_sector = 1u64 << bytes_per_sector_shift;
    let sectors_per_cluster = 1u64 << sectors_per_cluster_shift;
    proof {
        let a = bytes_per_sector_shift;
        let b = sectors_per_cluster_shift;
        assert(512 <= (1u64 << a) <= 4096 && (1u64 << a) * (1u64 << b) <= 0x200_0000 && (1u64
            << b) >= 1 && (1u64 << a) * (1u64 << b) >= (1u64 << a)) by (bit_vector)
            requires
                9 <= a <= 12,
                a + b <= 25,
        ;
    }
    let cluster_size = bytes_per_sector * sectors_per_cluster;
    let cluster_heap_offset_sectors = read_le32(buffer, 88);
    let root_dir_cluster = read_le32(buffer, 96);
    let fat_offset_sectors = read_le32(buffer, 80);
    let fat_length_sectors = read_le32(buffer, 84);
    proof {
        assert(forall|s: u32, bps: u64|
            bps <= 4096 ==> #[trigger] (s * bps) <= 0xFFFF_FFFFu64 * 4096) by (nonlinear_arith);
    }
    Ok(VolumeGeometry {
        bytes_per_sector_shift,
        sectors_per_cluster_shift,
        bytes_per_sector,
        sectors_per_cluster,
        cluster_size,
        cluster_heap_byte_offset: cluster_heap_offset_sectors as u64 * bytes_per_sector,
        root_dir_cluster,
        fat_byte_offset: fat_offset_sectors as u64 * bytes_per_sector,
        fat_byte_length: fat_length_sectors as u64 * bytes_per_sector,
    })
}

} // verus!
