//! FAT table loader: the on-disk cluster-chain array, read once and
//! reinterpreted as 32-bit little-endian entries, then used read-only
//! for chain-following lookups.

use vstd::prelude::*;
use crate::lebytes::{le32_at, read_le32};

verus! {

/// The entry sequence a FAT byte range holds: each group of four
/// bytes, one little-endian entry; a trailing fragment shorter than
/// four bytes is dropped.
pub open spec fn fat_entries_of(bytes: Seq<u8>) -> Seq<u32> {
    Seq::new((bytes.len() / 4) as nat, |i: int| le32_at(bytes, 4 * i))
}

/// The in-memory FAT: `self@[i]` is the cluster that follows cluster
/// `i` in its chain, or a terminator or reserved sentinel.
pub struct FatTable {
    pub entries: Vec<u32>,
}

impl View for FatTable {
    type V = Seq<u32>;

    open spec fn view(&self) -> Seq<u32> {
        self.entries@
    }
}

impl FatTable {
    /// Reinterprets the FAT's raw byte range as its entry sequence.
    /// Each group of four bytes becomes one little-endian entry; a
    /// trailing fragment shorter than four bytes is dropped.
    pub fn parse(bytes: &Vec<u8>) -> (r: FatTable)
        ensures
            r@ == fat_entries_of(bytes@),
            r@.len() == bytes@.len() / 4,
            forall|i: int| 0 <= i < r@.len() ==> r@[i] == le32_at(bytes@, 4 * i),
    {
        let blen: usize = bytes.len();
        let total: usize = blen / 4;
        let mut entries: Vec<u32> = Vec::new();
        let mut i: usize = 0;
        while i < total
            invariant
                blen == bytes@.len(),
                total == bytes@.len() / 4,
                i <= total,
                entries@.len() == i,
                forall|j: int| 0 <= j < i ==> entries@[j] == le32_at(bytes@, 4 * j),
            decreases total - i,
        {
            let e = read_le32(bytes, 4 * i);
            entries.push(e);
            i = i + 1;
        }
        proof {
            assert(entries@ =~= fat_entries_of(bytes@));
        }
        FatTable { entries }
    }

    /// Number of entries the table holds.
    pub fn len(&self) -> (r: usize)
        ensures
            r == self@.len(),
    {
        self.entries.len()
    }

    /// The entry that follows `cluster`, or `None` when `cluster` lies
    /// outside the table — a lookup the callers treat as fatal.
    pub fn lookup(&self, cluster: u32) -> (r: Option<u32>)
        ensures
            cluster < self@.len() ==> r == Some(self@[cluster as int]),
            cluster >= self@.len() ==> r == None::<u32>,
    {
        if (cluster as usize) < self.entries.len() {
            Some(self.entries[cluster as usize])
        } else {
            None
        }
    }
}

} // verus!
