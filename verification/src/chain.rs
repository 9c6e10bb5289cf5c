//! Cluster chain resolver: turns an extent's first cluster, byte size
//! and contiguity flag into the ordered list of clusters holding it,
//! and walks the root directory's chain to its terminator.

use vstd::prelude::*;
use crate::fat::FatTable;
use crate::model::ExfatError;

verus! {

/// The FAT entry value that ends a chain.
pub const END_OF_CHAIN: u32 = 0xFFFF_FFFF;

/// Number of clusters an extent of `size` bytes occupies: `size`
/// divided by `cluster_size`, rounded up.
pub open spec fn cluster_count(size: u64, cluster_size: u64) -> int
    recommends
        cluster_size >= 1,
{
    size / cluster_size + if size % cluster_size == 0 {
        0int
    } else {
        1int
    }
}

/// Cluster list of a contiguous extent: consecutive numbers from
/// `first` on.
pub open spec fn contiguous_chain_spec(first: u32, n: int) -> Seq<u32> {
    Seq::new(n as nat, |j: int| (first + j) as u32)
}

/// Cluster list of a FAT-linked extent of `n` clusters: `first`, then
/// each next cluster read out of the FAT; fails where a lookup would
/// leave the table.
pub open spec fn linked_chain_spec(fat: Seq<u32>, first: u32, n: int) -> Result<
    Seq<u32>,
    ExfatError,
>
    decreases n,
{
    if n <= 0 {
        Ok(Seq::empty())
    } else if n == 1 {
        Ok(seq![first])
    } else {
        match linked_chain_spec(fat, first, n - 1) {
            Err(e) => Err(e),
            Ok(c) => {
                let last = c[n - 2];
                if last < fat.len() {
                    Ok(c.push(fat[last as int]))
                } else {
                    Err(ExfatError::FatLookupOutOfBounds)
                }
            },
        }
    }
}

/// Cluster `j` of `c` is the FAT entry of the cluster before it,
/// read inside the table.
pub open spec fn chain_linked_at(fat: Seq<u32>, c: Seq<u32>, j: int) -> bool {
    c[j - 1] < fat.len() && c[j] == fat[c[j - 1] as int]
}

/// Every cluster of `c` after the first is the FAT entry of the one
/// before it.
pub open spec fn is_fat_chain(fat: Seq<u32>, c: Seq<u32>) -> bool {
    forall|j: int| 1 <= j < c.len() ==> #[trigger] chain_linked_at(fat, c, j)
}

/// A defined linked chain has exactly `n` clusters, starts at `first`,
/// and reads every later cluster out of the FAT entry of the one
/// before it.
pub proof fn lemma_linked_chain_len(fat: Seq<u32>, first: u32, n: int)
    requires
        linked_chain_spec(fat, first, n) is Ok,
    ensures
        linked_chain_spec(fat, first, n)->Ok_0.len() == if n <= 0 {
            0int
        } else {
            n
        },
        n > 0 ==> linked_chain_spec(fat, first, n)->Ok_0[0] == first,
    decreases n,
{
    if n > 1 {
        lemma_linked_chain_len(fat, first, n - 1);
    }
}

/// A defined linked chain has exactly `n` clusters, starts at `first`,
/// and reads every later cluster out of the FAT entry of the one
/// before it.
pub proof fn lemma_linked_chain_shape(fat: Seq<u32>, first: u32, n: int)
    requires
        linked_chain_spec(fat, first, n) is Ok,
    ensures
        linked_chain_spec(fat, first, n)->Ok_0.len() == if n <= 0 {
            0int
        } else {
            n
        },
        n > 0 ==> linked_chain_spec(fat, first, n)->Ok_0[0] == first,
        is_fat_chain(fat, linked_chain_spec(fat, first, n)->Ok_0),
    decreases n,
{
    lemma_linked_chain_len(fat, first, n);
    if n <= 1 {
        assert(is_fat_chain(fat, linked_chain_spec(fat, first, n)->Ok_0));
    } else {
        lemma_linked_chain_shape(fat, first, n - 1);
        let c = linked_chain_spec(fat, first, n - 1)->Ok_0;
        let full = linked_chain_spec(fat, first, n)->Ok_0;
        assert(full == c.push(fat[c[n - 2] as int]));
        assert forall|j: int| 1 <= j < full.len() implies #[trigger] chain_linked_at(
            fat,
            full,
            j,
        ) by {
            if j < n - 1 {
                assert(full[j] == c[j] && full[j - 1] == c[j - 1]);
                assert(chain_linked_at(fat, c, j));
                assert(c[j] == fat[c[j - 1] as int]);
            } else {
                assert(full[n - 1] == fat[c[n - 2] as int] && full[n - 2] == c[n - 2]);
            }
        }
    }
}

/// The cluster count of any extent fits in a 64-bit number.
proof fn lemma_count_fits(size: u64, cluster_size: u64)
    requires
        cluster_size >= 1,
    ensures
        0 <= cluster_count(size, cluster_size) <= u64::MAX,
{
    assert(size % cluster_size != 0 ==> cluster_size >= 2) by (nonlinear_arith)
        requires
            cluster_size >= 1,
    ;
    assert(cluster_size >= 2 ==> size / cluster_size <= u64::MAX / 2) by (nonlinear_arith);
    assert(size / cluster_size >= 0) by (nonlinear_arith)
        requires
            cluster_size >= 1,
    ;
}

/// The cluster count is the ceiling of `size / cluster_size`, and a
/// contiguous extent's cluster list is strictly increasing by one with
/// that many entries; a FAT-linked extent of the same size, where
/// defined, has the same length, its values sourced from the FAT.
pub proof fn lemma_extent_cluster_lists(fat: Seq<u32>, first: u32, size: u64, cluster_size: u64)
    requires
        cluster_size >= 1,
    ensures
        cluster_count(size, cluster_size) == (size + cluster_size - 1) / (cluster_size as int),
        contiguous_chain_spec(first, cluster_count(size, cluster_size)).len() == cluster_count(
            size,
            cluster_size,
        ),
        forall|j: int|
            0 <= j < cluster_count(size, cluster_size) && first + j <= u32::MAX
                ==> contiguous_chain_spec(first, cluster_count(size, cluster_size))[j] == first
                + j,
        linked_chain_spec(fat, first, cluster_count(size, cluster_size)) is Ok
            ==> linked_chain_spec(fat, first, cluster_count(size, cluster_size))->Ok_0.len()
            == cluster_count(size, cluster_size),
{
    let cs = cluster_size as int;
    let sz = size as int;
    assert(sz / cs + if sz % cs == 0 {
        0int
    } else {
        1int
    } == (sz + cs - 1) / cs) by (nonlinear_arith)
        requires
            cs >= 1,
            sz >= 0,
    ;
    let n = cluster_count(size, cluster_size);
    if linked_chain_spec(fat, first, n) is Ok {
        lemma_linked_chain_shape(fat, first, n);
        assert(n >= 0) by (nonlinear_arith)
            requires
                cs >= 1,
                sz >= 0,
                n == sz / cs + if sz % cs == 0 {
                    0int
                } else {
                    1int
                },
        ;
    }
}

/// Resolves a contiguous extent: no FAT lookups, just consecutive
/// cluster numbers. Fails only where the run would pass the largest
/// cluster number.
pub fn resolve_contiguous(first: u32, size: u64, cluster_size: u64) -> (r: Result<
    Vec<u32>,
    ExfatError,
>)
    requires
        cluster_size >= 1,
    ensures
        r matches Ok(v) ==> v@ == contiguous_chain_spec(first, cluster_count(size, cluster_size)),
        r is Ok <==> cluster_count(size, cluster_size) <= u32::MAX - first + 1,
        r is Err ==> r == Err::<Vec<u32>, ExfatError>(ExfatError::AddressOutOfRange),
{
    proof {
        lemma_count_fits(size, cluster_size);
    }
    let n: u64 = size / cluster_size + if size % cluster_size == 0 {
        0
    } else {
        1
    };
    if n > (u32::MAX - first) as u64 + 1 {
        return Err(ExfatError::AddressOutOfRange);
    }
    let mut clusters: Vec<u32> = Vec::new();
    let mut j: u64 = 0;
    while j < n
        invariant
            n == cluster_count(size, cluster_size),
            n <= u32::MAX - first + 1,
            j <= n,
            clusters@.len() == j,
            forall|k: int| 0 <= k < j ==> clusters@[k] == first + k,
        decreases n - j,
    {
        clusters.push(first + j as u32);
        j = j + 1;
    }
    assert(clusters@ =~= contiguous_chain_spec(first, cluster_count(size, cluster_size)));
    Ok(clusters)
}

/// Resolves a FAT-linked extent: `cluster_count` clusters, each after
/// the first found by FAT indirection from the one before. A lookup
/// landing outside the table is fatal.
pub fn resolve_linked(fat: &FatTable, first: u32, size: u64, cluster_size: u64) -> (r: Result<
    Vec<u32>,
    ExfatError,
>)
    requires
        cluster_size >= 1,
    ensures
        r matches Ok(v) ==> linked_chain_spec(fat@, first, cluster_count(size, cluster_size))
            == Ok::<Seq<u32>, ExfatError>(v@),
        r matches Err(e) ==> linked_chain_spec(fat@, first, cluster_count(size, cluster_size))
            == Err::<Seq<u32>, ExfatError>(e),
{
    proof {
        lemma_count_fits(size, cluster_size);
    }
    let n: u64 = size / cluster_size + if size % cluster_size == 0 {
        0
    } else {
        1
    };
    let mut clusters: Vec<u32> = Vec::new();
    if n == 0 {
        return Ok(clusters);
    }
    clusters.push(first);
    let mut j: u64 = 1;
    while j < n
        invariant
            n >= 1,
            n == cluster_count(size, cluster_size),
            1 <= j <= n,
            linked_chain_spec(fat@, first, j as int) == Ok::<Seq<u32>, ExfatError>(clusters@),
            clusters@.len() == j,
        decreases n - j,
    {
        let last = clusters[clusters.len() - 1];
        match fat.lookup(last) {
            None => {
                proof {
                    lemma_linked_chain_err_persists(fat@, first, j as int + 1, n as int);
                }
                return Err(ExfatError::FatLookupOutOfBounds);
            },
            Some(next) => {
                clusters.push(next);
                j = j + 1;
            },
        }
    }
    Ok(clusters)
}

/// Once the linked chain is undefined at some length, it stays
/// undefined, with the same error, at every longer length.
proof fn lemma_linked_chain_err_persists(fat: Seq<u32>, first: u32, j: int, n: int)
    requires
        linked_chain_spec(fat, first, j) is Err,
        0 < j <= n,
    ensures
        linked_chain_spec(fat, first, n) == linked_chain_spec(fat, first, j),
    decreases n - j,
{
    if j < n {
        lemma_linked_chain_err_persists(fat, first, j + 1, n);
    }
}

/// Prefixes a resolved chain with already-walked clusters; an error
/// swallows the prefix.
pub open spec fn prepend_chain(s: Seq<u32>, r: Result<Seq<u32>, ExfatError>) -> Result<
    Seq<u32>,
    ExfatError,
> {
    match r {
        Ok(c) => Ok(s + c),
        Err(e) => Err(e),
    }
}

/// The root directory's chain, which has no declared size: walked from
/// `cluster` until the FAT yields the end-of-chain marker. The zero
/// entry marks corruption rather than a silent end, and a walk longer
/// than the table itself must have revisited a cluster.
pub open spec fn root_chain_spec(fat: Seq<u32>, cluster: u32, fuel: int) -> Result<
    Seq<u32>,
    ExfatError,
>
    decreases fuel,
{
    if cluster >= fat.len() {
        Err(ExfatError::FatLookupOutOfBounds)
    } else {
        let next = fat[cluster as int];
        if next == 0 {
            Err(ExfatError::CorruptChain)
        } else if next == END_OF_CHAIN {
            Ok(seq![cluster])
        } else if fuel <= 0 {
            Err(ExfatError::CycleDetected)
        } else {
            prepend_chain(seq![cluster], root_chain_spec(fat, next, fuel - 1))
        }
    }
}

/// Walks the root directory's cluster chain to its terminator.
pub fn resolve_root_chain(fat: &FatTable, first: u32) -> (r: Result<Vec<u32>, ExfatError>)
    ensures
        r matches Ok(v) ==> root_chain_spec(fat@, first, fat@.len() as int) == Ok::<
            Seq<u32>,
            ExfatError,
        >(v@),
        r matches Err(e) ==> root_chain_spec(fat@, first, fat@.len() as int) == Err::<
            Seq<u32>,
            ExfatError,
        >(e),
{
    let ghost fuel0: int = fat@.len() as int;
    let mut clusters: Vec<u32> = Vec::new();
    let mut cur: u32 = first;
    let mut steps_left: usize = fat.len();
    proof {
        let r0 = root_chain_spec(fat@, first, fuel0);
        if r0 is Ok {
            assert(Seq::<u32>::empty() + r0->Ok_0 =~= r0->Ok_0);
        }
    }
    loop
        invariant
            fuel0 == fat@.len() as int,
            steps_left <= fat@.len(),
            prepend_chain(clusters@, root_chain_spec(fat@, cur, steps_left as int))
                == root_chain_spec(fat@, first, fuel0),
        decreases steps_left,
    {
        let ghost before = clusters@;
        match fat.lookup(cur) {
            None => {
                return Err(ExfatError::FatLookupOutOfBounds);
            },
            Some(next) => {
                if next == 0 {
                    return Err(ExfatError::CorruptChain);
                } else if next == END_OF_CHAIN {
                    clusters.push(cur);
                    proof {
                        assert(before + seq![cur] =~= clusters@);
                    }
                    return Ok(clusters);
                } else if steps_left == 0 {
                    return Err(ExfatError::CycleDetected);
                } else {
                    clusters.push(cur);
                    proof {
                        let rest = root_chain_spec(fat@, next, steps_left as int - 1);
                        if rest is Ok {
                            assert(before + (seq![cur] + rest->Ok_0) =~= clusters@ + rest->Ok_0);
                        }
                    }
                    cur = next;
                    steps_left = steps_left - 1;
                }
            },
        }
    }
}

} // verus!
