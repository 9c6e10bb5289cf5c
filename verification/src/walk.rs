//! Tree builder: drives the directory scanner recursively from the
//! root directory, depth-first in physical slot order, keeping the
//! descriptor list and the directory table, tracking visited clusters
//! against cycles, and dropping ignored subtrees whole.
//!
//! Reading the device is the caller's part: `plan` says which byte
//! ranges the next directory occupies, and `step` consumes their
//! content. `index` runs the same loop against an in-memory volume.

use vstd::prelude::*;
use crate::chain::{
    cluster_count,
    contiguous_chain_spec,
    linked_chain_spec,
    root_chain_spec,
    resolve_contiguous,
    resolve_linked,
    resolve_root_chain,
    lemma_linked_chain_shape,
};
use crate::dirent::{
    build_path,
    full_path_of,
    is_prefix_of,
    lemma_prefix_transitive,
    lemma_scan_files_shape,
    is_ignored,
    opt_units_abs,
    scan_directory,
    scan_spec,
    ExFatFile,
    FileAbs,
    ScanResult,
    SEPARATOR_UNIT,
};
use crate::fat::{fat_entries_of, FatTable};
use crate::geometry::{
    geometry_of,
    has_boot_signature,
    has_exfat_name,
    parse_boot_sector,
    shifts_in_range,
    VolumeGeometry,
};
use crate::model::{Directory, ExfatError, File};
use crate::text::{decode_utf16_units, encode_utf16_units, utf16_chars, utf16_units};

verus! {

/// One directory waiting to be scanned: its extent, its fully
/// qualified path, and whether it is the root, whose chain is walked
/// to the terminator instead of by size.
pub struct PendingDir {
    pub first_cluster: u32,
    pub size: u64,
    pub contiguous: bool,
    pub path: Vec<u16>,
    pub is_root: bool,
}

/// The mathematical shadow of a pending directory.
pub struct PendingAbs {
    pub first_cluster: u32,
    pub size: u64,
    pub contiguous: bool,
    pub path: Seq<u16>,
    pub is_root: bool,
}

impl View for PendingDir {
    type V = PendingAbs;

    open spec fn view(&self) -> PendingAbs {
        PendingAbs {
            first_cluster: self.first_cluster,
            size: self.size,
            contiguous: self.contiguous,
            path: self.path@,
            is_root: self.is_root,
        }
    }
}

impl DeepView for PendingDir {
    type V = PendingAbs;

    open spec fn deep_view(&self) -> PendingAbs {
        self@
    }
}

/// The walk state: geometry and FAT fixed for the pass, the growing
/// descriptor list and directory table, the stack of directories
/// still to scan, the clusters already claimed by some directory, and
/// a step budget that bounds the walk by the table's own size.
pub struct Indexer {
    pub geom: VolumeGeometry,
    pub fat: FatTable,
    pub files: Vec<ExFatFile>,
    pub dir_paths: Vec<Vec<u16>>,
    pub pending: Vec<PendingDir>,
    pub visited: Vec<u32>,
    pub ignore: Vec<Vec<u16>>,
    pub label: Option<Vec<u16>>,
    pub budget: usize,
}

/// The mathematical shadow of the walk state.
pub struct IndexerAbs {
    pub geom: VolumeGeometry,
    pub fat: Seq<u32>,
    pub files: Seq<FileAbs>,
    pub dir_paths: Seq<Seq<u16>>,
    pub pending: Seq<PendingAbs>,
    pub visited: Seq<u32>,
    pub ignore: Seq<Seq<u16>>,
    pub label: Option<Seq<u16>>,
    pub budget: nat,
}

impl View for Indexer {
    type V = IndexerAbs;

    open spec fn view(&self) -> IndexerAbs {
        IndexerAbs {
            geom: self.geom,
            fat: self.fat@,
            files: self.files.deep_view(),
            dir_paths: self.dir_paths.deep_view(),
            pending: self.pending.deep_view(),
            visited: self.visited@,
            ignore: self.ignore.deep_view(),
            label: opt_units_abs(self.label),
            budget: self.budget as nat,
        }
    }
}

/// The fully qualified path of the `i`-th descriptor: its owning
/// directory's path, its name, and a separator if it is a directory.
pub open spec fn file_path_in(s: IndexerAbs, i: int) -> Seq<u16> {
    full_path_of(s.dir_paths[s.files[i].parent as int], s.files[i].name, s.files[i].is_dir)
}

/// What every reachable walk state satisfies: the geometry is well
/// formed, every descriptor's owning directory is already in the
/// table, and no descriptor's path — nor any pending non-root
/// directory's — matches an ignore-prefix. The last is what makes an
/// ignored directory contribute nothing at any depth.
pub open spec fn inv(s: IndexerAbs) -> bool {
    &&& s.geom.wf()
    &&& forall|i: int|
        0 <= i < s.files.len() ==> (#[trigger] s.files[i]).parent < s.dir_paths.len()
    &&& forall|i: int| 0 <= i < s.files.len() ==> !is_ignored(#[trigger] file_path_in(s, i), s.ignore)
    &&& forall|i: int|
        0 <= i < s.pending.len() ==> ((#[trigger] s.pending[i]).is_root || !is_ignored(
            s.pending[i].path,
            s.ignore,
        ))
}

/// Cluster list of a pending directory: the root's chain runs to the
/// FAT's end-of-chain marker, a contiguous extent counts up from its
/// first cluster, and anything else follows the FAT.
pub open spec fn pending_chain_spec(fat: Seq<u32>, cluster_size: u64, p: PendingAbs) -> Result<
    Seq<u32>,
    ExfatError,
> {
    if p.is_root {
        root_chain_spec(fat, p.first_cluster, fat.len() as int)
    } else if p.contiguous {
        if cluster_count(p.size, cluster_size) <= u32::MAX - p.first_cluster + 1 {
            Ok(contiguous_chain_spec(p.first_cluster, cluster_count(p.size, cluster_size)))
        } else {
            Err(ExfatError::AddressOutOfRange)
        }
    } else {
        linked_chain_spec(fat, p.first_cluster, cluster_count(p.size, cluster_size))
    }
}

/// Device byte offsets of a cluster list; a reserved cluster below 2
/// marks corruption.
pub open spec fn chain_offsets(g: VolumeGeometry, chain: Seq<u32>) -> Result<Seq<u64>, ExfatError>
    decreases chain.len(),
{
    if chain.len() == 0 {
        Ok(Seq::empty())
    } else if chain[0] < 2 {
        Err(ExfatError::CorruptChain)
    } else {
        match chain_offsets(g, chain.skip(1)) {
            Err(e) => Err(e),
            Ok(rest) => Ok(seq![g.cluster_byte_spec(chain[0]) as u64] + rest),
        }
    }
}

/// Prefixes already-computed offsets onto the rest; an error swallows
/// them.
pub open spec fn prepend_offsets(s: Seq<u64>, r: Result<Seq<u64>, ExfatError>) -> Result<
    Seq<u64>,
    ExfatError,
> {
    match r {
        Ok(rest) => Ok(s + rest),
        Err(e) => Err(e),
    }
}

/// The byte ranges the next pending directory occupies.
pub open spec fn plan_spec(s: IndexerAbs) -> Result<Seq<u64>, ExfatError>
    recommends
        s.pending.len() > 0,
{
    match pending_chain_spec(s.fat, s.geom.cluster_size, s.pending.last()) {
        Err(e) => Err(e),
        Ok(ch) => chain_offsets(s.geom, ch),
    }
}

/// What the caller must read next: one range of `cluster_size` bytes
/// at each offset, concatenated in order.
pub struct ReadPlan {
    pub offsets: Vec<u64>,
    pub cluster_size: u64,
}

/// Walks the scanned members of one directory in slot order,
/// collecting the subdirectories to descend into (with their cluster
/// claimed against revisits) and the table paths of empty
/// subdirectories, which hold no slots to scan.
pub open spec fn walk_children(
    files: Seq<FileAbs>,
    base: Seq<u16>,
    cluster_size: u64,
    fat_len: int,
    visited: Seq<u32>,
) -> Result<(Seq<PendingAbs>, Seq<u32>, Seq<Seq<u16>>), ExfatError>
    decreases files.len(),
{
    if files.len() == 0 {
        Ok((Seq::empty(), visited, Seq::empty()))
    } else {
        let f = files[0];
        if !f.is_dir {
            walk_children(files.skip(1), base, cluster_size, fat_len, visited)
        } else {
            let full = full_path_of(base, f.name, true);
            if f.size == 0 {
                match walk_children(files.skip(1), base, cluster_size, fat_len, visited) {
                    Err(e) => Err(e),
                    Ok((p, v, d)) => Ok((p, v, seq![full] + d)),
                }
            } else if f.first_cluster < 2 || f.first_cluster >= fat_len {
                Err(ExfatError::CorruptChain)
            } else if visited.contains(f.first_cluster) {
                Err(ExfatError::CycleDetected)
            } else {
                let pend = PendingAbs {
                    first_cluster: f.first_cluster,
                    size: f.size,
                    contiguous: f.contiguous,
                    path: full,
                    is_root: false,
                };
                match walk_children(
                    files.skip(1),
                    base,
                    cluster_size,
                    fat_len,
                    visited.push(f.first_cluster),
                ) {
                    Err(e) => Err(e),
                    Ok((p, v, d)) => Ok((seq![pend] + p, v, d)),
                }
            }
        }
    }
}

/// Splices already-collected pendings and table paths in front of the
/// walk of the remaining members.
pub open spec fn combine_children(
    p0: Seq<PendingAbs>,
    d0: Seq<Seq<u16>>,
    r: Result<(Seq<PendingAbs>, Seq<u32>, Seq<Seq<u16>>), ExfatError>,
) -> Result<(Seq<PendingAbs>, Seq<u32>, Seq<Seq<u16>>), ExfatError> {
    match r {
        Err(e) => Err(e),
        Ok((p, v, d)) => Ok((p0 + p, v, d0 + d)),
    }
}

/// One step of the walk on the top pending directory, handed that
/// directory's byte content: scans it, appends its descriptors with
/// the new table entry as their parent, queues its subdirectories in
/// slot order, and keeps the last volume label seen. The step errs on
/// an exhausted budget, a table index past `u32`, an unresolvable
/// chain, content of the wrong length, a malformed entry set, an
/// invalid subdirectory cluster, or a revisited cluster.
pub open spec fn step_spec(s: IndexerAbs, bytes: Seq<u8>) -> Result<IndexerAbs, ExfatError>
    recommends
        s.pending.len() > 0,
{
    if s.budget == 0 {
        Err(ExfatError::CycleDetected)
    } else if s.dir_paths.len() > u32::MAX {
        Err(ExfatError::IndexOverflow)
    } else {
        let top = s.pending.last();
        match pending_chain_spec(s.fat, s.geom.cluster_size, top) {
            Err(e) => Err(e),
            Ok(ch) => {
                if bytes.len() != s.geom.cluster_size * ch.len() {
                    Err(ExfatError::ShortRead)
                } else {
                    let limit = if top.is_root {
                        bytes.len() as int
                    } else {
                        top.size as int
                    };
                    let my_idx = s.dir_paths.len() as u32;
                    match scan_spec(bytes, limit, 0, my_idx, top.path, s.ignore, top.is_root) {
                        Err(e) => Err(e),
                        Ok(sc) => match walk_children(
                            sc.files,
                            top.path,
                            s.geom.cluster_size,
                            s.fat.len() as int,
                            s.visited,
                        ) {
                            Err(e) => Err(e),
                            Ok((newp, vis, dirs)) => Ok(
                                IndexerAbs {
                                    files: s.files + sc.files,
                                    dir_paths: s.dir_paths.push(top.path) + dirs,
                                    pending: s.pending.drop_last() + newp.reverse(),
                                    visited: vis,
                                    label: if sc.label is Some {
                                        sc.label
                                    } else {
                                        s.label
                                    },
                                    budget: (s.budget - 1) as nat,
                                    ..s
                                },
                            ),
                        },
                    }
                }
            },
        }
    }
}


/// Equality of a byte count with a whole number of clusters, phrased
/// over division and remainder.
proof fn lemma_len_eq(b: int, cs: int, n: int)
    requires
        cs >= 1,
        n >= 0,
        b >= 0,
    ensures
        (b == cs * n) <==> (b % cs == 0 && b / cs == n),
{
    assert((b == cs * n) <==> (b % cs == 0 && b / cs == n)) by (nonlinear_arith)
        requires
            cs >= 1,
            n >= 0,
            b >= 0,
    ;
}

/// The cluster count is never negative.
proof fn lemma_count_nonneg(size: u64, cluster_size: u64)
    requires
        cluster_size >= 1,
    ensures
        cluster_count(size, cluster_size) >= 0,
{
    assert(size / cluster_size >= 0) by (nonlinear_arith)
        requires
            cluster_size >= 1,
    ;
}

/// An extent fits inside the clusters its count claims.
proof fn lemma_count_covers(size: u64, cluster_size: u64)
    requires
        cluster_size >= 1,
    ensures
        size <= cluster_count(size, cluster_size) * cluster_size,
{
    assert(size <= (size / cluster_size + if size % cluster_size == 0 {
        0int
    } else {
        1int
    }) * cluster_size) by (nonlinear_arith)
        requires
            cluster_size >= 1,
    ;
}

/// Every subdirectory the walk queues is a non-root pending whose
/// path — the base path, the name, a separator — matched no
/// ignore-prefix among the scanned members.
proof fn lemma_walk_children_shape(
    files: Seq<FileAbs>,
    base: Seq<u16>,
    cluster_size: u64,
    fat_len: int,
    visited: Seq<u32>,
    ignore: Seq<Seq<u16>>,
)
    requires
        walk_children(files, base, cluster_size, fat_len, visited) is Ok,
        forall|i: int|
            0 <= i < files.len() && (#[trigger] files[i]).is_dir ==> !is_ignored(
                full_path_of(base, files[i].name, true),
                ignore,
            ),
    ensures
        forall|k: int|
            0 <= k < walk_children(files, base, cluster_size, fat_len, visited)->Ok_0.0.len()
                ==> !(#[trigger] walk_children(files, base, cluster_size, fat_len, visited)
                ->Ok_0.0[k]).is_root && !is_ignored(
                walk_children(files, base, cluster_size, fat_len, visited)->Ok_0.0[k].path,
                ignore,
            ),
    decreases files.len(),
{
    if files.len() == 0 {
    } else {
        let f = files[0];
        assert(forall|i: int|
            0 <= i < files.skip(1).len() && (#[trigger] files.skip(1)[i]).is_dir ==> !is_ignored(
                full_path_of(base, files.skip(1)[i].name, true),
                ignore,
            ));
        if !f.is_dir {
            lemma_walk_children_shape(files.skip(1), base, cluster_size, fat_len, visited, ignore);
        } else if f.size == 0 {
            lemma_walk_children_shape(files.skip(1), base, cluster_size, fat_len, visited, ignore);
        } else if f.first_cluster < 2 || f.first_cluster >= fat_len {
        } else if visited.contains(f.first_cluster) {
        } else {
            lemma_walk_children_shape(
                files.skip(1),
                base,
                cluster_size,
                fat_len,
                visited.push(f.first_cluster),
                ignore,
            );
        }
    }
}

/// A state whose records are untouched, whose directory table only
/// grew, and whose pending stack only shrank from the top keeps the
/// invariant.
proof fn lemma_inv_frame(s0: IndexerAbs, s1: IndexerAbs)
    requires
        inv(s0),
        s1.geom == s0.geom,
        s1.ignore == s0.ignore,
        s1.files == s0.files,
        s1.dir_paths.len() >= s0.dir_paths.len(),
        forall|i: int| 0 <= i < s0.dir_paths.len() ==> s1.dir_paths[i] == s0.dir_paths[i],
        s1.pending.len() <= s0.pending.len(),
        forall|i: int| 0 <= i < s1.pending.len() ==> s1.pending[i] == s0.pending[i],
    ensures
        inv(s1),
{
    assert forall|i: int| 0 <= i < s1.files.len() implies !is_ignored(
        #[trigger] file_path_in(s1, i),
        s1.ignore,
    ) by {
        assert(s1.files[i] == s0.files[i]);
        assert(s1.dir_paths[s1.files[i].parent as int] == s0.dir_paths[s0.files[i].parent as int]);
        assert(file_path_in(s1, i) == file_path_in(s0, i));
    }
}

/// `x` is among the claimed clusters.
fn contains_u32(v: &Vec<u32>, x: u32) -> (r: bool)
    ensures
        r == v@.contains(x),
{
    let mut i: usize = 0;
    while i < v.len()
        invariant
            i <= v@.len(),
            forall|k: int| 0 <= k < i ==> v@[k] != x,
        decreases v@.len() - i,
    {
        if v[i] == x {
            return true;
        }
        i = i + 1;
    }
    false
}

/// A fresh copy of a code-unit sequence.
fn copy_units(v: &Vec<u16>) -> (r: Vec<u16>)
    ensures
        r@ == v@,
{
    let mut out: Vec<u16> = Vec::new();
    let mut i: usize = 0;
    while i < v.len()
        invariant
            i <= v@.len(),
            out@ == v@.take(i as int),
        decreases v@.len() - i,
    {
        out.push(v[i]);
        proof {
            assert(out@ =~= v@.take(i + 1));
        }
        i = i + 1;
    }
    proof {
        assert(v@.take(v@.len() as int) =~= v@);
    }
    out
}

impl Indexer {
    /// Every reachable walk state keeps the invariant.
    pub open spec fn wf(self) -> bool {
        inv(self@)
    }

    /// Opens a pass: the directory table empty, the root directory —
    /// whose cluster must address the FAT — pending under the mount
    /// path plus a separator, and the budget set to the FAT's size,
    /// which no acyclic walk can exhaust. The mount path and the
    /// ignore-prefixes are carried as UTF-16 code units, the form the
    /// volume stores names in.
    pub fn new(
        geom: VolumeGeometry,
        fat: FatTable,
        mounted_at: &str,
        ignored_dirs: &Vec<String>,
    ) -> (r: Result<Indexer, ExfatError>)
        requires
            geom.wf(),
        ensures
            r matches Ok(ix) ==> {
                &&& ix.wf()
                &&& ix@.geom == geom
                &&& ix@.fat == fat@
                &&& ix@.files =~= Seq::<FileAbs>::empty()
                &&& ix@.dir_paths =~= Seq::<Seq<u16>>::empty()
                &&& ix@.pending =~= seq![
                    PendingAbs {
                        first_cluster: geom.root_dir_cluster,
                        size: 0,
                        contiguous: false,
                        path: utf16_units(mounted_at@) + seq![SEPARATOR_UNIT],
                        is_root: true,
                    },
                ]
                &&& ix@.visited =~= seq![geom.root_dir_cluster]
                &&& ix@.ignore.len() == ignored_dirs@.len()
                &&& forall|k: int|
                    0 <= k < ignored_dirs@.len() ==> ix@.ignore[k] == utf16_units(
                        #[trigger] ignored_dirs@[k]@,
                    )
                &&& ix@.label is None
                &&& ix@.budget == fat@.len()
            },
            r is Ok <==> 2 <= geom.root_dir_cluster < fat@.len(),
            r matches Err(e) ==> e == ExfatError::CorruptChain,
    {
        if geom.root_dir_cluster < 2 || !((geom.root_dir_cluster as usize) < fat.len()) {
            return Err(ExfatError::CorruptChain);
        }
        let budget: usize = fat.len();
        let mut path = encode_utf16_units(mounted_at);
        let ghost m0 = path@;
        path.push(SEPARATOR_UNIT);
        proof {
            assert(path@ =~= m0 + seq![SEPARATOR_UNIT]);
        }
        let mut ignore: Vec<Vec<u16>> = Vec::new();
        let mut i: usize = 0;
        while i < ignored_dirs.len()
            invariant
                i <= ignored_dirs@.len(),
                ignore.deep_view().len() == i,
                forall|k: int|
                    0 <= k < i ==> ignore.deep_view()[k] == utf16_units(
                        #[trigger] ignored_dirs@[k]@,
                    ),
            decreases ignored_dirs@.len() - i,
        {
            let u = encode_utf16_units(ignored_dirs[i].as_str());
            let ghost uv = u@;
            ignore.push(u);
            proof {
                assert(ignore.deep_view()[i as int] =~= uv);
            }
            i = i + 1;
        }
        let root = PendingDir {
            first_cluster: geom.root_dir_cluster,
            size: 0,
            contiguous: false,
            path,
            is_root: true,
        };
        let mut pending: Vec<PendingDir> = Vec::new();
        pending.push(root);
        let mut visited: Vec<u32> = Vec::new();
        visited.push(geom.root_dir_cluster);
        let ix = Indexer {
            geom,
            fat,
            files: Vec::new(),
            dir_paths: Vec::new(),
            pending,
            visited,
            ignore,
            label: None,
            budget,
        };
        proof {
            assert(ix@.pending =~= seq![
                PendingAbs {
                    first_cluster: geom.root_dir_cluster,
                    size: 0,
                    contiguous: false,
                    path: m0 + seq![SEPARATOR_UNIT],
                    is_root: true,
                },
            ]);
            assert(ix@.files =~= Seq::<FileAbs>::empty());
            assert(ix@.dir_paths =~= Seq::<Seq<u16>>::empty());
            assert(ix@.visited =~= seq![geom.root_dir_cluster]);
        }
        Ok(ix)
    }

    /// The walk has no directory left to scan.
    pub fn done(&self) -> (r: bool)
        ensures
            r == (self@.pending.len() == 0),
    {
        self.pending.len() == 0
    }

    /// Resolves the cluster list of one pending directory.
    fn resolve_top(&self, top: &PendingDir) -> (r: Result<Vec<u32>, ExfatError>)
        requires
            self@.geom.wf(),
        ensures
            r matches Ok(v) ==> pending_chain_spec(self@.fat, self@.geom.cluster_size, top@)
                == Ok::<Seq<u32>, ExfatError>(v@),
            r matches Err(e) ==> pending_chain_spec(self@.fat, self@.geom.cluster_size, top@)
                == Err::<Seq<u32>, ExfatError>(e),
    {
        if top.is_root {
            resolve_root_chain(&self.fat, top.first_cluster)
        } else if top.contiguous {
            resolve_contiguous(top.first_cluster, top.size, self.geom.cluster_size)
        } else {
            resolve_linked(&self.fat, top.first_cluster, top.size, self.geom.cluster_size)
        }
    }

    /// The byte ranges of the next pending directory: `cluster_size`
    /// bytes at each offset, concatenated, are what `step` expects.
    pub fn plan(&self) -> (r: Result<ReadPlan, ExfatError>)
        requires
            self.wf(),
            self@.pending.len() > 0,
        ensures
            r matches Ok(p) ==> plan_spec(self@) == Ok::<Seq<u64>, ExfatError>(p.offsets@)
                && p.cluster_size == self@.geom.cluster_size,
            r matches Err(e) ==> plan_spec(self@) == Err::<Seq<u64>, ExfatError>(e),
    {
        let top = &self.pending[self.pending.len() - 1];
        proof {
            assert(top@ == self@.pending.last());
        }
        let chain = match self.resolve_top(top) {
            Ok(c) => c,
            Err(e) => {
                return Err(e);
            },
        };
        let mut offsets: Vec<u64> = Vec::new();
        let mut i: usize = 0;
        proof {
            let r0 = chain_offsets(self@.geom, chain@);
            if r0 is Ok {
                assert(Seq::<u64>::empty() + r0->Ok_0 =~= r0->Ok_0);
            }
            assert(chain@.skip(0) =~= chain@);
        }
        while i < chain.len()
            invariant
                self@.geom.wf(),
                i <= chain@.len(),
                pending_chain_spec(self@.fat, self@.geom.cluster_size, self@.pending.last())
                    == Ok::<Seq<u32>, ExfatError>(chain@),
                self@.pending.len() > 0,
                prepend_offsets(offsets@, chain_offsets(self@.geom, chain@.skip(i as int)))
                    == chain_offsets(self@.geom, chain@),
            decreases chain@.len() - i,
        {
            let c = chain[i];
            let ghost rest0 = chain@.skip(i as int);
            proof {
                assert(rest0[0] == chain@[i as int]);
                assert(rest0.skip(1) =~= chain@.skip(i as int + 1));
            }
            if c < 2 {
                return Err(ExfatError::CorruptChain);
            }
            let off = self.geom.cluster_to_byte(c);
            let ghost before = offsets@;
            offsets.push(off);
            proof {
                let r1 = chain_offsets(self@.geom, chain@.skip(i as int + 1));
                if r1 is Ok {
                    assert(before + (seq![off] + r1->Ok_0) =~= offsets@ + r1->Ok_0);
                }
            }
            i = i + 1;
        }
        proof {
            assert(chain@.skip(chain@.len() as int) =~= Seq::<u32>::empty());
            assert(offsets@ + Seq::<u64>::empty() =~= offsets@);
        }
        Ok(ReadPlan { offsets, cluster_size: self.geom.cluster_size })
    }

    /// Consumes the byte content of the next pending directory — the
    /// concatenation of the ranges `plan` named — and advances the
    /// walk by one directory, exactly as `step_spec` says.
    pub fn step(&mut self, bytes: &Vec<u8>) -> (r: Result<(), ExfatError>)
        requires
            old(self).wf(),
            old(self)@.pending.len() > 0,
        ensures
            final(self).wf(),
            r is Ok <==> step_spec(old(self)@, bytes@) is Ok,
            r is Ok ==> final(self)@ == step_spec(old(self)@, bytes@)->Ok_0,
            r matches Err(e) ==> step_spec(old(self)@, bytes@) == Err::<IndexerAbs, ExfatError>(e),
    {
        let ghost s0 = self@;
        if self.budget == 0 {
            return Err(ExfatError::CycleDetected);
        }
        self.budget = self.budget - 1;
        if self.dir_paths.len() as u64 > u32::MAX as u64 {
            proof {
                lemma_inv_frame(s0, self@);
            }
            return Err(ExfatError::IndexOverflow);
        }
        let my_idx: u32 = self.dir_paths.len() as u32;
        let top = self.pending.pop().unwrap();
        let ghost topv = top@;
        proof {
            assert(topv == s0.pending.last());
            assert(self.pending.deep_view() =~= s0.pending.drop_last());
            lemma_inv_frame(s0, self@);
        }
        let chain = match self.resolve_top(&top) {
            Ok(c) => c,
            Err(e) => {
                return Err(e);
            },
        };
        let cs = self.geom.cluster_size;
        let blen: usize = bytes.len();
        let clen: usize = chain.len();
        proof {
            lemma_len_eq(blen as int, cs as int, clen as int);
        }
        if !((blen as u64) % cs == 0 && (blen as u64) / cs == clen as u64) {
            return Err(ExfatError::ShortRead);
        }
        let limit: usize = if top.is_root {
            blen
        } else {
            proof {
                lemma_count_nonneg(topv.size, cs);
                lemma_count_covers(topv.size, cs);
                let n = cluster_count(topv.size, cs);
                if !topv.contiguous {
                    lemma_linked_chain_shape(s0.fat, topv.first_cluster, n);
                }
                assert(chain@.len() == n);
                assert(topv.size <= n * cs);
                assert(n * cs == cs * n) by (nonlinear_arith);
            }
            top.size as usize
        };
        let out = match scan_directory(bytes, limit, my_idx, &top.path, &self.ignore, top.is_root) {
            Ok(o) => o,
            Err(e) => {
                return Err(e);
            },
        };
        let ghost sc = scan_spec(
            bytes@,
            limit as int,
            0,
            my_idx,
            topv.path,
            s0.ignore,
            topv.is_root,
        )->Ok_0;
        let ScanResult { files: mut new_files, label: new_label } = out;
        proof {
            assert(new_files.deep_view() =~= sc.files);
        }
        match new_label {
            Some(l) => {
                self.label = Some(l);
            },
            None => {},
        }
        let base = top.path;
        let base_copy = copy_units(&base);
        self.dir_paths.push(base_copy);
        let ghost dp1 = self.dir_paths.deep_view();
        proof {
            assert(dp1 =~~= s0.dir_paths.push(topv.path));
            assert(dp1.skip(dp1.len() as int) =~= Seq::<Seq<u16>>::empty());
            assert(dp1.take(dp1.len() as int) =~= dp1);
        }
        let ghost fat_len = s0.fat.len() as int;
        let ghost vis0 = self.visited@;
        let ghost wwhole = walk_children(sc.files, topv.path, cs, fat_len, vis0);
        let mut new_pend: Vec<PendingDir> = Vec::new();
        let mut i: usize = 0;
        proof {
            assert(sc.files.skip(0) =~= sc.files);
            if wwhole is Ok {
                assert(Seq::<PendingAbs>::empty() + wwhole->Ok_0.0 =~= wwhole->Ok_0.0);
                assert(Seq::<Seq<u16>>::empty() + wwhole->Ok_0.2 =~= wwhole->Ok_0.2);
            }
        }
        while i < new_files.len()
            invariant
                s0 == old(self)@,
                i <= new_files@.len(),
                cs == s0.geom.cluster_size,
                fat_len == s0.fat.len() as int,
                self.geom == s0.geom,
                self.fat@ == s0.fat,
                self.ignore.deep_view() == s0.ignore,
                self.files.deep_view() == s0.files,
                self.pending.deep_view() == s0.pending.drop_last(),
                self.budget as nat == (s0.budget - 1) as nat,
                opt_units_abs(self.label) == (if sc.label is Some {
                    sc.label
                } else {
                    s0.label
                }),
                new_files.deep_view() == sc.files,
                inv(s0),
                s0.geom.wf(),
                s0.pending.len() > 0,
                base@ == topv.path,
                dp1 == s0.dir_paths.push(topv.path),
                self.dir_paths.deep_view().len() >= dp1.len(),
                self.dir_paths.deep_view().take(dp1.len() as int) == dp1,
                wwhole == walk_children(sc.files, topv.path, cs, fat_len, vis0),
                wwhole is Err ==> step_spec(s0, bytes@) == Err::<IndexerAbs, ExfatError>(
                    wwhole->Err_0,
                ),
                wwhole is Ok ==> step_spec(s0, bytes@) is Ok,
                combine_children(
                    new_pend.deep_view(),
                    self.dir_paths.deep_view().skip(dp1.len() as int),
                    walk_children(
                        sc.files.skip(i as int),
                        topv.path,
                        cs,
                        fat_len,
                        self.visited@,
                    ),
                ) == wwhole,
            decreases new_files@.len() - i,
        {
            let ghost fi = sc.files[i as int];
            let ghost np_before = new_pend.deep_view();
            let ghost dirs_before = self.dir_paths.deep_view().skip(dp1.len() as int);
            let ghost wrest = walk_children(
                sc.files.skip(i as int),
                topv.path,
                cs,
                fat_len,
                self.visited@,
            );
            proof {
                assert(new_files.deep_view()[i as int] == new_files@[i as int]@);
                assert(sc.files.skip(i as int)[0] == fi);
                assert(sc.files.skip(i as int).skip(1) =~= sc.files.skip(i as int + 1));
            }
            let f_is_dir = new_files[i].is_dir;
            if f_is_dir {
                let full = build_path(&base, &new_files[i].name, true);
                if new_files[i].size == 0 {
                    let ghost fullv = full@;
                    self.dir_paths.push(full);
                    proof {
                        assert(fullv == full_path_of(topv.path, fi.name, true));
                        let wnext = walk_children(
                            sc.files.skip(i as int + 1),
                            topv.path,
                            cs,
                            fat_len,
                            self.visited@,
                        );
                        assert(self.dir_paths.deep_view().take(dp1.len() as int) =~~= dp1);
                        assert(self.dir_paths.deep_view().skip(dp1.len() as int) =~~= dirs_before.push(
                            full_path_of(topv.path, fi.name, true),
                        ));
                        if wnext is Ok {
                            assert(dirs_before.push(full_path_of(topv.path, fi.name, true))
                                + wnext->Ok_0.2 =~~= dirs_before + (seq![
                                full_path_of(topv.path, fi.name, true),
                            ] + wnext->Ok_0.2));
                        }
                    }
                } else {
                    let fc = new_files[i].first_cluster;
                    if fc < 2 || !((fc as usize) < self.fat.len()) {
                        proof {
                            assert(fc == fi.first_cluster);
                            assert(fi.is_dir && fi.size != 0);
                            assert(fi.first_cluster < 2 || fi.first_cluster >= fat_len);
                            assert(wrest == Err::<(Seq<PendingAbs>, Seq<u32>, Seq<Seq<u16>>),
                                ExfatError>(ExfatError::CorruptChain));
                            assert(wwhole == Err::<(Seq<PendingAbs>, Seq<u32>, Seq<Seq<u16>>),
                                ExfatError>(ExfatError::CorruptChain));
                            assert forall|t: int|
                                0 <= t < s0.dir_paths.len() implies self@.dir_paths[t]
                                == s0.dir_paths[t] by {
                                assert(self@.dir_paths[t] == self@.dir_paths.take(
                                    dp1.len() as int,
                                )[t]);
                                assert(dp1[t] == s0.dir_paths[t]);
                            }
                            lemma_inv_frame(s0, self@);
                        }
                        return Err(ExfatError::CorruptChain);
                    }
                    if contains_u32(&self.visited, fc) {
                        proof {
                            assert(fc == fi.first_cluster);
                            assert(fi.is_dir && fi.size != 0);
                            assert(!(fi.first_cluster < 2 || fi.first_cluster >= fat_len));
                            assert(self.visited@.contains(fi.first_cluster));
                            assert(wrest == Err::<(Seq<PendingAbs>, Seq<u32>, Seq<Seq<u16>>),
                                ExfatError>(ExfatError::CycleDetected));
                            assert(wwhole == Err::<(Seq<PendingAbs>, Seq<u32>, Seq<Seq<u16>>),
                                ExfatError>(ExfatError::CycleDetected));
                            assert forall|t: int|
                                0 <= t < s0.dir_paths.len() implies self@.dir_paths[t]
                                == s0.dir_paths[t] by {
                                assert(self@.dir_paths[t] == self@.dir_paths.take(
                                    dp1.len() as int,
                                )[t]);
                                assert(dp1[t] == s0.dir_paths[t]);
                            }
                            lemma_inv_frame(s0, self@);
                        }
                        return Err(ExfatError::CycleDetected);
                    }
                    self.visited.push(fc);
                    let pend = PendingDir {
                        first_cluster: fc,
                        size: new_files[i].size,
                        contiguous: new_files[i].contiguous,
                        path: full,
                        is_root: false,
                    };
                    new_pend.push(pend);
                    proof {
                        let pabs = PendingAbs {
                            first_cluster: fi.first_cluster,
                            size: fi.size,
                            contiguous: fi.contiguous,
                            path: full_path_of(topv.path, fi.name, true),
                            is_root: false,
                        };
                        assert(new_pend.deep_view() =~= np_before.push(pabs));
                        let wnext = walk_children(
                            sc.files.skip(i as int + 1),
                            topv.path,
                            cs,
                            fat_len,
                            self.visited@,
                        );
                        if wnext is Ok {
                            assert(np_before.push(pabs) + wnext->Ok_0.0 =~= np_before + (seq![pabs]
                                + wnext->Ok_0.0));
                        }
                    }
                }
            }
            i = i + 1;
        }
        proof {
            assert(sc.files.skip(new_files@.len() as int) =~= Seq::<FileAbs>::empty());
            let acc_dirs = self.dir_paths.deep_view().skip(dp1.len() as int);
            assert(new_pend.deep_view() + Seq::<PendingAbs>::empty() =~= new_pend.deep_view());
            assert(acc_dirs + Seq::<Seq<u16>>::empty() =~= acc_dirs);
            assert(wwhole == Ok::<(Seq<PendingAbs>, Seq<u32>, Seq<Seq<u16>>), ExfatError>(
                (new_pend.deep_view(), self.visited@, acc_dirs),
            ));
        }
        let ghost np_abs = new_pend.deep_view();
        let ghost vis_final = self.visited@;
        let ghost dp_final = self.dir_paths.deep_view();
        let ghost acc_dirs = dp_final.skip(dp1.len() as int);
        proof {
            assert(np_abs.skip(np_abs.len() as int).reverse() =~= Seq::<PendingAbs>::empty());
            assert(s0.pending.drop_last() + Seq::<PendingAbs>::empty() =~= s0.pending.drop_last());
        }
        while new_pend.len() > 0
            invariant
                new_pend.deep_view() == np_abs.take(new_pend@.len() as int),
                new_pend@.len() <= np_abs.len(),
                self.pending.deep_view() == s0.pending.drop_last() + np_abs.skip(
                    new_pend@.len() as int,
                ).reverse(),
                self.geom == s0.geom,
                self.fat@ == s0.fat,
                self.ignore.deep_view() == s0.ignore,
                self.files.deep_view() == s0.files,
                self.budget as nat == (s0.budget - 1) as nat,
                opt_units_abs(self.label) == (if sc.label is Some {
                    sc.label
                } else {
                    s0.label
                }),
                self.visited@ == vis_final,
                self.dir_paths.deep_view() == dp_final,
            decreases new_pend@.len(),
        {
            let ghost m = new_pend@.len() as int;
            let ghost pend_before = self.pending.deep_view();
            let ghost np_before = new_pend.deep_view();
            let p = new_pend.pop().unwrap();
            let ghost pv = p@;
            self.pending.push(p);
            proof {
                assert(np_before[m - 1] == np_abs.take(m)[m - 1]);
                assert(pv == np_abs[m - 1]);
                assert(new_pend.deep_view() =~= np_abs.take(m - 1));
                assert(self.pending.deep_view() =~= pend_before.push(pv));
                assert(np_abs.skip(m - 1) =~= seq![np_abs[m - 1]] + np_abs.skip(m));
                assert(np_abs.skip(m - 1).reverse() =~= np_abs.skip(m).reverse().push(
                    np_abs[m - 1],
                ));
                assert(pend_before.push(pv) =~= s0.pending.drop_last() + np_abs.skip(
                    m - 1,
                ).reverse());
            }
        }
        let ghost pend_final = self.pending.deep_view();
        proof {
            assert(np_abs.skip(0) =~= np_abs);
            assert(pend_final == s0.pending.drop_last() + np_abs.reverse());
        }
        let ghost nf_total = sc.files.len() as int;
        proof {
            assert(s0.files + sc.files.take(0) =~= s0.files);
        }
        while new_files.len() > 0
            invariant
                new_files@.len() <= nf_total,
                nf_total == sc.files.len() as int,
                self.files.deep_view() == s0.files + sc.files.take(nf_total - new_files@.len()),
                new_files.deep_view() == sc.files.skip(nf_total - new_files@.len()),
                self.geom == s0.geom,
                self.fat@ == s0.fat,
                self.ignore.deep_view() == s0.ignore,
                self.budget as nat == (s0.budget - 1) as nat,
                opt_units_abs(self.label) == (if sc.label is Some {
                    sc.label
                } else {
                    s0.label
                }),
                self.visited@ == vis_final,
                self.dir_paths.deep_view() == dp_final,
                self.pending.deep_view() == pend_final,
            decreases new_files@.len(),
        {
            let ghost k = nf_total - new_files@.len();
            let ghost files_before = self.files.deep_view();
            let ghost nf_before = new_files.deep_view();
            let f = new_files.remove(0);
            let ghost fv = f@;
            self.files.push(f);
            proof {
                assert(fv == nf_before[0]);
                assert(nf_before[0] == sc.files[k]);
                assert(new_files.deep_view() =~= nf_before.skip(1));
                assert(nf_before.skip(1) =~= sc.files.skip(k + 1));
                assert(self.files.deep_view() =~= files_before.push(fv));
                assert(files_before.push(sc.files[k]) =~= s0.files + sc.files.take(k + 1));
            }
        }
        proof {
            assert(sc.files.take(nf_total) =~= sc.files);
            // The state now is exactly what `step_spec` names.
            let target = step_spec(s0, bytes@);
            assert(target is Ok);
            let t = target->Ok_0;
            assert(self@.files == t.files);
            assert(self@.dir_paths == t.dir_paths);
            assert(self@.pending == t.pending);
            assert(self@.visited == t.visited);
            assert(self@.label == t.label);
            assert(self@.budget == t.budget);
            assert(self@ == t);
            // The invariant: old records are untouched and the new
            // ones carry valid parents and unignored paths.
            lemma_scan_files_shape(
                bytes@,
                limit as int,
                0,
                my_idx,
                topv.path,
                s0.ignore,
                topv.is_root,
            );
            assert forall|i: int| 0 <= i < self@.files.len() implies (
            #[trigger] self@.files[i]).parent < self@.dir_paths.len() by {
                if i < s0.files.len() {
                    assert(self@.files[i] == s0.files[i]);
                    assert(s0.files[i].parent < s0.dir_paths.len());
                    assert(self@.dir_paths.len() >= s0.dir_paths.len());
                } else {
                    assert(self@.files[i] == sc.files[i - s0.files.len()]);
                    assert(sc.files[i - s0.files.len()].parent == my_idx);
                }
            }
            assert forall|i: int| 0 <= i < self@.files.len() implies !is_ignored(
                #[trigger] file_path_in(self@, i),
                self@.ignore,
            ) by {
                if i < s0.files.len() {
                    assert(self@.files[i] == s0.files[i]);
                    assert(self@.dir_paths[self@.files[i].parent as int] == s0.dir_paths[s0.files[i].parent as int]);
                    assert(file_path_in(self@, i) == file_path_in(s0, i));
                } else {
                    let f = sc.files[i - s0.files.len()];
                    assert(self@.files[i] == f);
                    assert(self@.dir_paths[my_idx as int] == topv.path);
                    assert(file_path_in(self@, i) == full_path_of(topv.path, f.name, f.is_dir));
                }
            }
            lemma_walk_children_shape(sc.files, topv.path, cs, fat_len, vis0, s0.ignore);
            assert forall|i: int| 0 <= i < self@.pending.len() implies ((
            #[trigger] self@.pending[i]).is_root || !is_ignored(
                self@.pending[i].path,
                self@.ignore,
            )) by {
                if i < s0.pending.len() - 1 {
                    assert(self@.pending[i] == s0.pending[i]);
                } else {
                    let k = np_abs.len() - 1 - (i - (s0.pending.len() - 1));
                    assert(self@.pending[i] == np_abs.reverse()[i - (s0.pending.len() - 1)]);
                    assert(np_abs.reverse()[i - (s0.pending.len() - 1)] == np_abs[k]);
                }
            }
        }
        Ok(())
    }
}


/// The concatenated content of one cluster each at the given offsets;
/// an offset whose cluster would pass the device extent is fatal.
pub open spec fn gather_spec(volume: Seq<u8>, offsets: Seq<u64>, cluster_size: u64) -> Result<
    Seq<u8>,
    ExfatError,
>
    decreases offsets.len(),
{
    if offsets.len() == 0 {
        Ok(Seq::empty())
    } else if offsets[0] + cluster_size > volume.len() {
        Err(ExfatError::AddressOutOfRange)
    } else {
        match gather_spec(volume, offsets.skip(1), cluster_size) {
            Err(e) => Err(e),
            Ok(rest) => Ok(
                volume.subrange(offsets[0] as int, offsets[0] + cluster_size) + rest,
            ),
        }
    }
}

/// Prefixes already-gathered content onto the rest; an error swallows
/// it.
pub open spec fn prepend_gathered(s: Seq<u8>, r: Result<Seq<u8>, ExfatError>) -> Result<
    Seq<u8>,
    ExfatError,
> {
    match r {
        Ok(rest) => Ok(s + rest),
        Err(e) => Err(e),
    }
}

/// The state a pass opens with: no records, the root pending under
/// the mount path plus a separator, its cluster claimed, and the
/// budget set to the FAT's size.
pub open spec fn init_abs(
    geom: VolumeGeometry,
    fat: Seq<u32>,
    mounted_at: Seq<char>,
    ignored: Seq<Seq<char>>,
) -> IndexerAbs {
    IndexerAbs {
        geom,
        fat,
        files: Seq::empty(),
        dir_paths: Seq::empty(),
        pending: seq![
            PendingAbs {
                first_cluster: geom.root_dir_cluster,
                size: 0,
                contiguous: false,
                path: utf16_units(mounted_at) + seq![SEPARATOR_UNIT],
                is_root: true,
            },
        ],
        visited: seq![geom.root_dir_cluster],
        ignore: ignored.map_values(|p: Seq<char>| utf16_units(p)),
        label: None,
        budget: fat.len(),
    }
}

/// The whole tree walk over an in-memory volume, one directory per
/// step, until nothing is pending: each step reads the ranges `plan`
/// names out of the volume and consumes them. The budget comparison
/// only bounds the recursion; a successful step always spends budget,
/// so that arm is never taken.
pub open spec fn walk_all(s: IndexerAbs, volume: Seq<u8>) -> Result<IndexerAbs, ExfatError>
    decreases s.budget,
{
    if s.pending.len() == 0 {
        Ok(s)
    } else {
        match plan_spec(s) {
            Err(e) => Err(e),
            Ok(offs) => match gather_spec(volume, offs, s.geom.cluster_size) {
                Err(e) => Err(e),
                Ok(bytes) => match step_spec(s, bytes) {
                    Err(e) => Err(e),
                    Ok(s2) => if s2.budget < s.budget {
                        walk_all(s2, volume)
                    } else {
                        Err(ExfatError::CycleDetected)
                    },
                },
            },
        }
    }
}

/// A successful step always spends one unit of budget, so the walk
/// never takes its budget-exhaustion arm.
pub proof fn lemma_step_spends_budget(s: IndexerAbs, bytes: Seq<u8>)
    requires
        step_spec(s, bytes) is Ok,
    ensures
        step_spec(s, bytes)->Ok_0.budget < s.budget,
{
}

/// One whole indexing pass over an in-memory volume, before the
/// caller-facing conversion: reads the geometry out of the first
/// sector, the FAT out of its byte range, demands a root cluster that
/// addresses the FAT, and walks the tree to the end.
pub open spec fn pass_spec(
    volume: Seq<u8>,
    mounted_at: Seq<char>,
    ignored: Seq<Seq<char>>,
) -> Result<IndexerAbs, ExfatError> {
    if volume.len() < 512 {
        Err(ExfatError::ShortRead)
    } else if !has_exfat_name(volume) {
        Err(ExfatError::FilesystemNameMismatch)
    } else if !has_boot_signature(volume) {
        Err(ExfatError::BootSignatureMismatch)
    } else if !shifts_in_range(volume) {
        Err(ExfatError::GeometryOutOfRange)
    } else {
        let geom = geometry_of(volume);
        if geom.fat_byte_offset > volume.len() || geom.fat_byte_length > volume.len()
            - geom.fat_byte_offset {
            Err(ExfatError::ShortRead)
        } else {
            let fat = fat_entries_of(
                volume.subrange(
                    geom.fat_byte_offset as int,
                    geom.fat_byte_offset + geom.fat_byte_length,
                ),
            );
            if !(2 <= geom.root_dir_cluster < fat.len()) {
                Err(ExfatError::CorruptChain)
            } else {
                walk_all(init_abs(geom, fat, mounted_at, ignored), volume)
            }
        }
    }
}

/// No descriptor of a reachable walk state lies under a path that
/// matches an ignore-prefix: a directory matching an ignore-prefix
/// contributes zero descendant descriptors at any depth, since every
/// descendant's fully qualified path would extend the directory's.
pub proof fn lemma_ignored_subtrees_empty(s: IndexerAbs, p: Seq<u16>, k: int)
    requires
        inv(s),
        0 <= k < s.ignore.len(),
        is_prefix_of(s.ignore[k], p),
    ensures
        forall|i: int|
            0 <= i < s.files.len() ==> !is_prefix_of(p, #[trigger] file_path_in(s, i)),
{
    assert forall|i: int| 0 <= i < s.files.len() implies !is_prefix_of(
        p,
        #[trigger] file_path_in(s, i),
    ) by {
        if is_prefix_of(p, file_path_in(s, i)) {
            lemma_prefix_transitive(s.ignore[k], p, file_path_in(s, i));
            assert(is_ignored(file_path_in(s, i), s.ignore));
        }
    }
}

/// Converts one decoded descriptor to the caller's record, shifting
/// its directory index by the caller's table offset and decoding the
/// UTF-16 name.
pub fn from_exfat_files_to_files(f: &ExFatFile, idx: u32) -> (r: File)
    requires
        f@.parent + idx <= u32::MAX,
    ensures
        r.name@ == utf16_chars(f@.name),
        r.parent == f@.parent + idx,
        r.size == f@.size,
        r.is_dir == f@.is_dir,
        r.create_timestamp == f@.create_timestamp,
        r.last_modified_timestamp == f@.last_modified_timestamp,
        r.first_cluster == f@.first_cluster,
        r.contiguous == f@.contiguous,
{
    File {
        name: decode_utf16_units(&f.name),
        parent: f.parent + idx,
        size: f.size,
        is_dir: f.is_dir,
        create_timestamp: f.create_timestamp,
        last_modified_timestamp: f.last_modified_timestamp,
        first_cluster: f.first_cluster,
        contiguous: f.contiguous,
    }
}

/// Appends `len` bytes of `src` starting at `start` onto `dst`.
fn append_range(dst: &mut Vec<u8>, src: &Vec<u8>, start: usize, len: usize)
    requires
        start + len <= src@.len(),
    ensures
        final(dst)@ == old(dst)@ + src@.subrange(start as int, start as int + len),
{
    let _n: usize = src.len();
    let mut i: usize = 0;
    while i < len
        invariant
            start + len <= src@.len(),
            src@.len() <= usize::MAX,
            i <= len,
            dst@ == old(dst)@ + src@.subrange(start as int, start as int + i),
        decreases len - i,
    {
        dst.push(src[start + i]);
        proof {
            assert(dst@ =~= old(dst)@ + src@.subrange(start as int, start as int + i + 1));
        }
        i = i + 1;
    }
}

impl Indexer {
    /// Hands the finished tree out: every descriptor's directory
    /// index shifted by the caller's table offset `idx`, names and
    /// table paths decoded from their UTF-16 units. Fails only where
    /// the shift would overflow an index.
    pub fn finish(self, idx: u32) -> (r: Result<(Vec<File>, Vec<Directory>), ExfatError>)
        requires
            self.wf(),
        ensures
            r is Ok <==> self@.dir_paths.len() + idx <= u32::MAX + 1,
            r matches Err(e) ==> e == ExfatError::IndexOverflow,
            r matches Ok(out) ==> {
                &&& out.0@.len() == self@.files.len()
                &&& forall|i: int|
                    0 <= i < out.0@.len() ==> {
                        let f = #[trigger] out.0@[i];
                        &&& f.name@ == utf16_chars(self@.files[i].name)
                        &&& f.parent == self@.files[i].parent + idx
                        &&& f.size == self@.files[i].size
                        &&& f.is_dir == self@.files[i].is_dir
                        &&& f.create_timestamp == self@.files[i].create_timestamp
                        &&& f.last_modified_timestamp == self@.files[i].last_modified_timestamp
                        &&& f.first_cluster == self@.files[i].first_cluster
                        &&& f.contiguous == self@.files[i].contiguous
                    }
                &&& out.1@.len() == self@.dir_paths.len()
                &&& forall|i: int|
                    0 <= i < out.1@.len() ==> (#[trigger] out.1@[i]).name@ == utf16_chars(
                        self@.dir_paths[i],
                    )
            },
    {
        let ghost s = self@;
        if self.dir_paths.len() as u64 > u32::MAX as u64 + 1 - idx as u64 {
            return Err(ExfatError::IndexOverflow);
        }
        let mut out_files: Vec<File> = Vec::new();
        let mut i: usize = 0;
        while i < self.files.len()
            invariant
                s == self@,
                self.wf(),
                self@.dir_paths.len() + idx <= u32::MAX + 1,
                i <= self@.files.len(),
                out_files@.len() == i,
                forall|j: int|
                    0 <= j < i ==> {
                        let f = #[trigger] out_files@[j];
                        &&& f.name@ == utf16_chars(s.files[j].name)
                        &&& f.parent == s.files[j].parent + idx
                        &&& f.size == s.files[j].size
                        &&& f.is_dir == s.files[j].is_dir
                        &&& f.create_timestamp == s.files[j].create_timestamp
                        &&& f.last_modified_timestamp == s.files[j].last_modified_timestamp
                        &&& f.first_cluster == s.files[j].first_cluster
                        &&& f.contiguous == s.files[j].contiguous
                    },
            decreases self@.files.len() - i,
        {
            proof {
                assert(self@.files[i as int].parent < self@.dir_paths.len());
            }
            let f = from_exfat_files_to_files(&self.files[i], idx);
            out_files.push(f);
            i = i + 1;
        }
        let mut out_dirs: Vec<Directory> = Vec::new();
        let mut i: usize = 0;
        while i < self.dir_paths.len()
            invariant
                s == self@,
                i <= self@.dir_paths.len(),
                out_dirs@.len() == i,
                forall|j: int|
                    0 <= j < i ==> (#[trigger] out_dirs@[j]).name@ == utf16_chars(s.dir_paths[j]),
            decreases self@.dir_paths.len() - i,
        {
            let name = decode_utf16_units(&self.dir_paths[i]);
            proof {
                assert(self.dir_paths@[i as int]@ =~= s.dir_paths[i as int]);
            }
            out_dirs.push(Directory { name });
            i = i + 1;
        }
        Ok((out_files, out_dirs))
    }
}

/// Decodes one whole exFAT volume held in memory: parses the boot
/// sector and the FAT out of it, then walks the directory tree from
/// the root, reading each directory's clusters out of the same
/// buffer — exactly the pass `pass_spec` describes. Returns the
/// descriptor list — directory indexes shifted by `idx`, the caller's
/// table offset — and the directory table, whose first entry is the
/// mount path; fails, beyond the pass's own errors, only where that
/// shift would overflow an index.
#[verifier::rlimit(100)]
pub fn index(volume: &Vec<u8>, mounted_at: String, ignored_dirs: Vec<String>, idx: u32) -> (r:
    Result<(Vec<File>, Vec<Directory>), ExfatError>)
    ensures
        ({
            let p = pass_spec(volume@, mounted_at@, ignored_dirs.deep_view());
            &&& (r is Ok <==> (p is Ok && p->Ok_0.dir_paths.len() + idx <= u32::MAX + 1))
            &&& (r matches Err(e) ==> (p == Err::<IndexerAbs, ExfatError>(e) || (p is Ok && e
                == ExfatError::IndexOverflow)))
            &&& (r matches Ok(out) ==> {
                let fin = p->Ok_0;
                &&& out.0@.len() == fin.files.len()
                &&& (forall|i: int|
                    0 <= i < out.0@.len() ==> {
                        let f = #[trigger] out.0@[i];
                        &&& f.name@ == utf16_chars(fin.files[i].name)
                        &&& f.parent == fin.files[i].parent + idx
                        &&& f.size == fin.files[i].size
                        &&& f.is_dir == fin.files[i].is_dir
                        &&& f.create_timestamp == fin.files[i].create_timestamp
                        &&& f.last_modified_timestamp == fin.files[i].last_modified_timestamp
                        &&& f.first_cluster == fin.files[i].first_cluster
                        &&& f.contiguous == fin.files[i].contiguous
                    })
                &&& out.1@.len() == fin.dir_paths.len()
                &&& (forall|i: int|
                    0 <= i < out.1@.len() ==> (#[trigger] out.1@[i]).name@ == utf16_chars(
                        fin.dir_paths[i],
                    ))
                &&& out.1@.len() >= 1
                &&& out.1@[0].name@ == utf16_chars(
                    utf16_units(mounted_at@) + seq![SEPARATOR_UNIT],
                )
                &&& (forall|i: int|
                    0 <= i < out.0@.len() ==> idx <= (#[trigger] out.0@[i]).parent < idx
                        + out.1@.len())
            })
        }),
{
    let ghost gignored = ignored_dirs.deep_view();
    let geom = match parse_boot_sector(volume) {
        Ok(g) => g,
        Err(e) => {
            return Err(e);
        },
    };
    let vlen: usize = volume.len();
    if geom.fat_byte_offset > vlen as u64 || geom.fat_byte_length > vlen as u64
        - geom.fat_byte_offset {
        return Err(ExfatError::ShortRead);
    }
    let mut fat_bytes: Vec<u8> = Vec::new();
    append_range(&mut fat_bytes, volume, geom.fat_byte_offset as usize, geom.fat_byte_length as usize);
    proof {
        assert(fat_bytes@ =~= volume@.subrange(
            geom.fat_byte_offset as int,
            geom.fat_byte_offset + geom.fat_byte_length,
        ));
    }
    let fat = FatTable::parse(&fat_bytes);
    let ghost rootu = utf16_units(mounted_at@) + seq![SEPARATOR_UNIT];
    let mut ix = match Indexer::new(geom, fat, mounted_at.as_str(), &ignored_dirs) {
        Ok(ix) => ix,
        Err(e) => {
            return Err(e);
        },
    };
    let ghost pinit = init_abs(
        geometry_of(volume@),
        fat_entries_of(
            volume@.subrange(
                geom.fat_byte_offset as int,
                geom.fat_byte_offset + geom.fat_byte_length,
            ),
        ),
        mounted_at@,
        gignored,
    );
    proof {
        assert(ix@.ignore =~= gignored.map_values(|p: Seq<char>| utf16_units(p)));
        assert(ix@.files =~= pinit.files);
        assert(ix@.dir_paths =~= pinit.dir_paths);
        assert(ix@.pending =~= pinit.pending);
        assert(ix@.visited =~= pinit.visited);
        assert(ix@ == pinit);
    }
    let ghost whole_pass = pass_spec(volume@, mounted_at@, gignored);
    proof {
        assert(whole_pass == walk_all(pinit, volume@));
    }
    while !ix.done()
        invariant
            vlen == volume@.len(),
            gignored == ignored_dirs.deep_view(),
            ix.wf(),
            whole_pass == pass_spec(volume@, mounted_at@, gignored),
            whole_pass == walk_all(ix@, volume@),
            (ix@.dir_paths.len() == 0 && ix@.pending.len() == 1 && ix@.pending[0].path == rootu)
                || (ix@.dir_paths.len() >= 1 && ix@.dir_paths[0] == rootu),
        decreases ix@.budget,
    {
        let p = match ix.plan() {
            Ok(p) => p,
            Err(e) => {
                return Err(e);
            },
        };
        let mut bytes: Vec<u8> = Vec::new();
        let ghost cs = ix@.geom.cluster_size;
        proof {
            assert(p.offsets@.skip(0) =~= p.offsets@);
            let g0 = gather_spec(volume@, p.offsets@, cs);
            if g0 is Ok {
                assert(Seq::<u8>::empty() + g0->Ok_0 =~= g0->Ok_0);
            }
        }
        let mut i: usize = 0;
        while i < p.offsets.len()
            invariant
                i <= p.offsets@.len(),
                p.cluster_size == cs,
                cs == ix@.geom.cluster_size,
                vlen == volume@.len(),
                ix@.pending.len() > 0,
                gignored == ignored_dirs.deep_view(),
                plan_spec(ix@) == Ok::<Seq<u64>, ExfatError>(p.offsets@),
                whole_pass == pass_spec(volume@, mounted_at@, gignored),
                whole_pass == walk_all(ix@, volume@),
                prepend_gathered(bytes@, gather_spec(volume@, p.offsets@.skip(i as int), cs))
                    == gather_spec(volume@, p.offsets@, cs),
            decreases p.offsets@.len() - i,
        {
            let off = p.offsets[i];
            let ghost rest0 = p.offsets@.skip(i as int);
            proof {
                assert(rest0[0] == p.offsets@[i as int]);
                assert(rest0.skip(1) =~= p.offsets@.skip(i as int + 1));
            }
            if off > vlen as u64 || p.cluster_size > vlen as u64 - off {
                proof {
                    assert(off + cs > volume@.len());
                    assert(gather_spec(volume@, rest0, cs) == Err::<Seq<u8>, ExfatError>(
                        ExfatError::AddressOutOfRange,
                    ));
                    assert(gather_spec(volume@, p.offsets@, cs) == Err::<Seq<u8>, ExfatError>(
                        ExfatError::AddressOutOfRange,
                    ));
                    assert(walk_all(ix@, volume@) == Err::<IndexerAbs, ExfatError>(
                        ExfatError::AddressOutOfRange,
                    ));
                }
                return Err(ExfatError::AddressOutOfRange);
            }
            let ghost before = bytes@;
            append_range(&mut bytes, volume, off as usize, p.cluster_size as usize);
            proof {
                let r1 = gather_spec(volume@, p.offsets@.skip(i as int + 1), cs);
                if r1 is Ok {
                    assert(before + (volume@.subrange(off as int, off + cs) + r1->Ok_0) =~= bytes@
                        + r1->Ok_0);
                }
            }
            i = i + 1;
        }
        proof {
            assert(p.offsets@.skip(p.offsets@.len() as int) =~= Seq::<u64>::empty());
            assert(bytes@ + Seq::<u8>::empty() =~= bytes@);
            assert(gather_spec(volume@, p.offsets@, cs) == Ok::<Seq<u8>, ExfatError>(bytes@));
        }
        let ghost before = ix@;
        match ix.step(&bytes) {
            Ok(()) => {
                proof {
                    lemma_step_spends_budget(before, bytes@);
                    let t = step_spec(before, bytes@)->Ok_0;
                    assert(ix@ == t);
                    if before.dir_paths.len() == 0 {
                        assert(before.pending.last() == before.pending[0]);
                        assert(t.dir_paths[0] == before.pending[0].path);
                    } else {
                        assert(t.dir_paths[0] == before.dir_paths.push(
                            before.pending.last().path,
                        )[0]);
                    }
                }
            },
            Err(e) => {
                return Err(e);
            },
        }
    }
    proof {
        assert(walk_all(ix@, volume@) == Ok::<IndexerAbs, ExfatError>(ix@));
        assert(whole_pass == Ok::<IndexerAbs, ExfatError>(ix@));
        assert forall|i: int| 0 <= i < ix@.files.len() implies (#[trigger] ix@.files[i]).parent
            < ix@.dir_paths.len() by {}
    }
    ix.finish(idx)
}

} // verus!
