//! Directory entry scanner: divides one directory's content into
//! fixed 32-byte slots, classifies each by its type tag, and
//! assembles multi-slot File / Stream-Extension / Filename-Extension
//! sets into file descriptors.

use vstd::prelude::*;
use crate::lebytes::{le16_at, le32_at, le64_at, read_le16, read_le32, read_le64};
use crate::model::ExfatError;
use crate::timestamp::bytes_to_time_spec;
use crate::timestamp::bytes_to_time;

verus! {

/// Entry-type tag: end of directory.
pub const TAG_END_OF_DIRECTORY: u8 = 0x00;

/// Entry-type tag: volume label.
pub const TAG_VOLUME_LABEL: u8 = 0x83;

/// Entry-type tag: primary file entry, opening a multi-slot set.
pub const TAG_FILE: u8 = 0x85;

/// Entry-type tag: stream-extension slot of a file entry set.
pub const TAG_STREAM_EXTENSION: u8 = 0xC0;

/// Entry-type tag: filename-extension slot of a file entry set.
pub const TAG_FILENAME_EXTENSION: u8 = 0xC1;

/// The UTF-16 unit of the path separator.
pub const SEPARATOR_UNIT: u16 = 0x2F;

/// One reconstructed member of a directory, still in the decoder's
/// own terms: the name as UTF-16 code units, the owning directory as
/// an index, timestamps as epoch seconds with 0 for "unknown".
#[derive(Debug, Clone, PartialEq)]
pub struct ExFatFile {
    pub name: Vec<u16>,
    pub parent: u32,
    pub size: u64,
    pub is_dir: bool,
    pub create_timestamp: i64,
    pub last_modified_timestamp: i64,
    pub first_cluster: u32,
    pub contiguous: bool,
}

/// The mathematical shadow of `ExFatFile`: the same fields with the
/// name as a sequence.
pub struct FileAbs {
    pub name: Seq<u16>,
    pub parent: u32,
    pub size: u64,
    pub is_dir: bool,
    pub create_timestamp: i64,
    pub last_modified_timestamp: i64,
    pub first_cluster: u32,
    pub contiguous: bool,
}

impl View for ExFatFile {
    type V = FileAbs;

    open spec fn view(&self) -> FileAbs {
        FileAbs {
            name: self.name@,
            parent: self.parent,
            size: self.size,
            is_dir: self.is_dir,
            create_timestamp: self.create_timestamp,
            last_modified_timestamp: self.last_modified_timestamp,
            first_cluster: self.first_cluster,
            contiguous: self.contiguous,
        }
    }
}

impl DeepView for ExFatFile {
    type V = FileAbs;

    open spec fn deep_view(&self) -> FileAbs {
        self@
    }
}

/// `p` is a prefix of `s`.
pub open spec fn is_prefix_of(p: Seq<u16>, s: Seq<u16>) -> bool {
    p.len() <= s.len() && s.take(p.len() as int) == p
}

/// Some ignore-prefix is a prefix of `path`.
pub open spec fn is_ignored(path: Seq<u16>, ignore: Seq<Seq<u16>>) -> bool {
    exists|k: int| 0 <= k < ignore.len() && is_prefix_of(#[trigger] ignore[k], path)
}

/// A path with a given prefix keeps every longer prefix relation:
/// whatever is a prefix of `p` is a prefix of anything `p` is a
/// prefix of. An ignored directory therefore shadows its whole
/// subtree.
pub proof fn lemma_prefix_transitive(a: Seq<u16>, b: Seq<u16>, c: Seq<u16>)
    requires
        is_prefix_of(a, b),
        is_prefix_of(b, c),
    ensures
        is_prefix_of(a, c),
{
    assert(c.take(a.len() as int) =~= b.take(a.len() as int));
}

/// `p` is a prefix of `s`.
pub fn starts_with_units(s: &Vec<u16>, p: &Vec<u16>) -> (r: bool)
    ensures
        r == is_prefix_of(p@, s@),
{
    if p.len() > s.len() {
        return false;
    }
    let mut i: usize = 0;
    while i < p.len()
        invariant
            i <= p@.len() <= s@.len(),
            forall|k: int| 0 <= k < i ==> s@[k] == p@[k],
        decreases p@.len() - i,
    {
        if s[i] != p[i] {
            proof {
                if is_prefix_of(p@, s@) {
                    assert(s@.take(p@.len() as int)[i as int] == s@[i as int]);
                }
            }
            return false;
        }
        i = i + 1;
    }
    proof {
        assert(s@.take(p@.len() as int) =~= p@);
    }
    true
}

/// Some ignore-prefix is a prefix of `path`.
pub fn path_ignored(path: &Vec<u16>, ignore: &Vec<Vec<u16>>) -> (r: bool)
    ensures
        r == is_ignored(path@, ignore.deep_view()),
{
    let mut k: usize = 0;
    while k < ignore.len()
        invariant
            k <= ignore@.len(),
            forall|t: int| 0 <= t < k ==> !is_prefix_of(#[trigger] ignore.deep_view()[t], path@),
        decreases ignore@.len() - k,
    {
        let hit = starts_with_units(path, &ignore[k]);
        proof {
            assert(ignore.deep_view()[k as int] == ignore@[k as int]@);
        }
        if hit {
            return true;
        }
        k = k + 1;
    }
    false
}

/// Byte offset, inside an entry set, of the `j`-th UTF-16 unit of the
/// name: 15 units per filename-extension slot, the first of which is
/// the third slot of the set, each unit two bytes past the one before
/// except across a slot boundary, where the slot's 2-byte header is
/// skipped.
pub open spec fn name_unit_pos(j: int) -> int {
    66 + 32 * (j / 15) + 2 * (j % 15)
}

/// The name unit offsets skip every filename slot's 2-byte header:
/// each lies at least two bytes into its 32-byte slot, and two units
/// are adjacent except across a boundary, where four bytes separate
/// them.
pub proof fn lemma_name_unit_positions(j: int)
    requires
        j >= 0,
    ensures
        name_unit_pos(j) % 32 == 2 + 2 * (j % 15),
        name_unit_pos(j) % 32 >= 2,
        j % 15 < 14 ==> name_unit_pos(j + 1) == name_unit_pos(j) + 2,
        j % 15 == 14 ==> name_unit_pos(j + 1) == name_unit_pos(j) + 4,
{
    let q = j / 15;
    let m = j % 15;
    assert(j == 15 * q + m && 0 <= m < 15 && q >= 0) by (nonlinear_arith)
        requires
            j >= 0,
            q == j / 15,
            m == j % 15,
    ;
    assert(name_unit_pos(j) == 66 + 32 * q + 2 * m);
    assert((66 + 32 * q + 2 * m) % 32 == 2 + 2 * m) by (nonlinear_arith)
        requires
            q >= 0,
            0 <= m < 15,
    ;
    if m < 14 {
        assert((j + 1) / 15 == q && (j + 1) % 15 == m + 1) by (nonlinear_arith)
            requires
                j == 15 * q + m,
                0 <= m < 14,
                q >= 0,
        ;
    } else {
        assert((j + 1) / 15 == q + 1 && (j + 1) % 15 == 0) by (nonlinear_arith)
            requires
                j == 15 * q + m,
                m == 14,
                q >= 0,
        ;
    }
}

/// A name that fits its set's filename slots has every unit inside
/// the set.
proof fn lemma_name_pos_bounds(j: int, n: int)
    requires
        0 <= j,
        2 <= n,
        j < 15 * (n - 1),
    ensures
        66 <= name_unit_pos(j),
        name_unit_pos(j) + 2 <= 32 * (n + 1),
{
    let q = j / 15;
    let m = j % 15;
    assert(j == 15 * q + m && 0 <= m < 15 && 0 <= q && q <= n - 2) by (nonlinear_arith)
        requires
            0 <= j,
            2 <= n,
            j < 15 * (n - 1),
            q == j / 15,
            m == j % 15,
    ;
    assert(32 * q <= 32 * (n - 2)) by (nonlinear_arith)
        requires
            q <= n - 2,
    ;
}

/// The descriptor one well-shaped entry set at `pos` describes: the
/// attribute's directory bit, both packed timestamps decoded, and —
/// from the stream-extension slot — name length, first cluster,
/// 64-bit size and the no-FAT-chain contiguity flag, with the name
/// collected from the filename slots.
pub open spec fn set_file_abs(bytes: Seq<u8>, pos: int, parent: u32) -> FileAbs {
    FileAbs {
        name: Seq::new(
            bytes[pos + 35] as nat,
            |j: int| le16_at(bytes, pos + name_unit_pos(j)),
        ),
        parent,
        size: le64_at(bytes, pos + 56),
        is_dir: bytes[pos + 4] & 0x10 == 0x10,
        create_timestamp: bytes_to_time_spec(
            bytes[pos + 8],
            bytes[pos + 9],
            bytes[pos + 10],
            bytes[pos + 11],
            bytes[pos + 20],
            bytes[pos + 23],
        ) as i64,
        last_modified_timestamp: bytes_to_time_spec(
            bytes[pos + 12],
            bytes[pos + 13],
            bytes[pos + 14],
            bytes[pos + 15],
            bytes[pos + 21],
            bytes[pos + 24],
        ) as i64,
        first_cluster: le32_at(bytes, pos + 52),
        contiguous: bytes[pos + 33] & 0x02 == 0x02,
    }
}

/// The entry set opening at `pos` has the declared shape: at least a
/// stream-extension slot among its secondaries, the whole set inside
/// the scanned range, a stream-extension tag right after the primary
/// slot, filename-extension tags on the rest, and a name that fits
/// those filename slots.
pub open spec fn set_ok(bytes: Seq<u8>, pos: int, limit: int) -> bool {
    let n = bytes[pos + 1] as int;
    &&& n >= 2
    &&& pos + 32 * (n + 1) <= limit
    &&& bytes[pos + 32] == TAG_STREAM_EXTENSION
    &&& forall|k: int| 2 <= k <= n ==> #[trigger] bytes[pos + 32 * k] == TAG_FILENAME_EXTENSION
    &&& bytes[pos + 35] <= 15 * (n - 1)
}

/// A descriptor's fully qualified path: the owning directory's path,
/// the decoded name, and a trailing separator exactly for
/// directories.
pub open spec fn full_path_of(parent_path: Seq<u16>, name: Seq<u16>, is_dir: bool) -> Seq<u16> {
    parent_path + name + if is_dir {
        seq![SEPARATOR_UNIT]
    } else {
        Seq::<u16>::empty()
    }
}

/// What scanning one directory's content yields, in mathematical
/// terms: the descriptors in slot order and the volume label of the
/// last label entry, if any.
pub struct ScanAbs {
    pub files: Seq<FileAbs>,
    pub label: Option<Seq<u16>>,
}

/// What scanning one directory's content yields: the descriptors in
/// slot order and the volume label of the last label entry, if any.
#[derive(Debug, PartialEq)]
pub struct ScanResult {
    pub files: Vec<ExFatFile>,
    pub label: Option<Vec<u16>>,
}

/// The mathematical shadow of a scan result.
pub open spec fn scan_result_abs(out: ScanResult) -> ScanAbs {
    ScanAbs {
        files: out.files@.map_values(|f: ExFatFile| f@),
        label: match out.label {
            Some(l) => Some(l@),
            None => None,
        },
    }
}

/// The outcome of a scan of `bytes[pos..limit]`, slot by slot: stops
/// at the first end-of-directory tag or at `limit`; decodes volume
/// labels with a count of at most 11; on a primary file tag demands a
/// well-shaped set and collects its descriptor unless its full path
/// matches an ignore-prefix, in which case the descriptor is dropped
/// — and, outside the root, the rest of the scan abandoned; ignores
/// any other tag.
pub open spec fn scan_spec(
    bytes: Seq<u8>,
    limit: int,
    pos: int,
    parent: u32,
    parent_path: Seq<u16>,
    ignore: Seq<Seq<u16>>,
    is_root: bool,
) -> Result<ScanAbs, ExfatError>
    decreases limit - pos,
{
    if pos < 0 || pos + 32 > limit {
        Ok(ScanAbs { files: Seq::empty(), label: None })
    } else {
        let tag = bytes[pos];
        if tag == TAG_END_OF_DIRECTORY {
            Ok(ScanAbs { files: Seq::empty(), label: None })
        } else if tag == TAG_VOLUME_LABEL {
            let cnt = bytes[pos + 1];
            if cnt > 11 {
                Err(ExfatError::StructuralMismatch)
            } else {
                let label = Seq::new(cnt as nat, |j: int| le16_at(bytes, pos + 2 + 2 * j));
                match scan_spec(bytes, limit, pos + 32, parent, parent_path, ignore, is_root) {
                    Err(e) => Err(e),
                    Ok(rest) => Ok(
                        ScanAbs {
                            files: rest.files,
                            label: if rest.label is Some {
                                rest.label
                            } else {
                                Some(label)
                            },
                        },
                    ),
                }
            }
        } else if tag == TAG_FILE {
            if !set_ok(bytes, pos, limit) {
                Err(ExfatError::StructuralMismatch)
            } else {
                let f = set_file_abs(bytes, pos, parent);
                let ignored = is_ignored(full_path_of(parent_path, f.name, f.is_dir), ignore);
                let next_pos = pos + 32 * (bytes[pos + 1] as int + 1);
                if ignored && !is_root {
                    Ok(ScanAbs { files: Seq::empty(), label: None })
                } else {
                    match scan_spec(bytes, limit, next_pos, parent, parent_path, ignore, is_root) {
                        Err(e) => Err(e),
                        Ok(rest) => Ok(
                            if ignored {
                                rest
                            } else {
                                ScanAbs { files: seq![f] + rest.files, label: rest.label }
                            },
                        ),
                    }
                }
            }
        } else {
            scan_spec(bytes, limit, pos + 32, parent, parent_path, ignore, is_root)
        }
    }
}

/// Every descriptor a successful scan yields carries the scan's
/// parent index, and its fully qualified path matches no
/// ignore-prefix: ignored entries are dropped at the door.
pub proof fn lemma_scan_files_shape(
    bytes: Seq<u8>,
    limit: int,
    pos: int,
    parent: u32,
    parent_path: Seq<u16>,
    ignore: Seq<Seq<u16>>,
    is_root: bool,
)
    requires
        scan_spec(bytes, limit, pos, parent, parent_path, ignore, is_root) is Ok,
    ensures
        forall|i: int|
            0 <= i < scan_spec(bytes, limit, pos, parent, parent_path, ignore, is_root)
                ->Ok_0.files.len() ==> {
                let f = #[trigger] scan_spec(
                    bytes,
                    limit,
                    pos,
                    parent,
                    parent_path,
                    ignore,
                    is_root,
                )->Ok_0.files[i];
                f.parent == parent && !is_ignored(
                    full_path_of(parent_path, f.name, f.is_dir),
                    ignore,
                )
            },
    decreases limit - pos,
{
    if pos < 0 || pos + 32 > limit {
    } else {
        let tag = bytes[pos];
        if tag == TAG_END_OF_DIRECTORY {
        } else if tag == TAG_VOLUME_LABEL {
            let cnt = bytes[pos + 1];
            if cnt <= 11 {
                lemma_scan_files_shape(bytes, limit, pos + 32, parent, parent_path, ignore, is_root);
            }
        } else if tag == TAG_FILE {
            let f = set_file_abs(bytes, pos, parent);
            let ignored = is_ignored(full_path_of(parent_path, f.name, f.is_dir), ignore);
            let next_pos = pos + 32 * (bytes[pos + 1] as int + 1);
            if ignored && !is_root {
            } else {
                lemma_scan_files_shape(bytes, limit, next_pos, parent, parent_path, ignore, is_root);
            }
        } else {
            lemma_scan_files_shape(bytes, limit, pos + 32, parent, parent_path, ignore, is_root);
        }
    }
}

/// Splices descriptors and a label already scanned in front of the
/// outcome of the rest of the scan; an error swallows them.
pub open spec fn scan_combine(
    fs: Seq<FileAbs>,
    lab: Option<Seq<u16>>,
    r: Result<ScanAbs, ExfatError>,
) -> Result<ScanAbs, ExfatError> {
    match r {
        Err(e) => Err(e),
        Ok(rest) => Ok(
            ScanAbs {
                files: fs + rest.files,
                label: if rest.label is Some {
                    rest.label
                } else {
                    lab
                },
            },
        ),
    }
}

/// The mathematical shadow of an optional label.
pub open spec fn opt_units_abs(l: Option<Vec<u16>>) -> Option<Seq<u16>> {
    match l {
        Some(v) => Some(v@),
        None => None,
    }
}

/// The label units of a volume-label slot at `pos`.
fn read_label(bytes: &Vec<u8>, pos: usize, cnt: u8) -> (r: Vec<u16>)
    requires
        cnt <= 11,
        pos + 32 <= bytes@.len(),
    ensures
        r@ == Seq::new(cnt as nat, |j: int| le16_at(bytes@, pos + 2 + 2 * j)),
{
    let _n: usize = bytes.len();
    let mut lab: Vec<u16> = Vec::new();
    let mut k: usize = 0;
    while k < cnt as usize
        invariant
            cnt <= 11,
            k <= cnt as usize,
            pos + 32 <= bytes@.len(),
            bytes@.len() <= usize::MAX,
            lab@.len() == k,
            forall|j: int| 0 <= j < k ==> lab@[j] == le16_at(bytes@, pos + 2 + 2 * j),
        decreases cnt as usize - k,
    {
        let u = read_le16(bytes, pos + 2 + 2 * k);
        lab.push(u);
        k = k + 1;
    }
    proof {
        assert(lab@ =~= Seq::new(cnt as nat, |j: int| le16_at(bytes@, pos + 2 + 2 * j)));
    }
    lab
}

/// Checks the declared shape of the entry set opening at `pos`.
fn check_set(bytes: &Vec<u8>, limit: usize, pos: usize) -> (r: bool)
    requires
        limit <= bytes@.len(),
        pos + 32 <= limit,
    ensures
        r == set_ok(bytes@, pos as int, limit as int),
{
    let _n: usize = bytes.len();
    let n = bytes[pos + 1];
    if n < 2 {
        return false;
    }
    let set_len: usize = 32 * (n as usize + 1);
    if set_len > limit - pos {
        return false;
    }
    if bytes[pos + 32] != TAG_STREAM_EXTENSION {
        return false;
    }
    let mut k: usize = 2;
    let mut tags_ok = true;
    while k <= n as usize
        invariant
            2 <= k <= n as usize + 1,
            n >= 2,
            pos + 32 * (n as usize + 1) <= limit <= bytes@.len(),
            tags_ok == (forall|t: int|
                2 <= t < k ==> #[trigger] bytes@[pos + 32 * t] == TAG_FILENAME_EXTENSION),
        decreases n as usize + 1 - k,
    {
        if bytes[pos + 32 * k] != TAG_FILENAME_EXTENSION {
            tags_ok = false;
        }
        k = k + 1;
    }
    if !tags_ok {
        return false;
    }
    let n_len = bytes[pos + 35];
    if n_len as usize > 15 * (n as usize - 1) {
        return false;
    }
    true
}

/// Builds a fully qualified path: owning directory's path, name, and
/// a trailing separator exactly for directories.
pub fn build_path(base: &Vec<u16>, name: &Vec<u16>, is_dir: bool) -> (r: Vec<u16>)
    ensures
        r@ == full_path_of(base@, name@, is_dir),
{
    let mut full: Vec<u16> = Vec::new();
    let mut t: usize = 0;
    while t < base.len()
        invariant
            t <= base@.len(),
            full@ == base@.take(t as int),
        decreases base@.len() - t,
    {
        full.push(base[t]);
        proof {
            assert(full@ =~= base@.take(t + 1));
        }
        t = t + 1;
    }
    let mut t: usize = 0;
    while t < name.len()
        invariant
            t <= name@.len(),
            full@ == base@.take(base@.len() as int) + name@.take(t as int),
        decreases name@.len() - t,
    {
        full.push(name[t]);
        proof {
            assert(full@ =~= base@.take(base@.len() as int) + name@.take(t + 1));
        }
        t = t + 1;
    }
    if is_dir {
        full.push(SEPARATOR_UNIT);
    }
    proof {
        assert(base@.take(base@.len() as int) =~= base@);
        assert(name@.take(name@.len() as int) =~= name@);
        assert(full@ =~= full_path_of(base@, name@, is_dir));
    }
    full
}

/// Decodes the descriptor of the well-shaped entry set at `pos`,
/// along with its fully qualified path and whether that path matches
/// an ignore-prefix.
fn parse_file_set(
    bytes: &Vec<u8>,
    limit: usize,
    pos: usize,
    parent: u32,
    parent_path: &Vec<u16>,
    ignore: &Vec<Vec<u16>>,
) -> (r: (ExFatFile, bool))
    requires
        limit <= bytes@.len(),
        pos + 32 <= limit,
        set_ok(bytes@, pos as int, limit as int),
    ensures
        r.0@ == set_file_abs(bytes@, pos as int, parent),
        r.1 == is_ignored(
            full_path_of(
                parent_path@,
                set_file_abs(bytes@, pos as int, parent).name,
                set_file_abs(bytes@, pos as int, parent).is_dir,
            ),
            ignore.deep_view(),
        ),
{
    let _b: usize = bytes.len();
    let n = bytes[pos + 1];
    let n_len = bytes[pos + 35];
    let attr = bytes[pos + 4];
    let is_dir = attr & 0x10 == 0x10;
    let created = bytes_to_time(
        bytes[pos + 8],
        bytes[pos + 9],
        bytes[pos + 10],
        bytes[pos + 11],
        bytes[pos + 20],
        bytes[pos + 23],
    );
    let modified = bytes_to_time(
        bytes[pos + 12],
        bytes[pos + 13],
        bytes[pos + 14],
        bytes[pos + 15],
        bytes[pos + 21],
        bytes[pos + 24],
    );
    let first_cluster = read_le32(bytes, pos + 52);
    let size = read_le64(bytes, pos + 56);
    let contiguous = bytes[pos + 33] & 0x02 == 0x02;
    let mut name: Vec<u16> = Vec::new();
    let mut j: usize = 0;
    while j < n_len as usize
        invariant
            j <= n_len as usize,
            n >= 2,
            n == bytes@[pos + 1],
            n_len == bytes@[pos + 35],
            n_len as usize <= 15 * (n as usize - 1),
            pos + 32 * (n as usize + 1) <= limit <= bytes@.len(),
            name@.len() == j,
            forall|jj: int| 0 <= jj < j ==> name@[jj] == le16_at(bytes@, pos + name_unit_pos(jj)),
        decreases n_len as usize - j,
    {
        proof {
            lemma_name_pos_bounds(j as int, n as int);
        }
        let p: usize = pos + 66 + 32 * (j / 15) + 2 * (j % 15);
        let u = read_le16(bytes, p);
        name.push(u);
        j = j + 1;
    }
    let ghost fabs = set_file_abs(bytes@, pos as int, parent);
    proof {
        assert(name@ =~= fabs.name);
    }
    let full = build_path(parent_path, &name, is_dir);
    proof {
        assert(full@ == full_path_of(parent_path@, fabs.name, fabs.is_dir));
    }
    let ignored = path_ignored(&full, ignore);
    let file = ExFatFile {
        name,
        parent,
        size,
        is_dir,
        create_timestamp: created,
        last_modified_timestamp: modified,
        first_cluster,
        contiguous,
    };
    proof {
        assert(file@ == fabs);
    }
    (file, ignored)
}

/// Scans one directory's content, divided into 32-byte slots, up to
/// `limit` bytes of it. Descriptors get `parent` as their owning
/// directory; a descriptor whose fully qualified path — built on
/// `parent_path` — matches an ignore-prefix is dropped, and outside
/// the root stops the scan.
pub fn scan_directory(
    bytes: &Vec<u8>,
    limit: usize,
    parent: u32,
    parent_path: &Vec<u16>,
    ignore: &Vec<Vec<u16>>,
    is_root: bool,
) -> (r: Result<ScanResult, ExfatError>)
    requires
        limit <= bytes@.len(),
    ensures
        r matches Ok(out) ==> scan_spec(
            bytes@,
            limit as int,
            0,
            parent,
            parent_path@,
            ignore.deep_view(),
            is_root,
        ) == Ok::<ScanAbs, ExfatError>(scan_result_abs(out)),
        r matches Err(e) ==> scan_spec(
            bytes@,
            limit as int,
            0,
            parent,
            parent_path@,
            ignore.deep_view(),
            is_root,
        ) == Err::<ScanAbs, ExfatError>(e),
{
    let ghost whole = scan_spec(
        bytes@,
        limit as int,
        0,
        parent,
        parent_path@,
        ignore.deep_view(),
        is_root,
    );
    let mut files: Vec<ExFatFile> = Vec::new();
    let mut label: Option<Vec<u16>> = None;
    let mut pos: usize = 0;
    proof {
        let r0 = scan_spec(
            bytes@,
            limit as int,
            0,
            parent,
            parent_path@,
            ignore.deep_view(),
            is_root,
        );
        if r0 is Ok {
            assert(files@.map_values(|f: ExFatFile| f@) + r0->Ok_0.files =~= r0->Ok_0.files);
        }
    }
    while pos < limit && limit - pos >= 32
        invariant
            limit <= bytes@.len(),
            pos <= limit,
            whole == scan_spec(
                bytes@,
                limit as int,
                0,
                parent,
                parent_path@,
                ignore.deep_view(),
                is_root,
            ),
            scan_combine(
                files@.map_values(|f: ExFatFile| f@),
                opt_units_abs(label),
                scan_spec(
                    bytes@,
                    limit as int,
                    pos as int,
                    parent,
                    parent_path@,
                    ignore.deep_view(),
                    is_root,
                ),
            ) == whole,
        decreases limit - pos,
    {
        let ghost fs_before = files@.map_values(|f: ExFatFile| f@);
        let ghost lab_before = opt_units_abs(label);
        let ghost here = scan_spec(
            bytes@,
            limit as int,
            pos as int,
            parent,
            parent_path@,
            ignore.deep_view(),
            is_root,
        );
        let tag = bytes[pos];
        if tag == TAG_END_OF_DIRECTORY {
            proof {
                assert(fs_before + Seq::<FileAbs>::empty() =~= fs_before);
            }
            return Ok(ScanResult { files, label });
        } else if tag == TAG_VOLUME_LABEL {
            let cnt = bytes[pos + 1];
            if cnt > 11 {
                return Err(ExfatError::StructuralMismatch);
            }
            let lab = read_label(bytes, pos, cnt);
            label = Some(lab);
            pos = pos + 32;
            proof {
                let rest = scan_spec(
                    bytes@,
                    limit as int,
                    pos as int,
                    parent,
                    parent_path@,
                    ignore.deep_view(),
                    is_root,
                );
                if rest is Ok {
                    assert(scan_combine(fs_before, opt_units_abs(label), rest) == scan_combine(
                        fs_before,
                        lab_before,
                        here,
                    ));
                }
            }
        } else if tag == TAG_FILE {
            if !check_set(bytes, limit, pos) {
                return Err(ExfatError::StructuralMismatch);
            }
            let (file, ignored) = parse_file_set(bytes, limit, pos, parent, parent_path, ignore);
            let ghost fabs = set_file_abs(bytes@, pos as int, parent);
            let n = bytes[pos + 1];
            if ignored && !is_root {
                proof {
                    assert(fs_before + Seq::<FileAbs>::empty() =~= fs_before);
                }
                return Ok(ScanResult { files, label });
            }
            if !ignored {
                files.push(file);
                proof {
                    assert(files@.map_values(|f: ExFatFile| f@) =~= fs_before.push(fabs));
                }
            }
            pos = pos + 32 * (n as usize + 1);
            proof {
                let rest = scan_spec(
                    bytes@,
                    limit as int,
                    pos as int,
                    parent,
                    parent_path@,
                    ignore.deep_view(),
                    is_root,
                );
                if rest is Ok {
                    if !ignored {
                        assert(fs_before.push(fabs) + rest->Ok_0.files =~= fs_before + (seq![fabs]
                            + rest->Ok_0.files));
                    }
                }
            }
        } else {
            pos = pos + 32;
        }
    }
    proof {
        assert(files@.map_values(|f: ExFatFile| f@) + Seq::<FileAbs>::empty() =~= files@.map_values(
            |f: ExFatFile| f@,
        ));
    }
    Ok(ScanResult { files, label })
}

} // verus!
