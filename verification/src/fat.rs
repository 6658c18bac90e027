//! FAT32 reader/writer over a [`BlockDevice`].
//!
//! 8.3 short names only: long-filename entries are skipped on read and never
//! written. The volume label, `.` and `..` are left out of listings. Every
//! FAT update is mirrored to all FAT copies, and the FsInfo sector's
//! free-cluster summary is kept up to date.

use vstd::prelude::*;
use crate::block::{BlockDevice, BLOCK_SIZE, block_of, with_block};
use crate::path::{views, segments, strings_view, chars_of, path_segments, strings_of, string_of, trim_trailing_slashes, canonical_prefix,
    no_slash, lemma_segments_trim, lemma_segments_child};
use crate::vfs::FsError;
use crate::clusters::{lemma_frame_trans, lemma_frame_refl, lemma_frame_widen, chunk};
use crate::dirscan::{record, delete_target, free_record};

verus! {

pub const ATTR_READ_ONLY: u8 = 0x01;
pub const ATTR_HIDDEN: u8 = 0x02;
pub const ATTR_SYSTEM: u8 = 0x04;
pub const ATTR_VOLUME_ID: u8 = 0x08;
pub const ATTR_DIRECTORY: u8 = 0x10;
pub const ATTR_LONG_NAME: u8 = 0x0F;

pub const EOC_THRESHOLD: u32 = 0x0FFFFFF8;
pub const CLUSTER_MASK: u32 = 0x0FFFFFFF;

/// The parameters of a mounted FAT32 volume, read from its boot sector.
pub struct FatFs {
    pub bytes_per_sector: u32,
    pub sectors_per_cluster: u32,
    pub reserved_sectors: u32,
    pub num_fats: u32,
    pub sectors_per_fat: u32,
    pub root_cluster: u32,
    pub fat_start_lba: u32,
    pub data_start_lba: u32,
}

/// A decoded 32-byte short-name directory entry.
pub struct DirEntry {
    pub name: Vec<char>,
    pub is_dir: bool,
    pub cluster: u32,
    pub size: u32,
}

pub struct DirEntryView {
    pub name: Seq<char>,
    pub is_dir: bool,
    pub cluster: u32,
    pub size: u32,
}

impl DirEntry {
    pub open spec fn view(&self) -> DirEntryView {
        DirEntryView { name: self.name@, is_dir: self.is_dir, cluster: self.cluster, size: self.size }
    }
}

pub open spec fn entries_view(v: Seq<DirEntry>) -> Seq<DirEntryView> {
    v.map_values(|e: DirEntry| e.view())
}

// ---------------------------------------------------------------------------
// Byte-level encoding
// ---------------------------------------------------------------------------

/// The little-endian 16-bit value at `b[i..i + 2]`.
pub open spec fn le16(b: Seq<u8>, i: int) -> int {
    b[i] + 256 * b[i + 1]
}

/// The little-endian 32-bit value at `b[i..i + 4]`.
pub open spec fn le32(b: Seq<u8>, i: int) -> int {
    b[i] + 256 * b[i + 1] + 65536 * b[i + 2] + 16777216 * b[i + 3]
}

/// The four little-endian bytes of `v`.
pub open spec fn le32_bytes(v: u32) -> Seq<u8> {
    seq![(v % 256) as u8, ((v / 256) % 256) as u8, ((v / 65536) % 256) as u8, (v / 16777216) as u8]
}

/// The parameters stored in a boot sector, if it describes a volume this
/// driver can use: 512-byte sectors, and at least one sector per cluster
/// and one FAT.
pub open spec fn parse_bpb(s: Seq<u8>) -> Option<FatFs> {
    let bps = le16(s, 0x0B);
    let spc = s[0x0D] as int;
    let reserved = le16(s, 0x0E);
    let nfats = s[0x10] as int;
    let spf = le32(s, 0x24);
    let root = le32(s, 0x2C);
    if bps != 512 || spc == 0 || nfats == 0 || reserved + nfats * spf > u32::MAX {
        None
    } else {
        Some(
            FatFs {
                bytes_per_sector: bps as u32,
                sectors_per_cluster: spc as u32,
                reserved_sectors: reserved as u32,
                num_fats: nfats as u32,
                sectors_per_fat: spf as u32,
                root_cluster: root as u32,
                fat_start_lba: reserved as u32,
                data_start_lba: (reserved + nfats * spf) as u32,
            },
        )
    }
}

/// `b` up to (not including) its first space byte.
pub open spec fn until_space(b: Seq<u8>) -> Seq<u8>
    decreases b.len(),
{
    if b.len() == 0 {
        b
    } else if b[0] == 0x20 {
        Seq::empty()
    } else {
        seq![b[0]] + until_space(b.drop_first())
    }
}

/// The character of byte `b`, with ASCII capitals lowered.
pub open spec fn lower_byte(b: u8) -> char {
    if 0x41 <= b <= 0x5A {
        ((b + 32) as u8) as char
    } else {
        b as char
    }
}

pub open spec fn lower_bytes(b: Seq<u8>) -> Seq<char> {
    b.map_values(|x: u8| lower_byte(x))
}

/// The 8.3 name of an entry: the base name and extension up to their
/// padding, joined by `.` when there is an extension, in lower case.
pub open spec fn decode_name(e: Seq<u8>) -> Seq<char> {
    let n = lower_bytes(until_space(e.subrange(0, 8)));
    let x = lower_bytes(until_space(e.subrange(8, 11)));
    if x.len() > 0 {
        n + seq!['.'] + x
    } else {
        n
    }
}

/// Entries skipped when reading a directory: deleted, long-name and
/// volume-label entries.
pub open spec fn skipped_entry(e: Seq<u8>) -> bool {
    e[0] == 0xE5 || e[11] & 0x0F == 0x0F || e[11] & 0x08 != 0
}

/// The entry a 32-byte record describes.
pub open spec fn parse_entry(e: Seq<u8>) -> DirEntryView {
    DirEntryView {
        name: decode_name(e),
        is_dir: e[11] & 0x10 != 0,
        cluster: (le16(e, 20) * 65536 + le16(e, 26)) as u32,
        size: le32(e, 28) as u32,
    }
}

/// The entries listed by the directory bytes `b`: 32-byte records up to the
/// first record starting with a zero byte, leaving out skipped records and
/// `.` / `..`.
pub open spec fn parse_dir(b: Seq<u8>) -> Seq<DirEntryView>
    decreases b.len(),
{
    if b.len() < 32 {
        Seq::empty()
    } else {
        let e = b.take(32);
        if e[0] == 0 {
            Seq::empty()
        } else if skipped_entry(e) || decode_name(e) == seq!['.'] || decode_name(e) == seq!['.', '.'] {
            parse_dir(b.skip(32))
        } else {
            seq![parse_entry(e)] + parse_dir(b.skip(32))
        }
    }
}

pub open spec fn ascii_lower(c: char) -> char {
    if 'A' <= c <= 'Z' {
        ((c as u32) + 32) as char
    } else {
        c
    }
}

/// Equal up to ASCII case.
pub open spec fn eq_ignore_case(a: Seq<char>, b: Seq<char>) -> bool {
    a.len() == b.len() && forall|i: int| 0 <= i < a.len() ==> ascii_lower(a[i]) == ascii_lower(b[i])
}

// ---------------------------------------------------------------------------
// Volume layout
// ---------------------------------------------------------------------------

impl FatFs {
    /// The volume parameters are those [`parse_bpb`] accepts.
    pub open spec fn wf(&self) -> bool {
        &&& self.bytes_per_sector == 512
        &&& 0 < self.sectors_per_cluster <= 255
        &&& 0 < self.num_fats <= 255
        &&& self.fat_start_lba == self.reserved_sectors
        &&& self.data_start_lba == self.reserved_sectors + self.num_fats * self.sectors_per_fat
    }

    pub open spec fn cluster_bytes(&self) -> nat {
        self.sectors_per_cluster as nat * 512
    }

    /// The first sector of cluster `c`.
    pub open spec fn cluster_lba(&self, c: int) -> int {
        self.data_start_lba + (c - 2) * self.sectors_per_cluster
    }

    /// The number of entries the FAT holds.
    pub open spec fn fat_entries(&self) -> nat {
        self.sectors_per_fat as nat * 128
    }

    /// The byte offset of FAT entry `c` in FAT copy `i`.
    pub open spec fn fat_entry_pos(&self, i: int, c: int) -> int {
        (self.fat_start_lba + i * self.sectors_per_fat) * 512 + 4 * c
    }

    /// Whether all of cluster `c` lies on a disk of `len` bytes.
    pub open spec fn cluster_on_disk(&self, c: int, len: nat) -> bool {
        (self.cluster_lba(c) + self.sectors_per_cluster) * 512 <= len
    }

    /// The bytes of cluster `c`.
    pub open spec fn cluster_data(&self, disk: Seq<u8>, c: int) -> Seq<u8> {
        disk.subrange(self.cluster_lba(c) * 512, self.cluster_lba(c) * 512 + self.cluster_bytes())
    }

    /// Whether FAT entry `c` (first copy) lies on a disk of `len` bytes.
    pub open spec fn fat_entry_on_disk(&self, c: int, len: nat) -> bool {
        (self.fat_start_lba + (4 * c) / 512 + 1) * 512 <= len
    }

    /// The next-cluster link stored in FAT entry `c` (first copy).
    pub open spec fn fat_entry(&self, disk: Seq<u8>, c: int) -> int {
        le32(disk, self.fat_entry_pos(0, c)) % 0x10000000
    }

    /// The bytes of the cluster chain from `c`, cluster by cluster, stopping
    /// at an end-of-chain link or once at least `max` bytes are read. `None`
    /// if the chain runs off the disk or is longer than `fuel` clusters.
    pub open spec fn chain_bytes(&self, disk: Seq<u8>, c: int, max: int, fuel: nat) -> Option<Seq<u8>>
        decreases fuel,
    {
        if !(2 <= c < 0x0FFFFFF8) {
            Some(Seq::empty())
        } else if fuel == 0 || !self.cluster_on_disk(c, disk.len()) {
            None
        } else {
            let d = self.cluster_data(disk, c);
            if d.len() >= max {
                Some(d)
            } else if !self.fat_entry_on_disk(c, disk.len()) {
                None
            } else {
                match self.chain_bytes(disk, self.fat_entry(disk, c), max - d.len(), (fuel - 1) as nat) {
                    Some(r) => Some(d + r),
                    None => None,
                }
            }
        }
    }

    /// The whole chain from `c`, bounded by the number of FAT entries.
    pub open spec fn chain_all(&self, disk: Seq<u8>, c: int) -> Option<Seq<u8>> {
        self.chain_bytes(disk, c, usize::MAX as int, self.fat_entries())
    }

    /// The entries of the directory whose chain starts at `c`.
    pub open spec fn dir_entries(&self, disk: Seq<u8>, c: int) -> Option<Seq<DirEntryView>> {
        match self.chain_all(disk, c) {
            Some(b) => Some(parse_dir(b)),
            None => None,
        }
    }
}


/// `out` followed by the bytes `r` gives, if any.
pub open spec fn prepend(out: Seq<u8>, r: Option<Seq<u8>>) -> Option<Seq<u8>> {
    match r {
        Some(x) => Some(out + x),
        None => None,
    }
}

/// The first entry of `es` named `name` (up to ASCII case).
pub open spec fn find_named(es: Seq<DirEntryView>, name: Seq<char>) -> Option<DirEntryView>
    decreases es.len(),
{
    if es.len() == 0 {
        None
    } else if eq_ignore_case(es[0].name, name) {
        Some(es[0])
    } else {
        find_named(es.drop_first(), name)
    }
}

pub open spec fn root_entry(fs: FatFs) -> DirEntryView {
    DirEntryView { name: seq!['/'], is_dir: true, cluster: fs.root_cluster, size: 0 }
}

pub open spec fn is_root_path(abs: Seq<char>) -> bool {
    abs.len() == 0 || abs == seq!['/']
}

impl FatFs {
    /// Looking up the entry for the segments `segs`, directory by directory
    /// from the root directory. Finding nothing for no segment is
    /// `NotFound`; an unreadable directory chain is `Io`.
    pub open spec fn walk_segs(&self, disk: Seq<u8>, segs: Seq<Seq<char>>) -> Result<DirEntryView, FsError>
        decreases segs.len(),
    {
        if segs.len() == 0 {
            Err(FsError::NotFound)
        } else {
            let dir: Result<u32, FsError> = if segs.len() == 1 {
                Ok(self.root_cluster)
            } else {
                match self.walk_segs(disk, segs.drop_last()) {
                    Err(e) => Err(e),
                    Ok(f) => if f.is_dir {
                        Ok(f.cluster)
                    } else {
                        Err(FsError::NotADir)
                    },
                }
            };
            match dir {
                Err(e) => Err(e),
                Ok(c) => match self.dir_entries(disk, c as int) {
                    None => Err(FsError::Io),
                    Some(es) => match find_named(es, segs.last()) {
                        Some(e) => Ok(e),
                        None => Err(FsError::NotFound),
                    },
                },
            }
        }
    }

    /// The entry for the absolute path `abs` (the root for `/` or `""`).
    pub open spec fn spec_lookup(&self, disk: Seq<u8>, abs: Seq<char>) -> Result<DirEntryView, FsError> {
        if is_root_path(abs) {
            Ok(root_entry(*self))
        } else {
            self.walk_segs(disk, segments(abs))
        }
    }

    /// The contents of the file at `abs`: its chain, cut to the size in its
    /// entry.
    pub open spec fn spec_read_file(&self, disk: Seq<u8>, abs: Seq<char>) -> Result<Seq<u8>, FsError> {
        match self.spec_lookup(disk, abs) {
            Err(e) => Err(e),
            Ok(e) => if e.is_dir {
                Err(FsError::IsADir)
            } else if e.size == 0 || e.cluster < 2 {
                Ok(Seq::empty())
            } else {
                match self.chain_bytes(disk, e.cluster as int, e.size as int, self.fat_entries()) {
                    None => Err(FsError::Io),
                    Some(b) => Ok(
                        if b.len() > e.size {
                            b.take(e.size as int)
                        } else {
                            b
                        },
                    ),
                }
            },
        }
    }

    /// The names in the directory at `abs`, in directory order.
    pub open spec fn spec_list_dir(&self, disk: Seq<u8>, abs: Seq<char>) -> Result<Seq<Seq<char>>, FsError> {
        match self.spec_lookup(disk, abs) {
            Err(e) => Err(e),
            Ok(e) => if !e.is_dir {
                Err(FsError::NotADir)
            } else {
                let c = if abs == seq!['/'] {
                    self.root_cluster
                } else {
                    e.cluster
                };
                match self.dir_entries(disk, c as int) {
                    None => Err(FsError::Io),
                    Some(es) => Ok(es.map_values(|x: DirEntryView| x.name)),
                }
            },
        }
    }

    pub open spec fn spec_is_dir(&self, disk: Seq<u8>, abs: Seq<char>) -> bool {
        match self.spec_lookup(disk, abs) {
            Ok(e) => e.is_dir,
            Err(_) => false,
        }
    }

    /// The lookup of `abs` when its parent is a directory (`None` when `abs`
    /// has no parent and name, or the parent is not a directory).
    pub open spec fn child_lookup(&self, disk: Seq<u8>, abs: Seq<char>) -> Option<Result<DirEntryView, FsError>> {
        match spec_split_parent(abs) {
            Some((p, n)) => if self.spec_is_dir(disk, p) {
                Some(self.spec_lookup(disk, abs))
            } else {
                None
            },
            None => None,
        }
    }
}

// ---------------------------------------------------------------------------
// Executable helpers
// ---------------------------------------------------------------------------

fn le16_at(b: &[u8], i: usize) -> (r: u32)
    requires
        i + 2 <= b@.len(),
    ensures
        r == le16(b@, i as int),
{
    (b[i] as u32) + (b[i + 1] as u32) * 256
}

fn le32_at(b: &[u8], i: usize) -> (r: u32)
    requires
        i + 4 <= b@.len(),
    ensures
        r == le32(b@, i as int),
{
    (b[i] as u32) + (b[i + 1] as u32) * 256 + (b[i + 2] as u32) * 65536 + (b[i + 3] as u32) * 16777216
}

/// Read block `lba` into a fresh buffer.
fn read_sector<D: BlockDevice>(dev: &mut D, lba: u64) -> (r: Result<Vec<u8>, FsError>)
    ensures
        final(dev).contents() == old(dev).contents(),
        final(dev).reliable() == old(dev).reliable(),
        (lba + 1) * 512 > old(dev).contents().len() ==> r is Err,
        old(dev).reliable() && (lba + 1) * 512 <= old(dev).contents().len() ==> r is Ok,
        match r {
            Ok(v) => (lba + 1) * 512 <= old(dev).contents().len() && v@ == block_of(old(dev).contents(), lba as int),
            Err(e) => e == FsError::Io,
        },
{
    let mut buf = vec![0u8; BLOCK_SIZE];
    match dev.read_block(lba, buf.as_mut_slice()) {
        Ok(_) => {
            assert(buf@ =~= block_of(old(dev).contents(), lba as int));
            Ok(buf)
        },
        Err(_) => Err(FsError::Io),
    }
}

/// Whether `a` and `b` are equal up to ASCII case.
pub fn chars_eq_ignore_case(a: &[char], b: &[char]) -> (r: bool)
    ensures
        r == eq_ignore_case(a@, b@),
{
    if a.len() != b.len() {
        return false;
    }
    let mut i: usize = 0;
    while i < a.len()
        invariant
            a@.len() == b@.len(),
            i <= a@.len(),
            forall|k: int| 0 <= k < i ==> ascii_lower(a@[k]) == ascii_lower(b@[k]),
        decreases a@.len() - i,
    {
        if lower_char(a[i]) != lower_char(b[i]) {
            return false;
        }
        i = i + 1;
    }
    true
}

fn lower_char(c: char) -> (r: char)
    ensures
        r == ascii_lower(c),
{
    if 'A' <= c && c <= 'Z' {
        ((c as u8) + 32) as char
    } else {
        c
    }
}

fn lower_byte_of(b: u8) -> (r: char)
    ensures
        r == lower_byte(b),
{
    if 0x41 <= b && b <= 0x5A {
        (b + 32) as char
    } else {
        b as char
    }
}

/// The characters of `e[from..to]` up to its first space, lowered.
fn field_chars(e: &[u8], from: usize, to: usize) -> (r: Vec<char>)
    requires
        from <= to <= e@.len(),
    ensures
        r@ == lower_bytes(until_space(e@.subrange(from as int, to as int))),
{
    let mut out: Vec<char> = Vec::new();
    let mut i: usize = from;
    let ghost field = e@.subrange(from as int, to as int);
    while i < to && e[i] != 0x20
        invariant
            from <= i <= to <= e@.len(),
            field == e@.subrange(from as int, to as int),
            forall|k: int| from <= k < i ==> e@[k] != 0x20,
            out@ == lower_bytes(e@.subrange(from as int, i as int)),
            until_space(field) == e@.subrange(from as int, i as int) + until_space(e@.subrange(i as int, to as int)),
        decreases to - i,
    {
        proof {
            let rest = e@.subrange(i as int, to as int);
            assert(rest.drop_first() =~= e@.subrange(i + 1, to as int));
            assert(e@.subrange(from as int, i + 1) =~= e@.subrange(from as int, i as int) + seq![rest[0]]);
        }
        out.push(lower_byte_of(e[i]));
        i = i + 1;
        assert(out@ =~= lower_bytes(e@.subrange(from as int, i as int)));
    }
    proof {
        let rest = e@.subrange(i as int, to as int);
        assert(until_space(rest) =~= Seq::<u8>::empty());
        assert(until_space(field) =~= e@.subrange(from as int, i as int));
    }
    out
}

proof fn lemma_until_space_base(field: Seq<u8>)
    ensures
        until_space(field) == field.subrange(0, 0) + until_space(field.subrange(0, field.len() as int)),
{
    assert(field.subrange(0, field.len() as int) =~= field);
    assert(field.subrange(0, 0) =~= Seq::<u8>::empty());
}

/// The 8.3 name stored in entry `e` (see [`decode_name`]).
pub fn decode_short_name(e: &[u8]) -> (r: Vec<char>)
    requires
        e@.len() >= 11,
    ensures
        r@ == decode_name(e@),
{
    proof {
        lemma_until_space_base(e@.subrange(0, 8));
        lemma_until_space_base(e@.subrange(8, 11));
        assert(e@.subrange(0, 8).subrange(0, 8) =~= e@.subrange(0, 8));
    }
    let mut name = field_chars(e, 0, 8);
    let ext = field_chars(e, 8, 11);
    if ext.len() > 0 {
        name.push('.');
        let mut i: usize = 0;
        let ghost base = name@;
        while i < ext.len()
            invariant
                i <= ext@.len(),
                name@ == base + ext@.take(i as int),
            decreases ext@.len() - i,
        {
            name.push(ext[i]);
            i = i + 1;
            assert(name@ =~= base + ext@.take(i as int));
        }
        assert(ext@.take(ext@.len() as int) =~= ext@);
    }
    name
}

/// Whether the 32-byte record `e` is skipped when reading a directory.
fn is_skipped(e: &[u8]) -> (r: bool)
    requires
        e@.len() >= 12,
    ensures
        r == skipped_entry(e@),
{
    e[0] == 0xE5 || e[11] & ATTR_LONG_NAME == ATTR_LONG_NAME || e[11] & ATTR_VOLUME_ID != 0
}

fn is_dot_name(n: &[char]) -> (r: bool)
    ensures
        r == (n@ == seq!['.'] || n@ == seq!['.', '.']),
{
    if n.len() == 1 && n[0] == '.' {
        assert(n@ =~= seq!['.']);
        true
    } else if n.len() == 2 && n[0] == '.' && n[1] == '.' {
        assert(n@ =~= seq!['.', '.']);
        true
    } else {
        false
    }
}


/// What a call that reads the disk returned, against what its specification
/// gives for the disk's contents: a success is the specified one; a
/// specified error is an error; any other error is an I/O failure; on a
/// reliable device the call returns exactly what is specified.
pub open spec fn outcome<T>(r: Result<T, FsError>, s: Result<T, FsError>, reliable: bool) -> bool {
    &&& r is Ok ==> r == s
    &&& s is Err ==> r is Err
    &&& r is Err ==> r == Err::<T, FsError>(FsError::Io) || r == s
    &&& reliable ==> r == s
}

pub open spec fn bytes_res(r: Result<Vec<u8>, FsError>) -> Result<Seq<u8>, FsError> {
    match r {
        Ok(v) => Ok(v@),
        Err(e) => Err(e),
    }
}

pub open spec fn entry_res(r: Result<DirEntry, FsError>) -> Result<DirEntryView, FsError> {
    match r {
        Ok(v) => Ok(v.view()),
        Err(e) => Err(e),
    }
}

pub open spec fn names_res(r: Result<Vec<String>, FsError>) -> Result<Seq<Seq<char>>, FsError> {
    match r {
        Ok(v) => Ok(strings_view(v@)),
        Err(e) => Err(e),
    }
}

impl FatFs {
    /// Read the boot sector (block 0) and check the FAT32 layout.
    pub fn mount<D: BlockDevice>(dev: &mut D) -> (r: Result<FatFs, FsError>)
        ensures
            final(dev).contents() == old(dev).contents(),
            final(dev).reliable() == old(dev).reliable(),
            match r {
                Ok(fs) => old(dev).contents().len() >= 512 && parse_bpb(block_of(old(dev).contents(), 0)) == Some(fs),
                Err(e) => e == FsError::Io && (old(dev).reliable() && old(dev).contents().len() >= 512
                    ==> parse_bpb(block_of(old(dev).contents(), 0)) is None),
            },
    {
        let buf = read_sector(dev, 0)?;
        let bytes_per_sector = le16_at(buf.as_slice(), 0x0B);
        let sectors_per_cluster = buf[0x0D] as u32;
        let reserved_sectors = le16_at(buf.as_slice(), 0x0E);
        let num_fats = buf[0x10] as u32;
        let sectors_per_fat = le32_at(buf.as_slice(), 0x24);
        let root_cluster = le32_at(buf.as_slice(), 0x2C);
        if bytes_per_sector != BLOCK_SIZE as u32 || sectors_per_cluster == 0 || num_fats == 0 {
            return Err(FsError::Io);
        }
        assert(num_fats as u64 * sectors_per_fat as u64 <= 255 * 0xFFFF_FFFF) by (nonlinear_arith)
            requires
                num_fats <= 255,
                sectors_per_fat <= 0xFFFF_FFFF,
        ;
        let data_start: u64 = reserved_sectors as u64 + num_fats as u64 * sectors_per_fat as u64;
        if data_start > u32::MAX as u64 {
            return Err(FsError::Io);
        }
        Ok(FatFs {
            bytes_per_sector,
            sectors_per_cluster,
            reserved_sectors,
            num_fats,
            sectors_per_fat,
            root_cluster,
            fat_start_lba: reserved_sectors,
            data_start_lba: data_start as u32,
        })
    }

    /// The first sector of cluster `c`.
    fn cluster_to_lba(&self, cluster: u32) -> (r: u64)
        requires
            self.wf(),
            cluster >= 2,
        ensures
            r == self.cluster_lba(cluster as int),
            r < 0x100_0000_0000,
    {
        assert((cluster as u64 - 2) * self.sectors_per_cluster as u64 <= 0xFFFF_FFFF * 255) by (nonlinear_arith)
            requires
                cluster <= 0xFFFF_FFFF,
                cluster >= 2,
                self.sectors_per_cluster <= 255,
        ;
        self.data_start_lba as u64 + (cluster as u64 - 2) * self.sectors_per_cluster as u64
    }

    /// The link stored in FAT entry `cluster`.
    fn next_cluster<D: BlockDevice>(&self, dev: &mut D, cluster: u32) -> (r: Result<u32, FsError>)
        requires
            self.wf(),
            cluster < 0x10000000,
        ensures
            final(dev).contents() == old(dev).contents(),
            final(dev).reliable() == old(dev).reliable(),
            !self.fat_entry_on_disk(cluster as int, old(dev).contents().len()) ==> r is Err,
            old(dev).reliable() && self.fat_entry_on_disk(cluster as int, old(dev).contents().len()) ==> r is Ok,
            match r {
                Ok(v) => self.fat_entry_on_disk(cluster as int, old(dev).contents().len()) && v
                    == self.fat_entry(old(dev).contents(), cluster as int),
                Err(e) => e == FsError::Io,
            },
    {
        let fat_offset: u64 = cluster as u64 * 4;
        let fat_sector: u64 = self.fat_start_lba as u64 + fat_offset / 512;
        let in_sector: usize = (fat_offset % 512) as usize;
        assert(in_sector + 4 <= 512) by {
            assert(fat_offset % 4 == 0);
            assert((fat_offset % 512) % 4 == 0) by (nonlinear_arith)
                requires
                    fat_offset % 4 == 0,
            ;
        }
        assert(fat_sector * 512 + in_sector == self.fat_entry_pos(0, cluster as int)) by (nonlinear_arith)
            requires
                fat_sector == self.fat_start_lba + fat_offset / 512,
                in_sector == fat_offset % 512,
                fat_offset == cluster * 4,
        ;
        let buf = match read_sector(dev, fat_sector) {
            Ok(b) => b,
            Err(e) => return Err(e),
        };
        let raw = le32_at(buf.as_slice(), in_sector);
        let ghost disk = old(dev).contents();
        proof {
            let pos = self.fat_entry_pos(0, cluster as int);
            assert(buf@[in_sector as int] == disk[pos]);
            assert(buf@[in_sector + 1] == disk[pos + 1]);
            assert(buf@[in_sector + 2] == disk[pos + 2]);
            assert(buf@[in_sector + 3] == disk[pos + 3]);
        }
        let masked = raw & CLUSTER_MASK;
        assert(masked == raw % 0x10000000) by (bit_vector)
            requires
                masked == raw & 0x0FFFFFFF,
        ;
        Ok(masked)
    }

    /// The bytes of cluster `cluster`.
    fn read_cluster<D: BlockDevice>(&self, dev: &mut D, cluster: u32) -> (r: Result<Vec<u8>, FsError>)
        requires
            self.wf(),
            cluster >= 2,
        ensures
            final(dev).contents() == old(dev).contents(),
            final(dev).reliable() == old(dev).reliable(),
            !self.cluster_on_disk(cluster as int, old(dev).contents().len()) ==> r is Err,
            old(dev).reliable() && self.cluster_on_disk(cluster as int, old(dev).contents().len()) ==> r is Ok,
            match r {
                Ok(v) => self.cluster_on_disk(cluster as int, old(dev).contents().len()) && v@
                    == self.cluster_data(old(dev).contents(), cluster as int),
                Err(e) => e == FsError::Io,
            },
    {
        let lba = self.cluster_to_lba(cluster);
        let ghost disk = old(dev).contents();
        let mut out: Vec<u8> = Vec::new();
        let mut sec: u64 = 0;
        let spc: u64 = self.sectors_per_cluster as u64;
        while sec < spc
            invariant
                dev.contents() == disk,
                disk == old(dev).contents(),
                dev.reliable() == old(dev).reliable(),
                lba == self.cluster_lba(cluster as int),
                spc == self.sectors_per_cluster,
                sec <= spc,
                lba < 0x1_0000_0000_0000,
                sec > 0 ==> (lba + sec) * 512 <= disk.len(),
                sec > 0 ==> out@ == disk.subrange(lba * 512, (lba + sec) * 512),
                sec == 0 ==> out@.len() == 0,
                old(dev).reliable() && self.cluster_on_disk(cluster as int, disk.len()) ==> (lba + spc) * 512 <= disk.len(),
            decreases spc - sec,
        {
            let s = match read_sector(dev, lba + sec) {
                Ok(b) => b,
                Err(e) => return Err(e),
            };
            let mut s2 = s;
            out.append(&mut s2);
            sec = sec + 1;
            assert(out@ =~= disk.subrange(lba * 512, (lba + sec) * 512));
        }
        Ok(out)
    }

    /// The bytes of the chain from `start`, cluster by cluster, until its end
    /// or until at least `max_bytes` are read. A chain longer than the FAT
    /// (a loop) is an I/O error.
    fn read_chain<D: BlockDevice>(&self, dev: &mut D, start: u32, max_bytes: usize) -> (r: Result<Vec<u8>, FsError>)
        requires
            self.wf(),
        ensures
            final(dev).contents() == old(dev).contents(),
            final(dev).reliable() == old(dev).reliable(),
            outcome(
                bytes_res(r),
                match self.chain_bytes(old(dev).contents(), start as int, max_bytes as int, self.fat_entries()) {
                    Some(b) => Ok::<Seq<u8>, FsError>(b),
                    None => Err::<Seq<u8>, FsError>(FsError::Io),
                },
                old(dev).reliable(),
            ),
    {
        let ghost disk = old(dev).contents();
        let ghost whole = self.chain_bytes(disk, start as int, max_bytes as int, self.fat_entries());
        let fuel: u64 = self.sectors_per_fat as u64 * 128;
        let mut out: Vec<u8> = Vec::new();
        let mut cluster: u32 = start;
        let mut k: u64 = 0;
        assert(out@ + Seq::<u8>::empty() =~= Seq::<u8>::empty());
        while 2 <= cluster && cluster < EOC_THRESHOLD
            invariant
                self.wf(),
                dev.contents() == disk,
                disk == old(dev).contents(),
                dev.reliable() == old(dev).reliable(),
                fuel == self.fat_entries(),
                k <= fuel,
                out@.len() < max_bytes || (k == 0 && out@.len() == 0),
                whole == self.chain_bytes(disk, start as int, max_bytes as int, self.fat_entries()),
                whole == prepend(out@, self.chain_bytes(disk, cluster as int, max_bytes - out@.len(), (fuel - k) as nat)),
            decreases fuel - k,
        {
            if k == fuel {
                return Err(FsError::Io);
            }
            let d = match self.read_cluster(dev, cluster) {
                Ok(b) => b,
                Err(e) => return Err(e),
            };
            let ghost dv = d@;
            let ghost m = max_bytes - out@.len();
            let mut d2 = d;
            out.append(&mut d2);
            k = k + 1;
            if out.len() >= max_bytes {
                assert(dv.len() >= m);
                return Ok(out);
            }
            let next = match self.next_cluster(dev, cluster) {
                Ok(n) => n,
                Err(e) => return Err(e),
            };
            proof {
                assert(out@ =~= (out@.subrange(0, out@.len() - dv.len())) + dv);
                assert(forall|x: Seq<u8>| (out@.subrange(0, out@.len() - dv.len()) + dv) + x =~= out@.subrange(0, out@.len() - dv.len()) + (dv + x));
            }
            cluster = next;
        }
        assert(out@ + Seq::<u8>::empty() =~= out@);
        Ok(out)
    }
}


/// The entries listed by the directory bytes `bytes` (see [`parse_dir`]).
fn parse_dir_bytes(bytes: &Vec<u8>) -> (r: Vec<DirEntry>)
    ensures
        entries_view(r@) == parse_dir(bytes@),
{
    let mut out: Vec<DirEntry> = Vec::new();
    let mut i: usize = 0;
    let s = bytes.as_slice();
    assert(bytes@.skip(0) =~= bytes@);
    while s.len() >= 32 && i <= s.len() - 32
        invariant
            s@ == bytes@,
            i <= s@.len(),
            parse_dir(bytes@) == entries_view(out@) + parse_dir(bytes@.skip(i as int)),
        decreases s@.len() - i,
    {
        let chunk = &s[i..i + 32];
        let ghost rest = bytes@.skip(i as int);
        proof {
            assert(chunk@ =~= rest.take(32));
            assert(rest.skip(32) =~= bytes@.skip(i + 32));
        }
        if chunk[0] == 0 {
            assert(parse_dir(rest) =~= Seq::<DirEntryView>::empty());
            assert(entries_view(out@) + Seq::<DirEntryView>::empty() =~= entries_view(out@));
            return out;
        }
        let name = decode_short_name(chunk);
        if is_skipped(chunk) || is_dot_name(name.as_slice()) {
            i = i + 32;
        } else {
            let hi = le16_at(chunk, 20);
            let lo = le16_at(chunk, 26);
            let cluster: u32 = hi * 65536 + lo;
            let size = le32_at(chunk, 28);
            let is_dir = chunk[11] & ATTR_DIRECTORY != 0;
            let e = DirEntry { name, is_dir, cluster, size };
            assert(e.view() == parse_entry(chunk@));
            let ghost before = entries_view(out@);
            out.push(e);
            assert(entries_view(out@) =~= before.push(parse_entry(chunk@)));
            assert(before + parse_dir(rest) =~= before.push(parse_entry(chunk@)) + parse_dir(bytes@.skip(i + 32)));
            i = i + 32;
        }
    }
    proof {
        assert(parse_dir(bytes@.skip(i as int)) =~= Seq::<DirEntryView>::empty());
        assert(entries_view(out@) + Seq::<DirEntryView>::empty() =~= entries_view(out@));
    }
    out
}

/// The index of the first entry named `name` (up to ASCII case).
fn find_entry(es: &Vec<DirEntry>, name: &[char]) -> (r: Option<usize>)
    ensures
        match r {
            Some(i) => i < es@.len() && find_named(entries_view(es@), name@) == Some(es@[i as int].view()),
            None => find_named(entries_view(es@), name@) is None,
        },
{
    let mut i: usize = 0;
    assert(entries_view(es@).skip(0) =~= entries_view(es@));
    while i < es.len()
        invariant
            i <= es@.len(),
            find_named(entries_view(es@), name@) == find_named(entries_view(es@).skip(i as int), name@),
        decreases es@.len() - i,
    {
        let ghost rest = entries_view(es@).skip(i as int);
        assert(rest[0] == es@[i as int].view());
        assert(rest.drop_first() =~= entries_view(es@).skip(i + 1));
        if chars_eq_ignore_case(es[i].name.as_slice(), name) {
            return Some(i);
        }
        i = i + 1;
    }
    None
}

fn clone_chars(v: &Vec<char>) -> (r: Vec<char>)
    ensures
        r@ == v@,
{
    let mut out: Vec<char> = Vec::new();
    let mut i: usize = 0;
    while i < v.len()
        invariant
            i <= v@.len(),
            out@ == v@.take(i as int),
        decreases v@.len() - i,
    {
        out.push(v[i]);
        i = i + 1;
        assert(out@ =~= v@.take(i as int));
    }
    assert(v@.take(v@.len() as int) =~= v@);
    out
}

impl DirEntry {
    fn duplicate(&self) -> (r: DirEntry)
        ensures
            r.view() == self.view(),
    {
        DirEntry { name: clone_chars(&self.name), is_dir: self.is_dir, cluster: self.cluster, size: self.size }
    }
}

impl FatFs {
    proof fn lemma_walk_err_extends(&self, disk: Seq<u8>, segs: Seq<Seq<char>>, a: int, b: int)
        requires
            1 <= a <= b <= segs.len(),
            self.walk_segs(disk, segs.take(a)) is Err,
        ensures
            self.walk_segs(disk, segs.take(b)) == self.walk_segs(disk, segs.take(a)),
        decreases b - a,
    {
        if b > a {
            self.lemma_walk_err_extends(disk, segs, a, b - 1);
            assert(segs.take(b).drop_last() =~= segs.take(b - 1));
        }
    }

    /// The entries of the directory whose chain starts at `cluster`.
    fn read_dir<D: BlockDevice>(&self, dev: &mut D, cluster: u32) -> (r: Result<Vec<DirEntry>, FsError>)
        requires
            self.wf(),
        ensures
            final(dev).contents() == old(dev).contents(),
            final(dev).reliable() == old(dev).reliable(),
            match r {
                Ok(v) => self.dir_entries(old(dev).contents(), cluster as int) == Some(entries_view(v@)),
                Err(e) => e == FsError::Io && (old(dev).reliable() ==> self.dir_entries(old(dev).contents(), cluster as int) is None),
            },
            self.dir_entries(old(dev).contents(), cluster as int) is None ==> r is Err,
    {
        let bytes = self.read_chain(dev, cluster, usize::MAX)?;
        Ok(parse_dir_bytes(&bytes))
    }

    /// The spec of one lookup step: the entry named `seg` in the directory
    /// whose chain starts at `dir`.
    pub open spec fn spec_step(&self, disk: Seq<u8>, dir: u32, seg: Seq<char>) -> Result<DirEntryView, FsError> {
        match self.dir_entries(disk, dir as int) {
            None => Err(FsError::Io),
            Some(es) => match find_named(es, seg) {
                Some(e) => Ok(e),
                None => Err(FsError::NotFound),
            },
        }
    }

    /// The entry named `seg` in the directory whose chain starts at `dir`.
    fn lookup_step<D: BlockDevice>(&self, dev: &mut D, dir: u32, seg: &[char]) -> (r: Result<DirEntry, FsError>)
        requires
            self.wf(),
        ensures
            final(dev).contents() == old(dev).contents(),
            final(dev).reliable() == old(dev).reliable(),
            outcome(entry_res(r), self.spec_step(old(dev).contents(), dir, seg@), old(dev).reliable()),
    {
        let entries = self.read_dir(dev, dir)?;
        match find_entry(&entries, seg) {
            Some(k) => Ok(entries[k].duplicate()),
            None => Err(FsError::NotFound),
        }
    }

    /// The entry for the absolute path `abs`.
    #[verifier::rlimit(40)]
    fn lookup<D: BlockDevice>(&self, dev: &mut D, abs: &str) -> (r: Result<DirEntry, FsError>)
        requires
            self.wf(),
        ensures
            final(dev).contents() == old(dev).contents(),
            final(dev).reliable() == old(dev).reliable(),
            outcome(entry_res(r), self.spec_lookup(old(dev).contents(), abs@), old(dev).reliable()),
    {
        let ghost disk = old(dev).contents();
        let cs = chars_of(abs);
        if cs.len() == 0 || (cs.len() == 1 && cs[0] == '/') {
            proof {
                if cs@.len() == 1 {
                    assert(abs@ =~= seq!['/']);
                }
            }
            let mut name: Vec<char> = Vec::new();
            name.push('/');
            assert(name@ =~= seq!['/']);
            return Ok(DirEntry { name, is_dir: true, cluster: self.root_cluster, size: 0 });
        }
        assert(!is_root_path(abs@));
        let segs = crate::path::segments_of(cs.as_slice());
        let ghost sv = views(segs@);
        if segs.len() == 0 {
            return Err(FsError::NotFound);
        }
        let mut cur: DirEntry = match self.lookup_step(dev, self.root_cluster, segs[0].as_slice()) {
            Ok(e) => e,
            Err(e) => {
                proof {
                    assert(sv.take(1).drop_last() =~= Seq::<Seq<char>>::empty());
                    assert(sv.take(1).last() == sv[0]);
                    assert(sv.take(sv.len() as int) =~= sv);
                    if self.walk_segs(disk, sv.take(1)) is Err {
                        self.lemma_walk_err_extends(disk, sv, 1, sv.len() as int);
                    }
                }
                return Err(e);
            },
        };
        proof {
            assert(sv.take(1).last() == sv[0]);
        }
        let mut i: usize = 1;
        while i < segs.len()
            invariant
                self.wf(),
                dev.contents() == disk,
                disk == old(dev).contents(),
                dev.reliable() == old(dev).reliable(),
                sv == views(segs@),
                sv == segments(abs@),
                !is_root_path(abs@),
                1 <= i <= sv.len(),
                self.walk_segs(disk, sv.take(i as int)) == Ok::<DirEntryView, FsError>(cur.view()),
            decreases sv.len() - i,
        {
            proof {
                assert(sv.take(i + 1).drop_last() =~= sv.take(i as int));
                assert(sv.take(i + 1).last() == sv[i as int]);
            }
            if !cur.is_dir {
                proof {
                    assert(self.walk_segs(disk, sv.take(i + 1)) == Err::<DirEntryView, FsError>(FsError::NotADir));
                    self.lemma_walk_err_extends(disk, sv, i + 1, sv.len() as int);
                    assert(sv.take(sv.len() as int) =~= sv);
                }
                return Err(FsError::NotADir);
            }
            let dir = cur.cluster;
            cur = match self.lookup_step(dev, dir, segs[i].as_slice()) {
                Ok(e) => e,
                Err(e) => {
                    proof {
                        assert(sv.take(sv.len() as int) =~= sv);
                        if self.walk_segs(disk, sv.take(i + 1)) is Err {
                            self.lemma_walk_err_extends(disk, sv, i + 1, sv.len() as int);
                        }
                    }
                    return Err(e);
                },
            };
            i = i + 1;
        }
        assert(sv.take(sv.len() as int) =~= sv);
        Ok(cur)
    }
}


fn is_slash_only(abs: &str) -> (r: bool)
    ensures
        r == (abs@ == seq!['/']),
{
    let cs = chars_of(abs);
    if cs.len() == 1 && cs[0] == '/' {
        assert(cs@ =~= seq!['/']);
        true
    } else {
        false
    }
}

impl FatFs {
    /// The contents of the file at `abs`.
    pub fn read_file<D: BlockDevice>(&self, dev: &mut D, abs: &str) -> (r: Result<Vec<u8>, FsError>)
        requires
            self.wf(),
        ensures
            final(dev).contents() == old(dev).contents(),
            final(dev).reliable() == old(dev).reliable(),
            outcome(bytes_res(r), self.spec_read_file(old(dev).contents(), abs@), old(dev).reliable()),
    {
        let entry = self.lookup(dev, abs)?;
        if entry.is_dir {
            return Err(FsError::IsADir);
        }
        if entry.size == 0 || entry.cluster < 2 {
            return Ok(Vec::new());
        }
        let ghost disk = old(dev).contents();
        let mut out = match self.read_chain(dev, entry.cluster, entry.size as usize) {
            Ok(v) => v,
            Err(e) => {
                return Err(e);
            },
        };
        let ghost full = out@;
        assert(self.chain_bytes(disk, entry.cluster as int, entry.size as int, self.fat_entries()) == Some(full));
        assert(self.spec_lookup(disk, abs@) == Ok::<DirEntryView, FsError>(entry.view()));
        out.truncate(entry.size as usize);
        proof {
            let s = entry.size as int;
            if full.len() > s {
                assert(out@ =~= full.take(s));
            } else {
                assert(out@ =~= full);
            }
        }
        Ok(out)
    }

    /// The names in the directory at `abs`, in directory order.
    pub fn list_dir<D: BlockDevice>(&self, dev: &mut D, abs: &str) -> (r: Result<Vec<String>, FsError>)
        requires
            self.wf(),
        ensures
            final(dev).contents() == old(dev).contents(),
            final(dev).reliable() == old(dev).reliable(),
            outcome(names_res(r), self.spec_list_dir(old(dev).contents(), abs@), old(dev).reliable()),
    {
        let entry = self.lookup(dev, abs)?;
        if !entry.is_dir {
            return Err(FsError::NotADir);
        }
        let cluster = if is_slash_only(abs) {
            self.root_cluster
        } else {
            entry.cluster
        };
        let entries = self.read_dir(dev, cluster)?;
        let mut names: Vec<String> = Vec::new();
        let mut i: usize = 0;
        while i < entries.len()
            invariant
                i <= entries@.len(),
                strings_view(names@) == entries_view(entries@).take(i as int).map_values(|x: DirEntryView| x.name),
            decreases entries@.len() - i,
        {
            let s = string_of(entries[i].name.as_slice());
            let ghost before = strings_view(names@);
            let ghost sv = s@;
            names.push(s);
            assert(strings_view(names@) =~= before.push(sv));
            assert(entries_view(entries@).take(i + 1).map_values(|x: DirEntryView| x.name) =~= entries_view(
                entries@,
            ).take(i as int).map_values(|x: DirEntryView| x.name).push(entries@[i as int].name@));
            i = i + 1;
        }
        assert(entries_view(entries@).take(entries@.len() as int) =~= entries_view(entries@));
        Ok(names)
    }

    /// Whether `abs` names a directory (`false` when it cannot be read).
    pub fn is_dir<D: BlockDevice>(&self, dev: &mut D, abs: &str) -> (r: bool)
        requires
            self.wf(),
        ensures
            final(dev).contents() == old(dev).contents(),
            final(dev).reliable() == old(dev).reliable(),
            r ==> self.spec_is_dir(old(dev).contents(), abs@),
            old(dev).reliable() ==> r == self.spec_is_dir(old(dev).contents(), abs@),
    {
        match self.lookup(dev, abs) {
            Ok(e) => e.is_dir,
            Err(_) => false,
        }
    }

    pub fn writable(&self) -> (r: bool)
        ensures
            r,
    {
        true
    }

    pub fn backing(&self) -> (r: &'static str)
        ensures
            r@ == "fat32 on /dev/ata1"@,
    {
        "fat32 on /dev/ata1"
    }
}


// ---------------------------------------------------------------------------
// Writing: encoding
// ---------------------------------------------------------------------------

/// The index of the last byte `b` in `s`.
pub open spec fn last_index_of(s: Seq<u8>, b: u8) -> Option<int>
    decreases s.len(),
{
    if s.len() == 0 {
        None
    } else if s.last() == b {
        Some(s.len() - 1)
    } else {
        last_index_of(s.drop_last(), b)
    }
}

pub open spec fn upper_byte(b: u8) -> u8 {
    if 0x61 <= b <= 0x7A {
        (b - 32) as u8
    } else {
        b
    }
}

/// The first `n` bytes of `s` in ASCII upper case, padded with spaces.
pub open spec fn padded(s: Seq<u8>, n: nat) -> Seq<u8> {
    Seq::new(n, |i: int| if i < s.len() { upper_byte(s[i]) } else { 0x20u8 })
}

/// The base name and extension of the name bytes `nb`: split at the last
/// `.`, except for the names `.` and `..`.
pub open spec fn split_base_ext(nb: Seq<u8>) -> (Seq<u8>, Seq<u8>) {
    if nb == seq![0x2Eu8] || nb == seq![0x2Eu8, 0x2Eu8] {
        (nb, Seq::empty())
    } else {
        match last_index_of(nb, 0x2E) {
            Some(i) => (nb.take(i), nb.skip(i + 1)),
            None => (nb, Seq::empty()),
        }
    }
}

pub open spec fn le16_bytes(v: int) -> Seq<u8> {
    seq![(v % 256) as u8, ((v / 256) % 256) as u8]
}

pub open spec fn zeros(n: nat) -> Seq<u8> {
    Seq::new(n, |i: int| 0u8)
}

/// The 32-byte short-name entry for the name bytes `nb`: upper-case,
/// space-padded 8.3 name, attributes, first cluster (high and low halves)
/// and size.
pub open spec fn encode_entry(nb: Seq<u8>, attrs: u8, cluster: u32, size: u32) -> Seq<u8> {
    let (base, ext) = split_base_ext(nb);
    padded(base, 8) + padded(ext, 3) + seq![attrs] + zeros(8) + le16_bytes((cluster / 65536) as int) + zeros(4)
        + le16_bytes((cluster % 65536) as int) + le32_bytes(size)
}

/// `disk` with `data` stored from byte `at` on.
pub open spec fn put_bytes(disk: Seq<u8>, at: int, data: Seq<u8>) -> Seq<u8> {
    disk.subrange(0, at) + data + disk.skip(at + data.len())
}

fn upper_of(b: u8) -> (r: u8)
    ensures
        r == upper_byte(b),
{
    if 0x61 <= b && b <= 0x7A {
        b - 32
    } else {
        b
    }
}

/// Append `padded(s, n)` to `out`.
fn push_padded(out: &mut Vec<u8>, s: &[u8], n: usize)
    ensures
        final(out)@ == old(out)@ + padded(s@, n as nat),
{
    let mut i: usize = 0;
    while i < n
        invariant
            i <= n,
            out@ == old(out)@ + padded(s@, n as nat).take(i as int),
        decreases n - i,
    {
        if i < s.len() {
            out.push(upper_of(s[i]));
        } else {
            out.push(0x20u8);
        }
        i = i + 1;
        assert(out@ =~= old(out)@ + padded(s@, n as nat).take(i as int));
    }
    assert(padded(s@, n as nat).take(n as int) =~= padded(s@, n as nat));
}

/// The index of the last `.` in `s`.
fn last_dot(s: &[u8]) -> (r: Option<usize>)
    ensures
        match r {
            Some(i) => last_index_of(s@, 0x2E) == Some(i as int) && i < s@.len(),
            None => last_index_of(s@, 0x2E) is None,
        },
{
    let mut n: usize = s.len();
    assert(s@.take(n as int) =~= s@);
    while n > 0
        invariant
            n <= s@.len(),
            last_index_of(s@, 0x2E) == last_index_of(s@.take(n as int), 0x2E),
        decreases n,
    {
        assert(s@.take(n as int).drop_last() =~= s@.take(n - 1));
        if s[n - 1] == 0x2E {
            return Some(n - 1);
        }
        n = n - 1;
    }
    None
}

/// Encode `name` (8.3, lower case) into the 32-byte directory entry at
/// `buf[at..at + 32]`. Names are stored upper-case and space-padded; reading
/// lowers them again.
pub fn write_short_entry(buf: &mut Vec<u8>, at: usize, name: &[u8], attrs: u8, cluster: u32, size: u32)
    requires
        at + 32 <= old(buf)@.len(),
    ensures
        final(buf)@ == put_bytes(old(buf)@, at as int, encode_entry(name@, attrs, cluster, size)),
{
    let is_dots = (name.len() == 1 && name[0] == 0x2E) || (name.len() == 2 && name[0] == 0x2E && name[1] == 0x2E);
    proof {
        if name@.len() == 1 && name@[0] == 0x2E {
            assert(name@ =~= seq![0x2Eu8]);
        }
        if name@.len() == 2 && name@[0] == 0x2E && name@[1] == 0x2E {
            assert(name@ =~= seq![0x2Eu8, 0x2Eu8]);
        }
    }
    let mut e: Vec<u8> = Vec::new();
    if is_dots {
        push_padded(&mut e, name, 8);
        push_padded(&mut e, &[], 3);
        assert(split_base_ext(name@) == (name@, Seq::<u8>::empty()));
    } else {
        match last_dot(name) {
            Some(i) => {
                let base = slice_prefix(name, i);
                let ext = slice_suffix(name, i + 1);
                push_padded(&mut e, base.as_slice(), 8);
                push_padded(&mut e, ext.as_slice(), 3);
            },
            None => {
                push_padded(&mut e, name, 8);
                push_padded(&mut e, &[], 3);
            },
        }
    }
    let ghost head = e@;
    e.push(attrs);
    let mut k: usize = 0;
    while k < 8
        invariant
            k <= 8,
            e@ == head + seq![attrs] + zeros(k as nat),
        decreases 8 - k,
    {
        e.push(0u8);
        k = k + 1;
        assert(e@ =~= head + seq![attrs] + zeros(k as nat));
    }
    let hi = cluster / 65536;
    let lo = cluster % 65536;
    e.push((hi % 256) as u8);
    e.push(((hi / 256) % 256) as u8);
    e.push(0u8);
    e.push(0u8);
    e.push(0u8);
    e.push(0u8);
    e.push((lo % 256) as u8);
    e.push(((lo / 256) % 256) as u8);
    e.push((size % 256) as u8);
    e.push(((size / 256) % 256) as u8);
    e.push(((size / 65536) % 256) as u8);
    e.push((size / 16777216) as u8);
    assert(e@ =~= encode_entry(name@, attrs, cluster, size));
    let mut j: usize = 0;
    let ghost orig = buf@;
    let blen = buf.len();
    while j < 32
        invariant
            j <= 32,
            blen == orig.len(),
            e@ == encode_entry(name@, attrs, cluster, size),
            e@.len() == 32,
            at + 32 <= orig.len(),
            buf@.len() == orig.len(),
            forall|x: int| 0 <= x < buf@.len() && !(at <= x < at + j) ==> buf@[x] == orig[x],
            forall|x: int| at <= x < at + j ==> buf@[x] == e@[x - at],
        decreases 32 - j,
    {
        buf.set(at + j, e[j]);
        j = j + 1;
    }
    assert(buf@ =~= put_bytes(orig, at as int, e@));
}

fn slice_prefix(s: &[u8], n: usize) -> (r: Vec<u8>)
    requires
        n <= s@.len(),
    ensures
        r@ == s@.take(n as int),
{
    let mut out: Vec<u8> = Vec::new();
    let mut i: usize = 0;
    while i < n
        invariant
            i <= n <= s@.len(),
            out@ == s@.take(i as int),
        decreases n - i,
    {
        out.push(s[i]);
        i = i + 1;
        assert(out@ =~= s@.take(i as int));
    }
    out
}

fn slice_suffix(s: &[u8], n: usize) -> (r: Vec<u8>)
    requires
        n <= s@.len(),
    ensures
        r@ == s@.skip(n as int),
{
    let mut out: Vec<u8> = Vec::new();
    let mut i: usize = n;
    while i < s.len()
        invariant
            n <= i <= s@.len(),
            out@ == s@.subrange(n as int, i as int),
        decreases s@.len() - i,
    {
        out.push(s[i]);
        i = i + 1;
        assert(out@ =~= s@.subrange(n as int, i as int));
    }
    assert(out@ =~= s@.skip(n as int));
    out
}


// ---------------------------------------------------------------------------
// Writing: the FAT, FsInfo and clusters
// ---------------------------------------------------------------------------

/// FAT entry `c` after storing the link `v` over the entry `old`: the low
/// 28 bits are the link, the top 4 bits are kept.
pub open spec fn merge_link(v: u32, old: u32) -> u32 {
    (v & 0x0FFFFFFFu32) | (old & 0xF0000000u32)
}

/// `new` equals `old` except at the byte positions `allowed` admits.
pub open spec fn changes_only(old: Seq<u8>, new: Seq<u8>, allowed: spec_fn(int) -> bool) -> bool {
    &&& new.len() == old.len()
    &&& forall|i: int| 0 <= i < old.len() && !allowed(i) ==> #[trigger] new[i] == old[i]
}

/// The FsInfo sector `s` after a change of `delta` free clusters, with
/// `last` (if not zero) as the next-free hint; `None` when `s` does not
/// carry the FsInfo signatures (it is then left alone).
pub open spec fn fsinfo_update(s: Seq<u8>, delta: i32, last: u32) -> Option<Seq<u8>> {
    if le32(s, 0) != 0x41615252 || le32(s, 484) != 0x61417272 {
        None
    } else {
        let free = le32(s, 0x1E8);
        let t = free + delta;
        let s1 = if free != 0xFFFF_FFFF {
            put_bytes(s, 0x1E8, le32_bytes((if t < 0 { 0 } else { t }) as u32))
        } else {
            s
        };
        Some(if last != 0 { put_bytes(s1, 0x1EC, le32_bytes(last)) } else { s1 })
    }
}

impl FatFs {
    /// Byte `i` lies in one of the FAT copies.
    pub open spec fn in_fat(&self, i: int) -> bool {
        self.fat_start_lba * 512 <= i < self.data_start_lba * 512
    }

    /// Byte `i` lies in the data area (the clusters).
    pub open spec fn in_data(&self, i: int) -> bool {
        i >= self.data_start_lba * 512
    }

    /// Everything from the first FAT sector on, and the FsInfo sector: no
    /// write to the volume touches the rest of the reserved area (the boot
    /// sector among it).
    pub open spec fn writable_area(&self) -> spec_fn(int) -> bool {
        |i: int| i >= self.fat_start_lba * 512 || (512 <= i < 1024)
    }

    /// The FAT copies and the FsInfo sector.
    pub open spec fn meta_area(&self) -> spec_fn(int) -> bool {
        |i: int| self.in_fat(i) || (512 <= i < 1024)
    }

    pub open spec fn data_area(&self) -> spec_fn(int) -> bool {
        |i: int| self.in_data(i)
    }

    /// `disk` after storing link `v` in entry `c` of FAT copies `0..n`.
    pub open spec fn set_fat(&self, disk: Seq<u8>, c: int, v: u32, n: nat) -> Seq<u8>
        decreases n,
    {
        if n == 0 {
            disk
        } else {
            let d = self.set_fat(disk, c, v, (n - 1) as nat);
            let pos = self.fat_entry_pos(n - 1, c);
            put_bytes(d, pos, le32_bytes(merge_link(v, le32(d, pos) as u32)))
        }
    }

    /// The link FAT copy `j` holds for cluster `c` (its low 28 bits).
    pub open spec fn fat_copy_entry(&self, d: Seq<u8>, j: int, c: int) -> int {
        le32(d, self.fat_entry_pos(j, c)) % 0x10000000
    }

    /// Every FAT copy holds for cluster `c` the link the first one holds.
    pub open spec fn mirrored(&self, d: Seq<u8>, c: int) -> bool {
        forall|j: int| 0 <= j < self.num_fats ==> #[trigger] self.fat_copy_entry(d, j, c) == self.fat_entry(d, c)
    }

    /// Every cluster on whose link all FAT copies agree on `d0` they still
    /// agree on on `d1` (among the entries of every copy on the disk).
    pub open spec fn keeps_mirrored(&self, d0: Seq<u8>, d1: Seq<u8>) -> bool {
        forall|x: int|
            0 <= x < self.fat_entries() && self.fat_copies_on_disk(x, d0.len()) && #[trigger] self.mirrored(d0, x) ==> self.mirrored(
                d1,
                x,
            )
    }

    /// Whether entry `c` of every FAT copy lies on a disk of `len` bytes.
    pub open spec fn fat_copies_on_disk(&self, c: int, len: nat) -> bool {
        (self.fat_start_lba + (self.num_fats - 1) * self.sectors_per_fat + (4 * c) / 512 + 1) * 512 <= len
    }

    /// Whether entry `c` of FAT copy `i` lies on a disk of `len` bytes.
    pub open spec fn copy_on_disk(&self, i: int, c: int, len: nat) -> bool {
        (self.fat_start_lba + i * self.sectors_per_fat + (4 * c) / 512 + 1) * 512 <= len
    }

    /// The sector holding entry `c` of FAT copy `i` lies within the FATs.
    proof fn lemma_fat_sector_in_fat(&self, i: int, c: int, sector: int)
        requires
            self.wf(),
            0 <= i < self.num_fats,
            0 <= c < self.fat_entries(),
            sector == self.fat_start_lba + i * self.sectors_per_fat + (4 * c) / 512,
        ensures
            forall|x: int| sector * 512 <= x < sector * 512 + 512 ==> #[trigger] self.in_fat(x),
    {
        assert((4 * c) / 512 < self.sectors_per_fat) by (nonlinear_arith)
            requires
                0 <= c < self.sectors_per_fat * 128,
        ;
        assert((i + 1) * self.sectors_per_fat <= self.num_fats * self.sectors_per_fat) by (nonlinear_arith)
            requires
                0 <= i < self.num_fats,
                self.sectors_per_fat >= 0,
        ;
        assert(i * self.sectors_per_fat >= 0) by (nonlinear_arith)
            requires
                0 <= i,
                self.sectors_per_fat >= 0,
        ;
        assert((i + 1) * self.sectors_per_fat == i * self.sectors_per_fat + self.sectors_per_fat) by (nonlinear_arith);
        assert(sector + 1 <= self.data_start_lba);
        assert(sector >= self.fat_start_lba);
        assert forall|x: int| sector * 512 <= x < sector * 512 + 512 implies #[trigger] self.in_fat(x) by {
            assert(self.fat_start_lba * 512 <= sector * 512);
            assert(sector * 512 + 512 <= self.data_start_lba * 512);
        }
    }

    /// The whole first FAT copy lies on a disk of `len` bytes.
    pub open spec fn fat_on_disk(&self, len: nat) -> bool {
        (self.fat_start_lba + self.sectors_per_fat) * 512 <= len
    }

    /// The clusters the allocator considers: those with a FAT entry, below
    /// the end-of-chain range.
    pub open spec fn alloc_limit(&self) -> int {
        if self.fat_entries() < 0x0FFFFFF8 {
            self.fat_entries() as int
        } else {
            0x0FFFFFF8
        }
    }
}

proof fn lemma_put_in_block(disk: Seq<u8>, lba: int, at: int, data: Seq<u8>)
    requires
        0 <= lba,
        (lba + 1) * 512 <= disk.len(),
        0 <= at,
        at + data.len() <= 512,
    ensures
        with_block(disk, lba, put_bytes(block_of(disk, lba), at, data)) == put_bytes(disk, lba * 512 + at, data),
{
    let b = put_bytes(block_of(disk, lba), at, data);
    assert(b.take(512) =~= b);
    assert(with_block(disk, lba, b) =~= put_bytes(disk, lba * 512 + at, data));
}

fn le32_into(buf: &mut Vec<u8>, at: usize, v: u32)
    requires
        at + 4 <= old(buf)@.len(),
    ensures
        final(buf)@ == put_bytes(old(buf)@, at as int, le32_bytes(v)),
{
    let n = buf.len();
    buf.set(at, (v % 256) as u8);
    buf.set(at + 1, ((v / 256) % 256) as u8);
    buf.set(at + 2, ((v / 65536) % 256) as u8);
    buf.set(at + 3, (v / 16777216) as u8);
    assert(buf@ =~= put_bytes(old(buf)@, at as int, le32_bytes(v)));
}

/// Write the first 512 bytes of `buf` to block `lba`.
fn write_sector<D: BlockDevice>(dev: &mut D, lba: u64, buf: &Vec<u8>) -> (r: Result<(), FsError>)
    requires
        buf@.len() == 512,
    ensures
        final(dev).reliable() == old(dev).reliable(),
        final(dev).contents().len() == old(dev).contents().len(),
        (lba + 1) * 512 > old(dev).contents().len() ==> r is Err && final(dev).contents() == old(dev).contents(),
        old(dev).reliable() && (lba + 1) * 512 <= old(dev).contents().len() ==> r is Ok,
        forall|i: int|
            0 <= i < old(dev).contents().len() && !(lba * 512 <= i < lba * 512 + 512) ==> #[trigger] final(
            dev).contents()[i] == old(dev).contents()[i],
        match r {
            Ok(()) => (lba + 1) * 512 <= old(dev).contents().len() && final(dev).contents() == with_block(
                old(dev).contents(),
                lba as int,
                buf@,
            ),
            Err(e) => e == FsError::Io,
        },
{
    match dev.write_block(lba, buf.as_slice()) {
        Ok(_) => Ok(()),
        Err(_) => Err(FsError::Io),
    }
}

impl FatFs {
    /// Store `value` (low 28 bits) in FAT entry `cluster`, in every FAT copy.
    fn write_fat_entry<D: BlockDevice>(&self, dev: &mut D, cluster: u32, value: u32) -> (r: Result<(), FsError>)
        requires
            self.wf(),
            cluster < 0x10000000,
        ensures
            final(dev).reliable() == old(dev).reliable(),
            final(dev).contents().len() == old(dev).contents().len(),
            changes_only(old(dev).contents(), final(dev).contents(), self.writable_area()),
            (cluster as int) < self.fat_entries() ==> changes_only(old(dev).contents(), final(dev).contents(), self.meta_area()),
            old(dev).reliable() && self.fat_copies_on_disk(cluster as int, old(dev).contents().len()) ==> r is Ok,
            match r {
                Ok(()) => self.fat_copies_on_disk(cluster as int, old(dev).contents().len()) && final(dev).contents()
                    == self.set_fat(old(dev).contents(), cluster as int, value, self.num_fats as nat),
                Err(e) => e == FsError::Io,
            },
            r is Ok && (cluster as int) < self.fat_entries() ==> self.frame(
                old(dev).contents(),
                final(dev).contents(),
                Set::empty(),
                set![cluster as int],
            ) && self.fat_entry_on_disk(cluster as int, old(dev).contents().len()) && self.fat_entry(
                final(dev).contents(),
                cluster as int,
            ) == value % 0x10000000,
            r is Ok && (cluster as int) < self.fat_entries() ==> self.keeps_mirrored(old(dev).contents(), final(dev).contents()),
    {
        let ghost disk = old(dev).contents();
        let fat_offset: u64 = cluster as u64 * 4;
        let in_sector: usize = (fat_offset % 512) as usize;
        assert(in_sector + 4 <= 512) by {
            assert((fat_offset % 512) % 4 == 0) by (nonlinear_arith)
                requires
                    fat_offset == cluster * 4,
            ;
        }
        let masked_v = value & CLUSTER_MASK;
        let mut i: u32 = 0;
        while i < self.num_fats
            invariant
                self.wf(),
                cluster < 0x10000000,
                fat_offset == cluster * 4,
                in_sector == fat_offset % 512,
                in_sector + 4 <= 512,
                masked_v == value & 0x0FFFFFFFu32,
                i <= self.num_fats,
                disk == old(dev).contents(),
                dev.reliable() == old(dev).reliable(),
                dev.contents() == self.set_fat(disk, cluster as int, value, i as nat),
                dev.contents().len() == disk.len(),
                changes_only(disk, dev.contents(), self.writable_area()),
                (cluster as int) < self.fat_entries() ==> changes_only(disk, dev.contents(), self.meta_area()),
                i > 0 ==> self.copy_on_disk((i - 1) as int, cluster as int, disk.len()),
            decreases self.num_fats - i,
        {
            let ghost d = dev.contents();
            assert(i as u64 * self.sectors_per_fat as u64 <= 255 * 0xFFFF_FFFF) by (nonlinear_arith)
                requires
                    i <= 255,
                    self.sectors_per_fat <= 0xFFFF_FFFF,
            ;
            let fat_sector: u64 = self.fat_start_lba as u64 + i as u64 * self.sectors_per_fat as u64 + fat_offset / 512;
            assert(fat_sector * 512 + in_sector == self.fat_entry_pos(i as int, cluster as int)) by (nonlinear_arith)
                requires
                    fat_sector == self.fat_start_lba + i * self.sectors_per_fat + fat_offset / 512,
                    in_sector == fat_offset % 512,
                    fat_offset == cluster * 4,
            ;
            let mut buf = match read_sector(dev, fat_sector) {
                Ok(b) => b,
                Err(e) => {
                    proof {
                        if dev.reliable() && self.fat_copies_on_disk(cluster as int, disk.len()) {
                            assert((fat_sector + 1) * 512 <= disk.len()) by (nonlinear_arith)
                                requires
                                    fat_sector == self.fat_start_lba + i * self.sectors_per_fat + fat_offset / 512,
                                    fat_offset == cluster * 4,
                                    i < self.num_fats,
                                    self.fat_copies_on_disk(cluster as int, disk.len()),
                            ;
                        }
                    }
                    return Err(e);
                },
            };
            assert(self.copy_on_disk(i as int, cluster as int, disk.len()));
            let old_word = le32_at(buf.as_slice(), in_sector);
            let merged = masked_v | (old_word & !CLUSTER_MASK);
            assert(merged == merge_link(value, old_word)) by (bit_vector)
                requires
                    merged == masked_v | (old_word & !0x0FFFFFFFu32),
                    masked_v == value & 0x0FFFFFFFu32,
            ;
            let ghost pos = self.fat_entry_pos(i as int, cluster as int);
            assert(old_word == le32(d, pos));
            le32_into(&mut buf, in_sector, merged);
            match write_sector(dev, fat_sector, &buf) {
                Ok(()) => {},
                Err(e) => {
                    proof {
                        assert forall|x: int| 0 <= x < disk.len() && !(self.writable_area())(x) implies #[trigger] dev.contents()[x]
                            == disk[x] by {
                            assert(fat_sector >= self.fat_start_lba) by (nonlinear_arith)
                                requires
                                    fat_sector == self.fat_start_lba + i * self.sectors_per_fat + fat_offset / 512,
                                    i >= 0,
                                    self.sectors_per_fat >= 0,
                                    fat_offset >= 0,
                            ;
                            assert(d[x] == disk[x]);
                        }
                        if (cluster as int) < self.fat_entries() {
                            self.lemma_fat_sector_in_fat(i as int, cluster as int, fat_sector as int);
                            assert forall|x: int| 0 <= x < disk.len() && !(self.meta_area())(x) implies #[trigger] dev.contents()[x]
                                == disk[x] by {
                                assert(d[x] == disk[x]);
                            }
                        }
                    }
                    return Err(e);
                },
            }
            proof {
                lemma_put_in_block(d, fat_sector as int, in_sector as int, le32_bytes(merged));
                assert forall|x: int| 0 <= x < disk.len() && !(self.writable_area())(x) implies #[trigger] dev.contents()[x]
                    == disk[x] by {
                    assert(fat_sector >= self.fat_start_lba) by (nonlinear_arith)
                        requires
                            fat_sector == self.fat_start_lba + i * self.sectors_per_fat + fat_offset / 512,
                            i >= 0,
                            self.sectors_per_fat >= 0,
                            fat_offset >= 0,
                    ;
                    assert(d[x] == disk[x]);
                }
                if (cluster as int) < self.fat_entries() {
                    self.lemma_fat_sector_in_fat(i as int, cluster as int, fat_sector as int);
                    assert forall|x: int| 0 <= x < disk.len() && !(self.meta_area())(x) implies #[trigger] dev.contents()[x]
                        == disk[x] by {
                        assert(d[x] == disk[x]);
                    }
                }
            }
            i = i + 1;
        }
        proof {
            if (cluster as int) < self.fat_entries() {
                assert forall|j: int| 0 <= j < self.num_fats implies #[trigger] self.copy_on_disk(j, cluster as int, disk.len()) by {
                    assert(j * self.sectors_per_fat <= (self.num_fats - 1) * self.sectors_per_fat) by (nonlinear_arith)
                        requires
                            0 <= j <= self.num_fats - 1,
                            self.sectors_per_fat >= 0,
                    ;
                }
                assert(self.copy_on_disk(0, cluster as int, disk.len()));
                self.lemma_set_fat_frame(disk, cluster as int, value, self.num_fats as nat);
                law_fat_entry_read_after_write(*self, disk, cluster as int, value);
                lemma_set_fat_keeps(*self, disk, cluster as int, value);
            }
        }
        Ok(())
    }
}


// ---------------------------------------------------------------------------
// Laws of the FAT
// ---------------------------------------------------------------------------

pub proof fn lemma_le32_of_bytes(v: u32)
    ensures
        le32(le32_bytes(v), 0) == v,
{
    let b = le32_bytes(v);
    assert(b[0] == v % 256);
    assert(b[1] == (v / 256) % 256);
    assert(b[2] == (v / 65536) % 256);
    assert(b[3] == v / 16777216);
    assert(v == v % 256 + 256 * ((v / 256) % 256) + 65536 * ((v / 65536) % 256) + 16777216 * (v / 16777216)) by (nonlinear_arith);
}

proof fn lemma_merge_low_bits(v: u32, old: u32)
    ensures
        merge_link(v, old) % 0x10000000 == v % 0x10000000,
{
    let m = merge_link(v, old);
    assert(m % 0x10000000 == v % 0x10000000) by (bit_vector)
        requires
            m == (v & 0x0FFFFFFFu32) | (old & 0xF0000000u32),
    ;
}

proof fn lemma_le32_put_far(d: Seq<u8>, p: int, b: Seq<u8>, q: int)
    requires
        0 <= p,
        p + b.len() <= d.len(),
        0 <= q,
        q + 4 <= d.len(),
        q + 4 <= p || p + b.len() <= q,
    ensures
        le32(put_bytes(d, p, b), q) == le32(d, q),
{
    let n = put_bytes(d, p, b);
    assert(n.len() == d.len());
    assert forall|k: int| q <= k < q + 4 implies n[k] == d[k] by {
        if k < p {
            assert(n[k] == d.subrange(0, p)[k]);
        } else {
            assert(k >= p + b.len());
            assert(n[k] == d.skip(p + b.len())[k - p - b.len()]);
        }
    }
}

proof fn lemma_le32_put_here(d: Seq<u8>, p: int, v: u32)
    requires
        0 <= p,
        p + 4 <= d.len(),
    ensures
        le32(put_bytes(d, p, le32_bytes(v)), p) == v,
{
    let n = put_bytes(d, p, le32_bytes(v));
    let b = le32_bytes(v);
    assert(n[p] == b[0] && n[p + 1] == b[1] && n[p + 2] == b[2] && n[p + 3] == b[3]);
    lemma_le32_of_bytes(v);
}

impl FatFs {
    proof fn lemma_set_fat_len(&self, disk: Seq<u8>, c: int, v: u32, n: nat)
        requires
            self.wf(),
            0 <= c,
            n <= self.num_fats,
            n > 0 ==> self.copy_on_disk(n - 1, c, disk.len()),
            forall|j: int| 0 <= j < n ==> #[trigger] self.copy_on_disk(j, c, disk.len()),
        ensures
            self.set_fat(disk, c, v, n).len() == disk.len(),
        decreases n,
    {
        if n > 0 {
            self.lemma_set_fat_len(disk, c, v, (n - 1) as nat);
            self.lemma_copy_pos(n - 1, c, disk.len());
        }
    }

    proof fn lemma_copy_pos(&self, i: int, c: int, len: nat)
        requires
            self.wf(),
            0 <= c,
            0 <= i,
            self.copy_on_disk(i, c, len),
        ensures
            0 <= self.fat_entry_pos(i, c),
            self.fat_entry_pos(i, c) + 4 <= len,
    {
        assert(i * self.sectors_per_fat >= 0) by (nonlinear_arith)
            requires
                0 <= i,
                self.sectors_per_fat >= 0,
        ;
        assert((4 * c) % 512 + 4 <= 512) by (nonlinear_arith)
            requires
                0 <= c,
        ;
        assert(4 * c == ((4 * c) / 512) * 512 + (4 * c) % 512) by (nonlinear_arith);
    }
}

/// What a FAT entry reads after `write_fat_entry` stored a link in it: the
/// low 28 bits of the link (for an entry within the FAT, on the disk).
pub proof fn law_fat_entry_read_after_write(fs: FatFs, disk: Seq<u8>, c: int, v: u32)
    requires
        fs.wf(),
        0 <= c < fs.fat_entries(),
        fs.fat_copies_on_disk(c, disk.len()),
    ensures
        fs.fat_entry(fs.set_fat(disk, c, v, fs.num_fats as nat), c) == v % 0x10000000,
{
    assert forall|j: int| 0 <= j < fs.num_fats implies #[trigger] fs.copy_on_disk(j, c, disk.len()) by {
        assert(j * fs.sectors_per_fat <= (fs.num_fats - 1) * fs.sectors_per_fat) by (nonlinear_arith)
            requires
                0 <= j <= fs.num_fats - 1,
                fs.sectors_per_fat >= 0,
        ;
    }
    lemma_set_fat_first(fs, disk, c, v, fs.num_fats as nat);
    lemma_merge_low_bits(v, le32(disk, fs.fat_entry_pos(0, c)) as u32);
}

proof fn lemma_set_fat_first(fs: FatFs, disk: Seq<u8>, c: int, v: u32, n: nat)
    requires
        fs.wf(),
        0 <= c < fs.fat_entries(),
        1 <= n <= fs.num_fats,
        forall|j: int| 0 <= j < fs.num_fats ==> #[trigger] fs.copy_on_disk(j, c, disk.len()),
    ensures
        le32(fs.set_fat(disk, c, v, n), fs.fat_entry_pos(0, c)) == merge_link(v, le32(disk, fs.fat_entry_pos(0, c)) as u32),
        fs.set_fat(disk, c, v, n).len() == disk.len(),
    decreases n,
{
    let p0 = fs.fat_entry_pos(0, c);
    fs.lemma_copy_pos(0, c, disk.len());
    if n == 1 {
        assert(fs.set_fat(disk, c, v, 0) == disk);
        lemma_le32_put_here(disk, p0, merge_link(v, le32(disk, p0) as u32));
    } else {
        lemma_set_fat_first(fs, disk, c, v, (n - 1) as nat);
        let d = fs.set_fat(disk, c, v, (n - 1) as nat);
        let p = fs.fat_entry_pos(n - 1, c);
        fs.lemma_copy_pos(n - 1, c, disk.len());
        assert(p >= p0 + 512) by (nonlinear_arith)
            requires
                p == (fs.fat_start_lba + (n - 1) * fs.sectors_per_fat) * 512 + 4 * c,
                p0 == (fs.fat_start_lba + 0 * fs.sectors_per_fat) * 512 + 4 * c,
                n >= 2,
                c < fs.sectors_per_fat * 128,
                c >= 0,
        ;
        lemma_le32_put_far(d, p, le32_bytes(merge_link(v, le32(d, p) as u32)), p0);
    }
}


/// Storing link `v` in entry `c` of FAT copies `0..n` leaves copy `j < n`
/// holding `v` there (its low 28 bits).
proof fn lemma_set_fat_copy(fs: FatFs, disk: Seq<u8>, c: int, v: u32, n: nat, j: int)
    requires
        fs.wf(),
        0 <= c < fs.fat_entries(),
        0 <= j < n <= fs.num_fats,
        forall|k: int| 0 <= k < fs.num_fats ==> #[trigger] fs.copy_on_disk(k, c, disk.len()),
    ensures
        fs.fat_copy_entry(fs.set_fat(disk, c, v, n), j, c) == v % 0x10000000,
    decreases n,
{
    let d = fs.set_fat(disk, c, v, (n - 1) as nat);
    let p = fs.fat_entry_pos(n - 1, c);
    let pj = fs.fat_entry_pos(j, c);
    fs.lemma_set_fat_len(disk, c, v, (n - 1) as nat);
    fs.lemma_copy_pos(n - 1, c, disk.len());
    fs.lemma_copy_pos(j, c, disk.len());
    if n - 1 == j {
        lemma_le32_put_here(d, p, merge_link(v, le32(d, p) as u32));
        lemma_merge_low_bits(v, le32(d, p) as u32);
    } else {
        lemma_set_fat_copy(fs, disk, c, v, (n - 1) as nat, j);
        fs.lemma_fat_pos_bounds(j, c);
        fs.lemma_fat_pos_bounds(n - 1, c);
        assert((j + 1) * fs.sectors_per_fat * 512 <= (n - 1) * fs.sectors_per_fat * 512) by (nonlinear_arith)
            requires
                j + 1 <= n - 1,
                fs.sectors_per_fat >= 0,
        ;
        lemma_le32_put_far(d, p, le32_bytes(merge_link(v, le32(d, p) as u32)), pj);
    }
}

/// Storing a link in entry `c` of FAT copies `0..n` leaves entry `c2 != c`
/// of every copy alone.
proof fn lemma_set_fat_other(fs: FatFs, disk: Seq<u8>, c: int, v: u32, n: nat, j: int, c2: int)
    requires
        fs.wf(),
        0 <= c < fs.fat_entries(),
        0 <= c2 < fs.fat_entries(),
        c2 != c,
        0 <= j < fs.num_fats,
        n <= fs.num_fats,
        forall|k: int| 0 <= k < fs.num_fats ==> #[trigger] fs.copy_on_disk(k, c, disk.len()),
        fs.copy_on_disk(j, c2, disk.len()),
    ensures
        le32(fs.set_fat(disk, c, v, n), fs.fat_entry_pos(j, c2)) == le32(disk, fs.fat_entry_pos(j, c2)),
    decreases n,
{
    if n > 0 {
        let d = fs.set_fat(disk, c, v, (n - 1) as nat);
        let p = fs.fat_entry_pos(n - 1, c);
        let q = fs.fat_entry_pos(j, c2);
        lemma_set_fat_other(fs, disk, c, v, (n - 1) as nat, j, c2);
        fs.lemma_set_fat_len(disk, c, v, (n - 1) as nat);
        fs.lemma_copy_pos(n - 1, c, disk.len());
        fs.lemma_copy_pos(j, c2, disk.len());
        fs.lemma_fat_pos_bounds(j, c2);
        fs.lemma_fat_pos_bounds(n - 1, c);
        if n - 1 < j {
            assert(n * fs.sectors_per_fat * 512 <= j * fs.sectors_per_fat * 512) by (nonlinear_arith)
                requires
                    n <= j,
                    fs.sectors_per_fat >= 0,
            ;
        } else if n - 1 > j {
            assert((j + 1) * fs.sectors_per_fat * 512 <= (n - 1) * fs.sectors_per_fat * 512) by (nonlinear_arith)
                requires
                    j + 1 <= n - 1,
                    fs.sectors_per_fat >= 0,
            ;
        }
        lemma_le32_put_far(d, p, le32_bytes(merge_link(v, le32(d, p) as u32)), q);
    }
}


/// Storing a link in entry `c` of every FAT copy leaves the copies agreeing
/// on `c`, and on every other entry on which they agreed.
proof fn lemma_set_fat_mirrored(fs: FatFs, disk: Seq<u8>, c: int, v: u32, x: int)
    requires
        fs.wf(),
        0 <= c < fs.fat_entries(),
        0 <= x < fs.fat_entries(),
        fs.fat_copies_on_disk(c, disk.len()),
        fs.fat_copies_on_disk(x, disk.len()),
        x == c || fs.mirrored(disk, x),
    ensures
        fs.mirrored(fs.set_fat(disk, c, v, fs.num_fats as nat), x),
{
    let d = fs.set_fat(disk, c, v, fs.num_fats as nat);
    assert forall|k: int| 0 <= k < fs.num_fats implies #[trigger] fs.copy_on_disk(k, c, disk.len()) by {
        assert(k * fs.sectors_per_fat <= (fs.num_fats - 1) * fs.sectors_per_fat) by (nonlinear_arith)
            requires
                0 <= k <= fs.num_fats - 1,
                fs.sectors_per_fat >= 0,
        ;
    }
    assert forall|k: int| 0 <= k < fs.num_fats implies #[trigger] fs.copy_on_disk(k, x, disk.len()) by {
        assert(k * fs.sectors_per_fat <= (fs.num_fats - 1) * fs.sectors_per_fat) by (nonlinear_arith)
            requires
                0 <= k <= fs.num_fats - 1,
                fs.sectors_per_fat >= 0,
        ;
    }
    assert forall|j: int| 0 <= j < fs.num_fats implies #[trigger] fs.fat_copy_entry(d, j, x) == fs.fat_entry(d, x) by {
        assert(fs.copy_on_disk(0, x, disk.len()));
        if x == c {
            lemma_set_fat_copy(fs, disk, c, v, fs.num_fats as nat, j);
            lemma_set_fat_copy(fs, disk, c, v, fs.num_fats as nat, 0);
        } else {
            lemma_set_fat_other(fs, disk, c, v, fs.num_fats as nat, j, x);
            lemma_set_fat_other(fs, disk, c, v, fs.num_fats as nat, 0, x);
            assert(fs.fat_copy_entry(disk, j, x) == fs.fat_entry(disk, x));
        }
    }
}

/// A change that leaves the FATs alone leaves the copies agreeing on every
/// entry on which they agreed.
proof fn lemma_keeps_mirrored(fs: FatFs, d1: Seq<u8>, d2: Seq<u8>, allowed: spec_fn(int) -> bool, x: int)
    requires
        fs.wf(),
        0 <= x < fs.fat_entries(),
        fs.fat_copies_on_disk(x, d1.len()),
        changes_only(d1, d2, allowed),
        forall|i: int| #[trigger] fs.in_fat(i) ==> !allowed(i),
        fs.mirrored(d1, x),
    ensures
        fs.mirrored(d2, x),
{
    assert forall|j: int| 0 <= j < fs.num_fats implies #[trigger] fs.fat_copy_entry(d2, j, x) == fs.fat_entry(d2, x) by {
        assert forall|k: int| 0 <= k < fs.num_fats implies le32(d2, #[trigger] fs.fat_entry_pos(k, x)) == le32(d1, fs.fat_entry_pos(k, x)) by {
            assert(k * fs.sectors_per_fat <= (fs.num_fats - 1) * fs.sectors_per_fat) by (nonlinear_arith)
                requires
                    0 <= k <= fs.num_fats - 1,
                    fs.sectors_per_fat >= 0,
            ;
            assert(fs.copy_on_disk(k, x, d1.len()));
            fs.lemma_copy_pos(k, x, d1.len());
            fs.lemma_fat_pos_bounds(k, x);
            let p = fs.fat_entry_pos(k, x);
            assert(fs.in_fat(p) && fs.in_fat(p + 1) && fs.in_fat(p + 2) && fs.in_fat(p + 3));
            assert(d2[p] == d1[p] && d2[p + 1] == d1[p + 1] && d2[p + 2] == d1[p + 2] && d2[p + 3] == d1[p + 3]);
        }
        assert(le32(d2, fs.fat_entry_pos(j, x)) == le32(d1, fs.fat_entry_pos(j, x)));
        assert(le32(d2, fs.fat_entry_pos(0, x)) == le32(d1, fs.fat_entry_pos(0, x)));
        assert(fs.fat_copy_entry(d1, j, x) == fs.fat_entry(d1, x));
    }
}


/// One step of allocating a chain (claim `c`, zero its data, link the
/// former last cluster `prev` to it) keeps every FAT copy agreeing on the
/// chain's clusters.
proof fn lemma_alloc_mirrored(fs: FatFs, d0: Seq<u8>, d1: Seq<u8>, d2: Seq<u8>, dn: Seq<u8>, l: Seq<int>, c: int, prev: int, eoc: u32)
    requires
        fs.wf(),
        forall|i: int|
            0 <= i < l.len() ==> 0 <= #[trigger] l[i] < fs.fat_entries() && fs.fat_copies_on_disk(l[i], d0.len()) && fs.mirrored(
                d0,
                l[i],
            ),
        0 <= c < fs.fat_entries(),
        fs.fat_copies_on_disk(c, d0.len()),
        d1 == fs.set_fat(d0, c, eoc, fs.num_fats as nat),
        d1.len() == d0.len(),
        changes_only(d1, d2, fs.data_area()),
        l.len() == 0 ==> dn == d2,
        l.len() > 0 ==> prev == l.last() && dn == fs.set_fat(d2, prev, c as u32, fs.num_fats as nat),
        c < 0x1_0000_0000,
    ensures
        forall|i: int|
            0 <= i < l.push(c).len() ==> fs.fat_copies_on_disk(#[trigger] l.push(c)[i], dn.len()) && fs.mirrored(dn, l.push(c)[i]),
        dn.len() == d0.len(),
{
    let l2 = l.push(c);
    assert forall|i: int| 0 <= i < l2.len() implies fs.mirrored(d2, #[trigger] l2[i]) && 0 <= l2[i] < fs.fat_entries()
        && fs.fat_copies_on_disk(l2[i], d0.len()) by {
        if i < l.len() {
            assert(l2[i] == l[i]);
        }
        lemma_set_fat_mirrored(fs, d0, c, eoc, l2[i]);
        assert forall|j: int| #[trigger] fs.in_fat(j) ==> !(fs.data_area())(j) by {}
        lemma_keeps_mirrored(fs, d1, d2, fs.data_area(), l2[i]);
    }
    if l.len() > 0 {
        assert(l.last() == l[l.len() - 1]);
        assert forall|j: int| 0 <= j < fs.num_fats implies #[trigger] fs.copy_on_disk(j, prev, d2.len()) by {
            assert(j * fs.sectors_per_fat <= (fs.num_fats - 1) * fs.sectors_per_fat) by (nonlinear_arith)
                requires
                    0 <= j <= fs.num_fats - 1,
                    fs.sectors_per_fat >= 0,
            ;
        }
        fs.lemma_set_fat_len(d2, prev, c as u32, fs.num_fats as nat);
        assert forall|i: int| 0 <= i < l2.len() implies fs.mirrored(dn, #[trigger] l2[i]) by {
            assert(fs.mirrored(d2, l2[i]));
            lemma_set_fat_mirrored(fs, d2, prev, c as u32, l2[i]);
        }
    }
}


/// Storing a link in an entry of every FAT copy keeps the copies agreeing
/// wherever they agreed.
proof fn lemma_set_fat_keeps(fs: FatFs, disk: Seq<u8>, c: int, v: u32)
    requires
        fs.wf(),
        0 <= c < fs.fat_entries(),
        fs.fat_copies_on_disk(c, disk.len()),
    ensures
        fs.keeps_mirrored(disk, fs.set_fat(disk, c, v, fs.num_fats as nat)),
{
    assert forall|x: int|
        0 <= x < fs.fat_entries() && fs.fat_copies_on_disk(x, disk.len()) && #[trigger] fs.mirrored(disk, x) implies fs.mirrored(
        fs.set_fat(disk, c, v, fs.num_fats as nat),
        x,
    ) by {
        lemma_set_fat_mirrored(fs, disk, c, v, x);
    }
}

/// A change that leaves the FATs alone keeps the copies agreeing wherever
/// they agreed.
proof fn lemma_keeps_mirrored_outside(fs: FatFs, d1: Seq<u8>, d2: Seq<u8>, allowed: spec_fn(int) -> bool)
    requires
        fs.wf(),
        changes_only(d1, d2, allowed),
        forall|i: int| #[trigger] fs.in_fat(i) ==> !allowed(i),
    ensures
        fs.keeps_mirrored(d1, d2),
{
    assert forall|x: int|
        0 <= x < fs.fat_entries() && fs.fat_copies_on_disk(x, d1.len()) && #[trigger] fs.mirrored(d1, x) implies fs.mirrored(d2, x) by {
        lemma_keeps_mirrored(fs, d1, d2, allowed, x);
    }
}

/// Keeping the copies agreeing composes.
proof fn lemma_keeps_mirrored_trans(fs: FatFs, d0: Seq<u8>, d1: Seq<u8>, d2: Seq<u8>)
    requires
        fs.keeps_mirrored(d0, d1),
        fs.keeps_mirrored(d1, d2),
        d1.len() == d0.len(),
    ensures
        fs.keeps_mirrored(d0, d2),
{
    assert forall|x: int|
        0 <= x < fs.fat_entries() && fs.fat_copies_on_disk(x, d0.len()) && #[trigger] fs.mirrored(d0, x) implies fs.mirrored(d2, x) by {
        assert(fs.mirrored(d1, x));
    }
}

/// A disk keeps its own agreeing copies.
proof fn lemma_keeps_mirrored_refl(fs: FatFs, d: Seq<u8>)
    ensures
        fs.keeps_mirrored(d, d),
{
}


impl FatFs {
    /// The byte range of FAT entry `c` in copy `j` lies before the data area.
    proof fn lemma_fat_pos_bounds(&self, j: int, c: int)
        requires
            self.wf(),
            0 <= j < self.num_fats,
            0 <= c < self.fat_entries(),
        ensures
            self.fat_start_lba * 512 + j * self.sectors_per_fat * 512 <= self.fat_entry_pos(j, c),
            self.fat_entry_pos(j, c) + 4 <= self.fat_start_lba * 512 + (j + 1) * self.sectors_per_fat * 512,
            self.fat_entry_pos(j, c) + 4 <= self.data_start_lba * 512,
            self.fat_entry_pos(j, c) == self.fat_start_lba * 512 + j * self.sectors_per_fat * 512 + 4 * c,
    {
        assert((self.fat_start_lba + j * self.sectors_per_fat) * 512 == self.fat_start_lba * 512 + j * self.sectors_per_fat * 512)
            by (nonlinear_arith);
        assert((j + 1) * self.sectors_per_fat * 512 == j * self.sectors_per_fat * 512 + self.sectors_per_fat * 512) by (nonlinear_arith);
        assert((j + 1) * self.sectors_per_fat <= self.num_fats * self.sectors_per_fat) by (nonlinear_arith)
            requires
                j + 1 <= self.num_fats,
                self.sectors_per_fat >= 0,
        ;
        assert(j * self.sectors_per_fat * 512 >= 0) by (nonlinear_arith)
            requires
                j >= 0,
                self.sectors_per_fat >= 0,
        ;
    }

    /// The bytes of cluster `x` (`x >= 2`) lie in the data area.
    pub proof fn lemma_cluster_bounds(&self, x: int)
        requires
            self.wf(),
            x >= 2,
        ensures
            self.cluster_lba(x) * 512 >= self.data_start_lba * 512,
            self.cluster_bytes() >= 512,
    {
        assert((x - 2) * self.sectors_per_cluster >= 0) by (nonlinear_arith)
            requires
                x >= 2,
                self.sectors_per_cluster >= 0,
        ;
    }

    /// Clusters `x != c` (both at least 2) occupy disjoint byte ranges.
    proof fn lemma_clusters_apart(&self, x: int, c: int)
        requires
            self.wf(),
            x >= 2,
            c >= 2,
            x != c,
        ensures
            self.cluster_lba(x) * 512 + self.cluster_bytes() <= self.cluster_lba(c) * 512 || self.cluster_lba(c) * 512
                + self.cluster_bytes() <= self.cluster_lba(x) * 512,
    {
        let s = self.sectors_per_cluster as int;
        if x < c {
            assert((x - 2) * s + s <= (c - 2) * s) by (nonlinear_arith)
                requires
                    x < c,
                    s >= 0,
            ;
        } else {
            assert((c - 2) * s + s <= (x - 2) * s) by (nonlinear_arith)
                requires
                    c < x,
                    s >= 0,
            ;
        }
    }

    /// Storing bytes over FAT entry `c` of some copy leaves every cluster's
    /// data and every other cluster's link alone.
    proof fn lemma_put_fat_frame(&self, disk: Seq<u8>, j: int, c: int, b: Seq<u8>)
        requires
            self.wf(),
            0 <= j < self.num_fats,
            0 <= c < self.fat_entries(),
            b.len() == 4,
            self.fat_entry_pos(j, c) + 4 <= disk.len(),
        ensures
            self.frame(disk, put_bytes(disk, self.fat_entry_pos(j, c), b), Set::empty(), set![c]),
    {
        let p = self.fat_entry_pos(j, c);
        let n = put_bytes(disk, p, b);
        self.lemma_fat_pos_bounds(j, c);
        assert(n.len() == disk.len());
        assert forall|x: int| 2 <= x < self.fat_entries() && !Set::<int>::empty().contains(x) implies #[trigger] self.same_data(disk, n, x) by {
            if self.cluster_on_disk(x, disk.len()) {
                self.lemma_cluster_bounds(x);
                let lo = self.cluster_lba(x) * 512;
                assert forall|k: int| 0 <= k < self.cluster_bytes() implies self.cluster_data(n, x)[k] == self.cluster_data(disk, x)[k] by {
                    assert(lo + k >= p + 4);
                    assert(n[lo + k] == disk.skip(p + 4)[lo + k - p - 4]);
                }
                assert(self.cluster_data(n, x) =~= self.cluster_data(disk, x));
            }
        }
        assert forall|x: int| 2 <= x < self.fat_entries() && !set![c].contains(x) implies #[trigger] self.same_link(disk, n, x) by {
            if self.fat_entry_on_disk(x, disk.len()) {
                let q = self.fat_entry_pos(0, x);
                self.lemma_fat_pos_bounds(0, x);
                assert(q + 4 <= disk.len()) by {
                    self.lemma_copy_pos(0, x, disk.len());
                }
                if j > 0 {
                    assert(j * self.sectors_per_fat * 512 >= self.sectors_per_fat * 512) by (nonlinear_arith)
                        requires
                            j >= 1,
                            self.sectors_per_fat >= 0,
                    ;
                    assert(q + 4 <= p);
                } else {
                    assert(p == self.fat_start_lba * 512 + 4 * c);
                    assert(q == self.fat_start_lba * 512 + 4 * x);
                    assert(x != c);
                    assert(q + 4 <= p || p + 4 <= q);
                }
                lemma_le32_put_far(disk, p, b, q);
            }
        }
    }

    /// Storing a link in FAT entry `c` of copies `0..n` leaves every
    /// cluster's data and every other cluster's link alone.
    proof fn lemma_set_fat_frame(&self, disk: Seq<u8>, c: int, v: u32, n: nat)
        requires
            self.wf(),
            0 <= c < self.fat_entries(),
            n <= self.num_fats,
            forall|j: int| 0 <= j < self.num_fats ==> #[trigger] self.copy_on_disk(j, c, disk.len()),
        ensures
            self.frame(disk, self.set_fat(disk, c, v, n), Set::empty(), set![c]),
        decreases n,
    {
        if n == 0 {
            lemma_frame_refl(*self, disk);
            assert(Set::<int>::empty().subset_of(set![c]));
            crate::clusters::lemma_frame_widen(*self, disk, disk, Set::empty(), Set::empty(), Set::empty(), set![c]);
        } else {
            self.lemma_set_fat_frame(disk, c, v, (n - 1) as nat);
            let d = self.set_fat(disk, c, v, (n - 1) as nat);
            let pos = self.fat_entry_pos(n - 1, c);
            self.lemma_set_fat_len(disk, c, v, (n - 1) as nat);
            self.lemma_copy_pos(n - 1, c, disk.len());
            self.lemma_put_fat_frame(d, n - 1, c, le32_bytes(merge_link(v, le32(d, pos) as u32)));
            lemma_frame_trans(*self, disk, d, self.set_fat(disk, c, v, n), Set::empty(), set![c], Set::empty(), set![c]);
            assert(Set::<int>::empty().union(Set::<int>::empty()) =~= Set::<int>::empty());
            assert(set![c].union(set![c]) =~= set![c]);
        }
    }

    /// A change confined to the bytes before the first FAT sector leaves
    /// every cluster's data and link alone.
    proof fn lemma_reserved_frame(&self, d1: Seq<u8>, d2: Seq<u8>)
        requires
            self.wf(),
            d1.len() == d2.len(),
            forall|k: int| self.fat_start_lba * 512 <= k < d1.len() ==> #[trigger] d2[k] == d1[k],
        ensures
            self.frame(d1, d2, Set::empty(), Set::empty()),
    {
        assert forall|x: int| 2 <= x < self.fat_entries() && !Set::<int>::empty().contains(x) implies #[trigger] self.same_data(d1, d2, x) by {
            if self.cluster_on_disk(x, d1.len()) {
                self.lemma_cluster_bounds(x);
                self.lemma_fat_pos_bounds(0, 0);
                let lo = self.cluster_lba(x) * 512;
                assert forall|k: int| 0 <= k < self.cluster_bytes() implies self.cluster_data(d2, x)[k] == self.cluster_data(d1, x)[k] by {
                    assert(d2[lo + k] == d1[lo + k]);
                }
                assert(self.cluster_data(d2, x) =~= self.cluster_data(d1, x));
            }
        }
        assert forall|x: int| 2 <= x < self.fat_entries() && !Set::<int>::empty().contains(x) implies #[trigger] self.same_link(d1, d2, x) by {
            if self.fat_entry_on_disk(x, d1.len()) {
                let q = self.fat_entry_pos(0, x);
                self.lemma_fat_pos_bounds(0, x);
                self.lemma_copy_pos(0, x, d1.len());
                assert(d2[q] == d1[q] && d2[q + 1] == d1[q + 1] && d2[q + 2] == d1[q + 2] && d2[q + 3] == d1[q + 3]);
            }
        }
    }

    /// A change to the FsInfo sector alone leaves every cluster's data and
    /// link alone when the FATs start after it.
    proof fn lemma_fsinfo_frame(&self, d1: Seq<u8>, d2: Seq<u8>)
        requires
            self.wf(),
            self.reserved_sectors >= 2,
            changes_only(d1, d2, |i: int| 512 <= i < 1024),
        ensures
            self.frame(d1, d2, Set::empty(), Set::empty()),
    {
        assert forall|k: int| self.fat_start_lba * 512 <= k < d1.len() implies #[trigger] d2[k] == d1[k] by {
            assert(!(512 <= k < 1024));
        }
        self.lemma_reserved_frame(d1, d2);
    }

    /// Storing bytes within cluster `c` leaves every other cluster's data and
    /// every link alone; the cluster holds the stored bytes over its old ones.
    proof fn lemma_put_cluster_frame(&self, disk: Seq<u8>, c: int, off: int, b: Seq<u8>)
        requires
            self.wf(),
            c >= 2,
            0 <= off,
            off + b.len() <= self.cluster_bytes(),
            self.cluster_on_disk(c, disk.len()),
        ensures
            self.frame(disk, put_bytes(disk, self.cluster_lba(c) * 512 + off, b), set![c], Set::empty()),
            self.cluster_data(put_bytes(disk, self.cluster_lba(c) * 512 + off, b), c) == put_bytes(
                self.cluster_data(disk, c),
                off,
                b,
            ),
    {
        let lo = self.cluster_lba(c) * 512;
        let p = lo + off;
        let n = put_bytes(disk, p, b);
        self.lemma_cluster_bounds(c);
        assert(n.len() == disk.len());
        assert forall|k: int| 0 <= k < disk.len() && !(p <= k < p + b.len()) implies #[trigger] n[k] == disk[k] by {
            if k < p {
                assert(n[k] == disk.subrange(0, p)[k]);
            } else {
                assert(n[k] == disk.skip(p + b.len())[k - p - b.len()]);
            }
        }
        assert forall|k: int| p <= k < p + b.len() implies #[trigger] n[k] == b[k - p] by {
            assert(n[k] == (disk.subrange(0, p) + b)[k]);
        }
        assert(self.cluster_data(n, c) =~= put_bytes(self.cluster_data(disk, c), off, b));
        assert forall|x: int| 2 <= x < self.fat_entries() && !set![c].contains(x) implies #[trigger] self.same_data(disk, n, x) by {
            if self.cluster_on_disk(x, disk.len()) {
                self.lemma_clusters_apart(x, c);
                let lx = self.cluster_lba(x) * 512;
                assert forall|k: int| 0 <= k < self.cluster_bytes() implies self.cluster_data(n, x)[k] == self.cluster_data(disk, x)[k] by {
                    assert(n[lx + k] == disk[lx + k]);
                }
                assert(self.cluster_data(n, x) =~= self.cluster_data(disk, x));
            }
        }
        assert forall|x: int| 2 <= x < self.fat_entries() && !Set::<int>::empty().contains(x) implies #[trigger] self.same_link(disk, n, x) by {
            if self.fat_entry_on_disk(x, disk.len()) {
                let q = self.fat_entry_pos(0, x);
                self.lemma_fat_pos_bounds(0, x);
                self.lemma_copy_pos(0, x, disk.len());
                assert(n[q] == disk[q] && n[q + 1] == disk[q + 1] && n[q + 2] == disk[q + 2] && n[q + 3] == disk[q + 3]);
            }
        }
    }
}

impl FatFs {
    /// Update the FsInfo sector (sector 1) after `delta_free` clusters were
    /// freed (positive) or allocated (negative); `last_alloc`, when not zero,
    /// becomes the next-free hint. A sector without the FsInfo signatures is
    /// left alone.
    fn update_fsinfo<D: BlockDevice>(&self, dev: &mut D, delta_free: i32, last_alloc: u32) -> (r: Result<(), FsError>)
        ensures
            final(dev).reliable() == old(dev).reliable(),
            changes_only(old(dev).contents(), final(dev).contents(), |i: int| 512 <= i < 1024),
            old(dev).reliable() && old(dev).contents().len() >= 1024 ==> r is Ok,
            match r {
                Ok(()) => old(dev).contents().len() >= 1024 && match fsinfo_update(block_of(old(dev).contents(), 1), delta_free, last_alloc) {
                    None => final(dev).contents() == old(dev).contents(),
                    Some(s) => final(dev).contents() == with_block(old(dev).contents(), 1, s),
                },
                Err(e) => e == FsError::Io,
            },
    {
        let ghost disk = old(dev).contents();
        let mut buf = read_sector(dev, 1)?;
        let ghost sec = buf@;
        let lead = le32_at(buf.as_slice(), 0);
        let strct = le32_at(buf.as_slice(), 484);
        if lead != 0x4161_5252 || strct != 0x6141_7272 {
            return Ok(());
        }
        let mut free = le32_at(buf.as_slice(), 0x1E8);
        if free != 0xFFFF_FFFF {
            let t: i64 = free as i64 + delta_free as i64;
            let m: i64 = if t < 0 { 0 } else { t };
            free = m as u32;
            le32_into(&mut buf, 0x1E8, free);
        }
        if last_alloc != 0 {
            le32_into(&mut buf, 0x1EC, last_alloc);
        }
        assert(Some(buf@) == fsinfo_update(sec, delta_free, last_alloc));
        write_sector(dev, 1, &buf)
    }

    /// The first cluster whose FAT entry is 0 (free).
    fn find_free_cluster<D: BlockDevice>(&self, dev: &mut D) -> (r: Result<u32, FsError>)
        requires
            self.wf(),
        ensures
            final(dev).contents() == old(dev).contents(),
            final(dev).reliable() == old(dev).reliable(),
            match r {
                Ok(c) => 2 <= c < self.alloc_limit() && self.fat_entry_on_disk(c as int, old(dev).contents().len())
                    && self.fat_entry(old(dev).contents(), c as int) == 0 && forall|k: int|
                    2 <= k < c ==> self.fat_entry(old(dev).contents(), k) != 0,
                Err(e) => e == FsError::Io && (old(dev).reliable() && self.fat_on_disk(old(dev).contents().len())
                    ==> forall|k: int| 2 <= k < self.alloc_limit() ==> self.fat_entry(old(dev).contents(), k) != 0),
            },
    {
        let ghost disk = old(dev).contents();
        let total: u64 = self.sectors_per_fat as u64 * 128;
        let limit: u64 = if total < 0x0FFFFFF8 { total } else { 0x0FFFFFF8 };
        let mut cached: Option<(u64, Vec<u8>)> = None;
        let mut c: u64 = 2;
        while c < limit
            invariant
                self.wf(),
                dev.contents() == disk,
                disk == old(dev).contents(),
                dev.reliable() == old(dev).reliable(),
                limit == self.alloc_limit(),
                2 <= c,
                c <= limit || limit < 2,
                limit <= 0x0FFFFFF8,
                forall|k: int| 2 <= k < c ==> self.fat_entry(disk, k) != 0,
                forall|k: int| 2 <= k < c ==> self.fat_entry_on_disk(k, disk.len()),
                match cached {
                    Some((s, b)) => (s + 1) * 512 <= disk.len() && b@ == block_of(disk, s as int),
                    None => true,
                },
            decreases limit - c,
        {
            let fat_offset: u64 = c * 4;
            let fat_sector: u64 = self.fat_start_lba as u64 + fat_offset / 512;
            let in_sector: usize = (fat_offset % 512) as usize;
            assert(in_sector + 4 <= 512) by {
                assert((fat_offset % 512) % 4 == 0) by (nonlinear_arith)
                    requires
                        fat_offset == c * 4,
                ;
            }
            assert(fat_sector * 512 + in_sector == self.fat_entry_pos(0, c as int)) by (nonlinear_arith)
                requires
                    fat_sector == self.fat_start_lba + fat_offset / 512,
                    in_sector == fat_offset % 512,
                    fat_offset == c * 4,
            ;
            let reuse = match &cached {
                Some((s, _)) => *s == fat_sector,
                None => false,
            };
            if !reuse {
                match read_sector(dev, fat_sector) {
                    Ok(b) => {
                        cached = Some((fat_sector, b));
                    },
                    Err(e) => {
                        proof {
                            if dev.reliable() && self.fat_on_disk(disk.len()) {
                                assert((fat_sector + 1) * 512 <= disk.len()) by (nonlinear_arith)
                                    requires
                                        fat_sector == self.fat_start_lba + fat_offset / 512,
                                        fat_offset == c * 4,
                                        c < self.sectors_per_fat * 128,
                                        self.fat_on_disk(disk.len()),
                                ;
                            }
                        }
                        return Err(e);
                    },
                }
            }
            let raw = match &cached {
                Some((_, b)) => le32_at(b.as_slice(), in_sector),
                None => 0,
            };
            proof {
                let pos = self.fat_entry_pos(0, c as int);
                assert(raw == le32(disk, pos));
            }
            let masked = raw & CLUSTER_MASK;
            assert(masked == raw % 0x10000000) by (bit_vector)
                requires
                    masked == raw & 0x0FFFFFFF,
            ;
            if masked == 0 {
                return Ok(c as u32);
            }
            c = c + 1;
        }
        Err(FsError::Io)
    }
}


impl FatFs {
    /// Cluster `c` lies in the data area.
    proof fn lemma_cluster_in_data(&self, c: int, x: int)
        requires
            self.wf(),
            c >= 2,
            self.cluster_lba(c) * 512 <= x,
        ensures
            self.in_data(x),
    {
        assert((c - 2) * self.sectors_per_cluster >= 0) by (nonlinear_arith)
            requires
                c >= 2,
                self.sectors_per_cluster >= 0,
        ;
    }

    /// Write the first `cluster_bytes()` bytes of `data` to cluster `cluster`.
    fn write_cluster<D: BlockDevice>(&self, dev: &mut D, cluster: u32, data: &[u8]) -> (r: Result<(), FsError>)
        requires
            self.wf(),
            cluster >= 2,
            data@.len() >= self.cluster_bytes(),
        ensures
            final(dev).reliable() == old(dev).reliable(),
            changes_only(old(dev).contents(), final(dev).contents(), self.data_area()),
            old(dev).reliable() && self.cluster_on_disk(cluster as int, old(dev).contents().len()) ==> r is Ok,
            match r {
                Ok(()) => self.cluster_on_disk(cluster as int, old(dev).contents().len()) && final(dev).contents()
                    == put_bytes(old(dev).contents(), self.cluster_lba(cluster as int) * 512, data@.take(self.cluster_bytes() as int)),
                Err(e) => e == FsError::Io,
            },
            r is Ok ==> self.frame(old(dev).contents(), final(dev).contents(), set![cluster as int], Set::empty())
                && self.cluster_data(final(dev).contents(), cluster as int) == data@.take(self.cluster_bytes() as int),
    {
        let ghost disk = old(dev).contents();
        let lba = self.cluster_to_lba(cluster);
        let spc: u64 = self.sectors_per_cluster as u64;
        let mut sec: u64 = 0;
        while sec < spc
            invariant
                self.wf(),
                cluster >= 2,
                lba == self.cluster_lba(cluster as int),
                lba < 0x100_0000_0000,
                spc == self.sectors_per_cluster,
                data@.len() >= self.cluster_bytes(),
                sec <= spc,
                disk == old(dev).contents(),
                dev.reliable() == old(dev).reliable(),
                changes_only(disk, dev.contents(), self.data_area()),
                sec > 0 ==> (lba + sec) * 512 <= disk.len(),
                sec > 0 ==> dev.contents() == put_bytes(disk, lba * 512, data@.take(sec * 512)),
                sec == 0 ==> dev.contents() == disk,
                old(dev).reliable() && self.cluster_on_disk(cluster as int, disk.len()) ==> (lba + spc) * 512 <= disk.len(),
            decreases spc - sec,
        {
            let off: usize = (sec as usize) * BLOCK_SIZE;
            assert(off + 512 <= data@.len()) by (nonlinear_arith)
                requires
                    off == sec * 512,
                    sec < spc,
                    spc == self.sectors_per_cluster,
                    data@.len() >= self.sectors_per_cluster * 512,
            ;
            let chunk = slice_prefix(&data[off..off + BLOCK_SIZE], BLOCK_SIZE);
            let ghost d = dev.contents();
            match write_sector(dev, lba + sec, &chunk) {
                Ok(()) => {},
                Err(e) => {
                    proof {
                        assert forall|x: int| 0 <= x < disk.len() && !(self.data_area())(x) implies #[trigger] dev.contents()[x]
                            == disk[x] by {
                            if (lba + sec) * 512 <= x {
                                self.lemma_cluster_in_data(cluster as int, x);
                            }
                            assert(d[x] == disk[x]);
                        }
                    }
                    return Err(e);
                },
            }
            proof {
                assert(chunk@ =~= data@.subrange(off as int, off + 512));
                assert forall|x: int| 0 <= x < disk.len() && !(self.data_area())(x) implies #[trigger] dev.contents()[x]
                    == disk[x] by {
                    if (lba + sec) * 512 <= x {
                        self.lemma_cluster_in_data(cluster as int, x);
                    }
                    assert(d[x] == disk[x]);
                }
                assert(dev.contents() =~= put_bytes(disk, lba * 512, data@.take((sec + 1) * 512)));
            }
            sec = sec + 1;
        }
        proof {
            let t = data@.take(self.cluster_bytes() as int);
            self.lemma_put_cluster_frame(disk, cluster as int, 0, t);
            assert(put_bytes(self.cluster_data(disk, cluster as int), 0, t) =~= t);
            assert(self.cluster_lba(cluster as int) * 512 + 0 == lba * 512);
        }
        Ok(())
    }

    /// Fill cluster `cluster` with zero bytes.
    fn zero_cluster<D: BlockDevice>(&self, dev: &mut D, cluster: u32) -> (r: Result<(), FsError>)
        requires
            self.wf(),
            cluster >= 2,
        ensures
            final(dev).reliable() == old(dev).reliable(),
            changes_only(old(dev).contents(), final(dev).contents(), self.data_area()),
            old(dev).reliable() && self.cluster_on_disk(cluster as int, old(dev).contents().len()) ==> r is Ok,
            match r {
                Ok(()) => self.cluster_on_disk(cluster as int, old(dev).contents().len()) && final(dev).contents()
                    == put_bytes(old(dev).contents(), self.cluster_lba(cluster as int) * 512, zeros(self.cluster_bytes())),
                Err(e) => e == FsError::Io,
            },
            r is Ok ==> self.frame(old(dev).contents(), final(dev).contents(), set![cluster as int], Set::empty())
                && self.cluster_data(final(dev).contents(), cluster as int) == zeros(self.cluster_bytes()),
    {
        let n: usize = self.sectors_per_cluster as usize * BLOCK_SIZE;
        let buf = vec![0u8; n];
        assert(buf@.take(self.cluster_bytes() as int) =~= zeros(self.cluster_bytes()));
        self.write_cluster(dev, cluster, buf.as_slice())
    }
}


pub proof fn lemma_changes_trans(a: Seq<u8>, b: Seq<u8>, c: Seq<u8>, area: spec_fn(int) -> bool)
    requires
        changes_only(a, b, area),
        changes_only(b, c, area),
    ensures
        changes_only(a, c, area),
{
    assert forall|i: int| 0 <= i < a.len() && !area(i) implies #[trigger] c[i] == a[i] by {
        assert(b[i] == a[i]);
        assert(c[i] == b[i]);
    }
}

pub proof fn lemma_changes_weaken(a: Seq<u8>, b: Seq<u8>, small: spec_fn(int) -> bool, big: spec_fn(int) -> bool)
    requires
        changes_only(a, b, small),
        forall|i: int| #[trigger] small(i) ==> big(i),
    ensures
        changes_only(a, b, big),
{
    assert forall|i: int| 0 <= i < a.len() && !big(i) implies #[trigger] b[i] == a[i] by {
        assert(!small(i));
    }
}

impl FatFs {
    proof fn lemma_areas(&self)
        requires
            self.wf(),
        ensures
            forall|i: int| #[trigger] (self.meta_area())(i) ==> (self.writable_area())(i),
            forall|i: int| #[trigger] (self.data_area())(i) ==> (self.writable_area())(i),
            forall|i: int| #[trigger] (self.writable_area())(i) || !(512 <= i < 1024),
    {
        assert(self.data_start_lba >= self.fat_start_lba) by (nonlinear_arith)
            requires
                self.data_start_lba == self.reserved_sectors + self.num_fats * self.sectors_per_fat,
                self.fat_start_lba == self.reserved_sectors,
                self.num_fats >= 0,
                self.sectors_per_fat >= 0,
        ;
    }

    /// Free every cluster of the chain from `start` (FAT entries set to 0),
    /// then credit the FsInfo free count. A chain that does not end within
    /// the cluster range is an I/O error.
    #[verifier::spinoff_prover]
    #[verifier::rlimit(100)]
    fn free_chain<D: BlockDevice>(&self, dev: &mut D, start: u32) -> (r: Result<(), FsError>)
        requires
            self.wf(),
        ensures
            final(dev).reliable() == old(dev).reliable(),
            changes_only(old(dev).contents(), final(dev).contents(), self.writable_area()),
            r is Err ==> r == Err::<(), FsError>(FsError::Io),
            !(2 <= start < 0x0FFFFFF8) ==> r is Ok && final(dev).contents() == old(dev).contents(),
            r is Ok && self.reserved_sectors >= 2 && self.reach_in_fat(old(dev).contents(), start as int) ==> self.frame(
                old(dev).contents(),
                final(dev).contents(),
                Set::empty(),
                self.reach_set(old(dev).contents(), start as int),
            ) && forall|x: int|
                #[trigger] self.reach_set(old(dev).contents(), start as int).contains(x) && self.fat_entry_on_disk(
                    x,
                    old(dev).contents().len(),
                ) ==> self.fat_entry(final(dev).contents(), x) == 0,
            r is Ok && self.reserved_sectors >= 2 && self.reach_in_fat(old(dev).contents(), start as int) ==> self.keeps_mirrored(
                old(dev).contents(),
                final(dev).contents(),
            ),
            old(dev).reliable() && self.reach_in_fat(old(dev).contents(), start as int) && self.data_start_lba * 512 <= old(
                dev,
            ).contents().len() ==> r is Ok,
    {
        let ghost disk = old(dev).contents();
        let ghost rs = self.reach_set(disk, start as int);
        let ghost good = self.reach_in_fat(disk, start as int);
        let ghost gf = good && self.data_start_lba * 512 <= disk.len();
        let ghost rel = old(dev).reliable();
        let ghost mut vis: Seq<int> = Seq::empty();
        proof {
            self.lemma_areas();
        }
        if !(2 <= start && start < EOC_THRESHOLD) {
            proof {
                assert forall|x: int| #[trigger] rs.contains(x) implies false by {
                    self.lemma_reaches_from_cluster(disk, start as int, x);
                }
            }
            return Ok(());
        }
        proof {
            lemma_keeps_mirrored_refl(*self, disk);
            self.lemma_reaches_start(disk, start as int);
            lemma_frame_refl(*self, disk);
            crate::clusters::lemma_frame_widen(*self, disk, disk, Set::empty(), Set::empty(), Set::empty(), rs);
        }
        let mut cluster: u32 = start;
        assert(good ==> self.freeing(disk, dev.contents(), start as int, cluster as int));
        let mut freed: i32 = 0;
        while 2 <= cluster && cluster < EOC_THRESHOLD
            invariant
                self.wf(),
                disk == old(dev).contents(),
                dev.reliable() == old(dev).reliable(),
                changes_only(disk, dev.contents(), self.writable_area()),
                0 <= freed <= 0x0FFFFFF8,
                2 <= start < 0x0FFFFFF8,
                freed == 0 ==> dev.contents() == disk,
                forall|i: int| #[trigger] (self.meta_area())(i) ==> (self.writable_area())(i),
                rs == self.reach_set(disk, start as int),
                good == self.reach_in_fat(disk, start as int),
                good ==> self.frame(disk, dev.contents(), Set::empty(), rs),
                good && 2 <= cluster < 0x0FFFFFF8 ==> self.reaches(disk, start as int, cluster as int),
                good ==> forall|x: int|
                    #[trigger] rs.contains(x) && self.fat_entry_on_disk(x, disk.len()) ==> self.fat_entry(dev.contents(), x)
                        == self.fat_entry(disk, x) || self.fat_entry(dev.contents(), x) == 0,
                good ==> self.freeing(disk, dev.contents(), start as int, cluster as int),
                good ==> self.keeps_mirrored(disk, dev.contents()),
                dev.contents().len() == disk.len(),
                gf == (good && self.data_start_lba * 512 <= disk.len()),
                rel == old(dev).reliable(),
                gf ==> vis.no_duplicates(),
                gf ==> forall|i: int|
                    0 <= i < vis.len() ==> rs.contains(#[trigger] vis[i]) && self.fat_entry(dev.contents(), vis[i]) == 0,
                gf ==> freed == vis.len() || (freed == vis.len() + 1 && !(2 <= cluster < 0x0FFFFFF8)),
            decreases 0x0FFFFFF8 - freed,
        {
            let ghost d = dev.contents();
            proof {
                if gf {
                    assert(rs.contains(cluster as int));
                    self.lemma_fats_on_disk(disk.len(), cluster as int);
                    self.lemma_visit_len(disk, start as int, vis);
                }
            }
            if freed == 0x0FFFFFF8 {
                return Err(FsError::Io);
            }
            let next = self.next_cluster(dev, cluster)?;
            proof {
                if good {
                    assert(rs.contains(cluster as int));
                    assert(cluster < self.fat_entries());
                }
            }
            self.write_fat_entry(dev, cluster, 0)?;
            proof {
                lemma_changes_trans(disk, d, dev.contents(), self.writable_area());
                if good {
                    self.lemma_free_step(disk, d, dev.contents(), start as int, cluster as int, rs);
                    self.lemma_freeing_step(disk, d, dev.contents(), start as int, cluster as int);
                    lemma_keeps_mirrored_trans(*self, disk, d, dev.contents());
                }
                if gf {
                    self.lemma_free_visit(disk, d, dev.contents(), start as int, cluster as int, vis);
                    if !vis.contains(cluster as int) {
                        vis = vis.push(cluster as int);
                    }
                }
            }
            cluster = next;
            freed = freed + 1;
        }
        if freed > 0 {
            let ghost d = dev.contents();
            let _ = self.update_fsinfo(dev, freed, 0);
            proof {
                lemma_changes_weaken(d, dev.contents(), |i: int| 512 <= i < 1024, self.writable_area());
                lemma_changes_trans(disk, d, dev.contents(), self.writable_area());
                if good && self.reserved_sectors >= 2 {
                    assert(forall|j: int| #[trigger] self.in_fat(j) ==> !(512 <= j < 1024));
                    lemma_keeps_mirrored_outside(*self, d, dev.contents(), |i: int| 512 <= i < 1024);
                    lemma_keeps_mirrored_trans(*self, disk, d, dev.contents());
                    self.lemma_fsinfo_frame(d, dev.contents());
                    lemma_frame_trans(*self, disk, d, dev.contents(), Set::empty(), rs, Set::empty(), Set::empty());
                    assert(Set::<int>::empty().union(Set::<int>::empty()) =~= Set::<int>::empty());
                    assert(rs.union(Set::<int>::empty()) =~= rs);
                    assert forall|x: int| #[trigger] rs.contains(x) && self.fat_entry_on_disk(x, disk.len()) implies self.fat_entry(
                        dev.contents(),
                        x,
                    ) == 0 by {
                        assert(self.fat_entry(d, x) == 0);
                        assert(x < self.fat_entries());
                        assert(self.same_link(d, dev.contents(), x));
                    }
                }
            }
        }
        Ok(())
    }

    /// One step of freeing a chain: the cluster's link is now 0, every
    /// cluster of the chain still holds its link or 0, and the link read
    /// before the step leads on along the chain.
    proof fn lemma_free_step(&self, disk: Seq<u8>, d: Seq<u8>, dn: Seq<u8>, start: int, cluster: int, rs: Set<int>)
        requires
            self.wf(),
            rs == self.reach_set(disk, start),
            self.reach_in_fat(disk, start),
            self.frame(disk, d, Set::empty(), rs),
            forall|x: int|
                #[trigger] rs.contains(x) && self.fat_entry_on_disk(x, disk.len()) ==> self.fat_entry(d, x) == self.fat_entry(disk, x)
                    || self.fat_entry(d, x) == 0,
            self.reaches(disk, start, cluster),
            2 <= cluster < 0x0FFFFFF8,
            self.fat_entry_on_disk(cluster, d.len()),
            self.frame(d, dn, Set::empty(), set![cluster]),
            self.fat_entry(dn, cluster) == 0,
        ensures
            self.frame(disk, dn, Set::empty(), rs),
            forall|x: int|
                #[trigger] rs.contains(x) && self.fat_entry_on_disk(x, disk.len()) ==> self.fat_entry(dn, x) == self.fat_entry(disk, x)
                    || self.fat_entry(dn, x) == 0,
            2 <= self.fat_entry(d, cluster) < 0x0FFFFFF8 ==> self.reaches(disk, start, self.fat_entry(d, cluster)),
    {
        assert(rs.contains(cluster));
        if self.fat_entry(d, cluster) == self.fat_entry(disk, cluster) {
            self.lemma_reaches_next(disk, start, cluster);
        }
        lemma_frame_trans(*self, disk, d, dn, Set::empty(), rs, Set::empty(), set![cluster]);
        assert(Set::<int>::empty().union(Set::<int>::empty()) =~= Set::<int>::empty());
        assert(rs.union(set![cluster]) =~= rs);
        assert forall|x: int| #[trigger] rs.contains(x) && self.fat_entry_on_disk(x, disk.len()) implies self.fat_entry(dn, x)
            == self.fat_entry(disk, x) || self.fat_entry(dn, x) == 0 by {
            if x != cluster {
                assert(x < self.fat_entries());
                assert(self.same_link(d, dn, x));
            }
        }
    }

    /// Allocate `count` free clusters, zero them and link them as a chain
    /// ending in an end-of-chain mark; return the first (0 for none). The
    /// FsInfo free count is debited.
    #[verifier::spinoff_prover]
    #[verifier::rlimit(100)]
    fn allocate_chain<D: BlockDevice>(&self, dev: &mut D, count: u32) -> (r: Result<u32, FsError>)
        requires
            self.wf(),
            count < 0x10000000,
        ensures
            final(dev).reliable() == old(dev).reliable(),
            changes_only(old(dev).contents(), final(dev).contents(), self.writable_area()),
            count == 0 ==> r == Ok::<u32, FsError>(0) && final(dev).contents() == old(dev).contents(),
            match r {
                Ok(h) => count > 0 ==> 2 <= h < self.alloc_limit(),
                Err(e) => e == FsError::Io,
            },
            r is Ok && count > 0 && self.reserved_sectors >= 2 ==> exists|l: Seq<int>|
                #[trigger] self.fresh_chain(old(dev).contents(), final(dev).contents(), l) && l.len() == count && l[0] == r->Ok_0
                    && forall|i: int| 0 <= i < l.len() ==> self.cluster_data(final(dev).contents(), #[trigger] l[i]) == zeros(
                    self.cluster_bytes(),
                ) && self.mirrored(final(dev).contents(), l[i]),
            old(dev).reliable() && self.room(old(dev).contents(), count as nat) ==> r is Ok,
            r is Ok && self.reserved_sectors >= 2 ==> self.keeps_mirrored(old(dev).contents(), final(dev).contents()),
            r is Ok && self.reserved_sectors >= 2 && self.data_start_lba * 512 <= old(dev).contents().len() ==> forall|m: int|
                2 <= m <= self.alloc_limit() ==> #[trigger] self.free_count(final(dev).contents(), 2, m) + count >= self.free_count(
                    old(dev).contents(),
                    2,
                    m,
                ),
    {
        if count == 0 {
            return Ok(0);
        }
        let ghost disk = old(dev).contents();
        proof {
            self.lemma_areas();
        }
        let mut head: u32 = 0;
        let mut prev: u32 = 0;
        let mut last: u32 = 0;
        let mut k: u32 = 0;
        let ghost mut l: Seq<int> = Seq::empty();
        let ghost fats = self.data_start_lba * 512 <= disk.len();
        let ghost ok = dev.reliable() && self.room(disk, count as nat);
        proof {
            reveal(FatFs::room);
        }
        let ghost m0: int = if ok {
            choose|m: int| #[trigger] self.room_below(disk, m, count as nat)
        } else {
            2
        };
        proof {
            self.lemma_fresh_empty(disk);
        }
        while k < count
            invariant
                self.wf(),
                count < 0x10000000,
                k <= count,
                disk == old(dev).contents(),
                dev.reliable() == old(dev).reliable(),
                changes_only(disk, dev.contents(), self.writable_area()),
                forall|i: int| #[trigger] (self.meta_area())(i) ==> (self.writable_area())(i),
                forall|i: int| #[trigger] (self.data_area())(i) ==> (self.writable_area())(i),
                forall|i: int| #[trigger] (self.writable_area())(i) || !(512 <= i < 1024),
                k == 0 ==> prev == 0 && head == 0,
                k > 0 ==> 2 <= head < self.alloc_limit() && 2 <= prev < self.alloc_limit(),
                l.len() == k,
                k > 0 ==> head == l[0] && prev == l[k - 1] && last == prev,
                self.fresh_chain(disk, dev.contents(), l),
                forall|i: int| 0 <= i < l.len() ==> self.cluster_data(dev.contents(), #[trigger] l[i]) == zeros(self.cluster_bytes()),
                forall|i: int|
                    0 <= i < l.len() ==> self.fat_copies_on_disk(#[trigger] l[i], disk.len()) && self.mirrored(dev.contents(), l[i]),
                self.keeps_mirrored(disk, dev.contents()),
                fats == (self.data_start_lba * 512 <= disk.len()),
                ok == (old(dev).reliable() && self.room(disk, count as nat)),
                ok ==> dev.reliable() && fats && self.room_below(disk, m0, count as nat),
                fats ==> forall|m: int|
                    2 <= m <= self.alloc_limit() ==> #[trigger] self.free_count(dev.contents(), 2, m) + k >= self.free_count(disk, 2, m),
            decreases count - k,
        {
            let ghost d = dev.contents();
            proof {
                if ok {
                    assert(self.free_count(d, 2, m0) + k >= self.free_count(disk, 2, m0));
                    assert(self.free_count(d, 2, m0) > 0);
                    self.lemma_free_exists(d, 2, m0);
                    self.lemma_fats_on_disk(disk.len(), 0);
                    assert(self.fat_on_disk(d.len()));
                    assert(exists|c0: int| 2 <= c0 < self.alloc_limit() && #[trigger] self.fat_entry(d, c0) == 0);
                }
            }
            let c = self.find_free_cluster(dev)?;
            proof {
                assert(self.alloc_limit() <= self.fat_entries());
                self.lemma_fresh_avoid(disk, d, l, c as int);
                if fats {
                    self.lemma_fats_on_disk(disk.len(), c as int);
                    if k > 0 {
                        self.lemma_fats_on_disk(disk.len(), prev as int);
                    }
                }
                if ok {
                    let c0 = choose|c0: int| 2 <= c0 < m0 && #[trigger] self.fat_entry(d, c0) == 0;
                    assert(c <= c0);
                    assert(self.cluster_on_disk(c as int, disk.len()));
                }
            }
            let ghost d0 = dev.contents();
            self.write_fat_entry(dev, c, EOC_THRESHOLD | 0xF)?;
            let ghost d1 = dev.contents();
            proof {
                lemma_changes_trans(disk, d0, d1, self.writable_area());
                assert((0x0FFFFFF8u32 | 0xFu32) % 0x10000000 == 0x0FFFFFFF) by (bit_vector);
            }
            self.zero_cluster(dev, c)?;
            let ghost d2 = dev.contents();
            proof {
                lemma_changes_weaken(d1, d2, self.data_area(), self.writable_area());
                lemma_changes_trans(disk, d1, d2, self.writable_area());
                lemma_frame_trans(*self, d0, d1, d2, Set::empty(), set![c as int], set![c as int], Set::empty());
                assert(self.same_link(d1, d2, c as int));
            }
            if prev == 0 {
                head = c;
                proof {
                    self.lemma_fresh_push(disk, d, d2, l, c as int, Set::empty().union(set![c as int]), set![c as int].union(Set::empty()));
                }
            } else {
                self.write_fat_entry(dev, prev, c)?;
                proof {
                    lemma_changes_trans(disk, d2, dev.contents(), self.writable_area());
                    lemma_frame_trans(*self, d0, d2, dev.contents(), Set::empty().union(set![c as int]), set![c as int].union(Set::empty()), Set::empty(), set![prev as int]);
                    assert(self.same_link(d2, dev.contents(), c as int));
                    self.lemma_fresh_push(disk, d, dev.contents(), l, c as int, Set::empty().union(set![c as int]).union(Set::empty()),
                        set![c as int].union(Set::empty()).union(set![prev as int]));
                }
            }
            proof {
                if fats {
                    self.lemma_alloc_count(disk, d, d1, d2, dev.contents(), l, c as int, prev as int, k as int);
                }
                let dn = dev.contents();
                assert(self.same_data(d2, dn, c as int));
                assert forall|i: int| 0 <= i < l.len() implies self.cluster_data(dn, #[trigger] l[i]) == zeros(self.cluster_bytes()) by {
                    assert(l[i] != c) by {
                        assert(l.contains(l[i]));
                    }
                    self.lemma_fresh_facts(disk, d, l);
                    assert(self.cluster_on_disk(l[i], d.len()));
                    assert(self.same_data(d0, d1, l[i]));
                    assert(self.same_data(d1, d2, l[i]));
                    assert(self.same_data(d2, dn, l[i]));
                }
                let l2 = l.push(c as int);
                assert forall|i: int| 0 <= i < l2.len() implies self.cluster_data(dn, #[trigger] l2[i]) == zeros(self.cluster_bytes()) by {
                    if i < l.len() {
                        assert(l2[i] == l[i]);
                    }
                }
                assert forall|i: int| 0 <= i < l.len() implies 0 <= #[trigger] l[i] < self.fat_entries() && self.fat_copies_on_disk(
                    l[i],
                    d0.len(),
                ) && self.mirrored(d0, l[i]) by {
                    assert(l.contains(l[i]));
                    self.lemma_fresh_facts(disk, d, l);
                }
                if k > 0 {
                    assert(l.last() == l[k - 1]);
                }
                lemma_alloc_mirrored(*self, d0, d1, d2, dn, l, c as int, prev as int, EOC_THRESHOLD | 0xF);
                assert(forall|j: int| #[trigger] self.in_fat(j) ==> !(self.data_area())(j));
                lemma_keeps_mirrored_outside(*self, d1, d2, self.data_area());
                lemma_keeps_mirrored_trans(*self, disk, d0, d1);
                lemma_keeps_mirrored_trans(*self, disk, d1, d2);
                lemma_keeps_mirrored_trans(*self, disk, d2, dn);
                l = l2;
            }
            prev = c;
            last = c;
            k = k + 1;
        }
        let ghost d = dev.contents();
        let _ = self.update_fsinfo(dev, -(count as i32), last);
        proof {
            lemma_changes_weaken(d, dev.contents(), |i: int| 512 <= i < 1024, self.writable_area());
            lemma_changes_trans(disk, d, dev.contents(), self.writable_area());
            if self.reserved_sectors >= 2 {
                self.lemma_fsinfo_frame(d, dev.contents());
                self.lemma_fresh_keep(disk, d, dev.contents(), l);
                assert(self.fresh_chain(disk, dev.contents(), l));
                self.lemma_fresh_facts(disk, d, l);
                assert forall|i: int| 0 <= i < l.len() implies self.cluster_data(dev.contents(), #[trigger] l[i]) == zeros(
                    self.cluster_bytes(),
                ) by {
                    assert(self.same_data(d, dev.contents(), l[i]));
                }
                assert forall|i: int| 0 <= i < l.len() implies self.mirrored(dev.contents(), #[trigger] l[i]) by {
                    assert(forall|j: int| #[trigger] self.in_fat(j) ==> !(512 <= j < 1024));
                    lemma_keeps_mirrored(*self, d, dev.contents(), |j: int| 512 <= j < 1024, l[i]);
                }
                assert(forall|j: int| #[trigger] self.in_fat(j) ==> !(512 <= j < 1024));
                lemma_keeps_mirrored_outside(*self, d, dev.contents(), |j: int| 512 <= j < 1024);
                lemma_keeps_mirrored_trans(*self, disk, d, dev.contents());
                if fats {
                    assert forall|m: int| 2 <= m <= self.alloc_limit() implies #[trigger] self.free_count(dev.contents(), 2, m) + count
                        >= self.free_count(disk, 2, m) by {
                        assert(self.free_count(d, 2, m) + count >= self.free_count(disk, 2, m));
                        assert forall|x: int| 2 <= x < m && self.fat_entry(d, x) == 0 implies #[trigger] self.fat_entry(dev.contents(), x)
                            == 0 by {
                            self.lemma_fats_on_disk(disk.len(), x);
                            assert(self.same_link(d, dev.contents(), x));
                        }
                        self.lemma_free_count_keep(d, dev.contents(), 2, m, 0);
                    }
                }
            }
        }
        Ok(head)
    }

    /// One step of allocating a chain takes at most the one free cluster it
    /// claims.
    proof fn lemma_alloc_count(
        &self,
        disk: Seq<u8>,
        d: Seq<u8>,
        d1: Seq<u8>,
        d2: Seq<u8>,
        dn: Seq<u8>,
        l: Seq<int>,
        c: int,
        prev: int,
        k: int,
    )
        requires
            self.wf(),
            self.data_start_lba * 512 <= disk.len(),
            d.len() == disk.len(),
            0 <= k == l.len(),
            self.fresh_chain(disk, d, l),
            k > 0 ==> prev == l[k - 1],
            2 <= c < self.alloc_limit(),
            self.frame(d, d1, Set::empty(), set![c]),
            self.frame(d1, d2, set![c], Set::empty()),
            k > 0 ==> self.frame(d2, dn, Set::empty(), set![prev]),
            k == 0 ==> dn == d2,
            forall|m: int| 2 <= m <= self.alloc_limit() ==> #[trigger] self.free_count(d, 2, m) + k >= self.free_count(disk, 2, m),
        ensures
            forall|m: int| 2 <= m <= self.alloc_limit() ==> #[trigger] self.free_count(dn, 2, m) + k + 1 >= self.free_count(disk, 2, m),
    {
        self.lemma_fresh_facts(disk, d, l);
        assert(self.alloc_limit() <= self.fat_entries());
        assert forall|m: int| 2 <= m <= self.alloc_limit() implies #[trigger] self.free_count(dn, 2, m) + k + 1 >= self.free_count(
            disk,
            2,
            m,
        ) by {
            assert forall|x: int| 2 <= x < m && x != c && self.fat_entry(d, x) == 0 implies #[trigger] self.fat_entry(dn, x) == 0 by {
                self.lemma_fats_on_disk(disk.len(), x);
                if k > 0 && x == prev {
                    assert(self.fat_entry(d, l[k - 1]) == self.chain_next(l, k - 1));
                } else {
                    assert(self.same_link(d, d1, x));
                    assert(self.same_link(d1, d2, x));
                    if k > 0 {
                        assert(self.same_link(d2, dn, x));
                    }
                }
            }
            self.lemma_free_count_keep(d, dn, 2, m, c);
            assert(self.free_count(d, 2, m) + k >= self.free_count(disk, 2, m));
        }
    }

    /// Write `data` into the chain from `head`, one cluster at a time (the
    /// last cluster padded with zeros), stopping at the end of the data or
    /// of the chain. When the chain is `l`, long enough for the data and no
    /// longer, each of its clusters holds its piece of the data afterwards.
    fn write_chain<D: BlockDevice>(&self, dev: &mut D, head: u32, data: &[u8], Ghost(l): Ghost<Seq<int>>) -> (r: Result<(), FsError>)
        requires
            self.wf(),
        ensures
            final(dev).reliable() == old(dev).reliable(),
            changes_only(old(dev).contents(), final(dev).contents(), self.data_area()),
            r is Err ==> r == Err::<(), FsError>(FsError::Io),
            r is Ok && self.linked(old(dev).contents(), l) && l.len() > 0 && l[0] == head && (l.len() - 1) * self.cluster_bytes()
                < data@.len() <= l.len() * self.cluster_bytes() ==> self.linked(final(dev).contents(), l) && self.frame(
                old(dev).contents(),
                final(dev).contents(),
                l.to_set(),
                Set::empty(),
            ) && forall|i: int|
                0 <= i < l.len() ==> self.cluster_data(final(dev).contents(), #[trigger] l[i]) == chunk(
                    data@,
                    self.cluster_bytes(),
                    i,
                ),
            old(dev).reliable() && self.linked(old(dev).contents(), l) && l.len() > 0 && l[0] == head && (l.len() - 1)
                * self.cluster_bytes() < data@.len() <= l.len() * self.cluster_bytes() ==> r is Ok,
    {
        let ghost disk = old(dev).contents();
        let ghost good = self.linked(disk, l) && l.len() > 0 && l[0] == head && (l.len() - 1) * self.cluster_bytes() < data@.len()
            <= l.len() * self.cluster_bytes();
        let cluster_bytes: usize = self.sectors_per_cluster as usize * BLOCK_SIZE;
        let mut cluster: u32 = head;
        let mut offset: usize = 0;
        let ghost mut j: int = 0;
        proof {
            lemma_frame_refl(*self, disk);
            assert(Set::<int>::empty().subset_of(l.to_set()));
            crate::clusters::lemma_frame_widen(*self, disk, disk, Set::empty(), Set::empty(), l.to_set(), Set::empty());
        }
        while offset < data.len() && 2 <= cluster && cluster < EOC_THRESHOLD
            invariant
                self.wf(),
                cluster_bytes == self.cluster_bytes(),
                offset <= data@.len(),
                disk == old(dev).contents(),
                dev.reliable() == old(dev).reliable(),
                changes_only(disk, dev.contents(), self.data_area()),
                good == (self.linked(disk, l) && l.len() > 0 && l[0] == head && (l.len() - 1) * self.cluster_bytes()
                    < data@.len() <= l.len() * self.cluster_bytes()),
                good ==> 0 <= j < l.len() && cluster == l[j] && offset == j * cluster_bytes && offset < data@.len(),
                good ==> self.frame(disk, dev.contents(), l.to_set(), Set::empty()),
                good ==> forall|i: int| 0 <= i < j ==> self.cluster_data(dev.contents(), #[trigger] l[i]) == chunk(data@, self.cluster_bytes(), i),
            decreases data@.len() - offset,
        {
            let mut buf = vec![0u8; cluster_bytes];
            let chunk_end: usize = if data.len() - offset < cluster_bytes { data.len() } else { offset + cluster_bytes };
            let mut jj: usize = offset;
            while jj < chunk_end
                invariant
                    offset <= jj <= chunk_end <= data@.len(),
                    chunk_end - offset <= cluster_bytes,
                    buf@.len() == cluster_bytes,
                    forall|k: int| 0 <= k < cluster_bytes ==> #[trigger] buf@[k] == if k < jj - offset { data@[offset + k] } else { 0u8 },
                decreases chunk_end - jj,
            {
                buf.set(jj - offset, data[jj]);
                jj = jj + 1;
            }
            proof {
                if good {
                    assert(buf@ =~= chunk(data@, self.cluster_bytes(), j)) by {
                        assert forall|k: int| 0 <= k < cluster_bytes implies buf@[k] == chunk(data@, self.cluster_bytes(), j)[k] by {
                            assert(j * cluster_bytes + k == offset + k);
                        }
                    }
                }
            }
            let ghost d = dev.contents();
            proof {
                if good {
                    assert(self.cluster_on_disk(l[j], disk.len()));
                }
            }
            self.write_cluster(dev, cluster, buf.as_slice())?;
            proof {
                lemma_changes_trans(disk, d, dev.contents(), self.data_area());
                if good {
                    assert(buf@.take(self.cluster_bytes() as int) =~= buf@);
                    lemma_frame_trans(*self, disk, d, dev.contents(), l.to_set(), Set::empty(), set![cluster as int], Set::empty());
                    assert(l.to_set().contains(l[j]));
                    assert(l.to_set().union(set![cluster as int]) =~= l.to_set());
                    assert(Set::<int>::empty().union(Set::<int>::empty()) =~= Set::<int>::empty());
                    assert forall|i: int| 0 <= i < j + 1 implies self.cluster_data(dev.contents(), #[trigger] l[i]) == chunk(
                        data@,
                        self.cluster_bytes(),
                        i,
                    ) by {
                        if i < j {
                            assert(l[i] != l[j]);
                            assert(2 <= l[i] < self.alloc_limit());
                            assert(self.alloc_limit() <= self.fat_entries());
                            assert(self.same_data(d, dev.contents(), l[i]));
                        }
                    }
                }
            }
            offset = chunk_end;
            if offset >= data.len() {
                proof {
                    if good {
                        assert(j + 1 == l.len()) by {
                            assert((j + 1) * cluster_bytes == j * cluster_bytes + cluster_bytes) by (nonlinear_arith);
                            if j + 1 < l.len() {
                                assert((j + 1) * cluster_bytes <= (l.len() - 1) * cluster_bytes) by (nonlinear_arith)
                                    requires
                                        j + 1 <= l.len() - 1,
                                        cluster_bytes >= 0,
                                ;
                            }
                        }
                        self.lemma_linked_keep(disk, dev.contents(), l, l.to_set());
                    }
                }
                return Ok(());
            }
            let ghost d2 = dev.contents();
            cluster = self.next_cluster(dev, cluster)?;
            proof {
                if good {
                    assert(self.alloc_limit() <= self.fat_entries());
                    assert(self.same_link(disk, d2, l[j]));
                    assert(self.fat_entry(disk, l[j]) == self.chain_next(l, j));
                    assert(offset == j * cluster_bytes + cluster_bytes);
                    assert((j + 1) * cluster_bytes == j * cluster_bytes + cluster_bytes) by (nonlinear_arith);
                    assert(j + 1 < l.len()) by {
                        if j + 1 >= l.len() {
                            assert((j + 1) * cluster_bytes >= l.len() * cluster_bytes) by (nonlinear_arith)
                                requires
                                    j + 1 >= l.len(),
                                    cluster_bytes >= 0,
                            ;
                        }
                    }
                    j = j + 1;
                }
            }
        }
        Ok(())
    }
}


impl FatFs {
    proof fn lemma_cluster_writable(&self, c: int, lba: int, sec: int)
        requires
            self.wf(),
            c >= 2,
            lba == self.cluster_lba(c),
            sec >= 0,
        ensures
            forall|x: int| (lba + sec) * 512 <= x ==> #[trigger] (self.writable_area())(x),
            forall|x: int| (lba + sec) * 512 <= x ==> #[trigger] (self.data_area())(x),
    {
        self.lemma_areas();
        assert forall|x: int| (lba + sec) * 512 <= x implies #[trigger] (self.data_area())(x) by {
            self.lemma_cluster_in_data(c, x);
        }
        assert forall|x: int| (lba + sec) * 512 <= x implies #[trigger] (self.writable_area())(x) by {
            self.lemma_cluster_in_data(c, x);
        }
    }

    /// Write a fresh short-name entry into the first free slot of the
    /// directory whose chain starts at `parent_cluster`, growing the
    /// directory by one zeroed cluster, whose first slot then takes the
    /// entry, when every slot is taken.
    #[verifier::spinoff_prover]
    #[verifier::rlimit(40)]
    fn add_dir_entry<D: BlockDevice>(
        &self,
        dev: &mut D,
        parent_cluster: u32,
        name: &[u8],
        attrs: u8,
        cluster: u32,
        size: u32,
        Ghost(l): Ghost<Seq<int>>,
    ) -> (r: Result<(), FsError>)
        requires
            self.wf(),
        ensures
            final(dev).reliable() == old(dev).reliable(),
            changes_only(old(dev).contents(), final(dev).contents(), self.writable_area()),
            r is Err ==> r == Err::<(), FsError>(FsError::Io),
            r is Ok && self.dir_chain(old(dev).contents(), parent_cluster as int, l) && self.reserved_sectors >= 2 && (forall|i: int|
                0 <= i < l.len() ==> self.fat_entry(old(dev).contents(), #[trigger] l[i]) != 0) ==> (exists|o: int|
                #[trigger] self.added_at(old(dev).contents(), final(dev).contents(), l, encode_entry(name@, attrs, cluster, size), o))
                || (exists|x: int|
                #[trigger] self.grown(old(dev).contents(), final(dev).contents(), l, encode_entry(name@, attrs, cluster, size), x)),
            r is Ok && self.dir_chain(old(dev).contents(), parent_cluster as int, l) && self.reserved_sectors >= 2 ==> self.keeps_mirrored(
                old(dev).contents(),
                final(dev).contents(),
            ),
            old(dev).reliable() && self.dir_chain(old(dev).contents(), parent_cluster as int, l) && ((exists|k: int|
                0 <= k && 32 * k + 32 <= self.concat(old(dev).contents(), l).len() && #[trigger] free_record(
                    record(self.concat(old(dev).contents(), l), k),
                )) || self.room(old(dev).contents(), 1)) ==> r is Ok,
    {
        let ghost disk = old(dev).contents();
        let ghost rel = old(dev).reliable();
        let ghost good = self.dir_chain(disk, parent_cluster as int, l);
        let ghost b = self.concat(disk, l);
        let ghost e = encode_entry(name@, attrs, cluster, size);
        proof {
            self.lemma_areas();
            if good {
                self.lemma_distinct_short(l);
            }
        }
        let spc: u64 = self.sectors_per_cluster as u64;
        let mut chain_cluster: u32 = parent_cluster;
        let mut hops: u64 = 0;
        loop
            invariant
                self.wf(),
                spc == self.sectors_per_cluster,
                hops <= 0x1000_0000,
                disk == old(dev).contents(),
                dev.contents() == disk,
                dev.reliable() == old(dev).reliable(),
                forall|i: int| #[trigger] (self.meta_area())(i) ==> (self.writable_area())(i),
                forall|i: int| #[trigger] (self.data_area())(i) ==> (self.writable_area())(i),
                forall|i: int| #[trigger] (self.writable_area())(i) || !(512 <= i < 1024),
                good == self.dir_chain(disk, parent_cluster as int, l),
                b == self.concat(disk, l),
                e == encode_entry(name@, attrs, cluster, size),
                rel == old(dev).reliable(),
                good ==> l.len() + 2 <= self.alloc_limit() && self.alloc_limit() <= self.fat_entries(),
                good ==> hops < l.len() && chain_cluster == l[hops as int],
                good ==> forall|k: int| 0 <= k < self.sector_record(hops as int, 0, 0) ==> !free_record(#[trigger] record(b, k)),
            decreases 0x1000_0000 - hops,
        {
            if chain_cluster < 2 || chain_cluster >= EOC_THRESHOLD || hops == 0x1000_0000 {
                proof {
                    if good {
                        assert(2 <= l[hops as int] < 0x0FFFFFF8);
                    }
                }
                return Err(FsError::Io);
            }
            let lba = self.cluster_to_lba(chain_cluster);
            proof {
                if good {
                    assert(self.cluster_on_disk(l[hops as int], disk.len()));
                    assert(self.fat_entry_on_disk(l[hops as int], disk.len()));
                }
            }
            let mut sec: u64 = 0;
            while sec < spc
                invariant
                    self.wf(),
                    spc == self.sectors_per_cluster,
                    sec <= spc,
                    hops < 0x1000_0000,
                    chain_cluster >= 2,
                    lba == self.cluster_lba(chain_cluster as int),
                    lba < 0x100_0000_0000,
                    disk == old(dev).contents(),
                    dev.contents() == disk,
                    dev.reliable() == old(dev).reliable(),
                    good == self.dir_chain(disk, parent_cluster as int, l),
                    b == self.concat(disk, l),
                    e == encode_entry(name@, attrs, cluster, size),
                    rel == old(dev).reliable(),
                    good ==> l.len() + 2 <= self.alloc_limit() && self.alloc_limit() <= self.fat_entries(),
                    good ==> hops < l.len() && chain_cluster == l[hops as int],
                    good ==> forall|k: int| 0 <= k < self.sector_record(hops as int, sec as int, 0) ==> !free_record(#[trigger] record(b, k)),
                decreases spc - sec,
            {
                proof {
                    if good {
                        assert((lba + sec + 1) * 512 <= disk.len()) by (nonlinear_arith)
                            requires
                                (lba + spc) * 512 <= disk.len(),
                                sec < spc,
                        ;
                    }
                }
                let mut buf = read_sector(dev, lba + sec)?;
                let mut slot: usize = 0;
                while slot < 16
                    invariant
                        slot <= 16,
                        buf@.len() == 512,
                        buf@ == block_of(disk, lba + sec),
                        self.wf(),
                        spc == self.sectors_per_cluster,
                        sec < spc,
                        hops < 0x1000_0000,
                        chain_cluster >= 2,
                        lba == self.cluster_lba(chain_cluster as int),
                        lba < 0x100_0000_0000,
                        disk == old(dev).contents(),
                        dev.contents() == disk,
                        dev.reliable() == old(dev).reliable(),
                        good == self.dir_chain(disk, parent_cluster as int, l),
                        b == self.concat(disk, l),
                        e == encode_entry(name@, attrs, cluster, size),
                        rel == old(dev).reliable(),
                        good ==> (lba + sec + 1) * 512 <= disk.len(),
                        good ==> l.len() + 2 <= self.alloc_limit() && self.alloc_limit() <= self.fat_entries(),
                        good ==> hops < l.len() && chain_cluster == l[hops as int],
                        good ==> forall|k: int|
                            0 <= k < self.sector_record(hops as int, sec as int, slot as int) ==> !free_record(#[trigger] record(b, k)),
                    decreases 16 - slot,
                {
                    let off: usize = slot * 32;
                    let first = buf[off];
                    let ghost o = self.sector_record(hops as int, sec as int, slot as int);
                    proof {
                        if good {
                            self.lemma_record_at(disk, l, hops as int, sec as int, slot as int);
                            assert(record(b, o)[0] == buf@[off as int]);
                        }
                    }
                    if first == 0x00 || first == 0xE5 {
                        write_short_entry(&mut buf, off, name, attrs, cluster, size);
                        let ghost d = dev.contents();
                        let res = write_sector(dev, lba + sec, &buf);
                        proof {
                            self.lemma_cluster_writable(chain_cluster as int, lba as int, sec as int);
                            assert forall|x: int| 0 <= x < disk.len() && !(self.writable_area())(x) implies #[trigger] dev.contents()[x]
                                == disk[x] by {
                                assert(d[x] == disk[x]);
                            }
                            if good && res is Ok {
                                self.lemma_record_write(disk, dev.contents(), l, hops as int, sec as int, off as int, e, buf@);
                                assert(self.added_at(disk, dev.contents(), l, e, o));
                            }
                            assert forall|x: int| 0 <= x < disk.len() && !(self.data_area())(x) implies #[trigger] dev.contents()[x]
                                == disk[x] by {
                                assert(d[x] == disk[x]);
                            }
                            assert(forall|j: int| #[trigger] self.in_fat(j) ==> !(self.data_area())(j));
                            lemma_keeps_mirrored_outside(*self, disk, dev.contents(), self.data_area());
                        }
                        return res;
                    }
                    slot = slot + 1;
                }
                proof {
                    assert(self.sector_record(hops as int, sec as int, 16) == self.sector_record(hops as int, sec + 1, 0));
                }
                sec = sec + 1;
            }
            let next = self.next_cluster(dev, chain_cluster)?;
            if next < 2 || next >= EOC_THRESHOLD {
                proof {
                    if good {
                        assert(hops + 1 == l.len()) by {
                            if hops + 1 < l.len() {
                                assert(self.fat_entry(disk, l[hops as int]) == l[hops + 1]);
                            }
                        }
                        assert(self.sector_record(hops as int, spc as int, 0) == self.sector_record(hops + 1, 0, 0)) by (nonlinear_arith)
                            requires
                                spc == self.sectors_per_cluster,
                        ;
                        self.lemma_concat_len(disk, l);
                        assert forall|k: int| 0 <= k && 32 * k + 32 <= b.len() implies !free_record(#[trigger] record(b, k)) by {
                            assert(k < self.sector_record(l.len() as int, 0, 0)) by (nonlinear_arith)
                                requires
                                    32 * k + 32 <= b.len(),
                                    b.len() == l.len() * (self.sectors_per_cluster * 512),
                            ;
                        }
                        assert(chain_cluster == l.last());
                        assert(l.contains(l.last())) by {
                            assert(l[l.len() - 1] == l.last());
                        }
                        assert((chain_cluster as int) < self.fat_entries());
                    }
                }
                return self.grow_dir(dev, chain_cluster, name, attrs, cluster, size, Ghost(l), Ghost(parent_cluster as int));
            }
            proof {
                if good {
                    assert(hops + 1 < l.len()) by {
                        if hops + 1 >= l.len() {
                            assert(l[hops as int] == l.last());
                        }
                    }
                    assert(self.fat_entry(disk, l[hops as int]) == l[hops + 1]);
                    assert(self.sector_record(hops as int, spc as int, 0) == self.sector_record(hops + 1, 0, 0)) by (nonlinear_arith)
                        requires
                            spc == self.sectors_per_cluster,
                    ;
                }
            }
            chain_cluster = next;
            hops = hops + 1;
        }
    }

    /// Extend the chain ending at `last` by a free cluster, zeroed and
    /// marked as the chain's end; return it. The FsInfo free count is
    /// debited.
    #[verifier::spinoff_prover]
    #[verifier::rlimit(60)]
    fn extend_chain<D: BlockDevice>(&self, dev: &mut D, last: u32) -> (r: Result<u32, FsError>)
        requires
            self.wf(),
            last < 0x10000000,
        ensures
            final(dev).reliable() == old(dev).reliable(),
            changes_only(old(dev).contents(), final(dev).contents(), self.writable_area()),
            match r {
                Ok(x) => 2 <= x < self.alloc_limit() && self.fat_entry_on_disk(x as int, old(dev).contents().len())
                    && self.fat_entry(old(dev).contents(), x as int) == 0 && self.cluster_on_disk(x as int, old(dev).contents().len()),
                Err(e) => e == FsError::Io,
            },
            r is Ok && (last as int) < self.fat_entries() && self.reserved_sectors >= 2 ==> self.frame(
                old(dev).contents(),
                final(dev).contents(),
                set![r->Ok_0 as int],
                set![r->Ok_0 as int, last as int],
            ) && (r->Ok_0 != last ==> self.fat_entry(final(dev).contents(), r->Ok_0 as int) == 0x0FFFFFFF && self.fat_entry(
                final(dev).contents(),
                last as int,
            ) == r->Ok_0) && self.cluster_data(final(dev).contents(), r->Ok_0 as int) == zeros(self.cluster_bytes()),
            r is Ok && (last as int) < self.fat_entries() && self.reserved_sectors >= 2 ==> self.mirrored(
                final(dev).contents(),
                r->Ok_0 as int,
            ) && self.mirrored(final(dev).contents(), last as int) && self.fat_copies_on_disk(r->Ok_0 as int, old(dev).contents().len())
                && self.fat_copies_on_disk(last as int, old(dev).contents().len()) && self.keeps_mirrored(
                old(dev).contents(),
                final(dev).contents(),
            ),
            old(dev).reliable() && self.room(old(dev).contents(), 1) && (last as int) < self.fat_entries() ==> r is Ok,
    {
        let ghost disk = old(dev).contents();
        let ghost ok = old(dev).reliable() && self.room(disk, 1) && (last as int) < self.fat_entries();
        proof {
            self.lemma_areas();
            reveal(FatFs::room);
            if ok {
                let m0 = choose|m: int| #[trigger] self.room_below(disk, m, 1);
                self.lemma_free_exists(disk, 2, m0);
                self.lemma_fats_on_disk(disk.len(), 0);
            }
        }
        let x = self.find_free_cluster(dev)?;
        proof {
            assert(self.alloc_limit() <= self.fat_entries());
            reveal(FatFs::room);
            if ok {
                let m0 = choose|m: int| #[trigger] self.room_below(disk, m, 1);
                self.lemma_free_exists(disk, 2, m0);
                let c0 = choose|c0: int| 2 <= c0 < m0 && #[trigger] self.fat_entry(disk, c0) == 0;
                assert(x <= c0);
                assert(self.cluster_on_disk(x as int, disk.len()));
                self.lemma_fats_on_disk(disk.len(), x as int);
                self.lemma_fats_on_disk(disk.len(), last as int);
            }
        }
        let ghost d0 = dev.contents();
        self.write_fat_entry(dev, x, EOC_THRESHOLD | 0xF)?;
        let ghost d1 = dev.contents();
        proof {
            lemma_changes_trans(disk, d0, d1, self.writable_area());
            assert((0x0FFFFFF8u32 | 0xFu32) % 0x10000000 == 0x0FFFFFFF) by (bit_vector);
        }
        self.zero_cluster(dev, x)?;
        let ghost d2 = dev.contents();
        proof {
            lemma_changes_weaken(d1, d2, self.data_area(), self.writable_area());
            lemma_changes_trans(disk, d1, d2, self.writable_area());
        }
        self.write_fat_entry(dev, last, x)?;
        let ghost d3 = dev.contents();
        proof {
            lemma_changes_trans(disk, d2, d3, self.writable_area());
        }
        let _ = self.update_fsinfo(dev, -1, x);
        proof {
            lemma_changes_weaken(d3, dev.contents(), |i: int| 512 <= i < 1024, self.writable_area());
            lemma_changes_trans(disk, d3, dev.contents(), self.writable_area());
            if (last as int) < self.fat_entries() && self.reserved_sectors >= 2 {
                assert(x % 0x10000000 == x);
                assert(d1.len() == disk.len());
                self.lemma_extend_frames(disk, d1, d2, d3, dev.contents(), x as int, last as int);
                assert(self.alloc_limit() <= self.fat_entries());
                lemma_set_fat_mirrored(*self, d0, x as int, EOC_THRESHOLD | 0xF, x as int);
                assert(forall|j: int| #[trigger] self.in_fat(j) ==> !(self.data_area())(j));
                lemma_keeps_mirrored(*self, d1, d2, self.data_area(), x as int);
                lemma_set_fat_mirrored(*self, d2, last as int, x, last as int);
                lemma_set_fat_mirrored(*self, d2, last as int, x, x as int);
                assert(forall|j: int| #[trigger] self.in_fat(j) ==> !(512 <= j < 1024));
                lemma_keeps_mirrored(*self, d3, dev.contents(), |i: int| 512 <= i < 1024, x as int);
                lemma_keeps_mirrored(*self, d3, dev.contents(), |i: int| 512 <= i < 1024, last as int);
                lemma_keeps_mirrored_outside(*self, d1, d2, self.data_area());
                lemma_keeps_mirrored_outside(*self, d3, dev.contents(), |i: int| 512 <= i < 1024);
                lemma_keeps_mirrored_trans(*self, d0, d1, d2);
                lemma_keeps_mirrored_trans(*self, d0, d2, d3);
                lemma_keeps_mirrored_trans(*self, d0, d3, dev.contents());
            }
        }
        Ok(x)
    }

    proof fn lemma_extend_frames(&self, disk: Seq<u8>, d1: Seq<u8>, d2: Seq<u8>, d3: Seq<u8>, d4: Seq<u8>, x: int, last: int)
        requires
            self.wf(),
            self.reserved_sectors >= 2,
            2 <= x < self.fat_entries(),
            0 <= last < self.fat_entries(),
            self.fat_entry_on_disk(x, disk.len()),
            self.cluster_on_disk(x, disk.len()),
            self.frame(disk, d1, Set::empty(), set![x]),
            self.fat_entry(d1, x) == 0x0FFFFFFF,
            self.frame(d1, d2, set![x], Set::empty()),
            self.cluster_data(d2, x) == zeros(self.cluster_bytes()),
            self.frame(d2, d3, Set::empty(), set![last]),
            self.fat_entry_on_disk(last, disk.len()),
            self.fat_entry(d3, last) == x,
            changes_only(d3, d4, |i: int| 512 <= i < 1024),
        ensures
            self.frame(disk, d4, set![x], set![x, last]),
            x != last ==> self.fat_entry(d4, x) == 0x0FFFFFFF && self.fat_entry(d4, last) == x,
            self.cluster_data(d4, x) == zeros(self.cluster_bytes()),
    {
        self.lemma_fsinfo_frame(d3, d4);
        assert(self.same_data(d2, d3, x));
        assert(self.same_data(d3, d4, x));
        if x != last {
            assert(self.same_link(d1, d2, x));
            assert(self.same_link(d2, d3, x));
            assert(self.same_link(d3, d4, x));
            assert(self.same_link(d3, d4, last));
        }
        lemma_frame_trans(*self, disk, d1, d2, Set::empty(), set![x], set![x], Set::empty());
        lemma_frame_trans(*self, disk, d2, d3, Set::empty().union(set![x]), set![x].union(Set::empty()), Set::empty(), set![last]);
        lemma_frame_trans(
            *self,
            disk,
            d3,
            d4,
            Set::empty().union(set![x]).union(Set::empty()),
            set![x].union(Set::empty()).union(set![last]),
            Set::empty(),
            Set::empty(),
        );
        assert(Set::empty().union(set![x]).union(Set::empty()).union(Set::empty()) =~= set![x]);
        assert(set![x].union(Set::empty()).union(set![last]).union(Set::empty()) =~= set![x, last]);
    }

    /// Grow the full directory whose chain ends at `last` by a free cluster,
    /// zeroed, and write the entry into its first slot.
    #[verifier::spinoff_prover]
    fn grow_dir<D: BlockDevice>(
        &self,
        dev: &mut D,
        last: u32,
        name: &[u8],
        attrs: u8,
        cluster: u32,
        size: u32,
        Ghost(l): Ghost<Seq<int>>,
        Ghost(pc): Ghost<int>,
    ) -> (r: Result<(), FsError>)
        requires
            self.wf(),
            last < 0x10000000,
        ensures
            final(dev).reliable() == old(dev).reliable(),
            changes_only(old(dev).contents(), final(dev).contents(), self.writable_area()),
            r is Err ==> r == Err::<(), FsError>(FsError::Io),
            r is Ok && self.dir_chain(old(dev).contents(), pc, l) && last == l.last() && self.reserved_sectors >= 2 && (forall|i: int|
                0 <= i < l.len() ==> self.fat_entry(old(dev).contents(), #[trigger] l[i]) != 0) && (forall|k: int|
                0 <= k && 32 * k + 32 <= self.concat(old(dev).contents(), l).len() ==> !free_record(
                #[trigger] record(self.concat(old(dev).contents(), l), k),
            )) ==> exists|x: int|
                #[trigger] self.grown(old(dev).contents(), final(dev).contents(), l, encode_entry(name@, attrs, cluster, size), x),
            r is Ok && (last as int) < self.fat_entries() && self.reserved_sectors >= 2 ==> self.keeps_mirrored(
                old(dev).contents(),
                final(dev).contents(),
            ),
            old(dev).reliable() && self.room(old(dev).contents(), 1) && (last as int) < self.fat_entries() ==> r is Ok,
    {
        let ghost disk = old(dev).contents();
        proof {
            self.lemma_areas();
        }
        let x = self.extend_chain(dev, last)?;
        let ghost d4 = dev.contents();
        let nl = self.cluster_to_lba(x);
        proof {
            assert((nl + 1) * 512 <= disk.len()) by (nonlinear_arith)
                requires
                    (nl + self.sectors_per_cluster) * 512 <= disk.len(),
                    self.sectors_per_cluster >= 1,
            ;
        }
        let mut buf = read_sector(dev, nl)?;
        write_short_entry(&mut buf, 0, name, attrs, cluster, size);
        let res = write_sector(dev, nl, &buf);
        proof {
            self.lemma_cluster_writable(x as int, nl as int, 0);
            assert forall|i: int| 0 <= i < disk.len() && !(self.writable_area())(i) implies #[trigger] dev.contents()[i] == disk[i] by {
                assert(d4[i] == disk[i]);
            }
            if res is Ok && self.dir_chain(disk, pc, l) && last == l.last() && self.reserved_sectors >= 2 && (forall|i: int|
                0 <= i < l.len() ==> self.fat_entry(disk, #[trigger] l[i]) != 0) && (forall|k: int|
                0 <= k && 32 * k + 32 <= self.concat(disk, l).len() ==> !free_record(#[trigger] record(self.concat(disk, l), k))) {
                self.lemma_distinct_short(l);
                assert(!l.contains(x as int)) by {
                    if l.contains(x as int) {
                        let i = choose|i: int| 0 <= i < l.len() && l[i] == x;
                        assert(self.fat_entry(disk, l[i]) != 0);
                    }
                }
                assert(l.contains(l.last())) by {
                    assert(l[l.len() - 1] == l.last());
                }
                self.lemma_grow_result(disk, d4, dev.contents(), l, pc, x as int, encode_entry(name@, attrs, cluster, size), buf@);
                self.lemma_cluster_bounds(x as int);
                assert(forall|j: int| #[trigger] self.in_fat(j) ==> !(nl * 512 <= j < nl * 512 + 512));
                assert(changes_only(d4, dev.contents(), |j: int| nl * 512 <= j < nl * 512 + 512));
                lemma_keeps_mirrored(*self, d4, dev.contents(), |j: int| nl * 512 <= j < nl * 512 + 512, x as int);
                lemma_keeps_mirrored(*self, d4, dev.contents(), |j: int| nl * 512 <= j < nl * 512 + 512, last as int);
                assert(self.grown(disk, dev.contents(), l, encode_entry(name@, attrs, cluster, size), x as int));
            }
            if res is Ok && (last as int) < self.fat_entries() && self.reserved_sectors >= 2 {
                self.lemma_cluster_bounds(x as int);
                assert(forall|j: int| #[trigger] self.in_fat(j) ==> !(nl * 512 <= j < nl * 512 + 512));
                assert(changes_only(d4, dev.contents(), |j: int| nl * 512 <= j < nl * 512 + 512));
                lemma_keeps_mirrored_outside(*self, d4, dev.contents(), |j: int| nl * 512 <= j < nl * 512 + 512);
                lemma_keeps_mirrored_trans(*self, disk, d4, dev.contents());
            }
        }
        res
    }

    /// Mark the entry named `name` in the directory whose chain starts at
    /// `parent_cluster` as deleted (first byte 0xE5). Reaching the
    /// end-of-directory marker first is success; running off the chain is
    /// `NotFound`. The file's clusters are not freed.
    #[verifier::spinoff_prover]
    fn delete_dir_entry<D: BlockDevice>(&self, dev: &mut D, parent_cluster: u32, name: &[char], Ghost(l): Ghost<Seq<int>>) -> (r: Result<(), FsError>)
        requires
            self.wf(),
        ensures
            final(dev).reliable() == old(dev).reliable(),
            changes_only(old(dev).contents(), final(dev).contents(), self.data_area()),
            r is Err ==> r == Err::<(), FsError>(FsError::Io) || r == Err::<(), FsError>(FsError::NotFound),
            r is Ok && self.dir_chain(old(dev).contents(), parent_cluster as int, l) ==> exists|o: int|
                #[trigger] self.deleted_at(old(dev).contents(), final(dev).contents(), l, name@, o),
            r == Err::<(), FsError>(FsError::NotFound) ==> final(dev).contents() == old(dev).contents(),
            old(dev).reliable() && self.dir_chain(old(dev).contents(), parent_cluster as int, l) ==> (r is Ok <==> exists|o: int|
                0 <= o && 32 * o + 32 <= self.concat(old(dev).contents(), l).len() && #[trigger] delete_target(
                    record(self.concat(old(dev).contents(), l), o),
                    name@,
                )) && (r is Err ==> r == Err::<(), FsError>(FsError::NotFound)),
    {
        let ghost disk = old(dev).contents();
        let ghost good = self.dir_chain(disk, parent_cluster as int, l);
        let ghost b = self.concat(disk, l);
        let ghost rel = old(dev).reliable();
        proof {
            if good {
                self.lemma_distinct_short(l);
                self.lemma_concat_len(disk, l);
            }
        }
        let spc: u64 = self.sectors_per_cluster as u64;
        let mut chain_cluster: u32 = parent_cluster;
        let mut hops: u64 = 0;
        loop
            invariant
                self.wf(),
                spc == self.sectors_per_cluster,
                hops <= 0x1000_0000,
                disk == old(dev).contents(),
                dev.contents() == disk,
                dev.reliable() == old(dev).reliable(),
                good == self.dir_chain(disk, parent_cluster as int, l),
                b == self.concat(disk, l),
                rel == old(dev).reliable(),
                good ==> b.len() == l.len() * self.cluster_bytes(),
                good ==> l.len() + 2 <= self.alloc_limit() && self.alloc_limit() <= self.fat_entries(),
                good ==> hops < l.len() && chain_cluster == l[hops as int],
                good ==> forall|k: int| 0 <= k < self.sector_record(hops as int, 0, 0) ==> !delete_target(#[trigger] record(b, k), name@),
            decreases 0x1000_0000 - hops,
        {
            if chain_cluster < 2 || chain_cluster >= EOC_THRESHOLD || hops == 0x1000_0000 {
                proof {
                    if good {
                        assert(2 <= l[hops as int] < 0x0FFFFFF8);
                    }
                }
                return Err(FsError::Io);
            }
            let lba = self.cluster_to_lba(chain_cluster);
            proof {
                if good {
                    assert(self.cluster_on_disk(l[hops as int], disk.len()));
                    assert(self.fat_entry_on_disk(l[hops as int], disk.len()));
                }
            }
            let mut sec: u64 = 0;
            while sec < spc
                invariant
                    self.wf(),
                    spc == self.sectors_per_cluster,
                    sec <= spc,
                    hops < 0x1000_0000,
                    chain_cluster >= 2,
                    lba == self.cluster_lba(chain_cluster as int),
                    lba < 0x100_0000_0000,
                    disk == old(dev).contents(),
                    dev.contents() == disk,
                    dev.reliable() == old(dev).reliable(),
                    good == self.dir_chain(disk, parent_cluster as int, l),
                    b == self.concat(disk, l),
                    rel == old(dev).reliable(),
                    good ==> b.len() == l.len() * self.cluster_bytes(),
                    good ==> l.len() + 2 <= self.alloc_limit() && self.alloc_limit() <= self.fat_entries(),
                    good ==> hops < l.len() && chain_cluster == l[hops as int],
                    good ==> forall|k: int|
                        0 <= k < self.sector_record(hops as int, sec as int, 0) ==> !delete_target(#[trigger] record(b, k), name@),
                decreases spc - sec,
            {
                proof {
                    if good {
                        assert((lba + sec + 1) * 512 <= disk.len()) by (nonlinear_arith)
                            requires
                                (lba + spc) * 512 <= disk.len(),
                                sec < spc,
                        ;
                    }
                }
                let mut buf = read_sector(dev, lba + sec)?;
                let mut slot: usize = 0;
                while slot < 16
                    invariant
                        slot <= 16,
                        buf@.len() == 512,
                        buf@ == block_of(disk, lba + sec),
                        good ==> (lba + sec + 1) * 512 <= disk.len(),
                        self.wf(),
                        spc == self.sectors_per_cluster,
                        sec < spc,
                        hops < 0x1000_0000,
                        chain_cluster >= 2,
                        lba == self.cluster_lba(chain_cluster as int),
                        lba < 0x100_0000_0000,
                        disk == old(dev).contents(),
                        dev.contents() == disk,
                        dev.reliable() == old(dev).reliable(),
                        good == self.dir_chain(disk, parent_cluster as int, l),
                        b == self.concat(disk, l),
                        rel == old(dev).reliable(),
                        good ==> b.len() == l.len() * self.cluster_bytes(),
                        good ==> l.len() + 2 <= self.alloc_limit() && self.alloc_limit() <= self.fat_entries(),
                        good ==> hops < l.len() && chain_cluster == l[hops as int],
                        good ==> forall|k: int|
                            0 <= k < self.sector_record(hops as int, sec as int, slot as int) ==> !delete_target(
                                #[trigger] record(b, k),
                                name@,
                            ),
                    decreases 16 - slot,
                {
                    let off: usize = slot * 32;
                    let chunk = slice_prefix(&buf.as_slice()[off..off + 32], 32);
                    let ghost o = self.sector_record(hops as int, sec as int, slot as int);
                    proof {
                        if good {
                            self.lemma_record_at(disk, l, hops as int, sec as int, slot as int);
                            assert(chunk@ =~= record(b, o));
                        }
                    }
                    if chunk[0] == 0x00 {
                        proof {
                            if good {
                                assert(self.deleted_at(disk, dev.contents(), l, name@, o));
                                assert(delete_target(record(b, o), name@));
                            }
                        }
                        return Ok(());
                    }
                    if !is_skipped(chunk.as_slice()) {
                        let entry_name = decode_short_name(chunk.as_slice());
                        if chars_eq_ignore_case(entry_name.as_slice(), name) {
                            buf.set(off, 0xE5);
                            let ghost d = dev.contents();
                            let res = write_sector(dev, lba + sec, &buf);
                            proof {
                                self.lemma_cluster_writable(chain_cluster as int, lba as int, sec as int);
                                assert forall|x: int| 0 <= x < disk.len() && !(self.data_area())(x) implies #[trigger] dev.contents()[x]
                                    == disk[x] by {
                                    assert(d[x] == disk[x]);
                                }
                                if good && res is Ok {
                                    assert(buf@ =~= put_bytes(block_of(disk, lba + sec), off as int, seq![0xE5u8]));
                                    self.lemma_record_write(disk, dev.contents(), l, hops as int, sec as int, off as int, seq![0xE5u8], buf@);
                                    assert(self.deleted_at(disk, dev.contents(), l, name@, o));
                                }
                                if good {
                                    assert(delete_target(record(b, o), name@));
                                }
                            }
                            return res;
                        }
                    }
                    slot = slot + 1;
                }
                proof {
                    assert(self.sector_record(hops as int, sec as int, 16) == self.sector_record(hops as int, sec + 1, 0));
                }
                sec = sec + 1;
            }
            let next = self.next_cluster(dev, chain_cluster)?;
            if next < 2 || next >= EOC_THRESHOLD {
                proof {
                    if good {
                        assert(hops + 1 == l.len()) by {
                            if hops + 1 < l.len() {
                                assert(self.fat_entry(disk, l[hops as int]) == l[hops + 1]);
                            }
                        }
                        assert(self.sector_record(hops as int, spc as int, 0) * 32 == b.len()) by (nonlinear_arith)
                            requires
                                spc == self.sectors_per_cluster,
                                b.len() == l.len() * (self.sectors_per_cluster * 512),
                                hops + 1 == l.len(),
                                self.sector_record(hops as int, spc as int, 0) == (hops * spc + spc) * 16,
                        ;
                        assert forall|o: int| 0 <= o && 32 * o + 32 <= b.len() implies !#[trigger] delete_target(record(b, o), name@) by {
                        }
                    }
                }
                return Err(FsError::NotFound);
            }
            proof {
                if good {
                    assert(hops + 1 < l.len()) by {
                        if hops + 1 >= l.len() {
                            assert(l[hops as int] == l.last());
                        }
                    }
                    assert(self.fat_entry(disk, l[hops as int]) == l[hops + 1]);
                    assert(self.sector_record(hops as int, spc as int, 0) == self.sector_record(hops + 1, 0, 0)) by (nonlinear_arith)
                        requires
                            spc == self.sectors_per_cluster,
                    ;
                }
            }
            chain_cluster = next;
            hops = hops + 1;
        }
    }


    /// What growing a directory chain by the free cluster `x` leaves: the
    /// chain goes on to `x`, which ends it and holds the entry first; only
    /// the chain's clusters and `x` changed.
    #[verifier::spinoff_prover]
    proof fn lemma_grow_result(&self, disk: Seq<u8>, d4: Seq<u8>, d5: Seq<u8>, l: Seq<int>, pc: int, x: int, e: Seq<u8>, buf: Seq<u8>)
        requires
            self.wf(),
            self.dir_chain(disk, pc, l),
            l.len() + 2 <= self.alloc_limit(),
            self.alloc_limit() <= self.fat_entries(),
            2 <= x < self.alloc_limit(),
            self.fat_entry_on_disk(x, disk.len()),
            self.cluster_on_disk(x, disk.len()),
            !l.contains(x),
            l.contains(l.last()),
            e.len() == 32,
            self.frame(disk, d4, set![x], set![x, l.last()]),
            self.fat_entry(d4, x) == 0x0FFFFFFF,
            self.fat_entry(d4, l.last()) == x,
            self.cluster_data(d4, x) == zeros(self.cluster_bytes()),
            buf == put_bytes(block_of(d4, self.cluster_lba(x)), 0, e),
            d5 == with_block(d4, self.cluster_lba(x), buf),
        ensures
            self.chained(d5, l.push(x)),
            self.fat_entry(d5, x) == 0x0FFFFFFF,
            self.concat(d5, l.push(x)) == self.concat(disk, l) + put_bytes(zeros(self.cluster_bytes()), 0, e),
            self.frame(disk, d5, l.to_set().insert(x), l.to_set().insert(x)),
    {
        let cb = self.cluster_bytes();
        let last = l.last();
        self.lemma_sector_of_cluster(d4, x, 0);
        assert(block_of(d4, self.cluster_lba(x)) =~= zeros(512)) by {
            assert(self.cluster_lba(x) + 0 == self.cluster_lba(x));
        }
        lemma_put_in_block(d4, self.cluster_lba(x), 0, e);
        self.lemma_put_cluster_frame(d4, x, 0, e);
        assert(self.cluster_lba(x) * 512 + 0 == self.cluster_lba(x) * 512);
        assert(self.cluster_data(d5, x) == put_bytes(zeros(cb), 0, e));
        lemma_frame_trans(*self, disk, d4, d5, set![x], set![x, last], set![x], Set::empty());
        assert(set![x].union(set![x]) =~= set![x]);
        assert(set![x, last].union(Set::empty()) =~= set![x, last]);
        assert(set![x].subset_of(l.to_set().insert(x)));
        assert(set![x, last].subset_of(l.to_set().insert(x)));
        crate::clusters::lemma_frame_widen(*self, disk, d5, set![x], set![x, last], l.to_set().insert(x), l.to_set().insert(x));
        let l2 = l.push(x);
        assert forall|i: int| 0 <= i < l2.len() implies 2 <= #[trigger] l2[i] < 0x0FFFFFF8 && self.cluster_on_disk(l2[i], d5.len())
            && self.fat_entry_on_disk(l2[i], d5.len()) by {
            if i < l.len() {
                assert(l2[i] == l[i]);
            }
        }
        assert forall|i: int| 0 <= i < l2.len() - 1 implies #[trigger] self.fat_entry(d5, l2[i]) == l2[i + 1] by {
            assert(l2[i] == l[i]);
            if i < l.len() - 1 {
                assert(l[i] != last) by {
                    assert(last == l[l.len() - 1]);
                }
                assert(l[i] != x) by {
                    assert(l.contains(l[i]));
                }
                assert(self.same_link(disk, d5, l[i]));
                assert(self.fat_entry(disk, l[i]) == l[i + 1]);
                assert(l2[i + 1] == l[i + 1]);
            } else {
                assert(l[i] == last);
                assert(self.same_link(d4, d5, last));
            }
        }
        assert(l2.last() == x);
        assert(self.same_link(d4, d5, x));
        self.lemma_concat_push(d5, l, x);
        assert forall|i: int| 0 <= i < l.len() implies self.same_data(disk, d5, #[trigger] l[i]) by {
            assert(l[i] != x) by {
                assert(l.contains(l[i]));
            }
        }
        self.lemma_concat_frame(disk, d5, l);
    }

    /// Storing `e` at byte `off` of sector `sec` of the `j`-th cluster of a
    /// directory chain stores it at the matching place of its bytes.
    proof fn lemma_record_write(&self, disk: Seq<u8>, d1: Seq<u8>, l: Seq<int>, j: int, sec: int, off: int, e: Seq<u8>, buf: Seq<u8>)
        requires
            self.wf(),
            self.dir_chain(disk, l[0], l),
            l.len() + 2 <= self.alloc_limit(),
            self.alloc_limit() <= self.fat_entries(),
            0 <= j < l.len(),
            0 <= sec < self.sectors_per_cluster,
            0 <= off,
            off + e.len() <= 512,
            buf == put_bytes(block_of(disk, self.cluster_lba(l[j]) + sec), off, e),
            d1 == with_block(disk, self.cluster_lba(l[j]) + sec, buf),
        ensures
            self.frame(disk, d1, l.to_set(), Set::empty()),
            self.concat(d1, l) == put_bytes(self.concat(disk, l), j * self.cluster_bytes() + sec * 512 + off, e),
    {
        let c = l[j];
        let lba = self.cluster_lba(c) + sec;
        self.lemma_sector_of_cluster(disk, c, sec);
        lemma_put_in_block(disk, lba, off, e);
        self.lemma_put_cluster_frame(disk, c, sec * 512 + off, e);
        assert(lba * 512 + off == self.cluster_lba(c) * 512 + (sec * 512 + off));
        self.lemma_concat_put(disk, d1, l, j, sec * 512 + off, e);
        assert(l.to_set().contains(c));
        assert(set![c].subset_of(l.to_set()));
        crate::clusters::lemma_frame_widen(*self, disk, d1, set![c], Set::empty(), l.to_set(), Set::empty());
    }


}


// ---------------------------------------------------------------------------
// Writing: files and directories
// ---------------------------------------------------------------------------

/// The index of the last `/` in `s`.
pub open spec fn last_slash(s: Seq<char>) -> Option<int>
    decreases s.len(),
{
    if s.len() == 0 {
        None
    } else if s.last() == '/' {
        Some(s.len() - 1)
    } else {
        last_slash(s.drop_last())
    }
}

/// `/foo/bar/baz` split into `/foo/bar` and `baz` (trailing `/` ignored);
/// `None` for the empty path, for `/`, and for a path without `/`.
pub open spec fn spec_split_parent(abs: Seq<char>) -> Option<(Seq<char>, Seq<char>)> {
    let t = trim_trailing_slashes(abs);
    if t.len() == 0 {
        None
    } else {
        match last_slash(t) {
            None => None,
            Some(i) => {
                let parent = if i == 0 {
                    seq!['/']
                } else {
                    t.take(i)
                };
                let name = t.skip(i + 1);
                if name.len() == 0 {
                    None
                } else {
                    Some((parent, name))
                }
            },
        }
    }
}

proof fn lemma_last_slash(s: Seq<char>)
    ensures
        last_slash(s) matches Some(i) ==> 0 <= i < s.len() && s[i] == '/' && no_slash(s.skip(i + 1)),
        last_slash(s) is None ==> no_slash(s),
    decreases s.len(),
{
    if s.len() > 0 {
        lemma_last_slash(s.drop_last());
        if s.last() == '/' {
            assert(s.skip(s.len() as int) =~= Seq::<char>::empty());
        } else if let Some(i) = last_slash(s.drop_last()) {
            assert forall|k: int| 0 <= k < s.skip(i + 1).len() implies #[trigger] s.skip(i + 1)[k] != '/' by {
                if k < s.skip(i + 1).len() - 1 {
                    assert(s.skip(i + 1)[k] == s.drop_last().skip(i + 1)[k]);
                }
            }
        } else {
            assert forall|k: int| 0 <= k < s.len() implies #[trigger] s[k] != '/' by {
                if k < s.len() - 1 {
                    assert(s[k] == s.drop_last()[k]);
                }
            }
        }
    }
}

pub proof fn lemma_root_segments()
    ensures
        segments(seq!['/']) == Seq::<Seq<char>>::empty(),
        segments(Seq::<char>::empty()) == Seq::<Seq<char>>::empty(),
        trim_trailing_slashes(seq!['/']) == Seq::<char>::empty(),
{
    let e = Seq::<char>::empty();
    assert(seq!['/'].drop_last() =~= e);
    assert(crate::path::seg_scan(e) == (Seq::<Seq<char>>::empty(), Seq::<char>::empty()));
    assert(trim_trailing_slashes(e) == e);
}

/// The segments of a path split into parent and name: those of the parent,
/// then the name.
pub proof fn lemma_split_parent_segments(abs: Seq<char>)
    requires
        spec_split_parent(abs) is Some,
    ensures
        ({
            let (p, n) = spec_split_parent(abs)->Some_0;
            &&& segments(abs) == segments(p).push(n)
            &&& p.len() > 0
            &&& !is_root_path(abs)
        }),
{
    let t = trim_trailing_slashes(abs);
    let i = last_slash(t)->Some_0;
    lemma_last_slash(t);
    lemma_segments_trim(abs);
    let name = t.skip(i + 1);
    let dir = t.take(i);
    assert(t =~= dir + seq!['/'] + name);
    lemma_segments_child(dir, name);
    lemma_root_segments();
    if i == 0 {
        assert(dir =~= Seq::<char>::empty());
    }
}

impl FatFs {
    /// Looking up a path whose parent is a directory: the parent's entries
    /// searched for the last name.
    pub proof fn lemma_lookup_child(&self, disk: Seq<u8>, abs: Seq<char>)
        requires
            spec_split_parent(abs) matches Some((p, n)) && self.spec_is_dir(disk, p),
        ensures
            ({
                let (p, n) = spec_split_parent(abs)->Some_0;
                let c = if p == seq!['/'] {
                    self.root_cluster
                } else {
                    self.spec_lookup(disk, p)->Ok_0.cluster
                };
                self.spec_lookup(disk, abs) == self.spec_step(disk, c, n)
            }),
    {
        let (p, n) = spec_split_parent(abs)->Some_0;
        lemma_split_parent_segments(abs);
        let segs = segments(p);
        assert(segs.push(n).drop_last() =~= segs);
        assert(segs.push(n).last() == n);
        if p != seq!['/'] {
            assert(!is_root_path(p));
            if segs.len() == 0 {
                assert(self.walk_segs(disk, segs) == Err::<DirEntryView, FsError>(FsError::NotFound));
            }
        } else {
            lemma_root_segments();
        }
    }
}

fn last_slash_of(s: &[char]) -> (r: Option<usize>)
    ensures
        match r {
            Some(i) => last_slash(s@) == Some(i as int) && i < s@.len(),
            None => last_slash(s@) is None,
        },
{
    let mut n: usize = s.len();
    assert(s@.take(n as int) =~= s@);
    while n > 0
        invariant
            n <= s@.len(),
            last_slash(s@) == last_slash(s@.take(n as int)),
        decreases n,
    {
        assert(s@.take(n as int).drop_last() =~= s@.take(n - 1));
        if s[n - 1] == '/' {
            return Some(n - 1);
        }
        n = n - 1;
    }
    None
}

fn chars_range(s: &[char], from: usize, to: usize) -> (r: Vec<char>)
    requires
        from <= to <= s@.len(),
    ensures
        r@ == s@.subrange(from as int, to as int),
{
    let mut out: Vec<char> = Vec::new();
    let mut i: usize = from;
    while i < to
        invariant
            from <= i <= to <= s@.len(),
            out@ == s@.subrange(from as int, i as int),
        decreases to - i,
    {
        out.push(s[i]);
        i = i + 1;
        assert(out@ =~= s@.subrange(from as int, i as int));
    }
    out
}

/// Split `abs` into its parent directory and its last name.
pub fn split_parent(abs: &str) -> (r: Result<(String, String), FsError>)
    ensures
        match r {
            Ok((p, n)) => spec_split_parent(abs@) == Some((p@, n@)),
            Err(e) => e == FsError::Io && spec_split_parent(abs@) is None,
        },
{
    let cs = chars_of(abs);
    let trimmed = canonical_prefix(cs.as_slice());
    if trimmed.len() == 0 {
        return Err(FsError::Io);
    }
    let idx = match last_slash_of(trimmed.as_slice()) {
        Some(i) => i,
        None => return Err(FsError::Io),
    };
    let parent = if idx == 0 {
        let mut p: Vec<char> = Vec::new();
        p.push('/');
        assert(p@ =~= seq!['/']);
        string_of(p.as_slice())
    } else {
        let p = chars_range(trimmed.as_slice(), 0, idx);
        assert(p@ =~= trimmed@.take(idx as int));
        string_of(p.as_slice())
    };
    let name = chars_range(trimmed.as_slice(), idx + 1, trimmed.len());
    assert(name@ =~= trimmed@.skip(idx + 1));
    if name.len() == 0 {
        return Err(FsError::Io);
    }
    Ok((parent, string_of(name.as_slice())))
}

/// The bytes of the name `s`.
fn name_bytes(s: &String) -> (r: Vec<u8>)
    ensures
        r@ == vstd::utf8::encode_utf8(s@),
{
    let b = s.as_str().as_bytes();
    vstd::slice::slice_to_vec(b)
}

impl FatFs {
    /// The first cluster of the directory at `abs`.
    fn cluster_for<D: BlockDevice>(&self, dev: &mut D, abs: &str) -> (r: Result<u32, FsError>)
        requires
            self.wf(),
        ensures
            final(dev).contents() == old(dev).contents(),
            final(dev).reliable() == old(dev).reliable(),
            match r {
                Ok(c) => if abs@ == seq!['/'] {
                    c == self.root_cluster
                } else {
                    self.spec_lookup(old(dev).contents(), abs@) matches Ok(e) && e.is_dir && e.cluster == c
                },
                Err(e) => true,
            },
            abs@ == seq!['/'] ==> r == Ok::<u32, FsError>(self.root_cluster),
            old(dev).reliable() && abs@ != seq!['/'] ==> r == match self.spec_lookup(old(dev).contents(), abs@) {
                Err(e) => Err(e),
                Ok(en) => if en.is_dir {
                    Ok::<u32, FsError>(en.cluster)
                } else {
                    Err(FsError::NotADir)
                },
            },
    {
        if is_slash_only(abs) {
            return Ok(self.root_cluster);
        }
        let entry = self.lookup(dev, abs)?;
        if !entry.is_dir {
            return Err(FsError::NotADir);
        }
        Ok(entry.cluster)
    }

    /// The entry named `name` in the directory whose chain starts at
    /// `cluster`.
    fn find_in_dir<D: BlockDevice>(&self, dev: &mut D, cluster: u32, name: &[char]) -> (r: Result<Option<DirEntry>, FsError>)
        requires
            self.wf(),
        ensures
            final(dev).contents() == old(dev).contents(),
            final(dev).reliable() == old(dev).reliable(),
            match r {
                Ok(Some(e)) => self.dir_entries(old(dev).contents(), cluster as int) matches Some(es) && find_named(es, name@)
                    == Some(e.view()),
                Ok(None) => self.dir_entries(old(dev).contents(), cluster as int) matches Some(es) && find_named(es, name@) is None,
                Err(e) => e == FsError::Io && (old(dev).reliable() ==> self.dir_entries(old(dev).contents(), cluster as int) is None),
            },
    {
        let entries = self.read_dir(dev, cluster)?;
        match find_entry(&entries, name) {
            Some(k) => Ok(Some(entries[k].duplicate())),
            None => Ok(None),
        }
    }

    /// Empty the file `name` of the directory at `parent_cluster`: its
    /// clusters are freed and its entry rewritten with no cluster and size 0.
    /// When that directory is the parent `p` of `abs` and the volume is sound
    /// there, the file at `abs` then reads back empty.
    #[verifier::spinoff_prover]
    #[verifier::rlimit(80)]
    fn truncate_file<D: BlockDevice>(
        &self,
        dev: &mut D,
        parent_cluster: u32,
        name: &String,
        Ghost(abs): Ghost<Seq<char>>,
        Ghost(p): Ghost<Seq<char>>,
    ) -> (r: Result<(), FsError>)
        requires
            self.wf(),
        ensures
            final(dev).reliable() == old(dev).reliable(),
            changes_only(old(dev).contents(), final(dev).contents(), self.writable_area()),
            (self.dir_entries(old(dev).contents(), parent_cluster as int) matches Some(es) && find_named(es, name@) matches Some(
                e,
            ) && e.is_dir && old(dev).reliable()) ==> r == Err::<(), FsError>(FsError::IsADir) && final(dev).contents()
                == old(dev).contents(),
            r is Ok && self.write_ready(old(dev).contents(), abs) && spec_split_parent(abs) == Some((p, name@)) && self.spec_is_dir(
                old(dev).contents(),
                p,
            ) && parent_cluster == self.dir_cluster(old(dev).contents(), p) ==> self.spec_read_file(final(dev).contents(), abs)
                == Ok::<Seq<u8>, FsError>(Seq::empty()) && self.frame(
                old(dev).contents(),
                final(dev).contents(),
                self.write_touch(old(dev).contents(), abs),
                self.write_touch(old(dev).contents(), abs),
            ) && self.keeps_siblings(old(dev).contents(), final(dev).contents(), abs) && self.keeps_in_use(
                old(dev).contents(),
                final(dev).contents(),
                self.replaced_chain(old(dev).contents(), abs),
            ) && self.keeps_mirrored(old(dev).contents(), final(dev).contents()),
            old(dev).reliable() && self.write_ready(old(dev).contents(), abs) && spec_split_parent(abs) == Some((p, name@))
                && self.spec_is_dir(old(dev).contents(), p) && parent_cluster == self.dir_cluster(old(dev).contents(), p) && (
            self.child_lookup(old(dev).contents(), abs) matches Some(Ok(e)) && !e.is_dir) && self.room(old(dev).contents(), 1) ==> r is Ok,
    {
        let ghost disk = old(dev).contents();
        let ghost owed = old(dev).reliable() && self.write_ready(disk, abs) && spec_split_parent(abs) == Some((p, name@))
            && self.spec_is_dir(disk, p) && parent_cluster == self.dir_cluster(disk, p) && (self.child_lookup(disk, abs) matches Some(
            Ok(e),
        ) && !e.is_dir) && self.room(disk, 1);
        proof {
            self.lemma_areas();
        }
        let ghost pc = parent_cluster as int;
        let ghost pl = self.parent_chain(disk, pc);
        let ghost ready = self.write_ready(disk, abs) && spec_split_parent(abs) == Some((p, name@)) && self.spec_is_dir(disk, p)
            && pc == self.dir_cluster(disk, p);
        proof {
            if ready {
                self.lemma_ready_facts(disk, abs, p, name@, pc);
                self.lemma_dir_chain_list(disk, pc, pl);
            }
        }
        let cs = chars_of(name.as_str());
        proof {
            if owed {
                self.lemma_lookup_child(disk, abs);
            }
        }
        let entry = match self.find_in_dir(dev, parent_cluster, cs.as_slice())? {
            Some(e) => e,
            None => return Err(FsError::NotFound),
        };
        assert(owed ==> self.child_lookup(disk, abs) == Some(Ok::<DirEntryView, FsError>(entry.view())));
        if entry.is_dir {
            return Err(FsError::IsADir);
        }
        let ghost mut rs: Set<int> = Set::empty();
        if entry.cluster >= 2 {
            proof {
                if ready {
                    self.lemma_ready_old(disk, abs, p, name@, pc, entry.view());
                }
            }
            self.free_chain(dev, entry.cluster)?;
            proof {
                rs = self.reach_set(disk, entry.cluster as int);
            }
        }
        let ghost d1 = dev.contents();
        proof {
            if ready {
                if entry.cluster < 2 {
                    lemma_frame_refl(*self, disk);
                }
                self.lemma_distinct_short(pl);
                assert forall|i: int| 0 <= i < pl.len() implies !rs.contains(#[trigger] pl[i]) by {
                    if entry.cluster >= 2 && rs.contains(pl[i]) {
                        assert(pl.contains(pl[i]));
                    }
                }
                self.lemma_dir_chain_keep(disk, d1, pc, pl, Set::empty(), rs);
            }
        }
        assert(owed ==> self.room(d1, 1) && self.dir_chain(d1, pc, pl) && exists|o: int|
            0 <= o && 32 * o + 32 <= self.concat(d1, pl).len() && #[trigger] delete_target(record(self.concat(d1, pl), o), cs@)) by {
            if owed {
                if entry.cluster >= 2 {
                    self.lemma_room_after_free(disk, d1, entry.cluster as int, 1);
                }
                self.lemma_owed_delete(disk, d1, pc, pl, cs@, rs);
            }
        }
        self.delete_dir_entry(dev, parent_cluster, cs.as_slice(), Ghost(pl))?;
        proof {
            lemma_changes_weaken(d1, dev.contents(), self.data_area(), self.writable_area());
            lemma_changes_trans(disk, d1, dev.contents(), self.writable_area());
        }
        let ghost db = dev.contents();
        let ghost od = choose|o: int| #[trigger] self.deleted_at(d1, db, pl, cs@, o);
        assert(owed ==> self.room(db, 1)) by {
            if owed {
                if record(self.concat(d1, pl), od)[0] != 0 {
                    self.lemma_room_frame(d1, db, pl.to_set(), 1);
                }
            }
        }
        proof {
            if ready {
                self.lemma_write_removed(disk, d1, db, abs, p, name@, pc, rs, true, od);
                crate::fatwrite::lemma_frame_refl_widen(*self, db, Set::empty());
                self.lemma_write_chain_apart(disk, db, db, db, p, pc, pl, rs, 0, Seq::empty());
            }
        }
        let nb = name_bytes(name);
        self.add_dir_entry(dev, parent_cluster, nb.as_slice(), 0x20, 0, 0, Ghost(pl))?;
        proof {
            lemma_changes_trans(disk, db, dev.contents(), self.writable_area());
            if ready {
                let d5 = dev.contents();
                let e = Self::file_record(name@, 0x20, 0, 0);
                assert(e == encode_entry(nb@, 0x20, 0, 0));
                let grew = !(exists|o: int| #[trigger] self.added_at(db, d5, pl, e, o));
                let o = choose|o: int| #[trigger] self.added_at(db, d5, pl, e, o);
                let x = choose|x: int| #[trigger] self.grown(db, d5, pl, e, x);
                assert(Seq::<u8>::empty().len() == 0);
                self.lemma_write_read_back(disk, d1, db, db, db, d5, abs, p, name@, Seq::empty(), pc, rs, true, od, Seq::empty(), 0,
                    grew, o, x, 0x20);
                assert(self.alloc_limit() <= self.fat_entries());
                self.lemma_parent_in_use(db, d5, pl, e, grew, o, x);
                self.lemma_write_keeps(disk, d5, abs, p, name@);
                assert(forall|j: int| #[trigger] self.in_fat(j) ==> !(self.data_area())(j));
                lemma_keeps_mirrored_outside(*self, d1, db, self.data_area());
                lemma_keeps_mirrored_trans(*self, disk, d1, db);
                lemma_keeps_mirrored_trans(*self, disk, db, d5);
            }
        }
        Ok(())
    }

    /// Create an empty file at `abs`, or truncate the file already there.
    /// On a volume sound where the change goes (see
    /// [`FatFs::write_ready`]), the file then reads back empty.
    #[verifier::spinoff_prover]
    #[verifier::rlimit(80)]
    pub fn create_file<D: BlockDevice>(&self, dev: &mut D, abs: &str) -> (r: Result<(), FsError>)
        requires
            self.wf(),
        ensures
            final(dev).reliable() == old(dev).reliable(),
            changes_only(old(dev).contents(), final(dev).contents(), self.writable_area()),
            spec_split_parent(abs@) is None ==> r == Err::<(), FsError>(FsError::Io) && final(dev).contents() == old(dev).contents(),
            spec_split_parent(abs@) matches Some((p, n)) && !self.spec_is_dir(old(dev).contents(), p) ==> r == Err::<
                (),
                FsError,
            >(FsError::NotADir) && final(dev).contents() == old(dev).contents(),
            old(dev).reliable() && self.child_lookup(old(dev).contents(), abs@) == Some(Err::<DirEntryView, FsError>(FsError::Io))
                ==> r == Err::<(), FsError>(FsError::Io) && final(dev).contents() == old(dev).contents(),
            (self.child_lookup(old(dev).contents(), abs@) matches Some(Ok(e)) && e.is_dir && old(dev).reliable()) ==> r
                == Err::<(), FsError>(FsError::IsADir) && final(dev).contents() == old(dev).contents(),
            r is Ok ==> (spec_split_parent(abs@) matches Some((p, n)) && self.spec_is_dir(old(dev).contents(), p)),
            r is Ok && self.write_ready(old(dev).contents(), abs@) ==> self.spec_read_file(final(dev).contents(), abs@) == Ok::<
                Seq<u8>,
                FsError,
            >(Seq::empty()) && self.frame(
                old(dev).contents(),
                final(dev).contents(),
                self.write_touch(old(dev).contents(), abs@),
                self.write_touch(old(dev).contents(), abs@),
            ) && self.keeps_siblings(old(dev).contents(), final(dev).contents(), abs@) && self.keeps_in_use(
                old(dev).contents(),
                final(dev).contents(),
                self.replaced_chain(old(dev).contents(), abs@),
            ) && self.keeps_mirrored(old(dev).contents(), final(dev).contents()),
            old(dev).reliable() && self.write_owed(old(dev).contents(), abs@, 0) ==> r is Ok,
    {
        let ghost disk = old(dev).contents();
        let ghost owed = old(dev).reliable() && self.write_owed(disk, abs@, 0);
        proof {
            if owed {
                self.lemma_owed_facts(disk, abs@, 0);
                assert(self.clusters_for(0) == 0);
            }
        }
        let (parent, name) = split_parent(abs)?;
        if !self.is_dir(dev, parent.as_str()) {
            return Err(FsError::NotADir);
        }
        let parent_cluster = self.cluster_for(dev, parent.as_str())?;
        proof {
            self.lemma_lookup_child(disk, abs@);
        }
        let ghost pc = parent_cluster as int;
        let ghost pl = self.parent_chain(disk, pc);
        let ghost ready = self.write_ready(disk, abs@);
        proof {
            if ready {
                self.lemma_ready_facts(disk, abs@, parent@, name@, pc);
                self.lemma_dir_chain_list(disk, pc, pl);
            }
        }
        let cs = chars_of(name.as_str());
        let found = self.find_in_dir(dev, parent_cluster, cs.as_slice())?;
        proof {
            if owed {
                if found is Some {
                    assert(self.child_lookup(disk, abs@) == Some(Ok::<DirEntryView, FsError>(found->Some_0.view())));
                }
            }
        }
        if found.is_some() {
            self.truncate_file(dev, parent_cluster, &name, Ghost(abs@), Ghost(parent@))?;
            return Ok(());
        }
        proof {
            if ready {
                self.lemma_write_removed(disk, disk, disk, abs@, parent@, name@, pc, Set::empty(), false, 0);
                crate::fatwrite::lemma_frame_refl_widen(*self, disk, Set::empty());
                self.lemma_write_chain_apart(disk, disk, disk, disk, parent@, pc, pl, Set::empty(), 0, Seq::empty());
            }
        }
        let nb = name_bytes(&name);
        self.add_dir_entry(dev, parent_cluster, nb.as_slice(), 0, 0, 0, Ghost(pl))?;
        proof {
            if ready {
                let d5 = dev.contents();
                let e = Self::file_record(name@, 0, 0, 0);
                assert(e == encode_entry(nb@, 0, 0, 0));
                let grew = !(exists|o: int| #[trigger] self.added_at(disk, d5, pl, e, o));
                let o = choose|o: int| #[trigger] self.added_at(disk, d5, pl, e, o);
                let x = choose|x: int| #[trigger] self.grown(disk, d5, pl, e, x);
                self.lemma_write_read_back(disk, disk, disk, disk, disk, d5, abs@, parent@, name@, Seq::empty(), pc, Set::empty(), false,
                    0, Seq::empty(), 0, grew, o, x, 0);
                assert(self.alloc_limit() <= self.fat_entries());
                self.lemma_parent_in_use(disk, d5, pl, e, grew, o, x);
                self.lemma_write_keeps(disk, d5, abs@, parent@, name@);
            }
        }
        Ok(())
    }

    /// Make `data` the contents of the file at `abs` (created if missing):
    /// the old chain is freed, a new one allocated and written. On a volume
    /// sound where the write goes (see [`FatFs::write_ready`]), the file then
    /// reads back as `data`.
    #[verifier::spinoff_prover]
    #[verifier::rlimit(100)]
    pub fn write_file<D: BlockDevice>(&self, dev: &mut D, abs: &str, data: &[u8]) -> (r: Result<(), FsError>)
        requires
            self.wf(),
        ensures
            final(dev).reliable() == old(dev).reliable(),
            changes_only(old(dev).contents(), final(dev).contents(), self.writable_area()),
            spec_split_parent(abs@) is None ==> r == Err::<(), FsError>(FsError::Io) && final(dev).contents() == old(dev).contents(),
            spec_split_parent(abs@) matches Some((p, n)) && !self.spec_is_dir(old(dev).contents(), p) ==> r == Err::<
                (),
                FsError,
            >(FsError::NotADir) && final(dev).contents() == old(dev).contents(),
            old(dev).reliable() && self.child_lookup(old(dev).contents(), abs@) == Some(Err::<DirEntryView, FsError>(FsError::Io))
                ==> r == Err::<(), FsError>(FsError::Io) && final(dev).contents() == old(dev).contents(),
            (self.child_lookup(old(dev).contents(), abs@) matches Some(Ok(e)) && e.is_dir && old(dev).reliable()) ==> r
                == Err::<(), FsError>(FsError::IsADir) && final(dev).contents() == old(dev).contents(),
            r is Ok ==> (spec_split_parent(abs@) matches Some((p, n)) && self.spec_is_dir(old(dev).contents(), p)),
            r is Ok && self.write_ready(old(dev).contents(), abs@) && data@.len() <= u32::MAX ==> self.spec_read_file(
                final(dev).contents(),
                abs@,
            ) == Ok::<Seq<u8>, FsError>(data@) && self.frame(
                old(dev).contents(),
                final(dev).contents(),
                self.write_touch(old(dev).contents(), abs@),
                self.write_touch(old(dev).contents(), abs@),
            ) && self.keeps_siblings(old(dev).contents(), final(dev).contents(), abs@),
            r is Ok && self.write_ready(old(dev).contents(), abs@) && data@.len() <= u32::MAX ==> self.spec_lookup(
                final(dev).contents(),
                abs@,
            ) is Ok && forall|y: int|
                #[trigger] self.replaced_chain(old(dev).contents(), abs@).contains(y) && self.fat_entry_on_disk(
                    y,
                    old(dev).contents().len(),
                ) && !self.reach_set(final(dev).contents(), self.spec_lookup(final(dev).contents(), abs@)->Ok_0.cluster as int).contains(
                    y,
                ) ==> self.fat_entry(final(dev).contents(), y) == 0,
            r is Ok && self.write_ready(old(dev).contents(), abs@) && data@.len() <= u32::MAX ==> self.keeps_in_use(
                old(dev).contents(),
                final(dev).contents(),
                self.replaced_chain(old(dev).contents(), abs@),
            ) && self.keeps_mirrored(old(dev).contents(), final(dev).contents()),
            old(dev).reliable() && self.write_owed(old(dev).contents(), abs@, data@.len()) ==> r is Ok,
    {
        let ghost disk = old(dev).contents();
        let ghost owed = old(dev).reliable() && self.write_owed(disk, abs@, data@.len());
        let ghost need = self.clusters_for(data@.len());
        proof {
            if owed {
                self.lemma_owed_facts(disk, abs@, data@.len());
            }
        }
        proof {
            self.lemma_areas();
        }
        let (parent, name) = split_parent(abs)?;
        if !self.is_dir(dev, parent.as_str()) {
            return Err(FsError::NotADir);
        }
        let parent_cluster = self.cluster_for(dev, parent.as_str())?;
        proof {
            self.lemma_lookup_child(disk, abs@);
        }
        let ghost pc = parent_cluster as int;
        let ghost pl = self.parent_chain(disk, pc);
        let ghost ready = self.write_ready(disk, abs@) && data@.len() <= u32::MAX;
        let ghost mut d1 = disk;
        let ghost mut rs: Set<int> = Set::empty();
        let ghost mut had_old = false;
        let ghost mut od: int = 0;
        proof {
            if ready {
                self.lemma_ready_facts(disk, abs@, parent@, name@, pc);
                self.lemma_dir_chain_list(disk, pc, pl);
            }
        }
        let cs = chars_of(name.as_str());
        match self.find_in_dir(dev, parent_cluster, cs.as_slice())? {
            Some(old_entry) => {
                assert(owed ==> !old_entry.is_dir) by {
                    if owed {
                        assert(self.child_lookup(disk, abs@) == Some(Ok::<DirEntryView, FsError>(old_entry.view())));
                    }
                }
                if old_entry.is_dir {
                    return Err(FsError::IsADir);
                }
                if old_entry.cluster >= 2 {
                    proof {
                        if ready {
                            self.lemma_ready_old(disk, abs@, parent@, name@, pc, old_entry.view());
                        }
                    }
                    self.free_chain(dev, old_entry.cluster)?;
                    proof {
                        rs = self.reach_set(disk, old_entry.cluster as int);
                        if ready {
                            assert forall|y: int| #[trigger] rs.contains(y) implies 2 <= y < self.fat_entries() by {
                                assert(self.reach_set(disk, old_entry.cluster as int).contains(y));
                            }
                        }
                    }
                }
                proof {
                    d1 = dev.contents();
                    had_old = true;
                    if ready {
                        if old_entry.cluster < 2 {
                            lemma_frame_refl(*self, disk);
                        }
                        self.lemma_distinct_short(pl);
                        assert forall|i: int| 0 <= i < pl.len() implies !rs.contains(#[trigger] pl[i]) by {
                            if old_entry.cluster >= 2 && rs.contains(pl[i]) {
                                assert(pl.contains(pl[i]));
                            }
                        }
                        self.lemma_dir_chain_keep(disk, d1, pc, pl, Set::empty(), rs);
                    }
                }
                assert(owed ==> self.room(d1, need + 1) && self.dir_chain(d1, pc, pl) && exists|o: int|
                    0 <= o && 32 * o + 32 <= self.concat(d1, pl).len() && #[trigger] delete_target(record(self.concat(d1, pl), o), cs@))
                    by {
                    if owed {
                        if old_entry.cluster >= 2 {
                            self.lemma_room_after_free(disk, d1, old_entry.cluster as int, need + 1);
                        }
                        self.lemma_owed_delete(disk, d1, pc, pl, cs@, rs);
                    }
                }
                self.delete_dir_entry(dev, parent_cluster, cs.as_slice(), Ghost(pl))?;
                proof {
                    lemma_changes_weaken(d1, dev.contents(), self.data_area(), self.writable_area());
                    lemma_changes_trans(disk, d1, dev.contents(), self.writable_area());
                    if ready {
                        od = choose|o: int| #[trigger] self.deleted_at(d1, dev.contents(), pl, cs@, o);
                    }
                }
                assert(owed ==> self.room(dev.contents(), need + 1)) by {
                    if owed {
                        if record(self.concat(d1, pl), od)[0] != 0 {
                            self.lemma_room_frame(d1, dev.contents(), pl.to_set(), need + 1);
                        }
                    }
                }
            },
            None => {},
        }
        let ghost db = dev.contents();
        proof {
            if ready {
                if had_old {
                    assert(self.deleted_at(d1, db, pl, name@, od));
                    assert(forall|j: int| #[trigger] self.in_fat(j) ==> !(self.data_area())(j));
                    lemma_keeps_mirrored_outside(*self, d1, db, self.data_area());
                    lemma_keeps_mirrored_trans(*self, disk, d1, db);
                }
            }
        }
        let r = self.store_file(dev, parent_cluster, &name, data, Ghost(ready), Ghost(disk), Ghost(d1), Ghost(abs@), Ghost(parent@),
            Ghost(rs), Ghost(had_old), Ghost(od));
        proof {
            if ready {
                assert(rs =~= self.replaced_chain(disk, abs@));
            }
        }
        r
    }

    /// Allocate a chain for `data` and write the data into it; return its
    /// first cluster (0 for no data) and, as ghosts, the disk between the
    /// two steps and the chain.
    #[verifier::spinoff_prover]
    fn fill_chain<D: BlockDevice>(&self, dev: &mut D, data: &[u8]) -> (r: Result<(u32, Ghost<(Seq<u8>, Seq<int>)>), FsError>)
        requires
            self.wf(),
        ensures
            final(dev).reliable() == old(dev).reliable(),
            changes_only(old(dev).contents(), final(dev).contents(), self.writable_area()),
            r is Err ==> r == Err::<(u32, Ghost<(Seq<u8>, Seq<int>)>), FsError>(FsError::Io),
            r is Ok && data@.len() == 0 ==> r->Ok_0.0 == 0 && final(dev).contents() == old(dev).contents(),
            r is Ok && data@.len() > 0 && self.reserved_sectors >= 2 ==> ({
                let (fc, g) = r->Ok_0;
                let (d3, lf) = g@;
                &&& self.fresh_chain(old(dev).contents(), d3, lf)
                &&& lf.len() > 0
                &&& lf[0] == fc
                &&& (lf.len() - 1) * self.cluster_bytes() < data@.len() <= lf.len() * self.cluster_bytes()
                &&& self.linked(final(dev).contents(), lf)
                &&& self.frame(d3, final(dev).contents(), lf.to_set(), Set::empty())
                &&& forall|i: int|
                    0 <= i < lf.len() ==> self.cluster_data(final(dev).contents(), #[trigger] lf[i]) == chunk(
                        data@,
                        self.cluster_bytes(),
                        i,
                    )
            }),
            old(dev).reliable() && self.reserved_sectors >= 2 && self.room(old(dev).contents(), self.clusters_for(data@.len()) + 1)
                ==> r is Ok && self.room(final(dev).contents(), 1),
            r is Ok && self.reserved_sectors >= 2 ==> self.keeps_mirrored(old(dev).contents(), final(dev).contents()),
    {
        let ghost db = dev.contents();
        let ghost owed = old(dev).reliable() && self.reserved_sectors >= 2 && self.room(db, self.clusters_for(data@.len()) + 1);
        let ghost need = self.clusters_for(data@.len());
        proof {
            self.lemma_areas();
        }
        let cluster_bytes: usize = self.sectors_per_cluster as usize * BLOCK_SIZE;
        let dlen: usize = data.len();
        if data.len() == 0 {
            proof {
                assert(need == 0);
                if owed {
                    self.lemma_room_take(db, db, 1, 0);
                }
            }
            return Ok((0, Ghost((db, Seq::empty()))));
        }
        assert(dlen / cluster_bytes < usize::MAX) by (nonlinear_arith)
            requires
                cluster_bytes >= 512,
                dlen <= usize::MAX,
        ;
        let n: usize = data.len() / cluster_bytes + if data.len() % cluster_bytes == 0 { 0 } else { 1 };
        assert(owed ==> n == need && n < 0x0FFFFFF8 && self.room(db, need)) by {
            if owed {
                assert(n == need);
                self.lemma_room_small(db, need + 1);
                self.lemma_room_take(db, db, need, 1);
            }
        }
        if n >= 0x1000_0000 {
            return Err(FsError::Io);
        }
        let head = self.allocate_chain(dev, n as u32)?;
        let ghost d3 = dev.contents();
        let ghost lf = choose|l: Seq<int>| #[trigger] self.fresh_chain(db, d3, l) && l.len() == n && l[0] == head;
        proof {
            if self.reserved_sectors >= 2 {
                crate::fatwrite::lemma_cluster_count(dlen as int, cluster_bytes as int, n as int);
                self.lemma_fresh_facts(db, d3, lf);
            }
        }
        self.write_chain(dev, head, data, Ghost(lf))?;
        proof {
            lemma_changes_weaken(d3, dev.contents(), self.data_area(), self.writable_area());
            lemma_changes_trans(db, d3, dev.contents(), self.writable_area());
            assert(forall|j: int| #[trigger] self.in_fat(j) ==> !(self.data_area())(j));
            lemma_keeps_mirrored_outside(*self, d3, dev.contents(), self.data_area());
            if self.reserved_sectors >= 2 {
                lemma_keeps_mirrored_trans(*self, db, d3, dev.contents());
            }
        }
        assert(owed ==> self.room(dev.contents(), 1)) by {
            if owed {
                self.lemma_room_fats(db, need + 1);
                self.lemma_room_take(db, d3, 1, need);
                self.lemma_room_frame(d3, dev.contents(), lf.to_set(), 1);
            }
        }
        Ok((head, Ghost((d3, lf))))
    }

    /// The second half of a write: allocate and fill the chain for `data`
    /// and add the entry for `name` to the directory whose chain starts at
    /// `parent_cluster`, on a disk where any old entry of that name is gone.
    #[verifier::spinoff_prover]
    #[verifier::rlimit(100)]
    fn store_file<D: BlockDevice>(
        &self,
        dev: &mut D,
        parent_cluster: u32,
        name: &String,
        data: &[u8],
        Ghost(ready): Ghost<bool>,
        Ghost(disk): Ghost<Seq<u8>>,
        Ghost(d1): Ghost<Seq<u8>>,
        Ghost(abs): Ghost<Seq<char>>,
        Ghost(parent): Ghost<Seq<char>>,
        Ghost(rs): Ghost<Set<int>>,
        Ghost(had_old): Ghost<bool>,
        Ghost(od): Ghost<int>,
    ) -> (r: Result<(), FsError>)
        requires
            self.wf(),
            changes_only(disk, old(dev).contents(), self.writable_area()),
            ready ==> self.write_ready(disk, abs) && data@.len() <= u32::MAX && spec_split_parent(abs) == Some((parent, name@))
                && self.spec_is_dir(disk, parent) && parent_cluster as int == self.dir_cluster(disk, parent),
            ready && !had_old ==> find_named(parse_dir(self.concat(disk, self.parent_chain(disk, parent_cluster as int))), name@) is None
                && old(dev).contents() == disk && rs == Set::<int>::empty(),
            ready && had_old ==> (find_named(parse_dir(self.concat(disk, self.parent_chain(disk, parent_cluster as int))), name@) matches Some(
                eo,
            ) && !eo.is_dir && rs == (if eo.cluster >= 2 {
                self.reach_set(disk, eo.cluster as int)
            } else {
                Set::<int>::empty()
            })) && self.frame(disk, d1, Set::empty(), rs) && self.deleted_at(
                d1,
                old(dev).contents(),
                self.parent_chain(disk, parent_cluster as int),
                name@,
                od,
            ) && (forall|y: int| #[trigger] rs.contains(y) ==> 2 <= y < self.fat_entries()) && (forall|y: int|
                #[trigger] rs.contains(y) && self.fat_entry_on_disk(y, disk.len()) ==> self.fat_entry(d1, y) == 0),
            ready ==> self.keeps_mirrored(disk, old(dev).contents()),
        ensures
            final(dev).reliable() == old(dev).reliable(),
            changes_only(disk, final(dev).contents(), self.writable_area()),
            r is Err ==> r == Err::<(), FsError>(FsError::Io),
            ready && r is Ok ==> self.spec_read_file(final(dev).contents(), abs) == Ok::<Seq<u8>, FsError>(data@) && self.frame(
                disk,
                final(dev).contents(),
                self.write_touch(disk, abs),
                self.write_touch(disk, abs),
            ) && self.keeps_siblings(disk, final(dev).contents(), abs),
            ready && r is Ok ==> self.spec_lookup(final(dev).contents(), abs) is Ok && forall|y: int|
                #[trigger] rs.contains(y) && self.fat_entry_on_disk(y, disk.len()) && !self.reach_set(
                    final(dev).contents(),
                    self.spec_lookup(final(dev).contents(), abs)->Ok_0.cluster as int,
                ).contains(y) ==> self.fat_entry(final(dev).contents(), y) == 0,
            ready && r is Ok ==> self.keeps_in_use(disk, final(dev).contents(), self.replaced_chain(disk, abs)),
            ready && r is Ok ==> self.keeps_mirrored(disk, final(dev).contents()),
            old(dev).reliable() && ready && self.room(old(dev).contents(), self.clusters_for(data@.len()) + 1) ==> r is Ok,
    {
        let ghost db = dev.contents();
        let ghost pc = parent_cluster as int;
        let ghost pl = self.parent_chain(disk, pc);
        let ghost owed = old(dev).reliable() && ready && self.room(db, self.clusters_for(data@.len()) + 1);
        let ghost need = self.clusters_for(data@.len());
        proof {
            self.lemma_areas();
            if ready {
                self.lemma_ready_facts(disk, abs, parent, name@, pc);
            }
        }
        let (first_cluster, Ghost(gl)) = self.fill_chain(dev, data)?;
        let ghost d3 = gl.0;
        let ghost lf = gl.1;
        proof {
            lemma_changes_trans(disk, db, dev.contents(), self.writable_area());
            if ready {
                lemma_keeps_mirrored_trans(*self, disk, db, dev.contents());
            }
        }
        let ghost d4 = dev.contents();
        assert(ready ==> self.dir_chain(d4, pc, pl) && (forall|i: int| 0 <= i < pl.len() ==> self.fat_entry(d4, #[trigger] pl[i]) != 0)
            && self.concat(d4, pl) == self.concat(db, pl)) by {
            if ready {
                if had_old {
                    assert(self.deleted_at(d1, db, pl, name@, od));
                }
                self.lemma_write_removed(disk, d1, db, abs, parent, name@, pc, rs, had_old, od);
                self.lemma_write_chain_apart(disk, db, d3, d4, parent, pc, pl, rs, data@.len(), lf);
            }
        }
        let nb = name_bytes(name);
        self.add_dir_entry(dev, parent_cluster, nb.as_slice(), 0x20, first_cluster, data.len() as u32, Ghost(pl))?;
        proof {
            lemma_changes_trans(disk, d4, dev.contents(), self.writable_area());
            if ready {
                lemma_keeps_mirrored_trans(*self, disk, d4, dev.contents());
            }
        }
        assert(ready ==> self.spec_read_file(dev.contents(), abs) == Ok::<Seq<u8>, FsError>(data@) && self.frame(
            disk,
            dev.contents(),
            self.write_touch(disk, abs),
            self.write_touch(disk, abs),
        ) && self.keeps_siblings(disk, dev.contents(), abs) && self.spec_lookup(dev.contents(), abs) is Ok && self.spec_lookup(
            dev.contents(),
            abs,
        )->Ok_0.cluster == first_cluster) by {
            if ready {
                if had_old {
                    assert(self.deleted_at(d1, db, pl, name@, od));
                }
                self.lemma_write_removed(disk, d1, db, abs, parent, name@, pc, rs, had_old, od);
                self.lemma_write_chain_apart(disk, db, d3, d4, parent, pc, pl, rs, data@.len(), lf);
                let d5 = dev.contents();
                let e = Self::file_record(name@, 0x20, first_cluster, data@.len());
                assert(e == encode_entry(nb@, 0x20, first_cluster, data.len() as u32));
                let grew = !(exists|o: int| #[trigger] self.added_at(d4, d5, pl, e, o));
                let o = choose|o: int| #[trigger] self.added_at(d4, d5, pl, e, o);
                let x = choose|x: int| #[trigger] self.grown(d4, d5, pl, e, x);
                self.lemma_write_read_back(disk, d1, db, d3, d4, d5, abs, parent, name@, data@, pc, rs, had_old, od, lf, first_cluster, grew, o, x, 0x20);
            }
        }
        assert(ready ==> forall|y: int|
            #[trigger] rs.contains(y) && self.fat_entry_on_disk(y, disk.len()) && !self.reach_set(
                dev.contents(),
                first_cluster as int,
            ).contains(y) ==> self.fat_entry(dev.contents(), y) == 0) by {
            if ready {
                if had_old {
                    assert(self.deleted_at(d1, db, pl, name@, od));
                }
                let d5 = dev.contents();
                let e = Self::file_record(name@, 0x20, first_cluster, data@.len());
                assert(e == encode_entry(nb@, 0x20, first_cluster, data.len() as u32));
                let grew = !(exists|o: int| #[trigger] self.added_at(d4, d5, pl, e, o));
                let o = choose|o: int| #[trigger] self.added_at(d4, d5, pl, e, o);
                let x = choose|x: int| #[trigger] self.grown(d4, d5, pl, e, x);
                self.lemma_write_frees(disk, d1, db, d3, d4, d5, pl, name@, rs, had_old, od, data@.len(), lf, first_cluster, e, grew, o, x);
            }
        }
        assert(ready ==> self.keeps_in_use(disk, dev.contents(), self.replaced_chain(disk, abs))) by {
            if ready {
                let d5 = dev.contents();
                let e = Self::file_record(name@, 0x20, first_cluster, data@.len());
                assert(e == encode_entry(nb@, 0x20, first_cluster, data.len() as u32));
                let grew = !(exists|o: int| #[trigger] self.added_at(d4, d5, pl, e, o));
                let o = choose|o: int| #[trigger] self.added_at(d4, d5, pl, e, o);
                let x = choose|x: int| #[trigger] self.grown(d4, d5, pl, e, x);
                assert(self.alloc_limit() <= self.fat_entries());
                self.lemma_parent_in_use(d4, d5, pl, e, grew, o, x);
                self.lemma_write_keeps(disk, d5, abs, parent, name@);
            }
        }
        Ok(())
    }

    /// Append `data` at the end of the file at `abs`, creating it if it does
    /// not exist: the contents are read, extended and rewritten.
    pub fn append_file<D: BlockDevice>(&self, dev: &mut D, abs: &str, data: &[u8]) -> (r: Result<(), FsError>)
        requires
            self.wf(),
        ensures
            final(dev).reliable() == old(dev).reliable(),
            changes_only(old(dev).contents(), final(dev).contents(), self.writable_area()),
            r is Ok ==> (spec_split_parent(abs@) matches Some((p, n)) && self.spec_is_dir(old(dev).contents(), p)),
            old(dev).reliable() && self.spec_read_file(old(dev).contents(), abs@) is Err && self.spec_read_file(
                old(dev).contents(),
                abs@,
            )->Err_0 != FsError::NotFound ==> r == Err::<(), FsError>(self.spec_read_file(old(dev).contents(), abs@)->Err_0)
                && final(dev).contents() == old(dev).contents(),
            r is Ok && self.write_ready(old(dev).contents(), abs@) && self.appended(old(dev).contents(), abs@, data@).len()
                <= u32::MAX ==> self.spec_read_file(final(dev).contents(), abs@) == Ok::<Seq<u8>, FsError>(
                self.appended(old(dev).contents(), abs@, data@),
            ) && self.frame(
                old(dev).contents(),
                final(dev).contents(),
                self.write_touch(old(dev).contents(), abs@),
                self.write_touch(old(dev).contents(), abs@),
            ) && self.keeps_siblings(old(dev).contents(), final(dev).contents(), abs@) && self.keeps_in_use(
                old(dev).contents(),
                final(dev).contents(),
                self.replaced_chain(old(dev).contents(), abs@),
            ) && self.keeps_mirrored(old(dev).contents(), final(dev).contents()),
            old(dev).reliable() && (self.spec_read_file(old(dev).contents(), abs@) is Ok || self.spec_read_file(
                old(dev).contents(),
                abs@,
            ) == Err::<Seq<u8>, FsError>(FsError::NotFound)) && self.write_owed(
                old(dev).contents(),
                abs@,
                self.appended(old(dev).contents(), abs@, data@).len(),
            ) ==> r is Ok,
    {
        let existing = match self.read_file(dev, abs) {
            Ok(b) => b,
            Err(FsError::NotFound) => Vec::new(),
            Err(e) => return Err(e),
        };
        let mut combined = existing;
        let mut extra = vstd::slice::slice_to_vec(data);
        combined.append(&mut extra);
        proof {
            assert(combined@ == self.appended(old(dev).contents(), abs@, data@));
        }
        self.write_file(dev, abs, combined.as_slice())
    }

    /// Create an empty directory at `abs`, holding only `.` and `..`. On a
    /// volume sound where the change goes (see [`FatFs::write_ready`]), the
    /// path is then a directory that lists nothing.
    #[verifier::spinoff_prover]
    #[verifier::rlimit(80)]
    pub fn create_dir<D: BlockDevice>(&self, dev: &mut D, abs: &str) -> (r: Result<(), FsError>)
        requires
            self.wf(),
        ensures
            final(dev).reliable() == old(dev).reliable(),
            changes_only(old(dev).contents(), final(dev).contents(), self.writable_area()),
            spec_split_parent(abs@) is None ==> r == Err::<(), FsError>(FsError::Io) && final(dev).contents() == old(dev).contents(),
            spec_split_parent(abs@) matches Some((p, n)) && !self.spec_is_dir(old(dev).contents(), p) ==> r == Err::<
                (),
                FsError,
            >(FsError::NotADir) && final(dev).contents() == old(dev).contents(),
            old(dev).reliable() && self.child_lookup(old(dev).contents(), abs@) == Some(Err::<DirEntryView, FsError>(FsError::Io))
                ==> r == Err::<(), FsError>(FsError::Io) && final(dev).contents() == old(dev).contents(),
            (self.child_lookup(old(dev).contents(), abs@) matches Some(Ok(e)) && old(dev).reliable()) ==> r == Err::<
                (),
                FsError,
            >(FsError::Io) && final(dev).contents() == old(dev).contents(),
            r is Ok ==> (spec_split_parent(abs@) matches Some((p, n)) && self.spec_is_dir(old(dev).contents(), p)),
            r is Ok && self.write_ready(old(dev).contents(), abs@) ==> self.spec_is_dir(final(dev).contents(), abs@)
                && self.spec_list_dir(final(dev).contents(), abs@) == Ok::<Seq<Seq<char>>, FsError>(Seq::empty()) && self.frame(
                old(dev).contents(),
                final(dev).contents(),
                self.write_touch(old(dev).contents(), abs@),
                self.write_touch(old(dev).contents(), abs@),
            ) && self.keeps_siblings(old(dev).contents(), final(dev).contents(), abs@) && (self.spec_lookup(final(dev).contents(), abs@) matches Ok(
                e,
            ) && self.cluster_data(final(dev).contents(), e.cluster as int) == self.dir_block(
                e.cluster,
                if spec_split_parent(abs@)->Some_0.0 == seq!['/'] {
                    0u32
                } else {
                    self.dir_cluster(old(dev).contents(), spec_split_parent(abs@)->Some_0.0) as u32
                },
            )) && self.keeps_in_use(old(dev).contents(), final(dev).contents(), Set::empty()) && self.keeps_mirrored(
                old(dev).contents(),
                final(dev).contents(),
            ),
            old(dev).reliable() && self.write_ready(old(dev).contents(), abs@) && (spec_split_parent(abs@) matches Some((p, n))
                && self.spec_is_dir(old(dev).contents(), p)) && self.child_lookup(old(dev).contents(), abs@) == Some(
                Err::<DirEntryView, FsError>(FsError::NotFound),
            ) && self.room(old(dev).contents(), 2) ==> r is Ok,
    {
        let ghost disk = old(dev).contents();
        let ghost owed = old(dev).reliable() && self.write_ready(disk, abs@) && (spec_split_parent(abs@) matches Some((p, n))
            && self.spec_is_dir(disk, p)) && self.child_lookup(disk, abs@) == Some(Err::<DirEntryView, FsError>(FsError::NotFound))
            && self.room(disk, 2);
        proof {
            self.lemma_areas();
        }
        let (parent, name) = split_parent(abs)?;
        if !self.is_dir(dev, parent.as_str()) {
            return Err(FsError::NotADir);
        }
        let parent_cluster = self.cluster_for(dev, parent.as_str())?;
        proof {
            self.lemma_lookup_child(disk, abs@);
        }
        let ghost pc = parent_cluster as int;
        let ghost pl = self.parent_chain(disk, pc);
        let ghost ready = self.write_ready(disk, abs@);
        proof {
            if ready {
                self.lemma_ready_facts(disk, abs@, parent@, name@, pc);
                self.lemma_dir_chain_list(disk, pc, pl);
            }
        }
        let cs = chars_of(name.as_str());
        if self.find_in_dir(dev, parent_cluster, cs.as_slice())?.is_some() {
            return Err(FsError::Io);
        }
        proof {
            if owed {
                self.lemma_room_take(disk, disk, 1, 1);
            }
        }
        let cluster = self.allocate_chain(dev, 1)?;
        let ghost d1 = dev.contents();
        let ghost lf = seq![cluster as int];
        proof {
            if ready {
                let l = choose|l: Seq<int>| #[trigger] self.fresh_chain(disk, d1, l) && l.len() == 1 && l[0] == cluster;
                assert(l =~= lf);
            }
        }
        let cluster_bytes: usize = self.sectors_per_cluster as usize * BLOCK_SIZE;
        let mut buf = vec![0u8; cluster_bytes];
        let dot: [u8; 1] = [0x2E];
        let dotdot: [u8; 2] = [0x2E, 0x2E];
        proof {
            assert(buf@ =~= zeros(self.cluster_bytes()));
            assert(dot@ =~= seq![0x2Eu8]);
            assert(dotdot@ =~= seq![0x2Eu8, 0x2Eu8]);
        }
        write_short_entry(&mut buf, 0, &dot, ATTR_DIRECTORY, cluster, 0);
        let parent_for_dotdot: u32 = if is_slash_only(parent.as_str()) { 0 } else { parent_cluster };
        write_short_entry(&mut buf, 32, &dotdot, ATTR_DIRECTORY, parent_for_dotdot, 0);
        proof {
            assert(buf@ == self.dir_block(cluster, parent_for_dotdot));
        }
        proof {
            if owed {
                let l = choose|l: Seq<int>| #[trigger] self.fresh_chain(disk, d1, l) && l.len() == 1 && l[0] == cluster;
                self.lemma_fresh_facts(disk, d1, l);
                assert(self.cluster_on_disk(l[0], d1.len()));
            }
        }
        self.write_cluster(dev, cluster, buf.as_slice())?;
        proof {
            lemma_changes_weaken(d1, dev.contents(), self.data_area(), self.writable_area());
            lemma_changes_trans(disk, d1, dev.contents(), self.writable_area());
        }
        let ghost d2 = dev.contents();
        proof {
            if ready {
                assert(buf@.take(self.cluster_bytes() as int) =~= buf@);
                assert(lf.to_set() =~= set![cluster as int]) by {
                    assert(lf[0] == cluster as int);
                    assert forall|y: int| lf.to_set().contains(y) <==> set![cluster as int].contains(y) by {
                        if y == cluster as int {
                            assert(lf.contains(y));
                        }
                    }
                }
                self.lemma_write_removed(disk, disk, disk, abs@, parent@, name@, pc, Set::empty(), false, 0);
                self.lemma_write_chain_apart(disk, disk, d1, d2, parent@, pc, pl, Set::empty(), 1, lf);
            }
        }
        assert(owed ==> self.room(d2, 1)) by {
            if owed {
                self.lemma_room_take(disk, d1, 1, 1);
                self.lemma_room_frame(d1, d2, set![cluster as int], 1);
            }
        }
        let nb = name_bytes(&name);
        self.add_dir_entry(dev, parent_cluster, nb.as_slice(), ATTR_DIRECTORY, cluster, 0, Ghost(pl))?;
        proof {
            lemma_changes_trans(disk, d2, dev.contents(), self.writable_area());
            if ready {
                let d5 = dev.contents();
                let e = Self::file_record(name@, 0x10, cluster, 0);
                assert(e == encode_entry(nb@, ATTR_DIRECTORY, cluster, 0));
                let grew = !(exists|o: int| #[trigger] self.added_at(d2, d5, pl, e, o));
                let o = choose|o: int| #[trigger] self.added_at(d2, d5, pl, e, o);
                let x = choose|x: int| #[trigger] self.grown(d2, d5, pl, e, x);
                self.lemma_mkdir_read_back(disk, d1, d2, d5, abs@, parent@, name@, pc, cluster, parent_for_dotdot, grew, o, x);
                self.lemma_mkdir_touch(disk, d1, d2, d5, abs@, parent@, name@, pc, cluster, grew, o, x);
                assert(self.alloc_limit() <= self.fat_entries());
                self.lemma_parent_in_use(d2, d5, pl, e, grew, o, x);
                self.lemma_write_keeps(disk, d5, abs@, parent@, name@);
                assert(self.replaced_chain(disk, abs@) =~= Set::<int>::empty());
                assert(forall|j: int| #[trigger] self.in_fat(j) ==> !(self.data_area())(j));
                lemma_keeps_mirrored_outside(*self, d1, d2, self.data_area());
                lemma_keeps_mirrored_trans(*self, disk, d1, d2);
                lemma_keeps_mirrored_trans(*self, disk, d2, d5);
            }
        }
        Ok(())
    }

    /// Remove the file or empty directory at `abs`.
    pub fn remove<D: BlockDevice>(&self, dev: &mut D, abs: &str) -> (r: Result<(), FsError>)
        requires
            self.wf(),
        ensures
            final(dev).reliable() == old(dev).reliable(),
            changes_only(old(dev).contents(), final(dev).contents(), self.writable_area()),
            spec_split_parent(abs@) is None ==> r == Err::<(), FsError>(FsError::Io) && final(dev).contents() == old(dev).contents(),
            old(dev).reliable() && spec_split_parent(abs@) is Some && !self.spec_is_dir(
                old(dev).contents(),
                spec_split_parent(abs@)->Some_0.0,
            ) ==> r == match self.spec_lookup(old(dev).contents(), spec_split_parent(abs@)->Some_0.0) {
                Err(e) => Err::<(), FsError>(e),
                Ok(_) => Err(FsError::NotADir),
            } && final(dev).contents() == old(dev).contents(),
            old(dev).reliable() && self.child_lookup(old(dev).contents(), abs@) is Some && self.child_lookup(
                old(dev).contents(),
                abs@,
            )->Some_0 is Err ==> r == Err::<(), FsError>(self.child_lookup(old(dev).contents(), abs@)->Some_0->Err_0)
                && final(dev).contents() == old(dev).contents(),
            (self.child_lookup(old(dev).contents(), abs@) matches Some(Ok(e)) && e.is_dir && old(dev).reliable() && !(
            self.dir_entries(old(dev).contents(), e.cluster as int) matches Some(ks) && ks.len() == 0)) ==> r == Err::<
                (),
                FsError,
            >(FsError::Io) && final(dev).contents() == old(dev).contents(),
            r is Ok && self.remove_ready(old(dev).contents(), abs@) ==> self.spec_lookup(final(dev).contents(), abs@) == Err::<
                DirEntryView,
                FsError,
            >(FsError::NotFound) && self.frame(
                old(dev).contents(),
                final(dev).contents(),
                self.remove_touch(old(dev).contents(), abs@),
                self.remove_touch(old(dev).contents(), abs@),
            ) && self.keeps_siblings(old(dev).contents(), final(dev).contents(), abs@) && forall|x: int|
                #[trigger] self.removed_chain(old(dev).contents(), abs@).contains(x) && self.fat_entry_on_disk(
                    x,
                    old(dev).contents().len(),
                ) ==> self.fat_entry(final(dev).contents(), x) == 0,
            r is Ok && self.remove_ready(old(dev).contents(), abs@) ==> self.keeps_in_use(
                old(dev).contents(),
                final(dev).contents(),
                self.removed_chain(old(dev).contents(), abs@),
            ) && self.keeps_mirrored(old(dev).contents(), final(dev).contents()),
            old(dev).reliable() && self.remove_owed(old(dev).contents(), abs@) ==> r is Ok,
    {
        let ghost disk = old(dev).contents();
        let ghost owed = old(dev).reliable() && self.remove_owed(disk, abs@);
        proof {
            self.lemma_areas();
            if owed {
                self.lemma_remove_owed_facts(disk, abs@);
            }
        }
        let (parent, name) = split_parent(abs)?;
        let parent_cluster = self.cluster_for(dev, parent.as_str())?;
        proof {
            self.lemma_lookup_child(disk, abs@);
        }
        let ghost pc = parent_cluster as int;
        let ghost pl = self.parent_chain(disk, pc);
        let ghost ready = self.remove_ready(disk, abs@);
        let cs = chars_of(name.as_str());
        proof {
            if owed {
                self.lemma_remove_ready_chain(disk, abs@, parent@, name@, pc);
                self.lemma_dir_chain_list(disk, pc, pl);
            }
        }
        let entry = match self.find_in_dir(dev, parent_cluster, cs.as_slice())? {
            Some(e) => e,
            None => return Err(FsError::NotFound),
        };
        assert(owed ==> self.child_lookup(disk, abs@) == Some(Ok::<DirEntryView, FsError>(entry.view())));
        proof {
            if ready {
                self.lemma_remove_ready_chain(disk, abs@, parent@, name@, pc);
                self.lemma_dir_chain_list(disk, pc, pl);
                self.lemma_remove_ready_old(disk, abs@, parent@, name@, pc, entry.view());
            }
        }
        if entry.is_dir {
            let kids = self.read_dir(dev, entry.cluster)?;
            if kids.len() != 0 {
                proof {
                    if owed {
                        assert(entries_view(kids@).len() == 0);
                    }
                }
                return Err(FsError::Io);
            }
        }
        let ghost mut rs: Set<int> = Set::empty();
        if entry.cluster >= 2 {
            self.free_chain(dev, entry.cluster)?;
            proof {
                rs = self.reach_set(disk, entry.cluster as int);
            }
        }
        let ghost d1 = dev.contents();
        proof {
            if ready {
                if entry.cluster < 2 {
                    lemma_frame_refl(*self, disk);
                }
                self.lemma_distinct_short(pl);
                assert forall|i: int| 0 <= i < pl.len() implies !rs.contains(#[trigger] pl[i]) by {
                    if entry.cluster >= 2 && rs.contains(pl[i]) {
                        assert(pl.contains(pl[i]));
                    }
                }
                self.lemma_dir_chain_keep(disk, d1, pc, pl, Set::empty(), rs);
            }
        }
        proof {
            if owed {
                self.lemma_owed_delete(disk, d1, pc, pl, cs@, rs);
            }
        }
        self.delete_dir_entry(dev, parent_cluster, cs.as_slice(), Ghost(pl))?;
        proof {
            lemma_changes_weaken(d1, dev.contents(), self.data_area(), self.writable_area());
            lemma_changes_trans(disk, d1, dev.contents(), self.writable_area());
            if ready {
                let od = choose|o: int| #[trigger] self.deleted_at(d1, dev.contents(), pl, cs@, o);
                self.lemma_remove_gone(disk, d1, dev.contents(), abs@, parent@, name@, pc, rs, od);
                let d2 = dev.contents();
                if d2 == d1 {
                    lemma_frame_refl(*self, d1);
                }
                assert(self.frame(d1, d2, pl.to_set(), Set::empty()));
                lemma_frame_trans(*self, disk, d1, d2, Set::empty(), rs, pl.to_set(), Set::empty());
                let t = self.remove_touch(disk, abs@);
                assert(self.removed_chain(disk, abs@) == rs);
                assert(t == pl.to_set().union(rs));
                assert forall|x: int| #[trigger] rs.contains(x) && self.fat_entry_on_disk(x, disk.len()) implies self.fat_entry(d2, x)
                    == 0 by {
                    assert(self.fat_entry(d1, x) == 0);
                    assert(x < self.fat_entries());
                    assert(self.same_link(d1, d2, x));
                }
                lemma_frame_widen(*self, disk, d2, Set::<int>::empty().union(pl.to_set()), rs.union(Set::empty()), t, t);
                assert forall|x: int|
                    2 <= x < self.fat_entries() && self.fat_entry_on_disk(x, disk.len()) && #[trigger] self.fat_entry(disk, x) != 0
                        && !rs.contains(x) implies self.fat_entry(d2, x) != 0 by {
                    assert(!rs.union(Set::empty()).contains(x));
                    assert(self.same_link(disk, d2, x));
                }
                assert(forall|j: int| #[trigger] self.in_fat(j) ==> !(self.data_area())(j));
                lemma_keeps_mirrored_outside(*self, d1, d2, self.data_area());
                lemma_keeps_mirrored_trans(*self, disk, d1, d2);
            }
        }
        Ok(())
    }
}

// ---------------------------------------------------------------------------
// Laws
// ---------------------------------------------------------------------------

/// Writes through the volume leave the boot sector as it was (the reserved
/// area holds at least the boot sector), so the volume mounts again as the
/// same volume.
pub proof fn law_boot_sector_survives(f: FatFs, d0: Seq<u8>, d1: Seq<u8>)
    requires
        f.wf(),
        f.reserved_sectors >= 1,
        d0.len() >= 512,
        changes_only(d0, d1, f.writable_area()),
    ensures
        block_of(d1, 0) == block_of(d0, 0),
        parse_bpb(block_of(d1, 0)) == parse_bpb(block_of(d0, 0)),
{
    assert forall|i: int| 0 <= i < 512 implies #[trigger] block_of(d1, 0)[i] == block_of(d0, 0)[i] by {
        assert(!(f.writable_area())(i));
        assert(d1[i] == d0[i]);
    }
    assert(block_of(d1, 0) =~= block_of(d0, 0));
}

/// The name bytes `nb` are exactly their base name and extension (see
/// [`split_base_ext`]), the base has at most 8 bytes and the extension at
/// most 3, all printable ASCII other than space.
pub open spec fn short_name(nb: Seq<u8>) -> bool {
    let (base, ext) = split_base_ext(nb);
    &&& forall|i: int| 0 <= i < nb.len() ==> 0x21 <= #[trigger] nb[i] <= 0x7E
    &&& base.len() <= 8
    &&& ext.len() <= 3
    &&& nb == if ext.len() > 0 {
        base + seq![0x2Eu8] + ext
    } else {
        base
    }
}

proof fn lemma_until_space_padded(s: Seq<u8>, n: nat)
    requires
        s.len() <= n,
        forall|i: int| 0 <= i < s.len() ==> #[trigger] s[i] != 0x20,
    ensures
        lower_bytes(until_space(padded(s, n))) == lower_bytes(s),
    decreases s.len(),
{
    let p = padded(s, n);
    if s.len() == 0 {
        if n > 0 {
            assert(p[0] == 0x20);
        }
        assert(until_space(p) =~= Seq::<u8>::empty());
        assert(lower_bytes(until_space(p)) =~= lower_bytes(s));
    } else {
        let t = s.drop_first();
        lemma_until_space_padded(t, (n - 1) as nat);
        assert(p.drop_first() =~= padded(t, (n - 1) as nat));
        assert(p[0] == upper_byte(s[0]));
        assert(p[0] != 0x20);
        assert(until_space(p) =~= seq![p[0]] + until_space(p.drop_first()));
        assert(lower_byte(upper_byte(s[0])) == lower_byte(s[0]));
        assert(lower_bytes(until_space(p)) =~= seq![lower_byte(s[0])] + lower_bytes(until_space(padded(t, (n - 1) as nat))));
        assert(lower_bytes(s) =~= seq![lower_byte(s[0])] + lower_bytes(t));
    }
}

/// The name bytes `nb` are an 8.3 name: a base of at most 8 bytes and an
/// extension of at most 3 (see [`split_base_ext`]), joined by a dot when
/// there is an extension, with no space anywhere.
pub open spec fn name_83(nb: Seq<u8>) -> bool {
    let (base, ext) = split_base_ext(nb);
    &&& forall|i: int| 0 <= i < nb.len() ==> #[trigger] nb[i] != 0x20
    &&& base.len() <= 8
    &&& ext.len() <= 3
    &&& nb == if ext.len() > 0 {
        base + seq![0x2Eu8] + ext
    } else {
        base
    }
}

/// An 8.3 name stored in a directory entry reads back as that name with
/// ASCII capitals lowered, whatever its bytes other than space (control
/// bytes and DEL among them).
pub proof fn law_short_name_round_trip(nb: Seq<u8>, attrs: u8, cluster: u32, size: u32)
    requires
        name_83(nb),
    ensures
        decode_name(encode_entry(nb, attrs, cluster, size)) == lower_bytes(nb),
{
    let (base, ext) = split_base_ext(nb);
    let e = encode_entry(nb, attrs, cluster, size);
    assert forall|i: int| 0 <= i < base.len() implies #[trigger] base[i] != 0x20 by {
        assert(base[i] == nb[i]);
    }
    assert forall|i: int| 0 <= i < ext.len() implies #[trigger] ext[i] != 0x20 by {
        assert(ext[i] == nb[base.len() + 1 + i]);
    }
    assert(e.subrange(0, 8) =~= padded(base, 8));
    assert(e.subrange(8, 11) =~= padded(ext, 3));
    lemma_until_space_padded(base, 8);
    lemma_until_space_padded(ext, 3);
    if ext.len() > 0 {
        assert(lower_bytes(nb) =~= lower_bytes(base) + seq!['.'] + lower_bytes(ext));
    }
}

} // verus!
