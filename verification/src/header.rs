use crate::bytessource::{read_range, unexpected_eof, BytesSource};
use crate::errors::{DeserializationError, IoError, OpenErrorKind};
use byteorder::{BigEndian, ByteOrder, LittleEndian};
use vstd::prelude::*;

verus! {

pub const SECTOR_SIZE: u64 = 512;

// ---------------------------------------------------------------------------
// Integers stored in bytes
// ---------------------------------------------------------------------------

/// The little-endian 16-bit number stored at `b[i..i + 2]`.
pub open spec fn le_u16(b: Seq<u8>, i: int) -> int {
    b[i] + b[i + 1] * 0x100
}

/// The little-endian 32-bit number stored at `b[i..i + 4]`.
pub open spec fn le_u32(b: Seq<u8>, i: int) -> int {
    b[i] + b[i + 1] * 0x100 + b[i + 2] * 0x10000 + b[i + 3] * 0x1000000
}

/// The little-endian 64-bit number stored at `b[i..i + 8]`.
pub open spec fn le_u64(b: Seq<u8>, i: int) -> int {
    le_u32(b, i) + le_u32(b, i + 4) * 0x1_0000_0000
}

/// The big-endian 16-bit number stored at `b[i..i + 2]`.
pub open spec fn be_u16(b: Seq<u8>, i: int) -> int {
    b[i] * 0x100 + b[i + 1]
}

/// Reads the little-endian `u16` at `buf[at..]` (`LittleEndian::read_u16`).
#[verifier::external_body]
pub(crate) fn le16_at(buf: &[u8], at: usize) -> (r: u16)
    requires
        at + 2 <= buf@.len(),
    ensures
        r == le_u16(buf@, at as int),
{
    LittleEndian::read_u16(&buf[at..])
}

/// Reads the little-endian `u32` at `buf[at..]` (`LittleEndian::read_u32`).
#[verifier::external_body]
pub(crate) fn le32_at(buf: &[u8], at: usize) -> (r: u32)
    requires
        at + 4 <= buf@.len(),
    ensures
        r == le_u32(buf@, at as int),
{
    LittleEndian::read_u32(&buf[at..])
}

/// Reads the little-endian `u64` at `buf[at..]` (`LittleEndian::read_u64`).
#[verifier::external_body]
pub(crate) fn le64_at(buf: &[u8], at: usize) -> (r: u64)
    requires
        at + 8 <= buf@.len(),
    ensures
        r == le_u64(buf@, at as int),
{
    LittleEndian::read_u64(&buf[at..])
}

/// Reads the big-endian `u16` at `buf[at..]` (`BigEndian::read_u16`).
#[verifier::external_body]
pub(crate) fn be16_at(buf: &[u8], at: usize) -> (r: u16)
    requires
        at + 2 <= buf@.len(),
    ensures
        r == be_u16(buf@, at as int),
{
    BigEndian::read_u16(&buf[at..])
}

// ---------------------------------------------------------------------------
// File signatures
// ---------------------------------------------------------------------------

/// The kind of file a signature announces.
#[derive(Debug, PartialEq, Eq, Clone, Copy, Structural)]
pub enum FileType {
    Vmdk3,
    Vmdk4,
    VmdkSeSparse,
}

impl FileType {
    /// Length of the signature of this kind of file.
    pub fn sig_len(&self) -> (r: usize)
        ensures
            r == spec_sig_len(*self),
    {
        match self {
            FileType::Vmdk3 | FileType::Vmdk4 => 4,
            FileType::VmdkSeSparse => 8,
        }
    }
}

pub open spec fn spec_sig_len(ft: FileType) -> usize {
    match ft {
        FileType::Vmdk3 | FileType::Vmdk4 => 4,
        FileType::VmdkSeSparse => 8,
    }
}

/// The kind of file the first eight bytes `s` announce: `COWD` (VMDK3),
/// `KDMV` (VMDK4), or the SESPARSE magic `0xCAFEBABE` as a little-endian
/// 64-bit number.
pub open spec fn spec_file_type(s: Seq<u8>) -> Option<FileType> {
    if s[0] == 0x43 && s[1] == 0x4F && s[2] == 0x57 && s[3] == 0x44 {
        Some(FileType::Vmdk3)
    } else if s[0] == 0x4B && s[1] == 0x44 && s[2] == 0x4D && s[3] == 0x56 {
        Some(FileType::Vmdk4)
    } else if s[0] == 0xBE && s[1] == 0xBA && s[2] == 0xFE && s[3] == 0xCA && s[4] == 0 && s[5]
        == 0 && s[6] == 0 && s[7] == 0 {
        Some(FileType::VmdkSeSparse)
    } else {
        None
    }
}

/// The kind of file an eight-byte signature announces.
pub fn signature_to_file_type(sig: &[u8; 8]) -> (r: Option<FileType>)
    ensures
        r == spec_file_type(sig@),
{
    if sig[0] == 0x43 && sig[1] == 0x4F && sig[2] == 0x57 && sig[3] == 0x44 {
        Some(FileType::Vmdk3)
    } else if sig[0] == 0x4B && sig[1] == 0x44 && sig[2] == 0x4D && sig[3] == 0x56 {
        Some(FileType::Vmdk4)
    } else if sig[0] == 0xBE && sig[1] == 0xBA && sig[2] == 0xFE && sig[3] == 0xCA && sig[4] == 0
        && sig[5] == 0 && sig[6] == 0 && sig[7] == 0 {
        Some(FileType::VmdkSeSparse)
    } else {
        None
    }
}

/// Reads the first eight bytes of `src` and tells which kind of file they
/// announce; fails when the source is shorter than eight bytes, and
/// otherwise only where reading fails.
pub fn check_signature<S: BytesSource>(src: &S) -> (r: Result<Option<FileType>, std::io::Error>)
    ensures
        r matches Ok(ft) ==> src.content().len() >= 8 && ft == spec_file_type(src.content()),
        src.content().len() < 8 ==> r is Err,
        src.content().len() >= 8 && src.reads_never_fail() ==> r is Ok,
{
    let sig = read_range(src, 0, 8)?;
    let a: [u8; 8] = [sig[0], sig[1], sig[2], sig[3], sig[4], sig[5], sig[6], sig[7]];
    assert(a@ =~= src.content().subrange(0, 8));
    Ok(signature_to_file_type(&a))
}

// ---------------------------------------------------------------------------
// Header layouts
// ---------------------------------------------------------------------------

/// The VMDK3 (COWD) header, as stored after the signature.
#[derive(Debug)]
pub struct Vmdk3Header {
    pub version: u32,
    pub flags: u32,
    pub disk_sectors: u32,
    pub granularity: u32,
    pub l1dir_offset: u32,
    pub l1dir_size: u32,
    pub file_sectors: u32,
    pub cylinders: u32,
    pub heads: u32,
    pub sectors_per_track: u32,
}

/// The VMDK3 header stored in the 40 bytes `b[0..40]`.
pub open spec fn spec_vmdk3_header(b: Seq<u8>) -> Vmdk3Header {
    Vmdk3Header {
        version: le_u32(b, 0) as u32,
        flags: le_u32(b, 4) as u32,
        disk_sectors: le_u32(b, 8) as u32,
        granularity: le_u32(b, 12) as u32,
        l1dir_offset: le_u32(b, 16) as u32,
        l1dir_size: le_u32(b, 20) as u32,
        file_sectors: le_u32(b, 24) as u32,
        cylinders: le_u32(b, 28) as u32,
        heads: le_u32(b, 32) as u32,
        sectors_per_track: le_u32(b, 36) as u32,
    }
}

impl Vmdk3Header {
    /// Reads the header from the 40 bytes that follow the signature.
    pub fn from_bytes(b: &[u8]) -> (h: Vmdk3Header)
        requires
            b@.len() >= 40,
        ensures
            h == spec_vmdk3_header(b@),
    {
        Vmdk3Header {
            version: le32_at(b, 0),
            flags: le32_at(b, 4),
            disk_sectors: le32_at(b, 8),
            granularity: le32_at(b, 12),
            l1dir_offset: le32_at(b, 16),
            l1dir_size: le32_at(b, 20),
            file_sectors: le32_at(b, 24),
            cylinders: le32_at(b, 28),
            heads: le32_at(b, 32),
            sectors_per_track: le32_at(b, 36),
        }
    }
}

/// The VMDK4 sparse extent header, as stored after the signature.
#[derive(Debug)]
pub struct Vmdk4Header {
    pub version: u32,
    pub flags: u32,
    pub capacity: u64,
    pub granularity: u64,
    pub desc_offset: u64,
    pub desc_size: u64,
    pub num_gtes_per_gt: u32,
    pub rgd_offset: u64,
    pub gd_offset: u64,
    pub grain_offset: u64,
    pub filler: u8,
    pub check_bytes: [u8; 4],
    pub compress_algorithm: u16,
}

/// The VMDK4 header stored in the 75 bytes `b[0..75]`.
pub open spec fn spec_vmdk4_header(b: Seq<u8>) -> Vmdk4Header {
    Vmdk4Header {
        version: le_u32(b, 0) as u32,
        flags: le_u32(b, 4) as u32,
        capacity: le_u64(b, 8) as u64,
        granularity: le_u64(b, 16) as u64,
        desc_offset: le_u64(b, 24) as u64,
        desc_size: le_u64(b, 32) as u64,
        num_gtes_per_gt: le_u32(b, 40) as u32,
        rgd_offset: le_u64(b, 44) as u64,
        gd_offset: le_u64(b, 52) as u64,
        grain_offset: le_u64(b, 60) as u64,
        filler: b[68],
        check_bytes: [b[69], b[70], b[71], b[72]],
        compress_algorithm: le_u16(b, 73) as u16,
    }
}

/// Length of the stored VMDK4 header, signature excluded.
pub const VMDK4_HEADER_LEN: u64 = 75;

/// The VMDK4 signature `KDMV` stands at `c[at..at + 4]`.
pub open spec fn vmdk4_magic_at(c: Seq<u8>, at: int) -> bool {
    c[at] == 0x4B && c[at + 1] == 0x44 && c[at + 2] == 0x4D && c[at + 3] == 0x56
}

/// The four line-check bytes of a VMDK4 header are `\n`, ` `, `\r`, `\n`,
/// as a header written without end-of-line conversion has them.
pub open spec fn check_bytes_ok(h: Vmdk4Header) -> bool {
    h.check_bytes[0] == 0x0A && h.check_bytes[1] == 0x20 && h.check_bytes[2] == 0x0D
        && h.check_bytes[3] == 0x0A
}

/// The VMDK4 header a file holds: the one after the signature, or, when
/// that one puts the grain directory at the end (`gd_offset` all ones) of a
/// deflate-compressed file, the one read 1024 bytes before the end. `None`
/// when the file is too short for the header it needs.
pub open spec fn spec_vmdk4_read(c: Seq<u8>) -> Option<Vmdk4Header> {
    if c.len() < 4 + VMDK4_HEADER_LEN {
        None
    } else {
        let h = spec_vmdk4_header(c.subrange(4, 4 + VMDK4_HEADER_LEN));
        if h.gd_offset == u64::MAX && h.compress_algorithm == 1 {
            if c.len() < 1024 {
                None
            } else {
                Some(
                    spec_vmdk4_header(
                        c.subrange(c.len() - 1024, c.len() - 1024 + VMDK4_HEADER_LEN),
                    ),
                )
            }
        } else {
            Some(h)
        }
    }
}

/// Length of a whole VMDK4 sparse extent header, signature and padding
/// included: one sector.
pub const SPARSE_EXTENT_HEADER_LEN: u64 = 512;

/// The sparse extent header a sector `b` holds, checked: `None` unless it
/// is a whole sector that starts with the `KDMV` signature and carries the
/// line-check bytes.
pub open spec fn spec_sparse_extent_header(b: Seq<u8>) -> Option<Vmdk4Header> {
    if b.len() < SPARSE_EXTENT_HEADER_LEN || !vmdk4_magic_at(b, 0) {
        None
    } else {
        let h = spec_vmdk4_header(b.subrange(4, 4 + VMDK4_HEADER_LEN));
        if check_bytes_ok(h) {
            Some(h)
        } else {
            None
        }
    }
}

/// Parses a sparse extent header, signature and line-check bytes checked
/// (see `spec_sparse_extent_header`).
pub fn read_sparse_extent_header(b: &[u8]) -> (r: Option<Vmdk4Header>)
    ensures
        r == spec_sparse_extent_header(b@),
{
    if (b.len() as u64) < SPARSE_EXTENT_HEADER_LEN {
        return None;
    }
    if !(b[0] == 0x4B && b[1] == 0x44 && b[2] == 0x4D && b[3] == 0x56) {
        return None;
    }
    let mut fields: Vec<u8> = Vec::new();
    let mut i: usize = 4;
    while i < 4 + VMDK4_HEADER_LEN as usize
        invariant
            b@.len() >= 512,
            4 <= i <= 4 + VMDK4_HEADER_LEN,
            fields@ == b@.subrange(4, i as int),
        decreases 4 + VMDK4_HEADER_LEN - i,
    {
        fields.push(b[i]);
        assert(fields@ =~= b@.subrange(4, i + 1));
        i = i + 1;
    }
    let h = Vmdk4Header::from_bytes(fields.as_slice());
    if h.has_check_bytes() {
        Some(h)
    } else {
        None
    }
}

impl Vmdk4Header {
    /// Reads the header from the 75 bytes that follow the signature.
    pub fn from_bytes(b: &[u8]) -> (h: Vmdk4Header)
        requires
            b@.len() >= 75,
        ensures
            h == spec_vmdk4_header(b@),
    {
        Vmdk4Header {
            version: le32_at(b, 0),
            flags: le32_at(b, 4),
            capacity: le64_at(b, 8),
            granularity: le64_at(b, 16),
            desc_offset: le64_at(b, 24),
            desc_size: le64_at(b, 32),
            num_gtes_per_gt: le32_at(b, 40),
            rgd_offset: le64_at(b, 44),
            gd_offset: le64_at(b, 52),
            grain_offset: le64_at(b, 60),
            filler: b[68],
            check_bytes: [b[69], b[70], b[71], b[72]],
            compress_algorithm: le16_at(b, 73),
        }
    }

    /// Reads the header a VMDK4 file holds (see `spec_vmdk4_read`).
    pub fn from_reader<S: BytesSource>(src: &S) -> (r: Result<Vmdk4Header, std::io::Error>)
        ensures
            r matches Ok(h) ==> spec_vmdk4_read(src.content()) == Some(h),
            spec_vmdk4_read(src.content()) is None ==> r is Err,
            spec_vmdk4_read(src.content()) is Some && src.reads_never_fail() ==> r is Ok,
    {
        let b = read_range(src, 4, 4 + VMDK4_HEADER_LEN)?;
        let h = Vmdk4Header::from_bytes(b.as_slice());
        if h.gd_offset == u64::MAX && h.compress_algorithm == 1 {
            // the grain directory is at the end of a stream-optimized file:
            // the header to use is read 1024 bytes before the end
            let end = src.end();
            if end < 1024 {
                return Err(unexpected_eof("no room for a secondary header"));
            }
            let b2 = read_range(src, end - 1024, end - 1024 + VMDK4_HEADER_LEN)?;
            Ok(Vmdk4Header::from_bytes(b2.as_slice()))
        } else {
            Ok(h)
        }
    }

    /// Whether the header's line-check bytes are `\n`, ` `, `\r`, `\n`.
    pub fn has_check_bytes(&self) -> (r: bool)
        ensures
            r == check_bytes_ok(*self),
    {
        self.check_bytes[0] == 0x0A && self.check_bytes[1] == 0x20 && self.check_bytes[2] == 0x0D
            && self.check_bytes[3] == 0x0A
    }
}

/// The constant part of the SESPARSE header, as stored after the signature.
#[derive(Debug)]
pub struct VmdkSeSparseConstHeader {
    pub version: u64,
    pub capacity: u64,
    pub grain_size: u64,
    pub grain_table_size: u64,
    pub flags: u64,
    pub reserved1: u64,
    pub reserved2: u64,
    pub reserved3: u64,
    pub reserved4: u64,
    pub volatile_header_offset: u64,
    pub volatile_header_size: u64,
    pub journal_header_offset: u64,
    pub journal_header_size: u64,
    pub journal_offset: u64,
    pub journal_size: u64,
    pub grain_dir_offset: u64,
    pub grain_dir_size: u64,
    pub grain_tables_offset: u64,
    pub grain_tables_size: u64,
    pub free_bitmap_offset: u64,
    pub free_bitmap_size: u64,
    pub backmap_offset: u64,
    pub backmap_size: u64,
    pub grains_offset: u64,
    pub grains_size: u64,
}

/// The SESPARSE header stored in the 200 bytes `b[0..200]`.
pub open spec fn spec_sesparse_header(b: Seq<u8>) -> VmdkSeSparseConstHeader {
    VmdkSeSparseConstHeader {
        version: le_u64(b, 0) as u64,
        capacity: le_u64(b, 8) as u64,
        grain_size: le_u64(b, 16) as u64,
        grain_table_size: le_u64(b, 24) as u64,
        flags: le_u64(b, 32) as u64,
        reserved1: le_u64(b, 40) as u64,
        reserved2: le_u64(b, 48) as u64,
        reserved3: le_u64(b, 56) as u64,
        reserved4: le_u64(b, 64) as u64,
        volatile_header_offset: le_u64(b, 72) as u64,
        volatile_header_size: le_u64(b, 80) as u64,
        journal_header_offset: le_u64(b, 88) as u64,
        journal_header_size: le_u64(b, 96) as u64,
        journal_offset: le_u64(b, 104) as u64,
        journal_size: le_u64(b, 112) as u64,
        grain_dir_offset: le_u64(b, 120) as u64,
        grain_dir_size: le_u64(b, 128) as u64,
        grain_tables_offset: le_u64(b, 136) as u64,
        grain_tables_size: le_u64(b, 144) as u64,
        free_bitmap_offset: le_u64(b, 152) as u64,
        free_bitmap_size: le_u64(b, 160) as u64,
        backmap_offset: le_u64(b, 168) as u64,
        backmap_size: le_u64(b, 176) as u64,
        grains_offset: le_u64(b, 184) as u64,
        grains_size: le_u64(b, 192) as u64,
    }
}

impl VmdkSeSparseConstHeader {
    /// Reads the header from the 200 bytes that follow the signature.
    pub fn from_bytes(b: &[u8]) -> (h: VmdkSeSparseConstHeader)
        requires
            b@.len() >= 200,
        ensures
            h == spec_sesparse_header(b@),
    {
        VmdkSeSparseConstHeader {
            version: le64_at(b, 0),
            capacity: le64_at(b, 8),
            grain_size: le64_at(b, 16),
            grain_table_size: le64_at(b, 24),
            flags: le64_at(b, 32),
            reserved1: le64_at(b, 40),
            reserved2: le64_at(b, 48),
            reserved3: le64_at(b, 56),
            reserved4: le64_at(b, 64),
            volatile_header_offset: le64_at(b, 72),
            volatile_header_size: le64_at(b, 80),
            journal_header_offset: le64_at(b, 88),
            journal_header_size: le64_at(b, 96),
            journal_offset: le64_at(b, 104),
            journal_size: le64_at(b, 112),
            grain_dir_offset: le64_at(b, 120),
            grain_dir_size: le64_at(b, 128),
            grain_tables_offset: le64_at(b, 136),
            grain_tables_size: le64_at(b, 144),
            free_bitmap_offset: le64_at(b, 152),
            free_bitmap_size: le64_at(b, 160),
            backmap_offset: le64_at(b, 168),
            backmap_size: le64_at(b, 176),
            grains_offset: le64_at(b, 184),
            grains_size: le64_at(b, 192),
        }
    }
}

// ---------------------------------------------------------------------------
// Grain directory geometry
// ---------------------------------------------------------------------------

/// Where the grain tables of a VMDK3 or VMDK4 sparse extent are.
#[derive(Debug)]
pub struct VmdkSparseMeta {
    pub compressed: bool,
    pub has_zero_grain: bool,
    /// total number of sectors
    pub sectors: u64,
    /// offset of the grain directory (level 1) in bytes
    pub l1_offset: u64,
    /// number of grain directory entries
    pub l1_len: u64,
    /// number of entries per grain table (level 2)
    pub l2_len: u64,
    /// number of sectors per grain
    pub cluster_sectors: u64,
}

/// Where the grain tables of a SESPARSE extent are.
#[derive(Debug)]
pub struct VmdkSeSparseMeta {
    /// total number of sectors
    pub sectors: u64,
    /// offset of the grain directory (level 1) in bytes
    pub l1_offset: u64,
    /// number of grain directory entries
    pub l1_len: u64,
    /// base offset of the grain tables (level 2) in bytes
    pub l2_tables_offset: u64,
    /// number of entries per grain table
    pub l2_len: u64,
    /// number of sectors per grain
    pub cluster_sectors: u64,
    /// base of the grains, in sectors
    pub clusters_offset: u64,
}

/// `a / b` rounded up.
pub open spec fn ceil_div(a: nat, b: nat) -> nat {
    if a % b == 0 {
        a / b
    } else {
        a / b + 1
    }
}

pub open spec fn spec_meta_from_vmdk3(h: Vmdk3Header) -> VmdkSparseMeta {
    VmdkSparseMeta {
        compressed: false,
        has_zero_grain: false,
        sectors: h.disk_sectors as u64,
        l1_offset: (h.l1dir_offset * SECTOR_SIZE) as u64,
        l1_len: h.l1dir_size as u64,
        l2_len: 4096,
        cluster_sectors: h.granularity as u64,
    }
}

/// The grain directory a VMDK4 header selects: the secondary one when flag
/// bit 1 is set.
pub open spec fn vmdk4_gd_sector(h: Vmdk4Header) -> u64 {
    if h.flags & 0x02 != 0 {
        h.rgd_offset
    } else {
        h.gd_offset
    }
}

/// A VMDK4 header whose geometry can be computed in 64 bits, with a
/// non-zero number of sectors per grain directory entry.
pub open spec fn vmdk4_meta_computable(h: Vmdk4Header) -> bool {
    &&& vmdk4_gd_sector(h) * SECTOR_SIZE <= u64::MAX
    &&& 0 < h.num_gtes_per_gt * h.granularity <= u64::MAX
}

pub open spec fn spec_meta_from_vmdk4(h: Vmdk4Header) -> VmdkSparseMeta {
    VmdkSparseMeta {
        compressed: h.flags & 0x10000 != 0,
        has_zero_grain: h.flags & 0x04 != 0,
        sectors: h.capacity,
        l1_offset: (vmdk4_gd_sector(h) * SECTOR_SIZE) as u64,
        l1_len: ceil_div(h.capacity as nat, (h.num_gtes_per_gt * h.granularity) as nat) as u64,
        l2_len: h.num_gtes_per_gt as u64,
        cluster_sectors: h.granularity,
    }
}

/// A SESPARSE header whose byte offsets and sizes fit in 64 bits.
pub open spec fn sesparse_meta_computable(h: VmdkSeSparseConstHeader) -> bool {
    &&& h.grain_dir_offset * SECTOR_SIZE <= u64::MAX
    &&& h.grain_dir_size * SECTOR_SIZE <= u64::MAX
    &&& h.grain_tables_offset * SECTOR_SIZE <= u64::MAX
    &&& h.grain_table_size * SECTOR_SIZE <= u64::MAX
}

pub open spec fn spec_meta_from_sesparse(h: VmdkSeSparseConstHeader) -> VmdkSeSparseMeta {
    VmdkSeSparseMeta {
        sectors: h.capacity,
        l1_offset: (h.grain_dir_offset * SECTOR_SIZE) as u64,
        l1_len: (h.grain_dir_size * SECTOR_SIZE / 8) as u64,
        l2_tables_offset: (h.grain_tables_offset * SECTOR_SIZE) as u64,
        l2_len: (h.grain_table_size * SECTOR_SIZE / 8) as u64,
        cluster_sectors: h.grain_size,
        clusters_offset: h.grains_offset,
    }
}

impl VmdkSparseMeta {
    /// The geometry a VMDK3 header gives: grain tables of 4096 entries.
    pub fn from_vmdk3(h: Vmdk3Header) -> (m: VmdkSparseMeta)
        ensures
            m == spec_meta_from_vmdk3(h),
    {
        VmdkSparseMeta {
            compressed: false,
            has_zero_grain: false,
            sectors: h.disk_sectors as u64,
            l1_offset: h.l1dir_offset as u64 * SECTOR_SIZE,
            l1_len: h.l1dir_size as u64,
            l2_len: 4096,
            cluster_sectors: h.granularity as u64,
        }
    }

    /// The geometry a VMDK4 header gives: the grain directory it selects,
    /// enough entries to cover the capacity, and its compression and
    /// zeroed-grain flags.
    pub fn from_vmdk4(h: Vmdk4Header) -> (m: VmdkSparseMeta)
        requires
            vmdk4_meta_computable(h),
        ensures
            m == spec_meta_from_vmdk4(h),
    {
        let gd = if h.flags & 0x02 != 0 {
            h.rgd_offset
        } else {
            h.gd_offset
        };
        let sectors_per_l1_entry = (h.num_gtes_per_gt as u64) * h.granularity;
        let l1_len = if h.capacity % sectors_per_l1_entry == 0 {
            h.capacity / sectors_per_l1_entry
        } else {
            assert(h.capacity / sectors_per_l1_entry < u64::MAX) by (nonlinear_arith)
                requires
                    sectors_per_l1_entry > 0,
                    h.capacity % sectors_per_l1_entry != 0,
            ;
            h.capacity / sectors_per_l1_entry + 1
        };
        VmdkSparseMeta {
            compressed: h.flags & 0x10000 != 0,
            has_zero_grain: h.flags & 0x04 != 0,
            sectors: h.capacity,
            l1_offset: gd * SECTOR_SIZE,
            l1_len,
            l2_len: h.num_gtes_per_gt as u64,
            cluster_sectors: h.granularity,
        }
    }
}

impl VmdkSeSparseMeta {
    /// The geometry a SESPARSE header gives, with sector counts turned into
    /// byte offsets and sizes into 8-byte entry counts.
    pub fn from_const_header(h: VmdkSeSparseConstHeader) -> (m: VmdkSeSparseMeta)
        requires
            sesparse_meta_computable(h),
        ensures
            m == spec_meta_from_sesparse(h),
            m.sectors == h.capacity,
            m.l1_offset == h.grain_dir_offset * SECTOR_SIZE,
            m.l1_len * 8 == h.grain_dir_size * SECTOR_SIZE,
            m.l2_tables_offset == h.grain_tables_offset * SECTOR_SIZE,
            m.l2_len * 8 == h.grain_table_size * SECTOR_SIZE,
            m.cluster_sectors == h.grain_size,
            m.clusters_offset == h.grains_offset,
    {
        VmdkSeSparseMeta {
            sectors: h.capacity,
            l1_offset: h.grain_dir_offset * SECTOR_SIZE,
            l1_len: h.grain_dir_size * SECTOR_SIZE / 8,
            l2_tables_offset: h.grain_tables_offset * SECTOR_SIZE,
            l2_len: h.grain_table_size * SECTOR_SIZE / 8,
            cluster_sectors: h.grain_size,
            clusters_offset: h.grains_offset,
        }
    }
}

/// Whether `a * b * c * 512` (in unbounded arithmetic) is at most `limit`.
fn table_bytes_within(a: u64, b: u64, c: u64, limit: u64) -> (r: bool)
    ensures
        r == (a * b * c * SECTOR_SIZE <= limit),
{
    if a == 0 || b == 0 || c == 0 {
        assert(a * b * c * SECTOR_SIZE == 0) by (nonlinear_arith)
            requires
                a == 0 || b == 0 || c == 0,
        ;
        return true;
    }
    assert(a * b >= a && a * b * c >= a * b && a * b * c * SECTOR_SIZE >= a * b * c)
        by (nonlinear_arith)
        requires
            a >= 1,
            b >= 1,
            c >= 1,
    ;
    let ab = match a.checked_mul(b) {
        Some(x) => x,
        None => return false,
    };
    let abc = match ab.checked_mul(c) {
        Some(x) => x,
        None => return false,
    };
    match abc.checked_mul(SECTOR_SIZE) {
        Some(x) => x <= limit,
        None => false,
    }
}

/// 2 TiB: the largest size VMDK3 and VMDK4 support.
pub const SPARSE_LIMIT: u64 = 0x200_0000_0000;

/// 64 TiB: the largest size SESPARSE supports.
pub const SESPARSE_LIMIT: u64 = 0x4000_0000_0000;

/// What reading a sparse header gives: geometry, an invalid header, or a
/// file too short to hold the header.
pub enum HeaderOutcome<M> {
    Meta(M),
    Invalid,
    Unreadable,
}

/// The grain tables a VMDK3 or VMDK4 geometry describes address at most
/// 2 TiB.
pub open spec fn sparse_meta_within_limit(m: VmdkSparseMeta) -> bool {
    m.l1_len * m.l2_len * m.cluster_sectors * SECTOR_SIZE <= SPARSE_LIMIT
}

/// The grain tables a SESPARSE geometry describes address at most 64 TiB.
pub open spec fn sesparse_meta_within_limit(m: VmdkSeSparseMeta) -> bool {
    m.l1_len * m.l2_len * m.cluster_sectors * SECTOR_SIZE <= SESPARSE_LIMIT
}

pub open spec fn sparse_outcome(m: VmdkSparseMeta) -> HeaderOutcome<VmdkSparseMeta> {
    if sparse_meta_within_limit(m) {
        HeaderOutcome::Meta(m)
    } else {
        HeaderOutcome::Invalid
    }
}

/// The geometry of the VMDK3 or VMDK4 sparse file with content `c`.
pub open spec fn spec_sparse_header(c: Seq<u8>) -> HeaderOutcome<VmdkSparseMeta> {
    if c.len() < 8 {
        HeaderOutcome::Unreadable
    } else {
        match spec_file_type(c) {
            Some(FileType::Vmdk3) => if c.len() < 44 {
                HeaderOutcome::Unreadable
            } else {
                sparse_outcome(spec_meta_from_vmdk3(spec_vmdk3_header(c.subrange(4, 44))))
            },
            Some(FileType::Vmdk4) => match spec_vmdk4_read(c) {
                None => HeaderOutcome::Unreadable,
                Some(h) => if vmdk4_meta_computable(h) {
                    sparse_outcome(spec_meta_from_vmdk4(h))
                } else {
                    HeaderOutcome::Invalid
                },
            },
            _ => HeaderOutcome::Invalid,
        }
    }
}

/// The geometry of the SESPARSE file with content `c`.
pub open spec fn spec_sesparse_meta(c: Seq<u8>) -> HeaderOutcome<VmdkSeSparseMeta> {
    if c.len() < 8 {
        HeaderOutcome::Unreadable
    } else if spec_file_type(c) != Some(FileType::VmdkSeSparse) {
        HeaderOutcome::Invalid
    } else if c.len() < 208 {
        HeaderOutcome::Unreadable
    } else {
        let h = spec_sesparse_header(c.subrange(8, 208));
        if !sesparse_meta_computable(h) {
            HeaderOutcome::Invalid
        } else if sesparse_meta_within_limit(spec_meta_from_sesparse(h)) {
            HeaderOutcome::Meta(spec_meta_from_sesparse(h))
        } else {
            HeaderOutcome::Invalid
        }
    }
}

/// Law of the SESPARSE geometry: it takes the sizes of the grain directory
/// and of a grain table, which the header gives in sectors, as counts of
/// 8-byte entries, and its offsets in bytes, from the header's fields as
/// stored after the 8-byte signature.
#[verifier::rlimit(40)]
pub proof fn lemma_sesparse_meta_fields(c: Seq<u8>, m: VmdkSeSparseMeta)
    requires
        spec_sesparse_meta(c) == HeaderOutcome::Meta(m),
    ensures
        m.sectors == le_u64(c, 8int + 8),
        m.l1_offset == le_u64(c, 8int + 120) * SECTOR_SIZE,
        m.l1_len * 8 == le_u64(c, 8int + 128) * SECTOR_SIZE,
        m.l2_tables_offset == le_u64(c, 8int + 136) * SECTOR_SIZE,
        m.l2_len * 8 == le_u64(c, 8int + 24) * SECTOR_SIZE,
        m.cluster_sectors == le_u64(c, 8int + 16),
        m.clusters_offset == le_u64(c, 8int + 184),
{
    let b = c.subrange(8, 208);
    let h = spec_sesparse_header(b);
    assert(c.len() >= 208);
    assert(sesparse_meta_computable(h));
    assert(m == spec_meta_from_sesparse(h));
    let d = h.grain_dir_size as int;
    let g = h.grain_table_size as int;
    assert((d * 512 / 8) * 8 == d * 512 && (g * 512 / 8) * 8 == g * 512) by (nonlinear_arith)
        requires
            d >= 0,
            g >= 0,
    ;
    lemma_le_u64_sub(c, b, 8);
    lemma_le_u64_sub(c, b, 120);
    lemma_le_u64_sub(c, b, 128);
    lemma_le_u64_sub(c, b, 136);
    lemma_le_u64_sub(c, b, 24);
    lemma_le_u64_sub(c, b, 16);
    lemma_le_u64_sub(c, b, 184);
}

/// The 64-bit number at `i` of the header bytes `b = c[8..208]` is the one
/// at `8 + i` of `c`, and fits in 64 bits.
proof fn lemma_le_u64_sub(c: Seq<u8>, b: Seq<u8>, i: int)
    requires
        c.len() >= 208,
        b == c.subrange(8, 208),
        0 <= i <= 192,
    ensures
        le_u64(b, i) == le_u64(c, 8 + i),
        0 <= le_u64(b, i) <= u64::MAX,
{
    assert(b[i] == c[8 + i] && b[i + 1] == c[8 + i + 1] && b[i + 2] == c[8 + i + 2] && b[i + 3]
        == c[8 + i + 3]);
    assert(b[i + 4] == c[8 + i + 4] && b[i + 5] == c[8 + i + 5] && b[i + 6] == c[8 + i + 6] && b[i
        + 7] == c[8 + i + 7]);
    lemma_le_u64_in_range(b, i);
}

/// A stored 64-bit number lies in `[0, 2^64)`.
proof fn lemma_le_u64_in_range(b: Seq<u8>, i: int)
    ensures
        0 <= le_u64(b, i) <= u64::MAX,
{
    let x = b[i] + b[i + 1] * 0x100 + b[i + 2] * 0x10000 + b[i + 3] * 0x1000000;
    let y = b[i + 4] + b[i + 5] * 0x100 + b[i + 6] * 0x10000 + b[i + 7] * 0x1000000;
    assert(0 <= x < 0x1_0000_0000) by (nonlinear_arith)
        requires
            x == b[i] + b[i + 1] * 0x100 + b[i + 2] * 0x10000 + b[i + 3] * 0x1000000,
            0 <= b[i] < 256,
            0 <= b[i + 1] < 256,
            0 <= b[i + 2] < 256,
            0 <= b[i + 3] < 256,
    ;
    assert(0 <= y < 0x1_0000_0000) by (nonlinear_arith)
        requires
            y == b[i + 4] + b[i + 5] * 0x100 + b[i + 6] * 0x10000 + b[i + 7] * 0x1000000,
            0 <= b[i + 4] < 256,
            0 <= b[i + 5] < 256,
            0 <= b[i + 6] < 256,
            0 <= b[i + 7] < 256,
    ;
}

/// The errors reading a header gives: the file cannot be read, the header
/// cannot be read whole, or it is invalid.
pub open spec fn header_error(k: OpenErrorKind) -> bool {
    k is IoError || k is DeserializationFailed || k is InvalidFileHeader
}

/// Reads the grain directory geometry of a VMDK3 or VMDK4 sparse file.
/// A header that is neither, whose geometry does not fit in 64 bits, or
/// that addresses more than 2 TiB is invalid.
pub fn read_header_sparse<S: BytesSource>(src: &S) -> (r: Result<VmdkSparseMeta, OpenErrorKind>)
    ensures
        r matches Ok(m) ==> spec_sparse_header(src.content()) == HeaderOutcome::Meta(m),
        r matches Err(OpenErrorKind::InvalidFileHeader) ==> spec_sparse_header(src.content()) is Invalid,
        !(spec_sparse_header(src.content()) is Meta) ==> r is Err,
        r matches Err(k) ==> header_error(k),
        spec_sparse_header(src.content()) is Meta && src.reads_never_fail() ==> r is Ok,
        spec_sparse_header(src.content()) is Invalid && src.reads_never_fail() ==> r
            == Err::<VmdkSparseMeta, OpenErrorKind>(OpenErrorKind::InvalidFileHeader),
{
    let ft = match check_signature(src) {
        Ok(ft) => ft,
        Err(e) => return Err(OpenErrorKind::IoError(IoError::IoError(e))),
    };
    let meta = match ft {
        Some(FileType::Vmdk3) => {
            let b = match read_range(src, 4, 44) {
                Ok(b) => b,
                Err(e) => return Err(
                    OpenErrorKind::DeserializationFailed(DeserializationError("Vmdk3Header", e)),
                ),
            };
            assert(b@ == src.content().subrange(4, 44));
            VmdkSparseMeta::from_vmdk3(Vmdk3Header::from_bytes(b.as_slice()))
        },
        Some(FileType::Vmdk4) => {
            let h = match Vmdk4Header::from_reader(src) {
                Ok(h) => h,
                Err(e) => return Err(
                    OpenErrorKind::DeserializationFailed(DeserializationError("Vmdk4Header", e)),
                ),
            };
            let gd = if h.flags & 0x02 != 0 {
                h.rgd_offset
            } else {
                h.gd_offset
            };
            if gd > u64::MAX / SECTOR_SIZE || h.granularity == 0 || h.num_gtes_per_gt == 0
                || h.granularity > u64::MAX / (h.num_gtes_per_gt as u64) {
                proof {
                    if h.num_gtes_per_gt > 0 && h.granularity > u64::MAX / (h.num_gtes_per_gt as u64) {
                        assert(h.num_gtes_per_gt * h.granularity > u64::MAX) by (nonlinear_arith)
                            requires
                                h.num_gtes_per_gt > 0,
                                h.granularity > u64::MAX / (h.num_gtes_per_gt as u64),
                        ;
                    }
                    if h.granularity == 0 || h.num_gtes_per_gt == 0 {
                        assert(h.num_gtes_per_gt * h.granularity == 0) by (nonlinear_arith)
                            requires
                                h.granularity == 0 || h.num_gtes_per_gt == 0,
                        ;
                    }
                }
                return Err(OpenErrorKind::InvalidFileHeader);
            }
            proof {
                assert(h.num_gtes_per_gt * h.granularity <= u64::MAX) by (nonlinear_arith)
                    requires
                        h.num_gtes_per_gt > 0,
                        h.granularity <= u64::MAX / (h.num_gtes_per_gt as u64),
                ;
                assert(h.num_gtes_per_gt * h.granularity > 0) by (nonlinear_arith)
                    requires
                        h.num_gtes_per_gt > 0,
                        h.granularity > 0,
                ;
            }
            VmdkSparseMeta::from_vmdk4(h)
        },
        _ => return Err(OpenErrorKind::InvalidFileHeader),
    };
    if !table_bytes_within(meta.l1_len, meta.l2_len, meta.cluster_sectors, SPARSE_LIMIT) {
        // 2 TiB is the largest size VMDK3 and VMDK4 support
        return Err(OpenErrorKind::InvalidFileHeader);
    }
    Ok(meta)
}

/// Reads the grain directory geometry of a SESPARSE file. A file of
/// another kind, a geometry that does not fit in 64 bits, or one that
/// addresses more than 64 TiB is invalid.
pub fn read_header_sesparse<S: BytesSource>(src: &S) -> (r: Result<
    VmdkSeSparseMeta,
    OpenErrorKind,
>)
    ensures
        r matches Ok(m) ==> spec_sesparse_meta(src.content()) == HeaderOutcome::Meta(m),
        r matches Err(OpenErrorKind::InvalidFileHeader) ==> spec_sesparse_meta(
            src.content(),
        ) is Invalid,
        !(spec_sesparse_meta(src.content()) is Meta) ==> r is Err,
        r matches Err(k) ==> header_error(k),
        spec_sesparse_meta(src.content()) is Meta && src.reads_never_fail() ==> r is Ok,
        spec_sesparse_meta(src.content()) is Invalid && src.reads_never_fail() ==> r
            == Err::<VmdkSeSparseMeta, OpenErrorKind>(OpenErrorKind::InvalidFileHeader),
{
    let ft = match check_signature(src) {
        Ok(ft) => ft,
        Err(e) => return Err(OpenErrorKind::IoError(IoError::IoError(e))),
    };
    match ft {
        Some(FileType::VmdkSeSparse) => {},
        _ => return Err(OpenErrorKind::InvalidFileHeader),
    }
    let b = match read_range(src, 8, 208) {
        Ok(b) => b,
        Err(e) => return Err(
            OpenErrorKind::DeserializationFailed(DeserializationError("VmdkSeSparseConstHeader", e)),
        ),
    };
    assert(b@ == src.content().subrange(8, 208));
    let h = VmdkSeSparseConstHeader::from_bytes(b.as_slice());
    let limit = u64::MAX / SECTOR_SIZE;
    if h.grain_dir_offset > limit || h.grain_dir_size > limit || h.grain_tables_offset > limit
        || h.grain_table_size > limit {
        return Err(OpenErrorKind::InvalidFileHeader);
    }
    let meta = VmdkSeSparseMeta::from_const_header(h);
    if !table_bytes_within(meta.l1_len, meta.l2_len, meta.cluster_sectors, SESPARSE_LIMIT) {
        // 64 TiB is the largest size SESPARSE supports
        return Err(OpenErrorKind::InvalidFileHeader);
    }
    Ok(meta)
}

} // verus!
