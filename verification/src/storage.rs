use crate::bytessource::{invalid_data, read_range, unexpected_eof, BytesSource};
use crate::header::{be16_at, be_u16, le32_at, le_u32, SECTOR_SIZE};
use crate::vmdk_reader::ReadError;
use flate2::read::DeflateDecoder;
use std::collections::HashMap;
use std::io::Read;
use vstd::prelude::*;

verus! {

broadcast use vstd::std_specs::hash::group_hash_axioms;

// ---------------------------------------------------------------------------
// Deflate
// ---------------------------------------------------------------------------

/// What raw DEFLATE decoding of `data` gives: the decompressed bytes of the
/// first DEFLATE member (trailing bytes are ignored), or `None` when `data`
/// is not valid DEFLATE.
pub uninterp spec fn deflate_decoded(data: Seq<u8>) -> Option<Seq<u8>>;

/// Decompresses raw DEFLATE data (`flate2::read::DeflateDecoder`, read to
/// the end). The result depends on `data` alone.
#[verifier::external_body]
fn inflate(data: &[u8]) -> (r: Result<Vec<u8>, std::io::Error>)
    ensures
        match r {
            Ok(v) => deflate_decoded(data@) == Some(v@),
            Err(_) => deflate_decoded(data@) is None,
        },
{
    let mut decoder = DeflateDecoder::new(data);
    let mut out = Vec::new();
    decoder.read_to_end(&mut out)?;
    Ok(out)
}

// ---------------------------------------------------------------------------
// Storage of an extent
// ---------------------------------------------------------------------------

/// A sparse extent: grains located through a grain table.
#[derive(Debug)]
pub struct SparseStorage<S> {
    pub file: S,
    pub filename: String,
    /// grain index within the extent -> sector of the grain in the file
    pub grain_table: HashMap<u64, u64>,
    /// size of a grain in sectors
    pub grain_size: u64,
    pub has_compressed_grain: bool,
    pub zeroed_grain_table_entry: bool,
}

/// A flat extent: the extent's bytes stored in order in a file, position
/// `p` of the extent at file position `p` less the offset.
#[derive(Debug)]
pub struct FlatStorage<S> {
    pub file: S,
    pub filename: String,
    /// the offset of the extent description, in sectors, taken off a
    /// position of the extent to give its position in the file
    pub offset: u64,
}

/// Where an extent's bytes come from.
#[derive(Debug)]
pub enum ExtentStorage<S> {
    Sparse(SparseStorage<S>),
    Flat(FlatStorage<S>),
    Zero,
}

/// What an extent's storage holds, with the file as its bytes.
pub enum StorageModel {
    Sparse {
        content: Seq<u8>,
        table: Map<u64, u64>,
        grain_size: u64,
        compressed: bool,
        zeroed: bool,
    },
    Flat { content: Seq<u8>, offset: u64 },
    Zero,
}

impl<S: BytesSource> View for SparseStorage<S> {
    type V = StorageModel;

    open spec fn view(&self) -> StorageModel {
        StorageModel::Sparse {
            content: self.file.content(),
            table: self.grain_table@,
            grain_size: self.grain_size,
            compressed: self.has_compressed_grain,
            zeroed: self.zeroed_grain_table_entry,
        }
    }
}

impl<S: BytesSource> View for FlatStorage<S> {
    type V = StorageModel;

    open spec fn view(&self) -> StorageModel {
        StorageModel::Flat { content: self.file.content(), offset: self.offset }
    }
}

impl<S: BytesSource> View for ExtentStorage<S> {
    type V = StorageModel;

    open spec fn view(&self) -> StorageModel {
        match self {
            ExtentStorage::Sparse(s) => s@,
            ExtentStorage::Flat(f) => f@,
            ExtentStorage::Zero => StorageModel::Zero,
        }
    }
}

/// The first two bytes of a zlib stream: deflate method, no preset
/// dictionary, and a valid check value.
pub open spec fn zlib_header_ok(h: int) -> bool {
    h % 31 == 0 && (h as u16) & 0x0F00 == 0x0800 && (h as u16) & 0x0020 == 0
}

/// Length of a compressed grain's header: sector number (8 bytes), size of
/// the compressed data (4 bytes), and the zlib stream header (2 bytes).
pub const GRAIN_HEADER_LEN: u64 = 14;

/// The bytes of the compressed grain stored at byte `at` of `content`: the
/// raw DEFLATE data that follows the zlib stream header, as long as the
/// size field says, decompressed.
pub open spec fn compressed_grain(content: Seq<u8>, at: int) -> Option<Seq<u8>> {
    if at + GRAIN_HEADER_LEN > content.len() {
        None
    } else if !zlib_header_ok(be_u16(content, at + 12)) {
        None
    } else {
        let size = le_u32(content, at + 8);
        if at + GRAIN_HEADER_LEN + size > content.len() {
            None
        } else {
            deflate_decoded(content.subrange(at + GRAIN_HEADER_LEN, at + GRAIN_HEADER_LEN + size))
        }
    }
}

/// The grain that holds position `p`, for grains of `gs` bytes.
pub open spec fn grain_of(p: int, gs: int) -> int {
    p / gs
}

/// Where position `p` lies within its grain, for grains of `gs` bytes.
pub open spec fn within_grain(p: int, gs: int) -> int {
    p % gs
}

/// The byte at position `p` of an extent with storage `m`, if it can be
/// read: zero for zero storage; for flat storage the file byte at `p` less
/// the offset; for sparse storage the byte of the grain that holds `p`, a zeroed
/// grain (sector 1 where zeroed entries are in use) reading as zeros.
pub open spec fn storage_byte(m: StorageModel, p: int) -> Option<u8> {
    match m {
        StorageModel::Zero => Some(0),
        StorageModel::Flat { content, offset } => {
            let q = p - offset * SECTOR_SIZE;
            if 0 <= q < content.len() {
                Some(content[q])
            } else {
                None
            }
        },
        StorageModel::Sparse { content, table, grain_size, compressed, zeroed } => {
            let gs = grain_size * SECTOR_SIZE;
            if gs == 0 || p < 0 || !table.contains_key(grain_of(p, gs) as u64) {
                None
            } else {
                let sector = table[grain_of(p, gs) as u64];
                let d = within_grain(p, gs);
                if zeroed && sector == 1 {
                    Some(0)
                } else if compressed {
                    match compressed_grain(content, sector * SECTOR_SIZE) {
                        Some(data) => if d < data.len() {
                            Some(data[d])
                        } else {
                            None
                        },
                        None => None,
                    }
                } else {
                    let q = sector * SECTOR_SIZE + d;
                    if q < content.len() {
                        Some(content[q])
                    } else {
                        None
                    }
                }
            }
        },
    }
}

/// How many bytes a read at `offset` of a buffer of `len` bytes takes from
/// storage `m`: sparse storage stops at the end of the grain.
pub open spec fn read_len(m: StorageModel, offset: int, len: int) -> int {
    match m {
        StorageModel::Sparse { grain_size, .. } => {
            let gs = grain_size * SECTOR_SIZE;
            if gs > 0 && gs - offset % gs < len {
                gs - offset % gs
            } else {
                len
            }
        },
        _ => len,
    }
}

/// A read of `len >= 1` bytes at a position `offset >= 0` takes at least
/// one byte and at most `len`.
pub proof fn lemma_read_len_bounds(m: StorageModel, offset: int, len: int)
    requires
        offset >= 0,
        len >= 1,
    ensures
        1 <= read_len(m, offset, len) <= len,
{
    match m {
        StorageModel::Sparse { grain_size, .. } => {
            let gs = grain_size * SECTOR_SIZE;
            if gs > 0 {
                vstd::arithmetic::div_mod::lemma_mod_bound(offset, gs);
            }
        },
        _ => {},
    }
}

/// `buf` now holds, in its first `n` bytes, the bytes of storage `m` from
/// `offset` on, and is otherwise as it was in `old`.
pub open spec fn filled_from(m: StorageModel, offset: int, n: int, old: Seq<u8>, buf: Seq<u8>) -> bool {
    &&& buf.len() == old.len()
    &&& 0 <= n <= buf.len()
    &&& forall|k: int| 0 <= k < n ==> storage_byte(m, offset + k) == Some(#[trigger] buf[k])
    &&& forall|k: int| n <= k < buf.len() ==> #[trigger] buf[k] == old[k]
}

/// Position `offset` of sparse storage `m` lies in a grain its table marks
/// as zeroed, for grains whose size in bytes fits in 64 bits.
pub open spec fn zeroed_at(m: StorageModel, offset: int) -> bool {
    match m {
        StorageModel::Sparse { table, grain_size, zeroed, .. } => {
            let gs = grain_size * SECTOR_SIZE;
            &&& 0 < gs <= u64::MAX
            &&& zeroed
            &&& table.contains_key(grain_of(offset, gs) as u64)
            &&& table[grain_of(offset, gs) as u64] == 1
        },
        _ => false,
    }
}

/// The size in bytes of a sparse storage's grains fits in 64 bits.
pub open spec fn grains_fit(m: StorageModel) -> bool {
    m matches StorageModel::Sparse { grain_size, .. } ==> grain_size * SECTOR_SIZE <= u64::MAX
}

/// Every byte a read at `offset` of a buffer of `len` bytes takes from
/// storage `m` is there.
pub open spec fn readable(m: StorageModel, offset: int, len: int) -> bool {
    forall|k: int| 0 <= k < read_len(m, offset, len) ==> (#[trigger] storage_byte(m, offset + k)) is Some
}

/// Positions `offset + k` with `k` below the room left in `offset`'s grain
/// lie in the same grain as `offset`.
proof fn lemma_same_grain(offset: int, k: int, gs: int)
    requires
        gs > 0,
        offset >= 0,
        0 <= k < gs - offset % gs,
    ensures
        (offset + k) / gs == offset / gs,
        (offset + k) % gs == offset % gs + k,
{
    vstd::arithmetic::div_mod::lemma_fundamental_div_mod(offset, gs);
    let q = offset / gs;
    let m = offset % gs;
    assert(offset == gs * q + m);
    assert(gs * q == q * gs) by (nonlinear_arith);
    assert(offset + k == q * gs + (m + k));
    vstd::arithmetic::div_mod::lemma_fundamental_div_mod_converse(offset + k, gs, q, m + k);
}

/// Copies `src[from..from + n]` into `buf[0..n]`.
fn copy_into(buf: &mut [u8], src: &[u8], from: usize, n: usize)
    requires
        n <= old(buf)@.len(),
        from + n <= src@.len(),
    ensures
        final(buf)@.len() == old(buf)@.len(),
        forall|k: int| 0 <= k < n ==> #[trigger] final(buf)@[k] == src@[from + k],
        forall|k: int| n <= k < final(buf)@.len() ==> #[trigger] final(buf)@[k] == old(buf)@[k],
{
    let mut i: usize = 0;
    while i < n
        invariant
            n <= buf@.len(),
            from + n <= src.len(),
            buf@.len() == old(buf)@.len(),
            0 <= i <= n,
            forall|k: int| 0 <= k < i ==> #[trigger] buf@[k] == src@[from + k],
            forall|k: int| i <= k < buf@.len() ==> #[trigger] buf@[k] == old(buf)@[k],
        decreases n - i,
    {
        buf[i] = src[from + i];
        i = i + 1;
    }
}

/// Fills `buf` with zeros and returns its length.
pub fn read_zero(buf: &mut [u8]) -> (n: usize)
    ensures
        n == old(buf)@.len(),
        final(buf)@.len() == old(buf)@.len(),
        forall|k: int| 0 <= k < n ==> #[trigger] final(buf)@[k] == 0,
{
    fill_zero(buf, buf.len());
    buf.len()
}

/// Sets `buf[0..n]` to zero.
fn fill_zero(buf: &mut [u8], n: usize)
    requires
        n <= old(buf)@.len(),
    ensures
        final(buf)@.len() == old(buf)@.len(),
        forall|k: int| 0 <= k < n ==> #[trigger] final(buf)@[k] == 0,
        forall|k: int| n <= k < final(buf)@.len() ==> #[trigger] final(buf)@[k] == old(buf)@[k],
{
    let mut i: usize = 0;
    while i < n
        invariant
            n <= buf@.len(),
            buf@.len() == old(buf)@.len(),
            0 <= i <= n,
            forall|k: int| 0 <= k < i ==> #[trigger] buf@[k] == 0,
            forall|k: int| i <= k < buf@.len() ==> #[trigger] buf@[k] == old(buf)@[k],
        decreases n - i,
    {
        buf[i] = 0;
        i = i + 1;
    }
}

/// Reads and decompresses the compressed grain stored at byte `at` of the
/// file (see `compressed_grain`).
fn read_and_decompress_grain<S: BytesSource>(file: &S, at: u64) -> (r: Result<
    Vec<u8>,
    std::io::Error,
>)
    ensures
        r matches Ok(v) ==> compressed_grain(file.content(), at as int) == Some(v@),
        compressed_grain(file.content(), at as int) is None ==> r is Err,
        compressed_grain(file.content(), at as int) is Some && file.reads_never_fail() ==> r is Ok,
{
    let len = file.end();
    if at > len || GRAIN_HEADER_LEN > len - at {
        return Err(unexpected_eof("compressed grain past the end of the file"));
    }
    let head = read_range(file, at, at + GRAIN_HEADER_LEN)?;
    let data_size = le32_at(head.as_slice(), 8);
    let header = be16_at(head.as_slice(), 12);
    assert(head@ == file.content().subrange(at as int, at + GRAIN_HEADER_LEN));
    // sanity check against expected zlib stream header values
    if header % 31 != 0 || header & 0x0F00 != 0x0800 || header & 0x0020 != 0 {
        return Err(invalid_data("bad compressed grain header"));
    }
    let start = at + GRAIN_HEADER_LEN;
    if data_size as u64 > len - start {
        return Err(unexpected_eof("compressed grain past the end of the file"));
    }
    let data = read_range(file, start, start + data_size as u64)?;
    inflate(data.as_slice())
}

impl<S: BytesSource> SparseStorage<S> {
    /// Reads from the grain that holds extent position `offset`, up to the
    /// end of that grain or of `buf`.
    pub fn read(&self, offset: u64, buf: &mut [u8]) -> (r: Result<usize, ReadError>)
        ensures
            r matches Ok(n) ==> n == read_len(self@, offset as int, old(buf)@.len() as int)
                && filled_from(self@, offset as int, n as int, old(buf)@, final(buf)@),
            r is Err ==> final(buf)@.len() == old(buf)@.len(),
            !(r matches Err(ReadError::OffsetBeyondEnd(_, _))),
            self.file.reads_never_fail() && self.grain_size * SECTOR_SIZE <= u64::MAX
                && old(buf)@.len() > 0 && readable(self@, offset as int, old(buf)@.len() as int)
                ==> r is Ok,
            zeroed_at(self@, offset as int) ==> r is Ok,
    {
        let file_len = self.file.end();
        proof {
            if buf@.len() > 0 {
                // a readable read has its first byte
                lemma_read_len_bounds(self@, offset as int, buf@.len() as int);
                assert(readable(self@, offset as int, buf@.len() as int) ==> storage_byte(
                    self@,
                    offset + 0,
                ) is Some);
            }
        }
        if self.grain_size == 0 || self.grain_size > u64::MAX / SECTOR_SIZE {
            return Err(ReadError::OffsetNotFound(offset));
        }
        let grain_size = self.grain_size * SECTOR_SIZE;
        let grain_index = offset / grain_size;
        let grain_data_offset = offset % grain_size;
        let left = grain_size - grain_data_offset;
        let r: usize = if left < buf.len() as u64 {
            let l = left as usize;
            assert(l == left);
            l
        } else {
            buf.len()
        };
        assert(r == read_len(self@, offset as int, buf@.len() as int));
        let sector_num = match self.grain_table.get(&grain_index) {
            Some(s) => *s,
            None => return Err(ReadError::OffsetNotFound(offset)),
        };
        proof {
            assert forall|k: int| 0 <= k < r implies #[trigger] grain_of(offset + k, grain_size as int)
                == grain_index && within_grain(offset + k, grain_size as int) == grain_data_offset + k by {
                lemma_same_grain(offset as int, k, grain_size as int);
            }
        }
        if self.zeroed_grain_table_entry && sector_num == 1 {
            // a zeroed grain
            fill_zero(buf, r);
            return Ok(r);
        }
        if sector_num > u64::MAX / SECTOR_SIZE {
            return Err(ReadError::IoError(invalid_data("grain sector out of range")));
        }
        let grain_start = sector_num * SECTOR_SIZE;
        proof {
            if r > 0 && readable(self@, offset as int, buf@.len() as int) {
                // the last byte of a readable read is there too
                let last = r - 1;
                assert(storage_byte(self@, offset + last) is Some);
                assert(grain_of(offset + last, grain_size as int) == grain_index);
                assert(within_grain(offset + last, grain_size as int) == grain_data_offset + last);
            }
        }
        if self.has_compressed_grain {
            let grain_data = match read_and_decompress_grain(&self.file, grain_start) {
                Ok(d) => d,
                Err(e) => return Err(ReadError::IoError(e)),
            };
            if grain_data_offset > grain_data.len() as u64 || (r as u64) > grain_data.len() as u64
                - grain_data_offset {
                return Err(ReadError::IoError(invalid_data("grain shorter than expected")));
            }
            copy_into(buf, grain_data.as_slice(), grain_data_offset as usize, r);
        } else {
            if grain_start > u64::MAX - grain_data_offset || grain_start + grain_data_offset
                > u64::MAX - r as u64 {
                return Err(ReadError::IoError(invalid_data("grain out of range")));
            }
            let pos = grain_start + grain_data_offset;
            let data = match read_range(&self.file, pos, pos + r as u64) {
                Ok(d) => d,
                Err(e) => return Err(ReadError::IoError(e)),
            };
            copy_into(buf, data.as_slice(), 0, r);
        }
        Ok(r)
    }
}

impl<S: BytesSource> FlatStorage<S> {
    /// Reads `buf.len()` bytes from extent position `offset`.
    pub fn read(&self, offset: u64, buf: &mut [u8]) -> (r: Result<usize, ReadError>)
        ensures
            r matches Ok(n) ==> n == old(buf)@.len() && filled_from(
                self@,
                offset as int,
                n as int,
                old(buf)@,
                final(buf)@,
            ),
            r is Err ==> final(buf)@.len() == old(buf)@.len(),
            !(r matches Err(ReadError::OffsetBeyondEnd(_, _))),
            self.file.reads_never_fail() && old(buf)@.len() > 0 && readable(
                self@,
                offset as int,
                old(buf)@.len() as int,
            ) ==> r is Ok,
            r is Err ==> r matches Err(ReadError::IoError(_)),
    {
        let file_len = self.file.end();
        proof {
            if buf@.len() > 0 {
                // the first and last bytes of a readable read lie within the file
                let last = offset + (buf@.len() - 1);
                assert(storage_byte(self@, offset + 0) is Some ==> offset >= self.offset
                    * SECTOR_SIZE);
                assert(storage_byte(self@, last) is Some ==> offset - self.offset * SECTOR_SIZE
                    + buf@.len() <= file_len);
            }
        }
        // the extent's data starts `offset` sectors before the position read
        if self.offset > u64::MAX / SECTOR_SIZE || offset < self.offset * SECTOR_SIZE
            || offset - self.offset * SECTOR_SIZE > u64::MAX - buf.len() as u64 {
            return Err(ReadError::IoError(invalid_data("read out of range")));
        }
        let pos = offset - self.offset * SECTOR_SIZE;
        let n = buf.len();
        let data = match read_range(&self.file, pos, pos + n as u64) {
            Ok(d) => d,
            Err(e) => return Err(ReadError::IoError(e)),
        };
        copy_into(buf, data.as_slice(), 0, n);
        Ok(n)
    }
}

impl<S: BytesSource> ExtentStorage<S> {
    /// The name of the storage's file, empty for ZERO storage.
    pub open spec fn filename_view(&self) -> Seq<char> {
        match self {
            ExtentStorage::Sparse(s) => s.filename@,
            ExtentStorage::Flat(f) => f.filename@,
            ExtentStorage::Zero => Seq::empty(),
        }
    }

    /// Whether every read of the storage's file, if it has one, succeeds.
    pub open spec fn reads_never_fail(&self) -> bool {
        match self {
            ExtentStorage::Sparse(s) => s.file.reads_never_fail(),
            ExtentStorage::Flat(f) => f.file.reads_never_fail(),
            ExtentStorage::Zero => true,
        }
    }

    /// Reads from extent position `offset` into `buf`; sparse storage stops
    /// at the end of a grain (see `read_len`).
    pub fn read(&self, offset: u64, buf: &mut [u8]) -> (r: Result<usize, ReadError>)
        ensures
            r matches Ok(n) ==> n == read_len(self@, offset as int, old(buf)@.len() as int)
                && filled_from(self@, offset as int, n as int, old(buf)@, final(buf)@),
            r is Err ==> final(buf)@.len() == old(buf)@.len(),
            !(r matches Err(ReadError::OffsetBeyondEnd(_, _))),
            self@ is Zero ==> r is Ok,
            self.reads_never_fail() && grains_fit(self@) && old(buf)@.len() > 0 && readable(
                self@,
                offset as int,
                old(buf)@.len() as int,
            ) ==> r is Ok,
            zeroed_at(self@, offset as int) ==> r is Ok,
            self@ is Flat && r is Err ==> r matches Err(ReadError::IoError(_)),
    {
        match self {
            ExtentStorage::Sparse(storage) => storage.read(offset, buf),
            ExtentStorage::Flat(storage) => storage.read(offset, buf),
            ExtentStorage::Zero => Ok(read_zero(buf)),
        }
    }
}

} // verus!
