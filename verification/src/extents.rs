use crate::bytessource::{invalid_data, io_other, read_range, BytesSource};
use crate::errors::{DescriptorError, IoError, OpenError, OpenErrorKind};
use crate::extent_description::{
    descriptions_view, inner_filename, DescriptionModel, ExtentDescription, ExtentDescriptionInner, InnerModel,
};
use crate::header::{
    header_error, le32_at, le64_at, le_u32, le_u64, read_header_sesparse, read_header_sparse,
    spec_sesparse_meta, spec_sparse_header, HeaderOutcome, VmdkSeSparseMeta, VmdkSparseMeta,
    SECTOR_SIZE,
};
use crate::storage::{ExtentStorage, FlatStorage, SparseStorage, StorageModel};
use std::collections::HashMap;
use vstd::prelude::*;

verus! {

broadcast use vstd::std_specs::hash::group_hash_axioms;

pub open spec fn min(a: int, b: int) -> int {
    if a < b {
        a
    } else {
        b
    }
}

// ---------------------------------------------------------------------------
// VMDK3 / VMDK4 grain tables
// ---------------------------------------------------------------------------

/// `acc` with the non-zero entries `i..n` of the grain table stored at byte
/// `at` of `c` (32-bit entries) added under grain indices `cur + i`.
pub open spec fn sparse_l2_entries(c: Seq<u8>, at: int, cur: int, n: int, i: int, acc: Map<u64, u64>) -> Map<
    u64,
    u64,
>
    decreases n - i,
{
    if i >= n {
        acc
    } else {
        let g = le_u32(c, at + 4 * i);
        let acc2 = if g != 0 {
            acc.insert((cur + i) as u64, g as u64)
        } else {
            acc
        };
        sparse_l2_entries(c, at, cur, n, i + 1, acc2)
    }
}

/// `acc` with the grains of the grain directory entries from `j` on, the
/// first of which covers grain index `cur`. Each directory entry covers the
/// next `l2_len` grain indices (fewer at the end); a zero entry has no table
/// (its grains are in the parent). `None` when a table lies past the end
/// of the file.
pub open spec fn sparse_table_from(c: Seq<u8>, h: VmdkSparseMeta, j: int, cur: int, acc: Map<u64, u64>) -> Option<
    Map<u64, u64>,
>
    decreases h.l1_len - j,
{
    if j >= h.l1_len || cur >= h.sectors {
        Some(acc)
    } else {
        let n = min(h.l2_len as int, h.sectors - cur);
        let at = le_u32(c, h.l1_offset + 4 * j) * SECTOR_SIZE;
        if at == 0 {
            sparse_table_from(c, h, j + 1, cur + n, acc)
        } else if at + 4 * n > c.len() {
            None
        } else {
            sparse_table_from(c, h, j + 1, cur + n, sparse_l2_entries(c, at, cur, n, 0, acc))
        }
    }
}

/// The grain table of a VMDK3 or VMDK4 sparse file with content `c` and
/// geometry `h`: grain index within the extent -> sector of the grain.
pub open spec fn spec_sparse_grain_table(c: Seq<u8>, h: VmdkSparseMeta) -> Option<Map<u64, u64>> {
    if h.l1_offset + 4 * h.l1_len > c.len() {
        None
    } else {
        sparse_table_from(c, h, 0, 0, Map::empty())
    }
}

/// Reads the grain table of a VMDK3 or VMDK4 sparse file (see
/// `spec_sparse_grain_table`). Grain indices are counted from the start of
/// the extent.
pub fn read_grain_table_sparse<S: BytesSource>(h: &VmdkSparseMeta, src: &S) -> (r: Result<
    HashMap<u64, u64>,
    std::io::Error,
>)
    ensures
        r matches Ok(t) ==> spec_sparse_grain_table(src.content(), *h) == Some(t@),
        spec_sparse_grain_table(src.content(), *h) is None ==> r is Err,
        spec_sparse_grain_table(src.content(), *h) is Some && src.reads_never_fail() ==> r is Ok,
{
    let c = Ghost(src.content());
    let file_len = src.end();
    // read level 1
    if h.l1_len > (u64::MAX - h.l1_offset) / 4 {
        assert(h.l1_offset + 4 * h.l1_len > file_len) by (nonlinear_arith)
            requires
                h.l1_len > (u64::MAX - h.l1_offset) / 4,
                file_len <= u64::MAX,
        ;
        return Err(invalid_data("grain directory out of range"));
    }
    let l1 = read_range(src, h.l1_offset, h.l1_offset + 4 * h.l1_len)?;
    // read level 2
    let mut grain_table: HashMap<u64, u64> = HashMap::new();
    let mut cur: u64 = 0;
    let mut j: u64 = 0;
    while j < h.l1_len
        invariant
            c@ == src.content(),
            file_len == c@.len(),
            l1@ == c@.subrange(h.l1_offset as int, h.l1_offset + 4 * h.l1_len),
            h.l1_offset + 4 * h.l1_len <= c@.len(),
            j <= h.l1_len,
            cur <= h.sectors,
            spec_sparse_grain_table(c@, *h) == sparse_table_from(c@, *h, j as int, cur as int, grain_table@),
        decreases h.l1_len - j,
    {
        if cur == h.sectors {
            // all the sectors are covered
            return Ok(grain_table);
        }
        let n = if h.l2_len < h.sectors - cur {
            h.l2_len
        } else {
            h.sectors - cur
        };
        assert(4 * j + 4 <= 4 * h.l1_len == l1.len());
        let entry = le32_at(l1.as_slice(), (4 * j) as usize);
        assert(entry == le_u32(c@, h.l1_offset + 4 * j));
        let at = entry as u64 * SECTOR_SIZE;
        if at == 0 {
            // the grains of this entry are in the parent
            cur = cur + n;
            j = j + 1;
            continue;
        }
        if n > (u64::MAX - at) / 4 {
            assert(at + 4 * n > file_len) by (nonlinear_arith)
                requires
                    n > (u64::MAX - at) / 4,
                    file_len <= u64::MAX,
            ;
            return Err(invalid_data("grain table out of range"));
        }
        let l2 = read_range(src, at, at + 4 * n)?;
        let ghost acc0 = grain_table@;
        let mut i: u64 = 0;
        while i < n
            invariant
                l2@ == c@.subrange(at as int, at + 4 * n),
                at + 4 * n <= c@.len(),
                i <= n,
                cur + n <= h.sectors,
                sparse_l2_entries(c@, at as int, cur as int, n as int, 0, acc0)
                    == sparse_l2_entries(c@, at as int, cur as int, n as int, i as int, grain_table@),
            decreases n - i,
        {
            assert(4 * i + 4 <= 4 * n == l2.len());
            let g = le32_at(l2.as_slice(), (4 * i) as usize);
            assert(g == le_u32(c@, at + 4 * i));
            if g != 0 {
                grain_table.insert(cur + i, g as u64);
            }
            i = i + 1;
        }
        cur = cur + n;
        j = j + 1;
    }
    Ok(grain_table)
}

// ---------------------------------------------------------------------------
// SESPARSE grain tables
// ---------------------------------------------------------------------------

/// The kind of a SESPARSE table entry: its top four bits.
pub open spec fn entry_kind(e: int) -> int {
    e / 0x1000_0000_0000_0000
}

/// The grain number an allocated SESPARSE grain table entry holds: bits
/// 48..60 of the entry are the low 12 bits of the number, bits 0..48 the
/// rest.
pub open spec fn sesparse_grain_number(e: int) -> int {
    (e / 0x1_0000_0000_0000) % 0x1000 + (e % 0x1_0000_0000_0000) * 0x1000
}

/// `acc` with the entries `i..n` of the SESPARSE grain table stored at byte
/// `at` of `c` (64-bit entries) added under grain indices `cur + i`: a zero
/// entry has its grain in the parent, kinds 1 and 2 are zeroed grains
/// (recorded as sector 1), kind 3 an allocated grain. `None` for an entry
/// of another kind, or one whose sector does not fit in 64 bits.
pub open spec fn sesparse_l2_entries(
    c: Seq<u8>,
    h: VmdkSeSparseMeta,
    at: int,
    cur: int,
    n: int,
    i: int,
    acc: Map<u64, u64>,
) -> Option<Map<u64, u64>>
    decreases n - i,
{
    if i >= n {
        Some(acc)
    } else {
        let e = le_u64(c, at + 8 * i);
        let k = (cur + i) as u64;
        if e == 0 {
            sesparse_l2_entries(c, h, at, cur, n, i + 1, acc)
        } else if entry_kind(e) == 1 || entry_kind(e) == 2 {
            sesparse_l2_entries(c, h, at, cur, n, i + 1, acc.insert(k, 1))
        } else if entry_kind(e) == 3 {
            let sector = h.clusters_offset + sesparse_grain_number(e) * h.cluster_sectors;
            if sector > u64::MAX {
                None
            } else {
                sesparse_l2_entries(c, h, at, cur, n, i + 1, acc.insert(k, sector as u64))
            }
        } else {
            None
        }
    }
}

/// `acc` with the grains of the SESPARSE grain directory entries from `j`
/// on, the first of which covers grain index `cur` out of `total`. A zero
/// entry has no table; an entry of kind 1 holds the index of its table
/// among the tables stored from `l2_tables_offset`. `None` for an entry of
/// another kind, a table past the end of the file, or a bad table entry.
pub open spec fn sesparse_table_from(
    c: Seq<u8>,
    h: VmdkSeSparseMeta,
    total: int,
    j: int,
    cur: int,
    acc: Map<u64, u64>,
) -> Option<Map<u64, u64>>
    decreases h.l1_len - j,
{
    if j >= h.l1_len || cur >= total {
        Some(acc)
    } else {
        let n = min(h.l2_len as int, total - cur);
        let e = le_u64(c, h.l1_offset + 8 * j);
        if e == 0 {
            sesparse_table_from(c, h, total, j + 1, cur + n, acc)
        } else if entry_kind(e) != 1 {
            None
        } else {
            let at = h.l2_tables_offset + (e % 0x1000_0000_0000_0000) * (h.l2_len * 8);
            if at + 8 * n > c.len() {
                None
            } else {
                match sesparse_l2_entries(c, h, at, cur, n, 0, acc) {
                    Some(a) => sesparse_table_from(c, h, total, j + 1, cur + n, a),
                    None => None,
                }
            }
        }
    }
}

/// The grain table of a SESPARSE file with content `c` and geometry `h`:
/// grain index within the extent -> sector of the grain (1 for a zeroed
/// grain). `None` when grains have no size, the size of a grain table does
/// not fit in 64 bits, or the tables cannot be read.
pub open spec fn spec_sesparse_grain_table(c: Seq<u8>, h: VmdkSeSparseMeta) -> Option<
    Map<u64, u64>,
> {
    if h.cluster_sectors == 0 || h.l2_len * 8 > u64::MAX || h.l1_offset + 8 * h.l1_len > c.len() {
        None
    } else {
        sesparse_table_from(c, h, (h.sectors / h.cluster_sectors) as int, 0, 0, Map::empty())
    }
}

/// Adds to `grain_table` the `n` entries of the SESPARSE grain table held in
/// `l2`, stored at byte `at` of `c`, under grain indices from `cur` on (see
/// `sesparse_l2_entries`); fails on an entry `sesparse_l2_entries` refuses.
fn read_sesparse_l2(
    h: &VmdkSeSparseMeta,
    l2: &Vec<u8>,
    Ghost(c): Ghost<Seq<u8>>,
    Ghost(at): Ghost<int>,
    cur: u64,
    n: u64,
    grain_table: &mut HashMap<u64, u64>,
) -> (r: Result<(), std::io::Error>)
    requires
        l2@ == c.subrange(at, at + 8 * n),
        0 <= at,
        at + 8 * n <= c.len(),
        cur + n <= u64::MAX,
    ensures
        r is Ok <==> sesparse_l2_entries(c, *h, at, cur as int, n as int, 0, old(grain_table)@) is Some,
        r is Ok ==> sesparse_l2_entries(c, *h, at, cur as int, n as int, 0, old(grain_table)@)
            == Some(final(grain_table)@),
{
    let ghost acc0 = grain_table@;
    let mut i: u64 = 0;
    while i < n
        invariant
            l2@ == c.subrange(at, at + 8 * n),
            0 <= at,
            at + 8 * n <= c.len(),
            i <= n,
            cur + n <= u64::MAX,
            acc0 == old(grain_table)@,
            sesparse_l2_entries(c, *h, at, cur as int, n as int, 0, acc0) == sesparse_l2_entries(
                c,
                *h,
                at,
                cur as int,
                n as int,
                i as int,
                grain_table@,
            ),
        decreases n - i,
    {
        assert(8 * i + 8 <= 8 * n == l2.len());
        let e = le64_at(l2.as_slice(), (8 * i) as usize);
        assert(e == le_u64(c, at + 8 * i));
        if e != 0 {
            let kind = e / 0x1000_0000_0000_0000;
            if kind == 1 || kind == 2 {
                // a zeroed grain
                grain_table.insert(cur + i, 1);
            } else if kind == 3 {
                // an allocated grain
                let number = (e / 0x1_0000_0000_0000) % 0x1000 + (e % 0x1_0000_0000_0000) * 0x1000;
                assert(number == sesparse_grain_number(e as int));
                let ghost spec_sector = h.clusters_offset + sesparse_grain_number(e as int)
                    * h.cluster_sectors;
                let sector = match number.checked_mul(h.cluster_sectors) {
                    Some(x) => match h.clusters_offset.checked_add(x) {
                        Some(y) => y,
                        None => {
                            assert(spec_sector > u64::MAX);
                            assert(sesparse_l2_entries(c, *h, at, cur as int, n as int, i as int, grain_table@) is None);
                            return Err(invalid_data("grain out of range"));
                        },
                    },
                    None => {
                        assert(spec_sector > u64::MAX) by (nonlinear_arith)
                            requires
                                number * h.cluster_sectors > u64::MAX,
                                spec_sector == h.clusters_offset + number * h.cluster_sectors,
                                h.clusters_offset >= 0,
                        ;
                        assert(sesparse_l2_entries(c, *h, at, cur as int, n as int, i as int, grain_table@) is None);
                        return Err(invalid_data("grain out of range"));
                    },
                };
                assert(sector == spec_sector);
                grain_table.insert(cur + i, sector);
            } else {
                // unallocated or corrupt
                assert(sesparse_l2_entries(c, *h, at, cur as int, n as int, i as int, grain_table@) is None);
                return Err(io_other("bad l2 entry"));
            }
        }
        i = i + 1;
    }
    Ok(())
}

/// Reads the grain table of a SESPARSE file (see
/// `spec_sesparse_grain_table`). Grain indices are counted from the start
/// of the extent.
#[verifier::rlimit(30)]
pub fn read_grain_table_sesparse<S: BytesSource>(h: &VmdkSeSparseMeta, src: &S) -> (r: Result<
    HashMap<u64, u64>,
    std::io::Error,
>)
    ensures
        r matches Ok(t) ==> spec_sesparse_grain_table(src.content(), *h) == Some(t@),
        spec_sesparse_grain_table(src.content(), *h) is None ==> r is Err,
        spec_sesparse_grain_table(src.content(), *h) is Some && src.reads_never_fail() ==> r is Ok,
{
    let c = Ghost(src.content());
    let file_len = src.end();
    if h.cluster_sectors == 0 {
        return Err(invalid_data("grains have no size"));
    }
    // size in bytes of a grain table
    let l2_size = match h.l2_len.checked_mul(8) {
        Some(x) => x,
        None => return Err(invalid_data("grain table out of range")),
    };
    // read level 1
    if h.l1_len > (u64::MAX - h.l1_offset) / 8 {
        return Err(invalid_data("grain directory out of range"));
    }
    let l1 = read_range(src, h.l1_offset, h.l1_offset + 8 * h.l1_len)?;
    // read level 2
    let mut grain_table: HashMap<u64, u64> = HashMap::new();
    let total = h.sectors / h.cluster_sectors;
    let mut cur: u64 = 0;
    let mut j: u64 = 0;
    while j < h.l1_len
        invariant
            c@ == src.content(),
            file_len == c@.len(),
            h.cluster_sectors != 0,
            l2_size == h.l2_len * 8,
            total == h.sectors / h.cluster_sectors,
            l1@ == c@.subrange(h.l1_offset as int, h.l1_offset + 8 * h.l1_len),
            h.l1_offset + 8 * h.l1_len <= c@.len(),
            j <= h.l1_len,
            cur <= total,
            spec_sesparse_grain_table(c@, *h) == sesparse_table_from(
                c@,
                *h,
                total as int,
                j as int,
                cur as int,
                grain_table@,
            ),
        decreases h.l1_len - j,
    {
        if cur == total {
            // all the grains are covered
            return Ok(grain_table);
        }
        let n = if h.l2_len < total - cur {
            h.l2_len
        } else {
            total - cur
        };
        assert(8 * j + 8 <= 8 * h.l1_len == l1.len());
        let entry = le64_at(l1.as_slice(), (8 * j) as usize);
        assert(entry == le_u64(c@, h.l1_offset + 8 * j));
        if entry == 0 {
            // the grains of this entry are in the parent
            cur = cur + n;
            j = j + 1;
            continue;
        }
        if entry / 0x1000_0000_0000_0000 != 1 {
            return Err(io_other("bad l1 entry"));
        }
        let l2_index = entry % 0x1000_0000_0000_0000;
        let rel = match l2_index.checked_mul(l2_size) {
            Some(x) => x,
            None => return Err(invalid_data("grain table out of range")),
        };
        let at = match h.l2_tables_offset.checked_add(rel) {
            Some(x) => x,
            None => return Err(invalid_data("grain table out of range")),
        };
        if n > (u64::MAX - at) / 8 || at + 8 * n > file_len {
            return Err(invalid_data("grain table out of range"));
        }
        let l2 = read_range(src, at, at + 8 * n)?;
        let ghost before = grain_table@;
        read_sesparse_l2(h, &l2, Ghost(c@), Ghost(at as int), cur, n, &mut grain_table)?;
        cur = cur + n;
        j = j + 1;
    }
    Ok(grain_table)
}

// ---------------------------------------------------------------------------
// Extents
// ---------------------------------------------------------------------------

/// An extent of the image: where it starts and how many sectors it has,
/// and where its bytes come from.
#[derive(Debug)]
pub struct Extent<S> {
    pub start_sector: u64,
    pub sectors: u64,
    pub storage: ExtentStorage<S>,
}

/// An extent with its storage as a model.
pub struct ExtentModel {
    pub start_sector: u64,
    pub sectors: u64,
    pub storage: StorageModel,
}

impl<S: BytesSource> View for Extent<S> {
    type V = ExtentModel;

    open spec fn view(&self) -> ExtentModel {
        ExtentModel {
            start_sector: self.start_sector,
            sectors: self.sectors,
            storage: self.storage@,
        }
    }
}

/// The sectors `[b, e)` of a sparse extent starting at sector `start` that
/// grain `k` covers, for grains of `gs` sectors, cut at the extent's end.
pub open spec fn held_grain_span(start: u64, sectors: u64, gs: u64, k: u64) -> (u64, u64) {
    ((start + k * gs) as u64, (start + min(k * gs + gs, sectors as int)) as u64)
}

/// The sectors of an extent its storage holds data for: one span per grain
/// of a sparse extent that starts within the extent, cut at its end; the
/// whole extent otherwise.
pub open spec fn held_spans_of(e: ExtentModel) -> Set<(u64, u64)> {
    match e.storage {
        StorageModel::Sparse { table, grain_size, .. } => Set::new(
            |p: (u64, u64)|
                exists|k: u64|
                    #[trigger] table.contains_key(k) && k * grain_size < e.sectors && p == held_grain_span(
                        e.start_sector,
                        e.sectors,
                        grain_size,
                        k,
                    ),
        ),
        _ => set![(e.start_sector, (e.start_sector + e.sectors) as u64)],
    }
}

/// The sectors `[b, e)` that grain `k` of a sparse extent starting at
/// sector `start` covers, for grains of `gs` sectors.
pub open spec fn grain_span(start: u64, gs: u64, k: u64) -> (u64, u64) {
    ((start + k * gs) as u64, (start + k * gs + gs) as u64)
}

/// The sector spans of an extent: one per grain of a sparse extent, the
/// whole extent otherwise.
pub open spec fn spans_of(e: ExtentModel) -> Set<(u64, u64)> {
    match e.storage {
        StorageModel::Sparse { table, grain_size, .. } => Set::new(
            |p: (u64, u64)|
                exists|k: u64| #[trigger] table.contains_key(k) && p == grain_span(
                    e.start_sector,
                    grain_size,
                    k,
                ),
        ),
        _ => set![(e.start_sector, (e.start_sector + e.sectors) as u64)],
    }
}

/// How many spans an extent has: one per grain of a sparse extent, one
/// otherwise.
pub open spec fn span_count(e: ExtentModel) -> nat {
    match e.storage {
        StorageModel::Sparse { table, .. } => table.dom().len(),
        _ => 1,
    }
}

/// The sector numbers of an extent's spans fit in 64 bits.
pub open spec fn spans_fit(e: ExtentModel) -> bool {
    match e.storage {
        StorageModel::Sparse { table, grain_size, .. } => forall|k: u64|
            #[trigger] table.contains_key(k) ==> e.start_sector + k * grain_size + grain_size
                <= u64::MAX,
        _ => e.start_sector + e.sectors <= u64::MAX,
    }
}

impl<S: BytesSource> Extent<S> {
    /// The sectors of the extent its storage holds data for (see
    /// `held_spans_of`), in no particular order: a grain that reaches past
    /// the extent's end holds none of the sectors beyond it.
    pub(crate) fn held_spans(&self) -> (r: Vec<(u64, u64)>)
        requires
            self.start_sector + self.sectors <= u64::MAX,
        ensures
            forall|p: (u64, u64)| r@.contains(p) <==> held_spans_of(self@).contains(p),
    {
        match &self.storage {
            ExtentStorage::Sparse(storage) => {
                // sparse storage need not cover the whole extent
                let gs = storage.grain_size;
                let start = self.start_sector;
                let sectors = self.sectors;
                let ghost table = storage.grain_table@;
                let mut v: Vec<(u64, u64)> = Vec::new();
                for k in it: storage.grain_table.keys()
                    invariant
                        start + sectors <= u64::MAX,
                        start == self.start_sector,
                        sectors == self.sectors,
                        self.storage@ is Sparse,
                        gs == storage.grain_size,
                        table == storage.grain_table@,
                        self.storage@->table == table,
                        self.storage@->grain_size == gs,
                        it.seq().unref().to_set() == table.dom(),
                        forall|p: (u64, u64)| v@.contains(p) ==> held_spans_of(self@).contains(p),
                        forall|i: int|
                            0 <= i < it.index() && #[trigger] (*it.seq()[i]) * gs < sectors
                                ==> v@.contains(held_grain_span(start, sectors, gs, *it.seq()[i])),
                        it.index() == it.seq().len() ==> forall|p: (u64, u64)|
                            held_spans_of(self@).contains(p) ==> v@.contains(p),
                {
                    let ghost before = v@;
                    let ghost idx = it.index();
                    assert(it.seq().unref()[idx] == *k);
                    assert(table.contains_key(*k));
                    if let Some(b) = k.checked_mul(gs) {
                        if b < sectors {
                            let e = if gs < sectors - b {
                                b + gs
                            } else {
                                sectors
                            };
                            v.push((start + b, start + e));
                            assert(v@.last() == held_grain_span(start, sectors, gs, *k));
                        }
                    }
                    assert forall|p: (u64, u64)| before.contains(p) implies v@.contains(p) by {
                        assert(v@[before.index_of(p)] == p);
                    }
                    assert forall|p: (u64, u64)| v@.contains(p) implies held_spans_of(self@).contains(p) by {
                        if !before.contains(p) {
                            assert(v@.last() == p);
                        }
                    }
                    assert forall|p: (u64, u64)|
                        idx + 1 == it.seq().len() && held_spans_of(self@).contains(p) implies v@.contains(
                        p,
                    ) by {
                        let kk = choose|kk: u64|
                            #[trigger] table.contains_key(kk) && kk * gs < sectors && p
                                == held_grain_span(start, sectors, gs, kk);
                        assert(it.seq().unref().to_set().contains(kk));
                        assert(it.seq().unref()[it.seq().unref().index_of(kk)] == kk);
                    }
                }
                v
            },
            _ => {
                // flat and zero storage each hold the whole extent
                let v = vec![(self.start_sector, self.start_sector + self.sectors)];
                assert(v@[0] == (self.start_sector, (self.start_sector + self.sectors) as u64));
                v
            },
        }
    }

    /// The sector spans of the extent (see `spans_of`), one per grain of a
    /// sparse extent, in no particular order.
    pub fn spans(&self) -> (r: Vec<(u64, u64)>)
        requires
            spans_fit(self@),
        ensures
            r@.len() == span_count(self@),
            forall|p: (u64, u64)| r@.contains(p) <==> spans_of(self@).contains(p),
    {
        match &self.storage {
            ExtentStorage::Sparse(storage) => {
                // sparse storage need not cover the whole extent
                let gs = storage.grain_size;
                let start = self.start_sector;
                let ghost table = storage.grain_table@;
                let mut v: Vec<(u64, u64)> = Vec::new();
                for k in it: storage.grain_table.keys()
                    invariant
                        start == self.start_sector,
                        self.storage@ is Sparse,
                        gs == storage.grain_size,
                        table == storage.grain_table@,
                        self.storage@->table == table,
                        self.storage@->grain_size == gs,
                        spans_fit(self@),
                        it.seq().unref().to_set() == table.dom(),
                        it.seq().len() == table.dom().len(),
                        v@.len() == it.index(),
                        forall|i: int|
                            0 <= i < it.index() ==> #[trigger] v@[i] == grain_span(
                                start,
                                gs,
                                *it.seq()[i],
                            ),
                        forall|p: (u64, u64)| v@.contains(p) ==> spans_of(self@).contains(p),
                        it.index() == it.seq().len() ==> forall|p: (u64, u64)|
                            spans_of(self@).contains(p) ==> v@.contains(p),
                {
                    let ghost before = v@;
                    let ghost idx = it.index();
                    assert(it.seq().unref()[idx] == *k);
                    assert(table.contains_key(*k));
                    let b = start + *k * gs;
                    v.push((b, b + gs));
                    assert(v@.last() == grain_span(start, gs, *k));
                    assert forall|p: (u64, u64)| v@.contains(p) implies spans_of(self@).contains(p) by {
                        if !before.contains(p) {
                            assert(v@.last() == p);
                        } else {
                            assert(before.contains(p));
                        }
                    }
                    assert forall|p: (u64, u64)|
                        idx + 1 == it.seq().len() && spans_of(self@).contains(p) implies v@.contains(
                        p,
                    ) by {
                        let keys = it.seq().unref();
                        let kk = choose|kk: u64| #[trigger]
                            table.contains_key(kk) && p == grain_span(start, gs, kk);
                        assert(keys.to_set().contains(kk));
                        let i = keys.index_of(kk);
                        assert(keys[i] == *it.seq()[i]);
                        assert(v@[i] == p);
                    }
                }
                v
            },
            _ => {
                // flat and zero storage each hold the whole extent
                let v = vec![(self.start_sector, self.start_sector + self.sectors)];
                assert(v@[0] == (self.start_sector, (self.start_sector + self.sectors) as u64));
                v
            },
        }
    }

    /// Whether the extent's bytes come from a file.
    pub fn has_file(&self) -> (r: bool)
        ensures
            r == !(self.storage@ is Zero),
    {
        match &self.storage {
            ExtentStorage::Zero => false,
            _ => true,
        }
    }
}

/// The storage of a VMDK3 or VMDK4 sparse file with content `c`, if its
/// header and grain tables can be read.
pub open spec fn spec_sparse_storage(c: Seq<u8>) -> Option<StorageModel> {
    match spec_sparse_header(c) {
        HeaderOutcome::Meta(m) => match spec_sparse_grain_table(c, m) {
            Some(t) => Some(
                StorageModel::Sparse {
                    content: c,
                    table: t,
                    grain_size: m.cluster_sectors,
                    compressed: m.compressed,
                    zeroed: m.has_zero_grain,
                },
            ),
            None => None,
        },
        _ => None,
    }
}

/// The storage of a SESPARSE file with content `c`, if its header and grain
/// tables can be read: never compressed, with zeroed grains at sector 1.
pub open spec fn spec_sesparse_storage(c: Seq<u8>) -> Option<StorageModel> {
    match spec_sesparse_meta(c) {
        HeaderOutcome::Meta(m) => match spec_sesparse_grain_table(c, m) {
            Some(t) => Some(
                StorageModel::Sparse {
                    content: c,
                    table: t,
                    grain_size: m.cluster_sectors,
                    compressed: false,
                    zeroed: true,
                },
            ),
            None => None,
        },
        _ => None,
    }
}

/// The storage an extent description gives with a file of content `c`
/// (`None` for no file): ZERO needs no file; the sparse kinds read their
/// header and grain tables; FLAT reads with its offset; VMFS and raw device
/// mappings are flat from the start of the file.
pub open spec fn spec_extent_storage(d: InnerModel, c: Option<Seq<u8>>) -> Option<StorageModel> {
    match d {
        InnerModel::Zero => Some(StorageModel::Zero),
        _ => match c {
            None => None,
            Some(c) => match d {
                InnerModel::Sparse(_) => spec_sparse_storage(c),
                InnerModel::VmfsSparse(_) => spec_sparse_storage(c),
                InnerModel::SeSparse(_) => spec_sesparse_storage(c),
                InnerModel::Flat(_, offset) => Some(StorageModel::Flat { content: c, offset }),
                _ => Some(StorageModel::Flat { content: c, offset: 0 }),
            },
        },
    }
}

/// The content of a source, if there is one.
pub open spec fn source_content<S: BytesSource>(src: Option<S>) -> Option<Seq<u8>> {
    match src {
        Some(s) => Some(s.content()),
        None => None,
    }
}

/// Whether every read of a source, if there is one, succeeds.
pub open spec fn source_reads_never_fail<S: BytesSource>(src: Option<S>) -> bool {
    match src {
        Some(s) => s.reads_never_fail(),
        None => true,
    }
}

fn io_error(e: std::io::Error) -> (r: OpenErrorKind)
    ensures
        r == OpenErrorKind::IoError(IoError::IoError(e)),
{
    OpenErrorKind::IoError(IoError::IoError(e))
}

/// Sets up the storage of an extent from its description and its file
/// (see `spec_extent_storage`). A file kind with no file is a bad path.
pub fn read_extent<S: BytesSource>(ed: &ExtentDescription, src: Option<S>) -> (r: Result<
    ExtentStorage<S>,
    OpenErrorKind,
>)
    ensures
        r matches Ok(st) ==> spec_extent_storage(ed.kind@, source_content(src)) == Some(st@),
        spec_extent_storage(ed.kind@, source_content(src)) is None ==> r is Err,
        r matches Err(k) ==> header_error(k) || k is BadPath,
        spec_extent_storage(ed.kind@, source_content(src)) is Some && source_reads_never_fail(src)
            ==> r is Ok,
        r matches Ok(st) ==> (source_reads_never_fail(src) ==> st.reads_never_fail()),
        r matches Ok(st) ==> st.filename_view() == inner_filename(ed.kind@),
        r matches Err(OpenErrorKind::BadPath(p)) ==> p@ == inner_filename(ed.kind@),
        source_reads_never_fail(src) && src is Some && (match ed.kind@ {
            InnerModel::Sparse(_) | InnerModel::VmfsSparse(_) => spec_sparse_header(
                source_content(src).unwrap(),
            ) is Invalid,
            InnerModel::SeSparse(_) => spec_sesparse_meta(source_content(src).unwrap()) is Invalid,
            _ => false,
        }) ==> r == Err::<ExtentStorage<S>, OpenErrorKind>(OpenErrorKind::InvalidFileHeader),
{
    let filename: String = match ed.filename() {
        Some(f) => f.to_owned(),
        None => String::new(),
    };
    let src = match (&ed.kind, src) {
        (ExtentDescriptionInner::Zero, _) => return Ok(ExtentStorage::Zero),
        (_, None) => return Err(OpenErrorKind::BadPath(filename)),
        (_, Some(s)) => s,
    };
    match &ed.kind {
        ExtentDescriptionInner::Sparse { .. } | ExtentDescriptionInner::VmfsSparse { .. } => {
            let header = read_header_sparse(&src)?;
            let grain_table = match read_grain_table_sparse(&header, &src) {
                Ok(t) => t,
                Err(e) => return Err(io_error(e)),
            };
            Ok(
                ExtentStorage::Sparse(
                    SparseStorage {
                        file: src,
                        filename,
                        grain_table,
                        grain_size: header.cluster_sectors,
                        has_compressed_grain: header.compressed,
                        zeroed_grain_table_entry: header.has_zero_grain,
                    },
                ),
            )
        },
        ExtentDescriptionInner::SeSparse { .. } => {
            let header = read_header_sesparse(&src)?;
            let grain_table = match read_grain_table_sesparse(&header, &src) {
                Ok(t) => t,
                Err(e) => return Err(io_error(e)),
            };
            Ok(
                ExtentStorage::Sparse(
                    SparseStorage {
                        file: src,
                        filename,
                        grain_table,
                        grain_size: header.cluster_sectors,
                        has_compressed_grain: false,
                        zeroed_grain_table_entry: true,
                    },
                ),
            )
        },
        ExtentDescriptionInner::Flat { offset, .. } => {
            Ok(ExtentStorage::Flat(FlatStorage { file: src, filename, offset: *offset }))
        },
        _ => {
            // VMFS, and raw device mappings, hold the extent from the start of the file
            Ok(ExtentStorage::Flat(FlatStorage { file: src, filename, offset: 0 }))
        },
    }
}

/// The number of sectors of the extents before extent `i`.
pub open spec fn sectors_before(eds: Seq<DescriptionModel>, i: int) -> int
    decreases i,
{
    if i <= 0 {
        0
    } else {
        sectors_before(eds, i - 1) + eds[i - 1].sectors
    }
}

/// Sets up the extents of an image from their descriptions and their files
/// (`srcs[i]` is the file of `eds[i]`, `None` for an extent with no file).
/// The extents are laid out one after the other from sector 0, and their
/// sectors must be addressable in 64 bits.
pub fn read_extents<S: BytesSource>(eds: &[ExtentDescription], srcs: Vec<Option<S>>) -> (r: Result<
    Vec<Extent<S>>,
    OpenError,
>)
    requires
        srcs.len() == eds.len(),
    ensures
        r matches Ok(exts) ==> {
            &&& exts.len() == eds.len()
            &&& sectors_before(descriptions_view(eds@), eds.len() as int) <= u64::MAX
            &&& forall|i: int|
                #![trigger exts[i]]
                0 <= i < eds.len() ==> {
                    &&& exts[i].start_sector == sectors_before(descriptions_view(eds@), i)
                    &&& exts[i].sectors == eds[i].sectors
                    &&& spec_extent_storage(eds[i].kind@, source_content(srcs[i])) == Some(
                        exts[i].storage@,
                    )
                }
        },
        sectors_before(descriptions_view(eds@), eds.len() as int) > u64::MAX ==> r is Err,
        (exists|i: int|
            0 <= i < eds.len() && (#[trigger] spec_extent_storage(
                eds[i].kind@,
                source_content(srcs[i]),
            )) is None) ==> r is Err,
        r matches Err(e) ==> header_error(e.kind) || e.kind is BadPath || e.kind
            is DescriptorError,
        sectors_before(descriptions_view(eds@), eds.len() as int) <= u64::MAX && (forall|i: int|
            0 <= i < eds.len() ==> (#[trigger] spec_extent_storage(
                eds[i].kind@,
                source_content(srcs[i]),
            )) is Some && source_reads_never_fail(srcs[i])) ==> r is Ok,
        r matches Ok(exts) ==> forall|i: int|
            0 <= i < exts.len() && source_reads_never_fail(srcs[i]) ==> (
            #[trigger] exts[i]).storage.reads_never_fail(),
{
    let ghost dv = descriptions_view(eds@);
    let ghost srcs0 = srcs@;
    let mut rest = srcs;
    let mut extents: Vec<Extent<S>> = Vec::new();
    let mut start_sector: u64 = 0;
    let mut i: usize = 0;
    while i < eds.len()
        invariant
            dv == descriptions_view(eds@),
            srcs0.len() == eds.len(),
            srcs0 == srcs@,
            i <= eds.len(),
            rest@ == srcs0.subrange(i as int, srcs0.len() as int),
            start_sector == sectors_before(dv, i as int),
            extents.len() == i,
            forall|k: int|
                #![trigger extents[k]]
                #![trigger spec_extent_storage(eds[k].kind@, source_content(srcs0[k]))]
                0 <= k < i ==> {
                    &&& extents[k].start_sector == sectors_before(dv, k)
                    &&& extents[k].sectors == eds[k].sectors
                    &&& spec_extent_storage(eds[k].kind@, source_content(srcs0[k])) == Some(
                        extents[k].storage@,
                    )
                },
            forall|k: int|
                0 <= k < i && source_reads_never_fail(srcs0[k]) ==> (
                #[trigger] extents[k]).storage.reads_never_fail(),
        decreases eds.len() - i,
    {
        let ed = &eds[i];
        assert(dv[i as int] == ed@);
        let src = rest.remove(0);
        assert(src == srcs0[i as int]);
        let sectors = ed.sectors;
        if sectors > u64::MAX - start_sector {
            proof {
                lemma_sectors_before_grows(dv, i as int + 1, eds.len() as int);
            }
            return Err(
                OpenError::from_kind(
                    OpenErrorKind::DescriptorError(DescriptorError::ParseExtentDescriptionError),
                ),
            );
        }
        let storage = match read_extent(ed, src) {
            Ok(st) => st,
            Err(kind) => {
                proof {
                    let k = i as int;
                    assert(spec_extent_storage(eds[k].kind@, source_content(srcs[k])) is Some
                        && source_reads_never_fail(srcs[k]) ==> false);
                }
                let path = match ed.filename() {
                    Some(f) => f,
                    None => "",
                };
                return Err(OpenError::from_kind(kind).with_path(path));
            },
        };
        extents.push(Extent { start_sector, sectors, storage });
        start_sector = start_sector + sectors;
        i = i + 1;
    }
    assert(srcs0 == srcs@);
    Ok(extents)
}

/// Sums of sectors only grow.
pub(crate) proof fn lemma_sectors_before_grows(eds: Seq<DescriptionModel>, i: int, j: int)
    requires
        0 <= i <= j <= eds.len(),
    ensures
        sectors_before(eds, i) <= sectors_before(eds, j),
    decreases j - i,
{
    if i < j {
        lemma_sectors_before_grows(eds, i, j - 1);
    }
}

/// The spans an extent holds data for lie within the extent.
pub(crate) proof fn lemma_spans_within(e: ExtentModel, p: (u64, u64))
    requires
        held_spans_of(e).contains(p),
        e.start_sector + e.sectors <= u64::MAX,
    ensures
        e.start_sector <= p.0 <= p.1 <= e.start_sector + e.sectors,
{
    match e.storage {
        StorageModel::Sparse { table, grain_size, .. } => {
            let k = choose|k: u64|
                #[trigger] table.contains_key(k) && k * grain_size < e.sectors && p == held_grain_span(
                    e.start_sector,
                    e.sectors,
                    grain_size,
                    k,
                );
            assert(k * grain_size >= 0) by (nonlinear_arith);
        },
        _ => {},
    }
}

} // verus!
