use crate::extents::{
    entry_kind, sesparse_grain_number, sesparse_l2_entries, sesparse_table_from, sparse_l2_entries,
    sparse_table_from, spec_sesparse_grain_table, spec_sparse_grain_table,
};
use crate::header::{le_u32, le_u64, VmdkSeSparseMeta, VmdkSparseMeta, SECTOR_SIZE};
use vstd::prelude::*;

verus! {

// ---------------------------------------------------------------------------
// What the grain tables of a sparse file say, grain by grain
// ---------------------------------------------------------------------------

/// The grain table entry a VMDK3 or VMDK4 file with content `c` and
/// geometry `h` holds for grain `k`: entry `k % l2_len` of the grain table
/// that grain directory entry `k / l2_len` points to (the directory entry
/// counts sectors), or 0 where that directory entry is 0.
pub open spec fn sparse_entry_of(c: Seq<u8>, h: VmdkSparseMeta, k: int) -> int {
    let at = le_u32(c, h.l1_offset + 4 * (k / (h.l2_len as int))) * SECTOR_SIZE;
    if at == 0 {
        0
    } else {
        le_u32(c, at + 4 * (k % (h.l2_len as int)))
    }
}

/// `t` holds, for the grains `k` below `bound`, exactly the grains whose
/// entry is not 0, each with its entry, and no grain at or above `bound`.
pub open spec fn sparse_table_holds(
    c: Seq<u8>,
    h: VmdkSparseMeta,
    t: Map<u64, u64>,
    bound: int,
) -> bool {
    &&& forall|k: u64|
        k < bound ==> (#[trigger] t.contains_key(k) <==> (k < h.sectors && k < h.l1_len * h.l2_len
            && sparse_entry_of(c, h, k as int) != 0))
    &&& forall|k: u64| #[trigger] t.contains_key(k) ==> k < bound && t[k] == sparse_entry_of(
        c,
        h,
        k as int,
    )
}

/// Grain `k` of the `n` grains from `cur` on is entry `k - cur` of the
/// table of directory entry `j` when `cur == j * l2_len` and `n <= l2_len`.
proof fn lemma_grain_position(l2_len: int, j: int, cur: int, n: int, k: int)
    requires
        l2_len > 0,
        j >= 0,
        cur == j * l2_len,
        0 <= n <= l2_len,
        cur <= k < cur + n,
    ensures
        k / l2_len == j,
        k % l2_len == k - cur,
{
    vstd::arithmetic::div_mod::lemma_fundamental_div_mod_converse(k, l2_len, j, k - cur);
}

proof fn lemma_sparse_l2(c: Seq<u8>, at: int, cur: int, n: int, i: int, acc: Map<u64, u64>)
    requires
        0 <= cur,
        0 <= i <= n,
        cur + n <= u64::MAX + 1,
        forall|k: u64| cur + i <= k < cur + n ==> !#[trigger] acc.contains_key(k),
    ensures
        forall|k: u64|
            cur + i <= k < cur + n ==> (#[trigger] sparse_l2_entries(
                c,
                at,
                cur,
                n,
                i,
                acc,
            ).contains_key(k) <==> le_u32(c, at + 4 * (k - cur)) != 0),
        forall|k: u64|
            cur + i <= k < cur + n && #[trigger] sparse_l2_entries(
                c,
                at,
                cur,
                n,
                i,
                acc,
            ).contains_key(k) ==> sparse_l2_entries(c, at, cur, n, i, acc)[k] == le_u32(
                c,
                at + 4 * (k - cur),
            ),
        forall|k: u64|
            !(cur + i <= k < cur + n) ==> (#[trigger] sparse_l2_entries(
                c,
                at,
                cur,
                n,
                i,
                acc,
            ).contains_key(k) == acc.contains_key(k)),
        forall|k: u64|
            !(cur + i <= k < cur + n) && #[trigger] acc.contains_key(k) ==> sparse_l2_entries(
                c,
                at,
                cur,
                n,
                i,
                acc,
            )[k] == acc[k],
    decreases n - i,
{
    if i < n {
        let g = le_u32(c, at + 4 * i);
        let acc2 = if g != 0 {
            acc.insert((cur + i) as u64, g as u64)
        } else {
            acc
        };
        lemma_sparse_l2(c, at, cur, n, i + 1, acc2);
        let r = sparse_l2_entries(c, at, cur, n, i, acc);
        assert(r == sparse_l2_entries(c, at, cur, n, i + 1, acc2));
        assert forall|k: u64| cur + i <= k < cur + n implies (#[trigger] r.contains_key(k) <==> le_u32(
            c,
            at + 4 * (k - cur),
        ) != 0) by {
            if k == cur + i {
                assert(acc2.contains_key(k) == (g != 0));
            }
        }
        assert forall|k: u64| !(cur + i <= k < cur + n) && #[trigger] acc.contains_key(k) implies r[k]
            == acc[k] by {
            assert(acc2.contains_key(k) && acc2[k] == acc[k]);
        }
        assert forall|k: u64| cur + i <= k < cur + n && #[trigger] r.contains_key(k) implies r[k]
            == le_u32(c, at + 4 * (k - cur)) by {
            if k == cur + i {
                assert(0 <= g < 0x1_0000_0000) by {
                    lemma_le_u32_bounds(c, at + 4 * i);
                }
            }
        }
    }
}

/// A stored 32-bit number lies in `[0, 2^32)` when its bytes do.
proof fn lemma_le_u32_bounds(c: Seq<u8>, i: int)
    ensures
        0 <= le_u32(c, i) < 0x1_0000_0000,
{
    let a = c[i];
    let b = c[i + 1];
    let d = c[i + 2];
    let e = c[i + 3];
    assert(0 <= a + b * 0x100 + d * 0x10000 + e * 0x1000000 < 0x1_0000_0000) by (nonlinear_arith)
        requires
            0 <= a < 256,
            0 <= b < 256,
            0 <= d < 256,
            0 <= e < 256,
    ;
}

proof fn lemma_sparse_from(
    c: Seq<u8>,
    h: VmdkSparseMeta,
    j: int,
    cur: int,
    acc: Map<u64, u64>,
    t: Map<u64, u64>,
)
    requires
        sparse_table_from(c, h, j, cur, acc) == Some(t),
        0 <= j,
        0 <= cur <= h.sectors,
        cur == j * h.l2_len || cur == h.sectors,
        sparse_table_holds(c, h, acc, cur),
    ensures
        sparse_table_holds(c, h, t, u64::MAX + 1),
    decreases h.l1_len - j,
{
    if j >= h.l1_len || cur >= h.sectors {
        assert(t == acc);
        assert forall|k: u64| k < u64::MAX + 1 implies (#[trigger] t.contains_key(k) <==> (k
            < h.sectors && k < h.l1_len * h.l2_len && sparse_entry_of(c, h, k as int) != 0)) by {
            if k >= cur && j >= h.l1_len && cur < h.sectors {
                assert(cur == j * h.l2_len);
                assert(j * h.l2_len >= h.l1_len * h.l2_len) by (nonlinear_arith)
                    requires
                        j >= h.l1_len,
                        h.l2_len >= 0,
                ;
            }
        }
    } else {
        assert(cur == j * h.l2_len);
        let n = crate::extents::min(h.l2_len as int, h.sectors - cur);
        let at = le_u32(c, h.l1_offset + 4 * j) * SECTOR_SIZE;
        assert((j + 1) * h.l2_len <= h.l1_len * h.l2_len) by (nonlinear_arith)
            requires
                j < h.l1_len,
                h.l2_len >= 0,
        ;
        assert((j + 1) * h.l2_len == cur + h.l2_len) by (nonlinear_arith)
            requires
                cur == j * h.l2_len,
        ;
        // the grains of this directory entry are entries of its table
        assert forall|k: int| cur <= k < cur + n implies #[trigger] sparse_entry_of(c, h, k) == (if at
            == 0 {
            0
        } else {
            le_u32(c, at + 4 * (k - cur))
        }) by {
            lemma_grain_position(h.l2_len as int, j, cur, n, k);
        }
        let acc2 = if at == 0 {
            acc
        } else {
            sparse_l2_entries(c, at, cur, n, 0, acc)
        };
        if at != 0 {
            lemma_sparse_l2(c, at, cur, n, 0, acc);
        }
        assert(sparse_table_holds(c, h, acc2, cur + n)) by {
            assert forall|k: u64| k < cur + n implies (#[trigger] acc2.contains_key(k) <==> (k
                < h.sectors && k < h.l1_len * h.l2_len && sparse_entry_of(c, h, k as int) != 0)) by {
                if k >= cur {
                    assert(sparse_entry_of(c, h, k as int) == (if at == 0 {
                        0
                    } else {
                        le_u32(c, at + 4 * (k - cur))
                    }));
                }
            }
            assert forall|k: u64| #[trigger] acc2.contains_key(k) implies k < cur + n && acc2[k]
                == sparse_entry_of(c, h, k as int) by {
                if k >= cur && at != 0 {
                    if k >= cur + n {
                        assert(acc.contains_key(k));
                    }
                    assert(sparse_entry_of(c, h, k as int) == le_u32(c, at + 4 * (k - cur)));
                }
            }
        }
        if at != 0 {
            assert(at + 4 * n <= c.len());
        }
        lemma_sparse_from(c, h, j + 1, cur + n, acc2, t);
    }
}

/// Law of the VMDK3 and VMDK4 grain tables: grain `k` of the extent is in
/// the table exactly when it lies within the extent's directory and its
/// entry (entry `k % l2_len` of the table that directory entry
/// `k / l2_len` points to) is not 0, and then maps to that entry. A zero
/// directory entry leaves its `l2_len` grains out of the table.
pub proof fn lemma_sparse_grain_table_entries(c: Seq<u8>, h: VmdkSparseMeta, t: Map<u64, u64>)
    requires
        spec_sparse_grain_table(c, h) == Some(t),
    ensures
        forall|k: u64| #[trigger]
            t.contains_key(k) <==> (k < h.sectors && k < h.l1_len * h.l2_len && sparse_entry_of(
                c,
                h,
                k as int,
            ) != 0),
        forall|k: u64| #[trigger] t.contains_key(k) ==> t[k] == sparse_entry_of(c, h, k as int),
{
    assert(0 == 0 * h.l2_len);
    lemma_sparse_from(c, h, 0, 0, Map::empty(), t);
}

// ---------------------------------------------------------------------------
// What the grain tables of a SESPARSE file say, grain by grain
// ---------------------------------------------------------------------------

/// The byte at which the grain table a SESPARSE directory entry `e` names
/// starts: tables of `l2_len` 8-byte entries stored one after the other
/// from `l2_tables_offset`, the entry's low 60 bits giving the table's
/// index.
pub open spec fn sesparse_table_start(h: VmdkSeSparseMeta, e: int) -> int {
    h.l2_tables_offset + (e % 0x1000_0000_0000_0000) * (8 * h.l2_len)
}

/// The grain table entry a SESPARSE file with content `c` and geometry `h`
/// holds for grain `k`: entry `k % l2_len` of the table that directory
/// entry `k / l2_len` names, or 0 where that directory entry is 0.
pub open spec fn sesparse_entry_of(c: Seq<u8>, h: VmdkSeSparseMeta, k: int) -> int {
    let e = le_u64(c, h.l1_offset + 8 * (k / (h.l2_len as int)));
    if e == 0 {
        0
    } else {
        le_u64(c, sesparse_table_start(h, e) + 8 * (k % (h.l2_len as int)))
    }
}

/// The grain number an allocated SESPARSE grain table entry `x` holds:
/// bits 48..60 of `x` as the low 12 bits, bits 0..48 above them.
pub open spec fn sesparse_number_bits(x: u64) -> u64 {
    ((x >> 48u64) & 0xFFFu64) | ((x & 0xFFFF_FFFF_FFFFu64) << 12u64)
}

/// The sector a non-zero SESPARSE grain table entry `x` gives its grain:
/// 1 for a zeroed grain (kinds 1 and 2, in the top four bits), otherwise
/// the grain's number of clusters past `clusters_offset`.
pub open spec fn sesparse_sector_of(h: VmdkSeSparseMeta, x: u64) -> int {
    if x >> 60u64 == 1 || x >> 60u64 == 2 {
        1
    } else {
        h.clusters_offset + sesparse_number_bits(x) * h.cluster_sectors
    }
}

/// The grain number and kind, read with bit operations, are those the
/// grain table reading works with.
proof fn lemma_sesparse_bits(x: u64)
    ensures
        sesparse_number_bits(x) == sesparse_grain_number(x as int),
        (x >> 60u64) == entry_kind(x as int),
{
    assert(((x >> 48u64) & 0xFFFu64) | ((x & 0xFFFF_FFFF_FFFFu64) << 12u64) == (x
        / 0x1_0000_0000_0000) % 0x1000 + (x % 0x1_0000_0000_0000) * 0x1000) by (bit_vector);
    assert(x >> 60u64 == x / 0x1000_0000_0000_0000) by (bit_vector);
}

/// Law of allocated SESPARSE grains: grains with different numbers lie at
/// different sectors.
pub proof fn lemma_sesparse_distinct_grains(h: VmdkSeSparseMeta, x: u64, y: u64)
    requires
        h.cluster_sectors > 0,
        x >> 60u64 == 3,
        y >> 60u64 == 3,
        sesparse_number_bits(x) != sesparse_number_bits(y),
    ensures
        sesparse_sector_of(h, x) != sesparse_sector_of(h, y),
{
    let a = sesparse_number_bits(x) as int;
    let b = sesparse_number_bits(y) as int;
    let cs = h.cluster_sectors as int;
    assert(a * cs != b * cs) by (nonlinear_arith)
        requires
            a != b,
            cs > 0,
    ;
}

/// A stored 64-bit number lies in `[0, 2^64)`.
proof fn lemma_le_u64_bounds(c: Seq<u8>, i: int)
    ensures
        0 <= le_u64(c, i) <= u64::MAX,
{
    lemma_le_u32_bounds(c, i);
    lemma_le_u32_bounds(c, i + 4);
}

/// `t` holds, for the grains `k` below `bound`, exactly the grains whose
/// entry is not 0, each at the sector its entry gives, and no grain at or
/// above `bound`.
pub open spec fn sesparse_table_holds(
    c: Seq<u8>,
    h: VmdkSeSparseMeta,
    total: int,
    t: Map<u64, u64>,
    bound: int,
) -> bool {
    &&& forall|k: u64|
        k < bound ==> (#[trigger] t.contains_key(k) <==> (k < total && k < h.l1_len * h.l2_len
            && sesparse_entry_of(c, h, k as int) != 0))
    &&& forall|k: u64| #[trigger] t.contains_key(k) ==> k < bound && t[k] == sesparse_sector_of(
        h,
        sesparse_entry_of(c, h, k as int) as u64,
    )
}

proof fn lemma_sesparse_l2(
    c: Seq<u8>,
    h: VmdkSeSparseMeta,
    at: int,
    cur: int,
    n: int,
    i: int,
    acc: Map<u64, u64>,
    r: Map<u64, u64>,
)
    requires
        sesparse_l2_entries(c, h, at, cur, n, i, acc) == Some(r),
        0 <= cur,
        0 <= i <= n,
        cur + n <= u64::MAX + 1,
        forall|k: u64| cur + i <= k < cur + n ==> !#[trigger] acc.contains_key(k),
    ensures
        forall|k: u64|
            cur + i <= k < cur + n ==> (#[trigger] r.contains_key(k) <==> le_u64(c, at + 8 * (k - cur))
                != 0),
        forall|k: u64|
            cur + i <= k < cur + n && #[trigger] r.contains_key(k) ==> r[k] == sesparse_sector_of(
                h,
                le_u64(c, at + 8 * (k - cur)) as u64,
            ),
        forall|k: u64|
            !(cur + i <= k < cur + n) ==> (#[trigger] r.contains_key(k) == acc.contains_key(k)),
        forall|k: u64| !(cur + i <= k < cur + n) && #[trigger] acc.contains_key(k) ==> r[k] == acc[k],
    decreases n - i,
{
    if i < n {
        let e = le_u64(c, at + 8 * i);
        let k0 = (cur + i) as u64;
        lemma_le_u64_bounds(c, at + 8 * i);
        lemma_sesparse_bits(e as u64);
        let acc2 = if e == 0 {
            acc
        } else if entry_kind(e) == 1 || entry_kind(e) == 2 {
            acc.insert(k0, 1)
        } else {
            let sector = h.clusters_offset + sesparse_grain_number(e) * h.cluster_sectors;
            acc.insert(k0, sector as u64)
        };
        assert(sesparse_l2_entries(c, h, at, cur, n, i + 1, acc2) == Some(r));
        lemma_sesparse_l2(c, h, at, cur, n, i + 1, acc2, r);
        assert forall|k: u64| cur + i <= k < cur + n implies (#[trigger] r.contains_key(k) <==> le_u64(
            c,
            at + 8 * (k - cur),
        ) != 0) by {
            if k == k0 {
                assert(acc2.contains_key(k) == (e != 0));
            }
        }
        assert forall|k: u64| cur + i <= k < cur + n && #[trigger] r.contains_key(k) implies r[k]
            == sesparse_sector_of(h, le_u64(c, at + 8 * (k - cur)) as u64) by {
            if k == k0 {
                assert(acc2.contains_key(k) && r[k] == acc2[k]);
            }
        }
        assert forall|k: u64| !(cur + i <= k < cur + n) && #[trigger] acc.contains_key(k) implies r[k]
            == acc[k] by {
            assert(acc2.contains_key(k) && acc2[k] == acc[k]);
        }
    }
}

proof fn lemma_sesparse_from(
    c: Seq<u8>,
    h: VmdkSeSparseMeta,
    total: int,
    j: int,
    cur: int,
    acc: Map<u64, u64>,
    t: Map<u64, u64>,
)
    requires
        sesparse_table_from(c, h, total, j, cur, acc) == Some(t),
        0 <= j,
        0 <= cur <= total <= u64::MAX,
        cur == j * h.l2_len || cur == total,
        sesparse_table_holds(c, h, total, acc, cur),
    ensures
        sesparse_table_holds(c, h, total, t, u64::MAX + 1),
    decreases h.l1_len - j,
{
    if j >= h.l1_len || cur >= total {
        assert(t == acc);
        assert forall|k: u64| k < u64::MAX + 1 implies (#[trigger] t.contains_key(k) <==> (k < total
            && k < h.l1_len * h.l2_len && sesparse_entry_of(c, h, k as int) != 0)) by {
            if k >= cur && j >= h.l1_len && cur < total {
                assert(cur == j * h.l2_len);
                assert(j * h.l2_len >= h.l1_len * h.l2_len) by (nonlinear_arith)
                    requires
                        j >= h.l1_len,
                        h.l2_len >= 0,
                ;
            }
        }
    } else {
        assert(cur == j * h.l2_len);
        let n = crate::extents::min(h.l2_len as int, total - cur);
        let e = le_u64(c, h.l1_offset + 8 * j);
        assert((j + 1) * h.l2_len <= h.l1_len * h.l2_len) by (nonlinear_arith)
            requires
                j < h.l1_len,
                h.l2_len >= 0,
        ;
        assert((j + 1) * h.l2_len == cur + h.l2_len) by (nonlinear_arith)
            requires
                cur == j * h.l2_len,
        ;
        let at = h.l2_tables_offset + (e % 0x1000_0000_0000_0000) * (h.l2_len * 8);
        assert(at == sesparse_table_start(h, e));
        assert forall|k: int| cur <= k < cur + n implies #[trigger] sesparse_entry_of(c, h, k) == (if e
            == 0 {
            0
        } else {
            le_u64(c, at + 8 * (k - cur))
        }) by {
            lemma_grain_position(h.l2_len as int, j, cur, n, k);
        }
        if e == 0 {
            assert(sesparse_table_holds(c, h, total, acc, cur + n)) by {
                assert forall|k: u64| k < cur + n implies (#[trigger] acc.contains_key(k) <==> (k
                    < total && k < h.l1_len * h.l2_len && sesparse_entry_of(c, h, k as int) != 0)) by {
                    if k >= cur {
                        assert(sesparse_entry_of(c, h, k as int) == 0);
                    }
                }
            }
            lemma_sesparse_from(c, h, total, j + 1, cur + n, acc, t);
        } else {
            let a = sesparse_l2_entries(c, h, at, cur, n, 0, acc).unwrap();
            lemma_sesparse_l2(c, h, at, cur, n, 0, acc, a);
            assert(sesparse_table_holds(c, h, total, a, cur + n)) by {
                assert forall|k: u64| k < cur + n implies (#[trigger] a.contains_key(k) <==> (k
                    < total && k < h.l1_len * h.l2_len && sesparse_entry_of(c, h, k as int) != 0)) by {
                    if k >= cur {
                        assert(sesparse_entry_of(c, h, k as int) == le_u64(c, at + 8 * (k - cur)));
                    }
                }
                assert forall|k: u64| #[trigger] a.contains_key(k) implies k < cur + n && a[k]
                    == sesparse_sector_of(h, sesparse_entry_of(c, h, k as int) as u64) by {
                    if k >= cur {
                        if k >= cur + n {
                            assert(acc.contains_key(k));
                        }
                        assert(sesparse_entry_of(c, h, k as int) == le_u64(c, at + 8 * (k - cur)));
                    }
                }
            }
            lemma_sesparse_from(c, h, total, j + 1, cur + n, a, t);
        }
    }
}

/// Law of the SESPARSE grain tables: grain `k` of the extent is in the
/// table exactly when it lies within the extent and its directory and its
/// entry (entry `k % l2_len` of the table of `8 * l2_len` bytes that
/// directory entry `k / l2_len` names) is not 0, and then maps to the
/// sector that entry gives (`sesparse_sector_of`).
pub proof fn lemma_sesparse_grain_table_entries(c: Seq<u8>, h: VmdkSeSparseMeta, t: Map<u64, u64>)
    requires
        spec_sesparse_grain_table(c, h) == Some(t),
    ensures
        forall|k: u64| #[trigger]
            t.contains_key(k) <==> (k < h.sectors / h.cluster_sectors && k < h.l1_len * h.l2_len
                && sesparse_entry_of(c, h, k as int) != 0),
        forall|k: u64| #[trigger]
            t.contains_key(k) ==> t[k] == sesparse_sector_of(
                h,
                sesparse_entry_of(c, h, k as int) as u64,
            ),
{
    assert(0 == 0 * h.l2_len);
    let total = (h.sectors / h.cluster_sectors) as int;
    lemma_sesparse_from(c, h, total, 0, 0, Map::empty(), t);
}

} // verus!
