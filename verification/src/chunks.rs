use vstd::prelude::*;

verus! {

// ---------------------------------------------------------------------------
// Reading through a cache of fixed-size chunks
// ---------------------------------------------------------------------------

/// The start of the chunk of `chlen` bytes that holds position `off`.
pub open spec fn chunk_start(off: int, chlen: int) -> int {
    (off / chlen) * chlen
}

/// How many chunks of `chlen` bytes, the first starting at `first`, it
/// takes to reach `end`.
pub open spec fn chunk_count(first: int, end: int, chlen: int) -> int {
    if end <= first {
        0
    } else {
        (end - first - 1) / chlen + 1
    }
}

/// The offsets of the chunks of `chlen` bytes, aligned on multiples of
/// `chlen`, from the chunk that holds `off` on, that start before
/// `off + len`.
pub open spec fn spec_chunk_offsets(off: int, len: int, chlen: int) -> Seq<int> {
    let first = chunk_start(off, chlen);
    Seq::new(chunk_count(first, off + len, chlen) as nat, |i: int| first + i * chlen)
}

/// Lists the offsets of the chunks that hold the bytes `[off, off + len)`
/// (see `spec_chunk_offsets`).
pub fn chunk_offsets(off: u64, len: u64, chlen: u64) -> (r: Vec<u64>)
    requires
        chlen > 0,
        off + len <= u64::MAX,
    ensures
        r@.len() == spec_chunk_offsets(off as int, len as int, chlen as int).len(),
        forall|i: int|
            0 <= i < r@.len() ==> #[trigger] r@[i] == spec_chunk_offsets(
                off as int,
                len as int,
                chlen as int,
            )[i],
{
    proof {
        assert(off % chlen <= off) by (nonlinear_arith)
            requires
                chlen > 0,
        ;
    }
    let first = off - off % chlen;
    let end = off + len;
    proof {
        vstd::arithmetic::div_mod::lemma_fundamental_div_mod(off as int, chlen as int);
        assert(first == (off / chlen) * chlen) by (nonlinear_arith)
            requires
                first == off - off % chlen,
                off == chlen * (off / chlen) + off % chlen,
        ;
    }
    let n: u64 = if end <= first {
        0
    } else {
        (end - first - 1) / chlen + 1
    };
    let ghost s = spec_chunk_offsets(off as int, len as int, chlen as int);
    assert(s.len() == n);
    let mut r: Vec<u64> = Vec::new();
    let mut i: u64 = 0;
    while i < n
        invariant
            chlen > 0,
            i <= n,
            n == chunk_count(first as int, end as int, chlen as int),
            first == chunk_start(off as int, chlen as int),
            end == off + len,
            first <= end || n == 0,
            s == spec_chunk_offsets(off as int, len as int, chlen as int),
            r@.len() == i,
            forall|k: int| 0 <= k < i ==> #[trigger] r@[k] == s[k],
        decreases n - i,
    {
        proof {
            let q = (end - first - 1) / chlen as int;
            assert(i * chlen <= end - first - 1) by (nonlinear_arith)
                requires
                    0 <= i <= q,
                    q == (end - first - 1) / chlen as int,
                    end - first - 1 >= 0,
                    chlen > 0,
            ;
        }
        r.push(first + i * chlen);
        i = i + 1;
    }
    r
}

/// The byte at position `j` of the bytes the chunks of `chlen` bytes hold,
/// counted from the start of the first chunk.
pub open spec fn chunk_byte(chunks: Seq<Vec<u8>>, chlen: int, j: int) -> u8 {
    chunks[j / chlen]@[j % chlen]
}

/// How many bytes the chunks hold: all of them but the last are full.
pub open spec fn chunks_len(chunks: Seq<Vec<u8>>, chlen: int) -> int {
    if chunks.len() == 0 {
        0
    } else {
        (chunks.len() - 1) * chlen + chunks.last()@.len()
    }
}

/// Chunks of `chlen` bytes as a cache hands them out: each full but the
/// last, which may be short where the file ends.
pub open spec fn chunks_wf(chunks: Seq<Vec<u8>>, chlen: int) -> bool {
    &&& chlen > 0
    &&& forall|i: int| 0 <= i < chunks.len() - 1 ==> (#[trigger] chunks[i])@.len() == chlen
    &&& chunks.len() > 0 ==> chunks.last()@.len() <= chlen
}

/// The chunks are those of `content`, of `chlen` bytes each, the first
/// starting at `first`; each starts before the end of `content`, and the
/// last may be cut short by it.
pub open spec fn chunks_of(content: Seq<u8>, first: int, chlen: int, chunks: Seq<Vec<u8>>) -> bool {
    forall|i: int|
        0 <= i < chunks.len() ==> first + i * chlen < content.len() && (#[trigger] chunks[i])@
            == content.subrange(
            first + i * chlen,
            vstd::math::min(first + (i + 1) * chlen, content.len() as int),
        )
}

/// Reading through the chunks gives the bytes of what they were cut from:
/// the byte at position `j` of the chunks is the byte at `first + j` of the
/// content.
pub proof fn lemma_chunks_hold_content(
    content: Seq<u8>,
    first: int,
    chlen: int,
    chunks: Seq<Vec<u8>>,
    j: int,
)
    requires
        chunks_wf(chunks, chlen),
        first >= 0,
        chunks_of(content, first, chlen, chunks),
        0 <= j < chunks_len(chunks, chlen),
    ensures
        chunk_byte(chunks, chlen, j) == content[first + j],
{
    let i = j / chlen;
    let d = j % chlen;
    vstd::arithmetic::div_mod::lemma_fundamental_div_mod(j, chlen);
    assert(0 <= d < chlen);
    assert(i >= 0) by (nonlinear_arith)
        requires
            j >= 0,
            chlen > 0,
            i == j / chlen,
    ;
    assert(j == i * chlen + d) by (nonlinear_arith)
        requires
            j == chlen * (j / chlen) + j % chlen,
            i == j / chlen,
            d == j % chlen,
    ;
    if i >= chunks.len() {
        let n = chunks.len() as int;
        assert(n >= 1);
        assert(chunks.last()@.len() <= chlen);
        assert(chunks_len(chunks, chlen) <= n * chlen) by (nonlinear_arith)
            requires
                chunks_len(chunks, chlen) == (n - 1) * chlen + chunks.last()@.len(),
                chunks.last()@.len() <= chlen,
        ;
        assert(j >= n * chlen) by (nonlinear_arith)
            requires
                j == i * chlen + d,
                i >= n,
                d >= 0,
                chlen > 0,
        ;
        assert(false);
    }
    let start = first + i * chlen;
    let stop = vstd::math::min(first + (i + 1) * chlen, content.len() as int);
    assert(chunks[i]@ == content.subrange(start, stop));
    if d >= chunks[i]@.len() {
        // only the last chunk can be short, and `j` lies within it
        let n = chunks.len() as int;
        if i < n - 1 {
            assert(chunks[i]@.len() == chlen);
        } else {
            assert(i == n - 1);
            assert(chunks_len(chunks, chlen) == i * chlen + chunks[i]@.len());
        }
        assert(false);
    }
    assert((i + 1) * chlen == i * chlen + chlen) by (nonlinear_arith);
}

/// Position `d` within chunk `i` is position `i * chlen + d` of the chunks.
proof fn lemma_chunk_pos(i: int, d: int, chlen: int)
    requires
        chlen > 0,
        i >= 0,
        0 <= d < chlen,
    ensures
        (i * chlen + d) / chlen == i,
        (i * chlen + d) % chlen == d,
{
    vstd::arithmetic::div_mod::lemma_fundamental_div_mod_converse(i * chlen + d, chlen, i, d);
}

/// Copies into `buf` the bytes from position `off` on that the chunks hold,
/// the first chunk starting at `first`; returns how many were copied: as
/// many as `buf` takes, or as the chunks hold from `off` on.
pub fn fill_from_chunks(off: u64, buf: &mut [u8], first: u64, chlen: u64, chunks: &Vec<Vec<u8>>) -> (n: usize)
    requires
        chunks_wf(chunks@, chlen as int),
        first <= off < first + chlen,
        first + chunks@.len() * chlen <= u64::MAX,
    ensures
        final(buf)@.len() == old(buf)@.len(),
        n == vstd::math::min(
            old(buf)@.len() as int,
            vstd::math::max(0, first + chunks_len(chunks@, chlen as int) - off),
        ),
        forall|k: int|
            0 <= k < n ==> #[trigger] final(buf)@[k] == chunk_byte(
                chunks@,
                chlen as int,
                off - first + k,
            ),
        forall|k: int| n <= k < final(buf)@.len() ==> #[trigger] final(buf)@[k] == old(buf)@[k],
{
    let len = buf.len();
    let rel = off - first;
    let mut copied: usize = 0;
    let mut i: usize = 0;
    while i < chunks.len()
        invariant
            chunks_wf(chunks@, chlen as int),
            rel < chlen,
            first + chunks@.len() * chlen <= u64::MAX,
            len == buf@.len(),
            buf@.len() == old(buf)@.len(),
            i <= chunks@.len(),
            copied == vstd::math::min(
                len as int,
                vstd::math::max(0, chunks_len(chunks@.take(i as int), chlen as int) - rel),
            ),
            forall|k: int|
                0 <= k < copied ==> #[trigger] buf@[k] == chunk_byte(
                    chunks@,
                    chlen as int,
                    rel + k,
                ),
            forall|k: int| copied <= k < buf@.len() ==> #[trigger] buf@[k] == old(buf)@[k],
        decreases chunks@.len() - i,
    {
        let ch = &chunks[i];
        let ghost cl = chunks_len(chunks@.take(i as int), chlen as int);
        let ghost cl2 = chunks_len(chunks@.take(i + 1), chlen as int);
        proof {
            assert(chunks@.take(i + 1).last() == ch);
            assert(i * chlen <= chunks@.len() * chlen) by (nonlinear_arith)
                requires
                    i <= chunks@.len(),
            ;
            assert((i - 1) * chlen + chlen == i * chlen) by (nonlinear_arith);
            if i > 0 {
                assert(chunks@.take(i as int).last() == chunks@[i - 1]);
                assert(chunks@[i - 1]@.len() == chlen);
                assert(cl == (i - 1) * chlen + chlen);
            } else {
                assert(cl == 0);
                assert(i * chlen == 0);
            }
            assert(cl == i * chlen);
            assert(cl2 == i * chlen + ch@.len());
        }
        let base = i as u64 * chlen;
        if copied < len {
            // the chunk picks up where the ones before it left off
            let from = rel + copied as u64 - base;
            let room = len - copied;
            if from < ch.len() as u64 {
                let from = from as usize;
                let avail = ch.len() - from;
                let take = if room < avail {
                    room
                } else {
                    avail
                };
                let ghost before = buf@;
                let mut j: usize = 0;
                while j < take
                    invariant
                        j <= take,
                        take <= room,
                        room == len - copied,
                        copied < len,
                        len == buf@.len(),
                        from + take <= ch.len(),
                        buf@.len() == before.len(),
                        forall|k: int|
                            copied <= k < copied + j ==> #[trigger] buf@[k] == ch@[from + (k
                                - copied)],
                        forall|k: int|
                            0 <= k < buf@.len() && !(copied <= k < copied + j) ==> #[trigger] buf@[k]
                                == before[k],
                    decreases take - j,
                {
                    buf[copied + j] = ch[from + j];
                    j = j + 1;
                }
                assert forall|k: int| copied <= k < copied + take implies #[trigger] buf@[k]
                    == chunk_byte(chunks@, chlen as int, rel + k) by {
                    let d = from + (k - copied);
                    lemma_chunk_pos(i as int, d, chlen as int);
                }
                copied = copied + take;
            }
        }
        i = i + 1;
    }
    assert(chunks@.take(chunks@.len() as int) =~= chunks@);
    copied
}

} // verus!
