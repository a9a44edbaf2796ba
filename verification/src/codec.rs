//! The bucket codec: a minute's worth of samples for one series, packed into
//! a single binary blob.
//!
//! A blob starts with an 8-byte little-endian bitmap whose bit `i`
//! (0 <= i <= 59) is set iff a sample exists at second-offset `i` of the
//! bucket.  The remaining bytes are exactly `8 * popcount(bitmap)` slots of
//! 8 bytes each, one per set bit, ordered by ascending offset; the slot at
//! rank `r` holds the raw value bits of the `r`-th smallest set offset.

use vstd::prelude::*;
use vstd::bytes::*;
use vstd::slice::slice_subrange;

use crate::error::DbError;

verus! {

/// Number of second-offsets in one bucket.
pub const SLOTS_PER_BUCKET: u64 = 60;

/// Bit `i` of `bm` is set.
pub open spec fn bit_set(bm: u64, i: u64) -> bool
    recommends
        i < 64,
{
    bm & (1u64 << i) != 0
}

/// How many bits of `bm` at positions strictly below `n` are set.
pub open spec fn count_set_below(bm: u64, n: int) -> nat
    decreases n,
{
    if n <= 0 {
        0
    } else {
        count_set_below(bm, n - 1) + if bit_set(bm, (n - 1) as u64) {
            1nat
        } else {
            0nat
        }
    }
}

/// Number of populated offsets of a bucket bitmap.
pub open spec fn popcount60(bm: u64) -> nat {
    count_set_below(bm, 60)
}

/// The 8-byte little-endian bitmap header of a blob.
pub open spec fn blob_bitmap(b: Seq<u8>) -> u64
    recommends
        b.len() >= 8,
{
    spec_u64_from_le_bytes(b.subrange(0, 8))
}

/// Structural invariant of a bucket blob: no bit beyond offset 59, and the
/// slot area holds exactly one 8-byte slot per set bit.
pub open spec fn blob_ok(b: Seq<u8>) -> bool {
    &&& b.len() >= 8
    &&& blob_bitmap(b) >> 60 == 0
    &&& b.len() == 8 + 8 * popcount60(blob_bitmap(b))
}

/// The slot at rank `r` of a blob.
pub open spec fn slot_at(b: Seq<u8>, r: int) -> u64
    recommends
        0 <= r && 16 + 8 * r <= b.len(),
{
    spec_u64_from_le_bytes(b.subrange(8 + 8 * r, 16 + 8 * r))
}

/// The raw value bits stored for offset `off` (meaningful when bit `off` is
/// set): the slot at the rank of `off`, that is, at the count of set bits
/// strictly below `off`.
pub open spec fn value_at(b: Seq<u8>, off: u64) -> u64 {
    slot_at(b, count_set_below(blob_bitmap(b), off as int) as int)
}

/// The samples a blob holds, as a map from second-offset to raw value bits.
pub open spec fn blob_points(b: Seq<u8>) -> Map<u64, u64> {
    Map::new(|o: u64| o < 60 && bit_set(blob_bitmap(b), o), |o: u64| value_at(b, o))
}

/// An absent or truncated blob reads as an all-zero bitmap with no slots.
pub open spec fn effective_blob(b: Seq<u8>) -> Seq<u8> {
    if b.len() < 8 {
        spec_u64_to_le_bytes(0)
    } else {
        b
    }
}

/// What `encode` produces on a well-formed input blob: the bitmap with bit
/// `off` set, and the slot area with the value written at the rank of `off` —
/// in place if the offset was populated, inserted (shifting the higher ranks
/// one slot right) if it was not.
pub open spec fn spec_encode(b: Seq<u8>, off: u64, value: u64) -> Seq<u8>
    recommends
        blob_ok(b),
        off < 60,
{
    let bm = blob_bitmap(b);
    let r = count_set_below(bm, off as int) as int;
    let head = spec_u64_to_le_bytes(bm | (1u64 << off));
    if bit_set(bm, off) {
        head + b.subrange(8, 8 + 8 * r) + spec_u64_to_le_bytes(value) + b.subrange(
            16 + 8 * r,
            b.len() as int,
        )
    } else {
        head + b.subrange(8, 8 + 8 * r) + spec_u64_to_le_bytes(value) + b.subrange(
            8 + 8 * r,
            b.len() as int,
        )
    }
}

/// The (offset, raw value bits) pairs a blob holds at offsets strictly below
/// `n`, in ascending offset order.
pub open spec fn decoded_below(b: Seq<u8>, n: int) -> Seq<(u64, u64)>
    recommends
        blob_ok(b),
        n <= 60,
    decreases n,
{
    if n <= 0 {
        Seq::empty()
    } else {
        decoded_below(b, n - 1) + if bit_set(blob_bitmap(b), (n - 1) as u64) {
            seq![((n - 1) as u64, value_at(b, (n - 1) as u64))]
        } else {
            Seq::empty()
        }
    }
}

/// The full decoding of a blob: all populated (offset, value bits) pairs,
/// ascending by offset.
pub open spec fn decoded(b: Seq<u8>) -> Seq<(u64, u64)> {
    decoded_below(b, 60)
}

proof fn lemma_bit_or(bm: u64, off: u64, i: u64)
    by (bit_vector)
    requires
        off < 64,
        i < 64,
    ensures
        bit_set(bm | (1u64 << off), i) == (bit_set(bm, i) || i == off),
{
}

proof fn lemma_bit_zero(i: u64)
    by (bit_vector)
    requires
        i < 64,
    ensures
        !bit_set(0u64, i),
{
}

proof fn lemma_count_zero(n: int)
    requires
        n <= 64,
    ensures
        count_set_below(0u64, n) == 0,
    decreases n,
{
    if n > 0 {
        lemma_count_zero(n - 1);
        lemma_bit_zero((n - 1) as u64);
    }
}

/// Setting one bit adds one to the counts above it when it was clear, and
/// changes no count when it was already set.
proof fn lemma_count_or(bm: u64, off: u64, n: int)
    requires
        off < 64,
        n <= 64,
    ensures
        count_set_below(bm | (1u64 << off), n) == count_set_below(bm, n) + if off < n && !bit_set(
            bm,
            off,
        ) {
            1int
        } else {
            0int
        },
    decreases n,
{
    if n > 0 {
        lemma_count_or(bm, off, n - 1);
        lemma_bit_or(bm, off, (n - 1) as u64);
    }
}

proof fn lemma_count_le(bm: u64, n: int)
    requires
        0 <= n,
    ensures
        count_set_below(bm, n) <= n,
    decreases n,
{
    if n > 0 {
        lemma_count_le(bm, n - 1);
    }
}

proof fn lemma_count_monotone(bm: u64, m: int, n: int)
    requires
        m <= n,
    ensures
        count_set_below(bm, m) <= count_set_below(bm, n),
    decreases n - m,
{
    if m < n {
        lemma_count_monotone(bm, m, n - 1);
    }
}

/// A set bit strictly below `n` contributes: its rank is strictly below the
/// count up to `n`.
proof fn lemma_count_rank_lt(bm: u64, off: u64, n: int)
    requires
        bit_set(bm, off),
        (off as int) < n,
    ensures
        count_set_below(bm, off as int) < count_set_below(bm, n),
    decreases n,
{
    if n - 1 == off as int {
    } else {
        lemma_count_rank_lt(bm, off, n - 1);
    }
}

/// An empty bucket: an all-zero bitmap and no slots.
pub open spec fn empty_blob() -> Seq<u8> {
    spec_u64_to_le_bytes(0)
}

/// The blob obtained by encoding each (offset, value) pair of `pairs` in
/// order, starting from `b`.
pub open spec fn encode_all(b: Seq<u8>, pairs: Seq<(u64, u64)>) -> Seq<u8>
    decreases pairs.len(),
{
    if pairs.len() == 0 {
        b
    } else {
        spec_encode(encode_all(b, pairs.drop_last()), pairs.last().0, pairs.last().1)
    }
}

/// The (offset, value) pairs as a map, later pairs overriding earlier ones.
pub open spec fn pairs_map(pairs: Seq<(u64, u64)>) -> Map<u64, u64>
    decreases pairs.len(),
{
    if pairs.len() == 0 {
        Map::empty()
    } else {
        pairs_map(pairs.drop_last()).insert(pairs.last().0, pairs.last().1)
    }
}

/// Encoding preserves the blob invariant and acts on the abstract contents as
/// a map update: every other populated offset keeps its value, offset `off`
/// now holds `value`, and the length grows by one slot exactly when `off` was
/// unpopulated.
pub proof fn lemma_encode_properties(b: Seq<u8>, off: u64, value: u64)
    requires
        blob_ok(b),
        off < 60,
    ensures
        blob_ok(spec_encode(b, off, value)),
        blob_bitmap(spec_encode(b, off, value)) == blob_bitmap(b) | (1u64 << off),
        blob_points(spec_encode(b, off, value)) =~= blob_points(b).insert(off, value),
        spec_encode(b, off, value).len() == if bit_set(blob_bitmap(b), off) {
            b.len()
        } else {
            b.len() + 8
        },
{
    let bm = blob_bitmap(b);
    let nbm = bm | (1u64 << off);
    let r = count_set_below(bm, off as int) as int;
    let e = spec_encode(b, off, value);
    lemma_auto_spec_u64_to_from_le_bytes();
    lemma_count_or(bm, off, 60);
    lemma_count_or(bm, off, off as int);
    lemma_count_le(bm, off as int);
    lemma_count_monotone(bm, off as int, 60);
    if bit_set(bm, off) {
        lemma_count_rank_lt(bm, off, 60);
    }
    assert(e.subrange(0, 8) =~= spec_u64_to_le_bytes(nbm));
    assert(blob_bitmap(e) == nbm);
    assert(nbm >> 60 == 0) by (bit_vector)
        requires
            bm >> 60 == 0,
            off < 60,
            nbm == bm | (1u64 << off),
    ;
    assert forall|o: u64| o < 64 implies bit_set(nbm, o) == (bit_set(bm, o) || o == off) by {
        lemma_bit_or(bm, off, o);
    }
    assert forall|o: u64| o < 60 && bit_set(nbm, o) implies value_at(e, o) == (if o == off {
        value
    } else {
        value_at(b, o)
    }) by {
        lemma_count_or(bm, off, o as int);
        let rb = count_set_below(bm, o as int) as int;
        let re = count_set_below(nbm, o as int) as int;
        if o == off {
            assert(re == r);
            assert(e.subrange(8 + 8 * r, 16 + 8 * r) =~= spec_u64_to_le_bytes(value));
        } else if o < off {
            lemma_count_rank_lt(bm, o, off as int);
            assert(re == rb && rb < r);
            assert(e.subrange(8 + 8 * re, 16 + 8 * re) =~= b.subrange(8 + 8 * rb, 16 + 8 * rb));
        } else {
            lemma_count_rank_lt(bm, o, 60);
            if bit_set(bm, off) {
                lemma_count_rank_lt(bm, off, o as int);
                assert(re == rb && rb > r);
                assert(e.subrange(8 + 8 * re, 16 + 8 * re) =~= b.subrange(
                    8 + 8 * rb,
                    16 + 8 * rb,
                ));
            } else {
                lemma_count_monotone(bm, off as int, o as int);
                assert(re == rb + 1 && rb >= r);
                assert(e.subrange(8 + 8 * re, 16 + 8 * re) =~= b.subrange(
                    8 + 8 * rb,
                    16 + 8 * rb,
                ));
            }
        }
    }
    assert(blob_points(e) =~= blob_points(b).insert(off, value));
}

/// Count the set bits of `bm` at positions strictly below `n`.
fn popcount_below(bm: u64, n: u64) -> (c: u64)
    requires
        n <= 64,
    ensures
        c == count_set_below(bm, n as int),
        c <= n,
{
    let mut c: u64 = 0;
    let mut i: u64 = 0;
    while i < n
        invariant
            i <= n <= 64,
            c == count_set_below(bm, i as int),
            c <= i,
        decreases n - i,
    {
        if bm & (1u64 << i) != 0 {
            c = c + 1;
        }
        i = i + 1;
    }
    c
}

/// Append the bytes `src[from..to]` to `out`.
fn push_range(out: &mut Vec<u8>, src: &Vec<u8>, from: usize, to: usize)
    requires
        from <= to <= src@.len(),
    ensures
        final(out)@ == old(out)@ + src@.subrange(from as int, to as int),
{
    let mut i: usize = from;
    while i < to
        invariant
            from <= i <= to <= src@.len(),
            out@ == old(out)@ + src@.subrange(from as int, i as int),
        decreases to - i,
    {
        out.push(src[i]);
        proof {
            assert(old(out)@ + src@.subrange(from as int, (i + 1) as int) =~= (old(out)@
                + src@.subrange(from as int, i as int)).push(src@[i as int]));
        }
        i = i + 1;
    }
    proof {
        assert(out@ =~= old(out)@ + src@.subrange(from as int, to as int));
    }
}

/// Write `value` at second-offset `offset` into a bucket blob, in place if
/// the offset is populated, inserting a slot otherwise.  An absent or
/// truncated input (fewer than 8 bytes) is treated as an empty bucket; an
/// input of at least 8 bytes whose length does not match its bitmap is
/// rejected as corrupt.
pub fn encode(data: &Vec<u8>, offset: u64, value: u64) -> (r: Result<Vec<u8>, DbError>)
    requires
        offset < 60,
    ensures
        match r {
            Ok(out) => {
                &&& blob_ok(effective_blob(data@))
                &&& out@ == spec_encode(effective_blob(data@), offset, value)
                &&& blob_ok(out@)
                &&& blob_points(out@) =~= blob_points(effective_blob(data@)).insert(
                    offset,
                    value,
                )
            },
            Err(e) => e == DbError::CorruptData && data@.len() >= 8 && !blob_ok(data@),
        },
{
    let short = data.len() < 8;
    let bm: u64 = if short {
        0
    } else {
        u64_from_le_bytes(slice_subrange(data.as_slice(), 0, 8))
    };
    let ghost eff = effective_blob(data@);
    proof {
        lemma_auto_spec_u64_to_from_le_bytes();
        if short {
            assert(eff.subrange(0, 8) =~= spec_u64_to_le_bytes(0u64));
            assert(0u64 >> 60 == 0) by (bit_vector);
            lemma_count_zero(60);
        } else {
            assert(eff.subrange(0, 8) == data@.subrange(0, 8));
        }
        assert(blob_bitmap(eff) == bm);
    }
    if bm >> 60 != 0 {
        return Err(DbError::CorruptData);
    }
    let pc = popcount_below(bm, 60);
    if !short && data.len() != 8 + 8 * (pc as usize) {
        return Err(DbError::CorruptData);
    }
    assert(blob_ok(eff));
    let rank = popcount_below(bm, offset);
    proof {
        lemma_count_le(bm, offset as int);
        lemma_count_monotone(bm, offset as int, 60);
        if bit_set(bm, offset) {
            lemma_count_rank_lt(bm, offset, 60);
        }
    }
    let rank_us = rank as usize;
    let occupied = bm & (1u64 << offset) != 0;
    let nbm = bm | (1u64 << offset);
    let mut out = u64_to_le_bytes(nbm);
    if !short {
        push_range(&mut out, data, 8, 8 + 8 * rank_us);
    }
    let vb = u64_to_le_bytes(value);
    push_range(&mut out, &vb, 0, 8);
    if !short {
        if occupied {
            push_range(&mut out, data, 16 + 8 * rank_us, data.len());
        } else {
            push_range(&mut out, data, 8 + 8 * rank_us, data.len());
        }
    }
    proof {
        assert(vb@.subrange(0, 8) =~= spec_u64_to_le_bytes(value));
        if short {
            assert(eff.subrange(8, 8) =~= Seq::<u8>::empty());
        }
        assert(out@ =~= spec_encode(eff, offset, value));
        lemma_encode_properties(eff, offset, value);
    }
    Ok(out)
}

/// Decode a bucket blob into its (second-offset, raw value bits) pairs in
/// ascending offset order.  An absent or truncated input decodes as an empty
/// bucket; an input of at least 8 bytes whose length does not match its
/// bitmap is rejected as corrupt.
pub fn decode(data: &Vec<u8>) -> (r: Result<Vec<(u64, u64)>, DbError>)
    ensures
        match r {
            Ok(pts) => blob_ok(effective_blob(data@)) && pts@ == decoded(effective_blob(data@)),
            Err(e) => e == DbError::CorruptData && data@.len() >= 8 && !blob_ok(data@),
        },
{
    let short = data.len() < 8;
    let bm: u64 = if short {
        0
    } else {
        u64_from_le_bytes(slice_subrange(data.as_slice(), 0, 8))
    };
    let ghost eff = effective_blob(data@);
    proof {
        lemma_auto_spec_u64_to_from_le_bytes();
        if short {
            assert(eff.subrange(0, 8) =~= spec_u64_to_le_bytes(0u64));
            assert(0u64 >> 60 == 0) by (bit_vector);
            lemma_count_zero(60);
        } else {
            assert(eff.subrange(0, 8) == data@.subrange(0, 8));
        }
        assert(blob_bitmap(eff) == bm);
    }
    if bm >> 60 != 0 {
        return Err(DbError::CorruptData);
    }
    let pc = popcount_below(bm, 60);
    if !short && data.len() != 8 + 8 * (pc as usize) {
        return Err(DbError::CorruptData);
    }
    assert(blob_ok(eff));
    let mut pts: Vec<(u64, u64)> = Vec::new();
    let mut rank: usize = 0;
    let mut i: u64 = 0;
    while i < 60
        invariant
            i <= 60,
            blob_ok(eff),
            blob_bitmap(eff) == bm,
            eff == effective_blob(data@),
            !short ==> eff == data@,
            short ==> bm == 0,
            rank <= i,
            rank == count_set_below(bm, i as int),
            pts@ == decoded_below(eff, i as int),
            pts@.len() == rank,
        decreases 60 - i,
    {
        let ghost prev = pts@;
        if bm & (1u64 << i) != 0 {
            proof {
                if short {
                    lemma_bit_zero(i);
                }
                lemma_count_rank_lt(bm, i, 60);
                assert(16 + 8 * (rank as int) <= data@.len());
            }
            let v = u64_from_le_bytes(slice_subrange(data.as_slice(), 8 + 8 * rank, 16 + 8 * rank));
            pts.push((i, v));
            proof {
                assert(data@.subrange(8 + 8 * rank as int, 16 + 8 * rank as int) == eff.subrange(
                    8 + 8 * rank as int,
                    16 + 8 * rank as int,
                ));
                assert(v == value_at(eff, i));
                assert(pts@ =~= decoded_below(eff, (i + 1) as int));
            }
            rank = rank + 1;
        } else {
            proof {
                assert(decoded_below(eff, (i + 1) as int) =~= decoded_below(eff, i as int));
            }
        }
        i = i + 1;
    }
    Ok(pts)
}

#[verifier::rlimit(60)]
proof fn lemma_decoded_below_props(b: Seq<u8>, n: int)
    requires
        blob_ok(b),
        0 <= n <= 60,
    ensures
        decoded_below(b, n).len() == count_set_below(blob_bitmap(b), n),
        forall|k: int|
            0 <= k < decoded_below(b, n).len() ==> (#[trigger] decoded_below(b, n)[k]).0 < n
                && bit_set(blob_bitmap(b), decoded_below(b, n)[k].0) && decoded_below(b, n)[k].1
                == value_at(b, decoded_below(b, n)[k].0) && count_set_below(
                blob_bitmap(b),
                decoded_below(b, n)[k].0 as int,
            ) == k,
        forall|o: u64|
            o < n && #[trigger] bit_set(blob_bitmap(b), o) ==> decoded_below(b, n)[count_set_below(
                blob_bitmap(b),
                o as int,
            ) as int] == (o, value_at(b, o)),
    decreases n,
{
    if n > 0 {
        lemma_decoded_below_props(b, n - 1);
        let bm = blob_bitmap(b);
        let prev = decoded_below(b, n - 1);
        let cur = decoded_below(b, n);
        if bit_set(bm, (n - 1) as u64) {
            assert(cur == prev + seq![(((n - 1) as u64), value_at(b, (n - 1) as u64))]);
            assert(cur[prev.len() as int] == (((n - 1) as u64), value_at(b, (n - 1) as u64)));
            assert forall|k: int|
                0 <= k < cur.len() implies (#[trigger] cur[k]).0 < n && bit_set(bm, cur[k].0)
                && cur[k].1 == value_at(b, cur[k].0) && count_set_below(bm, cur[k].0 as int)
                == k by {
                if k < prev.len() {
                    assert(cur[k] == prev[k]);
                }
            }
            assert forall|o: u64|
                o < n && #[trigger] bit_set(bm, o) implies cur[count_set_below(
                bm,
                o as int,
            ) as int] == (o, value_at(b, o)) by {
                if o < n - 1 {
                    lemma_count_rank_lt(bm, o, n - 1);
                    let r = count_set_below(bm, o as int) as int;
                    assert(cur[r] == prev[r]);
                }
            }
        } else {
            assert(cur =~= prev);
            assert forall|o: u64|
                o < n && #[trigger] bit_set(bm, o) implies cur[count_set_below(
                bm,
                o as int,
            ) as int] == (o, value_at(b, o)) by {
                assert(o != n - 1);
            }
        }
    }
}

/// Whatever the blob holds, the pairs `decoded_below` lists carry offsets
/// strictly below `n`, in strictly ascending order.
pub proof fn lemma_decoded_ascending(b: Seq<u8>, n: int)
    requires
        0 <= n <= 60,
    ensures
        forall|k: int| 0 <= k < decoded_below(b, n).len() ==> (#[trigger] decoded_below(b, n)[k]).0 < n,
        forall|i: int, j: int|
            0 <= i < j < decoded_below(b, n).len() ==> (#[trigger] decoded_below(b, n)[i]).0 < (
            #[trigger] decoded_below(b, n)[j]).0,
    decreases n,
{
    if n > 0 {
        lemma_decoded_ascending(b, n - 1);
        let prev = decoded_below(b, n - 1);
        let cur = decoded_below(b, n);
        if bit_set(blob_bitmap(b), (n - 1) as u64) {
            assert(forall|k: int| 0 <= k < prev.len() ==> cur[k] == prev[k]);
            assert(cur[prev.len() as int].0 == n - 1);
        } else {
            assert(cur =~= prev);
        }
    }
}

/// What a decode lists, exactly: one entry per populated offset, carrying
/// that offset's stored value, in strictly ascending offset order, with the
/// entry of offset `o` standing at index `rank(o)`.
pub proof fn lemma_decode_exact(b: Seq<u8>)
    requires
        blob_ok(b),
    ensures
        decoded(b).len() == popcount60(blob_bitmap(b)),
        forall|k: int|
            0 <= k < decoded(b).len() ==> blob_points(b).contains_pair(
                (#[trigger] decoded(b)[k]).0,
                decoded(b)[k].1,
            ),
        forall|i: int, j: int|
            0 <= i < j < decoded(b).len() ==> (#[trigger] decoded(b)[i]).0 < (
            #[trigger] decoded(b)[j]).0,
        forall|o: u64|
            #[trigger] blob_points(b).dom().contains(o) ==> count_set_below(blob_bitmap(b), o as int)
                < decoded(b).len() && decoded(b)[count_set_below(blob_bitmap(b), o as int) as int]
                == (o, blob_points(b)[o]),
{
    let bm = blob_bitmap(b);
    lemma_decoded_below_props(b, 60);
    assert forall|i: int, j: int| 0 <= i < j < decoded(b).len() implies (
    #[trigger] decoded(b)[i]).0 < (#[trigger] decoded(b)[j]).0 by {
        if decoded(b)[i].0 >= decoded(b)[j].0 {
            lemma_count_monotone(bm, decoded(b)[j].0 as int, decoded(b)[i].0 as int);
        }
    }
    assert forall|o: u64| #[trigger] blob_points(b).dom().contains(o) implies count_set_below(
        bm,
        o as int,
    ) < decoded(b).len() && decoded(b)[count_set_below(bm, o as int) as int] == (
    o,
    blob_points(b)[o],
    ) by {
        lemma_count_rank_lt(bm, o, 60);
    }
}

proof fn lemma_pairs_map_distinct(pairs: Seq<(u64, u64)>)
    requires
        forall|i: int, j: int| 0 <= i < j < pairs.len() ==> pairs[i].0 != pairs[j].0,
    ensures
        forall|i: int|
            0 <= i < pairs.len() ==> pairs_map(pairs).contains_pair(
                (#[trigger] pairs[i]).0,
                pairs[i].1,
            ),
        forall|o: u64|
            pairs_map(pairs).dom().contains(o) ==> exists|i: int|
                0 <= i < pairs.len() && (#[trigger] pairs[i]).0 == o,
    decreases pairs.len(),
{
    if pairs.len() > 0 {
        lemma_pairs_map_distinct(pairs.drop_last());
        assert forall|i: int| 0 <= i < pairs.len() implies pairs_map(pairs).contains_pair(
            (#[trigger] pairs[i]).0,
            pairs[i].1,
        ) by {
            if i < pairs.len() - 1 {
                assert(pairs.drop_last()[i] == pairs[i]);
                assert(pairs[i].0 != pairs.last().0);
            }
        }
        assert forall|o: u64| pairs_map(pairs).dom().contains(o) implies exists|i: int|
            0 <= i < pairs.len() && (#[trigger] pairs[i]).0 == o by {
            if o == pairs.last().0 {
                assert(pairs[pairs.len() - 1].0 == o);
            } else {
                assert(pairs_map(pairs.drop_last()).dom().contains(o));
                let i = choose|i: int|
                    0 <= i < pairs.drop_last().len() && (#[trigger] pairs.drop_last()[i]).0 == o;
                assert(pairs.drop_last()[i] == pairs[i]);
                assert(pairs[i].0 == o);
            }
        }
    }
}

/// Round-trip law: any set of (offset, value) pairs with distinct offsets in
/// [0, 60), applied through `encode` in any order to an empty bucket, yields
/// a well-formed blob whose contents are exactly those pairs; by
/// `lemma_decode_exact`, decoding lists them sorted ascending by offset.
pub proof fn lemma_codec_round_trip(pairs: Seq<(u64, u64)>)
    requires
        forall|i: int| 0 <= i < pairs.len() ==> (#[trigger] pairs[i]).0 < 60,
        forall|i: int, j: int| 0 <= i < j < pairs.len() ==> pairs[i].0 != pairs[j].0,
    ensures
        blob_ok(encode_all(empty_blob(), pairs)),
        blob_points(encode_all(empty_blob(), pairs)) =~= pairs_map(pairs),
        forall|i: int|
            0 <= i < pairs.len() ==> pairs_map(pairs).contains_pair(
                (#[trigger] pairs[i]).0,
                pairs[i].1,
            ),
        forall|o: u64|
            pairs_map(pairs).dom().contains(o) ==> exists|i: int|
                0 <= i < pairs.len() && (#[trigger] pairs[i]).0 == o,
    decreases pairs.len(),
{
    lemma_pairs_map_distinct(pairs);
    if pairs.len() == 0 {
        lemma_auto_spec_u64_to_from_le_bytes();
        assert(empty_blob().subrange(0, 8) =~= spec_u64_to_le_bytes(0u64));
        assert(0u64 >> 60 == 0) by (bit_vector);
        lemma_count_zero(60);
        assert forall|o: u64| !(o < 60 && bit_set(0u64, o)) by {
            if o < 60 {
                lemma_bit_zero(o);
            }
        }
        assert(blob_points(empty_blob()) =~= pairs_map(pairs));
    } else {
        lemma_codec_round_trip(pairs.drop_last());
        lemma_encode_properties(
            encode_all(empty_blob(), pairs.drop_last()),
            pairs.last().0,
            pairs.last().1,
        );
    }
}

/// Overwrite idempotence law: encoding the same offset twice keeps the
/// bitmap, the popcount and the length unchanged on the second write, and the
/// decoded contents hold one entry at that offset, carrying the latest value.
pub proof fn lemma_overwrite_idempotent(b: Seq<u8>, off: u64, v1: u64, v2: u64)
    requires
        blob_ok(b),
        off < 60,
    ensures
        blob_bitmap(spec_encode(spec_encode(b, off, v1), off, v2)) == blob_bitmap(
            spec_encode(b, off, v1),
        ),
        popcount60(blob_bitmap(spec_encode(spec_encode(b, off, v1), off, v2))) == popcount60(
            blob_bitmap(spec_encode(b, off, v1)),
        ),
        spec_encode(spec_encode(b, off, v1), off, v2).len() == spec_encode(b, off, v1).len(),
        blob_points(spec_encode(spec_encode(b, off, v1), off, v2)) =~= blob_points(b).insert(
            off,
            v2,
        ),
{
    let bm = blob_bitmap(b);
    lemma_encode_properties(b, off, v1);
    let b1 = spec_encode(b, off, v1);
    lemma_encode_properties(b1, off, v2);
    assert((bm | (1u64 << off)) | (1u64 << off) == bm | (1u64 << off)) by (bit_vector);
    lemma_bit_or(bm, off, off);
    assert(bit_set(blob_bitmap(b1), off));
    assert(blob_points(spec_encode(b1, off, v2)) =~= blob_points(b).insert(off, v2));
}

/// Length invariant law: every blob `encode` produces is exactly one 8-byte
/// bitmap followed by one 8-byte slot per set bitmap bit.
pub proof fn lemma_length_invariant(b: Seq<u8>, off: u64, value: u64)
    requires
        blob_ok(b),
        off < 60,
    ensures
        spec_encode(b, off, value).len() == 8 + 8 * popcount60(
            blob_bitmap(spec_encode(b, off, value)),
        ),
{
    lemma_encode_properties(b, off, value);
}

} // verus!
