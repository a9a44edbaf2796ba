//! The store and the time-series engine.
//!
//! The store is a flat key-value table: an in-memory append-only log of
//! (key, value) writes, where a lookup returns the most recent write.  On
//! top of it sit the metric registry (series key -> stable numeric id, with
//! a persisted maximum-id sentinel) and the engine (datapoint writes,
//! bucket reads, range reads).

use vstd::prelude::*;
use vstd::bytes::*;
use vstd::slice::slice_to_vec;
use vstd::string::StrSliceExecFns;
use vstd::string::StringExecFns;

use crate::codec;
use crate::codec::blob_bitmap;
use crate::codec::blob_ok;
use crate::codec::blob_points;
use crate::codec::count_set_below;
use crate::codec::decoded;
use crate::codec::effective_blob;
use crate::codec::spec_encode;
use crate::datapoint::Datapoint;
use crate::datapoint::spec_join_tags;
use crate::datapoint::spec_series_key;
use crate::error::DbError;
use crate::text::is_digit_char;
use crate::text::lemma_dec_digits;
use crate::text::lemma_dec_injective;
use crate::text::spec_u64_to_dec;
use crate::text::str_eq;
use crate::text::u64_to_string;

verus! {

pub const SECS_IN_MINUTE: u64 = 60;

/// The reserved store key under which the largest allocated metric id is
/// persisted.  It cannot collide with a bucket key (those begin with a
/// digit), and the registry is only handed canonical series keys.
pub open spec fn spec_max_metric_id_key() -> Seq<char> {
    "###INTERNAL_MAX_METRIC"@
}

/// The reserved sentinel key (see `spec_max_metric_id_key`).
pub fn max_metric_id_key() -> (r: &'static str)
    ensures
        r@ == spec_max_metric_id_key(),
{
    "###INTERNAL_MAX_METRIC"
}

/// The abstract contents of the write log: later writes override earlier
/// ones.
pub open spec fn entries_map(s: Seq<(String, Vec<u8>)>) -> Map<Seq<char>, Seq<u8>>
    decreases s.len(),
{
    if s.len() == 0 {
        Map::empty()
    } else {
        entries_map(s.drop_last()).insert(s.last().0@, s.last().1@)
    }
}

/// The embedded store and engine.
pub struct Database {
    entries: Vec<(String, Vec<u8>)>,
}

impl View for Database {
    type V = Map<Seq<char>, Seq<u8>>;

    closed spec fn view(&self) -> Map<Seq<char>, Seq<u8>> {
        entries_map(self.entries@)
    }
}

#[verifier::rlimit(100)]
proof fn lemma_entries_map_lookup(s: Seq<(String, Vec<u8>)>, k: Seq<char>)
    ensures
        entries_map(s).contains_key(k) <==> exists|i: int|
            0 <= i < s.len() && (#[trigger] s[i]).0@ == k,
        forall|i: int|
            0 <= i < s.len() && (#[trigger] s[i]).0@ == k && (forall|j: int|
                i < j < s.len() ==> (#[trigger] s[j]).0@ != k) ==> entries_map(s)[k] == s[i].1@,
    decreases s.len(),
{
    if s.len() > 0 {
        lemma_entries_map_lookup(s.drop_last(), k);
        assert((exists|i: int| 0 <= i < s.len() && (#[trigger] s[i]).0@ == k)
            ==> entries_map(s).contains_key(k)) by {
            if exists|i: int| 0 <= i < s.len() && (#[trigger] s[i]).0@ == k {
                let i = choose|i: int| 0 <= i < s.len() && (#[trigger] s[i]).0@ == k;
                if i < s.len() - 1 {
                    assert(s.drop_last()[i].0@ == k);
                }
            }
        }
        if s.last().0@ == k {
            assert(s[s.len() - 1].0@ == k);
        } else {
            assert(entries_map(s).contains_key(k) ==> exists|i: int|
                0 <= i < s.len() && (#[trigger] s[i]).0@ == k) by {
                if entries_map(s).contains_key(k) {
                    let i = choose|i: int|
                        0 <= i < s.drop_last().len() && (#[trigger] s.drop_last()[i]).0@ == k;
                    assert(s[i].0@ == k);
                }
            }
            assert forall|i: int|
                0 <= i < s.len() && (#[trigger] s[i]).0@ == k && (forall|j: int|
                    i < j < s.len() ==> (#[trigger] s[j]).0@ != k) implies entries_map(s)[k]
                == s[i].1@ by {
                assert(i < s.len() - 1);
                assert(s.drop_last()[i] == s[i]);
                assert forall|j: int|
                    i < j < s.drop_last().len() implies (#[trigger] s.drop_last()[j]).0@ != k by {
                    assert(s.drop_last()[j] == s[j]);
                }
            }
        }
    }
}

impl Database {
    /// A fresh, empty store.
    pub fn new() -> (db: Database)
        ensures
            db@ == Map::<Seq<char>, Seq<u8>>::empty(),
    {
        Database { entries: Vec::new() }
    }

    /// Write `val` under `key`.
    pub fn put(&mut self, key: &str, val: &[u8]) -> (r: Result<(), DbError>)
        ensures
            r is Ok,
            final(self)@ == old(self)@.insert(key@, val@),
    {
        let k = key.to_owned();
        let v = slice_to_vec(val);
        self.entries.push((k, v));
        proof {
            assert(self.entries@.drop_last() =~= old(self).entries@);
        }
        Ok(())
    }

    /// Look up the most recent value written under `key`.
    fn get_raw(&self, key: &str) -> (r: Option<Vec<u8>>)
        ensures
            match r {
                Some(v) => self@.contains_key(key@) && v@ == self@[key@],
                None => !self@.contains_key(key@),
            },
    {
        let mut i: usize = self.entries.len();
        while i > 0
            invariant
                i <= self.entries@.len(),
                forall|j: int| i <= j < self.entries@.len() ==> (#[trigger] self.entries@[j]).0@
                    != key@,
            decreases i,
        {
            i = i - 1;
            if str_eq(self.entries[i].0.as_str(), key) {
                proof {
                    lemma_entries_map_lookup(self.entries@, key@);
                }
                return Some(slice_to_vec(self.entries[i].1.as_slice()));
            }
        }
        proof {
            lemma_entries_map_lookup(self.entries@, key@);
        }
        None
    }

    /// Read `key`, an absent key yielding an empty byte string.
    pub fn get(&self, key: &str) -> (r: Result<Vec<u8>, DbError>)
        ensures
            match r {
                Ok(v) => v@ == if self@.contains_key(key@) {
                    self@[key@]
                } else {
                    Seq::<u8>::empty()
                },
                Err(_) => false,
            },
    {
        match self.get_raw(key) {
            Some(v) => Ok(v),
            None => Ok(Vec::new()),
        }
    }

    /// Look up the id stored under `key`; read-only, never allocates.
    pub fn get_id(&self, key: &str) -> (r: Result<Option<u64>, DbError>)
        ensures
            match r {
                Ok(Some(id)) => self@.contains_key(key@) && self@[key@].len() == 8 && id
                    == spec_stored_id(self@, key@),
                Ok(None) => !self@.contains_key(key@),
                Err(e) => e == DbError::CorruptData && self@.contains_key(key@)
                    && self@[key@].len() != 8,
            },
    {
        match self.get_raw(key) {
            Some(v) => {
                if v.len() != 8 {
                    Err(DbError::CorruptData)
                } else {
                    Ok(Some(u64_from_le_bytes(v.as_slice())))
                }
            },
            None => Ok(None),
        }
    }

    /// The largest allocated id, 0 before any allocation.
    pub fn get_max_metric_id(&self) -> (r: Result<u64, DbError>)
        ensures
            match r {
                Ok(id) => (self@.contains_key(spec_max_metric_id_key())
                    ==> self@[spec_max_metric_id_key()].len() == 8) && id == spec_max_id(self@),
                Err(e) => e == DbError::CorruptData && self@.contains_key(spec_max_metric_id_key())
                    && self@[spec_max_metric_id_key()].len() != 8,
            },
    {
        match self.get_id(max_metric_id_key()) {
            Ok(Some(id)) => Ok(id),
            Ok(None) => Ok(0),
            Err(e) => Err(e),
        }
    }

    /// Resolve `key` to its id, allocating the next id and persisting both
    /// the mapping and the new maximum when the key is new.
    pub fn get_id_or_register(&mut self, key: &str) -> (r: Result<u64, DbError>)
        ensures
            match r {
                Ok(id) => reg_ok(old(self)@, key@) && id == reg_id(old(self)@, key@)
                    && final(self)@ == reg_map(old(self)@, key@),
                Err(e) => e == DbError::CorruptData && !reg_ok(old(self)@, key@) && final(self)@
                    == old(self)@,
            },
    {
        match self.get_id(key) {
            Err(e) => Err(e),
            Ok(Some(id)) => Ok(id),
            Ok(None) => {
                let max = match self.get_max_metric_id() {
                    Ok(m) => m,
                    Err(e) => {
                        return Err(e);
                    },
                };
                if max == u64::MAX {
                    return Err(DbError::CorruptData);
                }
                let id = max + 1;
                let bytes = u64_to_le_bytes(id);
                let _ = self.put(key, bytes.as_slice());
                let _ = self.put(max_metric_id_key(), bytes.as_slice());
                Ok(id)
            },
        }
    }
}

/// The id stored in an 8-byte cell of the store.
pub open spec fn spec_stored_id(m: Map<Seq<char>, Seq<u8>>, k: Seq<char>) -> u64 {
    spec_u64_from_le_bytes(m[k])
}

/// The largest allocated id recorded in `m`, 0 before any allocation.
pub open spec fn spec_max_id(m: Map<Seq<char>, Seq<u8>>) -> u64 {
    if m.contains_key(spec_max_metric_id_key()) {
        spec_stored_id(m, spec_max_metric_id_key())
    } else {
        0
    }
}

/// Whether resolve-or-create succeeds on store `m` and key `k`: the cells it
/// reads are 8 bytes and the id space is not exhausted.
pub open spec fn reg_ok(m: Map<Seq<char>, Seq<u8>>, k: Seq<char>) -> bool {
    if m.contains_key(k) {
        m[k].len() == 8
    } else {
        (m.contains_key(spec_max_metric_id_key()) ==> m[spec_max_metric_id_key()].len() == 8)
            && spec_max_id(m) < u64::MAX
    }
}

/// The id resolve-or-create returns: the stored one, or the next free one.
pub open spec fn reg_id(m: Map<Seq<char>, Seq<u8>>, k: Seq<char>) -> u64
    recommends
        reg_ok(m, k),
{
    if m.contains_key(k) {
        spec_stored_id(m, k)
    } else {
        (spec_max_id(m) + 1) as u64
    }
}

/// The store resolve-or-create leaves behind.
pub open spec fn reg_map(m: Map<Seq<char>, Seq<u8>>, k: Seq<char>) -> Map<Seq<char>, Seq<u8>> {
    if m.contains_key(k) {
        m
    } else {
        m.insert(k, spec_u64_to_le_bytes(reg_id(m, k))).insert(
            spec_max_metric_id_key(),
            spec_u64_to_le_bytes(reg_id(m, k)),
        )
    }
}

/// The store key of the bucket starting at `bucket` for series `id`:
/// `"<bucket>##<id>"`, both in decimal.
pub open spec fn spec_bucket_key(bucket: u64, id: u64) -> Seq<char> {
    spec_u64_to_dec(bucket) + seq!['#', '#'] + spec_u64_to_dec(id)
}

/// The blob a datapoint write at time `t` reads and re-encodes: the bucket
/// cell of the resolved id, after any registration, an absent cell reading
/// as empty.
pub open spec fn spec_put_blob(m: Map<Seq<char>, Seq<u8>>, k: Seq<char>, t: u64) -> Seq<u8> {
    let m1 = reg_map(m, k);
    let bkey = spec_bucket_key(((t / 60) * 60) as u64, reg_id(m, k));
    if m1.contains_key(bkey) {
        m1[bkey]
    } else {
        Seq::<u8>::empty()
    }
}

/// Whether a datapoint write at time `t` succeeds on store `m`.
pub open spec fn spec_put_ok(m: Map<Seq<char>, Seq<u8>>, k: Seq<char>, t: u64) -> bool {
    reg_ok(m, k) && blob_ok(effective_blob(spec_put_blob(m, k, t)))
}

/// The store a datapoint write leaves behind: after any registration, the
/// bucket cell of `t`'s minute holds the re-encoded blob.
pub open spec fn spec_put_map(m: Map<Seq<char>, Seq<u8>>, k: Seq<char>, t: u64, v: u64) -> Map<
    Seq<char>,
    Seq<u8>,
> {
    reg_map(m, k).insert(
        spec_bucket_key(((t / 60) * 60) as u64, reg_id(m, k)),
        spec_encode(effective_blob(spec_put_blob(m, k, t)), t % 60, v),
    )
}

fn bucket_key(bucket: u64, id: u64) -> (r: String)
    ensures
        r@ == spec_bucket_key(bucket, id),
{
    let mut s = u64_to_string(bucket);
    s.append("##");
    let ids = u64_to_string(id);
    s.append(ids.as_str());
    proof {
        reveal_strlit("##");
        assert("##"@ =~= seq!['#', '#']);
        assert(s@ =~= spec_bucket_key(bucket, id));
    }
    s
}

/// Bucket keys are injective: distinct (bucket, id) pairs always address
/// distinct store cells.
pub proof fn lemma_bucket_key_injective(b1: u64, i1: u64, b2: u64, i2: u64)
    requires
        spec_bucket_key(b1, i1) == spec_bucket_key(b2, i2),
    ensures
        b1 == b2,
        i1 == i2,
{
    let d1 = spec_u64_to_dec(b1);
    let d2 = spec_u64_to_dec(b2);
    lemma_dec_digits(b1);
    lemma_dec_digits(b2);
    lemma_dec_digits(i1);
    lemma_dec_digits(i2);
    if d1.len() == d2.len() {
        assert(d1 =~= d2) by {
            assert forall|j: int| 0 <= j < d1.len() implies d1[j] == d2[j] by {
                assert(spec_bucket_key(b1, i1)[j] == d1[j]);
                assert(spec_bucket_key(b2, i2)[j] == d2[j]);
            }
        }
        lemma_dec_injective(b1, b2);
        assert(spec_bucket_key(b1, i1).len() == d1.len() + 2 + spec_u64_to_dec(i1).len());
        assert(spec_bucket_key(b2, i2).len() == d2.len() + 2 + spec_u64_to_dec(i2).len());
        assert(spec_u64_to_dec(i1).len() == spec_u64_to_dec(i2).len());
        assert(spec_u64_to_dec(i1) =~= spec_u64_to_dec(i2)) by {
            assert forall|j: int| 0 <= j < spec_u64_to_dec(i1).len() implies spec_u64_to_dec(i1)[j]
                == spec_u64_to_dec(i2)[j] by {
                assert(spec_bucket_key(b1, i1)[d1.len() + 2 + j] == spec_u64_to_dec(i1)[j]);
                assert(spec_bucket_key(b2, i2)[d2.len() + 2 + j] == spec_u64_to_dec(i2)[j]);
            }
        }
        lemma_dec_injective(i1, i2);
    } else if d1.len() < d2.len() {
        assert(spec_bucket_key(b1, i1)[d1.len() as int] == '#');
        assert(spec_bucket_key(b2, i2)[d1.len() as int] == d2[d1.len() as int]);
        assert(is_digit_char(d2[d1.len() as int]));
        assert(false);
    } else {
        assert(spec_bucket_key(b2, i2)[d2.len() as int] == '#');
        assert(spec_bucket_key(b1, i1)[d2.len() as int] == d1[d2.len() as int]);
        assert(is_digit_char(d1[d2.len() as int]));
        assert(false);
    }
}

/// The bytes of an optional blob, an absent one reading as empty.
pub open spec fn opt_bytes(input: Option<Vec<u8>>) -> Seq<u8> {
    match input {
        Some(v) => v@,
        None => Seq::empty(),
    }
}

/// The blob stored for the series of key `k` in the bucket starting at `t`.
pub open spec fn spec_bucket_blob(m: Map<Seq<char>, Seq<u8>>, k: Seq<char>, t: u64) -> Seq<u8> {
    if m.contains_key(spec_bucket_key(t, spec_stored_id(m, k))) {
        m[spec_bucket_key(t, spec_stored_id(m, k))]
    } else {
        Seq::empty()
    }
}

/// Whether a single-bucket read of series `k` at bucket `t` succeeds: the
/// series is unknown, or its id cell is 8 bytes and the bucket blob (absent
/// reading as empty) is well formed.
pub open spec fn bucket_query_ok(m: Map<Seq<char>, Seq<u8>>, k: Seq<char>, t: u64) -> bool {
    !m.contains_key(k) || (m[k].len() == 8 && blob_ok(effective_blob(spec_bucket_blob(m, k, t))))
}

/// The (time, raw value bits) pairs a single-bucket read returns, in
/// ascending time order.
pub open spec fn spec_bucket_points(m: Map<Seq<char>, Seq<u8>>, k: Seq<char>, t: u64) -> Seq<
    (u64, u64),
> {
    if !m.contains_key(k) {
        Seq::empty()
    } else {
        decoded(effective_blob(spec_bucket_blob(m, k, t))).map_values(
            |p: (u64, u64)| (((t + p.0) as u64), p.1),
        )
    }
}

/// The subsequence of (time, value) pairs whose times lie in [start, end].
pub open spec fn filter_range(s: Seq<(u64, u64)>, start: u64, end: u64) -> Seq<(u64, u64)>
    decreases s.len(),
{
    if s.len() == 0 {
        Seq::empty()
    } else {
        filter_range(s.drop_last(), start, end) + if start <= s.last().0 && s.last().0 <= end {
            seq![s.last()]
        } else {
            Seq::empty()
        }
    }
}

/// Whether a range read over the buckets from `cur` up to `end` succeeds:
/// every visited bucket start fits the offset arithmetic and reads cleanly.
pub open spec fn range_ok(m: Map<Seq<char>, Seq<u8>>, k: Seq<char>, cur: int, end: u64) -> bool
    decreases end - cur,
{
    if cur >= end {
        true
    } else {
        &&& cur <= u64::MAX - 59
        &&& bucket_query_ok(m, k, cur as u64)
        &&& (cur + 60 < end ==> range_ok(m, k, cur + 60, end))
    }
}

/// The (time, raw value bits) pairs a range read returns: the buckets from
/// `cur` in ascending order, each filtered to [start, end].
pub open spec fn spec_range_points(
    m: Map<Seq<char>, Seq<u8>>,
    k: Seq<char>,
    cur: int,
    start: u64,
    end: u64,
) -> Seq<(u64, u64)>
    decreases end - cur,
{
    if cur >= end {
        Seq::empty()
    } else {
        filter_range(spec_bucket_points(m, k, cur as u64), start, end) + if cur + 60 < end {
            spec_range_points(m, k, cur + 60, start, end)
        } else {
            Seq::empty()
        }
    }
}

proof fn lemma_filter_range_props(s: Seq<(u64, u64)>, start: u64, end: u64)
    requires
        forall|i: int, j: int| 0 <= i < j < s.len() ==> (#[trigger] s[i]).0 <= (#[trigger] s[j]).0,
    ensures
        forall|i: int|
            0 <= i < filter_range(s, start, end).len() ==> start <= (#[trigger] filter_range(
                s,
                start,
                end,
            )[i]).0 <= end,
        forall|i: int|
            0 <= i < filter_range(s, start, end).len() ==> exists|q: int|
                0 <= q < s.len() && s[q] == (#[trigger] filter_range(s, start, end)[i]),
        forall|i: int, j: int|
            0 <= i < j < filter_range(s, start, end).len() ==> (#[trigger] filter_range(
                s,
                start,
                end,
            )[i]).0 <= (#[trigger] filter_range(s, start, end)[j]).0,
    decreases s.len(),
{
    if s.len() > 0 {
        let d = s.drop_last();
        assert forall|i: int, j: int| 0 <= i < j < d.len() implies (#[trigger] d[i]).0 <= (
        #[trigger] d[j]).0 by {
            assert(d[i] == s[i]);
            assert(d[j] == s[j]);
        }
        lemma_filter_range_props(d, start, end);
        let f = filter_range(s, start, end);
        let fd = filter_range(d, start, end);
        assert forall|i: int|
            0 <= i < f.len() implies (start <= (#[trigger] f[i]).0 <= end) && exists|q: int|
            0 <= q < s.len() && s[q] == f[i] by {
            if i < fd.len() {
                assert(f[i] == fd[i]);
                let q = choose|q: int| 0 <= q < d.len() && d[q] == fd[i];
                assert(s[q] == f[i]);
            } else {
                assert(f[i] == s.last());
                assert(s[s.len() - 1] == f[i]);
            }
        }
        assert forall|i: int, j: int| 0 <= i < j < f.len() implies (#[trigger] f[i]).0 <= (
        #[trigger] f[j]).0 by {
            if j < fd.len() {
                assert(f[i] == fd[i]);
                assert(f[j] == fd[j]);
            } else {
                assert(f[j] == s.last());
                assert(f[i] == fd[i]);
                let q = choose|q: int| 0 <= q < d.len() && d[q] == fd[i];
                assert(s[q].0 <= s[s.len() - 1].0);
            }
        }
    }
}

/// The pairs a single bucket contributes have times within its minute, in
/// strictly ascending order.
proof fn lemma_bucket_points_bounds(m: Map<Seq<char>, Seq<u8>>, k: Seq<char>, t: u64)
    requires
        t <= u64::MAX - 59,
    ensures
        forall|i: int|
            0 <= i < spec_bucket_points(m, k, t).len() ==> t <= (#[trigger] spec_bucket_points(
                m,
                k,
                t,
            )[i]).0 <= t + 59,
        forall|i: int, j: int|
            0 <= i < j < spec_bucket_points(m, k, t).len() ==> (#[trigger] spec_bucket_points(
                m,
                k,
                t,
            )[i]).0 < (#[trigger] spec_bucket_points(m, k, t)[j]).0,
{
    if m.contains_key(k) {
        let d = decoded(effective_blob(spec_bucket_blob(m, k, t)));
        codec::lemma_decoded_ascending(effective_blob(spec_bucket_blob(m, k, t)), 60);
        assert forall|i: int|
            0 <= i < spec_bucket_points(m, k, t).len() implies t <= (
        #[trigger] spec_bucket_points(m, k, t)[i]).0 <= t + 59 by {
            assert(spec_bucket_points(m, k, t)[i] == ((((t + d[i].0) as u64)), d[i].1));
        }
        assert forall|i: int, j: int|
            0 <= i < j < spec_bucket_points(m, k, t).len() implies (
        #[trigger] spec_bucket_points(m, k, t)[i]).0 < (#[trigger] spec_bucket_points(
            m,
            k,
            t,
        )[j]).0 by {
            assert(spec_bucket_points(m, k, t)[i] == ((((t + d[i].0) as u64)), d[i].1));
            assert(spec_bucket_points(m, k, t)[j] == ((((t + d[j].0) as u64)), d[j].1));
        }
    }
}

/// Range reads come back ordered: over the buckets from `cur`, the filtered
/// pairs are within [start, end] and non-decreasing in time.
pub proof fn lemma_range_ordering(
    m: Map<Seq<char>, Seq<u8>>,
    k: Seq<char>,
    cur: int,
    start: u64,
    end: u64,
)
    requires
        range_ok(m, k, cur, end),
        0 <= cur,
    ensures
        forall|i: int|
            0 <= i < spec_range_points(m, k, cur, start, end).len() ==> start <= (
            #[trigger] spec_range_points(m, k, cur, start, end)[i]).0 <= end,
        forall|i: int, j: int|
            0 <= i < j < spec_range_points(m, k, cur, start, end).len() ==> (
            #[trigger] spec_range_points(m, k, cur, start, end)[i]).0 <= (
            #[trigger] spec_range_points(m, k, cur, start, end)[j]).0,
    decreases end - cur,
{
    if cur < end {
        let bp = spec_bucket_points(m, k, cur as u64);
        lemma_bucket_points_bounds(m, k, cur as u64);
        lemma_filter_range_props(bp, start, end);
        let f = filter_range(bp, start, end);
        let rest = if cur + 60 < end {
            spec_range_points(m, k, cur + 60, start, end)
        } else {
            Seq::<(u64, u64)>::empty()
        };
        if cur + 60 < end {
            lemma_range_ordering(m, k, cur + 60, start, end);
        }
        let w = spec_range_points(m, k, cur, start, end);
        assert(w == f + rest);
        assert forall|i: int| 0 <= i < w.len() implies start <= (#[trigger] w[i]).0 <= end by {
            if i < f.len() {
                assert(w[i] == f[i]);
            } else {
                assert(w[i] == rest[i - f.len()]);
            }
        }
        assert forall|i: int, j: int| 0 <= i < j < w.len() implies (#[trigger] w[i]).0 <= (
        #[trigger] w[j]).0 by {
            if j < f.len() {
                assert(w[i] == f[i]);
                assert(w[j] == f[j]);
            } else if i >= f.len() {
                assert(w[i] == rest[i - f.len()]);
                assert(w[j] == rest[j - f.len()]);
            } else {
                assert(w[i] == f[i]);
                assert(w[j] == rest[j - f.len()]);
                let q = choose|q: int| 0 <= q < bp.len() && bp[q] == f[i];
                assert(f[i].0 <= cur + 59);
                assert(rest[j - f.len()].0 >= start);
                if cur + 60 < end {
                    lemma_range_points_low(m, k, cur + 60, start, end);
                }
            }
        }
    }
}

/// Every pair of a range read from `cur` carries a time at or above `cur`.
proof fn lemma_range_points_low(
    m: Map<Seq<char>, Seq<u8>>,
    k: Seq<char>,
    cur: int,
    start: u64,
    end: u64,
)
    requires
        range_ok(m, k, cur, end),
        0 <= cur,
    ensures
        forall|i: int|
            0 <= i < spec_range_points(m, k, cur, start, end).len() ==> (
            #[trigger] spec_range_points(m, k, cur, start, end)[i]).0 >= cur,
    decreases end - cur,
{
    if cur < end {
        let bp = spec_bucket_points(m, k, cur as u64);
        lemma_bucket_points_bounds(m, k, cur as u64);
        lemma_filter_range_props(bp, start, end);
        let f = filter_range(bp, start, end);
        if cur + 60 < end {
            lemma_range_points_low(m, k, cur + 60, start, end);
        }
        let w = spec_range_points(m, k, cur, start, end);
        assert forall|i: int| 0 <= i < w.len() implies (#[trigger] w[i]).0 >= cur by {
            if i < f.len() {
                assert(w[i] == f[i]);
                let q = choose|q: int| 0 <= q < bp.len() && bp[q] == f[i];
            } else {
                assert(w[i] == spec_range_points(m, k, cur + 60, start, end)[i - f.len()]);
            }
        }
    }
}

/// Clone a tag vector, element for element.
fn clone_tags(tags: &Vec<(String, String)>) -> (r: Vec<(String, String)>)
    ensures
        r@ == tags@,
{
    let mut out: Vec<(String, String)> = Vec::new();
    let mut i: usize = 0;
    while i < tags.len()
        invariant
            i <= tags@.len(),
            out@ == tags@.subrange(0, i as int),
        decreases tags@.len() - i,
    {
        out.push((tags[i].0.clone(), tags[i].1.clone()));
        proof {
            assert(out@ =~= tags@.subrange(0, (i + 1) as int));
        }
        i = i + 1;
    }
    proof {
        assert(tags@.subrange(0, tags@.len() as int) =~= tags@);
    }
    out
}

impl Database {
    /// The minute bucket holding `time` and the second offset within it.
    pub fn select_time_bucket_and_offset(&self, time: u64) -> (r: (u64, u64))
        ensures
            r.0 == (time / 60) * 60,
            r.1 == time % 60,
            r.1 < 60,
            r.0 <= time,
            r.0 % 60 == 0,
    {
        proof {
            vstd::arithmetic::div_mod::lemma_fundamental_div_mod(time as int, 60);
            vstd::arithmetic::div_mod::lemma_mod_multiples_basic(time as int / 60, 60);
        }
        let time_bucket = (time / SECS_IN_MINUTE) * SECS_IN_MINUTE;
        let offset = time % SECS_IN_MINUTE;
        (time_bucket, offset)
    }

    /// Decode a bucket blob into datapoints of the series (metric, tags),
    /// with times `time_bucket + offset`, in ascending time order.
    pub fn parse_data(
        input: Option<Vec<u8>>,
        metric: &str,
        tags: &Vec<(String, String)>,
        time_bucket: u64,
    ) -> (r: Result<Vec<Datapoint>, DbError>)
        requires
            time_bucket <= u64::MAX - 59,
        ensures
            match r {
                Ok(pts) => {
                    &&& blob_ok(effective_blob(opt_bytes(input)))
                    &&& pts@.len() == decoded(effective_blob(opt_bytes(input))).len()
                    &&& forall|j: int|
                        0 <= j < pts@.len() ==> (#[trigger] pts@[j]).metric@ == metric@
                            && pts@[j].tags@ == tags@ && pts@[j].time == time_bucket + decoded(
                            effective_blob(opt_bytes(input)),
                        )[j].0 && pts@[j].value == decoded(effective_blob(opt_bytes(input)))[j].1
                },
                Err(e) => e == DbError::CorruptData && opt_bytes(input).len() >= 8 && !blob_ok(
                    opt_bytes(input),
                ),
            },
    {
        let ghost gin = opt_bytes(input);
        let data = match input {
            Some(v) => v,
            None => Vec::new(),
        };
        let ghost eff = effective_blob(gin);
        let pairs = match codec::decode(&data) {
            Ok(p) => p,
            Err(e) => {
                return Err(e);
            },
        };
        proof {
            codec::lemma_decode_exact(eff);
        }
        let mut pts: Vec<Datapoint> = Vec::new();
        let mut j: usize = 0;
        while j < pairs.len()
            invariant
                j <= pairs@.len(),
                pairs@ == decoded(eff),
                time_bucket <= u64::MAX - 59,
                forall|q: int|
                    0 <= q < pairs@.len() ==> (#[trigger] pairs@[q]).0 < 60,
                pts@.len() == j,
                forall|q: int|
                    0 <= q < j ==> (#[trigger] pts@[q]).metric@ == metric@ && pts@[q].tags@ == tags@
                        && pts@[q].time == time_bucket + pairs@[q].0 && pts@[q].value
                        == pairs@[q].1,
            decreases pairs@.len() - j,
        {
            let pair = pairs[j];
            let dp = Datapoint {
                metric: metric.to_owned(),
                value: pair.1,
                time: time_bucket + pair.0,
                tags: clone_tags(tags),
            };
            pts.push(dp);
            j = j + 1;
        }
        Ok(pts)
    }

    /// Store one datapoint: resolve (or create) the series id, then read,
    /// re-encode and write back the minute bucket of `datapoint.time`.
    /// Writing the same (series, time) again overwrites in place: no
    /// duplicate entry is ever created for one offset.
    pub fn put_datapoint(&mut self, datapoint: Datapoint) -> (r: Result<(), DbError>)
        ensures
            match r {
                Ok(_) => {
                    let k = spec_series_key(datapoint.metric@, datapoint.tags@);
                    &&& spec_put_ok(old(self)@, k, datapoint.time)
                    &&& final(self)@ == spec_put_map(
                        old(self)@,
                        k,
                        datapoint.time,
                        datapoint.value,
                    )
                },
                Err(e) => {
                    let k = spec_series_key(datapoint.metric@, datapoint.tags@);
                    &&& e == DbError::CorruptData
                    &&& !spec_put_ok(old(self)@, k, datapoint.time)
                    &&& if !reg_ok(old(self)@, k) {
                        final(self)@ == old(self)@
                    } else {
                        final(self)@ == reg_map(old(self)@, k)
                    }
                },
            },
    {
        let metakey = datapoint.to_key_string();
        let id = match self.get_id_or_register(metakey.as_str()) {
            Ok(id) => id,
            Err(e) => {
                return Err(e);
            },
        };
        let (time_bucket, offset) = self.select_time_bucket_and_offset(datapoint.time);
        let datakey = bucket_key(time_bucket, id);
        let datavalue = match self.get(datakey.as_str()) {
            Ok(v) => v,
            Err(e) => {
                return Err(e);
            },
        };
        let newvalue = match codec::encode(&datavalue, offset, datapoint.value) {
            Ok(v) => v,
            Err(e) => {
                return Err(e);
            },
        };
        let _ = self.put(datakey.as_str(), newvalue.as_slice());
        Ok(())
    }

    /// Read all datapoints of the series (metric, tags) in the minute bucket
    /// holding `time_bucket`, ascending by time.  An unknown series or an
    /// absent bucket yields an empty vector; ids are never allocated here.
    pub fn get_datapoints_in_bucket(
        &self,
        metric: &str,
        tags: &Vec<(String, String)>,
        time_bucket: u64,
    ) -> (r: Result<Vec<Datapoint>, DbError>)
        ensures
            match r {
                Ok(pts) => {
                    let t = ((time_bucket / 60) * 60) as u64;
                    let k = spec_series_key(metric@, tags@);
                    &&& t <= u64::MAX - 59
                    &&& bucket_query_ok(self@, k, t)
                    &&& pts@.len() == spec_bucket_points(self@, k, t).len()
                    &&& forall|j: int|
                        0 <= j < pts@.len() ==> (#[trigger] pts@[j]).metric@ == metric@
                            && pts@[j].tags@ == tags@ && pts@[j].time == spec_bucket_points(
                            self@,
                            k,
                            t,
                        )[j].0 && pts@[j].value == spec_bucket_points(self@, k, t)[j].1
                },
                Err(e) => {
                    let t = ((time_bucket / 60) * 60) as u64;
                    let k = spec_series_key(metric@, tags@);
                    ||| (e == DbError::InvalidTimestamp && t > u64::MAX - 59)
                    ||| (e == DbError::CorruptData && t <= u64::MAX - 59 && !bucket_query_ok(
                        self@,
                        k,
                        t,
                    ))
                },
            },
    {
        let (t, _offset) = self.select_time_bucket_and_offset(time_bucket);
        if t > u64::MAX - 59 {
            return Err(DbError::InvalidTimestamp);
        }
        let key = Datapoint::key_string(metric, tags);
        let id_opt = match self.get_id(key.as_str()) {
            Ok(o) => o,
            Err(e) => {
                return Err(e);
            },
        };
        match id_opt {
            Some(id) => {
                let datakey = bucket_key(t, id);
                let points = self.get_raw(datakey.as_str());
                let pts = match Self::parse_data(points, metric, tags, t) {
                    Ok(p) => p,
                    Err(e) => {
                        return Err(e);
                    },
                };
                proof {
                    let k = spec_series_key(metric@, tags@);
                    let sp = spec_bucket_points(self@, k, t);
                    let d = decoded(effective_blob(spec_bucket_blob(self@, k, t)));
                    assert(sp.len() == d.len());
                    assert forall|j: int| 0 <= j < pts@.len() implies (#[trigger] pts@[j]).time
                        == sp[j].0 && pts@[j].value == sp[j].1 by {
                        assert(sp[j] == ((((t + d[j].0) as u64)), d[j].1));
                    }
                }
                Ok(pts)
            },
            None => Ok(Vec::new()),
        }
    }

    /// Read all datapoints of the series (metric, tags) with times in
    /// `[time_start, time_end]`: the minute buckets from the one holding
    /// `time_start` are visited in ascending order while their start lies
    /// before `time_end`, each decoded batch is filtered to the interval,
    /// and the concatenation comes back in non-decreasing time order.  A
    /// start past the end yields an empty vector without error.
    pub fn get_datapoints_exact(
        &self,
        metric: &str,
        tags: &Vec<(String, String)>,
        time_start: u64,
        time_end: u64,
    ) -> (r: Result<Vec<Datapoint>, DbError>)
        ensures
            match r {
                Ok(pts) => {
                    let k = spec_series_key(metric@, tags@);
                    let cur0 = ((time_start / 60) * 60) as int;
                    &&& (time_start > time_end ==> pts@.len() == 0)
                    &&& (time_start <= time_end ==> {
                        &&& range_ok(self@, k, cur0, time_end)
                        &&& pts@.len() == spec_range_points(
                            self@,
                            k,
                            cur0,
                            time_start,
                            time_end,
                        ).len()
                        &&& forall|j: int|
                            0 <= j < pts@.len() ==> (#[trigger] pts@[j]).metric@ == metric@
                                && pts@[j].tags@ == tags@ && pts@[j].time == spec_range_points(
                                self@,
                                k,
                                cur0,
                                time_start,
                                time_end,
                            )[j].0 && pts@[j].value == spec_range_points(
                                self@,
                                k,
                                cur0,
                                time_start,
                                time_end,
                            )[j].1
                    })
                    &&& forall|j: int|
                        0 <= j < pts@.len() ==> time_start <= (#[trigger] pts@[j]).time
                            <= time_end
                    &&& forall|i: int, j: int|
                        0 <= i < j < pts@.len() ==> (#[trigger] pts@[i]).time <= (
                        #[trigger] pts@[j]).time
                },
                Err(e) => {
                    let k = spec_series_key(metric@, tags@);
                    let cur0 = ((time_start / 60) * 60) as int;
                    &&& time_start <= time_end
                    &&& (e == DbError::InvalidTimestamp || e == DbError::CorruptData)
                    &&& !range_ok(self@, k, cur0, time_end)
                },
            },
    {
        if time_start > time_end {
            return Ok(Vec::new());
        }
        let (first_bucket, _o) = self.select_time_bucket_and_offset(time_start);
        let ghost cur0 = first_bucket as int;
        let ghost k = spec_series_key(metric@, tags@);
        let ghost whole = spec_range_points(self@, k, cur0, time_start, time_end);
        let mut cur = first_bucket;
        let mut results: Vec<Datapoint> = Vec::new();
        let mut stop = cur >= time_end;
        while !stop
            invariant
                time_start <= time_end,
                k == spec_series_key(metric@, tags@),
                cur0 == ((time_start / 60) * 60) as int,
                cur0 <= cur as int,
                cur % 60 == 0,
                whole == spec_range_points(self@, k, cur0, time_start, time_end),
                range_ok(self@, k, cur0, time_end) == range_ok(
                    self@,
                    k,
                    if stop {
                        time_end as int
                    } else {
                        cur as int
                    },
                    time_end,
                ),
                !stop ==> cur < time_end,
                results@.len() <= whole.len(),
                whole =~= whole.subrange(0, results@.len() as int) + spec_range_points(
                    self@,
                    k,
                    if stop {
                        time_end as int
                    } else {
                        cur as int
                    },
                    time_start,
                    time_end,
                ),
                forall|j: int|
                    0 <= j < results@.len() ==> (#[trigger] results@[j]).metric@ == metric@
                        && results@[j].tags@ == tags@ && results@[j].time == whole[j].0
                        && results@[j].value == whole[j].1,
            decreases
                    if stop {
                        0int
                    } else {
                        1int
                    },
                    time_end - cur,
        {
            let ghost rlen0 = results@.len() as int;
            let ghost rest0 = spec_range_points(self@, k, cur as int, time_start, time_end);
            let batch = match self.get_datapoints_in_bucket(metric, tags, cur) {
                Ok(b) => b,
                Err(e) => {
                    proof {
                        vstd::arithmetic::div_mod::lemma_fundamental_div_mod(cur as int, 60);
                        assert(((cur / 60) * 60) as u64 == cur);
                        assert(!range_ok(self@, k, cur as int, time_end));
                    }
                    return Err(e);
                },
            };
            proof {
                vstd::arithmetic::div_mod::lemma_fundamental_div_mod(cur as int, 60);
                assert(((cur / 60) * 60) as u64 == cur);
            }
            let ghost bp = spec_bucket_points(self@, k, cur);
            let ghost f = filter_range(bp, time_start, time_end);
            proof {
                assert(batch@.len() == bp.len());
            }
            let mut bi: usize = 0;
            while bi < batch.len()
                invariant
                    bi <= batch@.len(),
                    0 <= rlen0,
                    k == spec_series_key(metric@, tags@),
                    bp == spec_bucket_points(self@, k, cur),
                    batch@.len() == bp.len(),
                    forall|q: int|
                        0 <= q < batch@.len() ==> (#[trigger] batch@[q]).metric@ == metric@
                            && batch@[q].tags@ == tags@ && batch@[q].time == bp[q].0
                            && batch@[q].value == bp[q].1,
                    results@.len() == rlen0 + filter_range(
                        bp.subrange(0, bi as int),
                        time_start,
                        time_end,
                    ).len(),
                    forall|j: int|
                        0 <= j < rlen0 ==> (#[trigger] results@[j]).metric@ == metric@
                            && results@[j].tags@ == tags@ && results@[j].time == whole[j].0
                            && results@[j].value == whole[j].1,
                    forall|j: int|
                        rlen0 <= j < results@.len() ==> (#[trigger] results@[j]).metric@ == metric@
                            && results@[j].tags@ == tags@ && results@[j].time == filter_range(
                            bp.subrange(0, bi as int),
                            time_start,
                            time_end,
                        )[j - rlen0].0 && results@[j].value == filter_range(
                            bp.subrange(0, bi as int),
                            time_start,
                            time_end,
                        )[j - rlen0].1,
                decreases batch@.len() - bi,
            {
                let ghost fprev = filter_range(bp.subrange(0, bi as int), time_start, time_end);
                let ghost r0 = results@;
                proof {
                    let sub = bp.subrange(0, (bi + 1) as int);
                    assert(sub.drop_last() =~= bp.subrange(0, bi as int));
                    assert(sub.last() == bp[bi as int]);
                }
                let keep = batch[bi].time >= time_start && batch[bi].time <= time_end;
                let ghost fnext = filter_range(bp.subrange(0, (bi + 1) as int), time_start, time_end);
                if keep {
                    let dp = clone_datapoint(&batch[bi]);
                    results.push(dp);
                    proof {
                        assert(results@ == r0.push(results@.last()));
                        assert(results@.last().metric@ == metric@);
                        assert(results@.last().tags@ == tags@);
                        assert(results@.last().time == bp[bi as int].0);
                        assert(results@.last().value == bp[bi as int].1);
                        assert(fnext =~= fprev.push(bp[bi as int]));
                        assert forall|j: int|
                            rlen0 <= j < results@.len() implies (#[trigger] results@[j]).metric@
                            == metric@ && results@[j].tags@ == tags@ && results@[j].time == fnext[j
                            - rlen0].0 && results@[j].value == fnext[j - rlen0].1 by {
                            if j < rlen0 + fprev.len() {
                                assert(results@[j] == r0[j]);
                                assert(fnext[j - rlen0] == fprev[j - rlen0]);
                            } else {
                                assert(results@[j] == results@.last());
                                assert(fnext[j - rlen0] == bp[bi as int]);
                            }
                        }
                    }
                } else {
                    proof {
                        assert(fnext =~= fprev);
                        assert forall|j: int|
                            rlen0 <= j < results@.len() implies (#[trigger] results@[j]).metric@
                            == metric@ && results@[j].tags@ == tags@ && results@[j].time == fnext[j
                            - rlen0].0 && results@[j].value == fnext[j - rlen0].1 by {
                            assert(fnext[j - rlen0] == fprev[j - rlen0]);
                        }
                    }
                }
                bi = bi + 1;
            }
            proof {
                assert(bp.subrange(0, bp.len() as int) =~= bp);
                assert(results@.len() == rlen0 + f.len());
                // the bucket at cur is the next piece of the whole
                assert(rest0 == f + if cur as int + 60 < time_end {
                    spec_range_points(self@, k, cur as int + 60, time_start, time_end)
                } else {
                    Seq::<(u64, u64)>::empty()
                });
                assert(whole.subrange(0, rlen0) + rest0 =~= whole);
                assert forall|j: int| rlen0 <= j < results@.len() implies whole[j] == f[j
                    - rlen0] by {
                    assert(whole[j] == rest0[j - rlen0]);
                }
                assert(whole.subrange(0, results@.len() as int) + (if cur as int + 60 < time_end {
                    spec_range_points(self@, k, cur as int + 60, time_start, time_end)
                } else {
                    Seq::<(u64, u64)>::empty()
                }) =~= whole);
            }
            if cur > u64::MAX - 60 {
                stop = true;
                proof {
                    assert(cur as int + 60 >= time_end);
                    assert(spec_range_points(self@, k, time_end as int, time_start, time_end)
                        =~= Seq::<(u64, u64)>::empty());
                }
            } else {
                cur = cur + 60;
                stop = cur >= time_end;
                proof {
                    if stop {
                        assert(spec_range_points(self@, k, time_end as int, time_start, time_end)
                            =~= Seq::<(u64, u64)>::empty());
                        assert(spec_range_points(self@, k, cur as int, time_start, time_end)
                            =~= Seq::<(u64, u64)>::empty());
                    }
                }
            }
        }
        proof {
            assert(spec_range_points(self@, k, time_end as int, time_start, time_end) =~= Seq::<
                (u64, u64),
            >::empty());
            assert(range_ok(self@, k, cur0, time_end));
            assert(whole =~= whole.subrange(0, results@.len() as int) + Seq::<(u64, u64)>::empty());
            assert(whole =~= whole.subrange(0, results@.len() as int));
            assert(whole.len() == results@.len());
            lemma_range_ordering(self@, k, cur0, time_start, time_end);
        }
        Ok(results)
    }
}

/// Registry determinism, first half: resolving a key a second time returns
/// the id the first call allocated (or found), and leaves the store as it
/// was.
pub proof fn lemma_registry_deterministic(m: Map<Seq<char>, Seq<u8>>, k: Seq<char>)
    requires
        reg_ok(m, k),
    ensures
        reg_ok(reg_map(m, k), k),
        reg_id(reg_map(m, k), k) == reg_id(m, k),
        reg_map(reg_map(m, k), k) == reg_map(m, k),
{
    lemma_auto_spec_u64_to_from_le_bytes();
}

/// Registry determinism, second half: two distinct unseen canonical keys,
/// resolved one after the other, get distinct, strictly increasing ids.
pub proof fn lemma_registry_increasing(m: Map<Seq<char>, Seq<u8>>, k1: Seq<char>, k2: Seq<char>)
    requires
        !m.contains_key(k1),
        !m.contains_key(k2),
        k1 != k2,
        k1 != spec_max_metric_id_key(),
        k2 != spec_max_metric_id_key(),
        reg_ok(m, k1),
        spec_max_id(m) < u64::MAX - 1,
    ensures
        reg_ok(reg_map(m, k1), k2),
        reg_id(reg_map(m, k1), k2) == reg_id(m, k1) + 1,
{
    lemma_auto_spec_u64_to_from_le_bytes();
    let m1 = reg_map(m, k1);
    assert(!m1.contains_key(k2));
    assert(spec_max_id(m1) == reg_id(m, k1));
}

/// The first id ever allocated is 1.
pub proof fn lemma_first_id_is_one(m: Map<Seq<char>, Seq<u8>>, k: Seq<char>)
    requires
        !m.contains_key(k),
        !m.contains_key(spec_max_metric_id_key()),
    ensures
        reg_id(m, k) == 1,
{
}

/// Bucket boundary isolation, where the samples live: a time in one minute
/// and a time in a different minute are stored under different bucket keys,
/// for the same series id.
pub proof fn lemma_bucket_boundary_isolation(t1: u64, t2: u64, id: u64)
    requires
        t1 / 60 != t2 / 60,
    ensures
        spec_bucket_key(((t1 / 60) * 60) as u64, id) != spec_bucket_key(
            ((t2 / 60) * 60) as u64,
            id,
        ),
{
    if spec_bucket_key(((t1 / 60) * 60) as u64, id) == spec_bucket_key(
        ((t2 / 60) * 60) as u64,
        id,
    ) {
        lemma_bucket_key_injective(((t1 / 60) * 60) as u64, id, ((t2 / 60) * 60) as u64, id);
    }
}

proof fn lemma_bucket_key_chars(b: u64, id: u64)
    ensures
        spec_bucket_key(b, id).len() >= 4,
        is_digit_char(spec_bucket_key(b, id)[0]),
        is_digit_char(spec_bucket_key(b, id)[spec_bucket_key(b, id).len() - 1]),
        forall|i: int|
            0 <= i < spec_bucket_key(b, id).len() ==> is_digit_char(
                #[trigger] spec_bucket_key(b, id)[i],
            ) || spec_bucket_key(b, id)[i] == '#',
{
    lemma_dec_digits(b);
    lemma_dec_digits(id);
    let db = spec_u64_to_dec(b);
    let di = spec_u64_to_dec(id);
    let bk = spec_bucket_key(b, id);
    assert(bk[bk.len() - 1] == di[di.len() - 1]);
    assert forall|i: int| 0 <= i < bk.len() implies is_digit_char(#[trigger] bk[i]) || bk[i]
        == '#' by {
        if i < db.len() {
            assert(bk[i] == db[i]);
        } else if i < db.len() + 2 {
            assert(bk[i] == '#');
        } else {
            assert(bk[i] == di[i - db.len() - 2]);
        }
    }
}

proof fn lemma_join_tags_colon(tags: Seq<(String, String)>)
    requires
        tags.len() > 0,
    ensures
        exists|j: int|
            0 <= j < spec_join_tags(tags).len() && #[trigger] spec_join_tags(tags)[j] == ':',
    decreases tags.len(),
{
    if tags.len() == 1 {
        assert(spec_join_tags(tags)[tags[0].0@.len() as int] == ':');
    } else {
        lemma_join_tags_colon(tags.drop_last());
        let j = choose|j: int|
            0 <= j < spec_join_tags(tags.drop_last()).len() && #[trigger] spec_join_tags(
                tags.drop_last(),
            )[j] == ':';
        assert(spec_join_tags(tags)[j] == ':');
    }
}

/// A canonical series key is never a bucket key: with no tags it ends in
/// `#`, with tags it contains a `:`, while a bucket key is digits around
/// `##`.
pub proof fn lemma_series_key_ne_bucket_key(
    metric: Seq<char>,
    tags: Seq<(String, String)>,
    b: u64,
    id: u64,
)
    ensures
        spec_series_key(metric, tags) != spec_bucket_key(b, id),
{
    lemma_bucket_key_chars(b, id);
    let sk = spec_series_key(metric, tags);
    let bk = spec_bucket_key(b, id);
    if sk == bk {
        if tags.len() == 0 {
            assert(sk[sk.len() - 1] == '#');
            assert(is_digit_char(bk[bk.len() - 1]));
            assert(false);
        } else {
            lemma_join_tags_colon(tags);
            let j = choose|j: int|
                0 <= j < spec_join_tags(tags).len() && #[trigger] spec_join_tags(tags)[j] == ':';
            let pos = metric.len() + 1 + j;
            assert(sk[pos] == ':');
            assert(is_digit_char(bk[pos]) || bk[pos] == '#');
            assert(false);
        }
    }
}

/// The sentinel key is never a bucket key: it starts with `#`, a bucket key
/// with a digit.
pub proof fn lemma_sentinel_ne_bucket_key(b: u64, id: u64)
    ensures
        spec_max_metric_id_key() != spec_bucket_key(b, id),
{
    lemma_bucket_key_chars(b, id);
    if spec_max_metric_id_key() == spec_bucket_key(b, id) {
        reveal_strlit("###INTERNAL_MAX_METRIC");
        assert(spec_max_metric_id_key()[0] == '#');
        assert(is_digit_char(spec_bucket_key(b, id)[0]));
        assert(false);
    }
}

/// Bucket boundary isolation, in full: storing a sample at `t1` and then a
/// sample at `t2` of the same series, with the two times in different
/// minutes, leaves the two samples under distinct bucket keys, keeps the
/// series resolvable to its id, and a single-bucket read of either minute
/// lists its own sample, with its exact time and value.
pub proof fn lemma_bucket_boundary_retrievable(
    m: Map<Seq<char>, Seq<u8>>,
    metric: Seq<char>,
    tags: Seq<(String, String)>,
    t1: u64,
    t2: u64,
    v1: u64,
    v2: u64,
)
    requires
        t1 / 60 != t2 / 60,
        spec_put_ok(m, spec_series_key(metric, tags), t1),
        spec_put_ok(
            spec_put_map(m, spec_series_key(metric, tags), t1, v1),
            spec_series_key(metric, tags),
            t2,
        ),
    ensures
        ({
            let k = spec_series_key(metric, tags);
            let id = reg_id(m, k);
            let b1 = ((t1 / 60) * 60) as u64;
            let b2 = ((t2 / 60) * 60) as u64;
            let m2 = spec_put_map(spec_put_map(m, k, t1, v1), k, t2, v2);
            &&& spec_bucket_key(b1, id) != spec_bucket_key(b2, id)
            &&& m2.contains_key(k) && m2[k].len() == 8 && spec_stored_id(m2, k) == id
            &&& bucket_query_ok(m2, k, b1) && bucket_query_ok(m2, k, b2)
            &&& exists|i: int|
                0 <= i < spec_bucket_points(m2, k, b1).len() && #[trigger] spec_bucket_points(
                    m2,
                    k,
                    b1,
                )[i] == (t1, v1)
            &&& exists|i: int|
                0 <= i < spec_bucket_points(m2, k, b2).len() && #[trigger] spec_bucket_points(
                    m2,
                    k,
                    b2,
                )[i] == (t2, v2)
        }),
{
    lemma_auto_spec_u64_to_from_le_bytes();
    vstd::arithmetic::div_mod::lemma_fundamental_div_mod(t1 as int, 60);
    vstd::arithmetic::div_mod::lemma_fundamental_div_mod(t2 as int, 60);
    let k = spec_series_key(metric, tags);
    let id = reg_id(m, k);
    let b1 = ((t1 / 60) * 60) as u64;
    let b2 = ((t2 / 60) * 60) as u64;
    let bk1 = spec_bucket_key(b1, id);
    let bk2 = spec_bucket_key(b2, id);
    lemma_bucket_boundary_isolation(t1, t2, id);
    lemma_series_key_ne_bucket_key(metric, tags, b1, id);
    lemma_series_key_ne_bucket_key(metric, tags, b2, id);
    lemma_sentinel_ne_bucket_key(b1, id);
    lemma_sentinel_ne_bucket_key(b2, id);
    let m1 = reg_map(m, k);
    let blob1 = spec_encode(effective_blob(spec_put_blob(m, k, t1)), t1 % 60, v1);
    let ma = spec_put_map(m, k, t1, v1);
    assert(ma == m1.insert(bk1, blob1));
    assert(ma.contains_key(k) && ma[k].len() == 8 && spec_stored_id(ma, k) == id);
    assert(reg_id(ma, k) == id);
    assert(reg_map(ma, k) == ma);
    codec::lemma_encode_properties(effective_blob(spec_put_blob(m, k, t1)), t1 % 60, v1);
    let blob2 = spec_encode(effective_blob(spec_put_blob(ma, k, t2)), t2 % 60, v2);
    codec::lemma_encode_properties(effective_blob(spec_put_blob(ma, k, t2)), t2 % 60, v2);
    let m2 = spec_put_map(ma, k, t2, v2);
    assert(m2 == ma.insert(bk2, blob2));
    assert(m2.contains_key(k) && m2[k].len() == 8 && spec_stored_id(m2, k) == id);
    // the bucket cells of the two minutes after both writes
    assert(spec_bucket_blob(m2, k, b1) == blob1);
    assert(spec_bucket_blob(m2, k, b2) == blob2);
    assert(effective_blob(blob1) == blob1);
    assert(effective_blob(blob2) == blob2);
    // each blob lists its own sample
    codec::lemma_decode_exact(blob1);
    codec::lemma_decode_exact(blob2);
    assert(blob_points(blob1).contains_pair(t1 % 60, v1));
    assert(blob_points(blob2).contains_pair(t2 % 60, v2));
    let i1 = count_set_below(blob_bitmap(blob1), (t1 % 60) as int) as int;
    let i2 = count_set_below(blob_bitmap(blob2), (t2 % 60) as int) as int;
    assert(decoded(blob1)[i1] == ((t1 % 60), v1));
    assert(decoded(blob2)[i2] == ((t2 % 60), v2));
    assert(spec_bucket_points(m2, k, b1)[i1] == (((b1 + t1 % 60) as u64), v1));
    assert(b1 + t1 % 60 == t1);
    assert(spec_bucket_points(m2, k, b1)[i1] == (t1, v1));
    assert(spec_bucket_points(m2, k, b2)[i2] == (((b2 + t2 % 60) as u64), v2));
    assert(b2 + t2 % 60 == t2);
    assert(spec_bucket_points(m2, k, b2)[i2] == (t2, v2));
    assert(0 <= i1 < spec_bucket_points(m2, k, b1).len());
    assert(0 <= i2 < spec_bucket_points(m2, k, b2).len());
}

proof fn lemma_filter_range_keeps(s: Seq<(u64, u64)>, start: u64, end: u64, i: int)
    requires
        0 <= i < s.len(),
        start <= s[i].0 <= end,
    ensures
        filter_range(s, start, end).contains(s[i]),
    decreases s.len(),
{
    let f = filter_range(s, start, end);
    let fd = filter_range(s.drop_last(), start, end);
    if i == s.len() - 1 {
        assert(f[fd.len() as int] == s[i]);
    } else {
        assert(s.drop_last()[i] == s[i]);
        lemma_filter_range_keeps(s.drop_last(), start, end, i);
        let j = choose|j: int| 0 <= j < fd.len() && fd[j] == s[i];
        assert(f[j] == s[i]);
    }
}

proof fn lemma_range_points_sees_bucket(
    m: Map<Seq<char>, Seq<u8>>,
    k: Seq<char>,
    cur: int,
    start: u64,
    end: u64,
    b: u64,
    x: (u64, u64),
)
    requires
        0 <= cur <= b,
        (b - cur) % 60 == 0,
        b < end,
        filter_range(spec_bucket_points(m, k, b), start, end).contains(x),
    ensures
        spec_range_points(m, k, cur, start, end).contains(x),
    decreases b - cur,
{
    let w = spec_range_points(m, k, cur, start, end);
    let f = filter_range(spec_bucket_points(m, k, cur as u64), start, end);
    if cur == b {
        let j = choose|j: int|
            0 <= j < filter_range(spec_bucket_points(m, k, b), start, end).len() && filter_range(
                spec_bucket_points(m, k, b),
                start,
                end,
            )[j] == x;
        assert(w[j] == x);
    } else {
        assert((b - (cur + 60)) % 60 == 0) by {
            assert(b - cur == (b - (cur + 60)) + 60);
        }
        lemma_range_points_sees_bucket(m, k, cur + 60, start, end, b, x);
        let rest = spec_range_points(m, k, cur + 60, start, end);
        let j = choose|j: int| 0 <= j < rest.len() && rest[j] == x;
        assert(cur + 60 <= b);
        assert(w[f.len() + j] == x);
    }
}

/// Range reads return what was stored: a sample written at `t` with
/// `start <= t <= end`, whose minute bucket starts before `end`, appears in
/// a range read over `[start, end]` of its series, with its exact time and
/// value.  (A sample whose bucket starts at or past `end` lies beyond the
/// last visited bucket; the bound is the one the bucket iteration states.)
pub proof fn lemma_range_returns_stored_sample(
    m: Map<Seq<char>, Seq<u8>>,
    metric: Seq<char>,
    tags: Seq<(String, String)>,
    t: u64,
    v: u64,
    start: u64,
    end: u64,
)
    requires
        spec_put_ok(m, spec_series_key(metric, tags), t),
        start <= t <= end,
        (t / 60) * 60 < end,
    ensures
        spec_range_points(
            spec_put_map(m, spec_series_key(metric, tags), t, v),
            spec_series_key(metric, tags),
            ((start / 60) * 60) as int,
            start,
            end,
        ).contains((t, v)),
{
    lemma_auto_spec_u64_to_from_le_bytes();
    vstd::arithmetic::div_mod::lemma_fundamental_div_mod(t as int, 60);
    vstd::arithmetic::div_mod::lemma_fundamental_div_mod(start as int, 60);
    let k = spec_series_key(metric, tags);
    let id = reg_id(m, k);
    let bt = ((t / 60) * 60) as u64;
    let cur0 = ((start / 60) * 60) as u64;
    lemma_series_key_ne_bucket_key(metric, tags, bt, id);
    lemma_sentinel_ne_bucket_key(bt, id);
    let m1 = reg_map(m, k);
    let blob = spec_encode(effective_blob(spec_put_blob(m, k, t)), t % 60, v);
    let mp = spec_put_map(m, k, t, v);
    assert(mp == m1.insert(spec_bucket_key(bt, id), blob));
    assert(mp.contains_key(k) && mp[k].len() == 8 && spec_stored_id(mp, k) == id);
    codec::lemma_encode_properties(effective_blob(spec_put_blob(m, k, t)), t % 60, v);
    assert(spec_bucket_blob(mp, k, bt) == blob);
    assert(effective_blob(blob) == blob);
    codec::lemma_decode_exact(blob);
    assert(blob_points(blob).contains_pair(t % 60, v));
    let i = count_set_below(blob_bitmap(blob), (t % 60) as int) as int;
    assert(decoded(blob)[i] == ((t % 60), v));
    let bp = spec_bucket_points(mp, k, bt);
    assert(bp[i] == (((bt + t % 60) as u64), v));
    assert(bt + t % 60 == t);
    assert(bp[i] == (t, v));
    lemma_filter_range_keeps(bp, start, end, i);
    assert(cur0 <= bt) by {
        vstd::arithmetic::div_mod::lemma_div_is_ordered(start as int, t as int, 60);
    }
    assert((bt - cur0 as int) % 60 == 0) by {
        vstd::arithmetic::div_mod::lemma_mod_multiples_basic(
            t as int / 60 - start as int / 60,
            60,
        );
        assert(bt - cur0 as int == (t as int / 60 - start as int / 60) * 60) by {
            assert((t as int / 60) * 60 - (start as int / 60) * 60 == (t as int / 60 - start as int
                / 60) * 60) by (nonlinear_arith);
        }
    }
    lemma_range_points_sees_bucket(mp, k, cur0 as int, start, end, bt, (t, v));
}

/// Clone a datapoint field for field.
fn clone_datapoint(dp: &Datapoint) -> (r: Datapoint)
    ensures
        r.metric@ == dp.metric@,
        r.value == dp.value,
        r.time == dp.time,
        r.tags@ == dp.tags@,
{
    Datapoint {
        metric: dp.metric.clone(),
        value: dp.value,
        time: dp.time,
        tags: clone_tags(&dp.tags),
    }
}

} // verus!
