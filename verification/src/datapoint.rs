//! Datapoints and canonical series keys.
//!
//! A series is one (metric, tag set) pair.  Its key string is
//! `metric "#" key1:val1 "," key2:val2 ...` with the tags ordered strictly
//! ascending by key, so that two datapoints with the same metric and the
//! same tag set always serialize to the same series key, whatever order the
//! tags were given in.

use vstd::prelude::*;
use vstd::string::StrSliceExecFns;
use vstd::string::StringExecFns;

use crate::text::lex_lt;
use crate::text::str_eq;
use crate::text::str_lt;

verus! {

/// One sample: a metric name, a tag set, the raw bits of a 64-bit IEEE
/// float, and a time in whole seconds since the epoch.
///
/// The engine never interprets the value: it stores and returns the 64 bits
/// exactly as given (`f64::to_bits` / `f64::from_bits` at the boundary).
#[derive(Debug, Clone, PartialEq)]
pub struct Datapoint {
    pub metric: String,
    pub value: u64,
    pub time: u64,
    pub tags: Vec<(String, String)>,
}

/// Tags in canonical order: strictly ascending by key (hence unique keys).
pub open spec fn tags_sorted(tags: Seq<(String, String)>) -> bool {
    forall|i: int, j: int| 0 <= i < j < tags.len() ==> lex_lt(tags[i].0@, tags[j].0@)
}

/// The tag set as a map from key to value.
pub open spec fn tag_map(tags: Seq<(String, String)>) -> Map<Seq<char>, Seq<char>>
    decreases tags.len(),
{
    if tags.len() == 0 {
        Map::empty()
    } else {
        tag_map(tags.drop_last()).insert(tags.last().0@, tags.last().1@)
    }
}

/// `"key:value"` pairs joined with `","`.
pub open spec fn spec_join_tags(tags: Seq<(String, String)>) -> Seq<char>
    decreases tags.len(),
{
    if tags.len() == 0 {
        Seq::empty()
    } else if tags.len() == 1 {
        tags[0].0@ + seq![':'] + tags[0].1@
    } else {
        spec_join_tags(tags.drop_last()) + seq![','] + tags.last().0@ + seq![':'] + tags.last().1@
    }
}

/// The canonical series key of a (metric, tag set) pair.
pub open spec fn spec_series_key(metric: Seq<char>, tags: Seq<(String, String)>) -> Seq<char> {
    metric + seq!['#'] + spec_join_tags(tags)
}

impl Datapoint {
    /// A datapoint is well formed when its tags are in canonical order.
    pub open spec fn wf(self) -> bool {
        tags_sorted(self.tags@)
    }

    /// The zero datapoint: empty metric, no tags, value bits 0, the epoch.
    pub fn default() -> (r: Datapoint)
        ensures
            r.metric@ == Seq::<char>::empty(),
            r.value == 0,
            r.time == 0,
            r.tags@ == Seq::<(String, String)>::empty(),
            r.wf(),
    {
        Datapoint { metric: String::new(), value: 0, time: 0, tags: Vec::new() }
    }

    /// The canonical series key of this datapoint.
    pub fn to_key_string(&self) -> (r: String)
        ensures
            r@ == spec_series_key(self.metric@, self.tags@),
    {
        Datapoint::key_string(self.metric.as_str(), &self.tags)
    }

    /// The canonical series key of a (metric, tag set) pair.  The tags are
    /// joined in the order given; a well-formed datapoint hands them over
    /// already sorted.
    pub fn key_string(metric: &str, tags: &Vec<(String, String)>) -> (r: String)
        ensures
            r@ == spec_series_key(metric@, tags@),
    {
        let mut out = metric.to_owned();
        out.append("#");
        proof {
            reveal_strlit("#");
            assert("#"@ =~= seq!['#']);
        }
        let mut i: usize = 0;
        while i < tags.len()
            invariant
                i <= tags@.len(),
                out@ == metric@ + seq!['#'] + spec_join_tags(tags@.subrange(0, i as int)),
            decreases tags@.len() - i,
        {
            if i > 0 {
                out.append(",");
            }
            out.append(tags[i].0.as_str());
            out.append(":");
            out.append(tags[i].1.as_str());
            proof {
                reveal_strlit(",");
                reveal_strlit(":");
                assert(","@ =~= seq![',']);
                assert(":"@ =~= seq![':']);
                let cur = tags@.subrange(0, (i + 1) as int);
                assert(cur.drop_last() =~= tags@.subrange(0, i as int));
                assert(cur.last() == tags@[i as int]);
                if i == 0 {
                    assert(cur.len() == 1);
                    assert(cur[0] == tags@[0]);
                    assert(out@ =~= metric@ + seq!['#'] + spec_join_tags(cur));
                } else {
                    assert(out@ =~= metric@ + seq!['#'] + spec_join_tags(cur));
                }
            }
            i = i + 1;
        }
        proof {
            assert(tags@.subrange(0, tags@.len() as int) =~= tags@);
        }
        out
    }

    /// Set tag `key` to `value`, keeping the canonical order and replacing
    /// any previous value of the same key.
    pub fn add_tag(&mut self, key: String, value: String)
        requires
            old(self).wf(),
        ensures
            final(self).wf(),
            tag_map(final(self).tags@) =~= tag_map(old(self).tags@).insert(key@, value@),
            final(self).metric == old(self).metric,
            final(self).value == old(self).value,
            final(self).time == old(self).time,
    {
        let mut i: usize = 0;
        while i < self.tags.len() && str_lt(self.tags[i].0.as_str(), key.as_str())
            invariant
                i <= self.tags@.len(),
                forall|j: int| 0 <= j < i ==> lex_lt(self.tags@[j].0@, key@),
                *self == *old(self),
            decreases self.tags@.len() - i,
        {
            i = i + 1;
        }
        let ghost t = self.tags@;
        proof {
            crate::text::lemma_lex_irrefl(key@);
            assert forall|j: int| i <= j < t.len() implies !lex_lt(t[j].0@, key@) by {
                if j > i {
                    if lex_lt(t[j].0@, key@) {
                        crate::text::lemma_lex_trans(t[i as int].0@, t[j].0@, key@);
                    }
                }
            }
        }
        if i < self.tags.len() && str_eq(self.tags[i].0.as_str(), key.as_str()) {
            self.tags.remove(i);
            self.tags.insert(i, (key, value));
            proof {
                assert(self.tags@ =~= t.update(i as int, (key, value)));
                lemma_tags_sorted_update(t, i as int, (key, value));
                lemma_tag_map_update(t, i as int, (key, value));
            }
        } else {
            proof {
                assert forall|j: int| i <= j < t.len() implies lex_lt(key@, t[j].0@) by {
                    if t[j].0@ == key@ {
                        if j == i {
                            assert(false);
                        } else {
                            assert(lex_lt(t[i as int].0@, t[j].0@));
                            assert(!lex_lt(t[i as int].0@, key@));
                            assert(false);
                        }
                    } else {
                        crate::text::lemma_lex_total(key@, t[j].0@);
                        if lex_lt(t[j].0@, key@) {
                            assert(false);
                        }
                    }
                }
            }
            self.tags.insert(i, (key, value));
            proof {
                assert(self.tags@ =~= t.insert(i as int, (key, value)));
                lemma_tags_sorted_insert(t, i as int, (key, value));
                lemma_tag_map_insert(t, i as int, (key, value));
            }
        }
    }
}

proof fn lemma_tag_map_dom(t: Seq<(String, String)>, k: Seq<char>)
    ensures
        tag_map(t).contains_key(k) <==> exists|i: int| 0 <= i < t.len() && (#[trigger] t[i]).0@ == k,
    decreases t.len(),
{
    if t.len() > 0 {
        lemma_tag_map_dom(t.drop_last(), k);
        if t.last().0@ == k {
            assert(t[t.len() - 1].0@ == k);
        } else {
            if tag_map(t).contains_key(k) {
                let i = choose|i: int|
                    0 <= i < t.drop_last().len() && (#[trigger] t.drop_last()[i]).0@ == k;
                assert(t[i].0@ == k);
            }
            if exists|i: int| 0 <= i < t.len() && (#[trigger] t[i]).0@ == k {
                let i = choose|i: int| 0 <= i < t.len() && (#[trigger] t[i]).0@ == k;
                assert(t.drop_last()[i].0@ == k);
            }
        }
    }
}

/// Canonical-form law: a tag set has exactly one sorted representation.
/// Two sorted tag vectors carrying the same map agree key for key and value
/// for value.
pub proof fn lemma_canonical_tags_unique(t1: Seq<(String, String)>, t2: Seq<(String, String)>)
    requires
        tags_sorted(t1),
        tags_sorted(t2),
        tag_map(t1) == tag_map(t2),
    ensures
        t1.len() == t2.len(),
        forall|i: int|
            0 <= i < t1.len() ==> (#[trigger] t1[i]).0@ == t2[i].0@ && t1[i].1@ == t2[i].1@,
    decreases t1.len(),
{
    if t1.len() == 0 {
        if t2.len() > 0 {
            lemma_tag_map_dom(t1, t2.last().0@);
            lemma_tag_map_dom(t2, t2.last().0@);
            assert(t2[t2.len() - 1].0@ == t2.last().0@);
            assert(false);
        }
    } else if t2.len() == 0 {
        lemma_tag_map_dom(t1, t1.last().0@);
        lemma_tag_map_dom(t2, t1.last().0@);
        assert(t1[t1.len() - 1].0@ == t1.last().0@);
        assert(false);
    } else {
        let k1 = t1.last().0@;
        let k2 = t2.last().0@;
        // the last key of one vector occurs in the other
        lemma_tag_map_dom(t1, k1);
        lemma_tag_map_dom(t2, k1);
        lemma_tag_map_dom(t1, k2);
        lemma_tag_map_dom(t2, k2);
        assert(t1[t1.len() - 1].0@ == k1);
        assert(t2[t2.len() - 1].0@ == k2);
        if k1 != k2 {
            let j2 = choose|i: int| 0 <= i < t2.len() && (#[trigger] t2[i]).0@ == k1;
            let j1 = choose|i: int| 0 <= i < t1.len() && (#[trigger] t1[i]).0@ == k2;
            assert(j2 < t2.len() - 1);
            assert(j1 < t1.len() - 1);
            assert(lex_lt(k1, k2));
            assert(lex_lt(k2, k1));
            crate::text::lemma_lex_trans(k1, k2, k1);
            crate::text::lemma_lex_irrefl(k1);
            assert(false);
        }
        // equal last keys carry equal values
        assert(tag_map(t1)[k1] == t1.last().1@);
        assert(tag_map(t2)[k1] == t2.last().1@);
        // the key is absent from both fronts
        assert forall|i: int| 0 <= i < t1.len() - 1 implies (#[trigger] t1[i]).0@ != k1 by {
            if t1[i].0@ == k1 {
                crate::text::lemma_lex_irrefl(k1);
            }
        }
        assert forall|i: int| 0 <= i < t2.len() - 1 implies (#[trigger] t2[i]).0@ != k1 by {
            if t2[i].0@ == k1 {
                crate::text::lemma_lex_irrefl(k1);
            }
        }
        lemma_tag_map_dom(t1.drop_last(), k1);
        lemma_tag_map_dom(t2.drop_last(), k1);
        assert forall|i: int|
            0 <= i < t1.drop_last().len() implies (#[trigger] t1.drop_last()[i]).0@ != k1 by {
            assert(t1.drop_last()[i] == t1[i]);
        }
        assert forall|i: int|
            0 <= i < t2.drop_last().len() implies (#[trigger] t2.drop_last()[i]).0@ != k1 by {
            assert(t2.drop_last()[i] == t2[i]);
        }
        assert(tag_map(t1.drop_last()) =~= tag_map(t1).remove(k1));
        assert(tag_map(t2.drop_last()) =~= tag_map(t2).remove(k1));
        assert(tags_sorted(t1.drop_last())) by {
            assert forall|p: int, q: int|
                0 <= p < q < t1.drop_last().len() implies lex_lt(
                t1.drop_last()[p].0@,
                t1.drop_last()[q].0@,
            ) by {
                assert(t1.drop_last()[p] == t1[p]);
                assert(t1.drop_last()[q] == t1[q]);
            }
        }
        assert(tags_sorted(t2.drop_last())) by {
            assert forall|p: int, q: int|
                0 <= p < q < t2.drop_last().len() implies lex_lt(
                t2.drop_last()[p].0@,
                t2.drop_last()[q].0@,
            ) by {
                assert(t2.drop_last()[p] == t2[p]);
                assert(t2.drop_last()[q] == t2[q]);
            }
        }
        lemma_canonical_tags_unique(t1.drop_last(), t2.drop_last());
        assert forall|i: int|
            0 <= i < t1.len() implies (#[trigger] t1[i]).0@ == t2[i].0@ && t1[i].1@
            == t2[i].1@ by {
            if i < t1.len() - 1 {
                assert(t1.drop_last()[i] == t1[i]);
                assert(t2.drop_last()[i] == t2[i]);
            }
        }
    }
}

proof fn lemma_join_tags_congruent(t1: Seq<(String, String)>, t2: Seq<(String, String)>)
    requires
        t1.len() == t2.len(),
        forall|i: int|
            0 <= i < t1.len() ==> (#[trigger] t1[i]).0@ == t2[i].0@ && t1[i].1@ == t2[i].1@,
    ensures
        spec_join_tags(t1) == spec_join_tags(t2),
    decreases t1.len(),
{
    if t1.len() > 0 {
        assert forall|i: int|
            0 <= i < t1.drop_last().len() implies (#[trigger] t1.drop_last()[i]).0@
            == t2.drop_last()[i].0@ && t1.drop_last()[i].1@ == t2.drop_last()[i].1@ by {
            assert(t1.drop_last()[i] == t1[i]);
            assert(t2.drop_last()[i] == t2[i]);
        }
        lemma_join_tags_congruent(t1.drop_last(), t2.drop_last());
        assert(t1[t1.len() - 1].0@ == t2[t1.len() - 1].0@ && t1[t1.len() - 1].1@ == t2[t1.len()
            - 1].1@);
    }
}

/// Canonical series keys: two sorted tag vectors carrying the same tag map
/// give one metric the same series key.
pub proof fn lemma_series_key_canonical(
    metric: Seq<char>,
    t1: Seq<(String, String)>,
    t2: Seq<(String, String)>,
)
    requires
        tags_sorted(t1),
        tags_sorted(t2),
        tag_map(t1) == tag_map(t2),
    ensures
        spec_series_key(metric, t1) == spec_series_key(metric, t2),
{
    lemma_canonical_tags_unique(t1, t2);
    lemma_join_tags_congruent(t1, t2);
}

proof fn lemma_tags_sorted_update(t: Seq<(String, String)>, i: int, e: (String, String))
    requires
        tags_sorted(t),
        0 <= i < t.len(),
        t[i].0@ == e.0@,
    ensures
        tags_sorted(t.update(i, e)),
{
    let u = t.update(i, e);
    assert forall|p: int, q: int| 0 <= p < q < u.len() implies lex_lt(u[p].0@, u[q].0@) by {
        assert(u[p].0@ == t[p].0@);
        assert(u[q].0@ == t[q].0@);
    }
}

proof fn lemma_tags_sorted_insert(t: Seq<(String, String)>, i: int, e: (String, String))
    requires
        tags_sorted(t),
        0 <= i <= t.len(),
        forall|j: int| 0 <= j < i ==> lex_lt(t[j].0@, e.0@),
        forall|j: int| i <= j < t.len() ==> lex_lt(e.0@, t[j].0@),
    ensures
        tags_sorted(t.insert(i, e)),
{
    let u = t.insert(i, e);
    assert forall|p: int, q: int| 0 <= p < q < u.len() implies lex_lt(u[p].0@, u[q].0@) by {
        if p < i {
            assert(u[p] == t[p]);
        } else if p == i {
            assert(u[p] == e);
        } else {
            assert(u[p] == t[p - 1]);
        }
        if q < i {
            assert(u[q] == t[q]);
        } else if q == i {
            assert(u[q] == e);
        } else {
            assert(u[q] == t[q - 1]);
        }
    }
}

proof fn lemma_tag_map_insert(t: Seq<(String, String)>, i: int, e: (String, String))
    requires
        0 <= i <= t.len(),
        forall|j: int| 0 <= j < t.len() ==> t[j].0@ != e.0@,
    ensures
        tag_map(t.insert(i, e)) =~= tag_map(t).insert(e.0@, e.1@),
    decreases t.len(),
{
    let u = t.insert(i, e);
    if i == t.len() {
        assert(u.drop_last() =~= t);
        assert(u.last() == e);
    } else {
        assert(u.last() == t.last());
        assert(u.drop_last() =~= t.drop_last().insert(i, e));
        lemma_tag_map_insert(t.drop_last(), i, e);
        assert(tag_map(u) =~= tag_map(t.drop_last()).insert(e.0@, e.1@).insert(
            t.last().0@,
            t.last().1@,
        ));
        assert(t[t.len() - 1].0@ != e.0@);
        assert(tag_map(t.drop_last()).insert(e.0@, e.1@).insert(t.last().0@, t.last().1@)
            =~= tag_map(t).insert(e.0@, e.1@));
    }
}

proof fn lemma_tag_map_update(t: Seq<(String, String)>, i: int, e: (String, String))
    requires
        tags_sorted(t),
        0 <= i < t.len(),
        t[i].0@ == e.0@,
    ensures
        tag_map(t.update(i, e)) =~= tag_map(t).insert(e.0@, e.1@),
    decreases t.len(),
{
    let u = t.update(i, e);
    if i == t.len() - 1 {
        assert(u.drop_last() =~= t.drop_last());
        assert(u.last() == e);
    } else {
        assert(u.last() == t.last());
        assert(u.drop_last() =~= t.drop_last().update(i, e));
        assert(tags_sorted(t.drop_last())) by {
            assert forall|p: int, q: int|
                0 <= p < q < t.drop_last().len() implies lex_lt(
                t.drop_last()[p].0@,
                t.drop_last()[q].0@,
            ) by {
                assert(t.drop_last()[p] == t[p]);
                assert(t.drop_last()[q] == t[q]);
            }
        }
        lemma_tag_map_update(t.drop_last(), i, e);
        assert(lex_lt(t[i].0@, t[t.len() - 1].0@));
        assert(t.last().0@ != e.0@) by {
            crate::text::lemma_lex_irrefl(t[i].0@);
        }
        assert(tag_map(u) =~= tag_map(t).insert(e.0@, e.1@));
    }
}

} // verus!
