//! The vocabulary: a mapping from byte sequences to integer ranks, held as a
//! vector of entries sorted in ascending byte-lexicographic key order. The
//! sorted entry list doubles as the sorted token index that prefix queries
//! walk.
use vstd::prelude::*;

use crate::bytes::{bytes_eq, lemma_lex_asym, lemma_lex_irrefl, lemma_lex_total, lemma_lex_trans,
    lex_lt, lex_lt_exec};

verus! {

/// Association-list lookup: the value of the first entry whose key is `k`.
pub open spec fn spec_get(s: Seq<(Seq<u8>, u32)>, k: Seq<u8>) -> Option<u32>
    decreases s.len(),
{
    if s.len() == 0 {
        None
    } else if s[0].0 == k {
        Some(s[0].1)
    } else {
        spec_get(s.drop_first(), k)
    }
}

/// The value attached to the last pair whose key is `k`, scanning `pairs` in
/// order: later pairs overwrite earlier ones.
pub open spec fn last_value(pairs: Seq<(Seq<u8>, u32)>, k: Seq<u8>) -> Option<u32>
    decreases pairs.len(),
{
    if pairs.len() == 0 {
        None
    } else if pairs.last().0 == k {
        Some(pairs.last().1)
    } else {
        last_value(pairs.drop_last(), k)
    }
}

/// What a rank-table query answers, as an option on the map.
pub open spec fn spec_get_opt(m: Map<Seq<u8>, u32>, k: Seq<u8>) -> Option<u32> {
    if m.contains_key(k) {
        Some(m[k])
    } else {
        None
    }
}

/// The index where a scan from the left first meets a key not below `u`.
pub open spec fn lb_from(s: Seq<(Seq<u8>, u32)>, u: Seq<u8>, i: int) -> int
    decreases s.len() - i + 1,
{
    if 0 <= i < s.len() && lex_lt(s[i].0, u) {
        lb_from(s, u, i + 1)
    } else {
        i
    }
}

/// The first entry index whose key is not lexicographically below `u`.
pub open spec fn spec_lower_bound(s: Seq<(Seq<u8>, u32)>, u: Seq<u8>) -> int {
    lb_from(s, u, 0)
}

/// What the scan index satisfies.
pub proof fn lemma_lb_props(s: Seq<(Seq<u8>, u32)>, u: Seq<u8>, i: int)
    requires
        0 <= i <= s.len(),
    ensures
        i <= lb_from(s, u, i) <= s.len(),
        forall|q: int| i <= q < lb_from(s, u, i) ==> lex_lt(#[trigger] s[q].0, u),
        lb_from(s, u, i) < s.len() ==> !lex_lt(s[lb_from(s, u, i)].0, u),
    decreases s.len() - i,
{
    if 0 <= i < s.len() && lex_lt(s[i].0, u) {
        lemma_lb_props(s, u, i + 1);
    }
}

pub struct Vocab {
    pub entries: Vec<(Vec<u8>, u32)>,
}

impl Vocab {
    /// The entry list as a sequence of (key bytes, rank) pairs.
    pub open spec fn kv(self) -> Seq<(Seq<u8>, u32)> {
        self.entries@.map_values(|p: (Vec<u8>, u32)| (p.0@, p.1))
    }

    /// Entries are strictly sorted by key, so keys are unique.
    pub open spec fn wf(self) -> bool {
        forall|i: int, j: int|
            0 <= i < j < self.kv().len() ==> lex_lt(self.kv()[i].0, self.kv()[j].0)
    }

    /// The rank mapped to key `k`, if any.
    pub open spec fn rank_of(self, k: Seq<u8>) -> Option<u32> {
        spec_get(self.kv(), k)
    }

    /// The mapping as a mathematical map from key bytes to rank.
    pub open spec fn as_map(self) -> Map<Seq<u8>, u32> {
        Map::new(|k: Seq<u8>| spec_get(self.kv(), k) is Some, |k: Seq<u8>| spec_get(self.kv(), k)->0)
    }

    /// `rank_of` and the map view answer lookups alike.
    pub proof fn lemma_rank_of_as_map(self, k: Seq<u8>)
        ensures
            self.rank_of(k) == spec_get_opt(self.as_map(), k),
    {
        assert(self.as_map().contains_key(k) == (spec_get(self.kv(), k) is Some));
        if self.as_map().contains_key(k) {
            assert(self.as_map()[k] == spec_get(self.kv(), k)->0);
        }
    }

    pub fn count(&self) -> (r: usize)
        ensures
            r == self.kv().len(),
    {
        self.entries.len()
    }

    pub fn key_at(&self, i: usize) -> (r: &Vec<u8>)
        requires
            i < self.kv().len(),
        ensures
            r@ == self.kv()[i as int].0,
    {
        &self.entries[i].0
    }

    pub fn rank_at(&self, i: usize) -> (r: u32)
        requires
            i < self.kv().len(),
        ensures
            r == self.kv()[i as int].1,
    {
        self.entries[i].1
    }

    /// The index of the first entry whose key is not lexicographically below
    /// `key`: the start of the range a prefix scan walks.
    pub fn lower_bound(&self, key: &[u8]) -> (r: usize)
        requires
            self.wf(),
        ensures
            r <= self.kv().len(),
            forall|i: int| 0 <= i < r ==> lex_lt(self.kv()[i].0, key@),
            forall|i: int| r <= i < self.kv().len() ==> !lex_lt(self.kv()[i].0, key@),
            r as int == spec_lower_bound(self.kv(), key@),
    {
        proof {
            lemma_lb_props(self.kv(), key@, 0);
        }
        let mut lo: usize = 0;
        let mut hi: usize = self.entries.len();
        while lo < hi
            invariant
                0 <= lo <= hi <= self.kv().len(),
                self.wf(),
                forall|i: int| 0 <= i < lo ==> lex_lt(self.kv()[i].0, key@),
                forall|i: int| hi <= i < self.kv().len() ==> !lex_lt(self.kv()[i].0, key@),
            decreases hi - lo,
        {
            let mid: usize = lo + (hi - lo) / 2;
            if lex_lt_exec(self.entries[mid].0.as_slice(), key) {
                proof {
                    assert forall|i: int| 0 <= i < mid + 1 implies lex_lt(
                        self.kv()[i].0,
                        key@,
                    ) by {
                        if i < mid {
                            lemma_lex_trans(self.kv()[i].0, self.kv()[mid as int].0, key@);
                        }
                    }
                }
                lo = mid + 1;
            } else {
                proof {
                    assert forall|i: int| mid <= i < self.kv().len() implies !lex_lt(
                        self.kv()[i].0,
                        key@,
                    ) by {
                        if i > mid {
                            lemma_lex_asym(self.kv()[mid as int].0, self.kv()[i].0);
                            lemma_lex_trans(self.kv()[i].0, key@, self.kv()[mid as int].0);
                            lemma_lex_total(self.kv()[i].0, key@);
                            lemma_lex_total(self.kv()[mid as int].0, key@);
                        }
                    }
                }
                hi = mid;
            }
        }
        proof {
            let lb = spec_lower_bound(self.kv(), key@);
            if lo < lb {
                assert(lex_lt(self.kv()[lo as int].0, key@));
                assert(!lex_lt(self.kv()[lo as int].0, key@));
            } else if lo > lb {
                assert(lb < self.kv().len());
                assert(!lex_lt(self.kv()[lb].0, key@));
                assert(lex_lt(self.kv()[lb].0, key@));
            }
        }
        lo
    }

    /// Looks up the rank of `key` by binary search.
    pub fn get(&self, key: &[u8]) -> (r: Option<u32>)
        requires
            self.wf(),
        ensures
            r == self.rank_of(key@),
            r == spec_get_opt(self.as_map(), key@),
    {
        proof {
            self.lemma_rank_of_as_map(key@);
        }
        let idx = self.lower_bound(key);
        if idx < self.entries.len() && bytes_eq(self.entries[idx].0.as_slice(), key) {
            proof {
                lemma_spec_get_at(self.kv(), key@, idx as int);
            }
            Some(self.entries[idx].1)
        } else {
            proof {
                assert forall|i: int| 0 <= i < self.kv().len() implies self.kv()[i].0 != key@ by {
                    if i < idx {
                        lemma_lex_irrefl(key@);
                    } else if i > idx {
                        lemma_lex_total(self.kv()[idx as int].0, key@);
                        lemma_lex_trans(key@, self.kv()[idx as int].0, self.kv()[i].0);
                        lemma_lex_irrefl(self.kv()[i].0);
                    }
                }
                lemma_spec_get_absent(self.kv(), key@);
            }
            None
        }
    }

    /// Builds a vocabulary from (key, rank) pairs taken in order; a later pair
    /// with the same key overwrites the rank of an earlier one.
    pub fn from_pairs(pairs: &Vec<(Vec<u8>, u32)>) -> (r: Vocab)
        ensures
            r.wf(),
            forall|k: Seq<u8>| #[trigger] r.rank_of(k) == last_value(pairs.deep_view(), k),
    {
        let mut v = Vocab { entries: Vec::new() };
        let mut n: usize = 0;
        proof {
            assert(pairs.deep_view().take(0) =~= Seq::<(Seq<u8>, u32)>::empty());
        }
        while n < pairs.len()
            invariant
                0 <= n <= pairs@.len(),
                pairs.deep_view().len() == pairs@.len(),
                v.wf(),
                forall|k: Seq<u8>| #[trigger] v.rank_of(k) == last_value(
                    pairs.deep_view().take(n as int),
                    k,
                ),
            decreases pairs@.len() - n,
        {
            let key: Vec<u8> = vstd::slice::slice_to_vec(pairs[n].0.as_slice());
            let val: u32 = pairs[n].1;
            proof {
                assert(pairs.deep_view()[n as int] == (pairs@[n as int].0@, pairs@[n as int].1));
            }
            v.put(&key, val);
            proof {
                let prev = pairs.deep_view().take(n as int);
                let cur = pairs.deep_view().take(n + 1);
                assert(cur.drop_last() =~= prev);
                assert(cur.last() == (key@, val));
                assert forall|k: Seq<u8>| #[trigger] v.rank_of(k) == last_value(cur, k) by {
                    if k == key@ {
                        assert(last_value(cur, k) == Some(val));
                    } else {
                        assert(last_value(cur, k) == last_value(prev, k));
                    }
                }
            }
            n = n + 1;
        }
        proof {
            assert(pairs.deep_view().take(pairs@.len() as int) =~= pairs.deep_view());
        }
        v
    }

    /// Inserts or overwrites one key.
    fn put(&mut self, key: &Vec<u8>, val: u32)
        requires
            old(self).wf(),
        ensures
            final(self).wf(),
            forall|k: Seq<u8>| #[trigger] final(self).rank_of(k) == if k == key@ {
                Some(val)
            } else {
                old(self).rank_of(k)
            },
    {
        let idx = self.lower_bound(key.as_slice());
        let ghost old_kv = self.kv();
        if idx < self.entries.len() && bytes_eq(self.entries[idx].0.as_slice(), key.as_slice()) {
            self.entries.remove(idx);
            proof {
                assert(self.kv() =~= old_kv.remove(idx as int));
                lemma_sorted_remove(old_kv, idx as int);
                assert forall|i: int| 0 <= i < self.kv().len() implies self.kv()[i].0 != key@ by {
                    lemma_sorted_unique_gone(old_kv, idx as int, i);
                }
            }
            let ghost mid_kv = self.kv();
            self.entries.insert(idx, (vstd::slice::slice_to_vec(key.as_slice()), val));
            proof {
                assert(self.kv() =~= mid_kv.insert(idx as int, (key@, val)));
                lemma_sorted_insert(mid_kv, idx as int, key@, val, old_kv, idx as int);
                lemma_get_after_insert(mid_kv, idx as int, key@, val);
                assert forall|k: Seq<u8>| #[trigger] self.rank_of(k) == if k == key@ {
                    Some(val)
                } else {
                    spec_get(old_kv, k)
                } by {
                    if k != key@ {
                        lemma_get_after_remove(old_kv, idx as int, k);
                    }
                }
            }
        } else {
            proof {
                assert forall|i: int| 0 <= i < old_kv.len() implies old_kv[i].0 != key@ by {
                    if i < idx {
                        lemma_lex_irrefl(key@);
                    } else if i > idx {
                        lemma_lex_total(old_kv[idx as int].0, key@);
                        lemma_lex_trans(key@, old_kv[idx as int].0, old_kv[i].0);
                        lemma_lex_irrefl(old_kv[i].0);
                    }
                }
                lemma_spec_get_absent(old_kv, key@);
            }
            self.entries.insert(idx, (vstd::slice::slice_to_vec(key.as_slice()), val));
            proof {
                assert(self.kv() =~= old_kv.insert(idx as int, (key@, val)));
                lemma_sorted_insert2(old_kv, idx as int, key@, val);
                lemma_get_after_insert(old_kv, idx as int, key@, val);
            }
        }
    }
}

/// In a strictly sorted entry list, a match at index `i` is what `spec_get`
/// returns.
pub proof fn lemma_spec_get_at(s: Seq<(Seq<u8>, u32)>, k: Seq<u8>, i: int)
    requires
        0 <= i < s.len(),
        s[i].0 == k,
        forall|a: int, b: int| 0 <= a < b < s.len() ==> lex_lt(s[a].0, s[b].0),
    ensures
        spec_get(s, k) == Some(s[i].1),
    decreases s.len(),
{
    if i == 0 {
    } else {
        assert(s[0].0 != k) by {
            lemma_lex_irrefl(s[0].0);
        }
        assert forall|a: int, b: int|
            0 <= a < b < s.drop_first().len() implies lex_lt(
            s.drop_first()[a].0,
            s.drop_first()[b].0,
        ) by {
            assert(s.drop_first()[a] == s[a + 1]);
            assert(s.drop_first()[b] == s[b + 1]);
        }
        assert(s.drop_first()[i - 1] == s[i]);
        lemma_spec_get_at(s.drop_first(), k, i - 1);
    }
}

/// If no entry's key is `k`, `spec_get` returns nothing.
pub proof fn lemma_spec_get_absent(s: Seq<(Seq<u8>, u32)>, k: Seq<u8>)
    requires
        forall|i: int| 0 <= i < s.len() ==> s[i].0 != k,
    ensures
        spec_get(s, k) is None,
    decreases s.len(),
{
    if s.len() > 0 {
        assert forall|i: int| 0 <= i < s.drop_first().len() implies s.drop_first()[i].0 != k by {
            assert(s.drop_first()[i] == s[i + 1]);
        }
        lemma_spec_get_absent(s.drop_first(), k);
    }
}

proof fn lemma_sorted_remove(s: Seq<(Seq<u8>, u32)>, idx: int)
    requires
        0 <= idx < s.len(),
        forall|a: int, b: int| 0 <= a < b < s.len() ==> lex_lt(s[a].0, s[b].0),
    ensures
        forall|a: int, b: int|
            0 <= a < b < s.remove(idx).len() ==> lex_lt(s.remove(idx)[a].0, s.remove(idx)[b].0),
{
    assert forall|a: int, b: int| 0 <= a < b < s.remove(idx).len() implies lex_lt(
        s.remove(idx)[a].0,
        s.remove(idx)[b].0,
    ) by {
        let a0 = if a < idx {
            a
        } else {
            a + 1
        };
        let b0 = if b < idx {
            b
        } else {
            b + 1
        };
        assert(s.remove(idx)[a] == s[a0]);
        assert(s.remove(idx)[b] == s[b0]);
    }
}

proof fn lemma_sorted_unique_gone(s: Seq<(Seq<u8>, u32)>, idx: int, i: int)
    requires
        0 <= idx < s.len(),
        0 <= i < s.remove(idx).len(),
        forall|a: int, b: int| 0 <= a < b < s.len() ==> lex_lt(s[a].0, s[b].0),
    ensures
        s.remove(idx)[i].0 != s[idx].0,
{
    let i0 = if i < idx {
        i
    } else {
        i + 1
    };
    assert(s.remove(idx)[i] == s[i0]);
    if i0 < idx {
        lemma_lex_irrefl(s[idx].0);
    } else {
        lemma_lex_irrefl(s[i0].0);
    }
}

/// Inserting `(k, v)` where the scan position `idx` was computed for `k` on
/// the list `orig` before the duplicate entry, if any, was taken out
/// keeps the list sorted.
proof fn lemma_sorted_insert(
    s: Seq<(Seq<u8>, u32)>,
    idx: int,
    k: Seq<u8>,
    v: u32,
    orig: Seq<(Seq<u8>, u32)>,
    oidx: int,
)
    requires
        0 <= idx <= s.len(),
        0 <= oidx < orig.len(),
        s == orig.remove(oidx),
        idx == oidx,
        forall|a: int, b: int| 0 <= a < b < orig.len() ==> lex_lt(orig[a].0, orig[b].0),
        forall|i: int| 0 <= i < idx ==> lex_lt(orig[i].0, k),
        forall|i: int| idx <= i < orig.len() ==> !lex_lt(orig[i].0, k),
        orig[oidx].0 == k,
    ensures
        forall|a: int, b: int|
            0 <= a < b < s.insert(idx, (k, v)).len() ==> lex_lt(
                s.insert(idx, (k, v))[a].0,
                s.insert(idx, (k, v))[b].0,
            ),
{
    let t = s.insert(idx, (k, v));
    assert forall|a: int, b: int| 0 <= a < b < t.len() implies lex_lt(t[a].0, t[b].0) by {
        let a0 = if a < idx {
            a
        } else if a == idx {
            a
        } else {
            a
        };
        if a < idx && b < idx {
            assert(t[a] == s[a] && t[b] == s[b]);
            assert(s[a] == orig[a] && s[b] == orig[b]);
        } else if a < idx && b == idx {
            assert(t[a] == s[a] && s[a] == orig[a]);
            assert(t[b].0 == k);
        } else if a < idx && b > idx {
            assert(t[a] == s[a] && s[a] == orig[a]);
            assert(t[b] == s[b - 1] && s[b - 1] == orig[b]);
        } else if a == idx {
            assert(t[a].0 == k);
            assert(t[b] == s[b - 1] && s[b - 1] == orig[b]);
            assert(lex_lt(orig[oidx].0, orig[b].0));
        } else {
            assert(t[a] == s[a - 1] && s[a - 1] == orig[a]);
            assert(t[b] == s[b - 1] && s[b - 1] == orig[b]);
        }
    }
}

/// Inserting a fresh key at its scan position keeps the list sorted.
proof fn lemma_sorted_insert2(s: Seq<(Seq<u8>, u32)>, idx: int, k: Seq<u8>, v: u32)
    requires
        0 <= idx <= s.len(),
        forall|a: int, b: int| 0 <= a < b < s.len() ==> lex_lt(s[a].0, s[b].0),
        forall|i: int| 0 <= i < idx ==> lex_lt(s[i].0, k),
        forall|i: int| idx <= i < s.len() ==> !lex_lt(s[i].0, k),
        forall|i: int| 0 <= i < s.len() ==> s[i].0 != k,
    ensures
        forall|a: int, b: int|
            0 <= a < b < s.insert(idx, (k, v)).len() ==> lex_lt(
                s.insert(idx, (k, v))[a].0,
                s.insert(idx, (k, v))[b].0,
            ),
{
    let t = s.insert(idx, (k, v));
    assert forall|a: int, b: int| 0 <= a < b < t.len() implies lex_lt(t[a].0, t[b].0) by {
        if a < idx && b < idx {
            assert(t[a] == s[a] && t[b] == s[b]);
        } else if a < idx && b == idx {
            assert(t[a] == s[a]);
        } else if a < idx && b > idx {
            assert(t[a] == s[a] && t[b] == s[b - 1]);
        } else if a == idx {
            assert(t[b] == s[b - 1]);
            lemma_lex_total(s[b - 1].0, k);
        } else {
            assert(t[a] == s[a - 1] && t[b] == s[b - 1]);
        }
    }
}

/// How `spec_get` answers queries after an insertion of a key absent from `s`.
proof fn lemma_get_after_insert(s: Seq<(Seq<u8>, u32)>, idx: int, k: Seq<u8>, v: u32)
    requires
        0 <= idx <= s.len(),
        forall|i: int| 0 <= i < s.len() ==> s[i].0 != k,
    ensures
        forall|q: Seq<u8>| #[trigger] spec_get(s.insert(idx, (k, v)), q) == if q == k {
            Some(v)
        } else {
            spec_get(s, q)
        },
    decreases s.len(), idx,
{
    let t = s.insert(idx, (k, v));
    assert forall|q: Seq<u8>| #[trigger] spec_get(t, q) == if q == k {
        Some(v)
    } else {
        spec_get(s, q)
    } by {
        if idx == 0 {
            assert(t[0] == (k, v));
            if q != k {
                assert(t.drop_first() =~= s);
            }
        } else {
            assert(t[0] == s[0]);
            assert forall|i: int| 0 <= i < s.drop_first().len() implies s.drop_first()[i].0
                != k by {
                assert(s.drop_first()[i] == s[i + 1]);
            }
            lemma_get_after_insert(s.drop_first(), idx - 1, k, v);
            assert(t.drop_first() =~= s.drop_first().insert(idx - 1, (k, v)));
            if q == k {
                assert(s[0].0 != k);
                assert(spec_get(t, q) == spec_get(t.drop_first(), q));
            }
        }
    }
}

/// Removing an entry leaves lookups of all other keys unchanged, provided keys
/// are unique.
proof fn lemma_get_after_remove(s: Seq<(Seq<u8>, u32)>, idx: int, q: Seq<u8>)
    requires
        0 <= idx < s.len(),
        q != s[idx].0,
    ensures
        spec_get(s.remove(idx), q) == spec_get(s, q),
    decreases s.len(),
{
    if idx == 0 {
        assert(s.remove(0) =~= s.drop_first());
    } else {
        assert(s.remove(idx)[0] == s[0]);
        if s[0].0 == q {
        } else {
            assert(s.remove(idx).drop_first() =~= s.drop_first().remove(idx - 1));
            lemma_get_after_remove(s.drop_first(), idx - 1, q);
        }
    }
}

} // verus!
