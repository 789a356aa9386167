//! Aggregation of the latest per-server rates. The meter is a keyed
//! table: each running sampler upserts its newest rate under its
//! server's URL and removes the entry when its stream ends, and the
//! current aggregate is the sum of the values present. Mutation is
//! serialized by the single owner of the meter — callers that share it
//! across tasks put it behind their own mutual exclusion, so a reader
//! never observes a half-applied update.

use vstd::prelude::*;
use vstd::map::*;

verus! {

/// One table entry: a server's URL and its most recently reported rate
/// in bytes per second.
struct RateEntry {
    server: String,
    rate: u64,
}

/// No server occurs twice in the table.
spec fn keys_unique(s: Seq<RateEntry>) -> bool {
    forall|i: int, j: int|
        0 <= i < j < s.len() ==> (#[trigger] s[i].server@) != (#[trigger] s[j].server@)
}

/// The table read as a map from server URL to latest rate.
spec fn map_of(s: Seq<RateEntry>) -> Map<Seq<char>, u64>
    decreases s.len(),
{
    if s.len() == 0 {
        Map::empty()
    } else {
        map_of(s.drop_last()).insert(s.last().server@, s.last().rate)
    }
}

/// Sum of every rate in the table.
spec fn sum_of(s: Seq<RateEntry>) -> int
    decreases s.len(),
{
    if s.len() == 0 {
        0
    } else {
        sum_of(s.drop_last()) + s.last().rate
    }
}

proof fn lemma_map_of_contains(s: Seq<RateEntry>, k: Seq<char>)
    ensures
        map_of(s).contains_key(k) <==> exists|i: int| 0 <= i < s.len() && (#[trigger] s[i].server@)
            == k,
    decreases s.len(),
{
    broadcast use group_map_axioms;

    if s.len() > 0 {
        lemma_map_of_contains(s.drop_last(), k);
        if s.last().server@ == k {
            assert(s[s.len() - 1].server@ == k);
        } else if map_of(s).contains_key(k) {
            let i = choose|i: int| 0 <= i < s.drop_last().len() && (#[trigger] s.drop_last()[i].server@)
                == k;
            assert(s[i].server@ == k);
        } else {
            assert forall|i: int| 0 <= i < s.len() implies (#[trigger] s[i].server@) != k by {
                if i < s.len() - 1 {
                    assert(s.drop_last()[i].server@ == s[i].server@);
                }
            }
        }
    }
}

proof fn lemma_map_of_get(s: Seq<RateEntry>, i: int)
    requires
        keys_unique(s),
        0 <= i < s.len(),
    ensures
        map_of(s).contains_key(s[i].server@),
        map_of(s)[s[i].server@] == s[i].rate,
    decreases s.len(),
{
    broadcast use group_map_axioms;

    if i == s.len() - 1 {
    } else {
        assert(keys_unique(s.drop_last()));
        assert(s.drop_last()[i] == s[i]);
        lemma_map_of_get(s.drop_last(), i);
        assert(s[i].server@ != s.last().server@);
    }
}

proof fn lemma_update(s: Seq<RateEntry>, i: int, e: RateEntry)
    requires
        keys_unique(s),
        0 <= i < s.len(),
        e.server@ == s[i].server@,
    ensures
        keys_unique(s.update(i, e)),
        map_of(s.update(i, e)) == map_of(s).insert(e.server@, e.rate),
        sum_of(s.update(i, e)) == sum_of(s) - s[i].rate + e.rate,
    decreases s.len(),
{
    broadcast use group_map_axioms;

    let t = s.update(i, e);
    assert(t.len() == s.len());
    if i == s.len() - 1 {
        assert(t.drop_last() =~= s.drop_last());
        assert(t.last() == e);
        assert(map_of(t) =~= map_of(s).insert(e.server@, e.rate));
    } else {
        assert(keys_unique(s.drop_last()));
        assert(s.drop_last()[i] == s[i]);
        lemma_update(s.drop_last(), i, e);
        assert(t.drop_last() =~= s.drop_last().update(i, e));
        assert(t.last() == s.last());
        assert(e.server@ != s.last().server@);
        assert(map_of(t) == map_of(s.drop_last()).insert(e.server@, e.rate).insert(
            s.last().server@,
            s.last().rate,
        ));
        assert(map_of(t) =~= map_of(s).insert(e.server@, e.rate));
    }
}

proof fn lemma_remove(s: Seq<RateEntry>, i: int)
    requires
        keys_unique(s),
        0 <= i < s.len(),
    ensures
        keys_unique(s.remove(i)),
        map_of(s.remove(i)) == map_of(s).remove(s[i].server@),
        sum_of(s.remove(i)) == sum_of(s) - s[i].rate,
    decreases s.len(),
{
    broadcast use group_map_axioms;

    let t = s.remove(i);
    assert forall|a: int, b: int| 0 <= a < b < t.len() implies (#[trigger] t[a].server@)
        != (#[trigger] t[b].server@) by {
        let a2 = if a < i { a } else { a + 1 };
        let b2 = if b < i { b } else { b + 1 };
        assert(t[a] == s[a2] && t[b] == s[b2]);
    }
    if i == s.len() - 1 {
        assert(t =~= s.drop_last());
        assert(keys_unique(s.drop_last()));
        lemma_map_of_contains(s.drop_last(), s[i].server@);
        assert forall|j: int| 0 <= j < s.drop_last().len() implies (#[trigger] s.drop_last()[j].server@)
            != s[i].server@ by {
            assert(s[j].server@ != s[i].server@);
        }
        assert(!map_of(s.drop_last()).contains_key(s[i].server@));
        assert(map_of(t) =~= map_of(s).remove(s[i].server@));
    } else {
        assert(keys_unique(s.drop_last()));
        assert(s.drop_last()[i] == s[i]);
        lemma_remove(s.drop_last(), i);
        assert(t.drop_last() =~= s.drop_last().remove(i));
        assert(t.last() == s.last());
        assert(s[i].server@ != s.last().server@);
        assert(map_of(t) == map_of(s.drop_last()).remove(s[i].server@).insert(
            s.last().server@,
            s.last().rate,
        ));
        assert(map_of(t) =~= map_of(s).remove(s[i].server@));
    }
}

proof fn lemma_sum_bounds(s: Seq<RateEntry>)
    ensures
        0 <= sum_of(s) <= s.len() * (u64::MAX as int),
    decreases s.len(),
{
    if s.len() > 0 {
        lemma_sum_bounds(s.drop_last());
        assert((s.len() - 1) * (u64::MAX as int) + (u64::MAX as int) == s.len() * (
        u64::MAX as int)) by (nonlinear_arith);
    }
}

proof fn lemma_sum_take(s: Seq<RateEntry>, i: int)
    requires
        0 <= i < s.len(),
    ensures
        sum_of(s.take(i + 1)) == sum_of(s.take(i)) + s[i].rate,
{
    assert(s.take(i + 1).drop_last() =~= s.take(i));
    assert(s.take(i + 1).last() == s[i]);
}

/// Sum of the rates of a finite rate table, one per key, in whatever
/// order the keys come.
pub open spec fn map_rate_sum(m: Map<Seq<char>, u64>) -> int
    decreases m.dom().len(),
    when m.dom().finite()
    via map_rate_sum_decreases
{
    if m.dom().finite() && m.dom().len() > 0 {
        let k = m.dom().choose();
        m[k] + map_rate_sum(m.remove(k))
    } else {
        0
    }
}

#[via_fn]
proof fn map_rate_sum_decreases(m: Map<Seq<char>, u64>) {
    broadcast use vstd::set::group_set_axioms;
    broadcast use group_map_axioms;

    if m.dom().finite() && m.dom().len() > 0 {
        let k = m.dom().choose();
        assert(m.dom().contains(k));
        assert(m.remove(k).dom() =~= m.dom().remove(k));
    }
}

/// Taking one key out of a finite rate table takes exactly its rate
/// out of the sum.
proof fn lemma_map_rate_sum_remove(m: Map<Seq<char>, u64>, k: Seq<char>)
    requires
        m.dom().finite(),
        m.contains_key(k),
    ensures
        map_rate_sum(m) == map_rate_sum(m.remove(k)) + m[k],
    decreases m.dom().len(),
{
    broadcast use vstd::set::group_set_axioms;
    broadcast use group_map_axioms;

    assert(m.dom().contains(k));
    assert(m.dom().len() > 0);
    let c = m.dom().choose();
    assert(m.dom().contains(c));
    assert(m.remove(c).dom() =~= m.dom().remove(c));
    if c == k {
    } else {
        assert(m.remove(c).contains_key(k));
        lemma_map_rate_sum_remove(m.remove(c), k);
        assert(m.remove(k).dom() =~= m.dom().remove(k));
        assert(m.remove(k).contains_key(c));
        lemma_map_rate_sum_remove(m.remove(k), c);
        assert(m.remove(c).remove(k) =~= m.remove(k).remove(c));
        assert(m.remove(c)[k] == m[k]);
        assert(m.remove(k)[c] == m[c]);
    }
}

proof fn lemma_map_of_dom_finite(s: Seq<RateEntry>)
    ensures
        map_of(s).dom().finite(),
    decreases s.len(),
{
    broadcast use vstd::set::group_set_axioms;
    broadcast use group_map_axioms;

    if s.len() > 0 {
        lemma_map_of_dom_finite(s.drop_last());
        assert(map_of(s).dom() =~= map_of(s.drop_last()).dom().insert(s.last().server@));
    }
}

proof fn lemma_sum_of_matches_map_rate_sum(s: Seq<RateEntry>)
    requires
        keys_unique(s),
    ensures
        map_of(s).dom().finite(),
        sum_of(s) == map_rate_sum(map_of(s)),
    decreases s.len(),
{
    broadcast use vstd::set::group_set_axioms;
    broadcast use group_map_axioms;

    lemma_map_of_dom_finite(s);
    if s.len() == 0 {
        assert(map_of(s).dom() =~= Set::<Seq<char>>::empty());
    } else {
        let dl = s.drop_last();
        let k = s.last().server@;
        assert(keys_unique(dl));
        lemma_sum_of_matches_map_rate_sum(dl);
        lemma_map_of_contains(dl, k);
        assert forall|i: int| 0 <= i < dl.len() implies (#[trigger] dl[i].server@) != k by {
            assert(s[i].server@ != s[s.len() - 1].server@);
        }
        assert(!map_of(dl).contains_key(k));
        lemma_map_rate_sum_remove(map_of(s), k);
        assert(map_of(s).remove(k) =~= map_of(dl));
    }
}

/// The shared rate table: server URL → latest reported rate in bytes
/// per second. Its view is that map; `total_spec` is the sum of every
/// rate present.
pub struct AggregateMeter {
    entries: Vec<RateEntry>,
}

impl View for AggregateMeter {
    type V = Map<Seq<char>, u64>;

    closed spec fn view(&self) -> Map<Seq<char>, u64> {
        map_of(self.entries@)
    }
}

impl AggregateMeter {
    /// Internal consistency: no server is listed twice, so each key has
    /// one well-defined latest rate.
    pub closed spec fn wf(&self) -> bool {
        keys_unique(self.entries@)
    }

    /// The current aggregate rate: the sum of the latest rate of every
    /// server present.
    pub closed spec fn total_spec(&self) -> int {
        sum_of(self.entries@)
    }

    /// An empty table: no servers, aggregate zero.
    pub fn new() -> (r: AggregateMeter)
        ensures
            r.wf(),
            r@ == Map::<Seq<char>, u64>::empty(),
            r.total_spec() == 0,
    {
        AggregateMeter { entries: Vec::new() }
    }

    /// Index of the entry for `server`, if one is present.
    fn find(&self, server: &String) -> (r: Option<usize>)
        ensures
            match r {
                Some(i) => i < self.entries@.len() && self.entries@[i as int].server@ == server@,
                None => forall|i: int|
                    0 <= i < self.entries@.len() ==> (#[trigger] self.entries@[i].server@)
                        != server@,
            },
    {
        let n = self.entries.len();
        let mut i: usize = 0;
        while i < n
            invariant
                n == self.entries@.len(),
                0 <= i <= n,
                forall|j: int|
                    0 <= j < i ==> (#[trigger] self.entries@[j].server@) != server@,
            decreases n - i,
        {
            if self.entries[i].server == *server {
                return Some(i);
            }
            i += 1;
        }
        None
    }

    /// Records `rate` as the latest value for `server`, inserting the
    /// server if absent and overwriting its previous rate if present —
    /// last write wins per key. The aggregate changes by exactly the
    /// difference between the new rate and the one it replaced.
    pub fn upsert(&mut self, server: String, rate: u64)
        requires
            old(self).wf(),
        ensures
            final(self).wf(),
            final(self)@ == old(self)@.insert(server@, rate),
            final(self).total_spec() == old(self).total_spec() + rate - (
            if old(self)@.contains_key(server@) {
                old(self)@[server@]
            } else {
                0
            }),
    {
        broadcast use group_map_axioms;

        let found = self.find(&server);
        match found {
            Some(i) => {
                let ghost s = self.entries@;
                proof {
                    lemma_map_of_get(s, i as int);
                }
                let entry = RateEntry { server, rate };
                proof {
                    lemma_update(s, i as int, entry);
                }
                self.entries.set(i, entry);
            },
            None => {
                let ghost s = self.entries@;
                proof {
                    lemma_map_of_contains(s, server@);
                    assert(!map_of(s).contains_key(server@));
                }
                self.entries.push(RateEntry { server, rate });
                proof {
                    assert(self.entries@.drop_last() =~= s);
                    assert forall|a: int, b: int| 0 <= a < b < self.entries@.len() implies (
                    #[trigger] self.entries@[a].server@) != (#[trigger] self.entries@[b].server@) by {
                        if b < self.entries@.len() - 1 {
                            assert(s[a].server@ != s[b].server@);
                        } else {
                            assert(s[a].server@ == self.entries@[a].server@);
                        }
                    }
                }
            },
        }
    }

    /// Drops the entry for `server`, if any: a sampler that terminates
    /// stops contributing to the aggregate. Removing an absent server
    /// changes nothing.
    pub fn remove(&mut self, server: &String)
        requires
            old(self).wf(),
        ensures
            final(self).wf(),
            final(self)@ == old(self)@.remove(server@),
            final(self).total_spec() == old(self).total_spec() - (
            if old(self)@.contains_key(server@) {
                old(self)@[server@]
            } else {
                0
            }),
    {
        broadcast use group_map_axioms;

        let found = self.find(server);
        match found {
            Some(i) => {
                let ghost s = self.entries@;
                proof {
                    lemma_map_of_get(s, i as int);
                    lemma_remove(s, i as int);
                }
                self.entries.remove(i);
            },
            None => {
                proof {
                    lemma_map_of_contains(self.entries@, server@);
                    assert(!self@.contains_key(server@));
                    assert(self@.remove(server@) =~= self@);
                }
            },
        }
    }

    /// The current aggregate rate: the sum of every present rate, wide
    /// enough that it cannot overflow.
    pub fn total(&self) -> (r: u128)
        requires
            self.wf(),
        ensures
            r == self.total_spec(),
    {
        let n = self.entries.len();
        let mut acc: u128 = 0;
        let mut i: usize = 0;
        proof {
            assert(self.entries@.take(0) =~= Seq::<RateEntry>::empty());
        }
        while i < n
            invariant
                n == self.entries@.len(),
                0 <= i <= n,
                acc == sum_of(self.entries@.take(i as int)),
                acc <= (i as int) * (u64::MAX as int),
            decreases n - i,
        {
            proof {
                lemma_sum_take(self.entries@, i as int);
                assert((i as int) * (u64::MAX as int) + (u64::MAX as int) == (i + 1) * (
                u64::MAX as int)) by (nonlinear_arith);
                assert((i + 1) * (u64::MAX as int) <= (usize::MAX as int) * (u64::MAX as int)) by (
                nonlinear_arith)
                    requires
                        0 <= i + 1 <= usize::MAX as int,
                ;
                assert((usize::MAX as int) * (u64::MAX as int) < u128::MAX as int) by (
                nonlinear_arith);
            }
            acc = acc + self.entries[i].rate as u128;
            i += 1;
        }
        proof {
            assert(self.entries@.take(n as int) =~= self.entries@);
        }
        acc
    }

    /// The aggregate equals the sum, over every server present, of the
    /// latest rate written for it: updates overwrite per key, so no
    /// stale value and no half-applied interleaving of upserts can
    /// contribute to the total.
    pub proof fn lemma_total_is_sum_of_latest(&self)
        requires
            self.wf(),
        ensures
            self@.dom().finite(),
            self.total_spec() == map_rate_sum(self@),
    {
        lemma_sum_of_matches_map_rate_sum(self.entries@);
    }

    /// True exactly when no sampler currently contributes: the table
    /// holds no entry at all.
    pub fn is_empty(&self) -> (r: bool)
        ensures
            r <==> self@ == Map::<Seq<char>, u64>::empty(),
    {
        broadcast use group_map_axioms;

        let empty = self.entries.is_empty();
        proof {
            if self.entries@.len() > 0 {
                assert(self@.contains_key(self.entries@.last().server@));
                assert(!Map::<Seq<char>, u64>::empty().contains_key(
                    self.entries@.last().server@,
                ));
            }
        }
        empty
    }
}

} // verus!
