//! Ordering of probed servers by measured latency. Ranking is total: it
//! consumes every probe outcome, fails on none of them, and returns a
//! permutation of its input sorted ascending, unreachable servers last.

use vstd::prelude::*;
use vstd::seq_lib::group_to_multiset_ensures;
use vstd::multiset::Multiset;
use crate::latency::{Latency, PingResult, latency_le};

verus! {

/// Ascending by latency: every earlier entry's latency is at most every
/// later one's, under the total order that puts `Unreachable` last.
pub open spec fn sorted_by_latency(s: Seq<PingResult>) -> bool {
    forall|i: int, j: int|
        0 <= i < j < s.len() ==> #[trigger] latency_le(s[i].latency, s[j].latency)
}

/// Sorts probe outcomes ascending by latency. The result is a
/// permutation of the input — same length, same entries — so a failed
/// probe demotes its server to the tail rather than dropping it, and no
/// combination of failures can make ranking itself fail.
pub fn rank(probes: Vec<PingResult>) -> (r: Vec<PingResult>)
    ensures
        r@.len() == probes@.len(),
        r@.to_multiset() == probes@.to_multiset(),
        sorted_by_latency(r@),
{
    broadcast use group_to_multiset_ensures;
    broadcast use vstd::multiset::group_multiset_axioms;

    let mut rest = probes;
    let mut out: Vec<PingResult> = Vec::new();
    proof {
        assert(out@.to_multiset().add(rest@.to_multiset()) =~= probes@.to_multiset());
    }
    while rest.len() > 0
        invariant
            out@.len() + rest@.len() == probes@.len(),
            out@.to_multiset().add(rest@.to_multiset()) == probes@.to_multiset(),
            sorted_by_latency(out@),
            forall|i: int, j: int|
                0 <= i < out@.len() && 0 <= j < rest@.len() ==> latency_le(
                    #[trigger] out@[i].latency,
                    #[trigger] rest@[j].latency,
                ),
        decreases rest@.len(),
    {
        let mut m: usize = 0;
        let mut k: usize = 1;
        while k < rest.len()
            invariant
                0 < rest@.len(),
                0 <= m < k <= rest@.len(),
                forall|j: int|
                    0 <= j < k ==> latency_le(
                        rest@[m as int].latency,
                        #[trigger] rest@[j].latency,
                    ),
            decreases rest@.len() - k,
        {
            if rest[k].latency.leq(rest[m].latency) {
                m = k;
            }
            k += 1;
        }
        let ghost rest_before = rest@;
        let ghost out_before = out@;
        let p = rest.remove(m);
        out.push(p);
        proof {
            rest_before.to_multiset_ensures();
            out_before.to_multiset_ensures();
            assert(rest@ =~= rest_before.remove(m as int));
            assert(rest_before.remove(m as int).to_multiset() =~= rest_before.to_multiset().remove(
                p,
            ));
            assert(rest_before.contains(p)) by {
                assert(rest_before[m as int] == p);
            }
            assert(rest_before.to_multiset().count(p) > 0);
            assert(out@ =~= out_before.push(p));
            assert(out_before.push(p).to_multiset() =~= out_before.to_multiset().insert(p));
            assert(out@.to_multiset().add(rest@.to_multiset()) =~= probes@.to_multiset());
        }
    }
    proof {
        assert(rest@.to_multiset() =~= Multiset::<PingResult>::empty());
        assert(out@.to_multiset() =~= out@.to_multiset().add(rest@.to_multiset()));
    }
    out
}

/// In a latency-sorted sequence, once an unreachable entry appears,
/// every entry after it is unreachable too: the sentinels form the tail.
pub proof fn lemma_sorted_unreachable_tail(s: Seq<PingResult>)
    requires
        sorted_by_latency(s),
    ensures
        forall|i: int, j: int|
            0 <= i < j < s.len() && (#[trigger] s[i].latency) is Unreachable
                ==> (#[trigger] s[j].latency) is Unreachable,
{
    assert forall|i: int, j: int|
        0 <= i < j < s.len() && (#[trigger] s[i].latency) is Unreachable
            implies (#[trigger] s[j].latency) is Unreachable by {
        assert(latency_le(s[i].latency, s[j].latency));
    }
}

/// Ranking keeps every server even when every probe failed: a
/// permutation of all-unreachable outcomes is itself all unreachable,
/// with the same number of entries.
pub proof fn lemma_rank_keeps_failed_probes(input: Seq<PingResult>, output: Seq<PingResult>)
    requires
        output.len() == input.len(),
        output.to_multiset() == input.to_multiset(),
        forall|i: int| 0 <= i < input.len() ==> (#[trigger] input[i].latency) is Unreachable,
    ensures
        forall|i: int| 0 <= i < output.len() ==> (#[trigger] output[i].latency) is Unreachable,
{
    broadcast use group_to_multiset_ensures;

    assert forall|i: int| 0 <= i < output.len()
        implies (#[trigger] output[i].latency) is Unreachable by {
        assert(output.contains(output[i]));
        assert(input.to_multiset().count(output[i]) > 0);
        assert(input.contains(output[i]));
        let j = choose|j: int| 0 <= j < input.len() && input[j] == output[i];
        assert(input[j].latency is Unreachable);
    }
}

} // verus!
