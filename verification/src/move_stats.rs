use vstd::prelude::*;

use crate::game::seq_total;

verus! {

/// The exact figures behind a report on the move counts of finished games:
/// how many there are, their sum, the smallest and the largest, and the two
/// middle values of the sorted counts (equal when the number is odd).
#[derive(Debug, Clone, Copy, PartialEq, Eq, Structural)]
pub struct MoveSummary {
    pub count: usize,
    pub sum: u64,
    pub min: u64,
    pub max: u64,
    pub median_low: u64,
    pub median_high: u64,
}

/// `t` is in ascending order.
pub open spec fn ascending(t: Seq<u64>) -> bool {
    forall|i: int, j: int| 0 <= i <= j < t.len() ==> #[trigger] t[i] <= #[trigger] t[j]
}

/// `t` holds the values of `s`, each as often, in ascending order.
pub open spec fn sorted_arrangement(s: Seq<u64>, t: Seq<u64>) -> bool {
    ascending(t) && t.to_multiset() == s.to_multiset()
}

/// A sequence has one sorted arrangement only, so the figures taken from
/// it are fixed by the sequence.
pub proof fn lemma_sorted_arrangement_unique(s: Seq<u64>, t1: Seq<u64>, t2: Seq<u64>)
    requires
        sorted_arrangement(s, t1),
        sorted_arrangement(s, t2),
    ensures
        t1 == t2,
{
    let leq = |a: u64, b: u64| a <= b;
    assert(vstd::relations::sorted_by(t1, leq)) by {
        assert forall|i: int, j: int| 0 <= i < j < t1.len() implies #[trigger] leq(t1[i], t1[j]) by {
            assert(t1[i] <= t1[j]);
        }
    }
    assert(vstd::relations::sorted_by(t2, leq)) by {
        assert forall|i: int, j: int| 0 <= i < j < t2.len() implies #[trigger] leq(t2[i], t2[j]) by {
            assert(t2[i] <= t2[j]);
        }
    }
    assert(vstd::relations::total_ordering(leq));
    vstd::seq_lib::lemma_sorted_unique(t1, t2, leq);
}

/// Taking out element `j` of `s` takes `s[j]` off its sum.
proof fn lemma_total_remove(s: Seq<u64>, j: int)
    requires
        0 <= j < s.len(),
    ensures
        seq_total(s) == seq_total(s.remove(j)) + s[j],
    decreases s.len(),
{
    if j == s.len() - 1 {
        assert(s.remove(j) =~= s.drop_last());
    } else {
        let r = s.remove(j);
        assert(r.drop_last() =~= s.drop_last().remove(j));
        assert(r.last() == s.last());
        lemma_total_remove(s.drop_last(), j);
    }
}

/// The sum of a sequence does not depend on the order of its values: two
/// sequences that hold the same values, each as often, have the same sum.
pub proof fn lemma_total_order_free(a: Seq<u64>, b: Seq<u64>)
    requires
        a.to_multiset() == b.to_multiset(),
    ensures
        seq_total(a) == seq_total(b),
    decreases a.len(),
{
    vstd::seq_lib::to_multiset_len(a);
    vstd::seq_lib::to_multiset_len(b);
    if a.len() > 0 {
        let x = a.last();
        let a2 = a.drop_last();
        assert(a2.push(x) =~= a);
        vstd::seq_lib::to_multiset_build(a2, x);
        vstd::seq_lib::to_multiset_contains(b, x);
        assert(b.to_multiset().count(x) > 0) by {
            broadcast use vstd::multiset::group_multiset_axioms;
        }
        let j = choose|j: int| 0 <= j < b.len() && b[j] == x;
        let b2 = b.remove(j);
        vstd::seq_lib::to_multiset_remove(b, j);
        assert(a2.to_multiset() =~= b2.to_multiset()) by {
            broadcast use vstd::multiset::group_multiset_axioms;
        }
        lemma_total_order_free(a2, b2);
        lemma_total_remove(b, j);
    }
}

/// The figures of the move counts do not depend on the order in which the
/// games were played: two sequences holding the same values, each as often,
/// have the same length, the same sum, the same smallest and largest
/// values and the same sorted arrangements.
pub proof fn lemma_summary_order_free(a: Seq<u64>, b: Seq<u64>)
    requires
        a.to_multiset() == b.to_multiset(),
    ensures
        a.len() == b.len(),
        seq_total(a) == seq_total(b),
        forall|v: u64| a.contains(v) <==> b.contains(v),
        forall|t: Seq<u64>| sorted_arrangement(a, t) <==> sorted_arrangement(b, t),
{
    vstd::seq_lib::to_multiset_len(a);
    vstd::seq_lib::to_multiset_len(b);
    lemma_total_order_free(a, b);
    assert forall|v: u64| a.contains(v) <==> b.contains(v) by {
        vstd::seq_lib::to_multiset_contains(a, v);
        vstd::seq_lib::to_multiset_contains(b, v);
    }
}

/// Sorts `v` in ascending order with std's `slice::sort_unstable`; a sort
/// keeps each value as often as it was there.
#[verifier::external_body]
fn sort_ascending(v: &mut Vec<u64>)
    ensures
        final(v)@.to_multiset() == old(v)@.to_multiset(),
        ascending(final(v)@),
{
    v.sort_unstable();
}

/// The sum of a prefix is at most the sum of the whole.
proof fn lemma_prefix_total(s: Seq<u64>, i: int)
    requires
        0 <= i <= s.len(),
    ensures
        seq_total(s.take(i)) <= seq_total(s),
    decreases s.len() - i,
{
    if i < s.len() {
        assert(s.take(i + 1).drop_last() =~= s.take(i));
        lemma_prefix_total(s, i + 1);
    } else {
        assert(s.take(i) =~= s);
    }
}

/// The figures of `moves` (see `MoveSummary`), or `None` when there are no
/// moves to report on.
pub fn summarize_moves(moves: &[u64]) -> (r: Option<MoveSummary>)
    requires
        seq_total(moves@) <= u64::MAX,
    ensures
        r is None <==> moves@.len() == 0,
        r matches Some(s) ==> {
            &&& s.count == moves@.len()
            &&& s.sum == seq_total(moves@)
            &&& moves@.contains(s.min)
            &&& moves@.contains(s.max)
            &&& forall|i: int| 0 <= i < moves@.len() ==> s.min <= #[trigger] moves@[i] <= s.max
            &&& exists|t: Seq<u64>|
                #![trigger sorted_arrangement(moves@, t)]
                sorted_arrangement(moves@, t) && s.median_low == t[(moves@.len() - 1) / 2] && s.median_high
                    == t[moves@.len() as int / 2]
        },
{
    let cnt = moves.len();
    if cnt == 0 {
        return None;
    }
    let mut sum: u64 = 0;
    for i in 0..cnt
        invariant
            cnt == moves@.len(),
            seq_total(moves@) <= u64::MAX,
            sum == seq_total(moves@.take(i as int)),
    {
        proof {
            assert(moves@.take(i + 1).drop_last() =~= moves@.take(i as int));
            lemma_prefix_total(moves@, i + 1);
        }
        sum = sum + moves[i];
    }
    assert(moves@.take(cnt as int) =~= moves@);
    let mut sorted = vstd::slice::slice_to_vec(moves);
    sort_ascending(&mut sorted);
    let ghost t = sorted@;
    proof {
        broadcast use vstd::seq_lib::group_to_multiset_ensures;
        assert(t.to_multiset().len() == moves@.to_multiset().len());
        assert(t.len() == moves@.len());
        assert forall|i: int| 0 <= i < moves@.len() implies t[0] <= #[trigger] moves@[i] <= t[cnt - 1] by {
            assert(moves@.to_multiset().count(moves@[i]) > 0);
            assert(t.to_multiset().count(moves@[i]) > 0);
            assert(t.contains(moves@[i]));
        }
        assert(t.to_multiset().count(t[0]) > 0);
        assert(t.to_multiset().count(t[cnt - 1]) > 0);
        assert(moves@.to_multiset().count(t[0]) > 0);
        assert(moves@.to_multiset().count(t[cnt - 1]) > 0);
    }
    let s = MoveSummary {
        count: cnt,
        sum,
        min: sorted[0],
        max: sorted[cnt - 1],
        median_low: sorted[(cnt - 1) / 2],
        median_high: sorted[cnt / 2],
    };
    assert(sorted_arrangement(moves@, t));
    Some(s)
}

} // verus!
