use crate::graph::NodeIndex;
use vstd::prelude::*;
use vstd::seq_lib::to_multiset_build;
use vstd::seq_lib::to_multiset_insert;

verus! {

/// Whether an entry for `v` waits in `frontier`.
pub open spec fn queued(frontier: Seq<(u64, NodeIndex)>, v: NodeIndex) -> bool {
    exists|j: int| 0 <= j < frontier.len() && (#[trigger] frontier[j]).1 == v
}

/// No entry comes before one of lower priority.
pub open spec fn ascending(frontier: Seq<(u64, NodeIndex)>) -> bool {
    forall|i: int, j: int| 0 <= i < j < frontier.len() ==> frontier[i].0 <= frontier[j].0
}

/// The entry that stands for a node found by a search without priorities.
pub open spec fn plain_entry() -> spec_fn(NodeIndex) -> (u64, NodeIndex) {
    |v: NodeIndex| (0u64, v)
}

pub fn is_queued(frontier: &Vec<(u64, NodeIndex)>, v: NodeIndex) -> (found: bool)
    ensures
        found == queued(frontier@, v),
{
    let mut i: usize = 0;
    while i < frontier.len()
        invariant
            i <= frontier.len(),
            forall|j: int| 0 <= j < i ==> (#[trigger] frontier@[j]).1 != v,
        decreases frontier.len() - i,
    {
        if frontier[i].1 == v {
            return true;
        }
        i += 1;
    }
    false
}

/// Orders the frontier by ascending priority. Nothing is promised of the
/// order among entries of equal priority.
pub fn sort_by_priority(frontier: &mut Vec<(u64, NodeIndex)>)
    ensures
        ascending(final(frontier)@),
        final(frontier)@.to_multiset() == old(frontier)@.to_multiset(),
        final(frontier)@.len() == old(frontier)@.len(),
{
    let mut out: Vec<(u64, NodeIndex)> = Vec::new();
    let mut i: usize = 0;
    assert(out@ == frontier@.take(0));
    while i < frontier.len()
        invariant
            i <= frontier.len(),
            *frontier == *old(frontier),
            ascending(out@),
            out@.len() == i,
            out@.to_multiset() == frontier@.take(i as int).to_multiset(),
        decreases frontier.len() - i,
    {
        let x = frontier[i];
        let mut j: usize = 0;
        while j < out.len() && out[j].0 <= x.0
            invariant
                j <= out.len(),
                forall|k: int| 0 <= k < j ==> out@[k].0 <= x.0,
            decreases out.len() - j,
        {
            j += 1;
        }
        let ghost before = out@;
        proof {
            to_multiset_insert(before, j as int, x);
            to_multiset_build(frontier@.take(i as int), x);
            assert(frontier@.take(i + 1) == frontier@.take(i as int).push(x));
            assert(before.insert(j as int, x).to_multiset() == frontier@.take(
                i + 1,
            ).to_multiset());
        }
        out.insert(j, x);
        proof {
            let after = out@;
            assert forall|a: int, b: int| 0 <= a < b < after.len() implies after[a].0
                <= after[b].0 by {
                let pa = if a < j { before[a] } else if a == j { x } else { before[a - 1] };
                let pb = if b < j { before[b] } else if b == j { x } else { before[b - 1] };
                assert(after[a] == pa);
                assert(after[b] == pb);
                if j < before.len() {
                    assert(before[j as int].0 > x.0);
                }
            }
        }
        i += 1;
    }
    assert(frontier@.take(i as int) == frontier@);
    *frontier = out;
}

/// Two frontiers with the same entries, counted with repetition, have the
/// same length and hold the same entries.
pub proof fn lemma_same_entries(a: Seq<(u64, NodeIndex)>, b: Seq<(u64, NodeIndex)>)
    requires
        a.to_multiset() == b.to_multiset(),
    ensures
        a.len() == b.len(),
        forall|e: (u64, NodeIndex)| a.contains(e) <==> b.contains(e),
        forall|v: NodeIndex| queued(a, v) <==> queued(b, v),
{
    a.to_multiset_ensures();
    b.to_multiset_ensures();
    assert forall|e: (u64, NodeIndex)| a.contains(e) <==> b.contains(e) by {
        assert(a.contains(e) <==> a.to_multiset().count(e) > 0);
        assert(b.contains(e) <==> b.to_multiset().count(e) > 0);
    }
    assert forall|v: NodeIndex| queued(a, v) implies queued(b, v) by {
        let j = choose|j: int| 0 <= j < a.len() && (#[trigger] a[j]).1 == v;
        assert(a.contains(a[j]));
        let k = choose|k: int| 0 <= k < b.len() && b[k] == a[j];
        assert(b[k].1 == v);
    }
    assert forall|v: NodeIndex| queued(b, v) implies queued(a, v) by {
        let j = choose|j: int| 0 <= j < b.len() && (#[trigger] b[j]).1 == v;
        assert(b.contains(b[j]));
        let k = choose|k: int| 0 <= k < a.len() && a[k] == b[j];
        assert(a[k].1 == v);
    }
}

} // verus!
