//! Picking elements out of a sequence by their positions.

use vstd::prelude::*;

verus! {

/// Whether each position comes before the next.
pub open spec fn ascending(p: Seq<int>) -> bool {
    forall|a: int, b: int| 0 <= a < b < p.len() ==> p[a] < p[b]
}

/// A position behind all others can be added.
pub proof fn lemma_position_added(p: Seq<int>, n: int)
    requires
        ascending(p),
        forall|i: int| #[trigger] p.contains(i) ==> i < n,
    ensures
        ascending(p.push(n)),
        forall|i: int| #[trigger] p.push(n).contains(i) <==> p.contains(i) || i == n,
{
    let q = p.push(n);
    assert forall|a: int, b: int| 0 <= a < b < q.len() implies q[a] < q[b] by {
        assert(p.contains(p[a]));
    }
    assert forall|i: int| #[trigger] q.contains(i) <==> p.contains(i) || i == n by {
        if p.contains(i) {
            let k = choose|k: int| 0 <= k < p.len() && p[k] == i;
            assert(q[k] == i);
        }
        assert(q[p.len() as int] == n);
    }
}

} // verus!
