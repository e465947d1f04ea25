use vstd::prelude::*;

use crate::wrappers::Node;

verus! {

broadcast use {
    vstd::seq_lib::group_to_multiset_ensures,
    vstd::seq_lib::lemma_multiset_commutative,
    vstd::multiset::group_multiset_axioms,
};

/// The ids of `s` never decrease from left to right.
pub open spec fn sorted_by_id(s: Seq<Node>) -> bool {
    forall|i: int, j: int| 0 <= i <= j < s.len() ==> s[i].id_of() <= s[j].id_of()
}

/// Merges two id-sorted lists into one.
fn merge(a: Vec<Node>, b: Vec<Node>) -> (r: Vec<Node>)
    requires
        sorted_by_id(a@),
        sorted_by_id(b@),
    ensures
        sorted_by_id(r@),
        r@.to_multiset() == (a@ + b@).to_multiset(),
{
    let mut r: Vec<Node> = Vec::new();
    let mut i: usize = 0;
    let mut j: usize = 0;
    assert(a@.take(0) =~= Seq::<Node>::empty());
    assert(b@.take(0) =~= Seq::<Node>::empty());
    while i < a.len() || j < b.len()
        invariant
            i <= a@.len(),
            j <= b@.len(),
            sorted_by_id(a@),
            sorted_by_id(b@),
            sorted_by_id(r@),
            r@.to_multiset() == (a@.take(i as int) + b@.take(j as int)).to_multiset(),
            r@.len() > 0 && i < a@.len() ==> r@.last().id_of() <= a@[i as int].id_of(),
            r@.len() > 0 && j < b@.len() ==> r@.last().id_of() <= b@[j as int].id_of(),
        decreases a@.len() + b@.len() - i - j,
    {
        let take_a = j >= b.len() || (i < a.len() && a[i].get_id() <= b[j].get_id());
        let ghost before = r@;
        if take_a {
            let x = a[i];
            r.push(x);
            proof {
                assert(a@.take(i + 1) =~= a@.take(i as int).push(x));
                assert((a@.take(i + 1) + b@.take(j as int)).to_multiset() =~= (a@.take(i as int)
                    + b@.take(j as int)).to_multiset().insert(x)) by {
                    assert(a@.take(i as int).push(x).to_multiset() =~= a@.take(
                        i as int,
                    ).to_multiset().insert(x));
                }
            }
            i = i + 1;
        } else {
            let x = b[j];
            r.push(x);
            proof {
                assert(b@.take(j + 1) =~= b@.take(j as int).push(x));
                assert((a@.take(i as int) + b@.take(j + 1)).to_multiset() =~= (a@.take(i as int)
                    + b@.take(j as int)).to_multiset().insert(x)) by {
                    assert(b@.take(j as int).push(x).to_multiset() =~= b@.take(
                        j as int,
                    ).to_multiset().insert(x));
                }
            }
            j = j + 1;
        }
        proof {
            assert forall|p: int, q: int| 0 <= p <= q < r@.len() implies r@[p].id_of()
                <= r@[q].id_of() by {
                if q == r@.len() - 1 && p < q {
                    assert(before[p].id_of() <= before.last().id_of());
                }
            }
        }
    }
    assert(a@.take(i as int) =~= a@);
    assert(b@.take(j as int) =~= b@);
    r
}

/// The nodes `nodes[lo..hi]`, ordered by id (merge sort).
fn sort_range(nodes: &Vec<Node>, lo: usize, hi: usize) -> (r: Vec<Node>)
    requires
        lo <= hi <= nodes@.len(),
    ensures
        sorted_by_id(r@),
        r@.to_multiset() == nodes@.subrange(lo as int, hi as int).to_multiset(),
    decreases hi - lo,
{
    if hi - lo <= 1 {
        let mut r: Vec<Node> = Vec::new();
        if hi - lo == 1 {
            r.push(nodes[lo]);
        }
        assert(r@ =~= nodes@.subrange(lo as int, hi as int));
        r
    } else {
        let mid = lo + (hi - lo) / 2;
        let left = sort_range(nodes, lo, mid);
        let right = sort_range(nodes, mid, hi);
        assert(nodes@.subrange(lo as int, hi as int) =~= nodes@.subrange(lo as int, mid as int)
            + nodes@.subrange(mid as int, hi as int));
        merge(left, right)
    }
}

/// The same nodes as `nodes`, ordered by id.
pub fn sort_by_id(nodes: &Vec<Node>) -> (r: Vec<Node>)
    ensures
        sorted_by_id(r@),
        r@.to_multiset() == nodes@.to_multiset(),
{
    assert(nodes@.subrange(0, nodes@.len() as int) =~= nodes@);
    sort_range(nodes, 0, nodes.len())
}

/// Law: sorting by id forgets the order it was given. Two id-sorted
/// sequences of the same nodes are equal, so the result of [`sort_by_id`]
/// depends only on which nodes it receives.
pub proof fn lemma_sorted_permutations_equal(a: Seq<Node>, b: Seq<Node>)
    requires
        sorted_by_id(a),
        sorted_by_id(b),
        a.to_multiset() == b.to_multiset(),
    ensures
        a == b,
    decreases a.len(),
{
    assert(a.len() == b.len()) by {
        a.to_multiset_ensures();
        b.to_multiset_ensures();
    }
    if a.len() > 0 {
        let x = a[0];
        let y = b[0];
        assert(b.to_multiset().count(x) > 0);
        assert(b.contains(x));
        let k = choose|k: int| 0 <= k < b.len() && b[k] == x;
        assert(y.id_of() <= x.id_of());
        assert(a.to_multiset().count(y) > 0);
        assert(a.contains(y));
        let m = choose|m: int| 0 <= m < a.len() && a[m] == y;
        assert(x.id_of() <= y.id_of());
        Node::lemma_id_determines_node(x, y);
        assert(a.remove(0) =~= a.drop_first());
        assert(b.remove(0) =~= b.drop_first());
        assert(a.drop_first().to_multiset() =~= b.drop_first().to_multiset());
        lemma_sorted_permutations_equal(a.drop_first(), b.drop_first());
        assert(a =~= seq![x] + a.drop_first());
        assert(b =~= seq![y] + b.drop_first());
    } else {
        assert(a =~= b);
    }
}

} // verus!
