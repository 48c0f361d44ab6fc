//! The numbers of a set in order.

use vstd::prelude::*;

verus! {

/// Whether a list holds the members of a set, the lowest first.
pub open spec fn is_listing(nodes: Seq<u32>, all: Set<u32>) -> bool {
    &&& nodes.to_set() == all
    &&& forall|i: int, j: int| 0 <= i < j < nodes.len() ==> nodes[i] < nodes[j]
}

/// The members of a set, the lowest first.
pub open spec fn listing(all: Set<u32>) -> Seq<u32> {
    choose|nodes: Seq<u32>| is_listing(nodes, all)
}

/// A set has one listing.
pub proof fn lemma_one_listing(a: Seq<u32>, b: Seq<u32>, all: Set<u32>)
    requires
        is_listing(a, all),
        is_listing(b, all),
    ensures
        a == b,
    decreases a.len(),
{
    if a.len() == 0 {
        if b.len() > 0 {
            assert(b.to_set().contains(b[0]));
            assert(a.to_set().contains(b[0]));
        }
        assert(a =~= b);
    } else {
        assert(a.to_set().contains(a[0]));
        assert(b.to_set().contains(a[0]));
        assert(b.len() > 0);
        let x = a.last();
        let y = b.last();
        assert(a.to_set().contains(x) && b.to_set().contains(y));
        assert(b.contains(x) && a.contains(y));
        let i = choose|i: int| 0 <= i < b.len() && b[i] == x;
        let j = choose|j: int| 0 <= j < a.len() && a[j] == y;
        assert(x == y);
        let less = all.remove(x);
        lemma_shorter_listing(a, all);
        lemma_shorter_listing(b, all);
        lemma_one_listing(a.drop_last(), b.drop_last(), less);
        assert(a =~= a.drop_last().push(x));
        assert(b =~= b.drop_last().push(y));
    }
}

/// A finite set has a listing.
pub proof fn lemma_has_listing(all: Set<u32>)
    requires
        all.finite(),
    ensures
        is_listing(listing(all), all),
    decreases all.len(),
{
    if all.len() == 0 {
        let none: Seq<u32> = Seq::empty();
        assert(none.to_set() =~= all);
        assert(is_listing(none, all));
    } else {
        let high = lemma_highest(all);
        lemma_has_listing(all.remove(high));
        let front = listing(all.remove(high));
        let whole = front.push(high);
        assert forall|node: u32| whole.to_set().contains(node) == all.contains(node) by {
            if all.contains(node) && node != high {
                assert(front.to_set().contains(node));
                let i = choose|i: int| 0 <= i < front.len() && front[i] == node;
                assert(whole[i] == node);
            }
            if whole.contains(node) && node != high {
                let i = choose|i: int| 0 <= i < whole.len() && whole[i] == node;
                assert(front[i] == node);
                assert(front.to_set().contains(node));
            }
            assert(whole[front.len() as int] == high);
        }
        assert(whole.to_set() =~= all);
        assert forall|i: int, j: int| 0 <= i < j < whole.len() implies whole[i] < whole[j] by {
            assert(front.to_set().contains(front[i]));
            if j < front.len() {
                assert(front[i] < front[j]);
            }
        }
        assert(is_listing(whole, all));
    }
}

proof fn lemma_highest(all: Set<u32>) -> (high: u32)
    requires
        all.finite(),
        all.len() > 0,
    ensures
        all.contains(high),
        forall|node: u32| all.contains(node) ==> node <= high,
    decreases all.len(),
{
    let some = all.choose();
    assert(all.contains(some));
    let rest = all.remove(some);
    if rest.len() == 0 {
        assert forall|node: u32| all.contains(node) implies node <= some by {
            if node != some {
                assert(rest.contains(node));
            }
        }
        some
    } else {
        let other = lemma_highest(rest);
        assert forall|node: u32| all.contains(node) implies node <= some || node <= other by {
            if node != some {
                assert(rest.contains(node));
            }
        }
        if other > some {
            other
        } else {
            some
        }
    }
}

proof fn lemma_shorter_listing(a: Seq<u32>, all: Set<u32>)
    requires
        is_listing(a, all),
        a.len() > 0,
    ensures
        is_listing(a.drop_last(), all.remove(a.last())),
{
    let front = a.drop_last();
    assert forall|x: u32| front.to_set().contains(x) == all.remove(a.last()).contains(x) by {
        if front.contains(x) {
            let i = choose|i: int| 0 <= i < front.len() && front[i] == x;
            assert(a[i] == x && a[i] < a[a.len() - 1]);
            assert(a.to_set().contains(x));
        }
        if all.contains(x) && x != a.last() {
            assert(a.to_set().contains(x));
            let i = choose|i: int| 0 <= i < a.len() && a[i] == x;
            assert(front[i] == x);
        }
    }
    assert(front.to_set() =~= all.remove(a.last()));
}

} // verus!
