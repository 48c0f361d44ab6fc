//! What two derivations of facts have in common.

use vstd::prelude::*;

use crate::ast::local::RcLocal;
use crate::cfg::block::EdgeView;
use crate::cfg::function::CfgView;
use crate::cfg::listing;
use crate::cfg::node_set::NodeSet;
use crate::cfg::provenance::LocalProvenanceView;
use crate::cfg::recovery;
use crate::cfg::recovery::{
    CandidateRegion, EdgeFact, EdgeFactView, LocalFact, RecoveryFacts,
};

verus! {

/// The regions, each as its header and its members.
pub open spec fn region_views(regions: Seq<CandidateRegion>) -> Seq<(u32, Set<u32>)> {
    Seq::new(regions.len(), |i: int| (regions[i].header, regions[i].members@))
}

/// What is known of each local.
pub open spec fn local_views(facts: Seq<(RcLocal, LocalFact)>) -> Seq<
    (RcLocal, LocalProvenanceView),
> {
    Seq::new(facts.len(), |i: int| (facts[i].0, facts[i].1@))
}

pub open spec fn edge_views(facts: Seq<EdgeFact>) -> Seq<EdgeFactView> {
    Seq::new(facts.len(), |i: int| facts[i]@)
}

/// The set of each block.
pub open spec fn set_views(facts: Seq<(u32, NodeSet)>) -> Seq<(u32, Set<u32>)> {
    Seq::new(facts.len(), |i: int| (facts[i].0, facts[i].1@))
}

/// Whether a list is in a strict order.
pub open spec fn is_sorted<A>(list: Seq<A>, less: spec_fn(A, A) -> bool) -> bool {
    forall|i: int, j: int|
        #![trigger list[i], list[j]]
        0 <= i < j < list.len() ==> less(list[i], list[j])
}

/// Lists of the same members in the same strict order are the same.
proof fn lemma_same_sorted<A>(left: Seq<A>, right: Seq<A>, less: spec_fn(A, A) -> bool)
    requires
        is_sorted(left, less),
        is_sorted(right, less),
        forall|a: A, b: A| !(#[trigger] less(a, b) && less(b, a)),
        forall|a: A| #[trigger] left.contains(a) <==> right.contains(a),
    ensures
        left == right,
    decreases left.len(),
{
    if left.len() == 0 {
        if right.len() > 0 {
            assert(right.contains(right[0]));
            assert(left.contains(right[0]));
        }
        assert(left =~= right);
    } else {
        assert(left.contains(left[0]));
        let j = choose|j: int| 0 <= j < right.len() && right[j] == left[0];
        assert(right.contains(right[0]));
        assert(left.contains(right[0]));
        let i = choose|i: int| 0 <= i < left.len() && left[i] == right[0];
        if i > 0 && j > 0 {
            assert(less(left[0], left[i]));
            assert(less(right[0], right[j]));
        }
        assert(left[0] == right[0]);
        let a = left.skip(1);
        let b = right.skip(1);
        assert forall|x: A| #[trigger] a.contains(x) <==> b.contains(x) by {
            if a.contains(x) {
                let k = choose|k: int| 0 <= k < a.len() && a[k] == x;
                assert(left[k + 1] == x);
                assert(left.contains(x));
                let l = choose|l: int| 0 <= l < right.len() && right[l] == x;
                if l == 0 {
                    assert(less(left[0], left[k + 1]));
                }
                assert(b[l - 1] == x);
            }
            if b.contains(x) {
                let k = choose|k: int| 0 <= k < b.len() && b[k] == x;
                assert(right[k + 1] == x);
                assert(right.contains(x));
                assert(left.contains(x));
                let l = choose|l: int| 0 <= l < left.len() && left[l] == x;
                if l == 0 {
                    assert(less(right[0], right[k + 1]));
                }
                assert(a[l - 1] == x);
            }
        }
        assert forall|k: int, l: int|
            #![trigger a[k], a[l]]
            0 <= k < l < a.len() implies less(a[k], a[l]) by {
            assert(less(left[k + 1], left[l + 1]));
        }
        assert forall|k: int, l: int|
            #![trigger b[k], b[l]]
            0 <= k < l < b.len() implies less(b[k], b[l]) by {
            assert(less(right[k + 1], right[l + 1]));
        }
        lemma_same_sorted(a, b, less);
        assert(left =~= seq![left[0]] + a);
        assert(right =~= seq![right[0]] + b);
    }
}

proof fn lemma_same_numbers(left: Seq<int>, right: Seq<int>)
    requires
        forall|i: int, j: int| 0 <= i < j < left.len() ==> left[i] < left[j],
        forall|i: int, j: int| 0 <= i < j < right.len() ==> right[i] < right[j],
        forall|a: int| #[trigger] left.contains(a) <==> right.contains(a),
    ensures
        left == right,
{
    lemma_same_sorted(left, right, |a: int, b: int| a < b);
}

proof fn lemma_same_locals(
    cfg: CfgView,
    nodes: Seq<u32>,
    left: Seq<(RcLocal, LocalFact)>,
    right: Seq<(RcLocal, LocalFact)>,
)
    requires
        recovery::are_local_facts(cfg, nodes, left),
        recovery::are_local_facts(cfg, nodes, right),
    ensures
        local_views(left) == local_views(right),
{
    let a = Seq::new(left.len(), |i: int| left[i].0.id as int);
    let b = Seq::new(right.len(), |i: int| right[i].0.id as int);
    assert forall|x: int| #[trigger] a.contains(x) <==> b.contains(x) by {
        if a.contains(x) {
            let i = choose|i: int| 0 <= i < a.len() && a[i] == x;
            assert(left[i].0 == left[i].0);
            assert(recovery::mentions(cfg, nodes, left[i].0));
            let j = choose|j: int| 0 <= j < right.len() && (#[trigger] right[j]).0 == left[i].0;
            assert(b[j] == x);
        }
        if b.contains(x) {
            let i = choose|i: int| 0 <= i < b.len() && b[i] == x;
            assert(recovery::mentions(cfg, nodes, right[i].0));
            let j = choose|j: int| 0 <= j < left.len() && (#[trigger] left[j]).0 == right[i].0;
            assert(a[j] == x);
        }
    }
    lemma_same_numbers(a, b);
    assert forall|i: int| 0 <= i < left.len() implies local_views(left)[i] == local_views(
        right,
    )[i] by {
        assert(a[i] == b[i]);
        assert(left[i].0 == right[i].0);
        assert(left[i].1@ == cfg.known(left[i].0));
        assert(right[i].1@ == cfg.known(right[i].0));
    }
    assert(local_views(left) =~= local_views(right));
}

proof fn lemma_same_keys(
    left: Seq<(u32, NodeSet)>,
    right: Seq<(u32, NodeSet)>,
    nodes: Set<u32>,
)
    requires
        recovery::keyed_by(left, nodes),
        recovery::keyed_by(right, nodes),
    ensures
        left.len() == right.len(),
        forall|i: int| 0 <= i < left.len() ==> (#[trigger] left[i]).0 == right[i].0,
{
    let a = Seq::new(left.len(), |i: int| left[i].0 as int);
    let b = Seq::new(right.len(), |i: int| right[i].0 as int);
    assert forall|x: int| #[trigger] a.contains(x) <==> b.contains(x) by {
        if a.contains(x) {
            let i = choose|i: int| 0 <= i < a.len() && a[i] == x;
            assert(nodes.contains(left[i].0));
            let j = choose|j: int| 0 <= j < right.len() && (#[trigger] right[j]).0 == left[i].0;
            assert(b[j] == x);
        }
        if b.contains(x) {
            let i = choose|i: int| 0 <= i < b.len() && b[i] == x;
            assert(nodes.contains(right[i].0));
            let j = choose|j: int| 0 <= j < left.len() && (#[trigger] left[j]).0 == right[i].0;
            assert(a[j] == x);
        }
    }
    lemma_same_numbers(a, b);
    assert(a.len() == b.len());
    assert forall|i: int| 0 <= i < left.len() implies (#[trigger] left[i]).0 == right[i].0 by {
        assert(a[i] == b[i]);
    }
}

proof fn lemma_same_dominators(
    arcs: Set<(u32, u32)>,
    nodes: Set<u32>,
    entry: Option<u32>,
    left: Seq<(u32, NodeSet)>,
    right: Seq<(u32, NodeSet)>,
)
    requires
        recovery::are_dominators(arcs, nodes, entry, left),
        recovery::are_dominators(arcs, nodes, entry, right),
    ensures
        set_views(left) == set_views(right),
{
    if entry is Some {
        lemma_same_keys(left, right, nodes);
    }
    assert forall|i: int| 0 <= i < left.len() implies set_views(left)[i] == set_views(
        right,
    )[i] by {
        assert(left[i].0 == right[i].0);
        assert(left[i].1@ == right[i].1@);
    }
    assert(set_views(left) =~= set_views(right));
}

proof fn lemma_same_post_dominators(
    edges: Seq<EdgeView>,
    nodes: Set<u32>,
    left: Seq<(u32, NodeSet)>,
    right: Seq<(u32, NodeSet)>,
)
    requires
        recovery::are_post_dominators(edges, nodes, left),
        recovery::are_post_dominators(edges, nodes, right),
    ensures
        set_views(left) == set_views(right),
{
    lemma_same_keys(left, right, nodes);
    let a = recovery::sets_of(left);
    let b = recovery::sets_of(right);
    assert forall|i: int| 0 <= i < left.len() implies set_views(left)[i] == set_views(
        right,
    )[i] by {
        assert(left[i].0 == right[i].0);
        let node = left[i].0;
        assert(nodes.contains(node));
        recovery::lemma_set_of(left, nodes, i);
        recovery::lemma_set_of(right, nodes, i);
        assert(recovery::is_post_solution(edges, nodes, a));
        assert(recovery::is_post_solution(edges, nodes, b));
        assert(a[node].subset_of(b[node]) && b[node].subset_of(a[node]));
        assert(a[node] =~= b[node]);
    }
    assert(set_views(left) =~= set_views(right));
}

proof fn lemma_same_edges(edges: Seq<EdgeView>, left: Seq<EdgeFact>, right: Seq<EdgeFact>)
    requires
        recovery::are_edge_facts(edges, left),
        recovery::are_edge_facts(edges, right),
    ensures
        edge_views(left) == edge_views(right),
{
    let a = choose|order: Seq<EdgeView>|
        {
            &&& #[trigger] order.to_multiset() == edges.to_multiset()
            &&& EdgeFactView::is_ordered(order)
            &&& left.len() == order.len()
            &&& forall|i: int|
                0 <= i < left.len() ==> (#[trigger] left[i])@ == EdgeFactView::of(order[i])
        };
    let b = choose|order: Seq<EdgeView>|
        {
            &&& #[trigger] order.to_multiset() == edges.to_multiset()
            &&& EdgeFactView::is_ordered(order)
            &&& right.len() == order.len()
            &&& forall|i: int|
                0 <= i < right.len() ==> (#[trigger] right[i])@ == EdgeFactView::of(order[i])
        };
    broadcast use vstd::seq_lib::group_to_multiset_ensures;

    assert forall|x: EdgeView| #[trigger] a.contains(x) <==> b.contains(x) by {
        assert(a.contains(x) <==> a.to_multiset().count(x) > 0);
        assert(b.contains(x) <==> b.to_multiset().count(x) > 0);
    }
    lemma_same_sorted(a, b, |x: EdgeView, y: EdgeView| EdgeFactView::before(x, y));
    assert(edge_views(left) =~= edge_views(right));
}

proof fn lemma_header_listed(
    arcs: Set<(u32, u32)>,
    nodes: Set<u32>,
    left: Seq<CandidateRegion>,
    right: Seq<CandidateRegion>,
    i: int,
) -> (j: int)
    requires
        recovery::are_regions(arcs, nodes, left),
        recovery::are_regions(arcs, nodes, right),
        0 <= i < left.len(),
    ensures
        0 <= j < right.len(),
        right[j].header == left[i].header,
        right[j].members@ == left[i].members@,
{
    let header = left[i].header;
    reveal(recovery::is_region);
    assert(recovery::is_region(arcs, nodes, left[i]));
    assert(recovery::is_header(arcs, left[i].members@, header));
    assert(left[i].members@.contains(header));
    assert(nodes.contains(header));
    assert(recovery::on_cycle(arcs, header));
    let j = choose|j: int|
        0 <= j < right.len() && (#[trigger] right[j]).members@.contains(header);
    let other = right[j].header;
    assert(recovery::is_region(arcs, nodes, right[j]));
    assert(right[j].members@.contains(other));
    let a = recovery::companions(arcs, nodes, header);
    let b = recovery::companions(arcs, nodes, other);
    assert forall|node: u32| a.contains(node) == b.contains(node) by {
        if a.contains(node) {
            recovery::reaching_is_transitive(arcs, other, header, node);
            recovery::reaching_is_transitive(arcs, node, header, other);
        }
        if b.contains(node) {
            recovery::reaching_is_transitive(arcs, header, other, node);
            recovery::reaching_is_transitive(arcs, node, other, header);
        }
    }
    assert(a =~= b);
    assert(recovery::is_header(arcs, a, header));
    assert(recovery::is_header(arcs, a, other));
    assert(a.contains(header) && a.contains(other));
    j
}

proof fn lemma_same_regions(
    arcs: Set<(u32, u32)>,
    nodes: Set<u32>,
    left: Seq<CandidateRegion>,
    right: Seq<CandidateRegion>,
)
    requires
        recovery::are_regions(arcs, nodes, left),
        recovery::are_regions(arcs, nodes, right),
    ensures
        region_views(left) == region_views(right),
{
    let a = region_views(left);
    let b = region_views(right);
    assert forall|x: (u32, Set<u32>)| #[trigger] a.contains(x) <==> b.contains(x) by {
        if a.contains(x) {
            let i = choose|i: int| 0 <= i < a.len() && a[i] == x;
            let j = lemma_header_listed(arcs, nodes, left, right, i);
            assert(b[j] == x);
        }
        if b.contains(x) {
            let i = choose|i: int| 0 <= i < b.len() && b[i] == x;
            let j = lemma_header_listed(arcs, nodes, right, left, i);
            assert(a[j] == x);
        }
    }
    lemma_same_sorted(a, b, |x: (u32, Set<u32>), y: (u32, Set<u32>)| x.0 < y.0);
}

/// Two derivations of one function agree on the regions, and on every part that
/// both carry: what is derived alone is what is derived with the rest.
pub proof fn derivations_agree(cfg: CfgView, left: RecoveryFacts, right: RecoveryFacts)
    requires
        RecoveryFacts::is_derivation(cfg, Ok(left)),
        RecoveryFacts::is_derivation(cfg, Ok(right)),
    ensures
        left.of_function() == right.of_function(),
        region_views(left.regions()) == region_views(right.regions()),
        left.carried().locals && right.carried().locals ==> local_views(left.local_facts())
            == local_views(right.local_facts()),
        left.carried().statement_origins && right.carried().statement_origins
            ==> recovery::origin_views(left.origin_facts()) == recovery::origin_views(
            right.origin_facts(),
        ),
        left.carried().edges && right.carried().edges ==> edge_views(left.edge_facts())
            == edge_views(right.edge_facts()),
        left.carried().dominators && right.carried().dominators ==> set_views(
            left.dominator_facts(),
        ) == set_views(right.dominator_facts()),
        left.carried().post_dominators && right.carried().post_dominators ==> set_views(
            left.post_dominator_facts(),
        ) == set_views(right.post_dominator_facts()),
        left.carried().effects && right.carried().effects ==> recovery::effect_views(
            left.effect_facts(),
        ) == recovery::effect_views(right.effect_facts()),
{
    let a = choose|nodes: Seq<u32>| #[trigger]
        recovery::is_node_list(cfg, nodes) && left.are_facts_of(cfg, nodes);
    let b = choose|nodes: Seq<u32>| #[trigger]
        recovery::is_node_list(cfg, nodes) && right.are_facts_of(cfg, nodes);
    let all = cfg.blocks.dom();
    listing::lemma_one_listing(a, b, all);
    let arcs = EdgeView::arcs(cfg.edges);
    lemma_same_regions(arcs, all, left.regions(), right.regions());
    if left.carried().locals && right.carried().locals {
        lemma_same_locals(cfg, a, left.local_facts(), right.local_facts());
    }
    if left.carried().edges && right.carried().edges {
        lemma_same_edges(cfg.edges, left.edge_facts(), right.edge_facts());
    }
    if left.carried().dominators && right.carried().dominators {
        lemma_same_dominators(
            arcs,
            all,
            cfg.entry,
            left.dominator_facts(),
            right.dominator_facts(),
        );
    }
    if left.carried().post_dominators && right.carried().post_dominators {
        lemma_same_post_dominators(
            cfg.edges,
            all,
            left.post_dominator_facts(),
            right.post_dominator_facts(),
        );
    }
}

/// The edges that a derivation carries are listed by source, then by target,
/// then by kind.
pub proof fn edges_are_listed_in_order(cfg: CfgView, facts: RecoveryFacts, i: int, j: int)
    requires
        RecoveryFacts::is_derivation(cfg, Ok(facts)),
        facts.carried().edges,
        0 <= i < j < facts.edge_facts().len(),
    ensures
        ({
            let left = facts.edge_facts()[i];
            let right = facts.edge_facts()[j];
            ||| left.source < right.source
            ||| left.source == right.source && left.target < right.target
            ||| left.source == right.source && left.target == right.target
                && left.branch.rank() <= right.branch.rank()
        }),
{
    let list = facts.edge_facts();
    let order = choose|order: Seq<EdgeView>|
        {
            &&& #[trigger] order.to_multiset() == cfg.edges.to_multiset()
            &&& EdgeFactView::is_ordered(order)
            &&& list.len() == order.len()
            &&& forall|i: int|
                0 <= i < list.len() ==> (#[trigger] list[i])@ == EdgeFactView::of(order[i])
        };
    assert(recovery::are_edge_facts(cfg.edges, list));
    assert(EdgeFactView::before(order[i], order[j]));
    assert(list[i]@ == EdgeFactView::of(order[i]));
    assert(list[j]@ == EdgeFactView::of(order[j]));
}

} // verus!
