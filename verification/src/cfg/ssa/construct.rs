//! Giving every definition of a function a local of its own.

use vstd::prelude::*;

use rustc_hash::{FxHashMap, FxHashSet};

use crate::ast::local::{Local, Locals, RcLocal};
use crate::ast::nodes;
use crate::cfg::block::EdgeView;
use crate::cfg::function::{CfgView, Function};
use crate::cfg::graph;
use crate::cfg::graph::{depth_first, NodeId};
use crate::cfg::listing;
use crate::cfg::ssa::capture_flow;
use crate::cfg::ssa::capture_flow::older;
use crate::cfg::ssa::copies;
use crate::cfg::ssa::copies::{
    group_values, propagate_copies, remove_closes, rename_groups, CaptureGroup, GroupView,
    Grouping,
};
use crate::cfg::ssa::definitions;
use crate::cfg::ssa::definitions::Builder;
use crate::cfg::ssa::local_map;
use crate::cfg::ssa::local_map::apply_local_map;
use crate::cfg::ssa::numbering::{Frame, Numbering};
use crate::cfg::ssa::params;
use crate::cfg::ssa::params::remove_unnecessary_params;
use crate::cfg::ssa::pruning;
use crate::cfg::ssa::pruning::prune;
use crate::cfg::ssa::upvalues;
use crate::cfg::ssa::upvalues::{Openings, UpvalueAnalysisError, UpvaluesOpen};
use crate::cfg::ssa::value_names;
use crate::cfg::ssa::value_names::{coalesce_names, inherit_names};
use crate::cfg::ssa::value_order;
use crate::collections::{copy_set, empty_map, empty_set, entry_keys, insert_member, remove_entry};

verus! {

broadcast use nodes::group_views;

/// Why the definitions of a function cannot be told apart.
#[derive(Debug)]
pub enum SsaError {
    Upvalues(UpvalueAnalysisError),
}

/// Locals of their own: how many there are, which there are for each local,
/// which there are for each local from around the function, and which stand for
/// one capture.
pub type Definitions = (
    usize,
    Vec<FxHashSet<u64>>,
    Vec<(RcLocal, FxHashSet<u64>)>,
    Vec<FxHashSet<u64>>,
);

/// The first place of a local from position `from` on.
pub open spec fn place_from(list: Seq<(u64, u64)>, local: u64, from: int) -> int
    decreases list.len() - from,
{
    if 0 <= from < list.len() {
        if list[from].0 == local {
            from
        } else {
            place_from(list, local, from + 1)
        }
    } else {
        list.len() as int
    }
}

/// The parameters of a function from position `k` on, each as the value that it
/// has at the entry, or as a new local where it is not used; and how many
/// locals there are then.
pub open spec fn entered_from(
    parameters: Seq<RcLocal>,
    k: int,
    list: Seq<(u64, u64)>,
    count: nat,
) -> (Seq<RcLocal>, nat)
    decreases parameters.len() - k,
{
    if 0 <= k < parameters.len() {
        let place = place_from(list, parameters[k].id, 0);
        if place < list.len() {
            let (rest, total) = entered_from(parameters, k + 1, list.remove(place), count);
            (seq![RcLocal { id: list[place].1 }] + rest, total)
        } else {
            let (rest, total) = entered_from(parameters, k + 1, list, count + 1);
            (seq![RcLocal { id: count as u64 }] + rest, total)
        }
    } else {
        (Seq::empty(), count)
    }
}

/// What is left to do once every definition has a local of its own.
pub struct Finishing {
    pub cfg: CfgView,
    pub names: Seq<Option<Seq<char>>>,
    pub old: Map<u64, u64>,
    pub upvalues: Set<u64>,
    pub walk: Seq<u32>,
}

impl Finishing {
    /// Where the locals that closures hold by reference are open.
    pub open spec fn openings(self) -> Openings {
        upvalues::openings(self.cfg, self.old)
    }

    /// The values that stand for one capture.
    pub open spec fn groups(self) -> Seq<GroupView> {
        let grouping = Grouping {
            old: self.old,
            upvalues: self.upvalues,
            open: self.openings(),
        };
        grouping.groups_from(Seq::empty(), self.cfg, self.walk, 0)
    }

    /// The blocks without copies, and what their targets come to stand for.
    pub open spec fn uncopied(self) -> (Map<u32, Seq<nodes::StatementView>>, Map<u64, u64>) {
        copies::blocks_uncopied(
            copies::blocks_unclosed(self.cfg.blocks),
            listing::listing(self.cfg.blocks.dom()),
            0,
            Map::empty(),
            self.old,
            self.upvalues.union(copies::grouped_locals(self.groups())),
        )
    }

    /// The function without copies.
    pub open spec fn copied(self) -> CfgView {
        local_map::renamed_function(
            CfgView { blocks: self.uncopied().0, ..self.cfg },
            self.uncopied().1,
        )
    }

    /// What the parameters of blocks that are always given one local come to
    /// stand for.
    pub open spec fn replaced(self) -> Map<u64, u64> {
        params::extended(self.copied().edges, Map::empty())
    }

    /// The function without parameters of blocks that are always given one
    /// local.
    pub open spec fn result(self) -> CfgView {
        local_map::renamed_function(
            CfgView {
                edges: self.copied().edges.map_values(
                    |edge: EdgeView| params::trimmed(self.copied().edges, edge),
                ),
                ..self.copied()
            },
            self.replaced(),
        )
    }

    /// The names of the locals in the end.
    pub open spec fn result_names(self) -> Seq<Option<Seq<char>>> {
        value_names::coalesced_names(
            value_names::inherited_names(self.names, self.old),
            self.replaced(),
        )
    }

    /// The locals that stand for one capture in the end.
    pub open spec fn result_groups(self) -> Seq<GroupView> {
        self.groups().map_values(
            |group: GroupView| copies::renamed_group(group, self.uncopied().1),
        ).map_values(|group: GroupView| copies::renamed_group(group, self.replaced()))
    }
}

/// The new locals of a local.
pub open spec fn definitions_of(old: Map<u64, u64>, local: u64) -> Set<u64> {
    Set::new(|id: u64| old.dom().contains(id) && old[id] == local)
}

/// Whether sets are the new locals of each local that has some.
pub open spec fn are_definitions(
    sets: Seq<FxHashSet<u64>>,
    old: Map<u64, u64>,
    locals: Seq<u64>,
) -> bool {
    &&& sets.len() == locals.len()
    &&& locals.no_duplicates()
    &&& locals.to_set() == old.values()
    &&& forall|i: int|
        0 <= i < sets.len() ==> (#[trigger] sets[i])@ == definitions_of(old, locals[i])
}

/// The first `count` locals of a list, each once.
pub open spec fn distinct(locals: Seq<RcLocal>, count: int) -> Seq<u64>
    decreases count,
{
    if 0 < count <= locals.len() {
        copies::with_one(distinct(locals, count - 1), locals[count - 1].id)
    } else {
        Seq::empty()
    }
}

impl Finishing {
    /// Whether locals of their own are told.
    pub open spec fn tells(self, upvalues_in: Seq<RcLocal>, made: Definitions) -> bool {
        let around = distinct(upvalues_in, upvalues_in.len() as int);
        &&& made.0 == self.old.dom().len()
        &&& exists|locals: Seq<u64>| are_definitions(made.1@, self.old, locals)
        &&& made.2@.len() == around.len()
        &&& forall|i: int|
            0 <= i < around.len() ==> (#[trigger] made.2@[i]).0.id == around[i] && made.2@[i].1@
                == definitions_of(self.old, around[i])
        &&& made.3@.len() == self.result_groups().len()
        &&& forall|i: int|
            0 <= i < made.3@.len() ==> (#[trigger] made.3@[i])@
                == self.result_groups()[i].members.to_set()
    }
}

/// Where a function starts: the blocks that its entry reaches, in the order
/// that they are gone through, and its locals.
pub open spec fn start(function: Function, locals: Locals, upvalues_in: Seq<RcLocal>) -> Frame {
    let entry = function@.entry->0;
    let walk = graph::walk_order(graph::graph_edges(function.graph_of()), entry);
    Frame {
        cfg: pruning::pruned(function@, walk.to_set()),
        walk,
        entry,
        base: locals@.len(),
        upvalues: distinct(upvalues_in, upvalues_in.len() as int).to_set(),
        names: locals@,
    }
}

/// What is left to do for a function.
pub open spec fn finishing(
    frame: Frame,
    st: Numbering,
    names: Seq<Option<Seq<char>>>,
) -> Finishing {
    let (parameters, count) = if st.incomplete.dom().contains(frame.entry) {
        entered_from(st.cfg.parameters, 0, st.incomplete[frame.entry], st.count)
    } else {
        (st.cfg.parameters, st.count)
    };
    Finishing {
        cfg: CfgView { parameters, ..st.cfg },
        names: names + Seq::new((count - st.count) as nat, |i: int| None),
        old: st.old,
        upvalues: frame.upvalues,
        walk: frame.walk,
    }
}

/// Whether a function was given locals of their own for a numbering of its
/// definitions: it is finished, or a capture cannot be told.
pub open spec fn is_constructed(
    frame: Frame,
    st: Numbering,
    names: Seq<Option<Seq<char>>>,
    upvalues_in: Seq<RcLocal>,
    after: CfgView,
    after_names: Seq<Option<Seq<char>>>,
    result: Result<Definitions, SsaError>,
) -> bool {
    let rest = finishing(frame, st, names);
    &&& frame.is_built(st)
    &&& names.len() == st.count
    &&& frame.keeps_names(st.old, st.made, names)
    &&& frame.keeps_sources(
        st.old,
        st.made,
        st.cfg.bindings,
        st.cfg.provenance,
        st.cfg.edges,
    )
    &&& match result {
        Ok(made) => {
            &&& rest.openings().first_fault_from(0) is None
            &&& after == rest.result()
            &&& after_names == rest.result_names()
            &&& rest.tells(upvalues_in, made)
        },
        Err(SsaError::Upvalues(UpvalueAnalysisError::PathDependentMerge { block })) => {
            &&& rest.openings().first_fault_from(0) is Some
            &&& rest.openings().first_fault_from(0)->0 == block
            &&& after == rest.cfg
            &&& after_names == rest.names
        },
        Err(_) => false,
    }
}

/// Whether a function can be given locals of their own: its entry has nothing
/// before it, and in the blocks that it reaches, edges pass no arguments, every
/// local is bound, and every statement that writes a local has its origins.
///
/// A block's parameters exist only once its locals are numbered. An argument
/// that an edge passed before would keep the locals of the unnumbered function
/// on both of its sides, since only statements are given new locals, and the
/// parameters of the edges into a block could then differ.
pub open spec fn can_construct(function: Function, locals: Locals) -> bool {
    let cfg = function@;
    let reached = Set::new(
        |n: u32| graph::reaches(EdgeView::arcs(cfg.edges), cfg.entry->0, n),
    );
    &&& function.well_formed()
    &&& cfg.entry is Some
    &&& cfg.blocks.dom().contains(cfg.entry->0)
    &&& EdgeView::entering(cfg.edges, cfg.entry->0).len() == 0
    &&& forall|i: int|
        0 <= i < cfg.edges.len() && reached.contains((#[trigger] cfg.edges[i]).source)
            ==> cfg.edges[i].arguments.len() == 0
    &&& forall|n: u32, t: int, k: int|
        reached.contains(n) && 0 <= t < cfg.blocks[n].len() && 0 <= k
            < cfg.blocks[n][t].locals().len() ==> (
        #[trigger] cfg.blocks[n][t].locals()[k]).id < locals@.len() && cfg.bindings.dom().contains(
            cfg.blocks[n][t].locals()[k].id,
        )
    &&& forall|n: u32, t: int|
        reached.contains(n) && 0 <= t < cfg.blocks[n].len() && cfg.blocks[n][t].writes().len() > 0
            ==> (#[trigger] cfg.origins_of(n, t)) is Some
}

fn find_place(list: &Vec<(u64, u64)>, local: u64) -> (place: usize)
    ensures
        place == place_from(list@, local, 0),
        place <= list@.len(),
{
    let ghost whole = place_from(list@, local, 0);
    let mut at: usize = 0;
    while at < list.len()
        invariant
            at <= list@.len(),
            whole == place_from(list@, local, 0),
            whole == place_from(list@, local, at as int),
        decreases list.len() - at,
    {
        if list[at].0 == local {
            return at;
        }
        at += 1;
    }
    at
}

/// Gives the function its parameters as they are at the entry.
fn enter_parameters(function: &mut Function, locals: &mut Locals, list: Vec<(u64, u64)>)
    requires
        old(function).well_formed(),
    ensures
        final(function).well_formed(),
        ({
            let (parameters, count) = entered_from(
                old(function)@.parameters,
                0,
                list@,
                old(locals)@.len(),
            );
            &&& final(function)@ == (CfgView { parameters, ..old(function)@ })
            &&& count >= old(locals)@.len()
            &&& final(locals)@ == old(locals)@ + Seq::new(
                (count - old(locals)@.len()) as nat,
                |i: int| None,
            )
        }),
{
    let ghost names = locals@;
    let ghost whole = entered_from(function@.parameters, 0, list@, names.len());
    let parameters = crate::ast::copy::copy_locals(function.parameters());
    let mut list = list;
    let mut done: Vec<RcLocal> = Vec::new();
    let mut k: usize = 0;
    proof {
        assert(done@ + whole.0 =~= whole.0);
        assert(names =~= names + Seq::new(0, |i: int| None::<Seq<char>>));
    }
    while k < parameters.len()
        invariant
            k <= parameters@.len(),
            names.len() <= locals@.len(),
            locals@ == names + Seq::new(
                (locals@.len() - names.len()) as nat,
                |i: int| None::<Seq<char>>,
            ),
            ({
                let rest = entered_from(parameters@, k as int, list@, locals@.len());
                whole == (done@ + rest.0, rest.1)
            }),
        decreases parameters.len() - k,
    {
        let ghost before = locals@;
        let ghost held = done@;
        let place = find_place(&list, parameters[k].id);
        if place < list.len() {
            let (_, value) = list.remove(place);
            done.push(RcLocal { id: value });
            proof {
                let rest = entered_from(parameters@, k + 1, list@, locals@.len());
                assert(held + (seq![RcLocal { id: value }] + rest.0) =~= done@ + rest.0);
            }
        } else {
            let local = RcLocal::new(locals, Local(None));
            done.push(local);
            proof {
                let rest = entered_from(parameters@, k + 1, list@, locals@.len());
                assert(local == (RcLocal { id: before.len() as u64 }));
                assert(held + (seq![local] + rest.0) =~= done@ + rest.0);
                assert(locals@ =~= names + Seq::new(
                    (locals@.len() - names.len()) as nat,
                    |i: int| None::<Seq<char>>,
                ));
            }
        }
        k += 1;
    }
    proof {
        assert(done@ + Seq::<RcLocal>::empty() =~= done@);
    }
    function.set_parameters(done);
}

/// The blocks that the entry reaches are blocks of the function.
proof fn lemma_walk_within(function: Function, entry: u32, walk: Seq<u32>)
    requires
        function.well_formed(),
        function@.blocks.dom().contains(entry),
        graph::is_walk(EdgeView::arcs(function@.edges), entry, walk),
    ensures
        walk.to_set().subset_of(function@.blocks.dom()),
{
    function.edges_join_blocks();
    let arcs = EdgeView::arcs(function@.edges);
    assert forall|n: u32| walk.to_set().contains(n) implies function@.blocks.dom().contains(n) by {
        let j = choose|j: int| 0 <= j < walk.len() && walk[j] == n;
        if j > 0 {
            assert(graph::follows_earlier(arcs, walk, j));
            let i = choose|i: int| 0 <= i < j && arcs.contains((#[trigger] walk[i], walk[j]));
            let e = choose|e: int|
                0 <= e < function@.edges.len() && (#[trigger] function@.edges[e]).source == walk[i]
                    && function@.edges[e].target == walk[j];
            assert(function@.blocks.dom().contains(function@.edges[e].target));
        }
    }
}

/// What the entry reaches can be given new locals.
proof fn lemma_start_valid(
    function: Function,
    locals: Locals,
    after: Function,
    frame: Frame,
)
    requires
        can_construct(function, locals),
        after.well_formed(),
        after@ == frame.cfg,
        frame.entry == function@.entry->0,
        frame.base == locals@.len(),
        frame.cfg == pruning::pruned(function@, frame.walk.to_set()),
        graph::is_walk(EdgeView::arcs(function@.edges), frame.entry, frame.walk),
    ensures
        frame.is_valid(),
{
    let cfg = function@;
    let walk = frame.walk;
    let kept = walk.to_set();
    lemma_walk_within(function, frame.entry, walk);
    after.edges_join_blocks();
    after.blocks_are_countable();
    pruning::lemma_pruned_walk(cfg.edges, frame.entry, walk);
    assert(frame.cfg.blocks.dom() =~= kept);
    assert forall|n: u32| kept.contains(n) implies graph::reaches(
        EdgeView::arcs(cfg.edges),
        frame.entry,
        n,
    ) by {
        assert(walk.contains(n));
    }
    assert forall|i: int| 0 <= i < frame.cfg.edges.len() implies cfg.edges.contains(
        #[trigger] frame.cfg.edges[i],
    ) && kept.contains(frame.cfg.edges[i].source) by {
        pruning::lemma_kept_member(cfg.edges, kept, frame.cfg.edges[i]);
        assert(frame.cfg.edges.contains(frame.cfg.edges[i]));
    }
    if EdgeView::entering(frame.cfg.edges, frame.entry).len() > 0 {
        let i = params::lemma_entering_member(frame.cfg.edges, frame.entry, 0);
        assert(cfg.edges.contains(frame.cfg.edges[i]));
        let j = choose|j: int| 0 <= j < cfg.edges.len() && cfg.edges[j] == frame.cfg.edges[i];
        let e = params::lemma_entering_listed(cfg.edges, j);
        assert(false);
    }
    assert forall|i: int| 0 <= i < frame.cfg.edges.len() implies (
    #[trigger] frame.cfg.edges[i]).arguments.len() == 0 by {
        assert(cfg.edges.contains(frame.cfg.edges[i]));
        let j = choose|j: int| 0 <= j < cfg.edges.len() && cfg.edges[j] == frame.cfg.edges[i];
        assert(kept.contains(cfg.edges[j].source));
    }
    assert forall|n: u32, t: int, k: int|
        frame.cfg.blocks.dom().contains(n) && 0 <= t < frame.cfg.blocks[n].len() && 0 <= k
            < frame.cfg.blocks[n][t].locals().len() implies frame.is_old(
        (#[trigger] frame.cfg.blocks[n][t].locals()[k]).id,
    ) by {
        assert(frame.cfg.blocks[n] == cfg.blocks[n]);
        assert(cfg.blocks[n][t].locals()[k].id < locals@.len());
    }
    assert forall|n: u32, t: int|
        frame.cfg.blocks.dom().contains(n) && 0 <= t < frame.cfg.blocks[n].len()
            && frame.cfg.blocks[n][t].writes().len() > 0 implies (
    #[trigger] frame.cfg.origins_of(n, t)) is Some by {
        assert(frame.cfg.blocks[n] == cfg.blocks[n]);
        assert(cfg.origins_of(n, t) is Some);
        assert(!exists|m: u32|
            #[trigger] cfg.blocks.dom().contains(m) && !kept.contains(m) && m == n as u64);
    }
}

/// The locals of a list, each once.
fn list_distinct(locals: &Vec<RcLocal>) -> (list: Vec<u64>)
    ensures
        list@ == distinct(locals@, locals@.len() as int),
{
    let mut list: Vec<u64> = Vec::new();
    let mut seen = empty_set();
    let mut at: usize = 0;
    while at < locals.len()
        invariant
            at <= locals@.len(),
            list@ == distinct(locals@, at as int),
            seen@ == list@.to_set(),
        decreases locals.len() - at,
    {
        let ghost before = list@;
        let fresh = insert_member(&mut seen, locals[at].id);
        proof {
            assert(before.to_set().contains(locals@[at as int].id) == before.contains(
                locals@[at as int].id,
            ));
        }
        if fresh {
            list.push(locals[at].id);
        }
        proof {
            assert forall|id: u64| list@.to_set().contains(id) == seen@.contains(id) by {
                if before.contains(id) && fresh {
                    let j = choose|j: int| 0 <= j < before.len() && before[j] == id;
                    assert(list@[j] == id);
                }
                if fresh {
                    assert(list@[before.len() as int] == locals@[at as int].id);
                }
            }
            assert(seen@ =~= list@.to_set());
        }
        at += 1;
    }
    list
}

/// The members of a list as a set.
fn collect_set(members: &Vec<u64>) -> (set: FxHashSet<u64>)
    ensures
        set@ == members@.to_set(),
{
    let mut set = empty_set();
    let mut at: usize = 0;
    while at < members.len()
        invariant
            at <= members@.len(),
            forall|id: u64| #[trigger]
                set@.contains(id) <==> exists|i: int| 0 <= i < at && members@[i] == id,
        decreases members.len() - at,
    {
        let ghost before = set@;
        insert_member(&mut set, members[at]);
        proof {
            assert forall|id: u64| #[trigger]
                set@.contains(id) <==> exists|i: int| 0 <= i < at + 1 && members@[i] == id by {
                if before.contains(id) {
                    let i = choose|i: int| 0 <= i < at && members@[i] == id;
                    assert(0 <= i < at + 1 && members@[i] == id);
                }
                if id == members@[at as int] {
                    assert(0 <= at < at + 1 && members@[at as int] == id);
                }
            }
        }
        at += 1;
    }
    proof {
        assert(set@ =~= members@.to_set());
    }
    set
}

/// The new locals of a local.
fn collect_definitions(keys: &Vec<u64>, old_locals: &FxHashMap<u64, u64>, local: u64) -> (set:
    FxHashSet<u64>)
    requires
        keys@.to_set() == old_locals@.dom(),
    ensures
        set@ == definitions_of(old_locals@, local),
{
    let mut set = empty_set();
    let mut at: usize = 0;
    while at < keys.len()
        invariant
            at <= keys@.len(),
            keys@.to_set() == old_locals@.dom(),
            forall|id: u64| #[trigger]
                set@.contains(id) <==> old_locals@[id] == local && exists|i: int|
                    0 <= i < at && keys@[i] == id,
        decreases keys.len() - at,
    {
        let ghost before = set@;
        let key: u64 = keys[at];
        proof {
            assert(keys@.to_set().contains(key));
        }
        if older(old_locals, RcLocal { id: key }) == local {
            insert_member(&mut set, key);
        }
        proof {
            assert forall|id: u64| #[trigger]
                set@.contains(id) <==> old_locals@[id] == local && exists|i: int|
                    0 <= i < at + 1 && keys@[i] == id by {
                if before.contains(id) {
                    let i = choose|i: int| 0 <= i < at && keys@[i] == id;
                    assert(0 <= i < at + 1 && keys@[i] == id);
                }
                if id == key {
                    assert(0 <= at < at + 1 && keys@[at as int] == id);
                }
            }
        }
        at += 1;
    }
    proof {
        assert forall|id: u64| set@.contains(id) == definitions_of(old_locals@, local).contains(
            id,
        ) by {
            if old_locals@.dom().contains(id) {
                assert(keys@.to_set().contains(id));
            }
            if set@.contains(id) {
                let i = choose|i: int| 0 <= i < keys@.len() && keys@[i] == id;
                assert(keys@.to_set().contains(keys@[i]));
            }
        }
        assert(set@ =~= definitions_of(old_locals@, local));
    }
    set
}

/// The locals that have new ones, each once.
fn list_originals(keys: &Vec<u64>, old_locals: &FxHashMap<u64, u64>) -> (originals: Vec<u64>)
    requires
        keys@.to_set() == old_locals@.dom(),
    ensures
        originals@.no_duplicates(),
        originals@.to_set() == old_locals@.values(),
{
    let mut originals: Vec<u64> = Vec::new();
    let mut seen = empty_set();
    let mut at: usize = 0;
    while at < keys.len()
        invariant
            at <= keys@.len(),
            keys@.to_set() == old_locals@.dom(),
            originals@.no_duplicates(),
            forall|local: u64| #[trigger] seen@.contains(local) <==> originals@.contains(local),
            forall|local: u64| #[trigger]
                seen@.contains(local) <==> exists|i: int|
                    0 <= i < at && old_locals@[#[trigger] keys@[i]] == local,
        decreases keys.len() - at,
    {
        let ghost before = originals@;
        let ghost known = seen@;
        let key: u64 = keys[at];
        proof {
            assert(keys@.to_set().contains(key));
        }
        let original: u64 = older(old_locals, RcLocal { id: key });
        let fresh = insert_member(&mut seen, original);
        if fresh {
            originals.push(original);
        }
        proof {
            assert forall|local: u64| #[trigger] seen@.contains(local) <==> originals@.contains(
                local,
            ) by {
                if fresh {
                    if before.contains(local) {
                        let j = choose|j: int| 0 <= j < before.len() && before[j] == local;
                        assert(originals@[j] == local);
                    }
                    assert(originals@[before.len() as int] == original);
                    assert(known.contains(local) == before.contains(local));
                }
            }
            assert forall|local: u64| #[trigger]
                seen@.contains(local) <==> exists|i: int|
                    0 <= i < at + 1 && old_locals@[#[trigger] keys@[i]] == local by {
                if known.contains(local) {
                    let i = choose|i: int|
                        0 <= i < at && old_locals@[#[trigger] keys@[i]] == local;
                    assert(0 <= i < at + 1 && old_locals@[keys@[i]] == local);
                }
                if local == original {
                    assert(0 <= at < at + 1 && old_locals@[keys@[at as int]] == local);
                }
            }
            assert(!fresh || !before.contains(original)) by {
                assert(known.contains(original) == before.contains(original));
            }
        }
        at += 1;
    }
    proof {
        assert forall|local: u64| originals@.to_set().contains(local)
            == old_locals@.values().contains(local) by {
            assert(seen@.contains(local) == originals@.contains(local));
            if seen@.contains(local) {
                let i = choose|i: int|
                    0 <= i < keys@.len() && old_locals@[#[trigger] keys@[i]] == local;
                assert(keys@.to_set().contains(keys@[i]));
                assert(old_locals@.dom().contains(keys@[i]));
            }
            if old_locals@.values().contains(local) {
                let key = choose|key: u64| #[trigger]
                    old_locals@.dom().contains(key) && old_locals@[key] == local;
                assert(keys@.to_set().contains(key));
                let i = choose|i: int| 0 <= i < keys@.len() && keys@[i] == key;
                assert(old_locals@[keys@[i]] == local);
            }
        }
        assert(originals@.to_set() =~= old_locals@.values());
    }
    originals
}

/// Lists the locals of their own.
fn list_definitions(
    old_locals: &FxHashMap<u64, u64>,
    upvalues_in: &Vec<RcLocal>,
    groups: &Vec<CaptureGroup>,
    Ghost(rest): Ghost<Finishing>,
) -> (made: Definitions)
    requires
        rest.old == old_locals@,
        CaptureGroup::views(groups@) == rest.result_groups(),
    ensures
        rest.tells(upvalues_in@, made),
{
    let keys = entry_keys(old_locals);
    proof {
        keys@.unique_seq_to_set();
    }
    let originals = list_originals(&keys, old_locals);
    let mut definitions: Vec<FxHashSet<u64>> = Vec::new();
    let mut at: usize = 0;
    while at < originals.len()
        invariant
            at <= originals@.len(),
            keys@.to_set() == old_locals@.dom(),
            definitions@.len() == at,
            forall|i: int|
                0 <= i < at ==> (#[trigger] definitions@[i])@ == definitions_of(
                    old_locals@,
                    originals@[i],
                ),
        decreases originals.len() - at,
    {
        definitions.push(collect_definitions(&keys, old_locals, originals[at]));
        at += 1;
    }
    proof {
        assert(are_definitions(definitions@, rest.old, originals@));
    }
    let around = list_distinct(upvalues_in);
    let mut upvalues: Vec<(RcLocal, FxHashSet<u64>)> = Vec::new();
    let mut at: usize = 0;
    while at < around.len()
        invariant
            at <= around@.len(),
            keys@.to_set() == old_locals@.dom(),
            upvalues@.len() == at,
            forall|i: int|
                0 <= i < at ==> (#[trigger] upvalues@[i]).0.id == around@[i] && upvalues@[i].1@
                    == definitions_of(old_locals@, around@[i]),
        decreases around.len() - at,
    {
        let set = collect_definitions(&keys, old_locals, around[at]);
        upvalues.push((RcLocal { id: around[at] }, set));
        at += 1;
    }
    let mut passed: Vec<FxHashSet<u64>> = Vec::new();
    let mut at: usize = 0;
    while at < groups.len()
        invariant
            at <= groups@.len(),
            passed@.len() == at,
            forall|i: int|
                0 <= i < at ==> (#[trigger] passed@[i])@ == groups@[i].members@.to_set(),
        decreases groups.len() - at,
    {
        passed.push(collect_set(&groups[at].members));
        at += 1;
    }
    proof {
        let views = CaptureGroup::views(groups@);
        assert forall|i: int| 0 <= i < passed@.len() implies (#[trigger] passed@[i])@
            == rest.result_groups()[i].members.to_set() by {
            assert(views[i] == groups@[i]@);
        }
    }
    let made = (keys.len(), definitions, upvalues, passed);
    proof {
        assert(are_definitions(made.1@, rest.old, originals@));
        assert(made.3@.len() == CaptureGroup::views(groups@).len());
    }
    made
}

/// The locals that copies leave alone: those from around the function, and
/// those that closures hold.
fn collect_held(upvalues: &FxHashSet<u64>, groups: &Vec<CaptureGroup>) -> (held: FxHashSet<u64>)
    ensures
        held@ == upvalues@.union(copies::grouped_locals(CaptureGroup::views(groups@))),
{
    let ghost views = CaptureGroup::views(groups@);
    let mut held = copy_set(upvalues);
    let mut at: usize = 0;
    while at < groups.len()
        invariant
            at <= groups@.len(),
            views == CaptureGroup::views(groups@),
            forall|local: u64| #[trigger]
                held@.contains(local) <==> upvalues@.contains(local) || exists|i: int|
                    0 <= i < at && (#[trigger] views[i]).local == local,
        decreases groups.len() - at,
    {
        let ghost before = held@;
        insert_member(&mut held, groups[at].local);
        proof {
            assert(views[at as int] == groups@[at as int]@);
            assert forall|local: u64| #[trigger]
                held@.contains(local) <==> upvalues@.contains(local) || exists|i: int|
                    0 <= i < at + 1 && (#[trigger] views[i]).local == local by {
                if before.contains(local) && !upvalues@.contains(local) {
                    let i = choose|i: int| 0 <= i < at && (#[trigger] views[i]).local == local;
                    assert(0 <= i < at + 1 && views[i].local == local);
                }
                if local == groups@[at as int].local {
                    assert(0 <= at < at + 1 && views[at as int].local == local);
                }
            }
        }
        at += 1;
    }
    proof {
        assert(held@ =~= upvalues@.union(copies::grouped_locals(views)));
    }
    held
}

/// Whether what is left to do is for a numbering of a function.
spec fn is_left(frame: Frame, st: Numbering, rest: Finishing) -> bool {
    &&& frame.is_valid()
    &&& frame.is_built(st)
    &&& rest.cfg == (CfgView { parameters: rest.cfg.parameters, ..st.cfg })
    &&& rest.old == st.old
    &&& rest.upvalues == frame.upvalues
    &&& rest.walk == frame.walk
    &&& st.count <= rest.names.len()
}

proof fn lemma_left(frame: Frame, st: Numbering, rest: Finishing)
    requires
        is_left(frame, st, rest),
    ensures
        rest.cfg.blocks.dom() == rest.walk.to_set(),
        rest.cfg.entry == frame.cfg.entry,
        upvalues::has_older(rest.cfg, rest.old),
        forall|node: u32, t: int, k: int|
            rest.cfg.blocks.dom().contains(node) && 0 <= t < rest.cfg.blocks[node].len() && 0 <= k
                < rest.cfg.blocks[node][t].locals().len() ==> rest.old.dom().contains(
                (#[trigger] rest.cfg.blocks[node][t].locals()[k]).id,
            ),
        forall|node: u32|
            rest.cfg.blocks.dom().contains(node) ==> frame.order(st).allows_from(
                #[trigger] copies::blocks_unclosed(rest.cfg.blocks)[node],
                0,
            ),
        forall|id: u64| #[trigger]
            rest.old.dom().contains(id) ==> id < st.count && rest.cfg.bindings.dom().contains(id)
                && !rest.old.dom().contains(rest.old[id]),
{
    assert(st.cfg.blocks.dom() == frame.cfg.blocks.dom() && st.cfg.entry == frame.cfg.entry
        && frame.keeps_numbers(st) && frame.keeps_function(st)) by {
        reveal(Frame::holds);
    }
    assert forall|id: u64| #[trigger] rest.old.dom().contains(id) implies id < st.count
        && rest.cfg.bindings.dom().contains(id) && !rest.old.dom().contains(rest.old[id]) by {
        assert(st.is_new(id));
        assert(frame.is_old(st.old[id]));
        if st.is_new(st.old[id]) {
            assert(frame.base <= st.old[id]);
        }
    }
    assert forall|node: u32, t: int|
        frame.cfg.blocks.dom().contains(node) && 0 <= t
            < st.cfg.blocks[node].len() implies frame.order(st).allows(
        #[trigger] st.cfg.blocks[node][t],
    ) && (forall|k: int|
        0 <= k < capture_flow::captures(st.cfg.blocks[node][t]).len() ==> st.old.dom().contains(
            (#[trigger] capture_flow::captures(st.cfg.blocks[node][t])[k]).id,
        )) by {
        assert(st.cfg.blocks[node].len() == frame.cfg.blocks[node].len());
        frame.lemma_allowed(st, node, t);
    }
    assert forall|node: u32| rest.cfg.blocks.dom().contains(node) implies frame.order(
        st,
    ).allows_from(#[trigger] copies::blocks_unclosed(rest.cfg.blocks)[node], 0) by {
        copies::lemma_unclosed_allowed(frame.order(st), rest.cfg.blocks[node]);
    }
    assert forall|node: u32, t: int, k: int|
        rest.cfg.blocks.dom().contains(node) && 0 <= t < rest.cfg.blocks[node].len() && 0 <= k
            < rest.cfg.blocks[node][t].locals().len() implies rest.old.dom().contains(
        (#[trigger] rest.cfg.blocks[node][t].locals()[k]).id,
    ) by {
        assert(frame.order(st).allows(st.cfg.blocks[node][t]));
    }
    assert forall|node: u32| rest.cfg.blocks.dom().contains(node) implies
        capture_flow::knows_captures(#[trigger] rest.cfg.blocks[node], rest.old) by {
        assert forall|t: int, k: int|
            0 <= t < rest.cfg.blocks[node].len() && 0 <= k < capture_flow::captures(
                rest.cfg.blocks[node][t],
            ).len() implies rest.old.dom().contains(
            (#[trigger] capture_flow::captures(rest.cfg.blocks[node][t])[k]).id,
        ) by {
            assert(frame.order(st).allows(st.cfg.blocks[node][t]));
        }
    }
}

/// Locals that are bound stand for something.
proof fn lemma_bound(cfg: CfgView, id: u64)
    requires
        cfg.bindings.dom().contains(id),
    ensures
        cfg.binding_of(RcLocal { id }) is Some,
{
}

/// What a map that leads back stands for is bound.
proof fn lemma_copies_bound(frame: Frame, st: Numbering, rest: Finishing, map: Map<u64, u64>)
    requires
        is_left(frame, st, rest),
        frame.order(st).leads_back(map),
    ensures
        local_map::ends_everywhere(map),
        forall|id: u64| #[trigger]
            map.dom().contains(id) ==> rest.cfg.bindings.dom().contains(
                local_map::resolved(map, id),
            ),
        params::parameters_agree(value_order::renamed_edges(rest.cfg.edges, map)),
        params::spares_parameters(value_order::renamed_edges(rest.cfg.edges, map), Map::empty()),
        ({
            let more = params::extended(
                value_order::renamed_edges(rest.cfg.edges, map),
                Map::empty(),
            );
            &&& local_map::ends_everywhere(more)
            &&& forall|id: u64| #[trigger]
                more.dom().contains(id) ==> rest.cfg.bindings.dom().contains(
                    local_map::resolved(more, id),
                ) && local_map::resolved(more, id) < st.count
        }),
{
    lemma_left(frame, st, rest);
    let order = frame.order(st);
    local_map::lemma_descending_map(map, order.rank);
    assert forall|id: u64| #[trigger] map.dom().contains(id) implies
        rest.cfg.bindings.dom().contains(local_map::resolved(map, id)) by {
        order.lemma_leads_back(map, id);
    }
    frame.lemma_parameters(st, map);
    let more = params::extended(value_order::renamed_edges(rest.cfg.edges, map), Map::empty());
    assert forall|id: u64| #[trigger] more.dom().contains(id) implies
        rest.cfg.bindings.dom().contains(local_map::resolved(more, id)) && local_map::resolved(
        more,
        id,
    ) < st.count by {
        assert(st.is_new(local_map::resolved(more, id)));
        assert(rest.old.dom().contains(local_map::resolved(more, id)));
    }
}

pub proof fn lemma_renamed_edges(cfg: CfgView, map: Map<u64, u64>)
    ensures
        local_map::renamed_function(cfg, map).edges == value_order::renamed_edges(cfg.edges, map),
{
    let f = |l: RcLocal| local_map::resolved_local(map, l);
    let one = local_map::renamed_function(cfg, map).edges;
    let other = value_order::renamed_edges(cfg.edges, map);
    assert forall|i: int| 0 <= i < one.len() implies one[i] == other[i] by {
        assert(one[i] == local_map::renamed_edge(cfg.edges[i], f));
        assert(other[i] == local_map::renamed_edge(cfg.edges[i], f));
    }
    assert(one =~= other);
}

/// Finishes a function whose definitions have locals of their own.
fn finish(
    function: &mut Function,
    locals: &mut Locals,
    old_locals: &FxHashMap<u64, u64>,
    upvalues: &FxHashSet<u64>,
    walk: &Vec<NodeId>,
    upvalues_in: &Vec<RcLocal>,
    Ghost(frame): Ghost<Frame>,
    Ghost(st): Ghost<Numbering>,
    Ghost(rest): Ghost<Finishing>,
) -> (result: Result<Definitions, SsaError>)
    requires
        old(function).well_formed(),
        old(function)@.entry == Some(frame.entry),
        rest == (Finishing {
            cfg: old(function)@,
            names: old(locals)@,
            old: old_locals@,
            upvalues: upvalues@,
            walk: walk@,
        }),
        is_left(frame, st, rest),
    ensures
        final(function).well_formed(),
        match result {
            Ok(made) => {
                &&& rest.openings().first_fault_from(0) is None
                &&& final(function)@ == rest.result()
                &&& final(locals)@ == rest.result_names()
                &&& rest.tells(upvalues_in@, made)
            },
            Err(SsaError::Upvalues(UpvalueAnalysisError::PathDependentMerge { block })) => {
                &&& rest.openings().first_fault_from(0) is Some
                &&& rest.openings().first_fault_from(0)->0 == block
                &&& final(function)@ == rest.cfg
                &&& final(locals)@ == rest.names
            },
            Err(_) => false,
        },
{
    proof {
        lemma_left(frame, st, rest);
        assert(frame.walk[0] == frame.entry);
        assert(frame.walk.to_set().contains(frame.walk[0]));
    }
    let open = match UpvaluesOpen::try_new(function, old_locals) {
        Ok(open) => open,
        Err(error) => {
            return Err(SsaError::Upvalues(error));
        },
    };
    let ghost grouping = Grouping {
        old: rest.old,
        upvalues: rest.upvalues,
        open: rest.openings(),
    };
    let groups = group_values(function, walk, old_locals, upvalues, &open, Ghost(grouping));
    let held = collect_held(upvalues, &groups);
    remove_closes(function);
    proof {
        assert(function@.blocks.dom() =~= rest.cfg.blocks.dom());
    }
    let map = propagate_copies(function, old_locals, &held, Ghost(frame.order(st)));
    proof {
        assert((function@.blocks, map@) == rest.uncopied());
        lemma_copies_bound(frame, st, rest, map@);
        assert forall|id: u64| #[trigger] map@.dom().contains(id) implies function@.binding_of(
            local_map::resolved_local(map@, RcLocal { id }),
        ) is Some by {
            lemma_bound(function@, local_map::resolved(map@, id));
        }
    }
    let groups = rename_groups(groups, &map);
    let ghost uncopied = function@;
    apply_local_map(function, &map);
    proof {
        assert(function@ == rest.copied());
        lemma_renamed_edges(uncopied, map@);
    }
    let mut replaced: FxHashMap<u64, u64> = empty_map();
    proof {
        assert(replaced@ =~= Map::empty());
    }
    proof {
        let all = function@.blocks.dom();
        function.edges_join_blocks();
        listing::lemma_has_listing(all);
        assert forall|i: int| 0 <= i < function@.edges.len() implies listing::listing(
            all,
        ).to_set().contains((#[trigger] function@.edges[i]).target) by {
        }
        params::agreeing_parameters_are_removed(
            function@.edges,
            replaced@,
            listing::listing(all),
        );
    }
    let _ = remove_unnecessary_params(function, &mut replaced);
    proof {
        let more = rest.replaced();
        assert(local_map::rename_alike(replaced@, more));
        assert forall|id: u64| #[trigger] replaced@.dom().contains(id) implies
            function@.binding_of(local_map::resolved_local(replaced@, RcLocal { id })) is Some
            && local_map::resolved(replaced@, id) < locals@.len() by {
            assert(more.dom().contains(id));
            assert(local_map::resolved(replaced@, id) == local_map::resolved(more, id));
            lemma_bound(function@, local_map::resolved(more, id));
        }
    }
    inherit_names(locals, old_locals);
    coalesce_names(locals, &replaced);
    let groups = rename_groups(groups, &replaced);
    let ghost trimmed = function@;
    apply_local_map(function, &replaced);
    proof {
        let more = rest.replaced();
        let whole = CfgView {
            edges: rest.copied().edges.map_values(
                |edge: EdgeView| params::trimmed(rest.copied().edges, edge),
            ),
            ..rest.copied()
        };
        assert(trimmed.edges =~= whole.edges);
        assert(trimmed == whole);
        local_map::lemma_rename_alike(trimmed, replaced@, more);
        assert(function@ == rest.result());
        value_names::lemma_names_alike(
            value_names::inherited_names(rest.names, rest.old),
            replaced@,
            more,
        );
        let views = CaptureGroup::views(groups@);
        let made = rest.result_groups();
        assert forall|i: int| 0 <= i < made.len() implies views[i] == made[i] by {
            let one = copies::renamed_group(rest.groups()[i], rest.uncopied().1);
            assert(views[i] == copies::renamed_group(one, replaced@));
            assert(made[i] == copies::renamed_group(one, more));
            assert(views[i].members =~= made[i].members);
        }
        assert(views =~= made);
    }
    Ok(list_definitions(old_locals, upvalues_in, &groups, Ghost(rest)))
}

/// Gives every definition of a function a local of its own, joins the locals
/// that edges bring together, and drops copies.
///
/// Blocks that the entry does not reach are taken out. Where paths disagree on
/// whether a closure still holds a local, the function cannot be finished.
pub fn construct(
    function: &mut Function,
    locals: &mut Locals,
    upvalues_in: &Vec<RcLocal>,
) -> (result: Result<Definitions, SsaError>)
    requires
        can_construct(*old(function), *old(locals)),
    ensures
        final(function).well_formed(),
        exists|st: Numbering, names: Seq<Option<Seq<char>>>|
            is_constructed(
                start(*old(function), *old(locals), upvalues_in@),
                st,
                names,
                upvalues_in@,
                final(function)@,
                final(locals)@,
                result,
            ),
{
    let ghost frame = start(*function, *locals, upvalues_in@);
    let entry = match function.entry() {
        Some(entry) => entry,
        None => {
            return Err(
                SsaError::Upvalues(UpvalueAnalysisError::PathDependentMerge { block: 0 }),
            );
        },
    };
    let walk = depth_first(function.graph(), entry);
    proof {
        lemma_walk_within(*function, entry, walk@);
    }
    let ghost before = *function;
    prune(function, &walk);
    let around = list_distinct(upvalues_in);
    let upvalues = collect_set(&around);
    proof {
        lemma_start_valid(before, *locals, *function, frame);
    }
    let mut builder = Builder {
        walk,
        entry,
        current: empty_map(),
        incomplete: empty_map(),
        filled: empty_set(),
        sealed: empty_set(),
        old: empty_map(),
        upvalues,
        frame: Ghost(frame),
        sealed_at: Ghost(Map::empty()),
        starts: Ghost(Map::empty()),
        made: Ghost(Map::empty()),
        values: Ghost(Map::empty()),
    };
    proof {
        let st = builder.state(function@, locals@.len());
        let none = Numbering {
            cfg: frame.cfg,
            starts: Map::empty(),
            current: Map::empty(),
            old: Map::empty(),
            made: Map::empty(),
            values: Map::empty(),
            filled: Set::empty(),
            sealed: Set::empty(),
            sealed_at: Map::empty(),
            incomplete: Map::empty(),
            count: frame.base,
        };
        assert(st.current =~= none.current);
        assert(st.old =~= none.old);
        assert(st.filled =~= none.filled);
        assert(st.sealed =~= none.sealed);
        assert(st.incomplete =~= none.incomplete);
        assert(st == none);
        frame.lemma_started(st);
        frame.lemma_sources_kept();
        reveal(Frame::keeps_names);
        reveal(Frame::keeps_seals);
        assert(builder.filled_blocks() =~= Set::empty());
        assert(builder.sealed_blocks() =~= Set::empty());
    }
    builder.build(function, locals);
    let ghost st = builder.state(function@, locals@.len());
    let ghost names = locals@;
    proof {
        assert(frame.is_built(st));
        assert(st.cfg.entry == frame.cfg.entry) by {
            reveal(Frame::holds);
        }
    }
    match remove_entry(&mut builder.incomplete, entry as u64) {
        Some(list) => {
            proof {
                assert(st.incomplete.dom().contains(entry));
                assert(st.incomplete[entry] == list@);
            }
            enter_parameters(function, locals, list);
        },
        None => {
            proof {
                assert(!st.incomplete.dom().contains(entry));
                assert(names =~= names + Seq::new(0, |i: int| None::<Seq<char>>));
            }
        },
    }
    let ghost rest = finishing(frame, st, names);
    proof {
        assert(locals@ =~= rest.names);
        assert(function@ == rest.cfg);
    }
    let result = finish(
        function,
        locals,
        &builder.old,
        &builder.upvalues,
        &builder.walk,
        upvalues_in,
        Ghost(frame),
        Ghost(st),
        Ghost(rest),
    );
    proof {
        assert(is_constructed(
            frame,
            st,
            names,
            upvalues_in@,
            function@,
            locals@,
            result,
        ));
    }
    result
}

} // verus!
