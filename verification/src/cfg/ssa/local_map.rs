//! Renaming the locals of a function by a map.

use vstd::prelude::*;

use rustc_hash::FxHashMap;

use crate::ast::local::RcLocal;
use crate::ast::nodes;
use crate::ast::nodes::{Block, RValue, RValueView, Statement, StatementView};
use crate::ast::rename::{rename_locals, Renaming};
use crate::cfg::block::{BlockEdge, EdgeView};
use crate::cfg::function::{CfgView, EdgeReference, Function};
use crate::cfg::provenance::{BindingView, LocalProvenanceView, OriginView};
use crate::collections;
use crate::collections::{
    empty_ordered_map, empty_set, entry_keys, find_entry, insert_if_absent, insert_member,
    list_entries, OrderedMap,
};

verus! {

broadcast use nodes::group_views;

/// The local that a map leads to in a number of steps.
pub open spec fn followed(map: Map<u64, u64>, id: u64, steps: nat) -> u64
    decreases steps,
{
    if steps == 0 || !map.dom().contains(id) {
        id
    } else {
        followed(map, map[id], (steps - 1) as nat)
    }
}

/// Whether a map leads from a local to one that it does not rename.
pub open spec fn ends_within(map: Map<u64, u64>, id: u64, steps: nat) -> bool {
    !map.dom().contains(followed(map, id, steps))
}

/// Whether a map leads from every local to one that it does not rename: it
/// has no cycle.
pub open spec fn ends_everywhere(map: Map<u64, u64>) -> bool {
    forall|id: u64| #[trigger] ends(map, id)
}

/// Whether a map leads from one local to one that it does not rename.
pub open spec fn ends(map: Map<u64, u64>, id: u64) -> bool {
    exists|steps: nat| #[trigger] ends_within(map, id, steps)
}

/// The local that a map leads to in the end.
pub open spec fn resolved(map: Map<u64, u64>, id: u64) -> u64 {
    followed(map, id, choose|steps: nat| ends_within(map, id, steps))
}

/// The local that stands for another under a map.
pub open spec fn resolved_local(map: Map<u64, u64>, local: RcLocal) -> RcLocal {
    RcLocal { id: resolved(map, local.id) }
}

proof fn lemma_followed_step(map: Map<u64, u64>, id: u64, steps: nat)
    ensures
        followed(map, id, steps + 1) == (if map.dom().contains(followed(map, id, steps)) {
            map[followed(map, id, steps)]
        } else {
            followed(map, id, steps)
        }),
    decreases steps,
{
    if steps == 0 {
        reveal_with_fuel(followed, 3);
    } else if map.dom().contains(id) {
        lemma_followed_step(map, map[id], (steps - 1) as nat);
    }
}

proof fn lemma_followed_stays(map: Map<u64, u64>, id: u64, steps: nat, more: nat)
    requires
        ends_within(map, id, steps),
        steps <= more,
    ensures
        followed(map, id, more) == followed(map, id, steps),
    decreases more - steps,
{
    if steps < more {
        lemma_followed_stays(map, id, steps, (more - 1) as nat);
        lemma_followed_step(map, id, (more - 1) as nat);
    }
}

/// Whatever number of steps leads to an end leads to the one end.
pub proof fn lemma_resolved_within(map: Map<u64, u64>, id: u64, steps: nat)
    requires
        ends_within(map, id, steps),
    ensures
        resolved(map, id) == followed(map, id, steps),
{
    let chosen = choose|steps: nat| ends_within(map, id, steps);
    assert(ends_within(map, id, chosen));
    if steps <= chosen {
        lemma_followed_stays(map, id, steps, chosen);
    } else {
        lemma_followed_stays(map, id, chosen, steps);
    }
}

/// A step of a map does not change its end.
pub proof fn lemma_resolved_step(map: Map<u64, u64>, id: u64)
    requires
        ends_everywhere(map),
        map.dom().contains(id),
    ensures
        resolved(map, map[id]) == resolved(map, id),
{
    assert(ends(map, map[id]));
    let steps = choose|steps: nat| #[trigger] ends_within(map, map[id], steps);
    lemma_resolved_within(map, map[id], steps);
    assert(followed(map, id, steps + 1) == followed(map, map[id], steps));
    lemma_resolved_within(map, id, steps + 1);
}

/// A map that leads from every local to a lower one leads to an end.
pub proof fn lemma_descending_map(map: Map<u64, u64>, rank: spec_fn(u64) -> int)
    requires
        forall|id: u64| #[trigger]
            map.dom().contains(id) ==> 0 <= rank(map[id]) < rank(id),
    ensures
        ends_everywhere(map),
{
    assert forall|id: u64| #[trigger] ends(map, id) by {
        if map.dom().contains(id) {
            lemma_descends(map, rank, id);
        } else {
            assert(ends_within(map, id, 0));
        }
    }
}

proof fn lemma_descends(map: Map<u64, u64>, rank: spec_fn(u64) -> int, id: u64)
    requires
        forall|id: u64| #[trigger]
            map.dom().contains(id) ==> 0 <= rank(map[id]) < rank(id),
        map.dom().contains(id),
    ensures
        ends(map, id),
    decreases rank(id),
{
    let next = map[id];
    if map.dom().contains(next) {
        lemma_descends(map, rank, next);
        let steps = choose|steps: nat| #[trigger] ends_within(map, next, steps);
        assert(followed(map, id, steps + 1) == followed(map, next, steps));
        assert(ends_within(map, id, steps + 1));
    } else {
        assert(followed(map, next, 0) == next);
        assert(followed(map, id, 1) == followed(map, next, 0));
        assert(ends_within(map, id, 1));
    }
}

/// What every step of a map keeps, its end has.
pub proof fn lemma_resolved_keeps(map: Map<u64, u64>, kept: spec_fn(u64) -> bool, id: u64)
    requires
        kept(id),
        forall|id: u64| #[trigger] map.dom().contains(id) && kept(id) ==> kept(map[id]),
    ensures
        kept(resolved(map, id)),
{
    lemma_followed_keeps(map, kept, id, choose|steps: nat| ends_within(map, id, steps));
}

proof fn lemma_followed_keeps(
    map: Map<u64, u64>,
    kept: spec_fn(u64) -> bool,
    id: u64,
    steps: nat,
)
    requires
        kept(id),
        forall|id: u64| #[trigger] map.dom().contains(id) && kept(id) ==> kept(map[id]),
    ensures
        kept(followed(map, id, steps)),
    decreases steps,
{
    if steps > 0 && map.dom().contains(id) {
        lemma_followed_keeps(map, kept, map[id], (steps - 1) as nat);
    }
}

/// What a map leads to in the end is not renamed any more, and a local that is
/// not renamed stands for itself.
pub proof fn resolving_ends(map: Map<u64, u64>, id: u64)
    requires
        ends_everywhere(map),
    ensures
        !map.dom().contains(resolved(map, id)),
        !map.dom().contains(id) ==> resolved(map, id) == id,
        resolved(map, resolved(map, id)) == resolved(map, id),
{
    let steps = choose|steps: nat| ends_within(map, id, steps);
    assert(ends(map, id));
    assert(ends_within(map, id, steps));
    let end = resolved(map, id);
    lemma_followed_ended(map, end, choose|steps: nat| ends_within(map, end, steps));
    if !map.dom().contains(id) {
        lemma_followed_ended(map, id, steps);
    }
}

proof fn lemma_followed_ended(map: Map<u64, u64>, id: u64, steps: nat)
    requires
        !map.dom().contains(id),
    ensures
        followed(map, id, steps) == id,
{
}

/// Renaming by a map, each local by the one that the map leads to in the end.
pub struct LocalMap<'a> {
    map: &'a FxHashMap<u64, u64>,
}

impl<'a> LocalMap<'a> {
    pub closed spec fn view(&self) -> Map<u64, u64> {
        self.map@
    }

    pub fn new(map: &'a FxHashMap<u64, u64>) -> (renaming: Self)
        ensures
            renaming@ == map@,
    {
        LocalMap { map }
    }
}

impl<'a> Renaming for LocalMap<'a> {
    open spec fn image(&self, local: RcLocal) -> RcLocal {
        resolved_local(self@, local)
    }

    open spec fn is_total(&self) -> bool {
        ends_everywhere(self@)
    }

    fn rename(&self, local: RcLocal) -> (renamed: RcLocal) {
        resolve_local_map(self.map, local)
    }
}

/// The local that a map leads to in the end.
pub fn resolve_local_map(local_map: &FxHashMap<u64, u64>, local: RcLocal) -> (target: RcLocal)
    requires
        ends_everywhere(local_map@),
    ensures
        target == resolved_local(local_map@, local),
{
    let ghost map = local_map@;
    let ghost end = choose|steps: nat| ends_within(map, local.id, steps);
    let ghost mut steps: nat = 0;
    let mut target: u64 = local.id;
    proof {
        assert(ends(map, local.id));
        assert(ends_within(map, local.id, end));
    }
    loop
        invariant
            map == local_map@,
            ends_within(map, local.id, end),
            end == (choose|steps: nat| ends_within(map, local.id, steps)),
            steps <= end,
            target == followed(map, local.id, steps),
        ensures
            target == followed(map, local.id, end),
        decreases end - steps,
    {
        match find_entry(local_map, target) {
            Some(next) => {
                proof {
                    if steps == end {
                        assert(!map.dom().contains(target));
                    }
                    lemma_followed_step(map, local.id, steps);
                    steps = steps + 1;
                }
                target = *next;
            },
            None => {
                proof {
                    lemma_followed_stays(map, local.id, steps, end);
                }
                break;
            },
        }
    }
    RcLocal { id: target }
}

/// The entries of capture groups from position `from` on, renamed, added to
/// those that are there: of the members that come to be one local the first
/// stays.
pub open spec fn renamed_groups_from(
    groups: Seq<(u64, u64)>,
    from: int,
    map: Map<u64, u64>,
    renamed: Seq<(u64, u64)>,
) -> Seq<(u64, u64)>
    decreases groups.len() - from,
{
    if 0 <= from < groups.len() {
        let target = resolved(map, groups[from].0);
        renamed_groups_from(
            groups,
            from + 1,
            map,
            if collections::has_key(renamed, target) {
                renamed
            } else {
                renamed.push((target, groups[from].1))
            },
        )
    } else {
        renamed
    }
}

/// Renames the members of by-reference capture groups through `local_map`.
///
/// A capture group is the set of SSA values that alias one runtime box, so a
/// pass that renames a value has to rename it inside the group as well.
/// Leaving a stale name behind drops the value out of its group: SSA
/// destruction then gives it a local of its own, and a write that the closure
/// is supposed to observe silently lands somewhere else. Callers must invoke
/// this alongside every [`apply_local_map`] that runs between capture marking
/// and SSA destruction.
///
/// Members of one group may come to be one local; members of different groups
/// may not, since their boxes differ.
pub fn apply_local_map_to_upvalue_groups(
    upvalue_to_group: &mut OrderedMap,
    local_map: &FxHashMap<u64, u64>,
)
    requires
        ends_everywhere(local_map@),
        forall|i: int, j: int|
            #![trigger collections::ordered_entries(*old(upvalue_to_group))[i],
                collections::ordered_entries(*old(upvalue_to_group))[j]]
            0 <= i < j < collections::ordered_entries(*old(upvalue_to_group)).len() && resolved(
                local_map@,
                collections::ordered_entries(*old(upvalue_to_group))[i].0,
            ) == resolved(local_map@, collections::ordered_entries(*old(upvalue_to_group))[j].0)
                ==> collections::ordered_entries(*old(upvalue_to_group))[i].1
                == collections::ordered_entries(*old(upvalue_to_group))[j].1,
    ensures
        collections::ordered_entries(*final(upvalue_to_group)) == renamed_groups_from(
            collections::ordered_entries(*old(upvalue_to_group)),
            0,
            local_map@,
            Seq::empty(),
        ),
{
    let groups = list_entries(upvalue_to_group);
    let mut renamed = empty_ordered_map();
    let mut index: usize = 0;
    while index < groups.len()
        invariant
            index <= groups.len(),
            ends_everywhere(local_map@),
            renamed_groups_from(
                groups@,
                index as int,
                local_map@,
                collections::ordered_entries(renamed),
            ) == renamed_groups_from(groups@, 0, local_map@, Seq::empty()),
        decreases groups.len() - index,
    {
        let (upvalue, group) = groups[index];
        let target = resolve_local_map(local_map, RcLocal { id: upvalue });
        insert_if_absent(&mut renamed, target.id, group);
        index += 1;
    }
    *upvalue_to_group = renamed;
}

proof fn lemma_groups_keep(
    groups: Seq<(u64, u64)>,
    from: int,
    map: Map<u64, u64>,
    renamed: Seq<(u64, u64)>,
    key: u64,
)
    requires
        0 <= from,
        collections::has_key(renamed, key),
    ensures
        collections::has_key(renamed_groups_from(groups, from, map, renamed), key),
    decreases groups.len() - from,
{
    if from < groups.len() {
        let target = resolved(map, groups[from].0);
        let next = if collections::has_key(renamed, target) {
            renamed
        } else {
            renamed.push((target, groups[from].1))
        };
        let i = choose|i: int| 0 <= i < renamed.len() && (#[trigger] renamed[i]).0 == key;
        assert(next[i].0 == key);
        lemma_groups_keep(groups, from + 1, map, next, key);
    }
}

proof fn lemma_groups_cover(
    groups: Seq<(u64, u64)>,
    from: int,
    map: Map<u64, u64>,
    renamed: Seq<(u64, u64)>,
    i: int,
)
    requires
        0 <= from <= i < groups.len(),
    ensures
        collections::has_key(
            renamed_groups_from(groups, from, map, renamed),
            resolved(map, groups[i].0),
        ),
    decreases i - from,
{
    let target = resolved(map, groups[from].0);
    let next = if collections::has_key(renamed, target) {
        renamed
    } else {
        renamed.push((target, groups[from].1))
    };
    if from < i {
        lemma_groups_cover(groups, from + 1, map, next, i);
    } else {
        if !collections::has_key(renamed, target) {
            assert(next[renamed.len() as int].0 == target);
        }
        lemma_groups_keep(groups, from + 1, map, next, target);
    }
}

/// No member drops out of the capture groups by a renaming: what each is
/// renamed to is a member.
pub proof fn renamed_members_stay_grouped(groups: Seq<(u64, u64)>, map: Map<u64, u64>, i: int)
    requires
        0 <= i < groups.len(),
    ensures
        collections::has_key(
            renamed_groups_from(groups, 0, map, Seq::empty()),
            resolved(map, groups[i].0),
        ),
{
    lemma_groups_cover(groups, 0, map, Seq::empty(), i);
}

/// The statements from position `from` on, renamed.
pub open spec fn renamed_block(
    statements: Seq<StatementView>,
    f: spec_fn(RcLocal) -> RcLocal,
) -> Seq<StatementView> {
    statements.map_values(|statement: StatementView| statement.renamed(f))
}

/// Arguments of an edge, renamed.
pub open spec fn renamed_arguments(
    arguments: Seq<(RcLocal, RValueView)>,
    f: spec_fn(RcLocal) -> RcLocal,
) -> Seq<(RcLocal, RValueView)> {
    arguments.map_values(
        |argument: (RcLocal, RValueView)| (f(argument.0), argument.1.renamed(f)),
    )
}

/// An edge, renamed.
pub open spec fn renamed_edge(edge: EdgeView, f: spec_fn(RcLocal) -> RcLocal) -> EdgeView {
    EdgeView { arguments: renamed_arguments(edge.arguments, f), ..edge }
}

fn rename_block<R: Renaming>(block: Block, renaming: &R) -> (renamed: Block)
    requires
        renaming.is_total(),
    ensures
        renamed@ == renamed_block(block@, |l: RcLocal| renaming.image(l)),
{
    let ghost f = |l: RcLocal| renaming.image(l);
    let ghost views = block@;
    let mut rest = block.0;
    let count: usize = rest.len();
    let mut renamed: Vec<Statement> = Vec::new();
    let mut index: usize = 0;
    while index < count
        invariant
            index <= count == views.len(),
            rest@.len() == count - index,
            Statement::views(rest@) =~= views.skip(index as int),
            renaming.is_total(),
            f == (|l: RcLocal| renaming.image(l)),
            renamed@.len() == index,
            forall|i: int|
                0 <= i < index ==> (#[trigger] Statement::views(renamed@)[i]) == views[i].renamed(
                    f,
                ),
        decreases count - index,
    {
        let ghost before = Statement::views(rest@);
        let statement = rest.remove(0);
        proof {
            assert(before[0] == views[index as int]);
            assert(Statement::views(rest@) =~= before.skip(1));
        }
        renamed.push(statement.renamed_by(renaming));
        index += 1;
    }
    let renamed = Block(renamed);
    proof {
        assert(renamed@ =~= renamed_block(views, f));
    }
    renamed
}

fn rename_arguments<R: Renaming>(arguments: &Vec<(RcLocal, RValue)>, renaming: &R) -> (renamed: Vec<
    (RcLocal, RValue),
>)
    requires
        renaming.is_total(),
    ensures
        BlockEdge::argument_views(renamed@) == renamed_arguments(
            BlockEdge::argument_views(arguments@),
            |l: RcLocal| renaming.image(l),
        ),
{
    let ghost f = |l: RcLocal| renaming.image(l);
    let ghost views = BlockEdge::argument_views(arguments@);
    let mut renamed: Vec<(RcLocal, RValue)> = Vec::new();
    let mut index: usize = 0;
    while index < arguments.len()
        invariant
            index <= arguments.len(),
            views == BlockEdge::argument_views(arguments@),
            renaming.is_total(),
            f == (|l: RcLocal| renaming.image(l)),
            renamed@.len() == index,
            forall|i: int|
                0 <= i < index ==> ((#[trigger] renamed@[i]).0, renamed@[i].1@) == (
                    f(views[i].0),
                    views[i].1.renamed(f),
                ),
        decreases arguments.len() - index,
    {
        let parameter = renaming.rename(arguments[index].0);
        let argument = arguments[index].1.clone().renamed_by(renaming);
        renamed.push((parameter, argument));
        index += 1;
    }
    proof {
        assert(BlockEdge::argument_views(renamed@) =~= renamed_arguments(views, f));
    }
    renamed
}

/// What is known of any of the locals of a set.
pub open spec fn gathered(known: Map<u64, LocalProvenanceView>, ids: Set<u64>) -> LocalProvenanceView {
    LocalProvenanceView {
        bindings: Set::new(
            |binding: BindingView|
                exists|id: u64|
                    ids.contains(id) && known.dom().contains(id) && (
                    #[trigger] known[id]).bindings.contains(binding),
        ),
        definitions: Set::new(
            |origin: OriginView|
                exists|id: u64|
                    ids.contains(id) && known.dom().contains(id) && (
                    #[trigger] known[id]).definitions.contains(origin),
        ),
        uses: Set::new(
            |origin: OriginView|
                exists|id: u64|
                    ids.contains(id) && known.dom().contains(id) && (
                    #[trigger] known[id]).uses.contains(origin),
        ),
    }
}

/// The locals that a map makes one with `target`, itself among them.
pub open spec fn group_of(map: Map<u64, u64>, target: u64) -> Set<u64> {
    Set::new(|id: u64| id == target || (map.dom().contains(id) && resolved(map, id) == target))
}

/// Whether a map leads to a local.
pub open spec fn is_target(map: Map<u64, u64>, target: u64) -> bool {
    exists|id: u64| #[trigger] map.dom().contains(id) && resolved(map, id) == target
}

/// What a target of a map stands for where nothing else is known.
pub open spec fn target_binding(cfg: CfgView, target: u64) -> BindingView {
    if cfg.bindings.dom().contains(target) {
        cfg.bindings[target]
    } else {
        cfg.binding_of(RcLocal { id: target })->0
    }
}

/// What is known of a target of a map once the locals it stands for are one.
pub open spec fn merged(cfg: CfgView, map: Map<u64, u64>, target: u64) -> LocalProvenanceView {
    let joined = gathered(cfg.provenance, group_of(map, target));
    if joined.bindings == Set::<BindingView>::empty() {
        LocalProvenanceView { bindings: set![target_binding(cfg, target)], ..joined }
    } else {
        joined
    }
}

/// A function with its locals renamed by a map.
pub open spec fn renamed_function(cfg: CfgView, map: Map<u64, u64>) -> CfgView {
    let f = |l: RcLocal| resolved_local(map, l);
    CfgView {
        parameters: cfg.parameters.map_values(f),
        blocks: Map::new(
            |node: u32| cfg.blocks.dom().contains(node),
            |node: u32| renamed_block(cfg.blocks[node], f),
        ),
        edges: cfg.edges.map_values(|edge: EdgeView| renamed_edge(edge, f)),
        provenance: Map::new(
            |id: u64| cfg.provenance.dom().contains(id) || is_target(map, id),
            |id: u64|
                if is_target(map, id) {
                    merged(cfg, map, id)
                } else {
                    cfg.provenance[id]
                },
        ),
        bindings: Map::new(
            |id: u64| cfg.bindings.dom().contains(id) || is_target(map, id),
            |id: u64|
                if is_target(map, id) {
                    target_binding(cfg, id)
                } else {
                    cfg.bindings[id]
                },
        ),
        ..cfg
    }
}

proof fn lemma_gathered(
    known: Map<u64, LocalProvenanceView>,
    sources: Seq<RcLocal>,
    from: int,
    ids: Set<u64>,
)
    requires
        0 <= from <= sources.len(),
        forall|id: u64| #[trigger]
            ids.contains(id) <==> exists|i: int|
                from <= i < sources.len() && (#[trigger] sources[i]).id == id,
    ensures
        LocalProvenanceView::joined_from(known, sources, from) == gathered(known, ids),
    decreases sources.len() - from,
{
    let joined = LocalProvenanceView::joined_from(known, sources, from);
    let whole = gathered(known, ids);
    if from < sources.len() {
        let here = sources[from].id;
        let fewer = Set::new(
            |id: u64|
                exists|i: int| from + 1 <= i < sources.len() && (#[trigger] sources[i]).id == id,
        );
        lemma_gathered(known, sources, from + 1, fewer);
        assert(sources[from].id == here);
        assert(ids.contains(here));
        assert forall|id: u64| ids.contains(id) == (id == here || fewer.contains(id)) by {
            if ids.contains(id) {
                let i = choose|i: int|
                    from <= i < sources.len() && (#[trigger] sources[i]).id == id;
                assert(i == from || fewer.contains(id));
            }
            if fewer.contains(id) {
                let i = choose|i: int|
                    from + 1 <= i < sources.len() && (#[trigger] sources[i]).id == id;
                assert(sources[i].id == id);
            }
        }
        let rest = gathered(known, fewer);
        assert forall|b: BindingView| joined.bindings.contains(b) == whole.bindings.contains(b) by {
            if rest.bindings.contains(b) {
                let id = choose|id: u64|
                    fewer.contains(id) && known.dom().contains(id) && (
                    #[trigger] known[id]).bindings.contains(b);
                assert(ids.contains(id) && known[id].bindings.contains(b));
            }
            if known.dom().contains(here) && known[here].bindings.contains(b) {
                assert(ids.contains(here));
            }
            if whole.bindings.contains(b) {
                let id = choose|id: u64|
                    ids.contains(id) && known.dom().contains(id) && (
                    #[trigger] known[id]).bindings.contains(b);
                if id != here {
                    assert(fewer.contains(id) && known[id].bindings.contains(b));
                }
            }
        }
        assert forall|o: OriginView| joined.definitions.contains(o)
            == whole.definitions.contains(o) by {
            if rest.definitions.contains(o) {
                let id = choose|id: u64|
                    fewer.contains(id) && known.dom().contains(id) && (
                    #[trigger] known[id]).definitions.contains(o);
                assert(ids.contains(id) && known[id].definitions.contains(o));
            }
            if known.dom().contains(here) && known[here].definitions.contains(o) {
                assert(ids.contains(here));
            }
            if whole.definitions.contains(o) {
                let id = choose|id: u64|
                    ids.contains(id) && known.dom().contains(id) && (
                    #[trigger] known[id]).definitions.contains(o);
                if id != here {
                    assert(fewer.contains(id) && known[id].definitions.contains(o));
                }
            }
        }
        assert forall|o: OriginView| joined.uses.contains(o) == whole.uses.contains(o) by {
            if rest.uses.contains(o) {
                let id = choose|id: u64|
                    fewer.contains(id) && known.dom().contains(id) && (
                    #[trigger] known[id]).uses.contains(o);
                assert(ids.contains(id) && known[id].uses.contains(o));
            }
            if known.dom().contains(here) && known[here].uses.contains(o) {
                assert(ids.contains(here));
            }
            if whole.uses.contains(o) {
                let id = choose|id: u64|
                    ids.contains(id) && known.dom().contains(id) && (
                    #[trigger] known[id]).uses.contains(o);
                if id != here {
                    assert(fewer.contains(id) && known[id].uses.contains(o));
                }
            }
        }
    } else {
        assert forall|id: u64| !ids.contains(id) by {
        }
    }
    assert(joined.bindings =~= whole.bindings);
    assert(joined.definitions =~= whole.definitions);
    assert(joined.uses =~= whole.uses);
}

/// A function once the locals that a map leads to `done` from are one with it.
spec fn partly_merged(cfg: CfgView, map: Map<u64, u64>, done: Set<u64>) -> CfgView {
    CfgView {
        provenance: Map::new(
            |id: u64| cfg.provenance.dom().contains(id) || done.contains(id),
            |id: u64|
                if done.contains(id) {
                    merged(cfg, map, id)
                } else {
                    cfg.provenance[id]
                },
        ),
        bindings: Map::new(
            |id: u64| cfg.bindings.dom().contains(id) || done.contains(id),
            |id: u64|
                if done.contains(id) {
                    target_binding(cfg, id)
                } else {
                    cfg.bindings[id]
                },
        ),
        ..cfg
    }
}

/// The locals that a map makes one with `target`.
fn collect_group(local_map: &FxHashMap<u64, u64>, keys: &Vec<u64>, target: u64) -> (group: Vec<
    RcLocal,
>)
    requires
        ends_everywhere(local_map@),
        keys@.to_set() == local_map@.dom(),
    ensures
        forall|id: u64| #[trigger]
            group_of(local_map@, target).contains(id) <==> exists|i: int|
                0 <= i < group@.len() && (#[trigger] group@[i]).id == id,
{
    let mut group: Vec<RcLocal> = Vec::new();
    group.push(RcLocal { id: target });
    let ghost map = local_map@;
    let mut index: usize = 0;
    while index < keys.len()
        invariant
            index <= keys.len(),
            map == local_map@,
            ends_everywhere(map),
            keys@.to_set() == map.dom(),
            group@.len() >= 1,
            group@[0].id == target,
            forall|i: int|
                1 <= i < group@.len() ==> map.dom().contains((#[trigger] group@[i]).id) && resolved(
                    map,
                    group@[i].id,
                ) == target,
            forall|k: int|
                0 <= k < index && resolved(map, #[trigger] keys@[k]) == target ==> exists|i: int|
                    0 <= i < group@.len() && (#[trigger] group@[i]).id == keys@[k],
        decreases keys.len() - index,
    {
        let key: u64 = keys[index];
        let end = resolve_local_map(local_map, RcLocal { id: key });
        let ghost before = group@;
        if end.id == target {
            group.push(RcLocal { id: key });
        }
        proof {
            assert(keys@.to_set().contains(keys@[index as int]));
            assert forall|k: int|
                0 <= k < index + 1 && resolved(map, #[trigger] keys@[k])
                    == target implies exists|i: int|
                0 <= i < group@.len() && (#[trigger] group@[i]).id == keys@[k] by {
                if k < index {
                    let i = choose|i: int|
                        0 <= i < before.len() && (#[trigger] before[i]).id == keys@[k];
                    assert(group@[i].id == keys@[k]);
                } else {
                    assert(group@[before.len() as int].id == key);
                }
            }
        }
        index += 1;
    }
    proof {
        assert forall|id: u64| #[trigger]
            group_of(map, target).contains(id) implies exists|i: int|
            0 <= i < group@.len() && (#[trigger] group@[i]).id == id by {
            if id == target {
                assert(group@[0].id == id);
            } else {
                assert(keys@.to_set().contains(id));
                let k = choose|k: int| 0 <= k < keys@.len() && keys@[k] == id;
                assert(resolved(map, keys@[k]) == target);
            }
        }
    }
    group
}

proof fn lemma_gathered_unchanged(
    cfg: CfgView,
    map: Map<u64, u64>,
    done: Set<u64>,
    target: u64,
)
    requires
        ends_everywhere(map),
        !done.contains(target),
        forall|id: u64| #[trigger] done.contains(id) ==> !map.dom().contains(id),
    ensures
        gathered(partly_merged(cfg, map, done).provenance, group_of(map, target)) == gathered(
            cfg.provenance,
            group_of(map, target),
        ),
{
    let now = partly_merged(cfg, map, done).provenance;
    let ids = group_of(map, target);
    assert forall|id: u64| ids.contains(id) implies now.dom().contains(id)
        == cfg.provenance.dom().contains(id) && (now.dom().contains(id) ==> now[id]
        == cfg.provenance[id]) by {
        assert(!done.contains(id));
    }
    let a = gathered(now, ids);
    let b = gathered(cfg.provenance, ids);
    assert(a.bindings =~= b.bindings) by {
        assert forall|x: BindingView| a.bindings.contains(x) == b.bindings.contains(x) by {
            if a.bindings.contains(x) {
                let id = choose|id: u64|
                    ids.contains(id) && now.dom().contains(id) && (
                    #[trigger] now[id]).bindings.contains(x);
                assert(cfg.provenance[id].bindings.contains(x));
            }
            if b.bindings.contains(x) {
                let id = choose|id: u64|
                    ids.contains(id) && cfg.provenance.dom().contains(id) && (
                    #[trigger] cfg.provenance[id]).bindings.contains(x);
                assert(now[id].bindings.contains(x));
            }
        }
    }
    assert(a.definitions =~= b.definitions) by {
        assert forall|x: OriginView| a.definitions.contains(x) == b.definitions.contains(x) by {
            if a.definitions.contains(x) {
                let id = choose|id: u64|
                    ids.contains(id) && now.dom().contains(id) && (
                    #[trigger] now[id]).definitions.contains(x);
                assert(cfg.provenance[id].definitions.contains(x));
            }
            if b.definitions.contains(x) {
                let id = choose|id: u64|
                    ids.contains(id) && cfg.provenance.dom().contains(id) && (
                    #[trigger] cfg.provenance[id]).definitions.contains(x);
                assert(now[id].definitions.contains(x));
            }
        }
    }
    assert(a.uses =~= b.uses) by {
        assert forall|x: OriginView| a.uses.contains(x) == b.uses.contains(x) by {
            if a.uses.contains(x) {
                let id = choose|id: u64|
                    ids.contains(id) && now.dom().contains(id) && (
                    #[trigger] now[id]).uses.contains(x);
                assert(cfg.provenance[id].uses.contains(x));
            }
            if b.uses.contains(x) {
                let id = choose|id: u64|
                    ids.contains(id) && cfg.provenance.dom().contains(id) && (
                    #[trigger] cfg.provenance[id]).uses.contains(x);
                assert(now[id].uses.contains(x));
            }
        }
    }
}

/// Makes every local that a map renames one with the local that it leads to,
/// as far as what is known of them goes.
fn merge_groups(function: &mut Function, local_map: &FxHashMap<u64, u64>)
    requires
        old(function).well_formed(),
        ends_everywhere(local_map@),
        forall|id: u64| #[trigger]
            local_map@.dom().contains(id) ==> old(function)@.binding_of(
                resolved_local(local_map@, RcLocal { id }),
            ) is Some,
    ensures
        final(function).well_formed(),
        final(function)@ == (CfgView {
            provenance: renamed_function(old(function)@, local_map@).provenance,
            bindings: renamed_function(old(function)@, local_map@).bindings,
            ..old(function)@
        }),
{
    let ghost cfg = function@;
    let ghost map = local_map@;
    let keys = entry_keys(local_map);
    let mut done = empty_set();
    let mut index: usize = 0;
    proof {
        assert(function@ =~= partly_merged(cfg, map, done@));
    }
    while index < keys.len()
        invariant
            index <= keys.len(),
            keys@.to_set() == map.dom(),
            function.well_formed(),
            map == local_map@,
            ends_everywhere(map),
            forall|id: u64| #[trigger]
                map.dom().contains(id) ==> cfg.binding_of(
                    resolved_local(map, RcLocal { id }),
                ) is Some,
            function@ == partly_merged(cfg, map, done@),
            forall|id: u64| #[trigger] done@.contains(id) ==> is_target(map, id),
            forall|k: int| 0 <= k < index ==> done@.contains(resolved(map, #[trigger] keys@[k])),
        decreases keys.len() - index,
    {
        let key: u64 = keys[index];
        let target = resolve_local_map(local_map, RcLocal { id: key });
        proof {
            assert(keys@.to_set().contains(keys@[index as int]));
            assert forall|id: u64| #[trigger] done@.contains(id) implies !map.dom().contains(
                id,
            ) by {
                let source = choose|source: u64| #[trigger]
                    map.dom().contains(source) && resolved(map, source) == id;
                resolving_ends(map, source);
            }
            assert(resolved_local(map, RcLocal { id: key }) == target);
            assert(is_target(map, target.id));
        }
        let ghost before = done@;
        if insert_member(&mut done, target.id) {
            let group = collect_group(local_map, &keys, target.id);
            let ghost now = function@;
            function.merge_local_provenance(target, &group);
            proof {
                lemma_gathered(now.provenance, group@, 0, group_of(map, target.id));
                lemma_gathered_unchanged(cfg, map, before, target.id);
                let next = partly_merged(cfg, map, done@);
                assert(function@.provenance =~= next.provenance);
                assert(function@.bindings =~= next.bindings);
            }
        } else {
            proof {
                assert(done@ =~= before);
            }
        }
        index += 1;
    }
    proof {
        assert forall|id: u64| done@.contains(id) == is_target(map, id) by {
            if is_target(map, id) {
                let source = choose|source: u64| #[trigger]
                    map.dom().contains(source) && resolved(map, source) == id;
                assert(keys@.to_set().contains(source));
                let k = choose|k: int| 0 <= k < keys@.len() && keys@[k] == source;
                assert(done@.contains(resolved(map, keys@[k])));
            }
        }
        let whole = renamed_function(cfg, map);
        assert(function@.provenance =~= whole.provenance);
        assert(function@.bindings =~= whole.bindings);
    }
}

fn rename_blocks<R: Renaming>(function: &mut Function, renaming: &R)
    requires
        old(function).well_formed(),
        renaming.is_total(),
    ensures
        final(function).well_formed(),
        final(function)@ == (CfgView {
            blocks: Map::new(
                |node: u32| old(function)@.blocks.dom().contains(node),
                |node: u32|
                    renamed_block(
                        old(function)@.blocks[node],
                        |l: RcLocal| renaming.image(l),
                    ),
            ),
            ..old(function)@
        }),
{
    let ghost f = |l: RcLocal| renaming.image(l);
    let ghost cfg = function@;
    let nodes = function.nodes();
    let mut index: usize = 0;
    while index < nodes.len()
        invariant
            index <= nodes.len(),
            f == (|l: RcLocal| renaming.image(l)),
            renaming.is_total(),
            function.well_formed(),
            nodes@.to_set() == cfg.blocks.dom(),
            forall|i: int, j: int| 0 <= i < j < nodes@.len() ==> nodes@[i] < nodes@[j],
            function@.blocks.dom() == cfg.blocks.dom(),
            function@ == (CfgView { blocks: function@.blocks, ..cfg }),
            forall|i: int|
                0 <= i < index ==> function@.blocks[#[trigger] nodes@[i]] == renamed_block(
                    cfg.blocks[nodes@[i]],
                    f,
                ),
            forall|i: int|
                index <= i < nodes@.len() ==> function@.blocks[#[trigger] nodes@[i]]
                    == cfg.blocks[nodes@[i]],
        decreases nodes.len() - index,
    {
        let node = nodes[index];
        let ghost before = function@;
        proof {
            assert(nodes@.to_set().contains(nodes@[index as int]));
        }
        let block = function.replace_block(node, Block::default());
        let renamed = rename_block(block, renaming);
        let ghost put = renamed@;
        let empty = function.replace_block(node, renamed);
        proof {
            assert(function@.blocks =~= before.blocks.insert(node, put));
        }
        index += 1;
    }
    proof {
        assert forall|node: u32| cfg.blocks.dom().contains(node) implies function@.blocks[node]
            == renamed_block(cfg.blocks[node], f) by {
            assert(nodes@.to_set().contains(node));
            let i = choose|i: int| 0 <= i < nodes@.len() && nodes@[i] == node;
            assert(function@.blocks[nodes@[i]] == renamed_block(cfg.blocks[nodes@[i]], f));
        }
        assert(function@.blocks =~= Map::new(
            |node: u32| cfg.blocks.dom().contains(node),
            |node: u32| renamed_block(cfg.blocks[node], f),
        ));
    }
}

/// The numbers of the edges of a function, each with its arguments renamed.
fn renamed_edges<R: Renaming>(function: &Function, renaming: &R) -> (edges: Vec<
    (u32, Vec<(RcLocal, RValue)>),
>)
    requires
        function.well_formed(),
        renaming.is_total(),
    ensures
        forall|k: int|
            0 <= k < edges@.len() ==> has_renamed(
                function@.edges,
                (#[trigger] edges@[k]).0,
                BlockEdge::argument_views(edges@[k].1@),
                |l: RcLocal| renaming.image(l),
            ),
        forall|i: int|
            0 <= i < function@.edges.len() ==> is_listed(
                (#[trigger] function@.edges[i]).id,
                edges@,
                0,
            ),
{
    let ghost f = |l: RcLocal| renaming.image(l);
    let references = function.edge_references();
    let ghost views = EdgeReference::views(references@);
    let mut edges: Vec<(u32, Vec<(RcLocal, RValue)>)> = Vec::new();
    proof {
        broadcast use vstd::seq_lib::group_to_multiset_ensures;

        assert(views.len() == references@.len());
    }
    let mut index: usize = 0;
    while index < references.len()
        invariant
            index <= references.len(),
            f == (|l: RcLocal| renaming.image(l)),
            renaming.is_total(),
            views == EdgeReference::views(references@),
            views.to_multiset() == function@.edges.to_multiset(),
            edges@.len() == index,
            forall|k: int|
                0 <= k < index ==> (#[trigger] edges@[k]).0 == references@[k].id && has_renamed(
                    function@.edges,
                    edges@[k].0,
                    BlockEdge::argument_views(edges@[k].1@),
                    f,
                ),
        decreases references.len() - index,
    {
        let id = references[index].id;
        let arguments = rename_arguments(&references[index].weight.arguments, renaming);
        proof {
            broadcast use vstd::seq_lib::group_to_multiset_ensures;

            let edge = views[index as int];
            assert(views.to_multiset().contains(edge));
            assert(function@.edges.contains(edge));
            let i = choose|i: int| 0 <= i < function@.edges.len() && function@.edges[i] == edge;
            assert(function@.edges[i].id == id);
        }
        edges.push((id, arguments));
        index += 1;
    }
    proof {
        assert forall|i: int| 0 <= i < function@.edges.len() implies is_listed(
            (#[trigger] function@.edges[i]).id,
            edges@,
            0,
        ) by {
            broadcast use vstd::seq_lib::group_to_multiset_ensures;

            let edge = function@.edges[i];
            assert(function@.edges.to_multiset().contains(edge));
            assert(views.contains(edge));
            let k = choose|k: int| 0 <= k < views.len() && views[k] == edge;
            assert(edges@[k].0 == edge.id);
        }
    }
    edges
}

/// Whether some edge has a number, and its arguments, renamed, are `arguments`.
spec fn has_renamed(
    edges: Seq<EdgeView>,
    id: u32,
    arguments: Seq<(RcLocal, RValueView)>,
    f: spec_fn(RcLocal) -> RcLocal,
) -> bool {
    exists|i: int|
        0 <= i < edges.len() && (#[trigger] edges[i]).id == id && arguments == renamed_arguments(
            edges[i].arguments,
            f,
        )
}

fn rename_edges<R: Renaming>(function: &mut Function, renaming: &R)
    requires
        old(function).well_formed(),
        renaming.is_total(),
    ensures
        final(function).well_formed(),
        final(function)@ == (CfgView {
            edges: old(function)@.edges.map_values(
                |edge: EdgeView| renamed_edge(edge, |l: RcLocal| renaming.image(l)),
            ),
            ..old(function)@
        }),
{
    let ghost f = |l: RcLocal| renaming.image(l);
    let ghost cfg = function@;
    let edges = renamed_edges(function, renaming);
    let ghost all = edges@;
    let mut rest = edges;
    proof {
        function.edges_join_blocks();
        assert(function@.edges =~= Seq::new(
            cfg.edges.len(),
            |i: int| renamed_from(cfg.edges[i], all, all.len() as int, f),
        ));
    }
    while rest.len() > 0
        invariant
            rest@.len() <= all.len(),
            rest@ == all.take(rest@.len() as int),
            function.well_formed(),
            forall|i: int, j: int|
                0 <= i < j < cfg.edges.len() ==> (#[trigger] cfg.edges[i]).id != (
                #[trigger] cfg.edges[j]).id,
            forall|k: int|
                0 <= k < all.len() ==> has_renamed(
                    cfg.edges,
                    (#[trigger] all[k]).0,
                    BlockEdge::argument_views(all[k].1@),
                    f,
                ),
            function@ == (CfgView {
                edges: Seq::new(
                    cfg.edges.len(),
                    |i: int| renamed_from(cfg.edges[i], all, rest@.len() as int, f),
                ),
                ..cfg
            }),
        decreases rest@.len(),
    {
        let ghost before = function@;
        let ghost last = rest@.len() - 1;
        match rest.pop() {
            Some((id, arguments)) => {
                let ghost put = BlockEdge::argument_views(arguments@);
                let ghost i = choose|i: int|
                    0 <= i < cfg.edges.len() && (#[trigger] cfg.edges[i]).id == all[last].0 && put
                        == renamed_arguments(cfg.edges[i].arguments, f);
                proof {
                    assert(all[last] == (id, arguments));
                    assert(has_renamed(cfg.edges, all[last].0, put, f));
                    assert(before.edges[i].id == id);
                }
                function.set_arguments(id, arguments);
                proof {
                    let next = Seq::new(
                        cfg.edges.len(),
                        |i: int| renamed_from(cfg.edges[i], all, rest@.len() as int, f),
                    );
                    assert(rest@ =~= all.take(last));
                    assert forall|j: int| 0 <= j < cfg.edges.len() implies function@.edges[j]
                        == next[j] by {
                        if j == i {
                            assert(all[last].0 == cfg.edges[j].id);
                            assert(is_listed(cfg.edges[j].id, all, last));
                        } else {
                            assert(cfg.edges[j].id != id);
                            assert(before.edges[j] == renamed_from(cfg.edges[j], all, last + 1, f));
                            if is_listed(cfg.edges[j].id, all, last) {
                                let k = choose|k: int|
                                    last <= k < all.len() && (#[trigger] all[k]).0 == cfg.edges[j].id;
                                assert(all[k].0 == cfg.edges[j].id);
                            } else if is_listed(cfg.edges[j].id, all, last + 1) {
                                let k = choose|k: int|
                                    last + 1 <= k < all.len() && (#[trigger] all[k]).0
                                        == cfg.edges[j].id;
                                assert(all[k].0 == cfg.edges[j].id);
                            }
                        }
                    }
                    assert(function@.edges =~= next);
                }
            },
            None => {},
        }
    }
    proof {
        let whole = cfg.edges.map_values(|edge: EdgeView| renamed_edge(edge, f));
        assert forall|i: int| 0 <= i < cfg.edges.len() implies function@.edges[i] == whole[i] by {
            assert(is_listed(cfg.edges[i].id, all, 0));
        }
        assert(function@.edges =~= whole);
    }
}

/// Whether a number is listed from position `from` on.
spec fn is_listed(id: u32, all: Seq<(u32, Vec<(RcLocal, RValue)>)>, from: int) -> bool {
    exists|k: int| from <= k < all.len() && (#[trigger] all[k]).0 == id
}

/// An edge, renamed where its number is listed from position `from` on.
spec fn renamed_from(
    edge: EdgeView,
    all: Seq<(u32, Vec<(RcLocal, RValue)>)>,
    from: int,
    f: spec_fn(RcLocal) -> RcLocal,
) -> EdgeView {
    if is_listed(edge.id, all, from) {
        renamed_edge(edge, f)
    } else {
        edge
    }
}

/// Whether two maps rename the same locals to the same ones.
pub open spec fn rename_alike(a: Map<u64, u64>, b: Map<u64, u64>) -> bool {
    &&& a.dom() == b.dom()
    &&& forall|id: u64| #[trigger] resolved(a, id) == resolved(b, id)
}

/// Maps that rename the same locals to the same ones make the same function.
pub proof fn lemma_rename_alike(cfg: CfgView, a: Map<u64, u64>, b: Map<u64, u64>)
    requires
        rename_alike(a, b),
    ensures
        renamed_function(cfg, a) == renamed_function(cfg, b),
{
    let one = renamed_function(cfg, a);
    let other = renamed_function(cfg, b);
    let f = |l: RcLocal| resolved_local(a, l);
    let g = |l: RcLocal| resolved_local(b, l);
    assert forall|l: RcLocal| #[trigger] f(l) == g(l) by {
        assert(resolved(a, l.id) == resolved(b, l.id));
    }
    assert(f =~= g);
    assert(one.parameters =~= other.parameters);
    assert(one.blocks =~= other.blocks);
    assert(one.edges =~= other.edges);
    assert forall|target: u64| #[trigger] is_target(a, target) == is_target(b, target)
        && group_of(a, target) == group_of(b, target) by {
        if is_target(a, target) {
            let id = choose|id: u64| #[trigger] a.dom().contains(id) && resolved(a, id) == target;
            assert(b.dom().contains(id) && resolved(b, id) == target);
        }
        if is_target(b, target) {
            let id = choose|id: u64| #[trigger] b.dom().contains(id) && resolved(b, id) == target;
            assert(a.dom().contains(id) && resolved(a, id) == target);
        }
        assert(group_of(a, target) =~= group_of(b, target));
    }
    assert forall|target: u64| #[trigger] merged(cfg, a, target) == merged(cfg, b, target) by {
        assert(is_target(a, target) == is_target(b, target));
    }
    assert(one.provenance =~= other.provenance);
    assert(one.bindings =~= other.bindings);
}

/// Renames every local of a function by a map, and makes what is known of the
/// locals that come to be one known of that one.
pub fn apply_local_map(function: &mut Function, local_map: &FxHashMap<u64, u64>)
    requires
        old(function).well_formed(),
        ends_everywhere(local_map@),
        forall|id: u64| #[trigger]
            local_map@.dom().contains(id) ==> old(function)@.binding_of(
                resolved_local(local_map@, RcLocal { id }),
            ) is Some,
    ensures
        final(function).well_formed(),
        final(function)@ == renamed_function(old(function)@, local_map@),
{
    let ghost cfg = function@;
    let renaming = LocalMap::new(local_map);
    proof {
        let f = |l: RcLocal| resolved_local(local_map@, l);
        assert(f =~= (|l: RcLocal| renaming.image(l)));
    }
    merge_groups(function, local_map);
    let mut parameters = crate::ast::copy::copy_locals(function.parameters());
    rename_locals(&mut parameters, &renaming);
    function.set_parameters(parameters);
    rename_blocks(function, &renaming);
    rename_edges(function, &renaming);
    proof {
        let whole = renamed_function(cfg, local_map@);
        assert(function@.parameters =~= whole.parameters);
        assert(function@.blocks =~= whole.blocks);
        assert(function@.edges =~= whole.edges);
    }
}

} // verus!
