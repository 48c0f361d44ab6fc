//! Grouping the values that closures hold by reference, and dropping copies.

use vstd::prelude::*;

use rustc_hash::{FxHashMap, FxHashSet};

use crate::ast::local::RcLocal;
use crate::ast::local_rw::LocalRw;
use crate::ast::nodes;
use crate::ast::nodes::{
    Block, Empty, LValue, LValueView, RValue, RValueView, Statement, StatementView,
};
use crate::cfg::function::{CfgView, Function};
use crate::cfg::graph::NodeId;
use crate::cfg::listing;
use crate::cfg::ssa::capture_flow::older;
use crate::cfg::ssa::inline::{put_statements, retain_statements, take_statements};
use crate::cfg::ssa::local_map;
use crate::cfg::ssa::local_map::resolve_local_map;
use crate::cfg::ssa::upvalues::{OpenSite, Openings, UpvaluesOpen};
use crate::collections::{empty_map, has_member, insert_entry};

verus! {

broadcast use nodes::group_views;

/// The values of a local that stand for one capture.
#[verifier::ext_equal]
pub struct GroupView {
    pub local: u64,
    pub site: OpenSite,
    pub members: Seq<u64>,
}

/// The values of a local that stand for one capture.
#[derive(Debug)]
pub struct CaptureGroup {
    pub local: u64,
    pub site: OpenSite,
    pub members: Vec<u64>,
}

impl CaptureGroup {
    pub open spec fn view(&self) -> GroupView {
        GroupView { local: self.local, site: self.site, members: self.members@ }
    }

    /// The models of a list of groups.
    pub open spec fn views(groups: Seq<CaptureGroup>) -> Seq<GroupView> {
        Seq::new(groups.len(), |i: int| groups[i]@)
    }
}

/// A list with a member, once.
pub open spec fn with_one(members: Seq<u64>, member: u64) -> Seq<u64> {
    if members.contains(member) {
        members
    } else {
        members.push(member)
    }
}

/// Groups with a value in the one from position `from` on that it belongs to,
/// or in one of its own.
pub open spec fn with_value(
    groups: Seq<GroupView>,
    from: int,
    local: u64,
    site: OpenSite,
    value: u64,
) -> Seq<GroupView>
    decreases groups.len() - from,
{
    if 0 <= from < groups.len() {
        if groups[from].local == local && groups[from].site == site {
            groups.update(
                from,
                GroupView { members: with_one(groups[from].members, value), ..groups[from] },
            )
        } else {
            with_value(groups, from + 1, local, site, value)
        }
    } else {
        groups.push(GroupView { local, site, members: seq![value] })
    }
}

/// What grouping goes by: the older locals, the locals that come from around
/// the function, and where locals are open.
pub struct Grouping {
    pub old: Map<u64, u64>,
    pub upvalues: Set<u64>,
    pub open: Openings,
}

impl Grouping {
    /// Groups with the values that a statement has, from position `k` on.
    pub open spec fn statement_from(
        self,
        groups: Seq<GroupView>,
        values: Seq<RcLocal>,
        k: int,
        node: u32,
        t: int,
    ) -> Seq<GroupView>
        decreases values.len() - k,
    {
        if 0 <= k < values.len() {
            let local = self.old[values[k].id];
            let next = match self.open.location(node, local, t) {
                Some(site) => if self.upvalues.contains(local) {
                    groups
                } else {
                    with_value(groups, 0, local, site, values[k].id)
                },
                None => groups,
            };
            self.statement_from(next, values, k + 1, node, t)
        } else {
            groups
        }
    }

    /// Groups with the values of a block, from statement `t` on.
    pub open spec fn block_from(
        self,
        groups: Seq<GroupView>,
        block: Seq<StatementView>,
        t: int,
        node: u32,
    ) -> Seq<GroupView>
        decreases block.len() - t,
    {
        if 0 <= t < block.len() {
            self.block_from(
                self.statement_from(groups, block[t].locals(), 0, node, t),
                block,
                t + 1,
                node,
            )
        } else {
            groups
        }
    }

    /// Groups with the values of the blocks from position `from` on.
    pub open spec fn groups_from(
        self,
        groups: Seq<GroupView>,
        cfg: CfgView,
        walk: Seq<u32>,
        from: int,
    ) -> Seq<GroupView>
        decreases walk.len() - from,
    {
        if 0 <= from < walk.len() {
            self.groups_from(
                self.block_from(groups, cfg.blocks[walk[from]], 0, walk[from]),
                cfg,
                walk,
                from + 1,
            )
        } else {
            groups
        }
    }
}

/// The statements from position `from` on that end no captures.
pub open spec fn unclosed_from(block: Seq<StatementView>, from: int) -> Seq<StatementView>
    decreases block.len() - from,
{
    if 0 <= from < block.len() {
        let rest = unclosed_from(block, from + 1);
        if block[from] is Close {
            rest
        } else {
            seq![block[from]] + rest
        }
    } else {
        Seq::empty()
    }
}

/// The locals of groups.
pub open spec fn grouped_locals(groups: Seq<GroupView>) -> Set<u64> {
    Set::new(
        |local: u64| exists|i: int| 0 <= i < groups.len() && (#[trigger] groups[i]).local == local,
    )
}

/// The target and the source of an assignment of a local to a local.
pub open spec fn copy_parts(statement: StatementView) -> Option<(u64, u64)> {
    match statement {
        StatementView::Assign(assign) => if assign.left.len() == 1 && assign.right.len() == 1 {
            match (assign.left[0], assign.right[0]) {
                (LValueView::Local(from), RValueView::Local(source)) => Some((from.id, source.id)),
                _ => None,
            }
        } else {
            None
        },
        _ => None,
    }
}

/// The target of a copy that can go, and the local that it comes to stand for:
/// neither is held by reference.
pub open spec fn copied(
    statement: StatementView,
    map: Map<u64, u64>,
    old: Map<u64, u64>,
    held: Set<u64>,
) -> Option<(u64, u64)> {
    match copy_parts(statement) {
        Some((from, source)) => {
            let to = local_map::resolved(map, source);
            if held.contains(old[from]) || held.contains(old[to]) {
                None
            } else {
                Some((from, to))
            }
        },
        None => None,
    }
}

/// A block without the copies that can go from statement `t` on, and what their
/// targets come to stand for.
pub open spec fn uncopied_from(
    block: Seq<StatementView>,
    t: int,
    map: Map<u64, u64>,
    old: Map<u64, u64>,
    held: Set<u64>,
) -> (Seq<StatementView>, Map<u64, u64>)
    decreases block.len() - t,
{
    if 0 <= t < block.len() {
        match copied(block[t], map, old, held) {
            Some((from, to)) => uncopied_from(
                block.update(t, StatementView::Empty),
                t + 1,
                map.insert(from, to),
                old,
                held,
            ),
            None => uncopied_from(block, t + 1, map, old, held),
        }
    } else {
        (block, map)
    }
}

/// The statements from position `from` on that are not empty.
pub open spec fn filled_from(block: Seq<StatementView>, from: int) -> Seq<StatementView> {
    crate::cfg::ssa::inline::retained_from(block, from)
}

/// Blocks without the copies that can go, from position `from` on, and what
/// their targets come to stand for.
pub open spec fn blocks_uncopied(
    blocks: Map<u32, Seq<StatementView>>,
    nodes: Seq<u32>,
    from: int,
    map: Map<u64, u64>,
    old: Map<u64, u64>,
    held: Set<u64>,
) -> (Map<u32, Seq<StatementView>>, Map<u64, u64>)
    decreases nodes.len() - from,
{
    if 0 <= from < nodes.len() {
        let (block, more) = uncopied_from(blocks[nodes[from]], 0, map, old, held);
        blocks_uncopied(
            blocks.insert(nodes[from], filled_from(block, 0)),
            nodes,
            from + 1,
            more,
            old,
            held,
        )
    } else {
        (blocks, map)
    }
}

/// Blocks without the statements that end captures.
pub open spec fn blocks_unclosed(blocks: Map<u32, Seq<StatementView>>) -> Map<
    u32,
    Seq<StatementView>,
> {
    Map::new(
        |node: u32| blocks.dom().contains(node),
        |node: u32| unclosed_from(blocks[node], 0),
    )
}

/// A group with its values renamed.
pub open spec fn renamed_group(group: GroupView, map: Map<u64, u64>) -> GroupView {
    GroupView {
        members: group.members.map_values(|id: u64| local_map::resolved(map, id)),
        ..group
    }
}

/// What copies go by: the older locals, how late a local is defined, and the
/// locals that statements define.
pub struct CopyOrder {
    pub old: Map<u64, u64>,
    pub rank: spec_fn(u64) -> int,
    pub defined: Set<u64>,
}

impl CopyOrder {
    /// Whether every local of a statement has an older one, and a copy defines
    /// its target from a local that was defined before.
    pub open spec fn allows(self, statement: StatementView) -> bool {
        &&& forall|k: int|
            0 <= k < statement.locals().len() ==> self.old.dom().contains(
                (#[trigger] statement.locals()[k]).id,
            )
        &&& match copy_parts(statement) {
            Some((from, source)) => self.defined.contains(from) && self.old.dom().contains(from)
                && self.old.dom().contains(source) && 0 <= (self.rank)(source) < (self.rank)(from),
            None => true,
        }
    }

    /// Whether the order allows every statement of a block from position `t` on.
    pub open spec fn allows_from(self, block: Seq<StatementView>, t: int) -> bool {
        forall|i: int| t <= i < block.len() ==> self.allows(#[trigger] block[i])
    }

    /// Whether a map leads from locals that statements define to ones that were
    /// defined before.
    pub open spec fn leads_back(self, map: Map<u64, u64>) -> bool {
        forall|id: u64| #[trigger]
            map.dom().contains(id) ==> self.defined.contains(id) && self.old.dom().contains(id)
                && self.old.dom().contains(map[id]) && 0 <= (self.rank)(map[id]) < (self.rank)(id)
    }

    /// What a map leads to in the end was not defined later, and has an older
    /// local.
    pub proof fn lemma_leads_back(self, map: Map<u64, u64>, id: u64)
        requires
            self.leads_back(map),
            self.old.dom().contains(id),
            0 <= (self.rank)(id),
        ensures
            local_map::ends_everywhere(map),
            self.old.dom().contains(local_map::resolved(map, id)),
            0 <= (self.rank)(local_map::resolved(map, id)) <= (self.rank)(id),
    {
        let rank = self.rank;
        assert forall|id: u64| #[trigger] map.dom().contains(id) implies 0 <= rank(map[id]) < rank(
            id,
        ) by {}
        local_map::lemma_descending_map(map, rank);
        let top = rank(id);
        let kept = |x: u64| self.old.dom().contains(x) && 0 <= rank(x) <= top;
        local_map::lemma_resolved_keeps(map, kept, id);
    }
}

proof fn lemma_member_kept(block: Seq<StatementView>, from: int)
    requires
        0 <= from,
    ensures
        forall|i: int|
            0 <= i < unclosed_from(block, from).len() ==> block.contains(
                #[trigger] unclosed_from(block, from)[i],
            ),
    decreases block.len() - from,
{
    if from < block.len() {
        lemma_member_kept(block, from + 1);
        let rest = unclosed_from(block, from + 1);
        let all = unclosed_from(block, from);
        assert forall|i: int| 0 <= i < all.len() implies block.contains(#[trigger] all[i]) by {
            if block[from] is Close {
                assert(all[i] == rest[i]);
            } else if i > 0 {
                assert(all[i] == rest[i - 1]);
            } else {
                assert(all[0] == block[from]);
            }
        }
    }
}

/// What an order allows, it allows without the ends of captures.
pub proof fn lemma_unclosed_allowed(order: CopyOrder, block: Seq<StatementView>)
    requires
        order.allows_from(block, 0),
    ensures
        order.allows_from(unclosed_from(block, 0), 0),
{
    lemma_member_kept(block, 0);
    let less = unclosed_from(block, 0);
    assert forall|t: int| 0 <= t < less.len() implies order.allows(#[trigger] less[t]) by {
        assert(block.contains(less[t]));
        let i = choose|i: int| 0 <= i < block.len() && block[i] == less[t];
        assert(order.allows(block[i]));
    }
}

fn has_value(members: &Vec<u64>, member: u64) -> (result: bool)
    ensures
        result == members@.contains(member),
{
    let mut at: usize = 0;
    while at < members.len()
        invariant
            at <= members@.len(),
            forall|i: int| 0 <= i < at ==> members@[i] != member,
        decreases members.len() - at,
    {
        if members[at] == member {
            assert(members@[at as int] == member);
            return true;
        }
        at += 1;
    }
    false
}

fn add_value(groups: &mut Vec<CaptureGroup>, local: u64, site: OpenSite, value: u64)
    ensures
        CaptureGroup::views(final(groups)@) == with_value(
            CaptureGroup::views(old(groups)@),
            0,
            local,
            site,
            value,
        ),
{
    let ghost views = CaptureGroup::views(groups@);
    let ghost whole = with_value(views, 0, local, site, value);
    let mut at: usize = 0;
    while at < groups.len()
        invariant
            at <= groups@.len() == views.len(),
            views == CaptureGroup::views(groups@),
            *groups == *old(groups),
            whole == with_value(CaptureGroup::views(old(groups)@), 0, local, site, value),
            whole == with_value(views, at as int, local, site, value),
        decreases groups.len() - at,
    {
        proof {
            assert(views[at as int] == groups@[at as int]@);
        }
        if groups[at].local == local && groups[at].site.0 == site.0 && groups[at].site.1
            == site.1 {
            let mut group = groups.remove(at);
            let ghost members = group.members@;
            if !has_value(&group.members, value) {
                group.members.push(value);
            }
            let ghost put = group@;
            groups.insert(at, group);
            proof {
                assert(put == (GroupView {
                    members: with_one(members, value),
                    ..views[at as int]
                }));
                assert(CaptureGroup::views(groups@) =~= views.update(at as int, put));
            }
            return;
        }
        at += 1;
    }
    let mut members: Vec<u64> = Vec::new();
    members.push(value);
    let group = CaptureGroup { local, site, members };
    let ghost put = group@;
    groups.push(group);
    proof {
        assert(put.members =~= seq![value]);
        assert(CaptureGroup::views(groups@) =~= views.push(put));
    }
}

/// Groups the values that closures hold by reference, by what they were
/// captured for.
pub(crate) fn group_values(
    function: &Function,
    walk: &Vec<NodeId>,
    old_locals: &FxHashMap<u64, u64>,
    upvalues: &FxHashSet<u64>,
    open: &UpvaluesOpen,
    Ghost(grouping): Ghost<Grouping>,
) -> (groups: Vec<CaptureGroup>)
    requires
        function.well_formed(),
        walk@.to_set() == function@.blocks.dom(),
        grouping.old == old_locals@,
        grouping.upvalues == upvalues@,
        forall|node: u32, local: u64, statement: int|
            0 <= statement ==> #[trigger] open.location(node, local, statement)
                == grouping.open.location(node, local, statement),
        forall|node: u32, t: int, k: int|
            function@.blocks.dom().contains(node) && 0 <= t < function@.blocks[node].len() && 0
                <= k < function@.blocks[node][t].locals().len() ==> old_locals@.dom().contains(
                (#[trigger] function@.blocks[node][t].locals()[k]).id,
            ),
    ensures
        CaptureGroup::views(groups@) == grouping.groups_from(Seq::empty(), function@, walk@, 0),
{
    let ghost cfg = function@;
    let mut groups: Vec<CaptureGroup> = Vec::new();
    let ghost whole = grouping.groups_from(Seq::empty(), cfg, walk@, 0);
    proof {
        assert(CaptureGroup::views(groups@) =~= Seq::empty());
    }
    let mut at: usize = 0;
    while at < walk.len()
        invariant
            at <= walk@.len(),
            function.well_formed(),
            cfg == function@,
            walk@.to_set() == cfg.blocks.dom(),
            grouping.old == old_locals@,
            grouping.upvalues == upvalues@,
            forall|node: u32, local: u64, statement: int|
                0 <= statement ==> #[trigger] open.location(node, local, statement)
                    == grouping.open.location(node, local, statement),
            forall|node: u32, t: int, k: int|
                cfg.blocks.dom().contains(node) && 0 <= t < cfg.blocks[node].len() && 0 <= k
                    < cfg.blocks[node][t].locals().len() ==> old_locals@.dom().contains(
                    (#[trigger] cfg.blocks[node][t].locals()[k]).id,
                ),
            whole == grouping.groups_from(
                CaptureGroup::views(groups@),
                cfg,
                walk@,
                at as int,
            ),
        decreases walk.len() - at,
    {
        let node = walk[at];
        proof {
            assert(walk@.to_set().contains(node));
        }
        match function.block(node) {
            Some(block) => {
                group_block(&mut groups, block, node, old_locals, upvalues, open, Ghost(grouping));
            },
            None => {},
        }
        at += 1;
    }
    groups
}

fn group_block(
    groups: &mut Vec<CaptureGroup>,
    block: &Block,
    node: NodeId,
    old_locals: &FxHashMap<u64, u64>,
    upvalues: &FxHashSet<u64>,
    open: &UpvaluesOpen,
    Ghost(grouping): Ghost<Grouping>,
)
    requires
        grouping.old == old_locals@,
        grouping.upvalues == upvalues@,
        forall|node: u32, local: u64, statement: int|
            0 <= statement ==> #[trigger] open.location(node, local, statement)
                == grouping.open.location(node, local, statement),
        forall|t: int, k: int|
            0 <= t < block@.len() && 0 <= k < block@[t].locals().len()
                ==> old_locals@.dom().contains((#[trigger] block@[t].locals()[k]).id),
    ensures
        CaptureGroup::views(final(groups)@) == grouping.block_from(
            CaptureGroup::views(old(groups)@),
            block@,
            0,
            node,
        ),
{
    let ghost whole = grouping.block_from(CaptureGroup::views(groups@), block@, 0, node);
    let mut t: usize = 0;
    while t < block.0.len()
        invariant
            t <= block.0@.len() == block@.len(),
            grouping.old == old_locals@,
            grouping.upvalues == upvalues@,
            forall|node: u32, local: u64, statement: int|
                0 <= statement ==> #[trigger] open.location(node, local, statement)
                    == grouping.open.location(node, local, statement),
            forall|t: int, k: int|
                0 <= t < block@.len() && 0 <= k < block@[t].locals().len()
                    ==> old_locals@.dom().contains((#[trigger] block@[t].locals()[k]).id),
            whole == grouping.block_from(
                CaptureGroup::views(groups@),
                block@,
                t as int,
                node,
            ),
        decreases block.0.len() - t,
    {
        let values = block.0[t].values();
        proof {
            assert(block@[t as int] == block.0@[t as int]@);
            assert(values@ =~= block@[t as int].locals());
        }
        let ghost part = grouping.statement_from(
            CaptureGroup::views(groups@),
            values@,
            0,
            node,
            t as int,
        );
        let mut k: usize = 0;
        while k < values.len()
            invariant
                k <= values@.len(),
                grouping.old == old_locals@,
                grouping.upvalues == upvalues@,
                forall|node: u32, local: u64, statement: int|
                    0 <= statement ==> #[trigger] open.location(node, local, statement)
                        == grouping.open.location(node, local, statement),
                forall|k: int|
                    0 <= k < values@.len() ==> old_locals@.dom().contains(
                        (#[trigger] values@[k]).id,
                    ),
                part == grouping.statement_from(
                    CaptureGroup::views(groups@),
                    values@,
                    k as int,
                    node,
                    t as int,
                ),
            decreases values.len() - k,
        {
            let local: u64 = older(old_locals, values[k]);
            match open.opening_location(node, RcLocal { id: local }, t) {
                Some(site) => {
                    if !has_member(upvalues, local) {
                        add_value(groups, local, site, values[k].id);
                    }
                },
                None => {},
            }
            k += 1;
        }
        t += 1;
    }
}

/// Takes the statements that end captures out of a list.
fn drop_closes(block: Vec<Statement>) -> (kept: Vec<Statement>)
    ensures
        Statement::views(kept@) == unclosed_from(Statement::views(block@), 0),
{
    let ghost views = Statement::views(block@);
    let ghost whole = unclosed_from(views, 0);
    let count: usize = block.len();
    let mut rest = block;
    let mut kept: Vec<Statement> = Vec::new();
    let mut at: usize = 0;
    proof {
        assert(Statement::views(kept@) + whole =~= whole);
    }
    while at < count
        invariant
            at <= count == views.len(),
            rest@.len() == count - at,
            Statement::views(rest@) =~= views.skip(at as int),
            whole == Statement::views(kept@) + unclosed_from(views, at as int),
        decreases count - at,
    {
        let ghost before = Statement::views(rest@);
        let ghost held = Statement::views(kept@);
        let statement = rest.remove(0);
        proof {
            assert(before[0] == statement@);
            assert(views[at as int] == statement@);
            assert(Statement::views(rest@) =~= before.skip(1));
            assert(views.skip(at as int).skip(1) =~= views.skip(at + 1));
            nodes::statement_node(statement);
        }
        match statement {
            Statement::Close(_) => {},
            _ => {
                kept.push(statement);
                proof {
                    assert(held.push(views[at as int]) + unclosed_from(views, at + 1) =~= held + (
                    seq![views[at as int]] + unclosed_from(views, at + 1)));
                }
            },
        }
        at += 1;
    }
    proof {
        assert(Statement::views(kept@) + Seq::<StatementView>::empty() =~= Statement::views(kept@));
    }
    kept
}

/// Takes the statements that end captures out of a function.
pub(crate) fn remove_closes(function: &mut Function)
    requires
        old(function).well_formed(),
    ensures
        final(function).well_formed(),
        final(function)@ == (CfgView {
            blocks: blocks_unclosed(old(function)@.blocks),
            ..old(function)@
        }),
{
    let ghost cfg = function@;
    let nodes = function.nodes();
    let mut at: usize = 0;
    while at < nodes.len()
        invariant
            at <= nodes@.len(),
            function.well_formed(),
            nodes@.to_set() == cfg.blocks.dom(),
            forall|i: int, j: int| 0 <= i < j < nodes@.len() ==> nodes@[i] < nodes@[j],
            function@ == (CfgView { blocks: function@.blocks, ..cfg }),
            function@.blocks.dom() == cfg.blocks.dom(),
            forall|i: int|
                0 <= i < at ==> function@.blocks[#[trigger] nodes@[i]] == unclosed_from(
                    cfg.blocks[nodes@[i]],
                    0,
                ),
            forall|i: int|
                at <= i < nodes@.len() ==> function@.blocks[#[trigger] nodes@[i]]
                    == cfg.blocks[nodes@[i]],
        decreases nodes.len() - at,
    {
        let node = nodes[at];
        proof {
            assert(nodes@.to_set().contains(node));
        }
        let statements = take_statements(function, node);
        let statements = drop_closes(statements);
        put_statements(function, node, statements);
        proof {
            assert(function@.blocks.dom() =~= cfg.blocks.dom());
        }
        at += 1;
    }
    proof {
        assert forall|node: u32| cfg.blocks.dom().contains(node) implies function@.blocks[node]
            == blocks_unclosed(cfg.blocks)[node] by {
            assert(nodes@.to_set().contains(node));
            let i = choose|i: int| 0 <= i < nodes@.len() && nodes@[i] == node;
            assert(nodes@[i] == node);
        }
        assert(function@.blocks =~= blocks_unclosed(cfg.blocks));
    }
}

fn find_copy(statement: &Statement) -> (parts: Option<(RcLocal, RcLocal)>)
    ensures
        match parts {
            Some(pair) => copy_parts(statement@) == Some((pair.0.id, pair.1.id)),
            None => copy_parts(statement@) is None,
        },
{
    proof {
        nodes::statement_node(*statement);
    }
    match statement {
        Statement::Assign(assign) => {
            proof {
                nodes::assign_node(*assign);
            }
            if assign.left.len() == 1 && assign.right.len() == 1 {
                proof {
                    nodes::lvalue_node(assign.left@[0]);
                    nodes::rvalue_node(assign.right@[0]);
                    assert(LValue::views(assign.left@)[0] == assign.left@[0]@);
                    assert(RValue::views(assign.right@)[0] == assign.right@[0]@);
                }
                match (&assign.left[0], &assign.right[0]) {
                    (LValue::Local(from), RValue::Local(source)) => Some((*from, *source)),
                    _ => None,
                }
            } else {
                None
            }
        },
        _ => None,
    }
}

/// Drops the copies of a list of statements that can go.
fn drop_copies(
    block: Vec<Statement>,
    map: &mut FxHashMap<u64, u64>,
    old_locals: &FxHashMap<u64, u64>,
    held: &FxHashSet<u64>,
    Ghost(order): Ghost<CopyOrder>,
) -> (left: Vec<Statement>)
    requires
        order.old == old_locals@,
        order.allows_from(Statement::views(block@), 0),
        order.leads_back(old(map)@),
    ensures
        (Statement::views(left@), final(map)@) == uncopied_from(
            Statement::views(block@),
            0,
            old(map)@,
            old_locals@,
            held@,
        ),
        order.leads_back(final(map)@),
{
    let ghost views = Statement::views(block@);
    let ghost whole = uncopied_from(views, 0, map@, old_locals@, held@);
    let mut left = block;
    let count: usize = left.len();
    let mut t: usize = 0;
    while t < count
        invariant
            t <= count == left@.len(),
            order.old == old_locals@,
            order.allows_from(Statement::views(left@), t as int),
            order.leads_back(map@),
            whole == uncopied_from(
                Statement::views(left@),
                t as int,
                map@,
                old_locals@,
                held@,
            ),
        decreases count - t,
    {
        let ghost views = Statement::views(left@);
        let ghost before = map@;
        proof {
            assert(views[t as int] == left@[t as int]@);
            assert(order.allows(views[t as int]));
        }
        match find_copy(&left[t]) {
            Some((from, source)) => {
                proof {
                    order.lemma_leads_back(map@, source.id);
                }
                let to = resolve_local_map(map, source);
                if !has_member(held, older(old_locals, from)) && !has_member(
                    held,
                    older(old_locals, to),
                ) {
                    insert_entry(map, from.id, to.id);
                    let empty = Statement::Empty(Empty {});
                    proof {
                        nodes::statement_node(empty);
                    }
                    left.set(t, empty);
                    proof {
                        assert(Statement::views(left@) =~= views.update(
                            t as int,
                            StatementView::Empty,
                        ));
                    }
                }
            },
            None => {},
        }
        proof {
            assert forall|i: int| t + 1 <= i < Statement::views(left@).len() implies order.allows(
                #[trigger] Statement::views(left@)[i],
            ) by {
                assert(Statement::views(left@)[i] == views[i]);
            }
        }
        t += 1;
    }
    left
}

/// Drops the copies of a function that can go, and gives what their targets
/// come to stand for.
pub(crate) fn propagate_copies(
    function: &mut Function,
    old_locals: &FxHashMap<u64, u64>,
    held: &FxHashSet<u64>,
    Ghost(order): Ghost<CopyOrder>,
) -> (map: FxHashMap<u64, u64>)
    requires
        old(function).well_formed(),
        order.old == old_locals@,
        forall|node: u32|
            old(function)@.blocks.dom().contains(node) ==> order.allows_from(
                #[trigger] old(function)@.blocks[node],
                0,
            ),
    ensures
        final(function).well_formed(),
        final(function)@ == (CfgView { blocks: final(function)@.blocks, ..old(function)@ }),
        (final(function)@.blocks, map@) == blocks_uncopied(
            old(function)@.blocks,
            listing::listing(old(function)@.blocks.dom()),
            0,
            Map::empty(),
            old_locals@,
            held@,
        ),
        final(function)@.blocks.dom() == old(function)@.blocks.dom(),
        order.leads_back(map@),
{
    let ghost cfg = function@;
    let nodes = function.nodes();
    let mut map: FxHashMap<u64, u64> = empty_map();
    let ghost whole = blocks_uncopied(cfg.blocks, nodes@, 0, Map::empty(), old_locals@, held@);
    proof {
        assert(map@ =~= Map::empty());
        assert(listing::is_listing(nodes@, cfg.blocks.dom()));
        listing::lemma_one_listing(nodes@, listing::listing(cfg.blocks.dom()), cfg.blocks.dom());
    }
    let mut at: usize = 0;
    while at < nodes.len()
        invariant
            at <= nodes@.len(),
            function.well_formed(),
            nodes@.to_set() == cfg.blocks.dom(),
            forall|i: int, j: int| 0 <= i < j < nodes@.len() ==> nodes@[i] < nodes@[j],
            function@ == (CfgView { blocks: function@.blocks, ..cfg }),
            function@.blocks.dom() == cfg.blocks.dom(),
            order.old == old_locals@,
            order.leads_back(map@),
            forall|i: int|
                at <= i < nodes@.len() ==> order.allows_from(
                    #[trigger] function@.blocks[nodes@[i]],
                    0,
                ),
            whole == blocks_uncopied(
                function@.blocks,
                nodes@,
                at as int,
                map@,
                old_locals@,
                held@,
            ),
        decreases nodes.len() - at,
    {
        let node = nodes[at];
        let ghost before = function@.blocks;
        proof {
            assert(nodes@.to_set().contains(node));
            assert(order.allows_from(function@.blocks[nodes@[at as int]], 0));
        }
        let statements = take_statements(function, node);
        let statements = drop_copies(statements, &mut map, old_locals, held, Ghost(order));
        let statements = retain_statements(statements);
        let ghost block = Statement::views(statements@);
        put_statements(function, node, statements);
        proof {
            assert(function@.blocks =~= before.insert(node, block));
            assert(function@.blocks.dom() =~= cfg.blocks.dom());
            assert forall|i: int| at + 1 <= i < nodes@.len() implies order.allows_from(
                #[trigger] function@.blocks[nodes@[i]],
                0,
            ) by {
                assert(nodes@[at as int] < nodes@[i]);
                assert(order.allows_from(before[nodes@[i]], 0));
            }
        }
        at += 1;
    }
    proof {
        assert(whole == (function@.blocks, map@));
    }
    map
}

/// Renames the values of groups.
pub(crate) fn rename_groups(groups: Vec<CaptureGroup>, map: &FxHashMap<u64, u64>) -> (renamed:
    Vec<CaptureGroup>)
    requires
        local_map::ends_everywhere(map@),
    ensures
        CaptureGroup::views(renamed@) == CaptureGroup::views(groups@).map_values(
            |group: GroupView| renamed_group(group, map@),
        ),
{
    let mut renamed: Vec<CaptureGroup> = Vec::new();
    let mut at: usize = 0;
    while at < groups.len()
        invariant
            at <= groups@.len(),
            renamed@.len() == at,
            local_map::ends_everywhere(map@),
            forall|i: int|
                0 <= i < at ==> (#[trigger] renamed@[i])@ == renamed_group(groups@[i]@, map@),
        decreases groups.len() - at,
    {
        let mut members: Vec<u64> = Vec::new();
        let mut k: usize = 0;
        while k < groups[at].members.len()
            invariant
                at < groups@.len(),
                k <= groups@[at as int].members@.len(),
                members@.len() == k,
                local_map::ends_everywhere(map@),
                forall|i: int|
                    0 <= i < k ==> #[trigger] members@[i] == local_map::resolved(
                        map@,
                        groups@[at as int].members@[i],
                    ),
            decreases groups@[at as int].members@.len() - k,
        {
            let target = resolve_local_map(map, RcLocal { id: groups[at].members[k] });
            members.push(target.id);
            k += 1;
        }
        let group = CaptureGroup { local: groups[at].local, site: groups[at].site, members };
        proof {
            let view = groups@[at as int]@;
            assert(group@.members =~= renamed_group(view, map@).members);
        }
        renamed.push(group);
        at += 1;
    }
    proof {
        assert(CaptureGroup::views(renamed@) =~= CaptureGroup::views(groups@).map_values(
            |group: GroupView| renamed_group(group, map@),
        ));
    }
    renamed
}

} // verus!
