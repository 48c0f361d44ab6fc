//! What is known of the locals that definitions are given.

use vstd::prelude::*;

use crate::ast::local::RcLocal;
use crate::ast::nodes::RValueView;
use crate::cfg::block::EdgeView;
use crate::cfg::function::CfgView;
use crate::cfg::provenance::{BindingView, LocalProvenanceView, OriginView};
use crate::cfg::ssa::numbering;
use crate::cfg::ssa::numbering::{Frame, Numbering, Origin};

verus! {

/// Whether two locals, where they are known, stand for the same and are defined
/// at the same places.
pub open spec fn are_alike(
    left: Option<LocalProvenanceView>,
    right: Option<LocalProvenanceView>,
) -> bool {
    match (left, right) {
        (Some(left), Some(right)) => left.bindings == right.bindings && left.definitions
            == right.definitions,
        (None, None) => true,
        _ => false,
    }
}

/// Whether a target of a statement, for a local, is defined at an origin.
pub open spec fn is_defined(
    old: Map<u64, u64>,
    made: Map<u64, Origin>,
    known: Map<u64, LocalProvenanceView>,
    local: u64,
    origin: OriginView,
) -> bool {
    exists|id: u64| #[trigger]
        made.dom().contains(id) && made[id] is Written && old[id] == local && known.dom().contains(
            id,
        ) && known[id].definitions.contains(origin)
}

/// Whether a target of a statement, for a local, stands for a binding.
pub open spec fn is_bound(
    old: Map<u64, u64>,
    made: Map<u64, Origin>,
    known: Map<u64, LocalProvenanceView>,
    local: u64,
    binding: BindingView,
) -> bool {
    exists|id: u64| #[trigger]
        made.dom().contains(id) && made[id] is Written && old[id] == local && known.dom().contains(
            id,
        ) && known[id].bindings.contains(binding)
}

/// Whether what is known of a target that is passed is known of the parameter
/// that it is passed for.
pub open spec fn is_passed_on(
    made: Map<u64, Origin>,
    known: Map<u64, LocalProvenanceView>,
    argument: (RcLocal, RValueView),
) -> bool {
    let parameter = argument.0.id;
    let value = argument.1->Local_0.id;
    &&& argument.1 is Local
    &&& made.dom().contains(parameter)
    &&& made.dom().contains(value)
    &&& made[value] is Written && known.dom().contains(value) ==> {
        &&& known.dom().contains(parameter)
        &&& known[value].definitions.subset_of(known[parameter].definitions)
        &&& known[value].bindings.subset_of(known[parameter].bindings)
    }
}

impl Frame {
    /// Whether nothing is known yet of the locals to come.
    pub open spec fn is_fresh(self) -> bool {
        forall|id: u64| #[trigger] self.cfg.provenance.dom().contains(id) ==> id < self.base
    }

    /// What is known of a target of a statement: where the statement comes
    /// from.
    pub open spec fn target_known(self, id: u64, local: u64, n: u32, t: int) -> Option<
        LocalProvenanceView,
    > {
        let origins = self.cfg.origins_of(n, t)->0;
        if origins == Set::<OriginView>::empty() {
            numbering::found(self.cfg.provenance, id)
        } else {
            Some(self.cfg.defined(RcLocal { id }, RcLocal { id: local }, origins))
        }
    }

    /// Whether what is known of a value at the start of a block comes from
    /// targets for the same local.
    pub open spec fn is_gathered(
        self,
        old: Map<u64, u64>,
        made: Map<u64, Origin>,
        known: Map<u64, LocalProvenanceView>,
        id: u64,
    ) -> bool {
        self.is_fresh() ==> {
            &&& known.dom().contains(id)
            &&& forall|origin: OriginView| #[trigger]
                known[id].definitions.contains(origin) ==> is_defined(
                    old,
                    made,
                    known,
                    old[id],
                    origin,
                )
            &&& forall|binding: BindingView| #[trigger]
                known[id].bindings.contains(binding) ==> binding == self.cfg.bindings[old[id]]
                    || is_bound(old, made, known, old[id], binding)
        }
    }

    /// Whether the locals that there were before are known as before, and what
    /// is known of new ones comes from the statements that define them.
    ///
    /// How much of what a parameter knows reaches the parameters that it is
    /// passed for is left open: that rests on which of them was passed first.
    /// So is where locals are used: which of several stretches of a name a use
    /// falls into rests on the order of the families.
    #[verifier::opaque]
    pub open spec fn keeps_sources(
        self,
        old: Map<u64, u64>,
        made: Map<u64, Origin>,
        bindings: Map<u64, BindingView>,
        known: Map<u64, LocalProvenanceView>,
        edges: Seq<EdgeView>,
    ) -> bool {
        &&& forall|id: u64|
            !made.dom().contains(id) ==> #[trigger] numbering::found(known, id)
                == numbering::found(self.cfg.provenance, id)
        &&& forall|id: u64|
            !made.dom().contains(id) ==> #[trigger] numbering::found(bindings, id)
                == numbering::found(self.cfg.bindings, id)
        &&& forall|id: u64| #[trigger]
            made.dom().contains(id) ==> {
                &&& self.cfg.bindings.dom().contains(old[id])
                &&& numbering::found(bindings, id) == Some(self.cfg.bindings[old[id]])
                &&& match made[id] {
                    Origin::Written(n, t, _) => are_alike(
                        numbering::found(known, id),
                        self.target_known(id, old[id], n, t),
                    ),
                    Origin::Start(_, _) => self.is_gathered(old, made, known, id),
                }
            }
        &&& forall|i: int, k: int|
            0 <= i < edges.len() && 0 <= k < edges[i].arguments.len() ==> is_passed_on(
                made,
                known,
                #[trigger] edges[i].arguments[k],
            )
    }

    /// Before there are new locals, all is known as it was.
    pub proof fn lemma_sources_kept(self)
        requires
            forall|i: int|
                0 <= i < self.cfg.edges.len() ==> (#[trigger] self.cfg.edges[i]).arguments.len()
                    == 0,
        ensures
            self.keeps_sources(
                Map::empty(),
                Map::empty(),
                self.cfg.bindings,
                self.cfg.provenance,
                self.cfg.edges,
            ),
    {
        reveal(Frame::keeps_sources);
    }

    /// A value at the start of a block stands for its local.
    pub proof fn lemma_start_sources(
        self,
        old: Map<u64, u64>,
        made: Map<u64, Origin>,
        cfg: CfgView,
        after: CfgView,
        n: u32,
        local: u64,
        value: u64,
    )
        requires
            self.keeps_sources(old, made, cfg.bindings, cfg.provenance, cfg.edges),
            !made.dom().contains(value),
            !made.dom().contains(local),
            self.base <= value,
            self.cfg.bindings.dom().contains(local),
            after == (CfgView {
                bindings: cfg.bindings.insert(value, cfg.bindings[local]),
                provenance: if cfg.provenance.dom().contains(value) {
                    cfg.provenance
                } else {
                    cfg.provenance.insert(
                        value,
                        LocalProvenanceView {
                            bindings: set![cfg.bindings[local]],
                            definitions: Set::empty(),
                            uses: Set::empty(),
                        },
                    )
                },
                ..cfg
            }),
        ensures
            self.keeps_sources(
                old.insert(value, local),
                made.insert(value, Origin::Start(n, local)),
                after.bindings,
                after.provenance,
                after.edges,
            ),
    {
        reveal(Frame::keeps_sources);
        let old_after = old.insert(value, local);
        let made_after = made.insert(value, Origin::Start(n, local));
        let known = cfg.provenance;
        assert(numbering::found(cfg.bindings, local) == numbering::found(
            self.cfg.bindings,
            local,
        ));
        assert(numbering::found(known, value) == numbering::found(self.cfg.provenance, value));
        assert forall|id: u64| !made_after.dom().contains(id) implies #[trigger] numbering::found(
            after.provenance,
            id,
        ) == numbering::found(self.cfg.provenance, id) by {
            assert(numbering::found(known, id) == numbering::found(self.cfg.provenance, id));
        }
        assert forall|id: u64| !made_after.dom().contains(id) implies #[trigger] numbering::found(
            after.bindings,
            id,
        ) == numbering::found(self.cfg.bindings, id) by {
            assert(numbering::found(cfg.bindings, id) == numbering::found(self.cfg.bindings, id));
        }
        assert forall|id: u64| made.dom().contains(id) && made[id] is Start implies
            self.is_gathered(old_after, made_after, after.provenance, id) by {
            assert(self.is_gathered(old, made, known, id));
            self.lemma_gathered_grows(
                old,
                made,
                known,
                old_after,
                made_after,
                after.provenance,
                id,
            );
        }
        assert(self.is_gathered(old_after, made_after, after.provenance, value));
    }

    /// What was gathered stays so as more is known of others.
    proof fn lemma_gathered_grows(
        self,
        old: Map<u64, u64>,
        made: Map<u64, Origin>,
        known: Map<u64, LocalProvenanceView>,
        old_after: Map<u64, u64>,
        made_after: Map<u64, Origin>,
        known_after: Map<u64, LocalProvenanceView>,
        id: u64,
    )
        requires
            self.is_gathered(old, made, known, id),
            made.dom().contains(id),
            known_after.dom().contains(id) == known.dom().contains(id),
            known.dom().contains(id) ==> known_after[id].definitions == known[id].definitions
                && known_after[id].bindings == known[id].bindings,
            forall|other: u64| #[trigger]
                made.dom().contains(other) ==> made_after.dom().contains(other)
                    && made_after[other] == made[other] && old_after[other] == old[other] && (
                made[other] is Written && known.dom().contains(other) ==> known_after.dom().contains(
                    other,
                ) && known_after[other].definitions == known[other].definitions
                    && known_after[other].bindings == known[other].bindings),
        ensures
            self.is_gathered(old_after, made_after, known_after, id),
    {
        if self.is_fresh() {
            assert forall|origin: OriginView| #[trigger]
                known_after[id].definitions.contains(origin) implies is_defined(
                old_after,
                made_after,
                known_after,
                old_after[id],
                origin,
            ) by {
                assert(known[id].definitions.contains(origin));
                let other = choose|other: u64| #[trigger]
                    made.dom().contains(other) && made[other] is Written && old[other] == old[id]
                        && known.dom().contains(other) && known[other].definitions.contains(origin);
                assert(made_after.dom().contains(other));
            }
            assert forall|binding: BindingView| #[trigger]
                known_after[id].bindings.contains(binding) && binding
                    != self.cfg.bindings[old_after[id]] implies is_bound(
                old_after,
                made_after,
                known_after,
                old_after[id],
                binding,
            ) by {
                assert(known[id].bindings.contains(binding));
                let other = choose|other: u64| #[trigger]
                    made.dom().contains(other) && made[other] is Written && old[other] == old[id]
                        && known.dom().contains(other) && known[other].bindings.contains(binding);
                assert(made_after.dom().contains(other));
            }
        }
    }

    /// A use leaves what is defined as it is.
    pub proof fn lemma_use_sources(
        self,
        old: Map<u64, u64>,
        made: Map<u64, Origin>,
        cfg: CfgView,
        after: CfgView,
        value: u64,
        uses: Set<OriginView>,
    )
        requires
            self.keeps_sources(old, made, cfg.bindings, cfg.provenance, cfg.edges),
            made.dom().contains(value),
            cfg.provenance.dom().contains(value),
            after == (CfgView {
                provenance: cfg.provenance.insert(
                    value,
                    LocalProvenanceView { uses, ..cfg.provenance[value] },
                ),
                ..cfg
            }),
        ensures
            self.keeps_sources(old, made, after.bindings, after.provenance, after.edges),
    {
        reveal(Frame::keeps_sources);
        let known = cfg.provenance;
        assert forall|id: u64| !made.dom().contains(id) implies #[trigger] numbering::found(
            after.provenance,
            id,
        ) == numbering::found(self.cfg.provenance, id) by {
            assert(numbering::found(known, id) == numbering::found(self.cfg.provenance, id));
        }
        assert forall|id: u64| made.dom().contains(id) && made[id] is Start implies
            self.is_gathered(old, made, after.provenance, id) by {
            assert(self.is_gathered(old, made, known, id));
            self.lemma_gathered_grows(old, made, known, old, made, after.provenance, id);
        }
    }

    /// A parameter takes over what is known of the values passed for it.
    pub proof fn lemma_merged_sources(
        self,
        old: Map<u64, u64>,
        made: Map<u64, Origin>,
        cfg: CfgView,
        edges: Seq<EdgeView>,
        after: CfgView,
        parameter: u64,
        values: Seq<RcLocal>,
    )
        requires
            self.keeps_sources(old, made, cfg.bindings, cfg.provenance, cfg.edges),
            made.dom().contains(parameter),
            made[parameter] is Start,
            forall|e: int|
                0 <= e < values.len() ==> made.dom().contains((#[trigger] values[e]).id)
                    && old[values[e].id] == old[parameter],
            forall|i: int, k: int|
                0 <= i < cfg.edges.len() && 0 <= k < cfg.edges[i].arguments.len() ==> (
                #[trigger] cfg.edges[i].arguments[k]).0.id != parameter,
            edges.len() == cfg.edges.len(),
            forall|i: int|
                0 <= i < edges.len() ==> #[trigger] edges[i] == cfg.edges[i] || exists|e: int|
                    0 <= e < values.len() && edges[i] == numbering::with_argument(
                        cfg.edges[i],
                        parameter,
                        (#[trigger] values[e]).id,
                    ),
            after == ({
                let joined = LocalProvenanceView::joined_from(cfg.provenance, values, 0);
                CfgView {
                    edges,
                    bindings: cfg.bindings.insert(parameter, cfg.bindings[parameter]),
                    provenance: cfg.provenance.insert(
                        parameter,
                        if joined.bindings == Set::<BindingView>::empty() {
                            LocalProvenanceView {
                                bindings: set![cfg.bindings[parameter]],
                                ..joined
                            }
                        } else {
                            joined
                        },
                    ),
                    ..cfg
                }
            }),
        ensures
            self.keeps_sources(old, made, after.bindings, after.provenance, after.edges),
    {
        reveal(Frame::keeps_sources);
        let known = cfg.provenance;
        let joined = LocalProvenanceView::joined_from(known, values, 0);
        let merged = after.provenance[parameter];
        assert(numbering::found(cfg.bindings, parameter) == Some(
            self.cfg.bindings[old[parameter]],
        ));
        assert(after.bindings =~= cfg.bindings);
        assert forall|id: u64| !made.dom().contains(id) implies #[trigger] numbering::found(
            after.provenance,
            id,
        ) == numbering::found(self.cfg.provenance, id) by {
            assert(numbering::found(known, id) == numbering::found(self.cfg.provenance, id));
        }
        assert forall|id: u64|
            made.dom().contains(id) && made[id] is Start && id != parameter implies
            self.is_gathered(old, made, after.provenance, id) by {
            assert(self.is_gathered(old, made, known, id));
            self.lemma_gathered_grows(old, made, known, old, made, after.provenance, id);
        }
        if self.is_fresh() {
            assert forall|origin: OriginView| #[trigger]
                merged.definitions.contains(origin) implies is_defined(
                old,
                made,
                after.provenance,
                old[parameter],
                origin,
            ) by {
                let e = lemma_joined_definition(known, values, 0, origin);
                self.lemma_value_defined(old, made, known, values[e].id, origin);
                let other = choose|other: u64| #[trigger]
                    made.dom().contains(other) && made[other] is Written && old[other]
                        == old[values[e].id] && known.dom().contains(other)
                        && known[other].definitions.contains(origin);
                assert(made.dom().contains(other));
            }
            assert forall|binding: BindingView| #[trigger]
                merged.bindings.contains(binding) && binding
                    != self.cfg.bindings[old[parameter]] implies is_bound(
                old,
                made,
                after.provenance,
                old[parameter],
                binding,
            ) by {
                assert(joined.bindings.contains(binding));
                let e = lemma_joined_binding(known, values, 0, binding);
                self.lemma_value_bound(old, made, known, values[e].id, binding);
                let other = choose|other: u64| #[trigger]
                    made.dom().contains(other) && made[other] is Written && old[other]
                        == old[values[e].id] && known.dom().contains(other)
                        && known[other].bindings.contains(binding);
                assert(made.dom().contains(other));
            }
        }
        assert(self.is_gathered(old, made, after.provenance, parameter));
        assert forall|i: int, k: int|
            0 <= i < edges.len() && 0 <= k < edges[i].arguments.len() implies is_passed_on(
            made,
            after.provenance,
            #[trigger] edges[i].arguments[k],
        ) by {
            let argument = edges[i].arguments[k];
            assert(edges[i] == edges[i]);
            if k < cfg.edges[i].arguments.len() {
                assert(argument == cfg.edges[i].arguments[k]);
                assert(is_passed_on(made, known, cfg.edges[i].arguments[k]));
            } else {
                let e = choose|e: int|
                    0 <= e < values.len() && edges[i] == numbering::with_argument(
                        cfg.edges[i],
                        parameter,
                        (#[trigger] values[e]).id,
                    );
                assert(made.dom().contains(values[e].id));
                lemma_joined_all(known, values, 0, e);
            }
        }
    }

    proof fn lemma_value_defined(
        self,
        old: Map<u64, u64>,
        made: Map<u64, Origin>,
        known: Map<u64, LocalProvenanceView>,
        id: u64,
        origin: OriginView,
    )
        requires
            self.is_fresh(),
            made.dom().contains(id),
            made[id] is Start ==> self.is_gathered(old, made, known, id),
            known.dom().contains(id),
            known[id].definitions.contains(origin),
        ensures
            is_defined(old, made, known, old[id], origin),
    {
        if made[id] is Written {
            assert(made.dom().contains(id));
        }
    }

    proof fn lemma_value_bound(
        self,
        old: Map<u64, u64>,
        made: Map<u64, Origin>,
        known: Map<u64, LocalProvenanceView>,
        id: u64,
        binding: BindingView,
    )
        requires
            self.is_fresh(),
            made.dom().contains(id),
            made[id] is Start ==> self.is_gathered(old, made, known, id),
            known.dom().contains(id),
            known[id].bindings.contains(binding),
            binding != self.cfg.bindings[old[id]],
        ensures
            is_bound(old, made, known, old[id], binding),
    {
        if made[id] is Written {
            assert(made.dom().contains(id));
        }
    }

    /// Targets of a statement are known by where it comes from.
    pub proof fn lemma_target_sources(
        self,
        old: Map<u64, u64>,
        made: Map<u64, Origin>,
        cfg: CfgView,
        n: u32,
        t: int,
        targets: Seq<RcLocal>,
        written: Seq<RcLocal>,
        first: nat,
        count: int,
    )
        requires
            self.keeps_sources(old, made, cfg.bindings, cfg.provenance, cfg.edges),
            cfg.families == self.cfg.families,
            cfg.origins == self.cfg.origins,
            0 <= count <= targets.len() == written.len(),
            numbering::come_next(targets, first),
            self.base <= first,
            forall|id: u64| #[trigger] made.dom().contains(id) ==> id < first,
            forall|k: int|
                0 <= k < written.len() ==> (#[trigger] written[k]).id < self.base
                    && self.cfg.bindings.dom().contains(written[k].id) && !made.dom().contains(
                    written[k].id,
                ),
        ensures
            ({
                let after = with_definitions(cfg, n, t, targets, written, count);
                &&& self.keeps_sources(
                    numbering::with_old(old, targets, written, count),
                    numbering::with_made(made, n, t, targets, count),
                    after.bindings,
                    after.provenance,
                    after.edges,
                )
                &&& after == (CfgView {
                    bindings: after.bindings,
                    provenance: after.provenance,
                    ..cfg
                })
                &&& forall|id: u64| #[trigger]
                    numbering::with_made(made, n, t, targets, count).dom().contains(id) ==> id
                        < first + count && (id < first ==> made.dom().contains(id))
            }),
        decreases count,
    {
        if count > 0 {
            self.lemma_target_sources(old, made, cfg, n, t, targets, written, first, count - 1);
            let now = with_definitions(cfg, n, t, targets, written, count - 1);
            let old_now = numbering::with_old(old, targets, written, count - 1);
            let made_now = numbering::with_made(made, n, t, targets, count - 1);
            assert(targets[count - 1].id == first + count - 1);
            let one = written[count - 1];
            assert(one.id < self.base);
            assert(!made_now.dom().contains(one.id));
            self.lemma_one_target(
                old_now,
                made_now,
                now,
                n,
                t,
                count - 1,
                targets[count - 1],
                one,
            );
        }
    }

    proof fn lemma_one_target(
        self,
        old: Map<u64, u64>,
        made: Map<u64, Origin>,
        cfg: CfgView,
        n: u32,
        t: int,
        k: int,
        target: RcLocal,
        local: RcLocal,
    )
        requires
            self.keeps_sources(old, made, cfg.bindings, cfg.provenance, cfg.edges),
            cfg.families == self.cfg.families,
            cfg.origins == self.cfg.origins,
            !made.dom().contains(target.id),
            !made.dom().contains(local.id),
            self.cfg.bindings.dom().contains(local.id),
        ensures
            ({
                let after = with_definition(cfg, n, t, target, local);
                self.keeps_sources(
                    old.insert(target.id, local.id),
                    made.insert(target.id, Origin::Written(n, t, k)),
                    after.bindings,
                    after.provenance,
                    after.edges,
                )
            }),
    {
        reveal(Frame::keeps_sources);
        let after = with_definition(cfg, n, t, target, local);
        let id = target.id;
        let old_after = old.insert(id, local.id);
        let made_after = made.insert(id, Origin::Written(n, t, k));
        let known = cfg.provenance;
        let origins = self.cfg.origins_of(n, t)->0;
        assert(cfg.origins_of(n, t) == self.cfg.origins_of(n, t));
        assert(numbering::found(cfg.bindings, local.id) == numbering::found(
            self.cfg.bindings,
            local.id,
        ));
        assert(numbering::found(known, id) == numbering::found(self.cfg.provenance, id));
        assert(cfg.known(target) == self.cfg.known(target));
        let mine = |origin: OriginView| cfg.definition_binding(local, origin);
        let given = |origin: OriginView| self.cfg.definition_binding(local, origin);
        assert(mine =~= given);
        let mine_origin = |origin: OriginView| cfg.definition_origin(local, origin);
        let given_origin = |origin: OriginView| self.cfg.definition_origin(local, origin);
        assert(mine_origin =~= given_origin);
        assert(cfg.defined(target, local, origins) == self.cfg.defined(target, local, origins));
        assert(target == (RcLocal { id }));
        assert(local == (RcLocal { id: local.id }));
        assert(are_alike(
            numbering::found(after.provenance, id),
            self.target_known(id, local.id, n, t),
        ));
        assert forall|other: u64| !made_after.dom().contains(other) implies
            #[trigger] numbering::found(after.provenance, other) == numbering::found(
            self.cfg.provenance,
            other,
        ) by {
            assert(numbering::found(known, other) == numbering::found(self.cfg.provenance, other));
        }
        assert forall|other: u64| !made_after.dom().contains(other) implies
            #[trigger] numbering::found(after.bindings, other) == numbering::found(
            self.cfg.bindings,
            other,
        ) by {
            assert(numbering::found(cfg.bindings, other) == numbering::found(
                self.cfg.bindings,
                other,
            ));
        }
        assert forall|other: u64| made.dom().contains(other) && made[other] is Start implies
            self.is_gathered(old_after, made_after, after.provenance, other) by {
            assert(self.is_gathered(old, made, known, other));
            self.lemma_gathered_grows(
                old,
                made,
                known,
                old_after,
                made_after,
                after.provenance,
                other,
            );
        }
    }
}

/// A parameter is known by every statement whose target is passed for it.
pub proof fn parameters_know_their_definitions(
    frame: Frame,
    st: Numbering,
    i: int,
    k: int,
    n: u32,
    t: int,
    j: int,
    origin: OriginView,
)
    requires
        frame.keeps_sources(
            st.old,
            st.made,
            st.cfg.bindings,
            st.cfg.provenance,
            st.cfg.edges,
        ),
        0 <= i < st.cfg.edges.len(),
        0 <= k < st.cfg.edges[i].arguments.len(),
        st.made[st.cfg.edges[i].arguments[k].1->Local_0.id] == Origin::Written(n, t, j),
        frame.cfg.origins_of(n, t) is Some,
        frame.cfg.origins_of(n, t)->0.contains(origin),
    ensures
        ({
            let argument = st.cfg.edges[i].arguments[k];
            let local = RcLocal { id: st.old[argument.1->Local_0.id] };
            &&& st.cfg.known(argument.0).definitions.contains(
                frame.cfg.definition_origin(local, origin),
            )
            &&& st.cfg.known(argument.0).bindings.contains(
                frame.cfg.definition_binding(local, origin),
            )
        }),
{
    reveal(Frame::keeps_sources);
    let argument = st.cfg.edges[i].arguments[k];
    let value = argument.1->Local_0.id;
    let local = RcLocal { id: st.old[value] };
    let origins = frame.cfg.origins_of(n, t)->0;
    assert(is_passed_on(st.made, st.cfg.provenance, argument));
    assert(st.made.dom().contains(value));
    assert(origins != Set::<OriginView>::empty());
    let known = frame.cfg.defined(RcLocal { id: value }, local, origins);
    let origin_of = |one: OriginView| frame.cfg.definition_origin(local, one);
    let binding_of = |one: OriginView| frame.cfg.definition_binding(local, one);
    assert(origins.map(origin_of).contains(origin_of(origin)));
    assert(origins.map(binding_of).contains(binding_of(origin)));
    assert(known.definitions.contains(origin_of(origin)));
    assert(known.bindings.contains(binding_of(origin)));
}

/// A function that has one more local, a target of a statement for another
/// local.
pub open spec fn with_definition(
    cfg: CfgView,
    n: u32,
    t: int,
    target: RcLocal,
    local: RcLocal,
) -> CfgView {
    let origins = cfg.origins_of(n, t)->0;
    CfgView {
        bindings: cfg.bindings.insert(target.id, cfg.bindings[local.id]),
        provenance: if origins == Set::<OriginView>::empty() {
            cfg.provenance
        } else {
            cfg.provenance.insert(target.id, cfg.defined(target, local, origins))
        },
        ..cfg
    }
}

/// A function that has the first `count` targets of a statement.
pub open spec fn with_definitions(
    cfg: CfgView,
    n: u32,
    t: int,
    targets: Seq<RcLocal>,
    written: Seq<RcLocal>,
    count: int,
) -> CfgView
    decreases count,
{
    if count <= 0 {
        cfg
    } else {
        with_definition(
            with_definitions(cfg, n, t, targets, written, count - 1),
            n,
            t,
            targets[count - 1],
            written[count - 1],
        )
    }
}

/// The first targets of a statement do not rest on those after them.
pub proof fn lemma_definitions_alike(
    cfg: CfgView,
    n: u32,
    t: int,
    targets: Seq<RcLocal>,
    more: Seq<RcLocal>,
    written: Seq<RcLocal>,
    count: int,
)
    requires
        count <= targets.len(),
        targets.is_prefix_of(more),
    ensures
        with_definitions(cfg, n, t, targets, written, count) == with_definitions(
            cfg,
            n,
            t,
            more,
            written,
            count,
        ),
    decreases count,
{
    if count > 0 {
        lemma_definitions_alike(cfg, n, t, targets, more, written, count - 1);
        assert(targets[count - 1] == more.subrange(0, targets.len() as int)[count - 1]);
    }
}

proof fn lemma_joined_definition(
    known: Map<u64, LocalProvenanceView>,
    sources: Seq<RcLocal>,
    from: int,
    origin: OriginView,
) -> (e: int)
    requires
        0 <= from,
        LocalProvenanceView::joined_from(known, sources, from).definitions.contains(origin),
    ensures
        from <= e < sources.len(),
        known.dom().contains(sources[e].id),
        known[sources[e].id].definitions.contains(origin),
    decreases sources.len() - from,
{
    if from < sources.len() && known.dom().contains(sources[from].id)
        && known[sources[from].id].definitions.contains(origin) {
        from
    } else {
        lemma_joined_definition(known, sources, from + 1, origin)
    }
}

proof fn lemma_joined_binding(
    known: Map<u64, LocalProvenanceView>,
    sources: Seq<RcLocal>,
    from: int,
    binding: BindingView,
) -> (e: int)
    requires
        0 <= from,
        LocalProvenanceView::joined_from(known, sources, from).bindings.contains(binding),
    ensures
        from <= e < sources.len(),
        known.dom().contains(sources[e].id),
        known[sources[e].id].bindings.contains(binding),
    decreases sources.len() - from,
{
    if from < sources.len() && known.dom().contains(sources[from].id)
        && known[sources[from].id].bindings.contains(binding) {
        from
    } else {
        lemma_joined_binding(known, sources, from + 1, binding)
    }
}

proof fn lemma_joined_all(
    known: Map<u64, LocalProvenanceView>,
    sources: Seq<RcLocal>,
    from: int,
    e: int,
)
    requires
        0 <= from <= e < sources.len(),
    ensures
        known.dom().contains(sources[e].id) ==> {
            let joined = LocalProvenanceView::joined_from(known, sources, from);
            &&& known[sources[e].id].definitions.subset_of(joined.definitions)
            &&& known[sources[e].id].bindings.subset_of(joined.bindings)
        },
    decreases e - from,
{
    if from < e {
        lemma_joined_all(known, sources, from + 1, e);
    }
}

} // verus!
