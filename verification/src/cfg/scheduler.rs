//! The decisions of running passes round after round until nothing changes.

use vstd::prelude::*;

use crate::cfg::recovery::RecoveryError;

verus! {

/// What a pass changed.
#[derive(Debug, Clone, Copy, PartialEq, Eq, Hash, Structural)]
pub struct PassChange {
    dataflow: bool,
    cfg: bool,
    regions: bool,
    ast: bool,
}

impl PassChange {
    /// Whether values changed hands.
    pub closed spec fn changes_dataflow(self) -> bool {
        self.dataflow
    }

    /// Whether blocks or edges changed.
    pub closed spec fn changes_cfg(self) -> bool {
        self.cfg
    }

    /// Whether regions changed.
    pub closed spec fn changes_regions(self) -> bool {
        self.regions
    }

    /// Whether statements changed.
    pub closed spec fn changes_ast(self) -> bool {
        self.ast
    }

    /// Whether what is known of values no longer holds.
    pub open spec fn voids_dataflow(self) -> bool {
        self.changes_dataflow() || self.changes_cfg() || self.changes_ast()
    }

    /// Whether what is known of regions no longer holds.
    pub open spec fn voids_regions(self) -> bool {
        self.changes_cfg() || self.changes_regions()
    }

    /// Whether nothing changed.
    pub open spec fn is_nothing(self) -> bool {
        !self.changes_dataflow() && !self.changes_cfg() && !self.changes_regions()
            && !self.changes_ast()
    }

    /// The change of two passes, one after the other.
    pub open spec fn joins(self, left: PassChange, right: PassChange) -> bool {
        &&& self.changes_dataflow() == (left.changes_dataflow() || right.changes_dataflow())
        &&& self.changes_cfg() == (left.changes_cfg() || right.changes_cfg())
        &&& self.changes_regions() == (left.changes_regions() || right.changes_regions())
        &&& self.changes_ast() == (left.changes_ast() || right.changes_ast())
    }

    pub fn none() -> (change: Self)
        ensures
            change.is_nothing(),
    {
        PassChange { dataflow: false, cfg: false, regions: false, ast: false }
    }

    pub fn dataflow() -> (change: Self)
        ensures
            change.changes_dataflow(),
            !change.changes_cfg() && !change.changes_regions() && !change.changes_ast(),
    {
        PassChange { dataflow: true, cfg: false, regions: false, ast: false }
    }

    pub fn cfg() -> (change: Self)
        ensures
            change.changes_cfg(),
            !change.changes_dataflow() && !change.changes_regions() && !change.changes_ast(),
    {
        PassChange { dataflow: false, cfg: true, regions: false, ast: false }
    }

    pub fn regions() -> (change: Self)
        ensures
            change.changes_regions(),
            !change.changes_dataflow() && !change.changes_cfg() && !change.changes_ast(),
    {
        PassChange { dataflow: false, cfg: false, regions: true, ast: false }
    }

    pub fn ast() -> (change: Self)
        ensures
            change.changes_ast(),
            !change.changes_dataflow() && !change.changes_cfg() && !change.changes_regions(),
    {
        PassChange { dataflow: false, cfg: false, regions: false, ast: true }
    }

    pub fn union(self, other: Self) -> (change: Self)
        ensures
            change.joins(self, other),
    {
        PassChange {
            dataflow: self.dataflow || other.dataflow,
            cfg: self.cfg || other.cfg,
            regions: self.regions || other.regions,
            ast: self.ast || other.ast,
        }
    }

    pub fn is_empty(self) -> (result: bool)
        ensures
            result == self.is_nothing(),
    {
        !self.dataflow && !self.cfg && !self.regions && !self.ast
    }

    /// Whether what is known of values no longer holds.
    pub fn invalidates_dataflow(self) -> (result: bool)
        ensures
            result == self.voids_dataflow(),
    {
        self.dataflow || self.cfg || self.ast
    }

    /// Whether what is known of blocks and edges no longer holds.
    pub fn invalidates_cfg(self) -> (result: bool)
        ensures
            result == self.changes_cfg(),
    {
        self.cfg
    }

    /// Whether what is known of regions no longer holds.
    pub fn invalidates_regions(self) -> (result: bool)
        ensures
            result == self.voids_regions(),
    {
        self.cfg || self.regions
    }

    /// Whether what is known of statements no longer holds.
    pub fn invalidates_ast(self) -> (result: bool)
        ensures
            result == self.changes_ast(),
    {
        self.ast
    }
}

impl Default for PassChange {
    fn default() -> (change: Self)
        ensures
            change.is_nothing(),
    {
        PassChange::none()
    }
}

/// Joining changes is commutative, and nothing is lost or added by it.
pub proof fn joined_changes_commute(
    joined: PassChange,
    left: PassChange,
    right: PassChange,
)
    requires
        joined.joins(left, right),
    ensures
        joined.joins(right, left),
        joined.is_nothing() <==> left.is_nothing() && right.is_nothing(),
{
}

/// A change joined with nothing is that change.
pub proof fn joining_nothing_keeps_changes(
    joined: PassChange,
    change: PassChange,
    nothing: PassChange,
)
    requires
        joined.joins(change, nothing),
        nothing.is_nothing(),
    ensures
        joined == change,
{
}

/// A change joined with itself is that change.
pub proof fn joining_itself_keeps_changes(joined: PassChange, change: PassChange)
    requires
        joined.joins(change, change),
    ensures
        joined == change,
{
}

/// What either of two changes invalidates, the two together invalidate, and
/// nothing more.
pub proof fn joined_changes_invalidate(joined: PassChange, left: PassChange, right: PassChange)
    requires
        joined.joins(left, right),
    ensures
        joined.voids_dataflow() == (left.voids_dataflow() || right.voids_dataflow()),
        joined.voids_regions() == (left.voids_regions() || right.voids_regions()),
        joined.changes_cfg() == (left.changes_cfg() || right.changes_cfg()),
        joined.changes_ast() == (left.changes_ast() || right.changes_ast()),
{
}

/// How often each kind of knowledge ceased to hold.
#[derive(Debug, Clone, Copy, PartialEq, Eq, Structural)]
pub struct InvalidationCounts {
    pub dataflow: usize,
    pub cfg: usize,
    pub regions: usize,
    pub ast: usize,
}

/// A flag as a number.
pub open spec fn flag(value: bool) -> int {
    if value {
        1
    } else {
        0
    }
}

impl InvalidationCounts {
    /// Whether there is room to count once more.
    pub open spec fn below(self, limit: int) -> bool {
        self.dataflow <= limit && self.cfg <= limit && self.regions <= limit && self.ast <= limit
    }

    fn record(&mut self, change: PassChange)
        requires
            old(self).below(usize::MAX - 1),
        ensures
            final(self).dataflow == old(self).dataflow + flag(
                change.voids_dataflow(),
            ),
            final(self).cfg == old(self).cfg + flag(change.changes_cfg()),
            final(self).regions == old(self).regions + flag(
                change.voids_regions(),
            ),
            final(self).ast == old(self).ast + flag(change.changes_ast()),
    {
        if change.invalidates_dataflow() {
            self.dataflow += 1;
        }
        if change.invalidates_cfg() {
            self.cfg += 1;
        }
        if change.invalidates_regions() {
            self.regions += 1;
        }
        if change.invalidates_ast() {
            self.ast += 1;
        }
    }
}

impl Default for InvalidationCounts {
    fn default() -> (counts: Self)
        ensures
            counts == (InvalidationCounts { dataflow: 0, cfg: 0, regions: 0, ast: 0 }),
    {
        InvalidationCounts { dataflow: 0, cfg: 0, regions: 0, ast: 0 }
    }
}

/// Why the rounds ended without a fixed point. Passes are named by the places
/// at which they were added.
#[derive(Debug)]
pub enum SchedulerError {
    Recovery(RecoveryError),
    RepeatedState {
        function_id: usize,
        first_round: usize,
        repeated_round: usize,
        changed_passes: Vec<usize>,
    },
    RoundLimit { function_id: usize, max_rounds: usize, changed_passes: Vec<usize> },
}

/// What comes after a round.
#[derive(Debug)]
pub enum RoundOutcome {
    /// Nothing changed: the rounds are over.
    Settled { rounds: usize },
    /// Another round is due.
    Continue,
    /// The rounds cannot settle.
    Failed(SchedulerError),
}

/// The state of running the passes of a schedule over one function.
#[derive(Debug)]
pub struct PassScheduler {
    max_rounds: usize,
    passes: usize,
    function_id: usize,
    round: usize,
    round_change: PassChange,
    seen: Vec<(u64, usize)>,
    applied: Vec<(usize, PassChange)>,
    invalidations: InvalidationCounts,
}

/// The model of the state of a schedule.
#[verifier::ext_equal]
pub struct SchedulerView {
    pub max_rounds: nat,
    pub passes: nat,
    pub function_id: usize,
    pub round: nat,
    pub round_change: PassChange,
    pub seen: Seq<(u64, usize)>,
    pub applied: Seq<(usize, PassChange)>,
    pub invalidations: InvalidationCounts,
}

impl SchedulerView {
    /// The round in which a state of the function was last seen.
    pub open spec fn last_seen(seen: Seq<(u64, usize)>, state: u64) -> Option<usize>
        decreases seen.len(),
    {
        if seen.len() == 0 {
            None
        } else if seen.last().0 == state {
            Some(seen.last().1)
        } else {
            Self::last_seen(seen.drop_last(), state)
        }
    }

    /// The passes that changed something last, the latest first, as many as
    /// there are passes.
    pub open spec fn changed_passes(self) -> Seq<usize> {
        let count = if self.applied.len() < self.passes {
            self.applied.len()
        } else {
            self.passes
        };
        Seq::new(count, |i: int| self.applied[self.applied.len() - 1 - i].0)
    }
}

impl PassScheduler {
    pub closed spec fn view(&self) -> SchedulerView {
        SchedulerView {
            max_rounds: self.max_rounds as nat,
            passes: self.passes as nat,
            function_id: self.function_id,
            round: self.round as nat,
            round_change: self.round_change,
            seen: self.seen@,
            applied: self.applied@,
            invalidations: self.invalidations,
        }
    }

    /// The rounds are counted from one up to their limit, and every count
    /// stays within the number of changes recorded.
    pub closed spec fn well_formed(&self) -> bool {
        &&& 1 <= self.round <= self.max_rounds
        &&& self.invalidations.below(self.applied@.len() as int)
    }

    /// A schedule that gives up after `max_rounds` rounds.
    pub fn new(max_rounds: usize) -> (scheduler: Self)
        requires
            max_rounds > 0,
        ensures
            scheduler.well_formed(),
            scheduler@.max_rounds == max_rounds,
            scheduler@.passes == 0,
            scheduler@.round == 1,
            scheduler@.seen == Seq::<(u64, usize)>::empty(),
            scheduler@.applied == Seq::<(usize, PassChange)>::empty(),
            scheduler@.round_change.is_nothing(),
            scheduler@.invalidations == (InvalidationCounts {
                dataflow: 0,
                cfg: 0,
                regions: 0,
                ast: 0,
            }),
    {
        PassScheduler {
            max_rounds,
            passes: 0,
            function_id: 0,
            round: 1,
            round_change: PassChange::none(),
            seen: Vec::new(),
            applied: Vec::new(),
            invalidations: InvalidationCounts::default(),
        }
    }

    /// Adds a pass, and gives the place that names it.
    pub fn add_pass(&mut self) -> (place: usize)
        requires
            old(self).well_formed(),
            old(self)@.passes < usize::MAX,
        ensures
            final(self).well_formed(),
            place == old(self)@.passes,
            final(self)@ == (SchedulerView { passes: old(self)@.passes + 1, ..old(self)@ }),
    {
        let place: usize = self.passes;
        self.passes += 1;
        place
    }

    /// Starts on a function whose state is told by `fingerprint`.
    pub fn start(&mut self, function_id: usize, fingerprint: u64)
        requires
            old(self).well_formed(),
        ensures
            final(self).well_formed(),
            final(self)@.max_rounds == old(self)@.max_rounds,
            final(self)@.passes == old(self)@.passes,
            final(self)@.function_id == function_id,
            final(self)@.round == 1,
            final(self)@.round_change.is_nothing(),
            final(self)@.seen == seq![(fingerprint, 0usize)],
            final(self)@.applied == Seq::<(usize, PassChange)>::empty(),
            final(self)@.invalidations == (InvalidationCounts {
                dataflow: 0,
                cfg: 0,
                regions: 0,
                ast: 0,
            }),
    {
        self.function_id = function_id;
        self.round = 1;
        self.round_change = PassChange::none();
        self.seen = Vec::new();
        self.seen.push((fingerprint, 0));
        self.applied = Vec::new();
        self.invalidations = InvalidationCounts::default();
        proof {
            assert(self@.seen =~= seq![(fingerprint, 0usize)]);
        }
    }

    /// Records what a pass changed in this round.
    pub fn record(&mut self, pass: usize, change: PassChange)
        requires
            old(self).well_formed(),
            old(self)@.applied.len() < usize::MAX,
        ensures
            final(self).well_formed(),
            change.is_nothing() ==> final(self)@ == old(self)@,
            !change.is_nothing() ==> {
                &&& final(self)@.round_change.joins(old(self)@.round_change, change)
                &&& final(self)@.applied == old(self)@.applied.push((pass, change))
                &&& final(self)@.invalidations.dataflow == old(self)@.invalidations.dataflow + flag(
                    change.voids_dataflow(),
                )
                &&& final(self)@.invalidations.cfg == old(self)@.invalidations.cfg + flag(
                    change.changes_cfg(),
                )
                &&& final(self)@.invalidations.regions == old(self)@.invalidations.regions + flag(
                    change.voids_regions(),
                )
                &&& final(self)@.invalidations.ast == old(self)@.invalidations.ast + flag(
                    change.changes_ast(),
                )
                &&& final(self)@ == (SchedulerView {
                    round_change: final(self)@.round_change,
                    applied: final(self)@.applied,
                    invalidations: final(self)@.invalidations,
                    ..old(self)@
                })
            },
    {
        if !change.is_empty() {
            self.invalidations.record(change);
            self.round_change = self.round_change.union(change);
            self.applied.push((pass, change));
        }
    }

    /// Whether this round changed nothing.
    pub fn is_settled(&self) -> (result: bool)
        ensures
            result == self@.round_change.is_nothing(),
    {
        self.round_change.is_empty()
    }

    fn changed_passes(&self) -> (passes: Vec<usize>)
        ensures
            passes@ == self@.changed_passes(),
    {
        let count: usize = if self.applied.len() < self.passes {
            self.applied.len()
        } else {
            self.passes
        };
        let mut passes: Vec<usize> = Vec::new();
        let mut index: usize = 0;
        while index < count
            invariant
                index <= count <= self.applied@.len(),
                passes@.len() == index,
                forall|i: int|
                    0 <= i < index ==> passes@[i] == (#[trigger] self.applied@[self.applied@.len()
                        - 1 - i]).0,
            decreases count - index,
        {
            let place: usize = self.applied.len() - 1 - index;
            passes.push(self.applied[place].0);
            index += 1;
        }
        proof {
            assert(passes@ =~= self@.changed_passes());
        }
        passes
    }

    fn last_seen(&self, fingerprint: u64) -> (round: Option<usize>)
        ensures
            round == SchedulerView::last_seen(self.seen@, fingerprint),
    {
        let mut index: usize = self.seen.len();
        proof {
            assert(self.seen@.take(index as int) =~= self.seen@);
        }
        while index > 0
            invariant
                index <= self.seen.len(),
                SchedulerView::last_seen(self.seen@.take(index as int), fingerprint)
                    == SchedulerView::last_seen(self.seen@, fingerprint),
            decreases index,
        {
            proof {
                assert(self.seen@.take(index as int).drop_last() =~= self.seen@.take(index - 1));
            }
            index -= 1;
            if self.seen[index].0 == fingerprint {
                return Some(self.seen[index].1);
            }
        }
        None
    }

    /// Ends a round, after which the state of the function is told by
    /// `fingerprint`. A round that changed nothing settles the schedule. Else
    /// the schedule fails where the state was seen before, or where this was
    /// the last round allowed; and else goes on.
    pub fn end_round(&mut self, fingerprint: u64) -> (outcome: RoundOutcome)
        requires
            old(self).well_formed(),
        ensures
            final(self).well_formed(),
            old(self)@.round_change.is_nothing() ==> {
                &&& outcome == (RoundOutcome::Settled { rounds: old(self)@.round as usize })
                &&& final(self)@ == old(self)@
            },
            !old(self)@.round_change.is_nothing() ==> {
                match SchedulerView::last_seen(old(self)@.seen, fingerprint) {
                    Some(first) => {
                        &&& outcome matches RoundOutcome::Failed(
                            SchedulerError::RepeatedState {
                                function_id,
                                first_round,
                                repeated_round,
                                changed_passes,
                            },
                        )
                        &&& function_id == old(self)@.function_id
                        &&& first_round == first
                        &&& repeated_round == old(self)@.round
                        &&& changed_passes@ == old(self)@.changed_passes()
                    },
                    None => if old(self)@.round == old(self)@.max_rounds {
                        &&& outcome matches RoundOutcome::Failed(
                            SchedulerError::RoundLimit { function_id, max_rounds, changed_passes },
                        )
                        &&& function_id == old(self)@.function_id
                        &&& max_rounds == old(self)@.max_rounds
                        &&& changed_passes@ == old(self)@.changed_passes()
                    } else {
                        &&& outcome is Continue
                        &&& final(self)@.round_change.is_nothing()
                        &&& final(self)@ == (SchedulerView {
                            round: old(self)@.round + 1,
                            seen: old(self)@.seen.push(
                                (fingerprint, old(self)@.round as usize),
                            ),
                            round_change: final(self)@.round_change,
                            ..old(self)@
                        })
                    },
                }
            },
    {
        if self.round_change.is_empty() {
            return RoundOutcome::Settled { rounds: self.round };
        }
        match self.last_seen(fingerprint) {
            Some(first_round) => RoundOutcome::Failed(
                SchedulerError::RepeatedState {
                    function_id: self.function_id,
                    first_round,
                    repeated_round: self.round,
                    changed_passes: self.changed_passes(),
                },
            ),
            None => {
                if self.round == self.max_rounds {
                    return RoundOutcome::Failed(
                        SchedulerError::RoundLimit {
                            function_id: self.function_id,
                            max_rounds: self.max_rounds,
                            changed_passes: self.changed_passes(),
                        },
                    );
                }
                self.seen.push((fingerprint, self.round));
                self.round += 1;
                self.round_change = PassChange::none();
                RoundOutcome::Continue
            },
        }
    }

    /// The passes that changed something, with what they changed.
    pub fn applied_changes(&self) -> (applied: &Vec<(usize, PassChange)>)
        ensures
            applied@ == self@.applied,
    {
        &self.applied
    }

    pub fn invalidations(&self) -> (counts: InvalidationCounts)
        ensures
            counts == self@.invalidations,
    {
        self.invalidations
    }
}

} // verus!
