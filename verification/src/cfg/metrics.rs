//! Coarse counters of the recovery scheduler: how long each kind of work took,
//! and how often it was done.
//!
//! The counters are plain values. Reading a clock and sharing the counters are
//! left to the caller.

use vstd::prelude::*;

verus! {

/// A kind of work.
#[derive(Clone, Copy, Debug, PartialEq, Eq, Structural)]
pub enum Metric {
    FactsDerive,
    Fingerprint,
    Dominators,
    StructureJumps,
    Inline,
    StructureConditionals,
    RemoveParams,
}

impl Metric {
    pub const COUNT: usize = 7;

    /// The place of a kind of work among all.
    pub open spec fn place(self) -> int {
        match self {
            Metric::FactsDerive => 0,
            Metric::Fingerprint => 1,
            Metric::Dominators => 2,
            Metric::StructureJumps => 3,
            Metric::Inline => 4,
            Metric::StructureConditionals => 5,
            Metric::RemoveParams => 6,
        }
    }

    /// The label of a kind of work.
    pub open spec fn text(self) -> Seq<char> {
        match self {
            Metric::FactsDerive => "facts-derive"@,
            Metric::Fingerprint => "fingerprint"@,
            Metric::Dominators => "dominators"@,
            Metric::StructureJumps => "structure-jumps"@,
            Metric::Inline => "inline"@,
            Metric::StructureConditionals => "structure-conditionals"@,
            Metric::RemoveParams => "remove-unnecessary-params"@,
        }
    }

    /// The kinds of work, in order.
    pub open spec fn listed() -> Seq<Metric> {
        seq![
            Metric::FactsDerive,
            Metric::Fingerprint,
            Metric::Dominators,
            Metric::StructureJumps,
            Metric::Inline,
            Metric::StructureConditionals,
            Metric::RemoveParams,
        ]
    }

    /// Every kind of work, in order.
    pub fn all() -> (metrics: Vec<Metric>)
        ensures
            metrics@ == Self::listed(),
    {
        let metrics = vec![
            Metric::FactsDerive,
            Metric::Fingerprint,
            Metric::Dominators,
            Metric::StructureJumps,
            Metric::Inline,
            Metric::StructureConditionals,
            Metric::RemoveParams,
        ];
        proof {
            assert(metrics@ =~= Self::listed());
        }
        metrics
    }

    fn index(self) -> (index: usize)
        ensures
            index == self.place(),
            index < Self::COUNT,
    {
        match self {
            Metric::FactsDerive => 0,
            Metric::Fingerprint => 1,
            Metric::Dominators => 2,
            Metric::StructureJumps => 3,
            Metric::Inline => 4,
            Metric::StructureConditionals => 5,
            Metric::RemoveParams => 6,
        }
    }

    /// The label of this kind of work.
    pub fn label(self) -> (label: &'static str)
        ensures
            label@ == self.text(),
    {
        match self {
            Metric::FactsDerive => "facts-derive",
            Metric::Fingerprint => "fingerprint",
            Metric::Dominators => "dominators",
            Metric::StructureJumps => "structure-jumps",
            Metric::Inline => "inline",
            Metric::StructureConditionals => "structure-conditionals",
            Metric::RemoveParams => "remove-unnecessary-params",
        }
    }
}

/// Every kind of work is listed at its place.
pub proof fn metrics_are_listed_in_place(metric: Metric)
    ensures
        0 <= metric.place() < Metric::listed().len(),
        Metric::listed()[metric.place()] == metric,
        Metric::listed().len() == Metric::COUNT,
{
}

/// What was counted so far. Sums start over when they no longer fit.
#[derive(Debug)]
pub struct Metrics {
    nanos: Vec<u64>,
    calls: Vec<u64>,
    rounds: u64,
    scheduler_runs: u64,
}

/// The model of what was counted.
#[verifier::ext_equal]
pub struct MetricsView {
    pub nanos: Seq<u64>,
    pub calls: Seq<u64>,
    pub rounds: u64,
    pub scheduler_runs: u64,
}

/// What is told of the kinds of work among the first `count` that were done:
/// label, nanoseconds and calls.
pub open spec fn exercised(view: MetricsView, count: int) -> Seq<(Seq<char>, u64, u64)>
    decreases count,
{
    if count <= 0 {
        Seq::empty()
    } else {
        let before = exercised(view, count - 1);
        if view.calls[count - 1] > 0 {
            before.push(
                (Metric::listed()[count - 1].text(), view.nanos[count - 1], view.calls[count - 1]),
            )
        } else {
            before
        }
    }
}

/// The models of what is told.
pub open spec fn rows(list: Seq<(&'static str, u64, u64)>) -> Seq<(Seq<char>, u64, u64)> {
    Seq::new(list.len(), |i: int| (list[i].0@, list[i].1, list[i].2))
}

impl Metrics {
    pub closed spec fn view(&self) -> MetricsView {
        MetricsView {
            nanos: self.nanos@,
            calls: self.calls@,
            rounds: self.rounds,
            scheduler_runs: self.scheduler_runs,
        }
    }

    /// There is a sum for every kind of work.
    #[verifier::type_invariant]
    spec fn is_complete(&self) -> bool {
        self.nanos@.len() == Metric::COUNT && self.calls@.len() == Metric::COUNT
    }

    /// Nothing counted yet.
    pub fn new() -> (metrics: Self)
        ensures
            metrics@ == (MetricsView {
                nanos: seq![0u64, 0, 0, 0, 0, 0, 0],
                calls: seq![0u64, 0, 0, 0, 0, 0, 0],
                rounds: 0,
                scheduler_runs: 0,
            }),
    {
        let nanos: Vec<u64> = vec![0, 0, 0, 0, 0, 0, 0];
        let calls: Vec<u64> = vec![0, 0, 0, 0, 0, 0, 0];
        proof {
            assert(nanos@ =~= seq![0u64, 0, 0, 0, 0, 0, 0]);
            assert(calls@ =~= seq![0u64, 0, 0, 0, 0, 0, 0]);
        }
        Metrics { nanos, calls, rounds: 0, scheduler_runs: 0 }
    }

    /// Counts a call that took some nanoseconds.
    pub fn record(&mut self, metric: Metric, nanos: u64)
        ensures
            final(self)@ == (MetricsView {
                nanos: old(self)@.nanos.update(
                    metric.place(),
                    old(self)@.nanos[metric.place()].wrapping_add(nanos),
                ),
                calls: old(self)@.calls.update(
                    metric.place(),
                    old(self)@.calls[metric.place()].wrapping_add(1),
                ),
                ..old(self)@
            }),
    {
        proof {
            use_type_invariant(&*self);
        }
        let index: usize = metric.index();
        let time: u64 = self.nanos[index].wrapping_add(nanos);
        let count: u64 = self.calls[index].wrapping_add(1);
        let mut nanos: Vec<u64> = Vec::new();
        let mut calls: Vec<u64> = Vec::new();
        let mut at: usize = 0;
        while at < Metric::COUNT
            invariant
                at <= Metric::COUNT,
                index < Metric::COUNT,
                self.nanos@.len() == Metric::COUNT,
                self.calls@.len() == Metric::COUNT,
                nanos@.len() == at,
                calls@.len() == at,
                forall|i: int|
                    0 <= i < at ==> #[trigger] nanos@[i] == (if i == index {
                        time
                    } else {
                        self.nanos@[i]
                    }),
                forall|i: int|
                    0 <= i < at ==> #[trigger] calls@[i] == (if i == index {
                        count
                    } else {
                        self.calls@[i]
                    }),
            decreases Metric::COUNT - at,
        {
            nanos.push(if at == index { time } else { self.nanos[at] });
            calls.push(if at == index { count } else { self.calls[at] });
            at += 1;
        }
        proof {
            assert(nanos@ =~= old(self)@.nanos.update(index as int, time));
            assert(calls@ =~= old(self)@.calls.update(index as int, count));
        }
        *self = Metrics {
            nanos,
            calls,
            rounds: self.rounds,
            scheduler_runs: self.scheduler_runs,
        };
    }

    /// Counts a round.
    pub fn record_round(&mut self)
        ensures
            final(self)@ == (MetricsView {
                rounds: old(self)@.rounds.wrapping_add(1),
                ..old(self)@
            }),
    {
        proof {
            use_type_invariant(&*self);
        }
        self.rounds = self.rounds.wrapping_add(1);
    }

    /// Counts a run of the scheduler.
    pub fn record_scheduler_run(&mut self)
        ensures
            final(self)@ == (MetricsView {
                scheduler_runs: old(self)@.scheduler_runs.wrapping_add(1),
                ..old(self)@
            }),
    {
        proof {
            use_type_invariant(&*self);
        }
        self.scheduler_runs = self.scheduler_runs.wrapping_add(1);
    }

    /// Label, nanoseconds and calls for every kind of work that was done.
    pub fn snapshot(&self) -> (list: Vec<(&'static str, u64, u64)>)
        ensures
            rows(list@) == exercised(self@, Metric::COUNT as int),
    {
        proof {
            use_type_invariant(self);
        }
        let metrics = Metric::all();
        let mut list: Vec<(&'static str, u64, u64)> = Vec::new();
        let mut at: usize = 0;
        proof {
            assert(rows(list@) =~= exercised(self@, 0));
        }
        while at < Metric::COUNT
            invariant
                at <= Metric::COUNT,
                metrics@ == Metric::listed(),
                metrics@.len() == Metric::COUNT,
                self.nanos@.len() == Metric::COUNT,
                self.calls@.len() == Metric::COUNT,
                rows(list@) == exercised(self@, at as int),
            decreases Metric::COUNT - at,
        {
            let ghost before = rows(list@);
            if self.calls[at] > 0 {
                list.push((metrics[at].label(), self.nanos[at], self.calls[at]));
                proof {
                    assert(rows(list@) =~= before.push(
                        (metrics@[at as int].text(), self.nanos@[at as int], self.calls@[at as int]),
                    ));
                }
            }
            at += 1;
        }
        list
    }

    pub fn rounds(&self) -> (rounds: u64)
        ensures
            rounds == self@.rounds,
    {
        self.rounds
    }

    pub fn scheduler_runs(&self) -> (runs: u64)
        ensures
            runs == self@.scheduler_runs,
    {
        self.scheduler_runs
    }
}

} // verus!
