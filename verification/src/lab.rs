//! The laboratory: the evolutionary orchestrator. It keeps a population
//! of scored experiments, folds reported progress into them, prunes the
//! population by fitness, and breeds mutated children from surviving
//! snapshots. Running the worker tasks and the channel is the harness's
//! job; the laboratory only decides.
use vstd::prelude::*;

use crate::data::Data;
use crate::ext::{rng_below, rng_from_seed};
use crate::fixed::{bit_len, Probability, PROB_ONE};
use crate::rules::{human_rules_eq, ProbabilityTable, Weight};
use crate::sim::{snap_eq, spec_sim_of_snap, spec_snap_loads, Conclusion, Simulation, Snap};

verus! {

/// A worker reports progress every this many steps.
pub const UPDATE_FREQUENCY: usize = 64;

/// Capacity of the bounded report channel; a full channel blocks the
/// sending worker, which is the system's backpressure.
pub const CHANNEL_BOUND: usize = 200;

/// Laboratory settings.
pub struct Configuration {
    max_active: usize,
    max_in_flight: usize,
    size_power_min: usize,
    size_power_max: usize,
    probability_step: Probability,
    max_probability_weight: Weight,
}

impl Configuration {
    pub closed spec fn spec_max_active(self) -> usize {
        self.max_active
    }

    pub closed spec fn spec_max_in_flight(self) -> usize {
        self.max_in_flight
    }

    pub closed spec fn spec_size_power_min(self) -> usize {
        self.size_power_min
    }

    pub closed spec fn spec_size_power_max(self) -> usize {
        self.size_power_max
    }

    pub closed spec fn spec_probability_step(self) -> Probability {
        self.probability_step
    }

    pub closed spec fn spec_max_probability_weight(self) -> Weight {
        self.max_probability_weight
    }

    /// The size exponents keep mutated boards inside the grid bounds and
    /// divisible by four; the step and index bounds keep the mutation
    /// arithmetic meaningful.
    pub open spec fn wf(self) -> bool {
        &&& 2 <= self.spec_size_power_min()
        &&& self.spec_size_power_min() < self.spec_size_power_max()
        &&& self.spec_size_power_max() <= 15
        &&& self.spec_probability_step() <= PROB_ONE
        &&& self.spec_max_probability_weight() < 0xffff_ffffu32
    }

    pub fn new(
        max_active: usize,
        max_in_flight: usize,
        size_power_min: usize,
        size_power_max: usize,
        probability_step: Probability,
        max_probability_weight: Weight,
    ) -> (c: Configuration)
        requires
            2 <= size_power_min < size_power_max <= 15,
            probability_step <= PROB_ONE,
            max_probability_weight < 0xffff_ffffu32,
        ensures
            c.wf(),
            c.spec_max_active() == max_active,
            c.spec_max_in_flight() == max_in_flight,
            c.spec_size_power_min() == size_power_min,
            c.spec_size_power_max() == size_power_max,
            c.spec_probability_step() == probability_step,
            c.spec_max_probability_weight() == max_probability_weight,
    {
        Configuration {
            max_active,
            max_in_flight,
            size_power_min,
            size_power_max,
            probability_step,
            max_probability_weight,
        }
    }

    pub fn max_active(&self) -> (r: usize)
        ensures
            r == self.spec_max_active(),
    {
        self.max_active
    }

    pub fn max_in_flight(&self) -> (r: usize)
        ensures
            r == self.spec_max_in_flight(),
    {
        self.max_in_flight
    }
}

/// One tracked simulation run: its identity, snapshot, last reported
/// progress, terminal conclusion (absent while running) and fitness
/// (zero until scored).
pub struct Experiment {
    pub id: usize,
    pub snap: Snap,
    pub conclusion: Option<Conclusion>,
    pub steps: usize,
    pub fit: usize,
}

/// One message from a worker task: the experiment it speaks of, the step
/// it reached, and its conclusion if it finished.
pub struct TaskStatus {
    pub experiment_id: usize,
    pub step: usize,
    pub conclusion: Option<Conclusion>,
}

/// A snapshot worth persisting: a new best among the finished runs.
pub struct Artifact {
    pub id: usize,
    pub step: usize,
    pub snap: Snap,
}

/// A candidate handed back for dispatch: its id, the snapshot to
/// persist, and the simulation to run (absent when the snapshot was
/// rejected and the candidate discarded).
pub struct Spawned {
    pub id: usize,
    pub parent_id: usize,
    pub snap: Snap,
    pub sim: Option<Simulation>,
}

/// What `update` hands back to the harness.
pub struct UpdateOutcome {
    pub artifacts: Vec<Artifact>,
    pub spawned: Option<Spawned>,
}

/// Fitness of a conclusion reached at `step`: early ends score the bit
/// length of the step count (rewarding longevity), a full run scores
/// `100 - 60 * average` (rewarding low stable occupancy), and a crash
/// scores zero.
pub open spec fn spec_fitness(c: Conclusion, step: usize) -> int {
    match c {
        Conclusion::Extinct => bit_len(step as nat) as int,
        Conclusion::Saturate => bit_len(step as nat) as int,
        Conclusion::Done(stats, _) => {
            let d = 60 * stats.alive_ratio_average as int / PROB_ONE as int;
            if d > 100 {
                0
            } else {
                100 - d
            }
        },
        Conclusion::Crash => 0,
    }
}

/// Fitness is a ranking score, never above 100.
pub fn fitness(c: &Conclusion, step: usize) -> (r: usize)
    ensures
        r == spec_fitness(*c, step),
        r <= 100,
{
    match *c {
        Conclusion::Extinct => crate::fixed::bit_len_usize(step),
        Conclusion::Saturate => crate::fixed::bit_len_usize(step),
        Conclusion::Done(ref stats, _) => {
            let d: u64 = 60u64 * (stats.alive_ratio_average as u64) / (PROB_ONE as u64);
            if d > 100 {
                0
            } else {
                proof {
                    assert(60 * stats.alive_ratio_average as int / PROB_ONE as int == d as int);
                }
                100 - (d as usize)
            }
        },
        Conclusion::Crash => 0,
    }
}

/// The evolutionary orchestrator's state: the population, the id
/// counter, the settings, and its own random source (separate from every
/// simulation's).
pub struct Laboratory {
    config: Configuration,
    rng: rand::rngs::StdRng,
    experiments: Vec<Experiment>,
    next_id: usize,
}

impl Laboratory {
    pub closed spec fn spec_config(self) -> Configuration {
        self.config
    }

    pub closed spec fn spec_experiments(self) -> Seq<Experiment> {
        self.experiments@
    }

    pub closed spec fn spec_next_id(self) -> usize {
        self.next_id
    }

    /// Every stored fitness was produced by `fitness`, so it stays under
    /// its bound, and every stored snapshot keeps a kernel diagram inside
    /// the parser's size bounds.
    pub open spec fn wf(self) -> bool {
        &&& self.spec_config().wf()
        &&& forall|i: int|
            0 <= i < self.spec_experiments().len() ==> (#[trigger] self.spec_experiments()[i]).fit
                <= 100 && self.spec_experiments()[i].snap.spec_rules().input_wf()
    }

    pub fn new(config: Configuration, seed: u64) -> (lab: Laboratory)
        requires
            config.wf(),
        ensures
            lab.wf(),
            lab.spec_config() == config,
            lab.spec_experiments() =~= Seq::<Experiment>::empty(),
            lab.spec_next_id() == 0,
    {
        Laboratory { config, rng: rng_from_seed(seed), experiments: Vec::new(), next_id: 0 }
    }

    /// How many candidates have been numbered so far.
    pub fn iteration(&self) -> (r: usize)
        ensures
            r == self.spec_next_id(),
    {
        self.next_id
    }

    pub fn experiments(&self) -> (r: &Vec<Experiment>)
        ensures
            r@ == self.spec_experiments(),
    {
        &self.experiments
    }

    /// Number a candidate snapshot and try to load it. A snapshot that
    /// does not load is discarded without occupying a population slot
    /// (its id is still consumed); one that loads is registered and its
    /// simulation handed back for dispatch.
    pub fn add_experiment(&mut self, snap: Snap, parent_id: usize) -> (r: Spawned)
        requires
            old(self).wf(),
            snap.spec_rules().input_wf(),
        ensures
            final(self).wf(),
            final(self).spec_config() == old(self).spec_config(),
            final(self).spec_next_id() == if old(self).spec_next_id() as int + 1 <= usize::MAX {
                old(self).spec_next_id() as int + 1
            } else {
                usize::MAX as int
            },
            r.id == old(self).spec_next_id(),
            r.parent_id == parent_id,
            snap_eq(r.snap, snap),
            r.sim is Some <==> spec_snap_loads(snap),
            (r.sim matches Some(sim) ==> spec_sim_of_snap(snap, sim)),
            r.sim is Some ==> final(self).spec_experiments() == old(self).spec_experiments().push(
                Experiment {
                    id: old(self).spec_next_id(),
                    snap: snap,
                    conclusion: None,
                    steps: 0,
                    fit: 0,
                },
            ),
            r.sim is None ==> final(self).spec_experiments() == old(self).spec_experiments(),
    {
        let id = self.next_id;
        self.next_id = self.next_id.saturating_add(1);
        let snap_copy = snap.clone();
        match Simulation::new(&snap) {
            Ok(sim) => {
                self.experiments.push(
                    Experiment { id, snap, conclusion: None, steps: 0, fit: 0 },
                );
                Spawned { id, parent_id, snap: snap_copy, sim: Some(sim) }
            },
            Err(_) => Spawned { id, parent_id, snap: snap_copy, sim: None },
        }
    }
}

impl Laboratory {
    /// Largest fitness currently recorded.
    fn max_fit_of(&self) -> (m: usize)
        ensures
            m == spec_max_fit(self.spec_experiments(), self.spec_experiments().len() as int),
    {
        let n = self.experiments.len();
        let mut m: usize = 0;
        let mut k: usize = 0;
        while k < n
            invariant
                n == self.spec_experiments().len(),
                k <= n,
                m == spec_max_fit(self.spec_experiments(), k as int),
            decreases n - k,
        {
            if self.experiments[k].fit > m {
                m = self.experiments[k].fit;
            }
            k = k + 1;
        }
        m
    }

    /// Position of the first experiment with this id, if any.
    fn find_index(&self, id: usize) -> (r: Option<usize>)
        ensures
            match r {
                Some(i) => spec_find_by_id(self.spec_experiments(), id, 0) == Some(i as int) && i
                    < self.spec_experiments().len() && self.spec_experiments()[i as int].id == id,
                None => spec_find_by_id(self.spec_experiments(), id, 0) is None,
            },
    {
        let n = self.experiments.len();
        let mut k: usize = 0;
        while k < n
            invariant
                n == self.spec_experiments().len(),
                k <= n,
                spec_find_by_id(self.spec_experiments(), id, 0) == spec_find_by_id(
                    self.spec_experiments(),
                    id,
                    k as int,
                ),
            decreases n - k,
        {
            if self.experiments[k].id == id {
                return Some(k);
            }
            k = k + 1;
        }
        None
    }

    /// Route one status message into the population.
    fn apply_one(&mut self, st: TaskStatus) -> (art: Option<Artifact>)
        requires
            old(self).wf(),
        ensures
            final(self).wf(),
            final(self).spec_config() == old(self).spec_config(),
            final(self).spec_next_id() == old(self).spec_next_id(),
            final(self).spec_experiments() == spec_apply_one(old(self).spec_experiments(), st),
            art is Some <==> spec_one_artifact(old(self).spec_experiments(), st) is Some,
            (art matches Some(a) ==> {
                let t = spec_one_artifact(old(self).spec_experiments(), st)->Some_0;
                &&& a.id == t.0
                &&& a.step == t.1
                &&& snap_eq(a.snap, t.2)
            }),
    {
        let max_fit = self.max_fit_of();
        let i = match self.find_index(st.experiment_id) {
            Some(i) => i,
            None => {
                return None;
            },
        };
        if self.experiments[i].conclusion.is_some() {
            return None;
        }
        let e = self.experiments.remove(i);
        let fit: usize = match st.conclusion {
            Some(ref c) => fitness(c, st.step),
            None => e.fit,
        };
        let art: Option<Artifact> = match st.conclusion {
            Some(Conclusion::Done(_, ref sn)) => {
                if fit > max_fit {
                    Some(Artifact { id: st.experiment_id, step: st.step, snap: sn.clone() })
                } else {
                    None
                }
            },
            _ => None,
        };
        let updated = Experiment {
            id: e.id,
            snap: e.snap,
            conclusion: st.conclusion,
            steps: st.step,
            fit,
        };
        self.experiments.insert(i, updated);
        proof {
            assert(self.spec_experiments() =~= spec_apply_one(old(self).spec_experiments(), st));
        }
        art
    }

    /// Drain a batch of status messages in order, collecting the
    /// snapshots that set a new best fitness.
    fn apply_statuses(&mut self, statuses: Vec<TaskStatus>) -> (arts: Vec<Artifact>)
        requires
            old(self).wf(),
        ensures
            final(self).wf(),
            final(self).spec_config() == old(self).spec_config(),
            final(self).spec_next_id() == old(self).spec_next_id(),
            final(self).spec_experiments() == spec_applied(
                old(self).spec_experiments(),
                statuses@,
                statuses@.len() as int,
            ),
            ({
                let spec_arts = spec_artifacts(
                    old(self).spec_experiments(),
                    statuses@,
                    statuses@.len() as int,
                );
                &&& arts@.len() == spec_arts.len()
                &&& forall|k: int|
                    0 <= k < arts@.len() ==> (#[trigger] arts@[k]).id == spec_arts[k].0
                        && arts@[k].step == spec_arts[k].1 && snap_eq(arts@[k].snap, spec_arts[k].2)
            }),
    {
        let ghost sts = statuses@;
        let ghost orig = old(self).spec_experiments();
        let mut rest = statuses;
        let mut arts: Vec<Artifact> = Vec::new();
        while rest.len() > 0
            invariant
                self.wf(),
                self.spec_config() == old(self).spec_config(),
                self.spec_next_id() == old(self).spec_next_id(),
                rest@.len() <= sts.len(),
                rest@ == sts.subrange(sts.len() - rest@.len(), sts.len() as int),
                self.spec_experiments() == spec_applied(
                    orig,
                    sts,
                    sts.len() - rest@.len(),
                ),
                arts@.len() == spec_artifacts(orig, sts, sts.len() - rest@.len()).len(),
                forall|k: int|
                    0 <= k < arts@.len() ==> (#[trigger] arts@[k]).id == spec_artifacts(
                        orig,
                        sts,
                        sts.len() - rest@.len(),
                    )[k].0 && arts@[k].step == spec_artifacts(
                        orig,
                        sts,
                        sts.len() - rest@.len(),
                    )[k].1 && snap_eq(
                        arts@[k].snap,
                        spec_artifacts(orig, sts, sts.len() - rest@.len())[k].2,
                    ),
            decreases rest@.len(),
        {
            let ghost processed = sts.len() - rest@.len();
            let st = rest.remove(0);
            proof {
                assert(st == sts[processed]);
                assert(rest@ =~= sts.subrange(sts.len() - rest@.len(), sts.len() as int));
            }
            let art = self.apply_one(st);
            match art {
                Some(a) => {
                    arts.push(a);
                },
                None => {},
            }
            proof {
                let now = processed + 1;
                assert(spec_applied(orig, sts, now) == spec_apply_one(
                    spec_applied(orig, sts, processed),
                    sts[processed],
                ));
            }
        }
        proof {
            assert(sts.len() - rest@.len() == sts.len());
        }
        arts
    }
}

/// Largest fitness among the first `k` experiments (0 for none).
pub open spec fn spec_max_fit(exps: Seq<Experiment>, k: int) -> int
    decreases k,
{
    if k <= 0 {
        0
    } else {
        let m = spec_max_fit(exps, k - 1);
        if exps[k - 1].fit > m {
            exps[k - 1].fit as int
        } else {
            m
        }
    }
}

/// First experiment carrying `id`, searched from position `k` on.
pub open spec fn spec_find_by_id(exps: Seq<Experiment>, id: usize, k: int) -> Option<int>
    decreases exps.len() - k,
{
    if k < 0 || k >= exps.len() {
        None
    } else if exps[k].id == id {
        Some(k)
    } else {
        spec_find_by_id(exps, id, k + 1)
    }
}

/// Route one status message: the first experiment with the reported id,
/// if it is still running, takes the reported step and, on a terminal
/// message, its conclusion and fitness. A message for a retired or
/// unknown id changes nothing.
pub open spec fn spec_apply_one(exps: Seq<Experiment>, st: TaskStatus) -> Seq<Experiment> {
    match spec_find_by_id(exps, st.experiment_id, 0) {
        None => exps,
        Some(i) => if exps[i].conclusion is Some {
            exps
        } else {
            exps.update(
                i,
                Experiment {
                    id: exps[i].id,
                    snap: exps[i].snap,
                    conclusion: st.conclusion,
                    steps: st.step,
                    fit: match st.conclusion {
                        Some(c) => spec_fitness(c, st.step) as usize,
                        None => exps[i].fit,
                    },
                },
            )
        },
    }
}

/// The population after routing the first `k` messages in order.
pub open spec fn spec_applied(exps: Seq<Experiment>, sts: Seq<TaskStatus>, k: int) -> Seq<
    Experiment,
>
    decreases k,
{
    if k <= 0 {
        exps
    } else {
        spec_apply_one(spec_applied(exps, sts, k - 1), sts[k - 1])
    }
}

/// The snapshot one message persists, if any: a `Done` conclusion for a
/// running experiment whose fitness beats every fitness seen so far.
pub open spec fn spec_one_artifact(exps: Seq<Experiment>, st: TaskStatus) -> Option<
    (usize, usize, Snap),
> {
    match spec_find_by_id(exps, st.experiment_id, 0) {
        None => None,
        Some(i) => if exps[i].conclusion is Some {
            None
        } else {
            match st.conclusion {
                Some(c) => match c {
                    Conclusion::Done(_, sn) => if spec_fitness(c, st.step) > spec_max_fit(
                        exps,
                        exps.len() as int,
                    ) {
                        Some((st.experiment_id, st.step, sn))
                    } else {
                        None
                    },
                    _ => None,
                },
                None => None,
            }
        },
    }
}

/// The snapshots that routing the first `k` messages persists, in order.
pub open spec fn spec_artifacts(exps: Seq<Experiment>, sts: Seq<TaskStatus>, k: int) -> Seq<
    (usize, usize, Snap),
>
    decreases k,
{
    if k <= 0 {
        Seq::empty()
    } else {
        let prev = spec_artifacts(exps, sts, k - 1);
        match spec_one_artifact(spec_applied(exps, sts, k - 1), sts[k - 1]) {
            Some(a) => prev.push(a),
            None => prev,
        }
    }
}

/// Fitnesses are ordered non-increasingly.
pub open spec fn sorted_desc(s: Seq<Experiment>) -> bool {
    forall|i: int, j: int| 0 <= i <= j < s.len() ==> (#[trigger] s[i]).fit >= (#[trigger] s[j]).fit
}

/// Stable descending insertion: `e` goes in front of the first
/// strictly-smaller fitness.
pub open spec fn spec_insert_desc(s: Seq<Experiment>, e: Experiment) -> Seq<Experiment>
    decreases s.len(),
{
    if s.len() == 0 {
        seq![e]
    } else if s[0].fit < e.fit {
        seq![e] + s
    } else {
        seq![s[0]] + spec_insert_desc(s.drop_first(), e)
    }
}

/// Stable descending insertion sort of the first `k` experiments.
pub open spec fn spec_sorted(s: Seq<Experiment>, k: int) -> Seq<Experiment>
    decreases k,
{
    if k <= 0 {
        Seq::empty()
    } else {
        spec_insert_desc(spec_sorted(s, k - 1), s[k - 1])
    }
}

/// The retention cutoff: the fitness of the experiment ranked at
/// `max_active`, or 0 when the population is smaller.
pub open spec fn spec_cutoff(sorted: Seq<Experiment>, max_active: usize) -> int {
    if max_active < sorted.len() {
        sorted[max_active as int].fit as int
    } else {
        0
    }
}

/// An experiment survives pruning if it is still running, beats the
/// cutoff strictly, or is the best-ranked one.
pub open spec fn spec_keep_exp(e: Experiment, cutoff: int, best_id: usize) -> bool {
    ||| e.conclusion is None
    ||| e.fit > cutoff
    ||| e.id == best_id
}

/// The first `k` sorted experiments that survive pruning, in order.
pub open spec fn spec_retained(s: Seq<Experiment>, cutoff: int, best_id: usize, k: int) -> Seq<
    Experiment,
>
    decreases k,
{
    if k <= 0 {
        Seq::empty()
    } else {
        let prev = spec_retained(s, cutoff, best_id, k - 1);
        if spec_keep_exp(s[k - 1], cutoff, best_id) {
            prev.push(s[k - 1])
        } else {
            prev
        }
    }
}

/// Prepending one experiment adds exactly it to a sequence's multiset.
proof fn lemma_cons_to_multiset(x: Experiment, s: Seq<Experiment>)
    ensures
        (seq![x] + s).to_multiset() =~= s.to_multiset().insert(x),
    decreases s.len(),
{
    broadcast use vstd::seq_lib::group_to_multiset_ensures;

    if s.len() == 0 {
        assert(seq![x] + s =~= Seq::<Experiment>::empty().push(x));
        assert(s =~= Seq::<Experiment>::empty());
        assert((Seq::<Experiment>::empty().push(x)).to_multiset()
            =~= Seq::<Experiment>::empty().to_multiset().insert(x));
    } else {
        let t = s.drop_last();
        lemma_cons_to_multiset(x, t);
        assert(seq![x] + s =~= (seq![x] + t).push(s.last()));
        assert(s =~= t.push(s.last()));
        assert(((seq![x] + t).push(s.last())).to_multiset() =~= (seq![x]
            + t).to_multiset().insert(s.last()));
        assert((t.push(s.last())).to_multiset() =~= t.to_multiset().insert(s.last()));
        assert(t.to_multiset().insert(x).insert(s.last()) =~= t.to_multiset().insert(
            s.last(),
        ).insert(x));
    }
}

/// Descending insertion permutes: it adds exactly the inserted
/// experiment to the sequence's multiset.
pub proof fn lemma_insert_desc_multiset(s: Seq<Experiment>, e: Experiment)
    ensures
        spec_insert_desc(s, e).to_multiset() =~= s.to_multiset().insert(e),
    decreases s.len(),
{
    broadcast use vstd::seq_lib::group_to_multiset_ensures;

    let ins = spec_insert_desc(s, e);
    if s.len() == 0 {
        assert(ins =~= Seq::<Experiment>::empty().push(e));
        assert(s =~= Seq::<Experiment>::empty());
        assert((Seq::<Experiment>::empty().push(e)).to_multiset()
            =~= Seq::<Experiment>::empty().to_multiset().insert(e));
    } else if s[0].fit < e.fit {
        lemma_cons_to_multiset(e, s);
        assert(ins == seq![e] + s);
    } else {
        let rest = s.drop_first();
        lemma_insert_desc_multiset(rest, e);
        let insr = spec_insert_desc(rest, e);
        assert(ins == seq![s[0]] + insr);
        lemma_cons_to_multiset(s[0], insr);
        lemma_cons_to_multiset(s[0], rest);
        assert(s =~= seq![s[0]] + rest);
        assert(rest.to_multiset().insert(e).insert(s[0]) =~= rest.to_multiset().insert(
            s[0],
        ).insert(e));
    }
}

/// Descending insertion keeps the order sorted and grows the length by
/// one.
#[verifier::rlimit(100)]
#[verifier::spinoff_prover]
pub proof fn lemma_insert_desc_sorted(s: Seq<Experiment>, e: Experiment)
    requires
        sorted_desc(s),
    ensures
        sorted_desc(spec_insert_desc(s, e)),
        spec_insert_desc(s, e).len() == s.len() + 1,
    decreases s.len(),
{
    let ins = spec_insert_desc(s, e);
    if s.len() == 0 {
        assert(ins == seq![e]);
    } else if s[0].fit < e.fit {
        assert(ins == seq![e] + s);
        assert forall|i: int, j: int| 0 <= i <= j < ins.len() implies (#[trigger] ins[i]).fit
            >= (#[trigger] ins[j]).fit by {
            if i > 0 {
                assert(ins[i] == s[i - 1] && ins[j] == s[j - 1]);
            } else if j > 0 {
                assert(ins[j] == s[j - 1]);
                assert(s[0].fit >= s[j - 1].fit);
            }
        }
    } else {
        let rest = s.drop_first();
        assert(sorted_desc(rest)) by {
            assert forall|i: int, j: int| 0 <= i <= j < rest.len() implies (
            #[trigger] rest[i]).fit >= (#[trigger] rest[j]).fit by {
                assert(rest[i] == s[i + 1] && rest[j] == s[j + 1]);
            }
        }
        lemma_insert_desc_sorted(rest, e);
        let insr = spec_insert_desc(rest, e);
        assert(ins == seq![s[0]] + insr);
        // the head of the inserted tail is either `e` or the old second
        // element, so the old head still dominates everything after it
        assert(insr[0] == e || insr[0] == rest[0]) by {
            if rest.len() == 0 {
                assert(insr == seq![e]);
            } else if rest[0].fit < e.fit {
                assert(insr == seq![e] + rest);
            } else {
                assert(insr == seq![rest[0]] + spec_insert_desc(rest.drop_first(), e));
            }
        }
        assert(s[0].fit >= insr[0].fit) by {
            if rest.len() == 0 {
                assert(insr == seq![e]);
                assert(insr[0] == e);
            } else if insr[0] != e {
                assert(insr[0] == rest[0]);
                assert(rest[0] == s[1]);
                assert(s[0].fit >= s[1].fit);
            }
        }
        assert forall|i: int, j: int| 0 <= i <= j < ins.len() implies (#[trigger] ins[i]).fit
            >= (#[trigger] ins[j]).fit by {
            if i > 0 {
                assert(ins[i] == insr[i - 1] && ins[j] == insr[j - 1]);
                assert(insr[i - 1].fit >= insr[j - 1].fit);
            } else if j > 0 {
                assert(ins[j] == insr[j - 1]);
                assert(insr[0].fit >= insr[j - 1].fit);
            }
        }
    }
}

/// Insertion sort of a prefix: sorted, same length, and the same
/// elements (as a multiset).
#[verifier::rlimit(100)]
pub proof fn lemma_sorted_props(s: Seq<Experiment>, k: int)
    requires
        0 <= k <= s.len(),
    ensures
        sorted_desc(spec_sorted(s, k)),
        spec_sorted(s, k).len() == k,
        spec_sorted(s, k).to_multiset() =~= s.subrange(0, k).to_multiset(),
    decreases k,
{
    broadcast use vstd::seq_lib::group_to_multiset_ensures;

    if k > 0 {
        lemma_sorted_props(s, k - 1);
        let prev = spec_sorted(s, k - 1);
        lemma_insert_desc_sorted(prev, s[k - 1]);
        lemma_insert_desc_multiset(prev, s[k - 1]);
        assert(s.subrange(0, k) =~= s.subrange(0, k - 1).push(s[k - 1]));
        assert((s.subrange(0, k - 1).push(s[k - 1])).to_multiset() =~= s.subrange(
            0,
            k - 1,
        ).to_multiset().insert(s[k - 1]));
    } else {
        assert(spec_sorted(s, k) == Seq::<Experiment>::empty());
        assert(s.subrange(0, 0) =~= Seq::<Experiment>::empty());
    }
}

/// Pruning keeps exactly the surviving prefix elements, every survivor
/// comes from the sorted sequence, and every sorted element that
/// satisfies the retention condition survives.
pub proof fn lemma_retained_props(s: Seq<Experiment>, cutoff: int, best_id: usize, k: int)
    requires
        0 <= k <= s.len(),
    ensures
        forall|j: int|
            0 <= j < k && spec_keep_exp(#[trigger] s[j], cutoff, best_id) ==> exists|j2: int|
                0 <= j2 < spec_retained(s, cutoff, best_id, k).len() && spec_retained(
                    s,
                    cutoff,
                    best_id,
                    k,
                )[j2] == s[j],
        forall|j2: int|
            0 <= j2 < spec_retained(s, cutoff, best_id, k).len() ==> spec_keep_exp(
                #[trigger] spec_retained(s, cutoff, best_id, k)[j2],
                cutoff,
                best_id,
            ),
        spec_retained(s, cutoff, best_id, k).len() <= k,
    decreases k,
{
    if k > 0 {
        lemma_retained_props(s, cutoff, best_id, k - 1);
        let prev = spec_retained(s, cutoff, best_id, k - 1);
        let cur = spec_retained(s, cutoff, best_id, k);
        assert forall|j: int|
            0 <= j < k && spec_keep_exp(#[trigger] s[j], cutoff, best_id) implies exists|j2: int|
            0 <= j2 < cur.len() && cur[j2] == s[j] by {
            if j == k - 1 {
                assert(cur[cur.len() - 1] == s[k - 1]);
            } else {
                let j2 = choose|j2: int| 0 <= j2 < prev.len() && prev[j2] == s[j];
                assert(cur[j2] == s[j]);
            }
        }
        assert forall|j2: int|
            0 <= j2 < spec_retained(s, cutoff, best_id, k).len() implies spec_keep_exp(
            #[trigger] spec_retained(s, cutoff, best_id, k)[j2],
            cutoff,
            best_id,
        ) by {
            if !(spec_keep_exp(s[k - 1], cutoff, best_id) && j2 == spec_retained(
                s,
                cutoff,
                best_id,
                k,
            ).len() - 1) {
                assert(spec_retained(s, cutoff, best_id, k)[j2] == spec_retained(
                    s,
                    cutoff,
                    best_id,
                    k - 1,
                )[j2]);
            }
        }
    }
}

/// Inserting in front of the first strictly-smaller fitness is what the
/// recursive insertion does.
pub proof fn lemma_insert_desc_at(s: Seq<Experiment>, e: Experiment, j: int)
    requires
        0 <= j <= s.len(),
        forall|i: int| 0 <= i < j ==> (#[trigger] s[i]).fit >= e.fit,
        j == s.len() || s[j].fit < e.fit,
    ensures
        spec_insert_desc(s, e) =~= s.subrange(0, j) + seq![e] + s.subrange(j, s.len() as int),
    decreases s.len(),
{
    if s.len() == 0 {
    } else if s[0].fit < e.fit {
        assert(j == 0);
    } else {
        assert(j >= 1);
        let rest = s.drop_first();
        assert forall|i: int| 0 <= i < j - 1 implies (#[trigger] rest[i]).fit >= e.fit by {
            assert(rest[i] == s[i + 1]);
        }
        assert(j - 1 == rest.len() || rest[j - 1].fit < e.fit);
        lemma_insert_desc_at(rest, e, j - 1);
        assert(spec_insert_desc(s, e) =~= s.subrange(0, j) + seq![e] + s.subrange(
            j,
            s.len() as int,
        ));
    }
}

impl Laboratory {
    /// Sort the population by fitness, descending and stable, then keep
    /// the runs that are still going, those strictly above the cutoff
    /// (the fitness ranked at `max_active`), and the best-ranked one.
    /// The best-known candidate is never lost, and no running experiment
    /// is ever dropped.
    #[verifier::rlimit(100)]
    fn prune(&mut self)
        requires
            old(self).wf(),
        ensures
            final(self).wf(),
            final(self).spec_config() == old(self).spec_config(),
            final(self).spec_next_id() == old(self).spec_next_id(),
            ({
                let orig = old(self).spec_experiments();
                let sorted = spec_sorted(orig, orig.len() as int);
                let cutoff = spec_cutoff(sorted, old(self).spec_config().spec_max_active());
                let best_id = if sorted.len() > 0 {
                    sorted[0].id
                } else {
                    0
                };
                final(self).spec_experiments() == spec_retained(
                    sorted,
                    cutoff,
                    best_id,
                    sorted.len() as int,
                )
            }),
            forall|i: int|
                0 <= i < old(self).spec_experiments().len()
                    && (#[trigger] old(self).spec_experiments()[i]).conclusion is None
                    ==> exists|j: int|
                    0 <= j < final(self).spec_experiments().len()
                        && final(self).spec_experiments()[j] == old(self).spec_experiments()[i],
            old(self).spec_experiments().len() > 0 ==> final(self).spec_experiments().len() > 0
                && exists|j: int|
                0 <= j < final(self).spec_experiments().len() && (forall|i: int|
                    0 <= i < old(self).spec_experiments().len()
                        ==> (#[trigger] final(self).spec_experiments()[j]).fit >= old(
                        self,
                    ).spec_experiments()[i].fit),
    {
        let ghost orig = self.experiments@;
        let sorted_vec = self.sort_population();
        let ghost sorted = sorted_vec@;
        let ghost best_id: usize = if sorted.len() > 0 {
            sorted[0].id
        } else {
            0
        };
        self.retain_population(sorted_vec);
        proof {
            lemma_prune_laws(
                orig,
                sorted,
                spec_cutoff(sorted, old(self).spec_config().spec_max_active()),
                best_id,
                self.spec_experiments(),
            );
        }
    }

    /// Move the population out into a vector sorted by fitness,
    /// descending and stable.
    #[verifier::rlimit(100)]
    fn sort_population(&mut self) -> (sorted_vec: Vec<Experiment>)
        requires
            old(self).wf(),
        ensures
            final(self).spec_config() == old(self).spec_config(),
            final(self).spec_next_id() == old(self).spec_next_id(),
            final(self).spec_experiments() == Seq::<Experiment>::empty(),
            sorted_vec@ == spec_sorted(
                old(self).spec_experiments(),
                old(self).spec_experiments().len() as int,
            ),
            sorted_desc(sorted_vec@),
    {
        let ghost orig = self.experiments@;
        let mut sorted_vec: Vec<Experiment> = Vec::new();
        proof {
            assert(self.experiments@ =~= orig.subrange(0, orig.len() as int));
        }
        while self.experiments.len() > 0
            invariant
                self.spec_config() == old(self).spec_config(),
                self.spec_next_id() == old(self).spec_next_id(),
                orig == old(self).spec_experiments(),
                self.spec_experiments().len() <= orig.len(),
                self.spec_experiments() == orig.subrange(
                    orig.len() - self.spec_experiments().len(),
                    orig.len() as int,
                ),
                sorted_vec@ == spec_sorted(orig, orig.len() - self.spec_experiments().len()),
                sorted_desc(sorted_vec@),
            decreases self.spec_experiments().len(),
        {
            let ghost processed = orig.len() - self.spec_experiments().len();
            let e = self.experiments.remove(0);
            proof {
                assert(e == orig[processed]);
                assert(self.spec_experiments() =~= orig.subrange(
                    orig.len() - self.spec_experiments().len(),
                    orig.len() as int,
                ));
                lemma_insert_desc_sorted(spec_sorted(orig, processed), orig[processed]);
            }
            Self::insert_sorted(&mut sorted_vec, e);
        }
        proof {
            assert(self.spec_experiments() =~= Seq::<Experiment>::empty());
        }
        sorted_vec
    }

    /// Refill the (emptied) population with the sorted experiments that
    /// survive the retention policy.
    #[verifier::rlimit(100)]
    fn retain_population(&mut self, sorted_vec: Vec<Experiment>)
        requires
            old(self).spec_experiments() == Seq::<Experiment>::empty(),
            old(self).spec_config().wf(),
        ensures
            final(self).spec_config() == old(self).spec_config(),
            final(self).spec_next_id() == old(self).spec_next_id(),
            final(self).spec_experiments() == spec_retained(
                sorted_vec@,
                spec_cutoff(sorted_vec@, old(self).spec_config().spec_max_active()),
                if sorted_vec@.len() > 0 {
                    sorted_vec@[0].id
                } else {
                    0
                },
                sorted_vec@.len() as int,
            ),
    {
        let ghost sorted = sorted_vec@;
        let cutoff: usize = if self.config.max_active < sorted_vec.len() {
            sorted_vec[self.config.max_active].fit
        } else {
            0
        };
        let best_id: usize = if sorted_vec.len() > 0 {
            sorted_vec[0].id
        } else {
            0
        };
        let mut rest = sorted_vec;
        proof {
            assert(rest@ =~= sorted.subrange(0, sorted.len() as int));
        }
        while rest.len() > 0
            invariant
                self.spec_config() == old(self).spec_config(),
                self.spec_next_id() == old(self).spec_next_id(),
                cutoff == spec_cutoff(sorted, self.spec_config().spec_max_active()),
                best_id == if sorted.len() > 0 {
                    sorted[0].id
                } else {
                    0
                },
                rest@.len() <= sorted.len(),
                rest@ == sorted.subrange(sorted.len() - rest@.len(), sorted.len() as int),
                self.spec_experiments() == spec_retained(
                    sorted,
                    cutoff as int,
                    best_id,
                    sorted.len() - rest@.len(),
                ),
            decreases rest@.len(),
        {
            let ghost processed = sorted.len() - rest@.len();
            let e = rest.remove(0);
            proof {
                assert(e == sorted[processed]);
                assert(rest@ =~= sorted.subrange(sorted.len() - rest@.len(), sorted.len() as int));
            }
            let keep = e.conclusion.is_none() || e.fit > cutoff || e.id == best_id;
            if keep {
                self.experiments.push(e);
            }
        }
        proof {
            assert(sorted.len() - 0 == sorted.len());
        }
    }

    /// Insert one experiment in front of the first strictly-smaller
    /// fitness, keeping the order sorted and stable.
    #[verifier::rlimit(100)]
    fn insert_sorted(v: &mut Vec<Experiment>, e: Experiment)
        requires
            sorted_desc(old(v)@),
        ensures
            final(v)@ == spec_insert_desc(old(v)@, e),
            sorted_desc(final(v)@),
    {
        let n = v.len();
        let mut j: usize = 0;
        while j < n && v[j].fit >= e.fit
            invariant
                n == v@.len(),
                j <= n,
                forall|i: int| 0 <= i < j ==> (#[trigger] v@[i]).fit >= e.fit,
            decreases n - j,
        {
            j = j + 1;
        }
        proof {
            lemma_insert_desc_at(v@, e, j as int);
        }
        v.insert(j, e);
        proof {
            assert(v@ =~= old(v)@.subrange(0, j as int) + seq![e] + old(v)@.subrange(
                j as int,
                old(v)@.len() as int,
            ));
            assert forall|a: int, b: int| 0 <= a <= b < v@.len() implies (#[trigger] v@[a]).fit
                >= (#[trigger] v@[b]).fit by {
                let ji = j as int;
                if a < ji {
                    assert(v@[a] == old(v)@[a]);
                } else if a == ji {
                    assert(v@[a] == e);
                } else {
                    assert(v@[a] == old(v)@[a - 1]);
                }
                if b < ji {
                    assert(v@[b] == old(v)@[b]);
                } else if b == ji {
                    assert(v@[b] == e);
                } else {
                    assert(v@[b] == old(v)@[b - 1]);
                    if a <= ji && ji < old(v)@.len() {
                        assert(old(v)@[ji].fit >= old(v)@[b - 1].fit);
                    }
                }
            }
        }
    }
}

/// What sorting and pruning together guarantee: bounded fitnesses stay
/// bounded, every still-running experiment survives, and some survivor
/// has a fitness at least every original one (the best-known candidate
/// never regresses).
#[verifier::rlimit(100)]
proof fn lemma_prune_laws(
    orig: Seq<Experiment>,
    sorted: Seq<Experiment>,
    cutoff: int,
    best_id: usize,
    ret: Seq<Experiment>,
)
    requires
        sorted == spec_sorted(orig, orig.len() as int),
        ret == spec_retained(sorted, cutoff, best_id, sorted.len() as int),
        sorted.len() > 0 ==> best_id == sorted[0].id,
        forall|i: int|
            0 <= i < orig.len() ==> (#[trigger] orig[i]).fit <= 100
                && orig[i].snap.spec_rules().input_wf(),
    ensures
        forall|j: int|
            0 <= j < ret.len() ==> (#[trigger] ret[j]).fit <= 100
                && ret[j].snap.spec_rules().input_wf(),
        forall|i: int|
            0 <= i < orig.len() && (#[trigger] orig[i]).conclusion is None ==> exists|j: int|
                0 <= j < ret.len() && ret[j] == orig[i],
        orig.len() > 0 ==> ret.len() > 0 && exists|j: int|
            0 <= j < ret.len() && (forall|i: int|
                0 <= i < orig.len() ==> (#[trigger] ret[j]).fit >= orig[i].fit),
{
    broadcast use vstd::seq_lib::group_to_multiset_ensures;

    lemma_sorted_props(orig, orig.len() as int);
    assert(orig.subrange(0, orig.len() as int) =~= orig);
    assert(sorted.to_multiset() == orig.to_multiset());
    // the sorted sequence and the original hold the same experiments
    assert forall|i: int| 0 <= i < sorted.len() implies orig.contains(#[trigger] sorted[i]) by {
        assert(sorted.contains(sorted[i]));
        assert(sorted.to_multiset().count(sorted[i]) > 0);
    }
    assert forall|i: int| 0 <= i < orig.len() implies sorted.contains(#[trigger] orig[i]) by {
        assert(orig.contains(orig[i]));
        assert(orig.to_multiset().count(orig[i]) > 0);
    }
    assert forall|i: int| 0 <= i < sorted.len() implies (#[trigger] sorted[i]).fit <= 100
        && sorted[i].snap.spec_rules().input_wf() by {
        let i0 = choose|i0: int| 0 <= i0 < orig.len() && orig[i0] == sorted[i];
    }
    lemma_retained_props(sorted, cutoff, best_id, sorted.len() as int);
    lemma_retained_fit_bound(sorted, cutoff, best_id, sorted.len() as int);
    assert forall|i: int|
        0 <= i < orig.len() && (#[trigger] orig[i]).conclusion is None implies exists|j: int|
        0 <= j < ret.len() && ret[j] == orig[i] by {
        let js = choose|js: int| 0 <= js < sorted.len() && sorted[js] == orig[i];
        assert(spec_keep_exp(sorted[js], cutoff, best_id));
        let j2 = choose|j2: int| 0 <= j2 < ret.len() && ret[j2] == sorted[js];
    }
    if orig.len() > 0 {
        assert(spec_keep_exp(sorted[0], cutoff, best_id));
        let j2 = choose|j2: int| 0 <= j2 < ret.len() && ret[j2] == sorted[0];
        assert forall|i: int| 0 <= i < orig.len() implies (#[trigger] ret[j2]).fit
            >= orig[i].fit by {
            let js = choose|js: int| 0 <= js < sorted.len() && sorted[js] == orig[i];
            assert(sorted[0].fit >= sorted[js].fit);
        }
    }
}

/// Bounded fitnesses and well-formed snapshots stay so through pruning.
pub proof fn lemma_retained_fit_bound(s: Seq<Experiment>, cutoff: int, best_id: usize, k: int)
    requires
        0 <= k <= s.len(),
        forall|i: int|
            0 <= i < s.len() ==> (#[trigger] s[i]).fit <= 100
                && s[i].snap.spec_rules().input_wf(),
    ensures
        forall|j2: int|
            0 <= j2 < spec_retained(s, cutoff, best_id, k).len() ==> (#[trigger] spec_retained(
                s,
                cutoff,
                best_id,
                k,
            )[j2]).fit <= 100 && spec_retained(s, cutoff, best_id, k)[j2].snap.spec_rules().input_wf(),
    decreases k,
{
    if k > 0 {
        lemma_retained_fit_bound(s, cutoff, best_id, k - 1);
        assert forall|j2: int|
            0 <= j2 < spec_retained(s, cutoff, best_id, k).len() implies (#[trigger] spec_retained(
            s,
            cutoff,
            best_id,
            k,
        )[j2]).fit <= 100 && spec_retained(s, cutoff, best_id, k)[j2].snap.spec_rules().input_wf()
            by {
            if !(spec_keep_exp(s[k - 1], cutoff, best_id) && j2 == spec_retained(
                s,
                cutoff,
                best_id,
                k,
            ).len() - 1) {
                assert(spec_retained(s, cutoff, best_id, k)[j2] == spec_retained(
                    s,
                    cutoff,
                    best_id,
                    k - 1,
                )[j2]);
            }
        }
    }
}

/// First table entry with this key, searched from position `k` on.
pub open spec fn spec_find_key(t: Seq<(Weight, Probability)>, key: Weight, k: int) -> Option<int>
    decreases t.len() - k,
{
    if k < 0 || k >= t.len() {
        None
    } else if t[k].0 == key {
        Some(k)
    } else {
        spec_find_key(t, key, k + 1)
    }
}

/// Perturb a probability by one step: move right when stepping left
/// would leave `[0, 1]`, left when stepping right would, and by the
/// given pick otherwise (saturating at the integer bound).
pub open spec fn spec_perturbed(value: Probability, pick_right: bool, step: Probability) -> Probability {
    let left = value - step;
    let right = value + step;
    let chosen: int = if left < 0 {
        right
    } else if right > PROB_ONE {
        left
    } else if pick_right {
        right
    } else {
        left
    };
    if chosen > u32::MAX {
        u32::MAX as Probability
    } else {
        chosen as Probability
    }
}

/// The table with the entry keyed `index` perturbed (an absent entry
/// first appears as zero).
pub open spec fn spec_mutated_table(
    t: Seq<(Weight, Probability)>,
    index: Weight,
    pick_right: bool,
    step: Probability,
) -> Seq<(Weight, Probability)> {
    match spec_find_key(t, index, 0) {
        Some(i) => t.update(i, (index, spec_perturbed(t[i].1, pick_right, step))),
        None => t.push((index, spec_perturbed(0, pick_right, step))),
    }
}

/// Number of digit characters among the first `k` of the line.
pub open spec fn spec_digit_count(line: Seq<char>, k: int) -> int
    decreases k,
{
    if k <= 0 {
        0
    } else {
        spec_digit_count(line, k - 1) + if crate::rules::is_digit_char(line[k - 1]) {
            1int
        } else {
            0int
        }
    }
}

/// A kernel digit moved one step: weight 0 can only grow and weight 5
/// only shrink (the usual table is sized for scores up to 5); any other
/// digit moves in the picked direction.
pub open spec fn spec_bumped_digit(c: char, pick_up: bool) -> char {
    if c == '0' {
        '1'
    } else if c == '5' {
        '4'
    } else if pick_up {
        ((c as u8) + 1) as char
    } else {
        ((c as u8) - 1) as char
    }
}

/// Sum of the fitnesses of the first `k` experiments.
pub open spec fn spec_fit_prefix(exps: Seq<Experiment>, k: int) -> int
    decreases k,
{
    if k <= 0 {
        0
    } else {
        spec_fit_prefix(exps, k - 1) + exps[k - 1].fit
    }
}

/// The kernel diagrams hold the same lines.
pub open spec fn kernel_lines_eq(a: Seq<String>, b: Seq<String>) -> bool {
    &&& a.len() == b.len()
    &&& forall|i: int| 0 <= i < a.len() ==> (#[trigger] a[i])@ == b[i]@
}

/// One perturbation step over fixed-point probabilities.
fn perturb(value: Probability, pick_right: bool, step: Probability) -> (r: Probability)
    ensures
        r == spec_perturbed(value, pick_right, step),
{
    let left: i64 = (value as i64) - (step as i64);
    let right: u64 = (value as u64) + (step as u64);
    let chosen: u64 = if left < 0 {
        right
    } else if right > PROB_ONE as u64 {
        left as u64
    } else if pick_right {
        right
    } else {
        left as u64
    };
    if chosen > u32::MAX as u64 {
        u32::MAX
    } else {
        chosen as u32
    }
}

/// Perturb one entry of a probability table (the entry first appears as
/// zero if the key is new).
pub fn mutate_probabilities(
    table: &mut ProbabilityTable,
    index: Weight,
    pick_right: bool,
    step: Probability,
)
    ensures
        final(table)@ == spec_mutated_table(old(table)@, index, pick_right, step),
{
    let n = table.len();
    let mut k: usize = 0;
    while k < n
        invariant
            n == table@.len(),
            k <= n,
            table@ == old(table)@,
            spec_find_key(table@, index, 0) == spec_find_key(table@, index, k as int),
        decreases n - k,
    {
        if table[k].0 == index {
            let value = table[k].1;
            let newval = perturb(value, pick_right, step);
            table.set(k, (index, newval));
            return;
        }
        k = k + 1;
    }
    table.push((index, perturb(0, pick_right, step)));
}

/// Count the digit characters of one line.
fn count_digits(line: &String) -> (cnt: usize)
    ensures
        cnt == spec_digit_count(line@, line@.len() as int),
{
    let len = line.as_str().unicode_len();
    let mut j: usize = 0;
    let mut cnt: usize = 0;
    while j < len
        invariant
            j <= len,
            len == line@.len(),
            cnt == spec_digit_count(line@, j as int),
            cnt <= j,
        decreases len - j,
    {
        let c = line.as_str().get_char(j);
        let code = c as u32;
        if code >= 48 && code <= 57 {
            cnt = cnt + 1;
        }
        j = j + 1;
    }
    cnt
}

/// Position of the digit numbered `cand` (in reading order) in the line.
fn nth_digit_pos(line: &String, cand: usize) -> (p: usize)
    requires
        cand < spec_digit_count(line@, line@.len() as int),
    ensures
        p < line@.len(),
        crate::rules::is_digit_char(line@[p as int]),
        spec_digit_count(line@, p as int) == cand,
{
    let len = line.as_str().unicode_len();
    let mut j: usize = 0;
    let mut cnt: usize = 0;
    while j < len
        invariant
            j <= len,
            len == line@.len(),
            cnt == spec_digit_count(line@, j as int),
            cnt <= cand,
            cand < spec_digit_count(line@, len as int),
        decreases len - j,
    {
        let c = line.as_str().get_char(j);
        let code = c as u32;
        if code >= 48 && code <= 57 {
            if cnt == cand {
                return j;
            }
            cnt = cnt + 1;
        }
        j = j + 1;
    }
    proof {
        assert(false);
    }
    0
}

/// Move one kernel digit (the `cand`-th in its row) one step up or
/// down, with weight 0 forced up and weight 5 forced down.
pub fn mutate_kernel_digit(kernel: &mut Vec<String>, row: usize, cand: usize, pick_up: bool)
    requires
        row < old(kernel)@.len(),
        cand < spec_digit_count(old(kernel)@[row as int]@, old(kernel)@[row as int]@.len() as int),
    ensures
        final(kernel)@.len() == old(kernel)@.len(),
        forall|r: int|
            0 <= r < old(kernel)@.len() && r != row ==> (#[trigger] final(kernel)@[r])@
                == old(kernel)@[r]@,
        exists|p: int|
            0 <= p < old(kernel)@[row as int]@.len() && crate::rules::is_digit_char(
                #[trigger] old(kernel)@[row as int]@[p],
            ) && spec_digit_count(old(kernel)@[row as int]@, p) == cand
                && final(kernel)@[row as int]@ == old(kernel)@[row as int]@.update(
                p,
                spec_bumped_digit(old(kernel)@[row as int]@[p], pick_up),
            ),
    {
        let p = nth_digit_pos(&kernel[row], cand);
        let line = &kernel[row];
        let len = line.as_str().unicode_len();
        let c = line.as_str().get_char(p);
        let code = c as u32;
        let newc: char = if c == '0' {
            '1'
        } else if c == '5' {
            '4'
        } else if pick_up {
            ((code + 1) as u8) as char
        } else {
            ((code - 1) as u8) as char
        };
        proof {
            assert(newc == spec_bumped_digit(old(kernel)@[row as int]@[p as int], pick_up));
        }
        let mut s = String::new();
        let mut j: usize = 0;
        while j < len
            invariant
                j <= len,
                row < kernel@.len(),
                kernel@ == old(kernel)@,
                len == kernel@[row as int]@.len(),
                p < len,
                s@.len() == j,
                newc == spec_bumped_digit(old(kernel)@[row as int]@[p as int], pick_up),
                forall|k: int|
                    0 <= k < j ==> (#[trigger] s@[k]) == if k == p {
                        newc
                    } else {
                        kernel@[row as int]@[k]
                    },
            decreases len - j,
        {
            let ch: char = if j == p {
                newc
            } else {
                kernel[row].as_str().get_char(j)
            };
            crate::ext::push_char(&mut s, ch);
            j = j + 1;
        }
        kernel.set(row, s);
        proof {
            assert(final(kernel)@[row as int]@ =~= old(kernel)@[row as int]@.update(
                p as int,
                spec_bumped_digit(old(kernel)@[row as int]@[p as int], pick_up),
            ));
        }
    }

/// Change the side of a randomly generated board to `2^power`; an
/// explicit packed board cannot be resized and is reported unchanged.
pub fn mutate_size(data: &mut Data, power: usize) -> (changed: bool)
    requires
        2 <= power <= 15,
    ensures
        match *old(data) {
            Data::Random { width: _, height: _, alive_ratio } => changed && *final(data)
                == (Data::Random {
                width: (1u32 << (power as u32)) as i32,
                height: (1u32 << (power as u32)) as i32,
                alive_ratio,
            }),
            Data::Grid(_) => !changed && *final(data) == *old(data),
        },
{
    let pw = power as u32;
    proof {
        assert(pw <= 15 ==> (1u32 << pw) <= 0x8000u32 && (1u32 << pw) >= 1u32) by (bit_vector);
    }
    let side: i32 = (1u32 << pw) as i32;
    match *data {
        Data::Random { width: _, height: _, alive_ratio } => {
            *data = Data::Random { width: side, height: side, alive_ratio };
            true
        },
        Data::Grid(_) => false,
    }
}

/// `b` is `a` with one probability-table entry perturbed: some index at
/// most the configured bound was stepped by the configured step, in
/// some direction.
pub open spec fn spec_table_perturbed(
    a: Seq<(Weight, Probability)>,
    b: Seq<(Weight, Probability)>,
    cfg: Configuration,
) -> bool {
    exists|index: Weight, pick_right: bool|
        index <= cfg.spec_max_probability_weight() && b == #[trigger] spec_mutated_table(
            a,
            index,
            pick_right,
            cfg.spec_probability_step(),
        )
}

/// `kb` is `ka` with one kernel digit moved by the digit operator: some
/// drawn row either holds no digit (the mutation is a reported no-op),
/// or one of its digits was bumped per `spec_bumped_digit` and every
/// other row is unchanged. An empty diagram is also a no-op.
pub open spec fn spec_kernel_digit_mutated(ka: Seq<String>, kb: Seq<String>) -> bool {
    ||| (ka.len() == 0 && kernel_lines_eq(ka, kb))
    ||| ((exists|row: int|
        0 <= row < ka.len() && spec_digit_count(
            #[trigger] ka[row]@,
            ka[row]@.len() as int,
        ) == 0) && kernel_lines_eq(ka, kb))
    ||| (exists|row: int, p: int, pick_up: bool|
        0 <= row < ka.len() && 0 <= p < ka[row]@.len() && crate::rules::is_digit_char(
            ka[row]@[p],
        ) && kb.len() == ka.len() && (forall|r: int|
            0 <= r < ka.len() && r != row ==> (#[trigger] kb[r])@ == ka[r]@) && kb[row]@
            == #[trigger] ka[row]@.update(p, spec_bumped_digit(ka[row]@[p], pick_up)))
}

/// `b` is `a` with the board made square with side `2^power`, for some
/// drawn exponent in the configured range; an explicit packed board
/// cannot be resized, so there it is unchanged.
pub open spec fn spec_board_resized(a: Data, b: Data, cfg: Configuration) -> bool {
    match a {
        Data::Random { width: _, height: _, alive_ratio: ra } => match b {
            Data::Random { width: wb, height: hb, alive_ratio: rb } => {
                &&& hb == wb
                &&& rb == ra
                &&& exists|power: usize|
                    #![trigger (power as u32)]
                    cfg.spec_size_power_min() <= power < cfg.spec_size_power_max() && wb == (1u32
                        << (power as u32)) as i32
            },
            Data::Grid(_) => false,
        },
        Data::Grid(_) => crate::data::data_eq(a, b),
    }
}

/// The child snapshot is the parent with exactly one of the four
/// mutation operators applied: a spawn entry perturbed, a keep entry
/// perturbed, a kernel digit moved, or the board size exponent changed;
/// the seed, the limits and every untouched component are kept.
pub open spec fn spec_snap_mutated(a: Snap, b: Snap, cfg: Configuration) -> bool {
    &&& b.spec_seed() == a.spec_seed()
    &&& b.spec_limits() == a.spec_limits()
    &&& {
        let ka = a.spec_rules().kernel@;
        let kb = b.spec_rules().kernel@;
        let sa = a.spec_rules().spawn@;
        let sb = b.spec_rules().spawn@;
        let pa = a.spec_rules().keep@;
        let pb = b.spec_rules().keep@;
        ||| (spec_table_perturbed(sa, sb, cfg) && kernel_lines_eq(ka, kb) && pa == pb
            && crate::data::data_eq(a.spec_data(), b.spec_data()))
        ||| (spec_table_perturbed(pa, pb, cfg) && kernel_lines_eq(ka, kb) && sa == sb
            && crate::data::data_eq(a.spec_data(), b.spec_data()))
        ||| (spec_kernel_digit_mutated(ka, kb) && sa == sb && pa == pb && crate::data::data_eq(
            a.spec_data(),
            b.spec_data(),
        ))
        ||| (spec_board_resized(a.spec_data(), b.spec_data(), cfg) && kernel_lines_eq(ka, kb)
            && sa == sb && pa == pb)
    }
}

/// The population that one `update` turn retains, before breeding: the
/// drained population, sorted by fitness, filtered by the retention
/// policy.
pub open spec fn spec_update_pruned(pre: Laboratory, sts: Seq<TaskStatus>) -> Seq<Experiment> {
    let scored = spec_applied(pre.spec_experiments(), sts, sts.len() as int);
    let sorted = spec_sorted(scored, scored.len() as int);
    let cutoff = spec_cutoff(sorted, pre.spec_config().spec_max_active());
    let best_id = if sorted.len() > 0 {
        sorted[0].id
    } else {
        0
    };
    spec_retained(sorted, cutoff, best_id, sorted.len() as int)
}

/// The mutation relation respects snapshot content equality: replacing
/// either side by a content-equal snapshot keeps it a mutation.
#[verifier::rlimit(100)]
pub proof fn lemma_snap_mutated_content(a: Snap, a2: Snap, b: Snap, b2: Snap, cfg: Configuration)
    requires
        spec_snap_mutated(a, b, cfg),
        snap_eq(a, a2),
        snap_eq(b, b2),
    ensures
        spec_snap_mutated(a2, b2, cfg),
{
    let ka = a.spec_rules().kernel@;
    let kb = b.spec_rules().kernel@;
    let ka2 = a2.spec_rules().kernel@;
    let kb2 = b2.spec_rules().kernel@;
    assert(a2.spec_rules().spawn@ == a.spec_rules().spawn@);
    assert(b2.spec_rules().spawn@ == b.spec_rules().spawn@);
    assert(a2.spec_rules().keep@ == a.spec_rules().keep@);
    assert(b2.spec_rules().keep@ == b.spec_rules().keep@);
    crate::data::lemma_data_eq_sym(a.spec_data(), a2.spec_data());
    if crate::data::data_eq(a.spec_data(), b.spec_data()) {
        crate::data::lemma_data_eq_trans(a2.spec_data(), a.spec_data(), b.spec_data());
        crate::data::lemma_data_eq_trans(a2.spec_data(), b.spec_data(), b2.spec_data());
    }
    if kernel_lines_eq(ka, kb) {
        assert(kernel_lines_eq(ka2, kb2)) by {
            assert forall|i: int| 0 <= i < ka2.len() implies (#[trigger] ka2[i])@ == kb2[i]@ by {
                assert(ka[i]@ == ka2[i]@);
                assert(ka[i]@ == kb[i]@);
                assert(kb[i]@ == kb2[i]@);
            }
        }
    }
    if spec_kernel_digit_mutated(ka, kb) && !kernel_lines_eq(ka, kb) && ka.len() > 0 {
        // the real digit bump: carry the witnesses over to the views
        let (row, p, pick_up) = choose|row: int, p: int, pick_up: bool|
            0 <= row < ka.len() && 0 <= p < ka[row]@.len() && crate::rules::is_digit_char(
                ka[row]@[p],
            ) && kb.len() == ka.len() && (forall|r: int|
                0 <= r < ka.len() && r != row ==> (#[trigger] kb[r])@ == ka[r]@) && kb[row]@
                == #[trigger] ka[row]@.update(p, spec_bumped_digit(ka[row]@[p], pick_up));
        assert(ka2[row]@ == ka[row]@);
        assert(kb2[row]@ == kb[row]@);
        assert forall|r: int| 0 <= r < ka2.len() && r != row implies (#[trigger] kb2[r])@
            == ka2[r]@ by {
            assert(kb[r]@ == ka[r]@);
            assert(ka2[r]@ == ka[r]@);
            assert(kb2[r]@ == kb[r]@);
        }
        assert(kb2[row]@ == ka2[row]@.update(p, spec_bumped_digit(ka2[row]@[p], pick_up)));
        assert(spec_kernel_digit_mutated(ka2, kb2));
    }
    if spec_kernel_digit_mutated(ka, kb) && kernel_lines_eq(ka, kb) {
        if ka.len() == 0 {
            assert(ka2.len() == 0);
        } else if exists|row: int|
            0 <= row < ka.len() && spec_digit_count(
                #[trigger] ka[row]@,
                ka[row]@.len() as int,
            ) == 0 {
            let row = choose|row: int|
                0 <= row < ka.len() && spec_digit_count(
                    #[trigger] ka[row]@,
                    ka[row]@.len() as int,
                ) == 0;
            assert(ka2[row]@ == ka[row]@);
            assert(0 <= row < ka2.len() && spec_digit_count(
                ka2[row]@,
                ka2[row]@.len() as int,
            ) == 0);
        }
    }
    if spec_board_resized(a.spec_data(), b.spec_data(), cfg) {
        match a.spec_data() {
            Data::Random { .. } => {
                // content equality keeps the Random fields, so the same
                // exponent witnesses the resized relation for a2 and b2
                assert(spec_board_resized(a2.spec_data(), b2.spec_data(), cfg));
            },
            Data::Grid(_) => {
                crate::data::lemma_data_eq_trans(
                    a2.spec_data(),
                    a.spec_data(),
                    b.spec_data(),
                );
                crate::data::lemma_data_eq_trans(
                    a2.spec_data(),
                    b.spec_data(),
                    b2.spec_data(),
                );
                assert(spec_board_resized(a2.spec_data(), b2.spec_data(), cfg));
            },
        }
    }
}

impl Laboratory {
    /// Apply one randomly chosen mutation to the snapshot: perturb a
    /// spawn or keep entry, move one kernel digit, or change the size of
    /// a random board. A mutation that has nothing to act on (an empty
    /// kernel, a row without digits) leaves the snapshot unchanged.
    fn mutate_snap(&mut self, snap: &mut Snap)
        requires
            old(self).wf(),
            old(snap).spec_rules().input_wf(),
        ensures
            final(self).wf(),
            final(self).spec_config() == old(self).spec_config(),
            final(self).spec_next_id() == old(self).spec_next_id(),
            final(self).spec_experiments() == old(self).spec_experiments(),
            final(snap).spec_rules().input_wf(),
            spec_snap_mutated(*old(snap), *final(snap), old(self).spec_config()),
    {
        let ghost cfg = self.spec_config();
        let kind = rng_below(&mut self.rng, 4);
        if kind == 0 {
            let bound: usize = (self.config.max_probability_weight as usize) + 1;
            let index = rng_below(&mut self.rng, bound) as u32;
            let pick = rng_below(&mut self.rng, 2) == 1;
            mutate_probabilities(&mut snap.rules.spawn, index, pick, self.config.probability_step);
            proof {
                assert(snap.spec_rules().spawn@ == spec_mutated_table(
                    old(snap).spec_rules().spawn@,
                    index,
                    pick,
                    cfg.spec_probability_step(),
                ));
            }
        } else if kind == 1 {
            let bound: usize = (self.config.max_probability_weight as usize) + 1;
            let index = rng_below(&mut self.rng, bound) as u32;
            let pick = rng_below(&mut self.rng, 2) == 1;
            mutate_probabilities(&mut snap.rules.keep, index, pick, self.config.probability_step);
            proof {
                assert(snap.spec_rules().keep@ == spec_mutated_table(
                    old(snap).spec_rules().keep@,
                    index,
                    pick,
                    cfg.spec_probability_step(),
                ));
            }
        } else if kind == 2 {
            let rows = snap.rules.kernel.len();
            if rows > 0 {
                let row = rng_below(&mut self.rng, rows);
                let digits = count_digits(&snap.rules.kernel[row]);
                if digits > 0 {
                    let cand = rng_below(&mut self.rng, digits);
                    let up = rng_below(&mut self.rng, 2) == 1;
                    mutate_kernel_digit(&mut snap.rules.kernel, row, cand, up);
                    proof {
                        let ka = old(snap).spec_rules().kernel@;
                        let kb = snap.spec_rules().kernel@;
                        let p = choose|p: int|
                            0 <= p < ka[row as int]@.len() && crate::rules::is_digit_char(
                                #[trigger] ka[row as int]@[p],
                            ) && spec_digit_count(ka[row as int]@, p) == cand
                                && kb[row as int]@ == ka[row as int]@.update(
                                p,
                                spec_bumped_digit(ka[row as int]@[p], up),
                            );
                        assert(0 <= row < ka.len() && 0 <= p < ka[row as int]@.len()
                            && crate::rules::is_digit_char(ka[row as int]@[p]) && kb.len()
                            == ka.len() && (forall|r: int|
                            0 <= r < ka.len() && r != row ==> (#[trigger] kb[r])@ == ka[r]@)
                            && kb[row as int]@ == ka[row as int]@.update(
                            p,
                            spec_bumped_digit(ka[row as int]@[p], up),
                        ));
                    }
                } else {
                    proof {
                        let ka = old(snap).spec_rules().kernel@;
                        assert(0 <= row < ka.len() && spec_digit_count(
                            ka[row as int]@,
                            ka[row as int]@.len() as int,
                        ) == 0);
                    }
                }
            }
        } else {
            let span = self.config.size_power_max - self.config.size_power_min;
            let power = self.config.size_power_min + rng_below(&mut self.rng, span);
            mutate_size(&mut snap.data, power);
            proof {
                assert((power as u32) == (power as u32) && cfg.spec_size_power_min() <= power
                    < cfg.spec_size_power_max());
            }
        }
    }

    /// When the population is below the in-flight target (and not
    /// empty), pick a parent by fitness-weighted random sampling (the
    /// best on a zero total), clone and mutate its snapshot, and
    /// register the child.
    fn breed(&mut self) -> (r: Option<Spawned>)
        requires
            old(self).wf(),
        ensures
            final(self).wf(),
            final(self).spec_config() == old(self).spec_config(),
            match r {
                None => {
                    &&& final(self).spec_experiments() == old(self).spec_experiments()
                    &&& final(self).spec_next_id() == old(self).spec_next_id()
                    &&& (old(self).spec_experiments().len()
                        >= old(self).spec_config().spec_max_in_flight() || old(
                        self,
                    ).spec_experiments().len() == 0)
                },
                Some(sp) => {
                    &&& old(self).spec_experiments().len() < old(
                        self,
                    ).spec_config().spec_max_in_flight()
                    &&& old(self).spec_experiments().len() > 0
                    &&& sp.id == old(self).spec_next_id()
                    // the child snapshot is a mutation of the chosen
                    // parent's; a positive fitness total picks a parent
                    // of positive fitness, a zero total the best-ranked
                    &&& exists|i: int|
                        0 <= i < old(self).spec_experiments().len() && sp.parent_id == (
                        #[trigger] old(self).spec_experiments()[i]).id && spec_snap_mutated(
                            old(self).spec_experiments()[i].snap,
                            sp.snap,
                            old(self).spec_config(),
                        ) && (spec_fit_prefix(
                            old(self).spec_experiments(),
                            old(self).spec_experiments().len() as int,
                        ) > 0 ==> old(self).spec_experiments()[i].fit > 0) && (spec_fit_prefix(
                            old(self).spec_experiments(),
                            old(self).spec_experiments().len() as int,
                        ) == 0 ==> i == 0)
                    &&& (sp.sim matches Some(sim) ==> sim.wf())
                    &&& (sp.sim is Some ==> final(self).spec_experiments().len() == old(
                        self,
                    ).spec_experiments().len() + 1 && final(self).spec_experiments().subrange(
                        0,
                        old(self).spec_experiments().len() as int,
                    ) == old(self).spec_experiments() && {
                        let child = final(self).spec_experiments()[old(
                            self,
                        ).spec_experiments().len() as int];
                        &&& child.id == sp.id
                        &&& child.conclusion is None
                        &&& child.steps == 0
                        &&& child.fit == 0
                        &&& snap_eq(sp.snap, child.snap)
                    })
                    &&& (sp.sim is None ==> final(self).spec_experiments() == old(
                        self,
                    ).spec_experiments())
                },
            },
    {
        if self.experiments.len() >= self.config.max_in_flight {
            return None;
        }
        let n = self.experiments.len();
        if n == 0 {
            return None;
        }
        let mut fit_sum: u128 = 0;
        let mut k: usize = 0;
        while k < n
            invariant
                self.wf(),
                n == self.spec_experiments().len(),
                k <= n,
                fit_sum == spec_fit_prefix(self.spec_experiments(), k as int),
                fit_sum <= 100 * k,
            decreases n - k,
        {
            fit_sum = fit_sum + (self.experiments[k].fit as u128);
            k = k + 1;
        }
        let pi: usize = if fit_sum > 0 {
            let bound: usize = if fit_sum > (usize::MAX as u128) {
                usize::MAX
            } else {
                fit_sum as usize
            };
            let draw = rng_below(&mut self.rng, bound);
            self.pick_weighted(draw as u128, fit_sum)
        } else {
            0
        };
        let parent_id = self.experiments[pi].id;
        let mut child = self.experiments[pi].snap.clone();
        proof {
            let parent = self.spec_experiments()[pi as int].snap;
            assert(child.spec_rules().input_wf()) by {
                assert(human_rules_eq(parent.spec_rules(), child.spec_rules()));
                assert forall|i: int|
                    0 <= i < child.spec_rules().kernel@.len() implies (
                #[trigger] child.spec_rules().kernel@[i]@).len()
                    <= crate::rules::MAX_KERNEL_DIM by {
                    assert(child.spec_rules().kernel@[i]@
                        == parent.spec_rules().kernel@[i]@);
                }
            }
        }
        let ghost child0 = child;
        self.mutate_snap(&mut child);
        let ghost child1 = child;
        let ghost parent_snap = old(self).spec_experiments()[pi as int].snap;
        proof {
            if fit_sum > 0 {
                // the drawn parent contributes to the positive total
                assert(spec_fit_prefix(self.spec_experiments(), pi as int + 1)
                    == spec_fit_prefix(self.spec_experiments(), pi as int)
                    + self.spec_experiments()[pi as int].fit);
            }
            crate::sim::lemma_snap_eq_sym(parent_snap, child0);
        }
        let sp = self.add_experiment(child, parent_id);
        proof {
            crate::sim::lemma_snap_eq_sym(sp.snap, child1);
            lemma_snap_mutated_content(
                child0,
                parent_snap,
                child1,
                sp.snap,
                old(self).spec_config(),
            );
            assert(sp.parent_id == old(self).spec_experiments()[pi as int].id
                && spec_snap_mutated(
                old(self).spec_experiments()[pi as int].snap,
                sp.snap,
                old(self).spec_config(),
            ));
        }
        Some(sp)
    }

    /// First index whose fitness-prefix sum passes the drawn cutoff.
    fn pick_weighted(&self, draw: u128, fit_sum: u128) -> (pi: usize)
        requires
            self.wf(),
            self.spec_experiments().len() > 0,
            fit_sum == spec_fit_prefix(
                self.spec_experiments(),
                self.spec_experiments().len() as int,
            ),
            draw < fit_sum,
        ensures
            pi < self.spec_experiments().len(),
            spec_fit_prefix(self.spec_experiments(), pi as int) <= draw < spec_fit_prefix(
                self.spec_experiments(),
                pi as int + 1,
            ),
    {
        let n = self.experiments.len();
        let mut cum: u128 = 0;
        let mut i: usize = 0;
        while i < n
            invariant
                self.wf(),
                n == self.spec_experiments().len(),
                i <= n,
                cum == spec_fit_prefix(self.spec_experiments(), i as int),
                cum <= draw,
                draw < fit_sum,
                fit_sum == spec_fit_prefix(self.spec_experiments(), n as int),
                cum <= 100 * i,
            decreases n - i,
        {
            let next = cum + (self.experiments[i].fit as u128);
            if next > draw {
                return i;
            }
            cum = next;
            i = i + 1;
        }
        proof {
            assert(false);
        }
        0
    }

    /// One orchestration turn: fold the drained status messages into the
    /// population, prune it, and breed one mutated child if there is
    /// room. Hands back the snapshots worth persisting and the child to
    /// dispatch.
    #[verifier::rlimit(100)]
    pub fn update(&mut self, statuses: Vec<TaskStatus>) -> (outcome: UpdateOutcome)
        requires
            old(self).wf(),
        ensures
            final(self).wf(),
            final(self).spec_config() == old(self).spec_config(),
            // reported snapshots: exactly the new bests seen while draining
            ({
                let spec_arts = spec_artifacts(
                    old(self).spec_experiments(),
                    statuses@,
                    statuses@.len() as int,
                );
                &&& outcome.artifacts@.len() == spec_arts.len()
                &&& forall|k: int|
                    0 <= k < outcome.artifacts@.len() ==> (#[trigger] outcome.artifacts@[k]).id
                        == spec_arts[k].0 && outcome.artifacts@[k].step == spec_arts[k].1
                        && snap_eq(outcome.artifacts@[k].snap, spec_arts[k].2)
            }),
            // the population: the pruned survivors, plus the registered child
            ({
                let pruned = spec_update_pruned(*old(self), statuses@);
                match outcome.spawned {
                    None => final(self).spec_experiments() =~= pruned && (pruned.len()
                        >= old(self).spec_config().spec_max_in_flight() || pruned.len() == 0),
                    Some(sp) => {
                        &&& pruned.len() < old(self).spec_config().spec_max_in_flight()
                        &&& pruned.len() > 0
                        // exactly one child was bred: its snapshot is a
                        // mutation of the chosen parent's; a positive
                        // fitness total picks a parent of positive
                        // fitness, a zero total the best-ranked one
                        &&& exists|i: int|
                            0 <= i < pruned.len() && sp.parent_id == (#[trigger] pruned[i]).id
                                && spec_snap_mutated(
                                pruned[i].snap,
                                sp.snap,
                                old(self).spec_config(),
                            ) && (spec_fit_prefix(pruned, pruned.len() as int) > 0
                                ==> pruned[i].fit > 0) && (spec_fit_prefix(
                                pruned,
                                pruned.len() as int,
                            ) == 0 ==> i == 0)
                        &&& (sp.sim is Some ==> final(self).spec_experiments().len()
                            == pruned.len() + 1 && final(self).spec_experiments().subrange(
                            0,
                            pruned.len() as int,
                        ) =~= pruned && {
                            let child = final(self).spec_experiments()[pruned.len() as int];
                            &&& child.id == sp.id
                            &&& child.conclusion is None
                            &&& child.steps == 0
                            &&& child.fit == 0
                            &&& snap_eq(sp.snap, child.snap)
                        })
                        &&& (sp.sim is None ==> final(self).spec_experiments() =~= pruned)
                    },
                }
            }),
            // no running experiment is dropped
            ({
                let scored = spec_applied(
                    old(self).spec_experiments(),
                    statuses@,
                    statuses@.len() as int,
                );
                let pruned = spec_update_pruned(*old(self), statuses@);
                forall|i: int|
                    0 <= i < scored.len() && (#[trigger] scored[i]).conclusion is None
                        ==> exists|j: int| 0 <= j < pruned.len() && pruned[j] == scored[i]
            }),
            // the best fitness among the scored population survives pruning
            ({
                let scored = spec_applied(
                    old(self).spec_experiments(),
                    statuses@,
                    statuses@.len() as int,
                );
                let pruned = spec_update_pruned(*old(self), statuses@);
                scored.len() > 0 ==> pruned.len() > 0 && exists|j: int|
                    0 <= j < pruned.len() && (forall|i: int|
                        0 <= i < scored.len() ==> (#[trigger] pruned[j]).fit >= scored[i].fit)
            }),
    {
        let ghost pre = *old(self);
        let ghost sts = statuses@;
        let artifacts = self.apply_statuses(statuses);
        let ghost drained = *self;
        self.prune();
        let ghost kept = *self;
        proof {
            assert(drained.spec_experiments() == spec_applied(
                pre.spec_experiments(),
                sts,
                sts.len() as int,
            ));
            assert(kept.spec_experiments() == spec_update_pruned(pre, sts));
        }
        let spawned = self.breed();
        UpdateOutcome { artifacts, spawned }
    }
}

} // verus!
