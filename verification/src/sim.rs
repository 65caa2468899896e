//! The simulation: a seeded probabilistic cellular automaton stepping a
//! toroidal board under weighted-kernel rules, with exponentially smoothed
//! statistics and terminal conclusions.
use vstd::prelude::*;

use crate::data::{data_eq, Data, DataParseError};
use crate::ext::{rng_from_seed, rng_next_u32};
use crate::fixed::{spec_blend, spec_sat_add, tdiv, Probability, PROB_ONE, STAT_CAP};
use crate::grid::{Cell, Coordinates, Grid, GridAnalysis};
use crate::rules::{human_rules_eq, HumanRules, Rules, RulesParseError, Weight};

verus! {

broadcast use crate::rules::lemma_rules_fields;

/// Smoothed average above which a run counts as saturated (0.9 in fixed
/// point).
pub const SATURATE_LIMIT: u32 = 9 * PROB_ONE / 10;

/// Floor of the denominator of the relative squared deviation (0.01 in
/// fixed point).
pub const DEVIATION_FLOOR: u32 = PROB_ONE / 100;

/// Bound kept on the smoothed variance (the relative squared deviation
/// never exceeds `PROB_ONE^2 / DEVIATION_FLOOR`, which is below this).
pub const VARIANCE_CAP: u64 = 0x4_0000_0000;

/// Run limits: the step ceiling and the statistics smoothing weight.
#[derive(Clone, Copy, Debug, PartialEq, Eq, Structural)]
pub struct Limits {
    pub max_steps: usize,
    pub update_weight: Probability,
}

impl Limits {
    /// The smoothing weight is a probability, i.e. at most 1.
    pub open spec fn spec_valid(self) -> bool {
        self.update_weight <= PROB_ONE
    }

    pub fn are_valid(&self) -> (r: bool)
        ensures
            r == self.spec_valid(),
    {
        self.update_weight <= PROB_ONE
    }
}

/// Exponentially smoothed observations of the board occupancy.
#[derive(Clone, Copy, Debug, PartialEq, Eq, Structural)]
pub struct Statistics {
    /// Smoothed alive ratio, in fixed point over `PROB_ONE`.
    pub alive_ratio_average: u32,
    /// Smoothed squared deviation relative to the running average (not a
    /// true population variance), in fixed point over `PROB_ONE`.
    pub alive_ratio_variance: u64,
}

impl Statistics {
    pub open spec fn wf(self) -> bool {
        &&& self.alive_ratio_average <= PROB_ONE
        &&& self.alive_ratio_variance <= VARIANCE_CAP
    }
}

/// One smoothing step: blend the observed ratio into the average, and the
/// squared deviation relative to the (floored) current average into the
/// variance, both with weight `w`.
pub open spec fn spec_stats_update(s: Statistics, ratio: u32, w: u32) -> Statistics {
    let offset = ratio - s.alive_ratio_average;
    let denom = if s.alive_ratio_average >= DEVIATION_FLOOR {
        s.alive_ratio_average as int
    } else {
        DEVIATION_FLOOR as int
    };
    let osr = (offset * offset) / denom;
    Statistics {
        alive_ratio_average: ((w * ratio + (PROB_ONE - w) * s.alive_ratio_average) as int
            / PROB_ONE as int) as u32,
        alive_ratio_variance: ((w * osr + (PROB_ONE - w) * s.alive_ratio_variance) as int
            / PROB_ONE as int) as u64,
    }
}

impl Statistics {
    /// Fold one board observation into the statistics. An empty board
    /// concludes the run as `Extinct` (the statistics are untouched); a
    /// smoothed average beyond `SATURATE_LIMIT` concludes it as
    /// `Saturate` (after folding).
    pub fn update(&mut self, analysis: GridAnalysis, limits: &Limits) -> (r: Result<
        GridAnalysis,
        Conclusion,
    >)
        requires
            old(self).wf(),
            limits.spec_valid(),
            analysis.alive_ratio <= PROB_ONE,
        ensures
            final(self).wf(),
            analysis.alive_ratio == 0 ==> (r matches Err(Conclusion::Extinct)) && *final(self)
                == *old(self),
            analysis.alive_ratio != 0 ==> {
                &&& *final(self) == spec_stats_update(
                    *old(self),
                    analysis.alive_ratio,
                    limits.update_weight,
                )
                &&& final(self).alive_ratio_average > SATURATE_LIMIT ==> (r matches Err(
                    Conclusion::Saturate,
                ))
                &&& final(self).alive_ratio_average <= SATURATE_LIMIT ==> r is Ok
                &&& (r matches Ok(a) ==> a.alive_ratio == analysis.alive_ratio)
            },
    {
        let ratio = analysis.alive_ratio;
        if ratio == 0 {
            return Err(Conclusion::Extinct);
        }
        let avg = self.alive_ratio_average;
        let w = limits.update_weight;
        let offset: i64 = (ratio as i64) - (avg as i64);
        proof {
            assert(0 <= offset as int * offset as int <= 0x1_0000_0000_0000) by (nonlinear_arith)
                requires
                    -0x100_0000 <= offset as int <= 0x100_0000,
            {}
        }
        let off2: u64 = (offset * offset) as u64;
        let denom: u64 = if avg >= DEVIATION_FLOOR {
            avg as u64
        } else {
            DEVIATION_FLOOR as u64
        };
        let osr: u64 = off2 / denom;
        proof {
            assert(off2 / denom <= 0x1_0000_0000_0000u64 / 0x28f5c) by (nonlinear_arith)
                requires
                    0x28f5c <= denom,
                    off2 <= 0x1_0000_0000_0000,
            {}
        }
        proof {
            let wi = w as int;
            let s = PROB_ONE as int;
            assert(0 <= wi * ratio && 0 <= (s - wi) * avg && wi * ratio + (s - wi) * avg <= s
                * s) by (nonlinear_arith)
                requires
                    0 <= wi <= s,
                    0 < ratio as int <= s,
                    0 <= avg as int <= s,
            {}
            assert((wi * ratio + (s - wi) * avg) / s <= s) by (nonlinear_arith)
                requires
                    0 < s,
                    wi * ratio + (s - wi) * avg <= s * s,
                    0 <= wi * ratio + (s - wi) * avg,
            {}
        }
        let new_avg: u64 = ((w as u64) * (ratio as u64) + ((PROB_ONE - w) as u64) * (avg as u64))
            / (PROB_ONE as u64);
        let var = self.alive_ratio_variance;
        proof {
            let wi = w as int;
            let s = PROB_ONE as int;
            let cap = VARIANCE_CAP as int;
            assert(0 <= wi * osr && 0 <= (s - wi) * var && wi * osr + (s - wi) * var <= s * cap)
                by (nonlinear_arith)
                requires
                    0 <= wi <= s,
                    0 <= osr as int <= cap,
                    0 <= var as int <= cap,
            {}
            assert((wi * osr + (s - wi) * var) / s <= cap) by (nonlinear_arith)
                requires
                    0 < s,
                    0 <= wi * osr + (s - wi) * var,
                    wi * osr + (s - wi) * var <= s * cap,
            {}
        }
        let new_var: u64 = ((w as u64) * osr + ((PROB_ONE - w) as u64) * var) / (PROB_ONE as u64);
        self.alive_ratio_average = new_avg as u32;
        self.alive_ratio_variance = new_var;
        if self.alive_ratio_average > SATURATE_LIMIT {
            Err(Conclusion::Saturate)
        } else {
            Ok(analysis)
        }
    }
}

/// Feeding a constant ratio moves the smoothed average toward that ratio
/// and never past it; once the average has reached the ratio, the
/// variance never increases. (Integer rounding can stop the average just
/// short of the ratio, so convergence holds as this bracket, not as exact
/// attainment.)
pub proof fn lemma_smoothing_converges(s: Statistics, ratio: u32, w: u32)
    requires
        s.wf(),
        ratio <= PROB_ONE,
        w <= PROB_ONE,
    ensures
        ({
            let s2 = spec_stats_update(s, ratio, w);
            &&& s.alive_ratio_average <= ratio ==> s.alive_ratio_average
                <= s2.alive_ratio_average <= ratio
            &&& s.alive_ratio_average >= ratio ==> ratio <= s2.alive_ratio_average
                <= s.alive_ratio_average
            &&& s.alive_ratio_average == ratio ==> s2.alive_ratio_variance
                <= s.alive_ratio_variance
        }),
{
    let avg = s.alive_ratio_average as int;
    let var = s.alive_ratio_variance as int;
    let r = ratio as int;
    let wi = w as int;
    let sc = PROB_ONE as int;
    let num = wi * r + (sc - wi) * avg;
    let s2 = spec_stats_update(s, ratio, w);
    if avg <= r {
        assert(sc * avg <= num <= sc * r) by (nonlinear_arith)
            requires
                0 <= wi <= sc,
                0 <= avg <= r,
                num == wi * r + (sc - wi) * avg,
        {}
        assert(avg <= num / sc <= r) by (nonlinear_arith)
            requires
                0 < sc,
                sc * avg <= num <= sc * r,
                avg <= r,
        {}
        assert(s2.alive_ratio_average == num / sc);
    }
    if avg >= r {
        assert(sc * r <= num <= sc * avg) by (nonlinear_arith)
            requires
                0 <= wi <= sc,
                0 <= r <= avg,
                num == wi * r + (sc - wi) * avg,
        {}
        assert(r <= num / sc <= avg) by (nonlinear_arith)
            requires
                0 < sc,
                sc * r <= num <= sc * avg,
                r <= avg,
        {}
        assert(s2.alive_ratio_average == num / sc);
    }
    if avg == r {
        let offset = r - avg;
        assert(offset == 0);
        let denom = if s.alive_ratio_average >= DEVIATION_FLOOR {
            avg
        } else {
            DEVIATION_FLOOR as int
        };
        assert(0 < denom);
        assert((0int * 0int) / denom == 0) by (nonlinear_arith)
            requires
                0 < denom,
        {}
        let vnum = wi * 0 + (sc - wi) * var;
        assert(0 <= vnum <= sc * var) by (nonlinear_arith)
            requires
                0 <= wi <= sc,
                0 <= var,
                vnum == wi * 0 + (sc - wi) * var,
        {}
        assert(vnum / sc <= var) by (nonlinear_arith)
            requires
                0 < sc,
                0 <= vnum <= sc * var,
                0 <= var,
        {}
        assert(s2.alive_ratio_variance == vnum / sc);
    }
}

/// Once the average is close enough to the constant ratio that the
/// squared deviation falls below the floored denominator, the injected
/// deviation term vanishes; from then on each step with a positive
/// smoothing weight strictly shrinks a nonzero variance, so the variance
/// reaches zero within at most `alive_ratio_variance` further steps.
pub proof fn lemma_variance_vanishes(s: Statistics, ratio: u32, w: u32)
    requires
        s.wf(),
        ratio <= PROB_ONE,
        0 < w <= PROB_ONE,
        (ratio - s.alive_ratio_average) * (ratio - s.alive_ratio_average) < (
        if s.alive_ratio_average >= DEVIATION_FLOOR {
            s.alive_ratio_average as int
        } else {
            DEVIATION_FLOOR as int
        }),
    ensures
        spec_stats_update(s, ratio, w).alive_ratio_variance <= s.alive_ratio_variance,
        s.alive_ratio_variance > 0 ==> spec_stats_update(s, ratio, w).alive_ratio_variance
            < s.alive_ratio_variance,
{
    let avg = s.alive_ratio_average as int;
    let var = s.alive_ratio_variance as int;
    let wi = w as int;
    let sc = PROB_ONE as int;
    let off = ratio - avg;
    let denom = if s.alive_ratio_average >= DEVIATION_FLOOR {
        avg
    } else {
        DEVIATION_FLOOR as int
    };
    assert(0 < denom);
    assert(0 <= off * off && off * off / denom == 0) by (nonlinear_arith)
        requires
            off * off < denom,
            0 < denom,
    {}
    let s2 = spec_stats_update(s, ratio, w);
    let vnum = wi * 0 + (sc - wi) * var;
    assert(0 <= vnum <= sc * var) by (nonlinear_arith)
        requires
            0 <= wi <= sc,
            0 <= var,
            vnum == wi * 0 + (sc - wi) * var,
    {}
    assert(vnum / sc <= var) by (nonlinear_arith)
        requires
            0 < sc,
            0 <= vnum <= sc * var,
            0 <= var,
    {}
    assert(s2.alive_ratio_variance == vnum / sc);
    if var > 0 {
        assert(vnum < sc * var) by (nonlinear_arith)
            requires
                0 < wi,
                0 < var,
                vnum == wi * 0 + (sc - wi) * var,
                wi <= sc,
        {}
        assert(vnum / sc < var) by (nonlinear_arith)
            requires
                0 < sc,
                0 <= vnum,
                vnum < sc * var,
        {}
    }
}

/// Terminal classification of a finished run.
#[derive(Debug)]
pub enum Conclusion {
    Extinct,
    Saturate,
    Done(Statistics, Snap),
    Crash,
}

impl Conclusion {
    /// Short name of the variant, for presentation.
    pub fn label(&self) -> (s: String)
        ensures
            match *self {
                Conclusion::Extinct => s@ == "Extinct"@,
                Conclusion::Saturate => s@ == "Saturate"@,
                Conclusion::Done(..) => s@ == "Done"@,
                Conclusion::Crash => s@ == "Crash"@,
            },
    {
        match *self {
            Conclusion::Extinct => String::from_str("Extinct"),
            Conclusion::Saturate => String::from_str("Saturate"),
            Conclusion::Done(..) => String::from_str("Done"),
            Conclusion::Crash => String::from_str("Crash"),
        }
    }
}

/// A fully serializable description of one simulation instance: board
/// data, human-readable rules, the RNG seed and the run limits. A snap
/// plus a fresh generator seeded identically reproduces the same
/// trajectory.
#[derive(Debug)]
pub struct Snap {
    pub data: Data,
    pub rules: HumanRules,
    pub random_seed: u64,
    pub limits: Limits,
}

/// `a` and `b` describe the same snapshot, compared by content.
pub open spec fn snap_eq(a: Snap, b: Snap) -> bool {
    &&& data_eq(a.spec_data(), b.spec_data())
    &&& human_rules_eq(a.spec_rules(), b.spec_rules())
    &&& a.spec_seed() == b.spec_seed()
    &&& a.spec_limits() == b.spec_limits()
}

impl Snap {
    pub open spec fn spec_data(self) -> Data {
        self.data
    }

    pub open spec fn spec_rules(self) -> HumanRules {
        self.rules
    }

    pub open spec fn spec_seed(self) -> u64 {
        self.random_seed
    }

    pub open spec fn spec_limits(self) -> Limits {
        self.limits
    }

    pub fn new(data: Data, rules: HumanRules, random_seed: u64, limits: Limits) -> (s: Snap)
        ensures
            s.spec_data() == data,
            s.spec_rules() == rules,
            s.spec_seed() == random_seed,
            s.spec_limits() == limits,
    {
        Snap { data, rules, random_seed, limits }
    }

    pub fn random_seed(&self) -> (r: u64)
        ensures
            r == self.spec_seed(),
    {
        self.random_seed
    }

    pub fn limits(&self) -> (r: Limits)
        ensures
            r == self.spec_limits(),
    {
        self.limits
    }
}

/// Snapshot content equality is symmetric.
pub proof fn lemma_snap_eq_sym(a: Snap, b: Snap)
    requires
        snap_eq(a, b),
    ensures
        snap_eq(b, a),
{
    crate::data::lemma_data_eq_sym(a.spec_data(), b.spec_data());
    let ra = a.spec_rules();
    let rb = b.spec_rules();
    assert forall|i: int| 0 <= i < rb.kernel@.len() implies (#[trigger] rb.kernel@[i])@
        == ra.kernel@[i]@ by {
        assert(ra.kernel@[i]@ == rb.kernel@[i]@);
    }
}

impl Clone for Snap {
    fn clone(&self) -> (r: Self)
        ensures
            snap_eq(*self, r),
    {
        Snap {
            data: self.data.clone(),
            rules: self.rules.clone(),
            random_seed: self.random_seed,
            limits: self.limits,
        }
    }
}

/// Why a snapshot could not be turned into a running simulation.
#[derive(Clone, Copy, Debug, PartialEq, Eq)]
pub enum SnapError {
    RulesParse(RulesParseError),
    DataParse(DataParseError),
    InvalidLimits,
    InvalidRules,
}

impl From<RulesParseError> for SnapError {
    fn from(error: RulesParseError) -> (r: Self)
        ensures
            r == SnapError::RulesParse(error),
    {
        SnapError::RulesParse(error)
    }
}

impl vstd::std_specs::convert::FromSpecImpl<RulesParseError> for SnapError {
    open spec fn obeys_from_spec() -> bool {
        true
    }

    open spec fn from_spec(error: RulesParseError) -> Self {
        SnapError::RulesParse(error)
    }
}

impl From<DataParseError> for SnapError {
    fn from(error: DataParseError) -> (r: Self)
        ensures
            r == SnapError::DataParse(error),
    {
        SnapError::DataParse(error)
    }
}

impl vstd::std_specs::convert::FromSpecImpl<DataParseError> for SnapError {
    open spec fn obeys_from_spec() -> bool {
        true
    }

    open spec fn from_spec(error: DataParseError) -> Self {
        SnapError::DataParse(error)
    }
}

/// Score at `(x, y)`: the weights of the first `k` kernel entries whose
/// wrapped neighbor is alive in `prev`.
pub open spec fn spec_score(prev: Grid, ker: Seq<(Coordinates, Weight)>, x: int, y: int, k: int) -> int
    decreases k,
{
    if k <= 0 {
        0
    } else {
        spec_score(prev, ker, x, y, k - 1) + if prev.spec_alive(
            x + ker[k - 1].0.x,
            y + ker[k - 1].0.y,
        ) {
            ker[k - 1].1 as int
        } else {
            0
        }
    }
}

/// The score never exceeds the sum of the weights.
pub proof fn lemma_score_le_total(
    prev: Grid,
    ker: Seq<(Coordinates, Weight)>,
    x: int,
    y: int,
    k: int,
)
    ensures
        0 <= spec_score(prev, ker, x, y, k) <= crate::rules::weight_prefix(ker, k),
    decreases k,
{
    if k > 0 {
        lemma_score_le_total(prev, ker, x, y, k - 1);
    }
}

/// Blended breed age of a newborn, accumulated over the first `k` kernel
/// entries: each live neighbor blends its age against its own breed age,
/// weighted by `weight / score`, saturating at the statistic cap.
pub open spec fn spec_breed_acc(
    prev: Grid,
    ker: Seq<(Coordinates, Weight)>,
    x: int,
    y: int,
    score: int,
    k: int,
) -> int
    decreases k,
{
    if k <= 0 {
        0
    } else {
        let rest = spec_breed_acc(prev, ker, x, y, score, k - 1);
        match prev.spec_at(x + ker[k - 1].0.x, y + ker[k - 1].0.y) {
            Some(c) => spec_sat_add(
                rest,
                tdiv(
                    ker[k - 1].1 * spec_blend(c.age * PROB_ONE, c.avg_breed_age as int),
                    score,
                ),
            ),
            None => rest,
        }
    }
}

/// Blended velocity (one axis) of a newborn: each live neighbor blends
/// the negated offset against its own velocity, weighted by
/// `weight / score`, saturating at the statistic cap. `axis` is 0 for x
/// and 1 for y.
pub open spec fn spec_vel_acc(
    prev: Grid,
    ker: Seq<(Coordinates, Weight)>,
    x: int,
    y: int,
    score: int,
    axis: int,
    k: int,
) -> int
    decreases k,
{
    if k <= 0 {
        0
    } else {
        let rest = spec_vel_acc(prev, ker, x, y, score, axis, k - 1);
        let off = if axis == 0 {
            ker[k - 1].0.x as int
        } else {
            ker[k - 1].0.y as int
        };
        match prev.spec_at(x + ker[k - 1].0.x, y + ker[k - 1].0.y) {
            Some(c) => spec_sat_add(
                rest,
                tdiv(
                    ker[k - 1].1 * spec_blend(-off * PROB_ONE, c.avg_velocity[axis] as int),
                    score,
                ),
            ),
            None => rest,
        }
    }
}

/// The cell born at an empty position: age 1, ancestry blended from the
/// live neighbors (zero when the score is zero and no neighbor carries
/// weight).
pub open spec fn spec_born_cell(prev: Grid, rules: Rules, x: int, y: int) -> Cell {
    let ker = rules.spec_kernel();
    let n = ker.len() as int;
    let score = spec_score(prev, ker, x, y, n);
    if score == 0 {
        Cell { age: 1, avg_breed_age: 0, avg_velocity: [0, 0] }
    } else {
        Cell {
            age: 1,
            avg_breed_age: spec_breed_acc(prev, ker, x, y, score, n) as i64,
            avg_velocity: [
                spec_vel_acc(prev, ker, x, y, score, 0, n) as i64,
                spec_vel_acc(prev, ker, x, y, score, 1, n) as i64,
            ],
        }
    }
}

/// A surviving cell: the age grows by one (saturating), the breed age is
/// kept, and the velocity decays toward zero by one blend step.
pub open spec fn spec_kept_cell(c: Cell) -> Cell {
    Cell {
        age: if c.age == u32::MAX {
            u32::MAX
        } else {
            (c.age + 1) as u32
        },
        avg_breed_age: c.avg_breed_age,
        avg_velocity: [
            spec_blend(0, c.avg_velocity[0] as int) as i64,
            spec_blend(0, c.avg_velocity[1] as int) as i64,
        ],
    }
}

/// The transition of one cell, decided by one coin below `PROB_ONE`: an
/// empty cell is born when the coin is under `spawn[score]`, a live cell
/// survives when it is under `keep[score]`, and the cell is empty
/// otherwise.
pub open spec fn spec_next_cell(prev: Grid, rules: Rules, x: int, y: int, coin: u32) -> Option<
    Cell,
> {
    let ker = rules.spec_kernel();
    let score = spec_score(prev, ker, x, y, ker.len() as int);
    match prev.spec_at(x, y) {
        None => if coin < rules.spec_spawn()[score] {
            Some(spec_born_cell(prev, rules, x, y))
        } else {
            None
        },
        Some(c) => if coin < rules.spec_keep()[score] {
            Some(spec_kept_cell(c))
        } else {
            None
        },
    }
}

/// `g` is the board obtained by stepping `prev` under `rules` with one
/// coin per cell, in row-major order.
pub open spec fn spec_stepped(prev: Grid, rules: Rules, coins: Seq<u32>, g: Grid) -> bool {
    let w = prev.spec_size().x as int;
    &&& g.spec_size() == prev.spec_size()
    &&& forall|i: int|
        0 <= i < g.spec_cells().len() ==> #[trigger] g.spec_cells()[i] == spec_next_cell(
            prev,
            rules,
            i % w,
            i / w,
            coins[i],
        )
}

/// The snapshot can be loaded into a running simulation: its rules
/// parse, its probabilities and limits are valid, and its data describes
/// a board.
pub open spec fn spec_snap_loads(snap: Snap) -> bool {
    &&& snap.spec_rules().spec_parse_ok()
    &&& snap.spec_rules().spec_parsed_probs_ok()
    &&& snap.spec_data().spec_parse_ok()
    &&& snap.spec_limits().spec_valid()
}

/// `sim` is a simulation freshly built from `snap`.
pub open spec fn spec_sim_of_snap(snap: Snap, sim: Simulation) -> bool {
    &&& spec_snap_loads(snap)
    &&& sim.wf()
    &&& snap.spec_rules().spec_parses_to(sim.spec_rules())
    &&& sim.spec_limits() == snap.spec_limits()
    &&& sim.spec_seed() == snap.spec_seed()
    &&& sim.spec_step() == 0
    &&& sim.spec_stats() == (Statistics {
        alive_ratio_average: match snap.spec_data() {
            Data::Random { alive_ratio, .. } => alive_ratio,
            Data::Grid(_) => 0u32,
        },
        alive_ratio_variance: 0u64,
    })
    &&& snap.spec_data().spec_parses_to(sim.spec_grid())
}

/// No cell of the board is alive.
pub open spec fn grid_empty(g: Grid) -> bool {
    crate::grid::alive_prefix(g.spec_cells(), g.spec_cells().len() as int) == 0
}

/// A running simulation: the live board, a spare buffer it ping-pongs
/// with, parsed rules, limits, the seeded generator, the step counter and
/// the smoothed statistics.
pub struct Simulation {
    current: Grid,
    spare: Grid,
    rules: Rules,
    limits: Limits,
    rng: rand::rngs::StdRng,
    random_seed: u64,
    step: usize,
    stats: Statistics,
}

/// `snap` is exactly the snapshot that describes the present state of
/// `sim`: the board packed into hex lines, the rules written back into
/// their human form, and the seed and limits carried over.
pub open spec fn spec_snap_matches(sim: Simulation, snap: Snap) -> bool {
    &&& snap.spec_seed() == sim.spec_seed()
    &&& snap.spec_limits() == sim.spec_limits()
    &&& match snap.spec_data() {
        Data::Grid(lines) => crate::data::spec_encoded_lines(sim.spec_grid(), lines@),
        Data::Random { .. } => false,
    }
    &&& crate::rules::spec_unparses_to(sim.spec_rules(), snap.spec_rules())
}

/// What one `advance` call does, given the coins it drew: the board is
/// stepped cell by cell; an empty successor board concludes `Extinct`
/// (before the statistics are touched); otherwise the ratio is folded
/// into the statistics, a step counter beyond the limit concludes `Done`
/// with a resumable snapshot, a saturated average concludes `Saturate`,
/// and otherwise the analysis is returned and the run continues.
pub open spec fn spec_advance_rel(
    pre: Simulation,
    post: Simulation,
    coins: Seq<u32>,
    r: Result<GridAnalysis, Conclusion>,
) -> bool {
    &&& coins.len() == pre.spec_grid().spec_area()
    &&& (forall|i: int| 0 <= i < coins.len() ==> #[trigger] coins[i] < PROB_ONE)
    &&& spec_stepped(pre.spec_grid(), pre.spec_rules(), coins, post.spec_grid())
    &&& {
        let ratio = post.spec_grid().spec_alive_ratio() as u32;
        if grid_empty(post.spec_grid()) {
            &&& r == Result::<GridAnalysis, Conclusion>::Err(Conclusion::Extinct)
            &&& post.spec_stats() == pre.spec_stats()
        } else {
            &&& post.spec_stats() == spec_stats_update(
                pre.spec_stats(),
                ratio,
                pre.spec_limits().update_weight,
            )
            &&& if post.spec_step() > pre.spec_limits().max_steps {
                &&& r is Err
                &&& (r->Err_0 matches Conclusion::Done(st, sn) ==> st == post.spec_stats()
                    && spec_snap_matches(post, sn))
                &&& (r->Err_0 is Done)
            } else if post.spec_stats().alive_ratio_average > SATURATE_LIMIT {
                r == Result::<GridAnalysis, Conclusion>::Err(Conclusion::Saturate)
            } else {
                r == Result::<GridAnalysis, Conclusion>::Ok(GridAnalysis { alive_ratio: ratio })
            }
        }
    }
}

impl Simulation {
    pub closed spec fn spec_grid(self) -> Grid {
        self.current
    }

    pub closed spec fn spec_rules(self) -> Rules {
        self.rules
    }

    pub closed spec fn spec_limits(self) -> Limits {
        self.limits
    }

    pub closed spec fn spec_seed(self) -> u64 {
        self.random_seed
    }

    pub closed spec fn spec_step(self) -> int {
        self.step as int
    }

    pub closed spec fn spec_stats(self) -> Statistics {
        self.stats
    }

    pub closed spec fn spec_spare(self) -> Grid {
        self.spare
    }

    /// Established by `new` and preserved by every step.
    pub open spec fn wf(self) -> bool {
        &&& self.spec_grid().wf()
        &&& self.spec_spare().wf()
        &&& self.spec_spare().spec_size() == self.spec_grid().spec_size()
        &&& self.spec_grid().spec_size().x % 4 == 0
        &&& self.spec_rules().wf()
        &&& self.spec_rules().probs_ok()
        &&& self.spec_limits().spec_valid()
        &&& self.spec_stats().wf()
    }

    /// Build a simulation from a snapshot: parse the rules, build the
    /// board (drawing from a generator seeded with the snapshot's seed),
    /// and validate the limits and the parsed probabilities, in that
    /// order.
    pub fn new(snap: &Snap) -> (r: Result<Simulation, SnapError>)
        requires
            snap.spec_rules().input_wf(),
        ensures
            match r {
                Ok(sim) => spec_sim_of_snap(*snap, sim),
                Err(SnapError::RulesParse(e)) => snap.spec_rules().spec_parse_error_matches(e),
                Err(SnapError::DataParse(e)) => snap.spec_rules().spec_parse_ok()
                    && snap.spec_data().spec_parse_error_matches(e),
                Err(SnapError::InvalidLimits) => snap.spec_rules().spec_parse_ok()
                    && snap.spec_data().spec_parse_ok() && !snap.spec_limits().spec_valid(),
                Err(SnapError::InvalidRules) => snap.spec_rules().spec_parse_ok()
                    && snap.spec_data().spec_parse_ok() && snap.spec_limits().spec_valid()
                    && !snap.spec_rules().spec_parsed_probs_ok(),
            },
    {
        let rules = match snap.rules.parse() {
            Ok(rules) => rules,
            Err(e) => {
                return Err(SnapError::RulesParse(e));
            },
        };
        let mut rng = rng_from_seed(snap.random_seed);
        let grid = match snap.data.parse(&mut rng) {
            Ok(grid) => grid,
            Err(e) => {
                return Err(SnapError::DataParse(e));
            },
        };
        if !snap.limits.are_valid() {
            return Err(SnapError::InvalidLimits);
        }
        if !rules.are_valid() {
            return Err(SnapError::InvalidRules);
        }
        let size = grid.size();
        let spare = Grid::new(size);
        let avg: u32 = match snap.data {
            Data::Random { alive_ratio, .. } => alive_ratio,
            Data::Grid(_) => 0,
        };
        Ok(
            Simulation {
                current: grid,
                spare,
                rules,
                limits: snap.limits,
                rng,
                random_seed: snap.random_seed,
                step: 0,
                stats: Statistics { alive_ratio_average: avg, alive_ratio_variance: 0 },
            },
        )
    }

    /// Pack the present state into a snapshot that reproduces it.
    pub fn save_snap(&self) -> (snap: Snap)
        requires
            self.wf(),
        ensures
            spec_snap_matches(*self, snap),
    {
        let data = Data::unparse(&self.current);
        let rules = HumanRules::unparse(&self.rules);
        Snap { data, rules, random_seed: self.random_seed, limits: self.limits }
    }

    pub fn stats(&self) -> (r: &Statistics)
        ensures
            *r == self.spec_stats(),
    {
        &self.stats
    }

    pub fn last_step(&self) -> (r: usize)
        ensures
            r == self.spec_step(),
    {
        self.step
    }

    pub fn random_seed(&self) -> (r: u64)
        ensures
            r == self.spec_seed(),
    {
        self.random_seed
    }

    pub fn limits(&self) -> (r: &Limits)
        ensures
            *r == self.spec_limits(),
    {
        &self.limits
    }

    pub fn grid(&self) -> (r: &Grid)
        ensures
            *r == self.spec_grid(),
    {
        &self.current
    }

    /// Advance the automaton by one step, drawing one coin per cell from
    /// the owned generator in row-major order, then fold the board
    /// analysis into the statistics and check the terminal conditions,
    /// extinction first. The board concludes `Extinct` exactly when the
    /// stepped board is empty, whatever the step count.
    pub fn advance(&mut self) -> (r: Result<GridAnalysis, Conclusion>)
        requires
            old(self).wf(),
        ensures
            final(self).wf(),
            final(self).spec_rules() == old(self).spec_rules(),
            final(self).spec_limits() == old(self).spec_limits(),
            final(self).spec_seed() == old(self).spec_seed(),
            final(self).spec_grid().spec_size() == old(self).spec_grid().spec_size(),
            final(self).spec_step() == if old(self).spec_step() + 1 <= usize::MAX {
                old(self).spec_step() + 1
            } else {
                usize::MAX as int
            },
            exists|coins: Seq<u32>|
                spec_advance_rel(*old(self), *final(self), coins, r),
            (r matches Err(c) && c is Extinct) <==> grid_empty(final(self).spec_grid()),
    {
        let size = self.current.size();
        proof {
            assert(0 < (size.x as int) * (size.y as int) <= 0x4000_0000) by (nonlinear_arith)
                requires
                    0 < size.x as int <= 0x8000,
                    0 < size.y as int <= 0x8000,
            {}
        }
        let area: usize = (size.x as usize) * (size.y as usize);
        let mut coins: Vec<u32> = Vec::new();
        let mut i: usize = 0;
        while i < area
            invariant
                i <= area,
                coins@.len() == i,
                forall|j: int| 0 <= j < i ==> #[trigger] coins@[j] < PROB_ONE,
                self.current == old(self).current,
                self.spare == old(self).spare,
                self.rules == old(self).rules,
                self.limits == old(self).limits,
                self.random_seed == old(self).random_seed,
                self.step == old(self).step,
                self.stats == old(self).stats,
            decreases area - i,
        {
            let raw = rng_next_u32(&mut self.rng);
            let coin = raw >> 8;
            proof {
                assert(raw >> 8u32 < 0x100_0000u32) by (bit_vector);
            }
            coins.push(coin);
            i = i + 1;
        }
        step_grid_into(&self.current, &self.rules, &coins, &mut self.spare);
        core::mem::swap(&mut self.current, &mut self.spare);
        self.step = self.step.saturating_add(1);
        let analysis = self.current.analyze();
        let upd = self.stats.update(analysis, &self.limits);
        let res: Result<GridAnalysis, Conclusion> = match upd {
            Err(Conclusion::Extinct) => Err(Conclusion::Extinct),
            other => {
                if self.step > self.limits.max_steps {
                    let snap = self.save_snap();
                    Err(Conclusion::Done(self.stats, snap))
                } else {
                    other
                }
            },
        };
        proof {
            assert(spec_advance_rel(*old(self), *self, coins@, res));
        }
        res
    }
}

/// The classic Life kernel: the eight neighbors, each with weight one,
/// exactly as parsing the diagram rows "111", "1X1", "111" yields them.
pub open spec fn conway_kernel() -> Seq<(Coordinates, Weight)> {
    seq![
        (Coordinates { x: -1i32, y: -1i32 }, 1u32),
        (Coordinates { x: 0i32, y: -1i32 }, 1u32),
        (Coordinates { x: 1i32, y: -1i32 }, 1u32),
        (Coordinates { x: -1i32, y: 0i32 }, 1u32),
        (Coordinates { x: 1i32, y: 0i32 }, 1u32),
        (Coordinates { x: -1i32, y: 1i32 }, 1u32),
        (Coordinates { x: 0i32, y: 1i32 }, 1u32),
        (Coordinates { x: 1i32, y: 1i32 }, 1u32),
    ]
}

/// Number of live cells among the eight neighbors of `(x, y)`.
pub open spec fn conway_neighbors(prev: Grid, x: int, y: int) -> int {
    (if prev.spec_alive(x - 1, y - 1) {
        1int
    } else {
        0int
    }) + (if prev.spec_alive(x, y - 1) {
        1int
    } else {
        0int
    }) + (if prev.spec_alive(x + 1, y - 1) {
        1int
    } else {
        0int
    }) + (if prev.spec_alive(x - 1, y) {
        1int
    } else {
        0int
    }) + (if prev.spec_alive(x + 1, y) {
        1int
    } else {
        0int
    }) + (if prev.spec_alive(x - 1, y + 1) {
        1int
    } else {
        0int
    }) + (if prev.spec_alive(x, y + 1) {
        1int
    } else {
        0int
    }) + (if prev.spec_alive(x + 1, y + 1) {
        1int
    } else {
        0int
    })
}

/// The rules of classic Life: the eight-neighbor kernel, birth exactly
/// on score 3, survival exactly on scores 2 and 3, with certain (1.0)
/// probabilities.
pub open spec fn conway_rules(rules: Rules) -> bool {
    &&& rules.spec_kernel() == conway_kernel()
    &&& rules.spec_spawn() == seq![0u32, 0u32, 0u32, PROB_ONE, 0u32, 0u32, 0u32, 0u32, 0u32]
    &&& rules.spec_keep() == seq![0u32, 0u32, PROB_ONE, PROB_ONE, 0u32, 0u32, 0u32, 0u32, 0u32]
}

/// Under the classic Life rules the coin cancels: probabilities are 0
/// or 1 and every coin lies below 1, so each cell's transition is the
/// Conway step — an empty cell is born exactly on three live neighbors,
/// a live cell survives exactly on two or three — for every draw.
pub proof fn lemma_conway_cell(prev: Grid, rules: Rules, x: int, y: int, coin: u32)
    requires
        conway_rules(rules),
        coin < PROB_ONE,
    ensures
        (spec_next_cell(prev, rules, x, y, coin) is Some) <==> ({
            let n = conway_neighbors(prev, x, y);
            if prev.spec_alive(x, y) {
                n == 2 || n == 3
            } else {
                n == 3
            }
        }),
{
    let ker = rules.spec_kernel();
    let n = conway_neighbors(prev, x, y);
    assert(ker[0] == (Coordinates { x: -1i32, y: -1i32 }, 1u32));
    assert(ker[1] == (Coordinates { x: 0i32, y: -1i32 }, 1u32));
    assert(ker[2] == (Coordinates { x: 1i32, y: -1i32 }, 1u32));
    assert(ker[3] == (Coordinates { x: -1i32, y: 0i32 }, 1u32));
    assert(ker[4] == (Coordinates { x: 1i32, y: 0i32 }, 1u32));
    assert(ker[5] == (Coordinates { x: -1i32, y: 1i32 }, 1u32));
    assert(ker[6] == (Coordinates { x: 0i32, y: 1i32 }, 1u32));
    assert(ker[7] == (Coordinates { x: 1i32, y: 1i32 }, 1u32));
    assert(spec_score(prev, ker, x, y, 0) == 0);
    assert(spec_score(prev, ker, x, y, 1) == spec_score(prev, ker, x, y, 0) + (if prev.spec_alive(x - 1, y - 1) {
        1int
    } else {
        0int
    }));
    assert(spec_score(prev, ker, x, y, 2) == spec_score(prev, ker, x, y, 1) + (if prev.spec_alive(x, y - 1) {
        1int
    } else {
        0int
    }));
    assert(spec_score(prev, ker, x, y, 3) == spec_score(prev, ker, x, y, 2) + (if prev.spec_alive(x + 1, y - 1) {
        1int
    } else {
        0int
    }));
    assert(spec_score(prev, ker, x, y, 4) == spec_score(prev, ker, x, y, 3) + (if prev.spec_alive(x - 1, y) {
        1int
    } else {
        0int
    }));
    assert(spec_score(prev, ker, x, y, 5) == spec_score(prev, ker, x, y, 4) + (if prev.spec_alive(x + 1, y) {
        1int
    } else {
        0int
    }));
    assert(spec_score(prev, ker, x, y, 6) == spec_score(prev, ker, x, y, 5) + (if prev.spec_alive(x - 1, y + 1) {
        1int
    } else {
        0int
    }));
    assert(spec_score(prev, ker, x, y, 7) == spec_score(prev, ker, x, y, 6) + (if prev.spec_alive(x, y + 1) {
        1int
    } else {
        0int
    }));
    assert(spec_score(prev, ker, x, y, 8) == spec_score(prev, ker, x, y, 7) + (if prev.spec_alive(x + 1, y + 1) {
        1int
    } else {
        0int
    }));
    assert(spec_score(prev, ker, x, y, 8) == n);
    assert(0 <= n <= 8);
    assert(rules.spec_spawn()[3] == PROB_ONE && rules.spec_keep()[2] == PROB_ONE
        && rules.spec_keep()[3] == PROB_ONE);
    assert(forall|k: int|
        0 <= k < 9 && k != 3 ==> #[trigger] rules.spec_spawn()[k] == 0u32) by {
        assert(rules.spec_spawn() =~= seq![0u32, 0u32, 0u32, PROB_ONE, 0u32, 0u32, 0u32, 0u32, 0u32]);
    }
    assert(forall|k: int|
        0 <= k < 9 && k != 2 && k != 3 ==> #[trigger] rules.spec_keep()[k] == 0u32) by {
        assert(rules.spec_keep() =~= seq![0u32, 0u32, PROB_ONE, PROB_ONE, 0u32, 0u32, 0u32, 0u32, 0u32]);
    }
}

/// Classic Life on the whole board: in a stepped board, under the
/// classic rules, a cell is alive exactly when Conway's rule says so of
/// its predecessors — for every random draw.
pub proof fn lemma_conway_board(
    prev: Grid,
    rules: Rules,
    coins: Seq<u32>,
    g: Grid,
    x: int,
    y: int,
)
    requires
        prev.wf(),
        g.wf(),
        conway_rules(rules),
        spec_stepped(prev, rules, coins, g),
        coins.len() == prev.spec_area(),
        forall|i: int| 0 <= i < coins.len() ==> #[trigger] coins[i] < PROB_ONE,
        0 <= x < prev.spec_size().x,
        0 <= y < prev.spec_size().y,
    ensures
        g.spec_alive(x, y) <==> ({
            let n = conway_neighbors(prev, x, y);
            if prev.spec_alive(x, y) {
                n == 2 || n == 3
            } else {
                n == 3
            }
        }),
{
    let w = prev.spec_size().x as int;
    let h = prev.spec_size().y as int;
    let i = y * w + x;
    assert(0 <= i < w * h && i < coins.len()) by (nonlinear_arith)
        requires
            0 <= x < w,
            0 <= y < h,
            i == y * w + x,
            coins.len() == w * h,
    {}
    crate::grid::lemma_index_identity(g, x, y);
    crate::grid::lemma_flat_index(w, y, x);
    assert(g.spec_cells()[i] == spec_next_cell(prev, rules, x, y, coins[i]));
    lemma_conway_cell(prev, rules, x, y, coins[i]);
}

/// Score of the cell at in-range coordinates `(x, y)`.
fn score_at(prev: &Grid, rules: &Rules, x: i32, y: i32) -> (s: u64)
    requires
        prev.wf(),
        rules.wf(),
        0 <= x < prev.spec_size().x,
        0 <= y < prev.spec_size().y,
    ensures
        s == spec_score(*prev, rules.spec_kernel(), x as int, y as int, rules.spec_kernel().len() as int),
        s <= rules.spec_total(),
{
    let n = rules.kernel.len();
    let mut s: u64 = 0;
    let mut k: usize = 0;
    while k < n
        invariant
            prev.wf(),
            rules.wf(),
            0 <= x < prev.spec_size().x,
            0 <= y < prev.spec_size().y,
            n == rules.spec_kernel().len(),
            k <= n,
            s == spec_score(*prev, rules.spec_kernel(), x as int, y as int, k as int),
            s <= crate::rules::weight_prefix(rules.spec_kernel(), k as int),
        decreases n - k,
    {
        proof {
            crate::rules::lemma_weight_prefix_bounds(rules.spec_kernel(), n as int);
            crate::rules::lemma_weight_prefix_bounds(rules.spec_kernel(), k as int + 1);
            lemma_score_le_total(*prev, rules.spec_kernel(), x as int, y as int, k as int + 1);
        }
        let (off, wgt) = rules.kernel[k];
        if prev.get(x + off.x, y + off.y).is_some() {
            s = s + (wgt as u64);
        }
        k = k + 1;
    }
    proof {
        lemma_score_le_total(*prev, rules.spec_kernel(), x as int, y as int, n as int);
    }
    s
}

/// Blend the ancestry statistics of a newborn from its live neighbors.
fn born_stats(prev: &Grid, rules: &Rules, x: i32, y: i32, score: u64) -> (t: (i64, i64, i64))
    requires
        prev.wf(),
        rules.wf(),
        0 <= x < prev.spec_size().x,
        0 <= y < prev.spec_size().y,
        0 < score <= rules.spec_total(),
    ensures
        ({
            let ker = rules.spec_kernel();
            let n = ker.len() as int;
            &&& t.0 == spec_breed_acc(*prev, ker, x as int, y as int, score as int, n)
            &&& t.1 == spec_vel_acc(*prev, ker, x as int, y as int, score as int, 0, n)
            &&& t.2 == spec_vel_acc(*prev, ker, x as int, y as int, score as int, 1, n)
            &&& -STAT_CAP <= t.0 <= STAT_CAP
            &&& -STAT_CAP <= t.1 <= STAT_CAP
            &&& -STAT_CAP <= t.2 <= STAT_CAP
        }),
{
    let n = rules.kernel.len();
    let mut breed: i64 = 0;
    let mut velx: i64 = 0;
    let mut vely: i64 = 0;
    let mut k: usize = 0;
    proof {
        crate::rules::lemma_weight_prefix_bounds(rules.spec_kernel(), n as int);
    }
    while k < n
        invariant
            prev.wf(),
            rules.wf(),
            0 <= x < prev.spec_size().x,
            0 <= y < prev.spec_size().y,
            0 < score <= rules.spec_total(),
            rules.spec_total() <= 0x9_000_000,
            n == rules.spec_kernel().len(),
            k <= n,
            breed == spec_breed_acc(*prev, rules.spec_kernel(), x as int, y as int, score as int, k as int),
            velx == spec_vel_acc(*prev, rules.spec_kernel(), x as int, y as int, score as int, 0, k as int),
            vely == spec_vel_acc(*prev, rules.spec_kernel(), x as int, y as int, score as int, 1, k as int),
            -STAT_CAP <= breed <= STAT_CAP,
            -STAT_CAP <= velx <= STAT_CAP,
            -STAT_CAP <= vely <= STAT_CAP,
        decreases n - k,
    {
        let (off, wgt) = rules.kernel[k];
        match prev.get(x + off.x, y + off.y) {
            Some(cell) => {
                proof {
                    prev.lemma_index_in_range(x + off.x, y + off.y);
                    assert(crate::grid::opt_cell_wf(
                        prev.spec_cells()[prev.spec_index_of(x + off.x, y + off.y)],
                    ));
                    assert((cell.age as int) * (PROB_ONE as int) < STAT_CAP)
                        by (nonlinear_arith)
                        requires
                            0 <= (cell.age as int),
                            (cell.age as int) < 0x1_0000_0000,
                            PROB_ONE == 0x100_0000,
                            STAT_CAP == 0x100_0000_0000_0000,
                    {}
                    assert(-STAT_CAP <= -(off.x as int) * (PROB_ONE as int) <= STAT_CAP
                        && -STAT_CAP <= -(off.y as int) * (PROB_ONE as int) <= STAT_CAP)
                        by (nonlinear_arith)
                        requires
                            -0x4000 <= off.x as int <= 0x4000,
                            -0x4000 <= off.y as int <= 0x4000,
                            PROB_ONE == 0x100_0000,
                            STAT_CAP == 0x100_0000_0000_0000,
                    {}
                }
                let b = crate::fixed::blend((cell.age as i64) * (PROB_ONE as i64), cell.avg_breed_age);
                let vx = crate::fixed::blend(-(off.x as i64) * (PROB_ONE as i64), cell.avg_velocity[0]);
                let vy = crate::fixed::blend(-(off.y as i64) * (PROB_ONE as i64), cell.avg_velocity[1]);
                proof {
                    assert(-9 * STAT_CAP <= (wgt as int) * b <= 9 * STAT_CAP && -9 * STAT_CAP
                        <= (wgt as int) * vx <= 9 * STAT_CAP && -9 * STAT_CAP <= (wgt as int)
                        * vy <= 9 * STAT_CAP) by (nonlinear_arith)
                        requires
                            0 <= wgt as int <= 9,
                            -STAT_CAP <= b as int <= STAT_CAP,
                            -STAT_CAP <= vx as int <= STAT_CAP,
                            -STAT_CAP <= vy as int <= STAT_CAP,
                            STAT_CAP == 0x100_0000_0000_0000,
                    {}
                }
                let tb = crate::fixed::tdiv_i64((wgt as i64) * b, score as i64);
                let tx = crate::fixed::tdiv_i64((wgt as i64) * vx, score as i64);
                let ty = crate::fixed::tdiv_i64((wgt as i64) * vy, score as i64);
                breed = crate::fixed::sat_add(breed, tb);
                velx = crate::fixed::sat_add(velx, tx);
                vely = crate::fixed::sat_add(vely, ty);
            },
            None => {},
        }
        k = k + 1;
    }
    (breed, velx, vely)
}

/// Decide the next state of the cell at in-range `(x, y)` from one coin.
pub fn step_cell(prev: &Grid, rules: &Rules, x: i32, y: i32, coin: u32) -> (c: Option<Cell>)
    requires
        prev.wf(),
        rules.wf(),
        0 <= x < prev.spec_size().x,
        0 <= y < prev.spec_size().y,
    ensures
        c == spec_next_cell(*prev, *rules, x as int, y as int, coin),
        crate::grid::opt_cell_wf(c),
{
    let score = score_at(prev, rules, x, y);
    proof {
        crate::rules::lemma_weight_prefix_bounds(rules.spec_kernel(), rules.spec_kernel().len() as int);
    }
    let idx = score as usize;
    match prev.get(x, y) {
        None => {
            if coin < rules.spawn[idx] {
                if score == 0 {
                    Some(Cell { age: 1, avg_breed_age: 0, avg_velocity: [0i64, 0i64] })
                } else {
                    let (breed, velx, vely) = born_stats(prev, rules, x, y, score);
                    Some(Cell { age: 1, avg_breed_age: breed, avg_velocity: [velx, vely] })
                }
            } else {
                None
            }
        },
        Some(cell) => {
            if coin < rules.keep[idx] {
                proof {
                    prev.lemma_index_in_range(x as int, y as int);
                    assert(crate::grid::opt_cell_wf(
                        prev.spec_cells()[prev.spec_index_of(x as int, y as int)],
                    ));
                }
                let age = cell.age.saturating_add(1);
                let vx = crate::fixed::blend(0, cell.avg_velocity[0]);
                let vy = crate::fixed::blend(0, cell.avg_velocity[1]);
                Some(Cell { age, avg_breed_age: cell.avg_breed_age, avg_velocity: [vx, vy] })
            } else {
                None
            }
        },
    }
}

/// Step the whole board: write into `next` the successor of `prev` under
/// `rules`, consuming one coin per cell in row-major order.
pub fn step_grid_into(prev: &Grid, rules: &Rules, coins: &Vec<u32>, next: &mut Grid)
    requires
        prev.wf(),
        rules.wf(),
        old(next).wf(),
        old(next).spec_size() == prev.spec_size(),
        coins@.len() == prev.spec_area(),
    ensures
        final(next).wf(),
        final(next).spec_size() == prev.spec_size(),
        spec_stepped(*prev, *rules, coins@, *final(next)),
{
    let size = prev.size();
    let w = size.x;
    let h = size.y;
    let mut y: i32 = 0;
    while y < h
        invariant
            prev.wf(),
            rules.wf(),
            next.wf(),
            next.spec_size() == prev.spec_size(),
            coins@.len() == prev.spec_area(),
            w == prev.spec_size().x,
            h == prev.spec_size().y,
            0 <= y <= h,
            forall|i: int|
                0 <= i < y * w ==> #[trigger] next.spec_cells()[i] == spec_next_cell(
                    *prev,
                    *rules,
                    i % w as int,
                    i / w as int,
                    coins@[i],
                ),
        decreases h - y,
    {
        let mut x: i32 = 0;
        while x < w
            invariant
                prev.wf(),
                rules.wf(),
                next.wf(),
                next.spec_size() == prev.spec_size(),
                coins@.len() == prev.spec_area(),
                w == prev.spec_size().x,
                h == prev.spec_size().y,
                0 <= y < h,
                0 <= x <= w,
                forall|i: int|
                    0 <= i < y * w + x ==> #[trigger] next.spec_cells()[i] == spec_next_cell(
                        *prev,
                        *rules,
                        i % w as int,
                        i / w as int,
                        coins@[i],
                    ),
            decreases w - x,
        {
            proof {
                assert(0 <= y * w && y * w + x < coins@.len() && y * w + w <= coins@.len()
                    && coins@.len() <= 0x4000_0000) by (nonlinear_arith)
                    requires
                        0 <= y as int,
                        y as int + 1 <= h as int,
                        0 <= x as int,
                        (x as int) < w as int,
                        0 < w as int <= 0x8000,
                        0 < h as int <= 0x8000,
                        coins@.len() == (w as int) * (h as int),
                {}
            }
            let i: usize = (y as usize) * (w as usize) + (x as usize);
            let c = step_cell(prev, rules, x, y, coins[i]);
            let ghost before = *next;
            proof {
                next.lemma_index_in_range(x as int, y as int);
                crate::grid::lemma_index_identity(*next, x as int, y as int);
            }
            let slot = next.mutate(x, y);
            *slot = c;
            proof {
                crate::grid::lemma_flat_index(w as int, y as int, x as int);
                assert forall|i2: int| 0 <= i2 < y * w + x + 1 implies #[trigger] next
                    .spec_cells()[i2] == spec_next_cell(
                    *prev,
                    *rules,
                    i2 % w as int,
                    i2 / w as int,
                    coins@[i2],
                ) by {
                    if i2 < y * w + x {
                        assert(next.spec_cells()[i2] == before.spec_cells()[i2]);
                    }
                }
                assert forall|i2: int| 0 <= i2 < next.spec_cells().len() implies
                    crate::grid::opt_cell_wf(#[trigger] next.spec_cells()[i2]) by {
                    if i2 != y * w + x {
                        assert(next.spec_cells()[i2] == before.spec_cells()[i2]);
                        assert(crate::grid::opt_cell_wf(before.spec_cells()[i2]));
                    }
                }
            }
            x = x + 1;
        }
        y = y + 1;
        proof {
            assert((y as int - 1) * w + w == y as int * w) by (nonlinear_arith)
                requires
                    w as int == w as int,
            {}
        }
    }
    proof {
        assert(h as int * w as int == next.spec_cells().len());
    }
}

} // verus!
