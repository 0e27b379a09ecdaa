//! The simulated-annealing optimizer.
//!
//! The optimizer owns a tour — a permutation of `1..=n` read as a
//! Hamiltonian cycle — and a temperature.  Each iteration swaps two random
//! tour positions, accepts the candidate when it is no worse, and
//! otherwise accepts with the Metropolis probability `exp(-delta / T)`;
//! after a fixed-length era the temperature is multiplied by the cooling
//! factor, and the search stops once it falls below the floor.
//!
//! Temperatures are fixed-point integers in thousandths ("milli"), the
//! cooling factor is given in thousandths as well, and the Metropolis
//! probability is evaluated in fixed point, so the whole acceptance rule
//! is exact integer arithmetic and verified as such.

use vstd::prelude::*;

use crate::graph::Graph;
use crate::graph::MAX_VERTICES;
use crate::graph::vertices_in_range;
use crate::rng::Rng;

verus! {

#[verifier::external_type_specification]
#[verifier::external_body]
pub struct ExInstant(std::time::Instant);

/// Relies on `std::time::Instant::now`: an opaque reading of the
/// monotonic clock; nothing is assumed about its value.
#[verifier::external_body]
fn instant_now() -> std::time::Instant {
    std::time::Instant::now()
}

/// Relies on `std::time::Instant::elapsed`: the time since `start`;
/// nothing is assumed about its value.
#[verifier::external_body]
fn instant_elapsed(start: &std::time::Instant) -> std::time::Duration {
    start.elapsed()
}

/// Relies on `std::time::Duration::as_nanos`: the duration in whole
/// nanoseconds; nothing is assumed about its value.
#[verifier::external_body]
fn duration_nanos(d: &std::time::Duration) -> u128 {
    d.as_nanos()
}

/// Largest accepted starting temperature, in thousandths: keeps the
/// cooling multiplication inside `u64`.
pub const MAX_TEMP_MILLI: u64 = 10_000_000_000_000_000;

/// A configuration the optimizer refuses to run with.
#[derive(Clone, Copy, PartialEq, Eq, Structural, Debug)]
pub enum ConfigError {
    /// Fewer than two vertices leave nothing to swap.
    TooFewVertices,
    /// A cooling factor of 1.0 or more would never cool: the run would
    /// not terminate.
    CoolingNotDecreasing,
    /// A cooling factor of zero is outside the open interval (0, 1).
    CoolingZero,
    /// A temperature floor of zero would never be reached: the run would
    /// not terminate.
    FloorZero,
    /// A starting temperature of zero is below the fixed-point
    /// resolution.
    TemperatureZero,
    /// A starting temperature above `MAX_TEMP_MILLI`.
    TemperatureTooHigh,
}

/// The optimizer's inputs besides the graph: starting temperature and
/// temperature floor in thousandths, iterations per era, and the cooling
/// factor in thousandths (900 stands for 0.9).
#[derive(Clone, Copy, PartialEq, Eq, Structural, Debug)]
pub struct AnnealConfig {
    pub initial_temp_milli: u64,
    pub era_len: u32,
    pub temp_floor_milli: u64,
    pub cooling_permille: u32,
}

impl AnnealConfig {
    /// A runnable configuration: at least two vertices, a positive
    /// temperature and floor, and a cooling factor strictly inside
    /// (0, 1).
    pub open spec fn spec_valid(self, n: int) -> bool {
        &&& n >= 2
        &&& 1 <= self.initial_temp_milli <= MAX_TEMP_MILLI
        &&& self.temp_floor_milli >= 1
        &&& 1 <= self.cooling_permille <= 999
    }

    /// Checks the configuration against the guards of the design: in
    /// particular a cooling factor of 1.0 or more is rejected here, so
    /// the optimizer can never be started on a schedule that would not
    /// terminate.
    pub fn validate(&self, n: usize) -> (r: Result<(), ConfigError>)
        ensures
            r is Ok <==> self.spec_valid(n as int),
            self.cooling_permille >= 1000 ==> r == Result::<(), ConfigError>::Err(
                ConfigError::CoolingNotDecreasing,
            ),
    {
        if self.cooling_permille >= 1000 {
            Err(ConfigError::CoolingNotDecreasing)
        } else if self.cooling_permille == 0 {
            Err(ConfigError::CoolingZero)
        } else if self.temp_floor_milli == 0 {
            Err(ConfigError::FloorZero)
        } else if self.initial_temp_milli == 0 {
            Err(ConfigError::TemperatureZero)
        } else if self.initial_temp_milli > MAX_TEMP_MILLI {
            Err(ConfigError::TemperatureTooHigh)
        } else if n < 2 {
            Err(ConfigError::TooFewVertices)
        } else {
            Ok(())
        }
    }
}

/// One accepted state: the time it was reached and the cost accepted.
#[derive(Clone, Copy, PartialEq, Eq, Structural, Debug)]
pub struct TracePoint {
    pub at_nanos: u128,
    pub cost: u64,
}

/// What a finished run hands back: the final (not best-ever) tour, its
/// cost, and the trace of every accepted state.
pub struct AnnealOutcome {
    pub cost: u64,
    pub tour: Vec<usize>,
    pub trace: Vec<TracePoint>,
}

/// `s` is a tour of `n` vertices: a permutation of `1..=n`.
pub open spec fn is_tour(s: Seq<usize>, n: int) -> bool {
    &&& s.len() == n
    &&& vertices_in_range(s, n)
    &&& forall|a: int, b: int| 0 <= a < b < s.len() ==> s[a] != s[b]
}

/// The starting tour: vertices in increasing order.
pub open spec fn identity_tour(n: int) -> Seq<usize> {
    Seq::new(n as nat, |i: int| (i + 1) as usize)
}

/// The optimizer's running invariant.  Until the first acceptance the
/// tour is the identity ordering and the held cost is its open-path cost
/// (the deliberate baseline asymmetry); from the first acceptance on, the held cost
/// is the cycle cost of the held tour and the trace's last entry records
/// it.
pub open spec fn state_ok(g: Graph, tour: Seq<usize>, cost: u64, trace: Seq<TracePoint>) -> bool {
    &&& is_tour(tour, g.spec_n())
    &&& if trace.len() == 0 {
        tour == identity_tour(g.spec_n()) && cost == g.spec_path_cost(tour)
    } else {
        cost == g.spec_cycle_cost(tour) && trace.last().cost == cost
    }
}

/// Twenty repeated fixed-point squarings at scale 2^30: computes
/// `(y / 2^30) ^ (2^20)` in fixed point.
pub open spec fn spec_sq_chain(y: int, k: nat) -> int
    decreases k,
{
    if k == 0 {
        y
    } else {
        spec_sq_chain((y * y) / 1073741824, (k - 1) as nat)
    }
}

/// The fixed-point Metropolis probability, in thousandths: an
/// approximation of `1000 * exp(-delta / temp)` computed as
/// `(1 - x / 2^20) ^ (2^20)` at scale 2^30, where `x = delta / temp`;
/// exactly 0 once `delta / temp` reaches 8, where the true probability
/// rounds to zero thousandths.
pub open spec fn spec_chance_permille(delta: int, temp: int) -> int {
    let x = (delta * 1000000000) / temp;
    if x >= 8000000 {
        0
    } else {
        (spec_sq_chain(1073741824 - (x * 1024) / 1000000, 20) * 1000) / 1073741824
    }
}

/// The Metropolis probability of a worsening move, in thousandths.
pub fn acceptance_chance(delta: u64, temp_milli: u64) -> (c: u32)
    requires
        1 <= delta,
        1 <= temp_milli,
    ensures
        c == spec_chance_permille(delta as int, temp_milli as int),
        c <= 1000,
        1000 * delta >= 8 * temp_milli ==> c == 0,
{
    let x128: u128 = (delta as u128) * 1000000000u128 / (temp_milli as u128);
    proof {
        assert(x128 == (delta as int * 1000000000) / (temp_milli as int));
        if 1000 * (delta as int) >= 8 * (temp_milli as int) {
            assert((delta as int * 1000000000) / (temp_milli as int) >= 8000000)
                by (nonlinear_arith)
                requires
                    1 <= temp_milli as int,
                    1000 * (delta as int) >= 8 * (temp_milli as int),
            ;
        }
    }
    if x128 >= 8000000 {
        return 0;
    }
    let x: u64 = x128 as u64;
    let y0: u64 = 1073741824 - (x * 1024) / 1000000;
    let ghost gy0 = y0 as int;
    let mut y: u64 = y0;
    let mut k: usize = 0;
    while k < 20
        invariant
            k <= 20,
            y <= 1073741824,
            spec_sq_chain(gy0, 20) == spec_sq_chain(y as int, (20 - k) as nat),
        decreases 20 - k,
    {
        proof {
            assert((y as int * y as int) / 1073741824 <= 1073741824 && y as int * y as int
                <= 1073741824 * 1073741824) by (nonlinear_arith)
                requires
                    0 <= y as int <= 1073741824,
            ;
        }
        y = (y * y) / 1073741824;
        k = k + 1;
    }
    proof {
        assert((y as int * 1000) / 1073741824 <= 1000) by (nonlinear_arith)
            requires
                0 <= y as int <= 1073741824,
        ;
    }
    let c: u32 = ((y * 1000) / 1073741824) as u32;
    c
}

/// The acceptance step of the optimizer (Metropolis rule), with the
/// stochastic draw handed in: a candidate no worse than the held cost is
/// always accepted; a worse one is accepted exactly when the uniform
/// draw from `1..=1000` does not exceed the fixed-point probability
/// `spec_chance_permille`.  In particular, once the temperature is small
/// against the worsening — `8 * temp_milli <= 1000 * delta`, that is
/// `delta / T >= 8` — no worsening candidate is ever accepted.
pub fn metropolis_accept(prev_cost: u64, cand_cost: u64, temp_milli: u64, draw_permille: u32) -> (accept:
    bool)
    requires
        1 <= temp_milli,
        1 <= draw_permille <= 1000,
    ensures
        accept == (cand_cost <= prev_cost || draw_permille <= spec_chance_permille(
            cand_cost - prev_cost,
            temp_milli as int,
        )),
        cand_cost <= prev_cost ==> accept,
        cand_cost > prev_cost && 1000 * (cand_cost - prev_cost) >= 8 * temp_milli ==> !accept,
{
    if cand_cost <= prev_cost {
        true
    } else {
        let delta = cand_cost - prev_cost;
        let c = acceptance_chance(delta, temp_milli);
        draw_permille <= c
    }
}

/// An exact copy of a tour.
fn clone_tour(v: &Vec<usize>) -> (r: Vec<usize>)
    ensures
        r@ == v@,
{
    let mut r: Vec<usize> = Vec::new();
    let mut k: usize = 0;
    while k < v.len()
        invariant
            k <= v@.len(),
            r@ == v@.take(k as int),
        decreases v@.len() - k,
    {
        r.push(v[k]);
        k = k + 1;
    }
    proof {
        assert(v@.take(v@.len() as int) =~= v@);
    }
    r
}

/// Runs `era_len` proposal/acceptance iterations at one temperature.
fn run_era(
    g: &Graph,
    n: usize,
    era_len: u32,
    temp_milli: u64,
    tour: &mut Vec<usize>,
    cost: &mut u64,
    trace: &mut Vec<TracePoint>,
    rng: &mut Rng,
    start: &std::time::Instant,
)
    requires
        g.wf(),
        n == g.spec_n(),
        n >= 2,
        1 <= temp_milli,
        state_ok(*g, old(tour)@, *old(cost), old(trace)@),
    ensures
        state_ok(*g, final(tour)@, *final(cost), final(trace)@),
{
    proof {
        g.wf_bounds();
    }
    let mut it: u32 = 0;
    while it < era_len
        invariant
            g.wf(),
            n == g.spec_n(),
            2 <= n <= MAX_VERTICES,
            1 <= temp_milli,
            it <= era_len,
            state_ok(*g, tour@, *cost, trace@),
        decreases era_len - it,
    {
        let pi = rng.next_in(0, n as u64) as usize;
        let pj0 = rng.next_in(0, (n - 1) as u64) as usize;
        let pj = if pj0 >= pi {
            pj0 + 1
        } else {
            pj0
        };
        let mut cand = clone_tour(tour);
        let va = cand[pi];
        let vb = cand[pj];
        cand[pi] = vb;
        cand[pj] = va;
        proof {
            assert(is_tour(cand@, n as int)) by {
                assert(forall|k: int|
                    0 <= k < cand@.len() ==> cand@[k] == (if k == pi {
                        tour@[pj as int]
                    } else if k == pj {
                        tour@[pi as int]
                    } else {
                        tour@[k]
                    }));
            }
        }
        let cand_cost = g.distance_cycle(&cand);
        let draw = rng.next_in(1, 1001) as u32;
        let accept = metropolis_accept(*cost, cand_cost, temp_milli, draw);
        if accept {
            let at = duration_nanos(&instant_elapsed(start));
            *tour = cand;
            *cost = cand_cost;
            trace.push(TracePoint { at_nanos: at, cost: cand_cost });
        }
        it = it + 1;
    }
}

/// Simulated annealing on `g`.  Starts from the identity tour, whose
/// baseline cost is deliberately its open-path cost — the closing edge
/// joins the comparison only from the first candidate on.  It then
/// proposes random position swaps, accepts by the Metropolis rule of
/// `metropolis_accept`, cools by `cooling_permille / 1000` after each era
/// and stops once the temperature falls below the floor — the validated
/// cooling factor below one makes that termination provable.  Returns
/// the final accepted tour, its cost, and the trace of accepted states;
/// an invalid configuration is rejected up front instead.
pub fn annealing(g: &Graph, n: usize, cfg: AnnealConfig, rng: &mut Rng) -> (r: Result<
    AnnealOutcome,
    ConfigError,
>)
    requires
        g.wf(),
        n == g.spec_n(),
    ensures
        r is Ok <==> cfg.spec_valid(n as int),
        cfg.cooling_permille >= 1000 ==> r is Err,
        r is Ok ==> state_ok(*g, r.unwrap().tour@, r.unwrap().cost, r.unwrap().trace@),
        r is Ok ==> is_tour(r.unwrap().tour@, n as int),
{
    if let Err(e) = cfg.validate(n) {
        return Err(e);
    }
    proof {
        g.wf_bounds();
    }
    let mut tour: Vec<usize> = Vec::new();
    let mut v: usize = 1;
    while v <= n
        invariant
            1 <= v <= n + 1,
            n <= MAX_VERTICES,
            tour@.len() == v - 1,
            forall|k: int| 0 <= k < v - 1 ==> #[trigger] tour@[k] == k + 1,
        decreases n + 1 - v,
    {
        tour.push(v);
        v = v + 1;
    }
    proof {
        assert(tour@ =~= identity_tour(n as int));
        assert(is_tour(tour@, n as int));
    }
    let mut cost = g.distance_vec(&tour);
    let mut trace: Vec<TracePoint> = Vec::new();
    let start = instant_now();
    let mut temp = cfg.initial_temp_milli;
    run_era(g, n, cfg.era_len, temp, &mut tour, &mut cost, &mut trace, rng, &start);
    proof {
        assert((temp as int * cfg.cooling_permille as int) / 1000 <= temp as int)
            by (nonlinear_arith)
            requires
                1 <= temp as int,
                cfg.cooling_permille as int <= 999,
        ;
    }
    temp = temp * (cfg.cooling_permille as u64) / 1000;
    while temp >= cfg.temp_floor_milli
        invariant
            g.wf(),
            n == g.spec_n(),
            2 <= n,
            cfg.spec_valid(n as int),
            temp <= MAX_TEMP_MILLI,
            state_ok(*g, tour@, cost, trace@),
        decreases temp,
    {
        run_era(g, n, cfg.era_len, temp, &mut tour, &mut cost, &mut trace, rng, &start);
        proof {
            assert((temp as int * cfg.cooling_permille as int) / 1000 < temp as int)
                by (nonlinear_arith)
                requires
                    1 <= temp as int,
                    1 <= cfg.cooling_permille as int <= 999,
            ;
        }
        temp = temp * (cfg.cooling_permille as u64) / 1000;
    }
    Ok(AnnealOutcome { cost, tour, trace })
}

} // verus!
