//! Force directed placement by Fruchterman and Reingold.
//!
//! The simulation runs over exact integer coordinates: repeated repulsion,
//! attraction and cooling steps from a seeded uniform initial placement. The
//! whole run is a mathematical function of `(graph, k, seed)` — the spec
//! model `spec_animate` pins every frame, and the executable engine is proved
//! to return exactly that sequence, free of overflow and division by zero.
//!
//! Forces follow the original paper, with a repulsion cutoff at twice the
//! ideal edge length and a distance floor of one unit in every division:
//! `f_r(r) = k*k / r` for `r < 2k` (else 0) and `f_a(r) = r*r / k`, the
//! latter applied as `delta * r / k`. Displacements are capped per node to
//! the current temperature, which cools linearly toward zero.
use vstd::prelude::*;

use crate::error::LayoutError;
use crate::graph::Graph;
use crate::layout::Coord;
use crate::layout::Point;
use crate::math::imax;
use crate::math::imin;
use crate::math::isqrt;
use crate::math::sdiv;
use crate::rng::coord_of;
use crate::rng::sm_draw;
use crate::scatter::ScatterLayout;
use crate::scatter::ScatterLayoutSequence;
use crate::scatter::bounded_pts;
use crate::scatter::pts_view;
use crate::Engine;

verus! {

use vstd::pervasive::VecAdditionalExecFns;
use vstd::arithmetic::div_mod::lemma_div_is_ordered;
use vstd::arithmetic::div_mod::lemma_div_by_multiple;
use vstd::arithmetic::div_mod::lemma_div_pos_is_pos;

/// Most nodes a single run may lay out; keeps every sum in 64-bit range.
pub const MAX_NODES: usize = 1024;

/// Most edges a single run may handle; keeps every sum in 64-bit range.
pub const MAX_EDGES: usize = 16384;

/// Largest accepted ideal edge length; keeps every product in 64-bit range.
pub const MAX_K: i64 = 1048576;

/// Number of simulation steps of one run.
pub const STEPS: usize = 200;

/// Distance between two points: the floor square root of the squared norm.
pub open spec fn dist(a: (int, int), b: (int, int)) -> int {
    isqrt(((a.0 - b.0) * (a.0 - b.0) + (a.1 - b.1) * (a.1 - b.1)) as nat) as int
}

/// Repulsive displacement of node at `pj` caused by a node at `pi`:
/// `(delta / r) * (k * k / r)` with a floor of 1 on the distance, and zero
/// beyond the cutoff of twice the ideal edge length.
pub open spec fn repulse_pair(pj: (int, int), pi: (int, int), k: int) -> (int, int) {
    let dx = pj.0 - pi.0;
    let dy = pj.1 - pi.1;
    let r = dist(pj, pi);
    if r < 2 * k {
        let rr = imax(r, 1);
        let fr = (k * k) / rr;
        (sdiv(dx * fr, rr), sdiv(dy * fr, rr))
    } else {
        (0, 0)
    }
}

/// Total repulsive displacement of node `j` from the nodes below index `m`.
pub open spec fn repulse_upto(pos: Seq<(int, int)>, j: int, k: int, m: int) -> (int, int)
    decreases m,
{
    if m <= 0 {
        (0, 0)
    } else {
        let prev = repulse_upto(pos, j, k, m - 1);
        if m - 1 == j {
            prev
        } else {
            let c = repulse_pair(pos[j], pos[m - 1], k);
            (prev.0 + c.0, prev.1 + c.1)
        }
    }
}

/// The repulsive displacement table: one entry per node.
pub open spec fn repulse_all(pos: Seq<(int, int)>, k: int) -> Seq<(int, int)> {
    Seq::new(pos.len(), |j: int| repulse_upto(pos, j, k, pos.len() as int))
}

/// Attractive pull along one edge from `pv` toward `pu`:
/// `(delta / max(r, 1)) * (r * r / k)`, which is `delta * r / k` exactly.
pub open spec fn attract_pair(pv: (int, int), pu: (int, int), k: int) -> (int, int) {
    let dx = pv.0 - pu.0;
    let dy = pv.1 - pu.1;
    let r = dist(pv, pu);
    (sdiv(dx * r, k), sdiv(dy * r, k))
}

/// Displacement table with the attraction of the edges below index `m`
/// folded in: each edge `(v, u)` pulls `v` toward `u` and `u` toward `v`.
pub open spec fn attract_upto(
    pos: Seq<(int, int)>,
    edges: Seq<(usize, usize)>,
    k: int,
    base: Seq<(int, int)>,
    m: int,
) -> Seq<(int, int)>
    decreases m,
{
    if m <= 0 {
        base
    } else {
        let d = attract_upto(pos, edges, k, base, m - 1);
        let e = edges[m - 1];
        let c = attract_pair(pos[e.0 as int], pos[e.1 as int], k);
        let d1 = d.update(e.0 as int, (d[e.0 as int].0 - c.0, d[e.0 as int].1 - c.1));
        d1.update(e.1 as int, (d1[e.1 as int].0 + c.0, d1[e.1 as int].1 + c.1))
    }
}

/// The all-zero displacement table.
pub open spec fn zero_disp(n: nat) -> Seq<(int, int)> {
    Seq::new(n, |i: int| (0, 0))
}

/// The attractive displacement table of a whole edge list.
pub open spec fn attract_all(pos: Seq<(int, int)>, edges: Seq<(usize, usize)>, k: int) -> Seq<
    (int, int),
> {
    attract_upto(pos, edges, k, zero_disp(pos.len()), edges.len() as int)
}

/// The combined displacement table: repulsion plus attraction per node.
pub open spec fn total_disp(pos: Seq<(int, int)>, edges: Seq<(usize, usize)>, k: int) -> Seq<
    (int, int),
> {
    Seq::new(
        pos.len(),
        |j: int|
            (
                repulse_all(pos, k)[j].0 + attract_all(pos, edges, k)[j].0,
                repulse_all(pos, k)[j].1 + attract_all(pos, edges, k)[j].1,
            ),
    )
}

/// Move one node by its displacement, capped in magnitude to the current
/// temperature while preserving direction.
pub open spec fn apply_one(p: (int, int), d: (int, int), t: int) -> (int, int) {
    let m = isqrt((d.0 * d.0 + d.1 * d.1) as nat) as int;
    let norm = imax(m, 1);
    let s = imin(t, norm);
    (p.0 + sdiv(d.0 * s, norm), p.1 + sdiv(d.1 * s, norm))
}

/// One full simulation step at temperature `t`.
pub open spec fn step_pos(
    pos: Seq<(int, int)>,
    edges: Seq<(usize, usize)>,
    k: int,
    t: int,
) -> Seq<(int, int)> {
    Seq::new(pos.len(), |j: int| apply_one(pos[j], total_disp(pos, edges, k)[j], t))
}

/// Temperature used at step `s` (0-based). Cooling happens at the end of a
/// step, to `(STEPS - s) * t0 / STEPS`, so steps 0 and 1 both run at `t0` and
/// the temperature then falls linearly.
pub open spec fn step_temp(t0: int, s: int) -> int {
    if s <= 0 {
        t0
    } else {
        ((STEPS - (s - 1)) * t0) / (STEPS as int)
    }
}

/// The initial placement: node `i` draws its x from draw `2 * i` and its y
/// from draw `2 * i + 1`, each folded uniformly into `[-half, half]`.
pub open spec fn init_pos(seed: u64, n: nat, half: int) -> Seq<(int, int)> {
    Seq::new(
        n,
        |i: int|
            (
                coord_of(sm_draw(seed, (2 * i) as nat), half),
                coord_of(sm_draw(seed, (2 * i + 1) as nat), half),
            ),
    )
}

/// The first `s + 1` frames of a run from a given initial placement.
pub open spec fn frames_upto(
    init: Seq<(int, int)>,
    edges: Seq<(usize, usize)>,
    k: int,
    t0: int,
    s: int,
) -> Seq<Seq<(int, int)>>
    decreases s,
{
    if s <= 0 {
        seq![init]
    } else {
        let prev = frames_upto(init, edges, k, t0, s - 1);
        prev.push(step_pos(prev.last(), edges, k, step_temp(t0, s - 1)))
    }
}

/// Every frame of one run: the layout sequence is exactly this function of
/// the graph, the ideal edge length and the seed.
pub open spec fn spec_animate(n: nat, edges: Seq<(usize, usize)>, k: int, seed: u64) -> Seq<
    Seq<(int, int)>,
> {
    let l = (isqrt(n) as int) * k;
    let half = l / 2;
    let t0 = l / 20;
    frames_upto(init_pos(seed, n, half), edges, k, t0, STEPS as int)
}

/// A run records one frame per step plus the initial placement.
pub proof fn lemma_frames_len(
    init: Seq<(int, int)>,
    edges: Seq<(usize, usize)>,
    k: int,
    t0: int,
    s: int,
)
    requires
        s >= 0,
    ensures
        frames_upto(init, edges, k, t0, s).len() == s + 1,
        frames_upto(init, edges, k, t0, s)[0] == init,
    decreases s,
{
    if s > 0 {
        lemma_frames_len(init, edges, k, t0, s - 1);
    }
}

/// `animate` returns exactly `STEPS + 1` frames, frame 0 being the initial
/// placement.
pub proof fn lemma_animate_len(n: nat, edges: Seq<(usize, usize)>, k: int, seed: u64)
    ensures
        spec_animate(n, edges, k, seed).len() == STEPS + 1,
        spec_animate(n, edges, k, seed)[0] == init_pos(
            seed,
            n,
            ((isqrt(n) as int) * k) / 2,
        ),
{
    let l = (isqrt(n) as int) * k;
    lemma_frames_len(init_pos(seed, n, l / 2), edges, k, l / 20, STEPS as int);
}

/// Every frame of a run has one row per node.
pub proof fn lemma_frames_shape(
    init: Seq<(int, int)>,
    edges: Seq<(usize, usize)>,
    k: int,
    t0: int,
    s: int,
)
    requires
        s >= 0,
    ensures
        forall|f: int|
            0 <= f < frames_upto(init, edges, k, t0, s).len() ==> (#[trigger] frames_upto(
                init,
                edges,
                k,
                t0,
                s,
            )[f]).len() == init.len(),
    decreases s,
{
    lemma_frames_len(init, edges, k, t0, s);
    if s > 0 {
        lemma_frames_shape(init, edges, k, t0, s - 1);
        lemma_frames_len(init, edges, k, t0, s - 1);
        let prev = frames_upto(init, edges, k, t0, s - 1);
        assert(prev.last() == prev[s - 1]);
        assert(step_pos(prev.last(), edges, k, step_temp(t0, s - 1)).len() == prev.last().len());
        assert(forall|f: int|
            0 <= f < prev.len() ==> #[trigger] frames_upto(init, edges, k, t0, s)[f] == prev[f]);
    }
}

/// Shape invariant of a whole run: `animate` yields `STEPS + 1` frames and
/// every frame has exactly one row per graph node.
pub proof fn lemma_animate_shape(n: nat, edges: Seq<(usize, usize)>, k: int, seed: u64)
    ensures
        spec_animate(n, edges, k, seed).len() == STEPS + 1,
        forall|f: int|
            0 <= f < spec_animate(n, edges, k, seed).len() ==> (#[trigger] spec_animate(
                n,
                edges,
                k,
                seed,
            )[f]).len() == n,
{
    let l = (isqrt(n) as int) * k;
    lemma_frames_len(init_pos(seed, n, l / 2), edges, k, l / 20, STEPS as int);
    lemma_frames_shape(init_pos(seed, n, l / 2), edges, k, l / 20, STEPS as int);
}

/// Cooling is monotone: the temperature used at a step never exceeds the
/// temperature used at any earlier step, and it never goes negative.
pub proof fn lemma_cooling_monotone(t0: int, s: int)
    requires
        t0 >= 0,
        0 <= s < STEPS,
    ensures
        0 <= step_temp(t0, s + 1) <= step_temp(t0, s) <= t0,
{
    let n = STEPS as int;
    lemma_div_by_multiple(t0, n);
    assert((t0 * n) / n == t0);
    if s == 0 {
        assert((n - 0) * t0 == t0 * n) by (nonlinear_arith);
        assert(step_temp(t0, 1) == t0);
    } else {
        assert((n - s) * t0 <= (n - (s - 1)) * t0 && 0 <= (n - s) * t0 && (n - (s - 1)) * t0 <= t0
            * n) by (nonlinear_arith)
            requires
                t0 >= 0,
                1 <= s < n,
        ;
        lemma_div_pos_is_pos((n - s) * t0, n);
        lemma_div_is_ordered((n - s) * t0, (n - (s - 1)) * t0, n);
        lemma_div_is_ordered((n - (s - 1)) * t0, t0 * n, n);
    }
}

/// The engine: produces a layout or a full animation of one graph, by the
/// iterative repulsion / attraction / cooling simulation.
pub struct FruchtermanReingold {
    k: i64,
    seed: u64,
}

impl FruchtermanReingold {
    /// The configured ideal edge length.
    pub closed spec fn k_spec(&self) -> int {
        self.k as int
    }

    /// The configured seed.
    pub closed spec fn seed_spec(&self) -> u64 {
        self.seed
    }

    #[verifier::type_invariant]
    pub(crate) open spec fn inv(self) -> bool {
        1 <= self.k_spec() <= MAX_K
    }

    /// Configure an engine with an ideal edge length and a seed. The edge
    /// length must be positive; the upper bound is a machine limit that
    /// keeps the force arithmetic in 64-bit range.
    pub fn new(k: i64, seed: u64) -> (r: Self)
        requires
            1 <= k <= MAX_K,
        ensures
            r.k_spec() == k,
            r.seed_spec() == seed,
    {
        FruchtermanReingold { k, seed }
    }
}

impl Default for FruchtermanReingold {
    /// The default configuration: ideal edge length 150, seed 0.
    fn default() -> (r: Self)
        ensures
            r.k_spec() == 150,
            r.seed_spec() == 0,
    {
        FruchtermanReingold { k: 150, seed: 0 }
    }
}

/// The integer values of a displacement table.
pub open spec fn disp_view(s: Seq<(i64, i64)>) -> Seq<(int, int)> {
    s.map_values(|d: (i64, i64)| (d.0 as int, d.1 as int))
}

/// No component exceeds the euclidean norm: `|d0| <= isqrt(d0^2 + d1^2)`.
proof fn lemma_component_le_norm(d0: int, d1: int)
    ensures
        vstd::math::abs(d0) <= isqrt((d0 * d0 + d1 * d1) as nat),
{
    let a = vstd::math::abs(d0) as int;
    assert(a * a == d0 * d0 && d0 * d0 + d1 * d1 >= d0 * d0 && a * a < (a + 1) * (a + 1)
        && a * a >= 0) by (nonlinear_arith)
        requires
            a == vstd::math::abs(d0) as int,
    ;
    crate::math::lemma_isqrt_unique((a * a) as nat, a as nat);
    crate::math::lemma_isqrt_ordered((a * a) as nat, (d0 * d0 + d1 * d1) as nat);
}

/// Each repulsive contribution is at most `k * k` per component.
proof fn lemma_repulse_pair_bound(pj: (int, int), pi: (int, int), k: int)
    requires
        k >= 1,
    ensures
        vstd::math::abs(repulse_pair(pj, pi, k).0) <= k * k,
        vstd::math::abs(repulse_pair(pj, pi, k).1) <= k * k,
        k * k >= 1,
{
    assert(k * k >= 1) by (nonlinear_arith)
        requires
            k >= 1,
    ;
    let dx = pj.0 - pi.0;
    let dy = pj.1 - pi.1;
    let r = dist(pj, pi);
    if r < 2 * k {
        let rr = imax(r, 1);
        let fr = (k * k) / rr;
        lemma_component_le_norm(dx, dy);
        lemma_component_le_norm(dy, dx);
        assert(dy * dy + dx * dx == dx * dx + dy * dy) by (nonlinear_arith);
        crate::math::lemma_sdiv_scale(dx, fr, rr);
        crate::math::lemma_sdiv_scale(dy, fr, rr);
        vstd::arithmetic::div_mod::lemma_div_pos_is_pos(k * k, rr);
        vstd::arithmetic::div_mod::lemma_div_nonincreasing(k * k, rr);
    }
}

/// A partial repulsion sum is at most `m * k * k` per component.
proof fn lemma_repulse_upto_bound(pos: Seq<(int, int)>, j: int, k: int, m: int)
    requires
        k >= 1,
        m >= 0,
    ensures
        vstd::math::abs(repulse_upto(pos, j, k, m).0) <= m * (k * k),
        vstd::math::abs(repulse_upto(pos, j, k, m).1) <= m * (k * k),
    decreases m,
{
    if m == 0 {
        assert(0 * (k * k) == 0) by (nonlinear_arith);
    } else {
        lemma_repulse_upto_bound(pos, j, k, m - 1);
        lemma_repulse_pair_bound(pos[j], pos[m - 1], k);
        assert((m - 1) * (k * k) + (k * k) == m * (k * k)) by (nonlinear_arith);
    }
}

/// Distance between two in-range points, with no overflow.
fn node_dist(a: Point, b: Point) -> (r: u64)
    requires
        -crate::layout::COORD_LIMIT <= a.0 <= crate::layout::COORD_LIMIT,
        -crate::layout::COORD_LIMIT <= a.1 <= crate::layout::COORD_LIMIT,
        -crate::layout::COORD_LIMIT <= b.0 <= crate::layout::COORD_LIMIT,
        -crate::layout::COORD_LIMIT <= b.1 <= crate::layout::COORD_LIMIT,
    ensures
        r as int == dist(a@, b@),
{
    let dx: i128 = (a.0 as i128) - (b.0 as i128);
    let dy: i128 = (a.1 as i128) - (b.1 as i128);
    proof {
        assert(0 <= dx * dx <= (0x4000_0000_0000_0000 as int) * (0x4000_0000_0000_0000 as int)
            && 0 <= dy * dy <= (0x4000_0000_0000_0000 as int) * (0x4000_0000_0000_0000 as int))
            by (nonlinear_arith)
            requires
                -0x4000_0000_0000_0000i128 <= dx <= 0x4000_0000_0000_0000i128,
                -0x4000_0000_0000_0000i128 <= dy <= 0x4000_0000_0000_0000i128,
        ;
    }
    let d2: i128 = dx * dx + dy * dy;
    crate::math::isqrt_u128(d2 as u128)
}

/// One repulsive contribution, exactly `repulse_pair` of the two points.
fn repulse_step(pj: Point, pi: Point, k: i64) -> (c: (i64, i64))
    requires
        1 <= k <= MAX_K,
        -337 * MAX_K <= pj.0 <= 337 * MAX_K,
        -337 * MAX_K <= pj.1 <= 337 * MAX_K,
        -337 * MAX_K <= pi.0 <= 337 * MAX_K,
        -337 * MAX_K <= pi.1 <= 337 * MAX_K,
    ensures
        (c.0 as int, c.1 as int) == repulse_pair(pj@, pi@, k as int),
        vstd::math::abs(c.0 as int) <= k * k,
        vstd::math::abs(c.1 as int) <= k * k,
        k * k <= (MAX_K as int) * (MAX_K as int),
{
    proof {
        assert(1 <= k * k <= (MAX_K as int) * (MAX_K as int)) by (nonlinear_arith)
            requires
                1 <= k <= MAX_K as i64,
        ;
        lemma_repulse_pair_bound(pj@, pi@, k as int);
    }
    let rd: u64 = node_dist(pj, pi);
    if rd < (2 * k) as u64 {
        let rru: u64 = if rd < 1 {
            1
        } else {
            rd
        };
        let fr: u64 = ((k as u64) * (k as u64)) / rru;
        let dx: i64 = pj.0 - pi.0;
        let dy: i64 = pj.1 - pi.1;
        proof {
            lemma_component_le_norm(dx as int, dy as int);
            lemma_component_le_norm(dy as int, dx as int);
            assert(dy * dy + dx * dx == dx * dx + dy * dy) by (nonlinear_arith);
            assert(dist(pj@, pi@) == rd);
            vstd::arithmetic::div_mod::lemma_div_pos_is_pos(k * k, rru as int);
            vstd::arithmetic::div_mod::lemma_div_nonincreasing(k * k, rru as int);
            assert(vstd::math::abs(dx as int) <= rru as int);
            assert(vstd::math::abs(dy as int) <= rru as int);
            assert((dx as int) * (fr as int) <= (2 * MAX_K as int) * ((MAX_K as int) * (
            MAX_K as int)) && (dx as int) * (fr as int) >= -((2 * MAX_K as int) * ((MAX_K as int)
                * (MAX_K as int)))) by (nonlinear_arith)
                requires
                    vstd::math::abs(dx as int) <= 2 * (MAX_K as int),
                    0 <= fr as int <= (MAX_K as int) * (MAX_K as int),
            ;
            assert((dy as int) * (fr as int) <= (2 * MAX_K as int) * ((MAX_K as int) * (
            MAX_K as int)) && (dy as int) * (fr as int) >= -((2 * MAX_K as int) * ((MAX_K as int)
                * (MAX_K as int)))) by (nonlinear_arith)
                requires
                    vstd::math::abs(dy as int) <= 2 * (MAX_K as int),
                    0 <= fr as int <= (MAX_K as int) * (MAX_K as int),
            ;
            assert((2 * MAX_K as int) * ((MAX_K as int) * (MAX_K as int)) < 0x4000_0000_0000_0000)
                by (nonlinear_arith);
            crate::math::lemma_sdiv_scale(dx as int, fr as int, rru as int);
            crate::math::lemma_sdiv_scale(dy as int, fr as int, rru as int);
        }
        let cx: i64 = crate::math::sdiv_i64(dx * (fr as i64), rru as i64);
        let cy: i64 = crate::math::sdiv_i64(dy * (fr as i64), rru as i64);
        (cx, cy)
    } else {
        proof {
            assert(dist(pj@, pi@) == rd);
        }
        (0, 0)
    }
}

impl FruchtermanReingold {
    /// Calculate the repulsive displacements for each node from their
    /// current positions: for node `j`, the sum of `repulse_pair` over all
    /// other nodes.
    fn repulsive_force(&self, positions: &Vec<Point>, k: i64) -> (r: Vec<(i64, i64)>)
        requires
            1 <= k <= MAX_K,
            positions@.len() <= MAX_NODES,
            bounded_pts(pts_view(positions@), 337 * k),
        ensures
            r@.len() == positions@.len(),
            disp_view(r@) == repulse_all(pts_view(positions@), k as int),
            forall|j: int|
                0 <= j < r@.len() ==> vstd::math::abs((#[trigger] r@[j]).0 as int) <= (
                MAX_NODES as int) * (k * k) && vstd::math::abs(r@[j].1 as int) <= (
                MAX_NODES as int) * (k * k),
    {
        let ghost pv = pts_view(positions@);
        let n = positions.len();
        let mut out: Vec<(i64, i64)> = Vec::new();
        let mut j: usize = 0;
        while j < n
            invariant
                j <= n,
                n == positions@.len(),
                n <= MAX_NODES,
                1 <= k <= MAX_K,
                pv == pts_view(positions@),
                pv.len() == n,
                bounded_pts(pv, 337 * k),
                out@.len() == j,
                forall|m: int|
                    0 <= m < j ==> ((#[trigger] out@[m]).0 as int, out@[m].1 as int)
                        == repulse_upto(pv, m, k as int, n as int) && vstd::math::abs(out@[m].0 as int)
                        <= (MAX_NODES as int) * (k * k) && vstd::math::abs(out@[m].1 as int) <= (
                    MAX_NODES as int) * (k * k),
            decreases n - j,
        {
            let pj = positions[j];
            let mut accx: i64 = 0;
            let mut accy: i64 = 0;
            let mut i: usize = 0;
            proof {
                assert(repulse_upto(pv, j as int, k as int, 0) == ((0int, 0int)));
            }
            while i < n
                invariant
                    i <= n,
                    j < n,
                    n == positions@.len(),
                    n <= MAX_NODES,
                    1 <= k <= MAX_K,
                    pv == pts_view(positions@),
                    pv.len() == n,
                    bounded_pts(pv, 337 * k),
                    pj == positions@[j as int],
                    (accx as int, accy as int) == repulse_upto(pv, j as int, k as int, i as int),
                    vstd::math::abs(accx as int) <= i * (k * k),
                    vstd::math::abs(accy as int) <= i * (k * k),
                decreases n - i,
            {
                if i != j {
                    let pi = positions[i];
                    proof {
                        assert(pv[j as int] == positions@[j as int]@);
                        assert(pv[i as int] == positions@[i as int]@);
                        assert(337 * k <= 337 * (MAX_K as int));
                    }
                    let c = repulse_step(pj, pi, k);
                    proof {
                        assert(k * k >= 1) by (nonlinear_arith)
                            requires
                                1 <= k as int,
                        ;
                        assert(i * (k * k) + (k * k) <= (MAX_NODES as int) * (k * k))
                            by (nonlinear_arith)
                            requires
                                0 <= i as int,
                                (i as int) + 1 <= MAX_NODES as int,
                                k * k >= 1,
                        ;
                        assert((MAX_NODES as int) * ((MAX_K as int) * (MAX_K as int))
                            < 0x4000_0000_0000_0000_0000) by (nonlinear_arith);
                        assert((MAX_NODES as int) * (k * k) <= (MAX_NODES as int) * ((
                        MAX_K as int) * (MAX_K as int))) by (nonlinear_arith)
                            requires
                                1 <= k <= MAX_K as i64,
                        ;
                    }
                    accx = accx + c.0;
                    accy = accy + c.1;
                    proof {
                        assert(i * (k * k) + (k * k) == (i + 1) * (k * k)) by (nonlinear_arith);
                        assert((accx as int, accy as int) == repulse_upto(
                            pv,
                            j as int,
                            k as int,
                            i + 1,
                        ));
                    }
                } else {
                    proof {
                        assert((accx as int, accy as int) == repulse_upto(
                            pv,
                            j as int,
                            k as int,
                            i + 1,
                        ));
                        assert(i * (k * k) <= (i + 1) * (k * k)) by (nonlinear_arith)
                            requires
                                0 <= i as int,
                                k * k >= 0,
                        ;
                        assert(k * k >= 0) by (nonlinear_arith);
                    }
                }
                i = i + 1;
            }
            proof {
                assert(i * (k * k) <= (MAX_NODES as int) * (k * k)) by (nonlinear_arith)
                    requires
                        0 <= i as int <= MAX_NODES as int,
                        k * k >= 0,
                ;
                assert(k * k >= 0) by (nonlinear_arith);
            }
            out.push((accx, accy));
            j = j + 1;
        }
        proof {
            assert(disp_view(out@) =~= repulse_all(pv, k as int));
        }
        out
    }
}

/// One attractive contribution, exactly `attract_pair` of the two points.
fn attract_step(pv: Point, pu: Point, k: i64) -> (c: (i64, i64))
    requires
        1 <= k <= MAX_K,
        -337 * k <= pv.0 <= 337 * k,
        -337 * k <= pv.1 <= 337 * k,
        -337 * k <= pu.0 <= 337 * k,
        -337 * k <= pu.1 <= 337 * k,
    ensures
        (c.0 as int, c.1 as int) == attract_pair(pv@, pu@, k as int),
        vstd::math::abs(c.0 as int) <= 642996 * k,
        vstd::math::abs(c.1 as int) <= 642996 * k,
{
    let rd: u64 = node_dist(pv, pu);
    let dx: i64 = pv.0 - pu.0;
    let dy: i64 = pv.1 - pu.1;
    proof {
        assert(dist(pv@, pu@) == rd);
        assert((dx as int) * (dx as int) + (dy as int) * (dy as int) <= ((954 * k) as int) * ((954
            * k) as int)) by (nonlinear_arith)
            requires
                vstd::math::abs(dx as int) <= 674 * (k as int),
                vstd::math::abs(dy as int) <= 674 * (k as int),
                k as int >= 1,
        ;
        let b: int = 954 * (k as int);
        let s2: int = (dx as int) * (dx as int) + (dy as int) * (dy as int);
        assert(s2 >= 0) by (nonlinear_arith)
            requires
                s2 == (dx as int) * (dx as int) + (dy as int) * (dy as int),
        ;
        assert(((b as nat) as int) == b);
        assert(((s2 as nat) as int) == s2);
        assert((b as nat) * (b as nat) == b * b) by (nonlinear_arith)
            requires
                ((b as nat) as int) == b,
        ;
        assert((s2 as nat) <= (b as nat) * (b as nat));
        crate::math::lemma_isqrt_le_of_square(s2 as nat, b as nat);
        assert(rd as int <= 954 * k);
        assert(vstd::math::abs((dx as int) * (rd as int)) <= (642996 * (k as int)) * (k as int)
            && vstd::math::abs((dy as int) * (rd as int)) <= (642996 * (k as int)) * (k as int)
            && (642996 * (k as int)) * (k as int) < 0x4000_0000_0000_0000) by (nonlinear_arith)
            requires
                vstd::math::abs(dx as int) <= 674 * (k as int),
                vstd::math::abs(dy as int) <= 674 * (k as int),
                0 <= rd as int <= 954 * (k as int),
                1 <= k as int <= MAX_K as int,
        ;
        crate::math::lemma_sdiv_prod_bound((dx as int) * (rd as int), k as int, 642996 * (k as int));
        crate::math::lemma_sdiv_prod_bound((dy as int) * (rd as int), k as int, 642996 * (k as int));
    }
    let cx: i64 = crate::math::sdiv_i64(dx * (rd as i64), k);
    let cy: i64 = crate::math::sdiv_i64(dy * (rd as i64), k);
    (cx, cy)
}

impl FruchtermanReingold {
    /// Calculate the attractive displacement for each node from their
    /// current positions and graph connectivity: every edge pulls its two
    /// endpoints toward each other, once per listed edge.
    fn attractive_force(&self, graph: &Graph, positions: &Vec<Point>, k: i64) -> (r: Vec<
        (i64, i64),
    >)
        requires
            1 <= k <= MAX_K,
            graph.wf(),
            graph.nodes_spec() == positions@.len(),
            graph.edges_spec().len() <= MAX_EDGES,
            positions@.len() <= MAX_NODES,
            bounded_pts(pts_view(positions@), 337 * k),
        ensures
            r@.len() == positions@.len(),
            disp_view(r@) == attract_all(pts_view(positions@), graph.edges_spec(), k as int),
            forall|j: int|
                0 <= j < r@.len() ==> vstd::math::abs((#[trigger] r@[j]).0 as int) <= (
                MAX_EDGES as int) * (642996 * k) && vstd::math::abs(r@[j].1 as int) <= (
                MAX_EDGES as int) * (642996 * k),
    {
        let ghost pv = pts_view(positions@);
        let ghost es = graph.edges_spec();
        let n = positions.len();
        let mut disp: Vec<(i64, i64)> = Vec::new();
        let mut i: usize = 0;
        while i < n
            invariant
                i <= n,
                disp@.len() == i,
                forall|m: int| 0 <= m < i ==> (#[trigger] disp@[m]) == ((0i64, 0i64)),
            decreases n - i,
        {
            disp.push((0, 0));
            i = i + 1;
        }
        proof {
            assert(disp_view(disp@) =~= zero_disp(pv.len()));
        }
        let edges = graph.edges();
        let mut e: usize = 0;
        while e < edges.len()
            invariant
                e <= es.len(),
                es == graph.edges_spec(),
                es.len() <= MAX_EDGES,
                edges@ == es,
                n == positions@.len(),
                n <= MAX_NODES,
                1 <= k <= MAX_K,
                graph.wf(),
                graph.nodes_spec() == n,
                pv == pts_view(positions@),
                pv.len() == n,
                bounded_pts(pv, 337 * k),
                disp@.len() == n,
                disp_view(disp@) == attract_upto(pv, es, k as int, zero_disp(n as nat), e as int),
                forall|j: int|
                    0 <= j < n ==> vstd::math::abs((#[trigger] disp@[j]).0 as int) <= (e as int) * (
                    642996 * k) && vstd::math::abs(disp@[j].1 as int) <= (e as int) * (642996 * k),
            decreases es.len() - e,
        {
            let (v, u) = edges[e];
            proof {
                assert(es[e as int] == (v, u));
                assert(v < n && u < n);
                assert(pv[v as int] == positions@[v as int]@);
                assert(pv[u as int] == positions@[u as int]@);
            }
            let c = attract_step(positions[v], positions[u], k);
            let ghost before = disp@;
            proof {
                assert((e as int) * (642996 * k) + 642996 * k == ((e as int) + 1) * (642996 * k))
                    by (nonlinear_arith);
                assert(((e as int) + 1) * (642996 * k) <= (MAX_EDGES as int) * (642996 * (
                MAX_K as int))) by (nonlinear_arith)
                    requires
                        0 <= e as int,
                        (e as int) + 1 <= MAX_EDGES as int,
                        1 <= k as int <= MAX_K as int,
                ;
                assert((MAX_EDGES as int) * (642996 * (MAX_K as int)) < 0x4000_0000_0000_0000_0000)
                    by (nonlinear_arith);
            }
            let dv = disp[v];
            disp.set(v, (dv.0 - c.0, dv.1 - c.1));
            let du = disp[u];
            disp.set(u, (du.0 + c.0, du.1 + c.1));
            proof {
                let d = attract_upto(pv, es, k as int, zero_disp(n as nat), e as int);
                let cc = attract_pair(pv[v as int], pv[u as int], k as int);
                let d1 = d.update(v as int, (d[v as int].0 - cc.0, d[v as int].1 - cc.1));
                let d2 = d1.update(u as int, (d1[u as int].0 + cc.0, d1[u as int].1 + cc.1));
                assert(disp@ == before.update(v as int, ((dv.0 - c.0) as i64, (dv.1 - c.1) as i64))
                    .update(u as int, (((du.0 + c.0) as i64, (du.1 + c.1) as i64))));
                assert(disp_view(disp@) =~= d2);
                assert(attract_upto(pv, es, k as int, zero_disp(n as nat), e + 1) == d2);
            }
            e = e + 1;
        }
        proof {
            assert(attract_all(pv, es, k as int) == attract_upto(
                pv,
                es,
                k as int,
                zero_disp(n as nat),
                es.len() as int,
            ));
            assert((e as int) * (642996 * k) <= (MAX_EDGES as int) * (642996 * k))
                by (nonlinear_arith)
                requires
                    0 <= e as int <= MAX_EDGES as int,
                    k as int >= 1,
            ;
        }
        disp
    }
}

/// Move one node by its displacement, capped to the temperature.
fn cap_apply(p: Point, d: (i64, i64), t: i64) -> (np: Point)
    requires
        0 <= t <= 0x20_0000,
        -0x40_0000_0000_0000 <= d.0 <= 0x40_0000_0000_0000,
        -0x40_0000_0000_0000 <= d.1 <= 0x40_0000_0000_0000,
        -0x1000_0000_0000_0000 <= p.0 <= 0x1000_0000_0000_0000,
        -0x1000_0000_0000_0000 <= p.1 <= 0x1000_0000_0000_0000,
    ensures
        np@ == apply_one(p@, (d.0 as int, d.1 as int), t as int),
        p.0 - t <= np.0 <= p.0 + t,
        p.1 - t <= np.1 <= p.1 + t,
{
    let dx: i128 = d.0 as i128;
    let dy: i128 = d.1 as i128;
    proof {
        assert(0 <= dx * dx && 0 <= dy * dy && dx * dx + dy * dy <= (
        0x1_0000_0000_0000_0000_0000_0000_0000 as int)) by (nonlinear_arith)
            requires
                -0x40_0000_0000_0000i128 <= dx <= 0x40_0000_0000_0000i128,
                -0x40_0000_0000_0000i128 <= dy <= 0x40_0000_0000_0000i128,
        ;
    }
    let m2: i128 = dx * dx + dy * dy;
    let m: u64 = crate::math::isqrt_u128(m2 as u128);
    let norm: u64 = if m < 1 {
        1
    } else {
        m
    };
    let tu: u64 = t as u64;
    let sc: u64 = if tu < norm {
        tu
    } else {
        norm
    };
    proof {
        lemma_component_le_norm(d.0 as int, d.1 as int);
        lemma_component_le_norm(d.1 as int, d.0 as int);
        assert((d.1 as int) * (d.1 as int) + (d.0 as int) * (d.0 as int) == (d.0 as int) * (
        d.0 as int) + (d.1 as int) * (d.1 as int)) by (nonlinear_arith);
        crate::math::lemma_sdiv_scale(d.0 as int, sc as int, norm as int);
        crate::math::lemma_sdiv_scale(d.1 as int, sc as int, norm as int);
        assert(vstd::math::abs((d.0 as int) * (sc as int)) <= (0x40_0000_0000_0000 as int) * (
        0x20_0000 as int) && vstd::math::abs((d.1 as int) * (sc as int)) <= (
        0x40_0000_0000_0000 as int) * (0x20_0000 as int)) by (nonlinear_arith)
            requires
                vstd::math::abs(d.0 as int) <= 0x40_0000_0000_0000,
                vstd::math::abs(d.1 as int) <= 0x40_0000_0000_0000,
                0 <= sc as int <= 0x20_0000,
        ;
    }
    let ax: i64 = crate::math::sdiv_i128((d.0 as i128) * (sc as i128), norm as i128) as i64;
    let ay: i64 = crate::math::sdiv_i128((d.1 as i128) * (sc as i128), norm as i128) as i64;
    Point(p.0 + ax, p.1 + ay)
}

/// A fresh copy of a point list.
fn copy_points(pts: &Vec<Point>) -> (r: Vec<Point>)
    ensures
        r@ == pts@,
{
    let mut out: Vec<Point> = Vec::new();
    let mut i: usize = 0;
    while i < pts.len()
        invariant
            i <= pts@.len(),
            out@.len() == i,
            forall|j: int| 0 <= j < i ==> (#[trigger] out@[j]) == pts@[j],
        decreases pts@.len() - i,
    {
        let p = pts[i];
        out.push(p);
        i = i + 1;
    }
    proof {
        assert(out@ =~= pts@);
    }
    out
}

/// The rows of one frame as raw finite coordinates.
fn wrap_frame(pts: &Vec<Point>) -> (r: Vec<(Coord, Coord)>)
    ensures
        r@.len() == pts@.len(),
        !crate::scatter::has_nan(r@),
        crate::scatter::unwrap_pts(r@) == pts_view(pts@),
        forall|j: int|
            0 <= j < r@.len() ==> (#[trigger] r@[j]).0 == Coord::Finite(pts@[j].0) && r@[j].1
                == Coord::Finite(pts@[j].1),
{
    let mut out: Vec<(Coord, Coord)> = Vec::new();
    let mut i: usize = 0;
    while i < pts.len()
        invariant
            i <= pts@.len(),
            out@.len() == i,
            forall|j: int|
                0 <= j < i ==> (#[trigger] out@[j]).0 == Coord::Finite(pts@[j].0) && out@[j].1
                    == Coord::Finite(pts@[j].1),
        decreases pts@.len() - i,
    {
        let p = pts[i];
        out.push((Coord::Finite(p.0), Coord::Finite(p.1)));
        i = i + 1;
    }
    proof {
        assert(crate::scatter::unwrap_pts(out@) =~= pts_view(pts@));
    }
    out
}

impl FruchtermanReingold {
    /// Run the whole simulation, returning every frame: the seeded initial
    /// placement first, then one frame per step.
    fn run(&self, graph: &Graph) -> (frames: Vec<Vec<Point>>)
        requires
            1 <= self.k_spec() <= MAX_K,
            graph.wf(),
            1 <= graph.nodes_spec() <= MAX_NODES,
            graph.edges_spec().len() <= MAX_EDGES,
        ensures
            crate::scatter::frames_view(frames@) == spec_animate(
                graph.nodes_spec(),
                graph.edges_spec(),
                self.k_spec(),
                self.seed_spec(),
            ),
            frames@.len() == STEPS + 1,
            forall|f: int|
                0 <= f < frames@.len() ==> (#[trigger] frames@[f])@.len() == graph.nodes_spec()
                    && bounded_pts(pts_view(frames@[f]@), 337 * self.k_spec()),
    {
        let k = self.k;
        let seed = self.seed;
        let ghost kk = k as int;
        let ghost sd = self.seed_spec();
        let ghost nn = graph.nodes_spec();
        let ghost es = graph.edges_spec();
        let n = graph.nodes();
        let sq: u64 = crate::math::isqrt_u128(n as u128);
        proof {
            assert((32 as nat) * (32 as nat) == 1024) by (nonlinear_arith);
            crate::math::lemma_isqrt_le_of_square(n as nat, 32);
            assert(sq <= 32);
            assert((sq as int) * kk <= 32 * kk && 0 <= (sq as int) * kk) by (nonlinear_arith)
                requires
                    0 <= sq as int <= 32,
                    1 <= kk <= MAX_K as int,
            ;
        }
        let l: i64 = (sq as i64) * k;
        let half: i64 = crate::math::sdiv_i64(l, 2);
        let t0: i64 = crate::math::sdiv_i64(l, 20);
        proof {
            assert(l as int == (isqrt(nn) as int) * kk);
            lemma_div_is_ordered(l as int, 32 * kk, 2);
            lemma_div_by_multiple(16 * kk, 2);
            assert((16 * kk) * 2 == 32 * kk) by (nonlinear_arith);
            assert(half as int <= 16 * kk);
            vstd::arithmetic::div_mod::lemma_fundamental_div_mod(l as int, 20);
            vstd::arithmetic::div_mod::lemma_mod_bound(l as int, 20);
            assert(20 * (t0 as int) <= l as int);
            assert(200 * (t0 as int) <= 10 * (l as int)) by (nonlinear_arith)
                requires
                    20 * (t0 as int) <= l as int,
            ;
            assert((half as int) + 200 * (t0 as int) <= 336 * kk);
            lemma_div_is_ordered(l as int, 0x2000000, 20);
            assert(t0 <= 0x2000000int / 20);
            assert(half <= 0x1_0000_0000);
        }
        let mut state: u64 = seed;
        let mut pos: Vec<Point> = Vec::new();
        let ghost init = init_pos(sd, nn, half as int);
        let mut i: usize = 0;
        while i < n
            invariant
                i <= n,
                n == nn,
                pos@.len() == i,
                0 <= half <= 0x1_0000_0000,
                init == init_pos(sd, nn, half as int),
                state == crate::rng::sm_state(sd, (2 * i) as nat),
                forall|j: int| 0 <= j < i ==> (#[trigger] pts_view(pos@)[j]) == init[j],
                forall|j: int|
                    0 <= j < i ==> -half <= (#[trigger] pos@[j]).0 <= half && -half <= pos@[j].1
                        <= half,
            decreases n - i,
        {
            let r1 = crate::rng::sm_next(state);
            let x = crate::rng::fold_coord(r1.1, half);
            let r2 = crate::rng::sm_next(r1.0);
            let y = crate::rng::fold_coord(r2.1, half);
            let ghost prev = pos@;
            proof {
                assert(crate::rng::sm_state(sd, (2 * i + 1) as nat) == crate::rng::sm_state(
                    sd,
                    (2 * i) as nat,
                ).wrapping_add(crate::rng::GOLDEN_GAMMA));
                assert(crate::rng::sm_state(sd, (2 * i + 2) as nat) == crate::rng::sm_state(
                    sd,
                    (2 * i + 1) as nat,
                ).wrapping_add(crate::rng::GOLDEN_GAMMA));
                assert(r1.1 == crate::rng::sm_draw(sd, (2 * i) as nat));
                assert(r2.1 == crate::rng::sm_draw(sd, (2 * i + 1) as nat));
                assert(init[i as int] == (
                    coord_of(sm_draw(sd, (2 * i) as nat), half as int),
                    coord_of(sm_draw(sd, (2 * i + 1) as nat), half as int),
                ));
            }
            state = r2.0;
            pos.push(Point(x, y));
            proof {
                assert(pos@ == prev.push(Point(x, y)));
                assert(pts_view(pos@)[i as int] == (x as int, y as int));
                assert(forall|j: int|
                    0 <= j < i ==> #[trigger] pts_view(pos@)[j] == pts_view(prev)[j]);
                assert((2 * (i + 1)) as nat == (2 * i + 2) as nat);
            }
            i = i + 1;
        }
        proof {
            assert(pts_view(pos@) =~= init);
        }
        let mut frames: Vec<Vec<Point>> = Vec::new();
        let first_copy = copy_points(&pos);
        frames.push(first_copy);
        let mut t: i64 = t0;
        let mut sn: usize = 0;
        proof {
            assert(crate::scatter::frames_view(frames@) =~= frames_upto(
                init,
                es,
                kk,
                t0 as int,
                0,
            ));
            assert(bounded_pts(pts_view(pos@), (half as int) + 0 * (t0 as int))) by {
                assert(0 * (t0 as int) == 0) by (nonlinear_arith);
            }
        }
        while sn < STEPS
            invariant
                sn <= STEPS,
                1 <= k <= MAX_K,
                kk == k as int,
                n == nn,
                1 <= nn <= MAX_NODES,
                es == graph.edges_spec(),
                es.len() <= MAX_EDGES,
                graph.wf(),
                graph.nodes_spec() == nn,
                0 <= half,
                0 <= t0 <= 0x20_0000,
                (half as int) + 200 * (t0 as int) <= 336 * kk,
                init == init_pos(sd, nn, half as int),
                pos@.len() == nn,
                frames@.len() == sn + 1,
                t as int == step_temp(t0 as int, sn as int),
                0 <= t <= t0,
                crate::scatter::frames_view(frames@) == frames_upto(
                    init,
                    es,
                    kk,
                    t0 as int,
                    sn as int,
                ),
                pts_view(pos@) == frames_upto(init, es, kk, t0 as int, sn as int).last(),
                bounded_pts(pts_view(pos@), (half as int) + (sn as int) * (t0 as int)),
                forall|f: int|
                    0 <= f < frames@.len() ==> (#[trigger] frames@[f])@.len() == nn && bounded_pts(
                        pts_view(frames@[f]@),
                        337 * kk,
                    ),
            decreases STEPS - sn,
        {
            let ghost pvc = pts_view(pos@);
            proof {
                assert((sn as int) * (t0 as int) <= 200 * (t0 as int)) by (nonlinear_arith)
                    requires
                        0 <= sn as int <= 200,
                        0 <= t0 as int,
                ;
                assert(336 * kk <= 337 * kk);
                assert(bounded_pts(pvc, 337 * kk));
            }
            let rep = self.repulsive_force(&pos, k);
            let att = self.attractive_force(graph, &pos, k);
            let ghost td = total_disp(pvc, es, kk);
            let mut newpos: Vec<Point> = Vec::new();
            let mut j: usize = 0;
            while j < n
                invariant
                    j <= n,
                    n == nn,
                    1 <= k <= MAX_K,
                    kk == k as int,
                    1 <= nn <= MAX_NODES,
                    es == graph.edges_spec(),
                    es.len() <= MAX_EDGES,
                    0 <= half,
                    0 <= t0 <= 0x20_0000,
                    (half as int) + 200 * (t0 as int) <= 336 * kk,
                    0 <= t <= t0,
                    0 <= sn < STEPS,
                    pos@.len() == nn,
                    pvc == pts_view(pos@),
                    bounded_pts(pvc, (half as int) + (sn as int) * (t0 as int)),
                    bounded_pts(pvc, 337 * kk),
                    td == total_disp(pvc, es, kk),
                    rep@.len() == nn,
                    att@.len() == nn,
                    disp_view(rep@) == repulse_all(pvc, kk),
                    disp_view(att@) == attract_all(pvc, es, kk),
                    forall|m: int|
                        0 <= m < nn ==> vstd::math::abs((#[trigger] rep@[m]).0 as int) <= (
                        MAX_NODES as int) * (kk * kk) && vstd::math::abs(rep@[m].1 as int) <= (
                        MAX_NODES as int) * (kk * kk),
                    forall|m: int|
                        0 <= m < nn ==> vstd::math::abs((#[trigger] att@[m]).0 as int) <= (
                        MAX_EDGES as int) * (642996 * kk) && vstd::math::abs(att@[m].1 as int) <= (
                        MAX_EDGES as int) * (642996 * kk),
                    newpos@.len() == j,
                    forall|m: int|
                        0 <= m < j ==> (#[trigger] pts_view(newpos@)[m]) == step_pos(
                            pvc,
                            es,
                            kk,
                            t as int,
                        )[m],
                    forall|m: int|
                        0 <= m < j ==> -((half as int) + ((sn as int) + 1) * (t0 as int)) <= (
                        #[trigger] newpos@[m]).0 <= (half as int) + ((sn as int) + 1) * (
                        t0 as int) && -((half as int) + ((sn as int) + 1) * (t0 as int))
                            <= newpos@[m].1 <= (half as int) + ((sn as int) + 1) * (t0 as int),
                decreases n - j,
            {
                proof {
                    assert((MAX_NODES as int) * (kk * kk) + (MAX_EDGES as int) * (642996 * kk)
                        <= 0x40_0000_0000_0000) by (nonlinear_arith)
                        requires
                            1 <= kk <= MAX_K as int,
                    ;
                    assert(pvc[j as int] == pos@[j as int]@);
                }
                let dj: (i64, i64) = (rep[j].0 + att[j].0, rep[j].1 + att[j].1);
                let pj = pos[j];
                let np = cap_apply(pj, dj, t);
                let ghost prevnp = newpos@;
                proof {
                    assert(td[j as int] == ((dj.0 as int, dj.1 as int)));
                    assert(step_pos(pvc, es, kk, t as int)[j as int] == apply_one(
                        pvc[j as int],
                        td[j as int],
                        t as int,
                    ));
                }
                newpos.push(np);
                proof {
                    assert(newpos@ == prevnp.push(np));
                    assert(pts_view(newpos@)[j as int] == np@);
                    assert(forall|m: int|
                        0 <= m < j ==> #[trigger] pts_view(newpos@)[m] == pts_view(prevnp)[m]);
                    assert((sn as int) * (t0 as int) + (t0 as int) == ((sn as int) + 1) * (
                    t0 as int)) by (nonlinear_arith);
                }
                j = j + 1;
            }
            proof {
                assert(pts_view(newpos@) =~= step_pos(pvc, es, kk, t as int));
            }
            pos = newpos;
            let steps_left: i64 = (STEPS - sn) as i64;
            proof {
                assert(0 <= steps_left <= 200);
                assert(0 <= (steps_left as int) * (t0 as int) <= 200 * 0x20_0000)
                    by (nonlinear_arith)
                    requires
                        0 <= steps_left as int <= 200,
                        0 <= t0 as int <= 0x20_0000,
                ;
            }
            let num: i64 = steps_left * t0;
            let tn: i64 = crate::math::sdiv_i64(num, 200);
            proof {
                assert(steps_left as int == 200 - (sn as int));
                assert(num as int == (200 - (sn as int)) * (t0 as int));
                assert(step_temp(t0 as int, (sn as int) + 1) == num as int / 200);
                assert((steps_left as int) * (t0 as int) <= 200 * (t0 as int))
                    by (nonlinear_arith)
                    requires
                        0 <= steps_left as int <= 200,
                        0 <= t0 as int,
                ;
                lemma_div_is_ordered(num as int, 200 * (t0 as int), 200);
                lemma_div_by_multiple(t0 as int, 200);
                assert((t0 as int) * 200 == 200 * (t0 as int)) by (nonlinear_arith);
                lemma_div_pos_is_pos(num as int, 200);
            }
            t = tn;
            let frame_copy = copy_points(&pos);
            let ghost prevframes = frames@;
            frames.push(frame_copy);
            proof {
                assert(crate::scatter::frames_view(frames@) =~= crate::scatter::frames_view(
                    prevframes,
                ).push(pts_view(pos@)));
                assert(frames_upto(init, es, kk, t0 as int, (sn as int) + 1) == frames_upto(
                    init,
                    es,
                    kk,
                    t0 as int,
                    sn as int,
                ).push(
                    step_pos(
                        frames_upto(init, es, kk, t0 as int, sn as int).last(),
                        es,
                        kk,
                        step_temp(t0 as int, sn as int),
                    ),
                ));
                assert(((sn as int) + 1) * (t0 as int) <= 200 * (t0 as int)) by (nonlinear_arith)
                    requires
                        0 <= (sn as int) + 1 <= 200,
                        0 <= t0 as int,
                ;
                assert(bounded_pts(pts_view(pos@), 337 * kk));
                assert(forall|f: int|
                    0 <= f < prevframes.len() ==> #[trigger] frames@[f] == prevframes[f]);
            }
            sn = sn + 1;
        }
        proof {
            lemma_frames_len(init, es, kk, t0 as int, STEPS as int);
        }
        frames
    }
}

impl Engine for FruchtermanReingold {
    /// Accepted inputs: a well-formed graph within the machine limits on
    /// node and edge counts.
    open spec fn accepts(&self, graph: &Graph) -> bool {
        &&& graph.wf()
        &&& graph.nodes_spec() <= MAX_NODES
        &&& graph.edges_spec().len() <= MAX_EDGES
    }

    /// A zero-node graph is rejected with `EmptyGraph`; otherwise the layout
    /// holds exactly the final frame of `spec_animate` for this graph, the
    /// configured ideal edge length and the seed.
    open spec fn computed(&self, graph: Graph, r: Result<ScatterLayout, LayoutError>) -> bool {
        if graph.nodes_spec() == 0 {
            r == Result::<ScatterLayout, LayoutError>::Err(LayoutError::EmptyGraph)
        } else {
            match r {
                Ok(l) => l.graph_spec() == graph && l.positions_spec() == spec_animate(
                    graph.nodes_spec(),
                    graph.edges_spec(),
                    self.k_spec(),
                    self.seed_spec(),
                ).last(),
                Err(_) => false,
            }
        }
    }

    /// A zero-node graph is rejected with `EmptyGraph`; otherwise the
    /// sequence holds exactly the frames of `spec_animate` for this graph,
    /// the configured ideal edge length and the seed.
    open spec fn animated(&self, graph: Graph, r: Result<
        ScatterLayoutSequence,
        LayoutError,
    >) -> bool {
        if graph.nodes_spec() == 0 {
            r == Result::<ScatterLayoutSequence, LayoutError>::Err(LayoutError::EmptyGraph)
        } else {
            match r {
                Ok(s) => s.graph_spec() == graph && s.frames_spec() == spec_animate(
                    graph.nodes_spec(),
                    graph.edges_spec(),
                    self.k_spec(),
                    self.seed_spec(),
                ),
                Err(_) => false,
            }
        }
    }

    fn compute(self, graph: Graph) -> (r: Result<ScatterLayout, LayoutError>) {
        proof {
            use_type_invariant(&self);
            use_type_invariant(&graph);
        }
        let ghost kk = self.k_spec();
        let ghost model = spec_animate(
            graph.nodes_spec(),
            graph.edges_spec(),
            self.k_spec(),
            self.seed_spec(),
        );
        let n = graph.nodes();
        if n == 0 {
            return Err(LayoutError::EmptyGraph);
        }
        let frames = self.run(&graph);
        let last = &frames[frames.len() - 1];
        let raw = wrap_frame(last);
        proof {
            assert(crate::scatter::frames_view(frames@)[STEPS as int] == pts_view(
                frames@[STEPS as int]@,
            ));
            assert(raw@.len() == graph.nodes_spec());
            assert(337 * kk <= 337 * (MAX_K as int));
            assert(!crate::scatter::has_unbounded(raw@)) by {
                assert forall|j: int|
                    0 <= j < raw@.len() implies crate::scatter::coord_in_range(
                    (#[trigger] raw@[j]).0,
                ) && crate::scatter::coord_in_range(raw@[j].1) by {
                    assert(pts_view(last@)[j] == last@[j]@);
                }
            }
            assert(model.last() == model[STEPS as int]) by {
                lemma_animate_len(
                    graph.nodes_spec(),
                    graph.edges_spec(),
                    self.k_spec(),
                    self.seed_spec(),
                );
            }
        }
        match ScatterLayout::new(graph, raw) {
            Ok(l) => Ok(l),
            Err(e) => {
                proof {
                    assert(false);
                }
                Err(e)
            },
        }
    }

    fn animate(self, graph: Graph) -> (r: Result<ScatterLayoutSequence, LayoutError>) {
        proof {
            use_type_invariant(&self);
            use_type_invariant(&graph);
        }
        let ghost kk = self.k_spec();
        let ghost nn = graph.nodes_spec();
        let ghost model = spec_animate(
            graph.nodes_spec(),
            graph.edges_spec(),
            self.k_spec(),
            self.seed_spec(),
        );
        let n = graph.nodes();
        if n == 0 {
            return Err(LayoutError::EmptyGraph);
        }
        let frames = self.run(&graph);
        let mut raw: Vec<Vec<(Coord, Coord)>> = Vec::new();
        let mut f: usize = 0;
        while f < frames.len()
            invariant
                f <= frames@.len(),
                raw@.len() == f,
                1 <= nn,
                1 <= kk <= MAX_K,
                frames@.len() == STEPS + 1,
                forall|g: int|
                    0 <= g < frames@.len() ==> (#[trigger] frames@[g])@.len() == nn && bounded_pts(
                        pts_view(frames@[g]@),
                        337 * kk,
                    ),
                forall|g: int|
                    0 <= g < f ==> {
                        &&& (#[trigger] crate::scatter::raw_frames_view(raw@)[g]).len() == nn
                        &&& !crate::scatter::has_nan(crate::scatter::raw_frames_view(raw@)[g])
                        &&& !crate::scatter::has_unbounded(
                            crate::scatter::raw_frames_view(raw@)[g],
                        )
                        &&& crate::scatter::unwrap_pts(crate::scatter::raw_frames_view(raw@)[g])
                            == pts_view(frames@[g]@)
                    },
            decreases frames@.len() - f,
        {
            let w = wrap_frame(&frames[f]);
            let ghost prevraw = raw@;
            proof {
                assert(!crate::scatter::has_unbounded(w@)) by {
                    assert forall|j: int|
                        0 <= j < w@.len() implies crate::scatter::coord_in_range(
                        (#[trigger] w@[j]).0,
                    ) && crate::scatter::coord_in_range(w@[j].1) by {
                        assert(pts_view(frames@[f as int]@)[j] == frames@[f as int]@[j]@);
                        assert(337 * kk <= 337 * (MAX_K as int));
                    }
                }
            }
            raw.push(w);
            proof {
                assert(raw@ == prevraw.push(w));
                assert(crate::scatter::raw_frames_view(raw@)[f as int] == w@);
                assert(forall|g: int|
                    0 <= g < f ==> #[trigger] crate::scatter::raw_frames_view(raw@)[g]
                        == crate::scatter::raw_frames_view(prevraw)[g]);
            }
            f = f + 1;
        }
        proof {
            let rv = crate::scatter::raw_frames_view(raw@);
            assert(!crate::scatter::some_bad_shape(rv, nn));
            assert(!crate::scatter::some_nan(rv));
            assert(!crate::scatter::some_unbounded(rv));
            assert(crate::scatter::sequence_check(nn, rv) is None);
            assert(crate::scatter::unwrap_frames(rv) =~= crate::scatter::frames_view(frames@));
        }
        match ScatterLayoutSequence::new(graph, raw) {
            Ok(s) => Ok(s),
            Err(e) => {
                proof {
                    assert(false);
                }
                Err(e)
            },
        }
    }
}

/// The displacement cap: one step moves a node by at most the current
/// temperature along each axis.
pub proof fn lemma_apply_one_capped(p: (int, int), d: (int, int), t: int)
    requires
        t >= 0,
    ensures
        vstd::math::abs(apply_one(p, d, t).0 - p.0) <= t,
        vstd::math::abs(apply_one(p, d, t).1 - p.1) <= t,
{
    let m = isqrt((d.0 * d.0 + d.1 * d.1) as nat) as int;
    let norm = imax(m, 1);
    let sc = imin(t, norm);
    lemma_component_le_norm(d.0, d.1);
    lemma_component_le_norm(d.1, d.0);
    assert(d.1 * d.1 + d.0 * d.0 == d.0 * d.0 + d.1 * d.1) by (nonlinear_arith);
    crate::math::lemma_sdiv_scale(d.0, sc, norm);
    crate::math::lemma_sdiv_scale(d.1, sc, norm);
}

/// Every drawn initial coordinate lies in `[-half, half]`.
pub proof fn lemma_init_pos_bounded(seed: u64, n: nat, half: int)
    requires
        half >= 0,
    ensures
        forall|j: int|
            0 <= j < n ==> {
                &&& -half <= (#[trigger] init_pos(seed, n, half)[j]).0 <= half
                &&& -half <= init_pos(seed, n, half)[j].1 <= half
            },
{
    assert forall|j: int|
        0 <= j < n implies -half <= (#[trigger] init_pos(seed, n, half)[j]).0 <= half && -half
        <= init_pos(seed, n, half)[j].1 <= half by {
        vstd::arithmetic::div_mod::lemma_mod_bound(
            sm_draw(seed, (2 * j) as nat) as int,
            2 * half + 1,
        );
        vstd::arithmetic::div_mod::lemma_mod_bound(
            sm_draw(seed, (2 * j + 1) as nat) as int,
            2 * half + 1,
        );
    }
}

/// Finiteness of a whole run: after `s` steps every coordinate still lies
/// within `half + s * t0`, because each step moves a node by at most the
/// temperature, which never exceeds `t0`.
pub proof fn lemma_frames_bounded(
    init: Seq<(int, int)>,
    edges: Seq<(usize, usize)>,
    k: int,
    t0: int,
    s: int,
    half: int,
)
    requires
        0 <= s <= STEPS,
        t0 >= 0,
        half >= 0,
        bounded_pts(init, half),
    ensures
        forall|f: int|
            0 <= f < frames_upto(init, edges, k, t0, s).len() ==> bounded_pts(
                #[trigger] frames_upto(init, edges, k, t0, s)[f],
                half + f * t0,
            ),
    decreases s,
{
    lemma_frames_len(init, edges, k, t0, s);
    if s == 0 {
        assert(bounded_pts(frames_upto(init, edges, k, t0, 0)[0], half + 0 * t0)) by {
            assert(0 * t0 == 0) by (nonlinear_arith);
        }
    } else {
        lemma_frames_bounded(init, edges, k, t0, s - 1, half);
        lemma_frames_len(init, edges, k, t0, s - 1);
        let prev = frames_upto(init, edges, k, t0, s - 1);
        let cur = frames_upto(init, edges, k, t0, s);
        assert(forall|f: int| 0 <= f < prev.len() ==> #[trigger] cur[f] == prev[f]);
        let t = step_temp(t0, s - 1);
        assert(0 <= t <= t0) by {
            if s >= 2 {
                lemma_cooling_monotone(t0, s - 2);
            }
        }
        let base = prev.last();
        assert(base == prev[s - 1]);
        assert(bounded_pts(base, half + (s - 1) * t0));
        let stepped = step_pos(base, edges, k, t);
        assert(cur[s] == stepped);
        assert forall|j: int|
            0 <= j < stepped.len() implies -(half + s * t0) <= (#[trigger] stepped[j]).0 <= half
            + s * t0 && -(half + s * t0) <= stepped[j].1 <= half + s * t0 by {
            lemma_apply_one_capped(base[j], total_disp(base, edges, k)[j], t);
            assert((s - 1) * t0 + t0 == s * t0) by (nonlinear_arith);
        }
    }
}

/// Finiteness of `animate`: every coordinate of every frame is bounded by
/// `337` times the ideal edge length, for any graph within the machine
/// limits and any seed. In particular no frame can hold an unrepresentable
/// value.
pub proof fn lemma_animate_bounded(n: nat, edges: Seq<(usize, usize)>, k: int, seed: u64)
    requires
        1 <= n <= MAX_NODES,
        1 <= k <= MAX_K,
    ensures
        forall|f: int|
            0 <= f < spec_animate(n, edges, k, seed).len() ==> bounded_pts(
                #[trigger] spec_animate(n, edges, k, seed)[f],
                337 * k,
            ),
{
    let l = (isqrt(n) as int) * k;
    let half = l / 2;
    let t0 = l / 20;
    let init = init_pos(seed, n, half);
    assert((32 as nat) * (32 as nat) == 1024) by (nonlinear_arith);
    crate::math::lemma_isqrt_le_of_square(n, 32);
    assert(0 <= (isqrt(n) as int) * k <= 32 * k) by (nonlinear_arith)
        requires
            0 <= isqrt(n) <= 32,
            1 <= k,
    ;
    lemma_div_is_ordered(l, 32 * k, 2);
    lemma_div_by_multiple(16 * k, 2);
    assert((16 * k) * 2 == 32 * k) by (nonlinear_arith);
    assert(half <= 16 * k);
    lemma_div_pos_is_pos(l, 2);
    lemma_div_pos_is_pos(l, 20);
    vstd::arithmetic::div_mod::lemma_fundamental_div_mod(l, 20);
    vstd::arithmetic::div_mod::lemma_mod_bound(l, 20);
    assert(20 * t0 <= l);
    assert(200 * t0 <= 10 * l) by (nonlinear_arith)
        requires
            20 * t0 <= l,
    ;
    lemma_init_pos_bounded(seed, n, half);
    assert(bounded_pts(init, half));
    lemma_frames_bounded(init, edges, k, t0, STEPS as int, half);
    lemma_frames_len(init, edges, k, t0, STEPS as int);
    assert forall|f: int|
        0 <= f < spec_animate(n, edges, k, seed).len() implies bounded_pts(
        #[trigger] spec_animate(n, edges, k, seed)[f],
        337 * k,
    ) by {
        assert(spec_animate(n, edges, k, seed)[f] == frames_upto(init, edges, k, t0, STEPS as int)[f]);
        assert(bounded_pts(frames_upto(init, edges, k, t0, STEPS as int)[f], half + f * t0));
        assert(f * t0 <= 200 * t0) by (nonlinear_arith)
            requires
                0 <= f <= 200,
                t0 >= 0,
        ;
        assert(half + f * t0 <= 337 * k);
    }
}

/// Determinism: whatever two engines with the same configuration make of
/// graphs with the same topology, they make the same sequence of frames.
pub proof fn lemma_animate_deterministic(
    a: &FruchtermanReingold,
    b: &FruchtermanReingold,
    g1: Graph,
    g2: Graph,
    r1: Result<ScatterLayoutSequence, LayoutError>,
    r2: Result<ScatterLayoutSequence, LayoutError>,
)
    requires
        a.k_spec() == b.k_spec(),
        a.seed_spec() == b.seed_spec(),
        g1.nodes_spec() == g2.nodes_spec(),
        g1.edges_spec() == g2.edges_spec(),
        g1.nodes_spec() >= 1,
        a.animated(g1, r1),
        b.animated(g2, r2),
    ensures
        r1 is Ok,
        r2 is Ok,
        r1->Ok_0.frames_spec() == r2->Ok_0.frames_spec(),
{
}

} // verus!
