//! Vertex angles of a regular polygon and the canvas size policy.
use vstd::prelude::*;
use vstd::arithmetic::div_mod::{
    lemma_add_mod_noop_right, lemma_div_is_ordered, lemma_fundamental_div_mod,
    lemma_fundamental_div_mod_converse, lemma_mod_add_multiples_vanish, lemma_mod_bound,
    lemma_mod_pos_bound, lemma_mod_twice,
};

verus! {

/// One full turn, in millidegrees.
pub const FULL_TURN: u64 = 360000;

/// The smallest side a canvas may have, in pixels.
pub const CANVAS_FLOOR: u32 = 1000;

/// Pixels added to the diameter to obtain the canvas side.
pub const CANVAS_MARGIN: u32 = 200;

/// An angle in millidegrees brought into `[0, FULL_TURN)`.
pub open spec fn normalized(a: int) -> int {
    a % (FULL_TURN as int)
}

/// The angle of vertex `i` of an `n`-gon turned by `offset` millidegrees:
/// `(360·i/n + offset) mod 360`, with the first term rounded down to a
/// whole millidegree.
pub open spec fn vertex_angle(n: nat, i: nat, offset: int) -> int
    recommends
        n > 0,
{
    normalized((FULL_TURN as int) * (i as int) / (n as int) + offset)
}

/// The side of the square canvas for a circle of the given diameter.
pub open spec fn canvas_side_spec(diameter: nat) -> nat {
    if diameter + CANVAS_MARGIN >= CANVAS_FLOOR {
        (diameter + CANVAS_MARGIN) as nat
    } else {
        CANVAS_FLOOR as nat
    }
}

/// Brings an angle in millidegrees, of either sign, into `[0, FULL_TURN)`.
pub fn normalize_angle(a: i64) -> (r: u64)
    ensures
        r as int == normalized(a as int),
        r < FULL_TURN,
{
    if a >= 0 {
        let r: u64 = (a as u64) % FULL_TURN;
        r
    } else {
        let b: u64 = (-(a + 1)) as u64;
        let s: u64 = b % FULL_TURN;
        proof {
            let m = FULL_TURN as int;
            let q = (b as int) / m;
            lemma_fundamental_div_mod(b as int, m);
            assert(a as int == (-(q + 1)) * m + (m - 1 - s)) by (nonlinear_arith)
                requires
                    b as int == m * q + s as int,
                    a as int == -(b as int) - 1,
            ;
            lemma_fundamental_div_mod_converse(a as int, m, -(q + 1), m - 1 - s);
        }
        FULL_TURN - 1 - s
    }
}

/// The angles, in millidegrees, of the `n_sides` vertices of a regular polygon
/// turned by `offset` millidegrees, in drawing order.
pub fn polygon_angles(n_sides: usize, offset: i64) -> (r: Vec<u64>)
    ensures
        r@.len() == n_sides,
        forall|i: int|
            0 <= i < n_sides ==> #[trigger] r@[i] as int == vertex_angle(n_sides as nat, i as nat, offset as int),
        forall|i: int| 0 <= i < n_sides ==> #[trigger] r@[i] < FULL_TURN,
{
    let turn: u64 = normalize_angle(offset);
    let mut r: Vec<u64> = Vec::new();
    let mut i: usize = 0;
    while i < n_sides
        invariant
            i <= n_sides,
            turn as int == normalized(offset as int),
            r@.len() == i,
            forall|k: int|
                0 <= k < i ==> #[trigger] r@[k] as int == vertex_angle(n_sides as nat, k as nat, offset as int),
            forall|k: int| 0 <= k < i ==> #[trigger] r@[k] < FULL_TURN,
        decreases n_sides - i,
    {
        let base: u128 = (FULL_TURN as u128) * (i as u128) / (n_sides as u128);
        proof {
            let n = n_sides as int;
            let full = FULL_TURN as int;
            assert(full * (i as int) < full * n) by (nonlinear_arith)
                requires
                    0 <= i < n,
                    full > 0,
            ;
            lemma_div_is_ordered(full * (i as int), full * n - 1, n);
            assert((full * n - 1) / n < full) by {
                lemma_fundamental_div_mod(full * n - 1, n);
                lemma_mod_pos_bound(full * n - 1, n);
                assert(n * ((full * n - 1) / n) < n * full) by (nonlinear_arith)
                    requires
                        n * ((full * n - 1) / n) + (full * n - 1) % n == full * n - 1,
                        0 <= (full * n - 1) % n,
                ;
                assert((full * n - 1) / n < full) by (nonlinear_arith)
                    requires
                        n * ((full * n - 1) / n) < n * full,
                        n > 0,
                ;
            }
        }
        let angle: u64 = ((base as u64) + turn) % FULL_TURN;
        proof {
            let full = FULL_TURN as int;
            let o = offset as int;
            lemma_mod_pos_bound(base as int, full);
            lemma_add_mod_noop_right(base as int, o, full);
            lemma_mod_twice(base as int, full);
            assert((base as int) % full == base as int) by {
                lemma_fundamental_div_mod_converse(base as int, full, 0, base as int);
            }
            assert(angle as int == vertex_angle(n_sides as nat, i as nat, o));
        }
        r.push(angle);
        i = i + 1;
    }
    r
}

/// The side of the square canvas that holds a circle of `diameter` pixels:
/// the diameter plus the margin, and never less than the floor.
pub fn canvas_side(diameter: u32) -> (r: u32)
    requires
        diameter <= u32::MAX - CANVAS_MARGIN,
    ensures
        r as nat == canvas_side_spec(diameter as nat),
{
    let needed: u32 = diameter + CANVAS_MARGIN;
    if needed >= CANVAS_FLOOR {
        needed
    } else {
        CANVAS_FLOOR
    }
}

/// Turning by a further full turn leaves every vertex angle unchanged, and
/// every vertex angle lies in `[0, 360)` degrees.
pub proof fn lemma_angle_full_turn(n: nat, i: nat, offset: int)
    requires
        n > 0,
    ensures
        vertex_angle(n, i, offset + FULL_TURN) == vertex_angle(n, i, offset),
        0 <= vertex_angle(n, i, offset) < FULL_TURN,
{
    let full = FULL_TURN as int;
    let base = full * (i as int) / (n as int);
    lemma_add_mod_noop_right(base, offset + full, full);
    lemma_add_mod_noop_right(base, offset, full);
    lemma_mod_add_multiples_vanish(offset, full);
    lemma_mod_bound(base + offset, full);
}

/// A larger diameter never gives a smaller canvas, and no canvas is smaller
/// than the floor.
pub proof fn lemma_canvas_side_monotone(d1: nat, d2: nat)
    requires
        d1 <= d2,
    ensures
        canvas_side_spec(d1) <= canvas_side_spec(d2),
        canvas_side_spec(d1) >= CANVAS_FLOOR,
        canvas_side_spec(d2) >= CANVAS_FLOOR,
{
}

/// The edges of the closed polygon through `points`: edge `i` joins point `i`
/// to point `i + 1`, and the last edge returns to the first point.
pub fn polygon_edges(points: &Vec<(i64, i64)>) -> (r: Vec<((i64, i64), (i64, i64))>)
    ensures
        r@.len() == points@.len(),
        forall|i: int|
            0 <= i < points@.len() ==> #[trigger] r@[i] == (
                points@[i],
                points@[(i + 1) % (points@.len() as int)],
            ),
{
    let n: usize = points.len();
    let mut r: Vec<((i64, i64), (i64, i64))> = Vec::new();
    let mut i: usize = 0;
    while i < n
        invariant
            n == points@.len(),
            i <= n,
            r@.len() == i,
            forall|k: int|
                0 <= k < i ==> #[trigger] r@[k] == (points@[k], points@[(k + 1) % (n as int)]),
        decreases n - i,
    {
        let j: usize = if i + 1 == n {
            0
        } else {
            i + 1
        };
        assert(j as int == (i as int + 1) % (n as int)) by {
            if i + 1 == n {
                lemma_fundamental_div_mod_converse(i as int + 1, n as int, 1, 0);
            } else {
                lemma_fundamental_div_mod_converse(i as int + 1, n as int, 0, i as int + 1);
            }
        }
        r.push((points[i], points[j]));
        i = i + 1;
    }
    r
}

} // verus!
