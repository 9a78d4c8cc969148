//! Angular-cap spatial queries: every cell within a given angle of a
//! direction.
//!
//! The cap's half-angle enters as an exact tangent `tan_num / tan_den`. On
//! each face whose outward normal does not point away from the direction, the
//! cap projects to an axis-aligned box on the face plane whose edges are the
//! tangents of the direction's axis angles shifted by the half-angle; the
//! tangent addition theorem turns those edges into exact integer quotients.
//! An edge whose shifted angle passes a quarter turn saturates to the matching
//! side of the face. Faces whose box misses the face square are rejected; the
//! others contribute the discretised box of cells.

use vstd::prelude::*;
use crate::coords::{spec_cell, cell_of, Coords, MAX_RESOLUTION};
use crate::face::Face;
use crate::vect::{Vec3, COMPONENT_BOUND, lemma_mul_bound};

verus! {

/// Numerator of the box's lower edge along one axis: with `t = tn/td` the
/// tangent of the half-angle and `a/c` the tangent of the direction's axis
/// angle, the lower edge is `(a/c - t) / (1 + (a/c)t) = lower_num/lower_den`.
pub open spec fn lower_num(a: int, c: int, tn: int, td: int) -> int {
    a * td - tn * c
}

/// Denominator of the box's lower edge along one axis.
pub open spec fn lower_den(a: int, c: int, tn: int, td: int) -> int {
    c * td + a * tn
}

/// Numerator of the box's upper edge along one axis:
/// `(a/c + t) / (1 - (a/c)t) = upper_num/upper_den`.
pub open spec fn upper_num(a: int, c: int, tn: int, td: int) -> int {
    a * td + tn * c
}

/// Denominator of the box's upper edge along one axis.
pub open spec fn upper_den(a: int, c: int, tn: int, td: int) -> int {
    c * td - a * tn
}

/// The box meets the face square `[-1, 1]` along this axis: its lower edge is
/// at most `1` and its upper edge at least `-1`. A nonpositive denominator
/// means the edge's angle passed a quarter turn, so the edge saturates to
/// minus infinity (numerator nonpositive) or plus infinity.
pub open spec fn axis_admits(a: int, c: int, tn: int, td: int) -> bool {
    &&& if lower_den(a, c, tn, td) > 0 {
        lower_num(a, c, tn, td) <= lower_den(a, c, tn, td)
    } else {
        lower_num(a, c, tn, td) <= 0
    }
    &&& if upper_den(a, c, tn, td) > 0 {
        upper_num(a, c, tn, td) >= -upper_den(a, c, tn, td)
    } else {
        upper_num(a, c, tn, td) >= 0
    }
}

/// First cell of the box along one axis (`res` marks a lower edge beyond the
/// face, which admits no cell).
pub open spec fn axis_lo(res: int, a: int, c: int, tn: int, td: int) -> int {
    if lower_den(a, c, tn, td) > 0 {
        spec_cell(res, lower_num(a, c, tn, td), lower_den(a, c, tn, td))
    } else if lower_num(a, c, tn, td) > 0 {
        res
    } else {
        0
    }
}

/// Last cell of the box along one axis (`-1` marks an upper edge before the
/// face, which admits no cell).
pub open spec fn axis_hi(res: int, a: int, c: int, tn: int, td: int) -> int {
    if upper_den(a, c, tn, td) > 0 {
        spec_cell(res, upper_num(a, c, tn, td), upper_den(a, c, tn, td))
    } else if upper_num(a, c, tn, td) >= 0 {
        res - 1
    } else {
        -1
    }
}

/// The face contributes cells to the cap around `v`: it does not point away
/// from `v`, and the cap's box meets the face square on both axes.
pub open spec fn face_included(v: Vec3, tn: int, td: int, f: Face) -> bool {
    let l = f.spec_world_to_local(v);
    &&& l.z >= 0
    &&& axis_admits(l.x as int, l.z as int, tn, td)
    &&& axis_admits(l.y as int, l.z as int, tn, td)
}

/// The cell `c` lies in the neighborhood of direction `v` with half-angle
/// tangent `tn / td` at resolution `res`.
pub open spec fn neighborhood_contains(res: int, v: Vec3, tn: int, td: int, c: Coords) -> bool {
    let l = c.face.spec_world_to_local(v);
    &&& face_included(v, tn, td, c.face)
    &&& axis_lo(res, l.x as int, l.z as int, tn, td) <= c.coords.0 <= axis_hi(
        res,
        l.x as int,
        l.z as int,
        tn,
        td,
    )
    &&& axis_lo(res, l.y as int, l.z as int, tn, td) <= c.coords.1 <= axis_hi(
        res,
        l.y as int,
        l.z as int,
        tn,
        td,
    )
}

/// Exact product of two direction-sized factors.
fn mul_cb(a: i64, b: i64) -> (r: i128)
    requires
        -COMPONENT_BOUND <= a <= COMPONENT_BOUND,
        -COMPONENT_BOUND <= b <= COMPONENT_BOUND,
    ensures
        r == a * b,
        -0x1000_0000_0000_0000_0000_0000 <= r <= 0x1000_0000_0000_0000_0000_0000,
{
    proof {
        lemma_mul_bound(a as int, b as int, COMPONENT_BOUND as int);
        assert(COMPONENT_BOUND as int * COMPONENT_BOUND as int
            == 0x1000_0000_0000_0000_0000_0000) by (nonlinear_arith);
    }
    a as i128 * b as i128
}

/// The box of cells one face contributes, or none if the box misses the face
/// square on either axis.
fn face_cells(res: u32, l: Vec3, tn: i64, td: i64) -> (r: Option<(u32, u32, u32, u32)>)
    requires
        1 <= res <= MAX_RESOLUTION,
        l.bounded(),
        l.z >= 0,
        0 <= tn <= COMPONENT_BOUND,
        1 <= td <= COMPONENT_BOUND,
    ensures
        match r {
            Some(b) => {
                &&& axis_admits(l.x as int, l.z as int, tn as int, td as int)
                &&& axis_admits(l.y as int, l.z as int, tn as int, td as int)
                &&& b.0 == axis_lo(res as int, l.x as int, l.z as int, tn as int, td as int)
                &&& b.1 == axis_hi(res as int, l.x as int, l.z as int, tn as int, td as int)
                &&& b.2 == axis_lo(res as int, l.y as int, l.z as int, tn as int, td as int)
                &&& b.3 == axis_hi(res as int, l.y as int, l.z as int, tn as int, td as int)
                &&& b.1 < res && b.3 < res
            },
            None => !(axis_admits(l.x as int, l.z as int, tn as int, td as int) && axis_admits(
                l.y as int,
                l.z as int,
                tn as int,
                td as int,
            )),
        },
{
    let x_bounds = axis_cells(res, l.x, l.z, tn, td);
    let y_bounds = axis_cells(res, l.y, l.z, tn, td);
    match (x_bounds, y_bounds) {
        (Some(xb), Some(yb)) => Some((xb.0, xb.1, yb.0, yb.1)),
        _ => None,
    }
}

/// The cell interval one axis contributes, or none if the box misses the face
/// square along this axis.
fn axis_cells(res: u32, a: i64, c: i64, tn: i64, td: i64) -> (r: Option<(u32, u32)>)
    requires
        1 <= res <= MAX_RESOLUTION,
        -COMPONENT_BOUND <= a <= COMPONENT_BOUND,
        0 <= c <= COMPONENT_BOUND,
        0 <= tn <= COMPONENT_BOUND,
        1 <= td <= COMPONENT_BOUND,
    ensures
        match r {
            Some(b) => {
                &&& axis_admits(a as int, c as int, tn as int, td as int)
                &&& b.0 == axis_lo(res as int, a as int, c as int, tn as int, td as int)
                &&& b.1 == axis_hi(res as int, a as int, c as int, tn as int, td as int)
                &&& b.1 < res
            },
            None => !axis_admits(a as int, c as int, tn as int, td as int),
        },
{
    let l_num = mul_cb(a, td) - mul_cb(tn, c);
    let l_den = mul_cb(c, td) + mul_cb(a, tn);
    let u_num = mul_cb(a, td) + mul_cb(tn, c);
    let u_den = mul_cb(c, td) - mul_cb(a, tn);
    let lower_ok = if l_den > 0 {
        l_num <= l_den
    } else {
        l_num <= 0
    };
    let upper_ok = if u_den > 0 {
        u_num >= -u_den
    } else {
        u_num >= 0
    };
    if !(lower_ok && upper_ok) {
        return None;
    }
    let lo = if l_den > 0 {
        cell_of(res, l_num, l_den)
    } else {
        0
    };
    let hi = if u_den > 0 {
        cell_of(res, u_num, u_den)
    } else {
        res - 1
    };
    Some((lo, hi))
}

/// Appends every cell of the box `[lo_x, hi_x] x [lo_y, hi_y]` on `face`.
fn emit_box(out: &mut Vec<Coords>, face: Face, lo_x: u32, hi_x: u32, lo_y: u32, hi_y: u32)
    requires
        hi_x < MAX_RESOLUTION,
        hi_y < MAX_RESOLUTION,
        no_duplicates(old(out)@),
        forall|c: Coords| #[trigger] old(out)@.contains(c) ==> c.face != face,
    ensures
        forall|c: Coords| #[trigger]
            final(out)@.contains(c) <==> old(out)@.contains(c) || (c.face == face && lo_x
                <= c.coords.0 <= hi_x && lo_y <= c.coords.1 <= hi_y),
        no_duplicates(final(out)@),
{
    broadcast use vstd::seq_lib::lemma_seq_contains_after_push;

    let mut yc = lo_y;
    while yc <= hi_y
        invariant
            hi_x < MAX_RESOLUTION,
            hi_y < MAX_RESOLUTION,
            lo_y <= yc,
            yc <= hi_y + 1 || yc == lo_y,
            forall|c: Coords| #[trigger]
                out@.contains(c) <==> old(out)@.contains(c) || (c.face == face && lo_x <= c.coords.0
                    <= hi_x && lo_y <= c.coords.1 < yc),
            no_duplicates(out@),
            forall|c: Coords| #[trigger] old(out)@.contains(c) ==> c.face != face,
        decreases hi_y + 1 - yc,
    {
        let mut xc = lo_x;
        while xc <= hi_x
            invariant
                hi_x < MAX_RESOLUTION,
                hi_y < MAX_RESOLUTION,
                lo_y <= yc <= hi_y,
                lo_x <= xc,
                xc <= hi_x + 1 || xc == lo_x,
                forall|c: Coords| #[trigger]
                    out@.contains(c) <==> old(out)@.contains(c) || (c.face == face && lo_x
                        <= c.coords.0 <= hi_x && lo_y <= c.coords.1 < yc) || (c.face == face && lo_x
                        <= c.coords.0 < xc && c.coords.1 == yc),
                no_duplicates(out@),
                forall|c: Coords| #[trigger] old(out)@.contains(c) ==> c.face != face,
            decreases hi_x + 1 - xc,
        {
            let ghost pre = out@;
            out.push(Coords { coords: (xc, yc), face });
            proof {
                assert(out@ == pre.push(Coords { coords: (xc, yc), face }));
                lemma_push_contains_iff(pre, Coords { coords: (xc, yc), face });
                assert(!pre.contains(Coords { coords: (xc, yc), face }));
                lemma_push_fresh_no_duplicates(pre, Coords { coords: (xc, yc), face });
            }
            xc = xc + 1;
        }
        yc = yc + 1;
    }
}

/// No value occurs twice in the sequence.
pub open spec fn no_duplicates(s: Seq<Coords>) -> bool {
    forall|i: int, j: int| 0 <= i < j < s.len() ==> s[i] != s[j]
}

/// Pushing a value that is not yet present keeps the entries distinct.
proof fn lemma_push_fresh_no_duplicates(s: Seq<Coords>, v: Coords)
    requires
        no_duplicates(s),
        !s.contains(v),
    ensures
        no_duplicates(s.push(v)),
{
    assert forall|i: int, j: int| 0 <= i < j < s.push(v).len() implies s.push(v)[i] != s.push(
        v,
    )[j] by {
        if j == s.len() {
            assert(s.push(v)[j] == v);
            assert(s.push(v)[i] == s[i]);
            if s[i] == v {
                assert(s.contains(v));
            }
        } else {
            assert(s.push(v)[i] == s[i]);
            assert(s.push(v)[j] == s[j]);
        }
    }
}

/// Pushing onto a sequence adds exactly one value to its membership.
proof fn lemma_push_contains_iff(s: Seq<Coords>, v: Coords)
    ensures
        forall|x: Coords| #[trigger] s.push(v).contains(x) <==> (v == x || s.contains(x)),
{
    assert forall|x: Coords| #[trigger]
        s.push(v).contains(x) <==> (v == x || s.contains(x)) by {
        vstd::seq_lib::lemma_seq_contains_after_push(s, v, x);
    }
}

/// Ordinal of a face in the fixed enumeration order.
pub open spec fn face_rank(f: Face) -> int {
    match f {
        Face::PX => 0,
        Face::NX => 1,
        Face::PY => 2,
        Face::NY => 3,
        Face::PZ => 4,
        Face::NZ => 5,
    }
}

impl Coords {
    /// Every cell within the angular cap of half-angle `atan(tan_num /
    /// tan_den)` around `direction`, over all faces, each cell listed once.
    pub fn neighborhood(resolution: u32, direction: Vec3, tan_num: i64, tan_den: i64) -> (r: Vec<
        Coords,
    >)
        requires
            1 <= resolution <= MAX_RESOLUTION,
            direction.bounded(),
            0 <= tan_num <= COMPONENT_BOUND,
            1 <= tan_den <= COMPONENT_BOUND,
        ensures
            forall|c: Coords| #[trigger]
                r@.contains(c) <==> neighborhood_contains(
                    resolution as int,
                    direction,
                    tan_num as int,
                    tan_den as int,
                    c,
                ),
            forall|c: Coords| r@.contains(c) ==> #[trigger] c.valid(resolution as int),
            no_duplicates(r@),
    {
        let ghost res = resolution as int;
        let ghost tn = tan_num as int;
        let ghost td = tan_den as int;
        let mut result: Vec<Coords> = Vec::new();
        let faces = Face::iter();
        let mut k: usize = 0;
        while k < 6
            invariant
                0 <= k <= 6,
                1 <= resolution <= MAX_RESOLUTION,
                direction.bounded(),
                0 <= tan_num <= COMPONENT_BOUND,
                1 <= tan_den <= COMPONENT_BOUND,
                res == resolution as int,
                tn == tan_num as int,
                td == tan_den as int,
                faces@ == Face::spec_all(),
                forall|c: Coords| #[trigger]
                    result@.contains(c) <==> (face_rank(c.face) < k && neighborhood_contains(
                        res,
                        direction,
                        tn,
                        td,
                        c,
                    )),
                forall|c: Coords| result@.contains(c) ==> #[trigger] c.valid(res),
                no_duplicates(result@),
            decreases 6 - k,
        {
            let face = faces[k];
            proof {
                assert(face_rank(face) == k);
            }
            let l = face.world_to_local(direction);
            if l.z >= 0 {
                if let Some(b) = face_cells(resolution, l, tan_num, tan_den) {
                    emit_box(&mut result, face, b.0, b.1, b.2, b.3);
                }
            }
            k = k + 1;
            proof {
                assert forall|c: Coords| #[trigger]
                    result@.contains(c) implies (face_rank(c.face) < k && neighborhood_contains(
                    res,
                    direction,
                    tn,
                    td,
                    c,
                )) by {
                    if c.face == face {
                        assert(c.face.spec_world_to_local(direction) == l);
                    }
                }
                assert forall|c: Coords|
                    face_rank(c.face) < k && neighborhood_contains(
                        res,
                        direction,
                        tn,
                        td,
                        c,
                    ) implies #[trigger] result@.contains(c) by {
                    if c.face == face {
                        assert(c.face.spec_world_to_local(direction) == l);
                    } else {
                        assert(face_rank(c.face) < k - 1 || face_rank(c.face) == k - 1);
                        if face_rank(c.face) == k - 1 {
                            assert(c.face == face);
                        }
                    }
                }
            }
        }
        result
    }
}

/// Comparing two exact quotients: if `p1/q1 <= p2/q2` as rationals, the floor
/// divisions are ordered the same way.
pub proof fn lemma_div_le(p1: int, q1: int, p2: int, q2: int)
    requires
        q1 > 0,
        q2 > 0,
        p1 * q2 <= p2 * q1,
    ensures
        p1 / q1 <= p2 / q2,
{
    let f1 = p1 / q1;
    vstd::arithmetic::div_mod::lemma_fundamental_div_mod(p1, q1);
    assert(q1 * f1 <= p1);
    assert(q2 * (q1 * f1) <= q2 * p1) by (nonlinear_arith)
        requires
            q1 * f1 <= p1,
            q2 > 0,
    ;
    assert(q2 * p1 == p1 * q2) by (nonlinear_arith);
    assert(p2 * q1 == q1 * p2) by (nonlinear_arith);
    assert(q2 * (q1 * f1) == q1 * (q2 * f1)) by (nonlinear_arith);
    assert(q1 * (q2 * f1) <= q1 * p2);
    assert(q2 * f1 <= p2) by (nonlinear_arith)
        requires
            q1 * (q2 * f1) <= q1 * p2,
            q1 > 0,
    ;
    vstd::arithmetic::div_mod::lemma_div_multiples_vanish(f1, q2);
    vstd::arithmetic::div_mod::lemma_div_is_ordered(q2 * f1, p2, q2);
}

/// Cells are ordered as their quotients: a lower exact face coordinate never
/// lands in a later cell.
pub proof fn lemma_cell_monotone(res: int, n1: int, d1: int, n2: int, d2: int)
    requires
        res >= 1,
        d1 > 0,
        d2 > 0,
        n1 * d2 <= n2 * d1,
    ensures
        spec_cell(res, n1, d1) <= spec_cell(res, n2, d2),
{
    let a1 = res * (n1 + d1);
    let b1 = 2 * d1;
    let a2 = res * (n2 + d2);
    let b2 = 2 * d2;
    assert(a1 * b2 <= a2 * b1) by (nonlinear_arith)
        requires
            a1 == res * (n1 + d1),
            b1 == 2 * d1,
            a2 == res * (n2 + d2),
            b2 == 2 * d2,
            n1 * d2 <= n2 * d1,
            res >= 1,
            d1 > 0,
            d2 > 0,
    ;
    lemma_div_le(a1, b1, a2, b2);
}

/// The cell of any exact coordinate lies inside the grid.
proof fn lemma_cell_range(res: int, n: int, d: int)
    requires
        res >= 1,
    ensures
        0 <= spec_cell(res, n, d) <= res - 1,
{
}

/// Ring identity behind the edge ordering: the cross-multiplied difference of
/// two shifted-tangent quotients collapses to one product.
proof fn lemma_cross_identity(a: int, cz: int, s1: int, d1: int, s2: int, d2: int)
    ensures
        (a * d1 - s1 * cz) * (cz * d2 + a * s2) - (a * d2 - s2 * cz) * (cz * d1 + a * s1) == (s2
            * d1 - s1 * d2) * (a * a + cz * cz),
{
    let u1 = a * d1;
    let v1 = s1 * cz;
    let w1 = cz * d2;
    let x1 = a * s2;
    let u2 = a * d2;
    let v2 = s2 * cz;
    let w2 = cz * d1;
    let x2 = a * s1;
    assert((u1 - v1) * (w1 + x1) == u1 * w1 + u1 * x1 - v1 * w1 - v1 * x1) by (nonlinear_arith);
    assert((u2 - v2) * (w2 + x2) == u2 * w2 + u2 * x2 - v2 * w2 - v2 * x2) by (nonlinear_arith);
    assert(u1 * w1 == u2 * w2) by (nonlinear_arith)
        requires
            u1 == a * d1,
            w1 == cz * d2,
            u2 == a * d2,
            w2 == cz * d1,
    ;
    assert(v1 * x1 == v2 * x2) by (nonlinear_arith)
        requires
            v1 == s1 * cz,
            x1 == a * s2,
            v2 == s2 * cz,
            x2 == a * s1,
    ;
    assert(u1 * x1 == (a * a) * (s2 * d1)) by (nonlinear_arith)
        requires
            u1 == a * d1,
            x1 == a * s2,
    ;
    assert(u2 * x2 == (a * a) * (s1 * d2)) by (nonlinear_arith)
        requires
            u2 == a * d2,
            x2 == a * s1,
    ;
    assert(v1 * w1 == (cz * cz) * (s1 * d2)) by (nonlinear_arith)
        requires
            v1 == s1 * cz,
            w1 == cz * d2,
    ;
    assert(v2 * w2 == (cz * cz) * (s2 * d1)) by (nonlinear_arith)
        requires
            v2 == s2 * cz,
            w2 == cz * d1,
    ;
    assert((s2 * d1 - s1 * d2) * (a * a + cz * cz) == (a * a) * (s2 * d1) - (a * a) * (s1 * d2) + (
    cz * cz) * (s2 * d1) - (cz * cz) * (s1 * d2)) by (nonlinear_arith);
}

/// Ring identity behind the upper-edge ordering.
proof fn lemma_cross_identity_upper(a: int, cz: int, s1: int, d1: int, s2: int, d2: int)
    ensures
        (a * d2 + s2 * cz) * (cz * d1 - a * s1) - (a * d1 + s1 * cz) * (cz * d2 - a * s2) == (s2
            * d1 - s1 * d2) * (a * a + cz * cz),
{
    let u1 = a * d1;
    let v1 = s1 * cz;
    let w1 = cz * d2;
    let x1 = a * s2;
    let u2 = a * d2;
    let v2 = s2 * cz;
    let w2 = cz * d1;
    let x2 = a * s1;
    assert((u2 + v2) * (w2 - x2) == u2 * w2 - u2 * x2 + v2 * w2 - v2 * x2) by (nonlinear_arith);
    assert((u1 + v1) * (w1 - x1) == u1 * w1 - u1 * x1 + v1 * w1 - v1 * x1) by (nonlinear_arith);
    assert(u1 * w1 == u2 * w2) by (nonlinear_arith)
        requires
            u1 == a * d1,
            w1 == cz * d2,
            u2 == a * d2,
            w2 == cz * d1,
    ;
    assert(v1 * x1 == v2 * x2) by (nonlinear_arith)
        requires
            v1 == s1 * cz,
            x1 == a * s2,
            v2 == s2 * cz,
            x2 == a * s1,
    ;
    assert(u1 * x1 == (a * a) * (s2 * d1)) by (nonlinear_arith)
        requires
            u1 == a * d1,
            x1 == a * s2,
    ;
    assert(u2 * x2 == (a * a) * (s1 * d2)) by (nonlinear_arith)
        requires
            u2 == a * d2,
            x2 == a * s1,
    ;
    assert(v1 * w1 == (cz * cz) * (s1 * d2)) by (nonlinear_arith)
        requires
            v1 == s1 * cz,
            w1 == cz * d2,
    ;
    assert(v2 * w2 == (cz * cz) * (s2 * d1)) by (nonlinear_arith)
        requires
            v2 == s2 * cz,
            w2 == cz * d1,
    ;
    assert((s2 * d1 - s1 * d2) * (a * a + cz * cz) == (a * a) * (s2 * d1) - (a * a) * (s1 * d2) + (
    cz * cz) * (s2 * d1) - (cz * cz) * (s1 * d2)) by (nonlinear_arith);
}

/// A nonnegative multiple of a nonnegative difference is nonnegative.
proof fn lemma_cross_sign(a: int, cz: int, s1: int, d1: int, s2: int, d2: int)
    requires
        s1 * d2 <= s2 * d1,
    ensures
        (s2 * d1 - s1 * d2) * (a * a + cz * cz) >= 0,
{
    assert((s2 * d1 - s1 * d2) * (a * a + cz * cz) >= 0) by (nonlinear_arith)
        requires
            s1 * d2 <= s2 * d1,
    ;
}

/// A lower edge saturated to minus infinity at the smaller half-angle stays
/// saturated at the larger one.
proof fn lemma_lower_den_monotone(a: int, cz: int, tn1: int, td1: int, tn2: int, td2: int)
    requires
        cz >= 0,
        tn1 >= 0,
        td1 >= 1,
        tn2 >= 0,
        td2 >= 1,
        tn1 * td2 <= tn2 * td1,
        lower_den(a, cz, tn1, td1) <= 0,
        lower_num(a, cz, tn1, td1) <= 0,
    ensures
        lower_den(a, cz, tn2, td2) <= 0,
{
    if a >= 0 {
        assert(cz * td1 >= 0 && a * tn1 >= 0 && a * td1 >= 0) by (nonlinear_arith)
            requires
                cz >= 0,
                td1 >= 1,
                a >= 0,
                tn1 >= 0,
        ;
        assert(tn1 * cz >= 0) by (nonlinear_arith)
            requires
                tn1 >= 0,
                cz >= 0,
        ;
        // lower_den <= 0 forces cz == 0; lower_num <= 0 then forces a == 0.
        assert(cz == 0) by (nonlinear_arith)
            requires
                cz * td1 + a * tn1 <= 0,
                cz * td1 >= 0,
                a * tn1 >= 0,
                td1 >= 1,
                cz >= 0,
        ;
        assert(tn1 * cz == 0) by (nonlinear_arith)
            requires
                cz == 0,
        ;
        assert(a == 0) by (nonlinear_arith)
            requires
                a * td1 - tn1 * cz <= 0,
                tn1 * cz == 0,
                td1 >= 1,
                a >= 0,
        ;
        assert(cz * td2 == 0 && a * tn2 == 0) by (nonlinear_arith)
            requires
                cz == 0,
                a == 0,
        ;
    } else {
        assert((-a) * tn1 == -(a * tn1)) by (nonlinear_arith);
        assert((cz * td1) * td2 <= ((-a) * tn1) * td2) by (nonlinear_arith)
            requires
                cz * td1 <= (-a) * tn1,
                td2 >= 1,
        ;
        assert(((-a) * tn1) * td2 == (-a) * (tn1 * td2)) by (nonlinear_arith);
        assert((-a) * (tn1 * td2) <= (-a) * (tn2 * td1)) by (nonlinear_arith)
            requires
                tn1 * td2 <= tn2 * td1,
                a < 0,
        ;
        assert((-a) * (tn2 * td1) == ((-a) * tn2) * td1) by (nonlinear_arith);
        assert((cz * td1) * td2 == (cz * td2) * td1) by (nonlinear_arith);
        assert(cz * td2 <= (-a) * tn2) by (nonlinear_arith)
            requires
                (cz * td2) * td1 <= ((-a) * tn2) * td1,
                td1 >= 1,
        ;
        assert((-a) * tn2 == -(a * tn2)) by (nonlinear_arith);
    }
}

/// An upper edge saturated to plus infinity at the smaller half-angle stays
/// saturated at the larger one.
proof fn lemma_upper_den_monotone(a: int, cz: int, tn1: int, td1: int, tn2: int, td2: int)
    requires
        cz >= 0,
        tn1 >= 0,
        td1 >= 1,
        tn2 >= 0,
        td2 >= 1,
        tn1 * td2 <= tn2 * td1,
        upper_den(a, cz, tn1, td1) <= 0,
        upper_num(a, cz, tn1, td1) >= 0,
    ensures
        upper_den(a, cz, tn2, td2) <= 0,
{
    if a <= 0 {
        assert(cz * td1 >= 0 && a * tn1 <= 0 && a * td1 <= 0) by (nonlinear_arith)
            requires
                cz >= 0,
                td1 >= 1,
                a <= 0,
                tn1 >= 0,
        ;
        assert(tn1 * cz >= 0) by (nonlinear_arith)
            requires
                tn1 >= 0,
                cz >= 0,
        ;
        // upper_den <= 0 forces cz == 0 and a * tn1 == 0; upper_num >= 0 then
        // forces a == 0.
        assert(cz == 0) by (nonlinear_arith)
            requires
                cz * td1 <= a * tn1,
                a * tn1 <= 0,
                td1 >= 1,
                cz >= 0,
        ;
        assert(a == 0) by (nonlinear_arith)
            requires
                a * td1 + tn1 * cz >= 0,
                cz == 0,
                td1 >= 1,
                a <= 0,
        ;
        assert(cz * td2 == 0 && a * tn2 == 0) by (nonlinear_arith)
            requires
                cz == 0,
                a == 0,
        ;
    } else {
        assert((cz * td1) * td2 <= (a * tn1) * td2) by (nonlinear_arith)
            requires
                cz * td1 <= a * tn1,
                td2 >= 1,
        ;
        assert((a * tn1) * td2 == a * (tn1 * td2)) by (nonlinear_arith);
        assert(a * (tn1 * td2) <= a * (tn2 * td1)) by (nonlinear_arith)
            requires
                tn1 * td2 <= tn2 * td1,
                a > 0,
        ;
        assert(a * (tn2 * td1) == (a * tn2) * td1) by (nonlinear_arith);
        assert((cz * td1) * td2 == (cz * td2) * td1) by (nonlinear_arith);
        assert(cz * td2 <= a * tn2) by (nonlinear_arith)
            requires
                (cz * td2) * td1 <= (a * tn2) * td1,
                td1 >= 1,
        ;
    }
}

/// A lower edge saturated to plus infinity can arise only at half-angle zero
/// on a grazing face, where it already rejected the smaller half-angle.
proof fn lemma_lower_sat_plus(a: int, cz: int, tn1: int, td1: int, tn2: int, td2: int)
    requires
        cz >= 0,
        tn1 >= 0,
        td1 >= 1,
        tn2 >= 0,
        td2 >= 1,
        tn1 * td2 <= tn2 * td1,
        lower_den(a, cz, tn2, td2) <= 0,
        lower_num(a, cz, tn2, td2) > 0,
    ensures
        lower_den(a, cz, tn1, td1) <= 0,
        lower_num(a, cz, tn1, td1) > 0,
{
    assert(tn2 * cz >= 0) by (nonlinear_arith)
        requires
            tn2 >= 0,
            cz >= 0,
    ;
    assert(a > 0) by (nonlinear_arith)
        requires
            a * td2 > tn2 * cz,
            tn2 * cz >= 0,
            td2 >= 1,
    ;
    assert(cz * td2 >= 0 && a * tn2 >= 0) by (nonlinear_arith)
        requires
            cz >= 0,
            td2 >= 1,
            a > 0,
            tn2 >= 0,
    ;
    assert(cz == 0) by (nonlinear_arith)
        requires
            cz * td2 <= 0,
            cz * td2 >= 0,
            cz >= 0,
            td2 >= 1,
            cz * td2 + a * tn2 <= 0,
            a * tn2 >= 0,
    ;
    assert(tn2 == 0) by (nonlinear_arith)
        requires
            a * tn2 <= 0,
            a > 0,
            tn2 >= 0,
    ;
    assert(tn1 * td2 >= 0 && tn2 * td1 == 0) by (nonlinear_arith)
        requires
            tn1 >= 0,
            td2 >= 1,
            tn2 == 0,
    ;
    assert(tn1 == 0) by (nonlinear_arith)
        requires
            tn1 * td2 <= 0,
            tn1 >= 0,
            td2 >= 1,
    ;
    assert(cz * td1 == 0 && a * tn1 == 0 && tn1 * cz == 0) by (nonlinear_arith)
        requires
            cz == 0,
            tn1 == 0,
    ;
    assert(a * td1 > 0) by (nonlinear_arith)
        requires
            a > 0,
            td1 >= 1,
    ;
}

/// An upper edge saturated to minus infinity can arise only at half-angle
/// zero on a grazing face, where it already rejected the smaller half-angle.
proof fn lemma_upper_sat_minus(a: int, cz: int, tn1: int, td1: int, tn2: int, td2: int)
    requires
        cz >= 0,
        tn1 >= 0,
        td1 >= 1,
        tn2 >= 0,
        td2 >= 1,
        tn1 * td2 <= tn2 * td1,
        upper_den(a, cz, tn2, td2) <= 0,
        upper_num(a, cz, tn2, td2) < 0,
    ensures
        upper_den(a, cz, tn1, td1) <= 0,
        upper_num(a, cz, tn1, td1) < 0,
{
    assert(tn2 * cz >= 0) by (nonlinear_arith)
        requires
            tn2 >= 0,
            cz >= 0,
    ;
    assert(a < 0) by (nonlinear_arith)
        requires
            a * td2 + tn2 * cz < 0,
            tn2 * cz >= 0,
            td2 >= 1,
    ;
    assert(cz * td2 >= 0 && a * tn2 <= 0) by (nonlinear_arith)
        requires
            cz >= 0,
            td2 >= 1,
            a < 0,
            tn2 >= 0,
    ;
    assert(cz == 0 && a * tn2 == 0) by (nonlinear_arith)
        requires
            cz * td2 - a * tn2 <= 0,
            cz * td2 >= 0,
            a * tn2 <= 0,
            cz >= 0,
            td2 >= 1,
    ;
    assert(tn2 == 0) by (nonlinear_arith)
        requires
            a * tn2 == 0,
            a < 0,
    ;
    assert(tn1 == 0) by (nonlinear_arith)
        requires
            tn1 * td2 <= tn2 * td1,
            tn2 == 0,
            tn1 >= 0,
            td2 >= 1,
    ;
    assert(cz * td1 == 0 && a * tn1 == 0 && tn1 * cz == 0) by (nonlinear_arith)
        requires
            cz == 0,
            tn1 == 0,
    ;
    assert(a * td1 < 0) by (nonlinear_arith)
        requires
            a < 0,
            td1 >= 1,
    ;
}

/// Widening the half-angle can only move the box's lower edge down and its
/// upper edge up: the box along one axis for the smaller tangent `tn1/td1`
/// lies inside the box for the larger tangent `tn2/td2`, and a box that meets
/// the face square keeps meeting it.
pub proof fn lemma_axis_monotone(res: int, a: int, cz: int, tn1: int, td1: int, tn2: int, td2: int)
    requires
        res >= 1,
        cz >= 0,
        tn1 >= 0,
        td1 >= 1,
        tn2 >= 0,
        td2 >= 1,
        tn1 * td2 <= tn2 * td1,
        axis_admits(a, cz, tn1, td1),
    ensures
        axis_admits(a, cz, tn2, td2),
        axis_lo(res, a, cz, tn2, td2) <= axis_lo(res, a, cz, tn1, td1),
        axis_hi(res, a, cz, tn1, td1) <= axis_hi(res, a, cz, tn2, td2),
{
    let l1n = lower_num(a, cz, tn1, td1);
    let l1d = lower_den(a, cz, tn1, td1);
    let l2n = lower_num(a, cz, tn2, td2);
    let l2d = lower_den(a, cz, tn2, td2);
    let u1n = upper_num(a, cz, tn1, td1);
    let u1d = upper_den(a, cz, tn1, td1);
    let u2n = upper_num(a, cz, tn2, td2);
    let u2d = upper_den(a, cz, tn2, td2);

    // Cross-multiplied ordering of the edges: both differences collapse to
    // (tn2*td1 - tn1*td2) * (a^2 + cz^2), which is nonnegative.
    lemma_cross_identity(a, cz, tn1, td1, tn2, td2);
    lemma_cross_identity_upper(a, cz, tn1, td1, tn2, td2);
    lemma_cross_sign(a, cz, tn1, td1, tn2, td2);
    assert(l2n * l1d <= l1n * l2d);
    assert(u1n * u2d <= u2n * u1d);

    lemma_cell_range(res, l1n, l1d);
    lemma_cell_range(res, l2n, l2d);
    lemma_cell_range(res, u1n, u1d);
    lemma_cell_range(res, u2n, u2d);

    // Lower edge: saturation carries over, and where both edges are finite
    // the cells are ordered downward.
    if l2d > 0 {
        if l1d <= 0 {
            lemma_lower_den_monotone(a, cz, tn1, td1, tn2, td2);
            assert(false);
        }
        assert(l2n <= l2d) by (nonlinear_arith)
            requires
                l2n * l1d <= l1n * l2d,
                l1n <= l1d,
                l1d > 0,
                l2d > 0,
        ;
        lemma_cell_monotone(res, l2n, l2d, l1n, l1d);
    } else {
        if l2n > 0 {
            lemma_lower_sat_plus(a, cz, tn1, td1, tn2, td2);
            assert(false);
        }
    }

    // Upper edge, symmetrically.
    if u2d > 0 {
        if u1d <= 0 {
            lemma_upper_den_monotone(a, cz, tn1, td1, tn2, td2);
            assert(false);
        }
        assert(u2n >= -u2d) by (nonlinear_arith)
            requires
                u1n * u2d <= u2n * u1d,
                u1n >= -u1d,
                u1d > 0,
                u2d > 0,
        ;
        lemma_cell_monotone(res, u1n, u1d, u2n, u2d);
    } else {
        if u2n < 0 {
            lemma_upper_sat_minus(a, cz, tn1, td1, tn2, td2);
            assert(false);
        }
    }
}

/// Neighborhood growth: a cell within the cap of the smaller half-angle
/// `atan(tn1/td1)` is within the cap of the larger half-angle `atan(tn2/td2)`
/// around the same direction.
pub proof fn lemma_neighborhood_monotone(
    res: int,
    v: Vec3,
    tn1: int,
    td1: int,
    tn2: int,
    td2: int,
    c: Coords,
)
    requires
        res >= 1,
        tn1 >= 0,
        td1 >= 1,
        tn2 >= 0,
        td2 >= 1,
        tn1 * td2 <= tn2 * td1,
        neighborhood_contains(res, v, tn1, td1, c),
    ensures
        neighborhood_contains(res, v, tn2, td2, c),
{
    let l = c.face.spec_world_to_local(v);
    lemma_axis_monotone(res, l.x as int, l.z as int, tn1, td1, tn2, td2);
    lemma_axis_monotone(res, l.y as int, l.z as int, tn1, td1, tn2, td2);
}

/// Neighborhood soundness at angle zero: the cap of half-angle zero around a
/// direction contains the cell that the direction addresses.
pub proof fn lemma_neighborhood_zero_contains(res: int, v: Vec3)
    requires
        1 <= res <= MAX_RESOLUTION,
        v.bounded(),
        !v.is_zero(),
    ensures
        neighborhood_contains(res, v, 0, 1, Coords::spec_from_vector(res, v)),
{
    let c = Coords::spec_from_vector(res, v);
    let f = c.face;
    let l = f.spec_world_to_local(v);
    crate::coords::lemma_dominant_local(v);
    lemma_cell_range(res, l.x as int, l.z as int);
    lemma_cell_range(res, l.y as int, l.z as int);
    assert(lower_num(l.x as int, l.z as int, 0, 1) == l.x as int) by (nonlinear_arith);
    assert(lower_den(l.x as int, l.z as int, 0, 1) == l.z as int) by (nonlinear_arith);
    assert(upper_num(l.x as int, l.z as int, 0, 1) == l.x as int) by (nonlinear_arith);
    assert(upper_den(l.x as int, l.z as int, 0, 1) == l.z as int) by (nonlinear_arith);
    assert(lower_num(l.y as int, l.z as int, 0, 1) == l.y as int) by (nonlinear_arith);
    assert(lower_den(l.y as int, l.z as int, 0, 1) == l.z as int) by (nonlinear_arith);
    assert(upper_num(l.y as int, l.z as int, 0, 1) == l.y as int) by (nonlinear_arith);
    assert(upper_den(l.y as int, l.z as int, 0, 1) == l.z as int) by (nonlinear_arith);
}

} // verus!
