//! Grid-cell addresses on cube faces.
//!
//! A [`Coords`] names one cell of a `resolution x resolution` grid laid over
//! a cube face. The continuous face coordinate of a point is its perspective
//! projection onto the face plane, rescaled from `[-1, 1]` to `[0, 1]`;
//! discretisation floors that coordinate times the resolution and clamps it
//! into the grid. All of it is carried out on exact integer quotients.

use vstd::prelude::*;
use vstd::arithmetic::div_mod::{
    lemma_fundamental_div_mod, lemma_fundamental_div_mod_converse, lemma_div_is_ordered,
    lemma_div_pos_is_pos,
};
use crate::face::{Face, abs_int};
use crate::vect::Vec3;

verus! {

/// Largest face resolution the addressing accepts; keeps every intermediate
/// product of the discretisation inside `i128`.
pub const MAX_RESOLUTION: u32 = 65536;

/// The address of one grid cell on one cube face, at a resolution supplied by
/// the caller of each operation.
#[derive(Debug, Clone, Copy, Eq, Hash)]
pub struct Coords {
    pub coords: (u32, u32),
    pub face: Face,
}

impl PartialEq for Coords {
    fn eq(&self, other: &Coords) -> (r: bool) {
        self.coords.0 == other.coords.0 && self.coords.1 == other.coords.1 && self.face
            == other.face
    }
}

impl vstd::std_specs::cmp::PartialEqSpecImpl for Coords {
    open spec fn obeys_eq_spec() -> bool {
        true
    }

    open spec fn eq_spec(&self, other: &Coords) -> bool {
        *self == *other
    }
}

/// Floor of `res * (num/den + 1) / 2` clamped into `[0, res - 1]`: the grid
/// cell hit by a face coordinate given as the exact quotient `num / den` in
/// `[-1, 1]` (values outside that range clamp to the border cells).
pub open spec fn spec_cell(res: int, num: int, den: int) -> int
    recommends
        res >= 1,
        den > 0,
{
    let q = (res * (num + den)) / (2 * den);
    if q < 0 {
        0
    } else if q > res - 1 {
        res - 1
    } else {
        q
    }
}

/// Exact discretisation of the quotient `num / den`; see [`spec_cell`].
pub fn cell_of(res: u32, num: i128, den: i128) -> (r: u32)
    requires
        1 <= res <= MAX_RESOLUTION,
        0 < den <= 0x4000_0000_0000_0000_0000_0000,
        -0x4000_0000_0000_0000_0000_0000 <= num <= 0x4000_0000_0000_0000_0000_0000,
    ensures
        r == spec_cell(res as int, num as int, den as int),
        r < res,
{
    let n2 = num + den;
    if n2 <= 0 {
        proof {
            let m = res as int * (n2 as int);
            let d2 = 2 * (den as int);
            lemma_mul_le_zero(res as int, n2 as int);
            lemma_div_is_ordered(m, 0, d2);
            vstd::arithmetic::div_mod::lemma_div_of0(d2);
            assert(spec_cell(res as int, num as int, den as int) == 0);
        }
        0
    } else if num >= den {
        proof {
            let m = res as int * (n2 as int);
            let d2 = 2 * (den as int);
            assert(m >= res as int * d2) by (nonlinear_arith)
                requires
                    m == res as int * (n2 as int),
                    (n2 as int) >= d2 > 0,
                    res >= 1,
            ;
            vstd::arithmetic::div_mod::lemma_div_by_multiple(res as int, d2);
            lemma_div_is_ordered(res as int * d2, m, d2);
            assert(spec_cell(res as int, num as int, den as int) == res - 1);
        }
        res - 1
    } else {
        proof {
            assert(0 <= res as int * (n2 as int) <= 0x1_0000 * 0x8000_0000_0000_0000_0000_0000)
                by (nonlinear_arith)
                requires
                    0 < (n2 as int) <= 0x8000_0000_0000_0000_0000_0000,
                    1 <= res <= 0x1_0000,
            ;
        }
        let q = (res as i128 * n2) / (2 * den);
        proof {
            let m = res as int * (n2 as int);
            let d2 = 2 * (den as int);
            lemma_div_pos_is_pos(m, d2);
            assert(m < res as int * d2) by (nonlinear_arith)
                requires
                    m == res as int * (n2 as int),
                    0 < (n2 as int) < d2,
                    res >= 1,
            ;
            vstd::arithmetic::div_mod::lemma_div_by_multiple(res as int, d2);
            vstd::arithmetic::div_mod::lemma_mod_multiples_basic(res as int, d2);
            lemma_div_is_ordered(m, res as int * d2 - 1, d2);
            lemma_div_le_num_minus(res as int * d2, d2);
            assert(0 <= m / d2 <= res - 1);
            assert(spec_cell(res as int, num as int, den as int) == m / d2);
        }
        q as u32
    }
}

/// For positive `a * b`, the product of a nonnegative and a nonpositive
/// factor is nonpositive.
proof fn lemma_mul_le_zero(a: int, b: int)
    requires
        a >= 0,
        b <= 0,
    ensures
        a * b <= 0,
{
    assert(a * b <= 0) by (nonlinear_arith)
        requires
            a >= 0,
            b <= 0,
    ;
}

/// `(m - 1) / d < m / d` when `d` divides `m`: dividing one less than a
/// multiple loses a full step.
proof fn lemma_div_le_num_minus(m: int, d: int)
    requires
        d > 0,
        m % d == 0,
    ensures
        (m - 1) / d <= m / d - 1,
{
    lemma_fundamental_div_mod(m, d);
    lemma_fundamental_div_mod(m - 1, d);
    let q = (m - 1) / d;
    let r = (m - 1) % d;
    assert(m == d * (m / d));
    assert(m - 1 == d * q + r);
    if q > m / d - 1 {
        assert(d * q >= d * (m / d)) by (nonlinear_arith)
            requires
                q >= m / d,
                d > 0,
        ;
    }
}

impl Coords {
    /// Both grid coordinates lie inside a `res x res` face grid.
    pub open spec fn valid(self, res: int) -> bool {
        self.coords.0 < res && self.coords.1 < res
    }

    /// The address of the grid cell that the direction `v` points at:
    /// dominant-axis face selection followed by perspective division.
    pub open spec fn spec_from_vector(res: int, v: Vec3) -> Coords {
        let f = Face::spec_from_vector(v);
        let l = f.spec_world_to_local(v);
        Coords {
            coords: (
                spec_cell(res, l.x as int, l.z as int) as u32,
                spec_cell(res, l.y as int, l.z as int) as u32,
            ),
            face: f,
        }
    }

    /// The address of the grid cell that the direction `v` points at.
    pub fn from_vector(resolution: u32, v: &Vec3) -> (r: Coords)
        requires
            1 <= resolution <= MAX_RESOLUTION,
            v.bounded(),
            !v.is_zero(),
        ensures
            r == Coords::spec_from_vector(resolution as int, *v),
            r.valid(resolution as int),
    {
        let face = Face::from_vector(v);
        let l = face.world_to_local(*v);
        proof {
            lemma_dominant_local(*v);
        }
        Coords {
            coords: (
                cell_of(resolution, l.x as i128, l.z as i128),
                cell_of(resolution, l.y as i128, l.z as i128),
            ),
            face,
        }
    }

    /// The world direction of the sub-position `(num_x / den, num_y / den)`
    /// inside this cell, as an exact (unnormalised) integer vector: the
    /// face-local ray through the point, scaled by `resolution * den`.
    pub open spec fn spec_direction(self, res: int, num_x: int, num_y: int, den: int) -> Vec3 {
        let lx = 2 * (self.coords.0 * den + num_x) - res * den;
        let ly = 2 * (self.coords.1 * den + num_y) - res * den;
        let lz = res * den;
        self.face.spec_local_to_world(Vec3 { x: lx as i64, y: ly as i64, z: lz as i64 })
    }

    /// The world direction of the sub-position `(num_x / den, num_y / den)`
    /// inside this cell (unnormalised; only its ray matters).
    pub fn direction(&self, resolution: u32, num_x: u32, num_y: u32, den: u32) -> (r: Vec3)
        requires
            1 <= resolution <= MAX_RESOLUTION,
            self.valid(resolution as int),
            1 <= den <= MAX_RESOLUTION,
            num_x <= den,
            num_y <= den,
        ensures
            r == self.spec_direction(resolution as int, num_x as int, num_y as int, den as int),
            r.bounded(),
    {
        proof {
            assert({
                &&& 0 <= (self.coords.0 as int * den as int) < 0x1_0000_0000
                &&& 0 <= (self.coords.1 as int * den as int) < 0x1_0000_0000
                &&& 0 < (resolution as int * den as int) <= 0x1_0000_0000
            }) by (nonlinear_arith)
                requires
                    self.coords.0 < resolution,
                    self.coords.1 < resolution,
                    1 <= resolution <= 0x1_0000,
                    1 <= den <= 0x1_0000,
            ;
        }
        let lx = 2 * (self.coords.0 as i64 * den as i64 + num_x as i64)
            - resolution as i64 * den as i64;
        let ly = 2 * (self.coords.1 as i64 * den as i64 + num_y as i64)
            - resolution as i64 * den as i64;
        let lz = resolution as i64 * den as i64;
        self.face.local_to_world(Vec3 { x: lx, y: ly, z: lz })
    }

    /// The world direction through the midpoint of this cell.
    pub fn midpoint_direction(&self, resolution: u32) -> (r: Vec3)
        requires
            1 <= resolution <= MAX_RESOLUTION,
            self.valid(resolution as int),
        ensures
            r == self.spec_direction(resolution as int, 1, 1, 2),
            r.bounded(),
    {
        self.direction(resolution, 1, 1, 2)
    }

    /// Sample directions of a `chunk_resolution x chunk_resolution` grid over
    /// this cell, row-major with x varying fastest.
    pub fn samples(&self, face_resolution: u32, chunk_resolution: u32) -> (r: Vec<Vec3>)
        requires
            1 <= face_resolution <= MAX_RESOLUTION,
            self.valid(face_resolution as int),
            2 <= chunk_resolution <= MAX_RESOLUTION,
        ensures
            r@.len() == chunk_resolution * chunk_resolution,
            forall|yi: int, xi: int|
                0 <= yi < chunk_resolution && 0 <= xi < chunk_resolution
                    ==> r@[#[trigger] grid_index(chunk_resolution as int, yi, xi)]
                    == self.spec_direction(
                    face_resolution as int,
                    xi,
                    yi,
                    chunk_resolution - 1,
                ),
    {
        let mut result: Vec<Vec3> = Vec::new();
        let mut y: u32 = 0;
        while y < chunk_resolution
            invariant
                y <= chunk_resolution,
                1 <= face_resolution <= MAX_RESOLUTION,
                self.valid(face_resolution as int),
                2 <= chunk_resolution <= MAX_RESOLUTION,
                result@.len() == y * chunk_resolution,
                forall|yi: int, xi: int|
                    0 <= yi < y && 0 <= xi < chunk_resolution
                        ==> result@[#[trigger] grid_index(chunk_resolution as int, yi, xi)]
                        == self.spec_direction(
                        face_resolution as int,
                        xi,
                        yi,
                        chunk_resolution - 1,
                    ),
            decreases chunk_resolution - y,
        {
            let mut x: u32 = 0;
            while x < chunk_resolution
                invariant
                    y < chunk_resolution,
                    x <= chunk_resolution,
                    1 <= face_resolution <= MAX_RESOLUTION,
                    self.valid(face_resolution as int),
                    2 <= chunk_resolution <= MAX_RESOLUTION,
                    result@.len() == y * chunk_resolution + x,
                    forall|yi: int, xi: int|
                        0 <= yi < y && 0 <= xi < chunk_resolution
                            ==> result@[#[trigger] grid_index(chunk_resolution as int, yi, xi)]
                            == self.spec_direction(
                            face_resolution as int,
                            xi,
                            yi,
                            chunk_resolution - 1,
                        ),
                    forall|xi: int|
                        0 <= xi < x ==> result@[#[trigger] grid_index(
                            chunk_resolution as int,
                            y as int,
                            xi,
                        )] == self.spec_direction(
                            face_resolution as int,
                            xi,
                            y as int,
                            chunk_resolution - 1,
                        ),
                decreases chunk_resolution - x,
            {
                proof {
                    lemma_grid_index_bound(
                        y as int,
                        x as int,
                        chunk_resolution as int,
                        MAX_RESOLUTION as int,
                    );
                    lemma_grid_below_rows(chunk_resolution as int, y as int, x as int);
                    assert(grid_index(chunk_resolution as int, y as int, x as int) == result@.len());
                }
                result.push(self.direction(face_resolution, x, y, chunk_resolution - 1));
                x = x + 1;
            }
            y = y + 1;
            proof {
                assert(result@.len() == (y - 1) * chunk_resolution + chunk_resolution);
                assert((y - 1) * chunk_resolution + chunk_resolution == y * chunk_resolution)
                    by (nonlinear_arith);
            }
        }
        proof {
            assert(result@.len() == chunk_resolution * chunk_resolution) by (nonlinear_arith)
                requires
                    result@.len() == (chunk_resolution as int) * (chunk_resolution as int),
        ;
        }
        result
    }

    /// Sample directions together with their grid position, row-major with x
    /// varying fastest.
    pub fn samples_xy(&self, face_resolution: u32, chunk_resolution: u32) -> (r: Vec<
        (Vec3, (u32, u32)),
    >)
        requires
            1 <= face_resolution <= MAX_RESOLUTION,
            self.valid(face_resolution as int),
            2 <= chunk_resolution <= MAX_RESOLUTION,
        ensures
            r@.len() == chunk_resolution * chunk_resolution,
            forall|yi: int, xi: int|
                0 <= yi < chunk_resolution && 0 <= xi < chunk_resolution
                    ==> r@[#[trigger] grid_index(chunk_resolution as int, yi, xi)] == (
                self.spec_direction(face_resolution as int, xi, yi, chunk_resolution - 1),
                (xi as u32, yi as u32),
            ),
    {
        let samples = self.samples(face_resolution, chunk_resolution);
        let mut result: Vec<(Vec3, (u32, u32))> = Vec::new();
        let mut y: u32 = 0;
        while y < chunk_resolution
            invariant
                y <= chunk_resolution,
                2 <= chunk_resolution <= MAX_RESOLUTION,
                samples@.len() == chunk_resolution * chunk_resolution,
                result@.len() == y * chunk_resolution,
                forall|yi: int, xi: int|
                    0 <= yi < y && 0 <= xi < chunk_resolution
                        ==> result@[#[trigger] grid_index(chunk_resolution as int, yi, xi)] == (
                    samples@[grid_index(chunk_resolution as int, yi, xi)],
                    (xi as u32, yi as u32),
                ),
            decreases chunk_resolution - y,
        {
            let mut x: u32 = 0;
            while x < chunk_resolution
                invariant
                    y < chunk_resolution,
                    x <= chunk_resolution,
                    2 <= chunk_resolution <= MAX_RESOLUTION,
                    samples@.len() == chunk_resolution * chunk_resolution,
                    result@.len() == y * chunk_resolution + x,
                    forall|yi: int, xi: int|
                        0 <= yi < y && 0 <= xi < chunk_resolution
                            ==> result@[#[trigger] grid_index(chunk_resolution as int, yi, xi)]
                            == (samples@[grid_index(chunk_resolution as int, yi, xi)], (
                            xi as u32,
                            yi as u32,
                        )),
                    forall|xi: int|
                        0 <= xi < x ==> result@[#[trigger] grid_index(
                            chunk_resolution as int,
                            y as int,
                            xi,
                        )] == (samples@[grid_index(chunk_resolution as int, y as int, xi)], (
                            xi as u32,
                            y,
                        )),
                decreases chunk_resolution - x,
            {
                proof {
                    lemma_grid_index_bound(
                        y as int,
                        x as int,
                        chunk_resolution as int,
                        MAX_RESOLUTION as int,
                    );
                    lemma_grid_below_rows(chunk_resolution as int, y as int, x as int);
                    assert(grid_index(chunk_resolution as int, y as int, x as int) == result@.len());
                }
                let idx = y as usize * chunk_resolution as usize + x as usize;
                result.push((samples[idx], (x, y)));
                x = x + 1;
            }
            y = y + 1;
            proof {
                assert((y - 1) * chunk_resolution + chunk_resolution == y * chunk_resolution)
                    by (nonlinear_arith);
            }
        }
        result
    }
}

/// Row-major index of grid position `(xi, yi)` in an `n`-wide grid.
pub open spec fn grid_index(n: int, yi: int, xi: int) -> int {
    yi * n + xi
}

/// Every index of a row strictly below row `y` lies below position `x` of
/// row `y`.
proof fn lemma_grid_below_rows(n: int, y: int, x: int)
    requires
        n > 0,
        y >= 0,
        x >= 0,
    ensures
        forall|yi: int, xi: int|
            0 <= yi < y && 0 <= xi < n ==> 0 <= #[trigger] grid_index(n, yi, xi) < y * n + x,
{
    assert forall|yi: int, xi: int|
        0 <= yi < y && 0 <= xi < n implies 0 <= #[trigger] grid_index(n, yi, xi) < y * n
        + x by {
        assert(0 <= yi * n + xi < y * n + x) by (nonlinear_arith)
            requires
                0 <= yi < y,
                0 <= xi < n,
                x >= 0,
                n > 0,
        ;
    }
}

/// A row-major grid index stays inside the grid.
pub proof fn lemma_grid_index_bound(y: int, x: int, n: int, m: int)
    requires
        0 <= y < n,
        0 <= x < n,
        n <= m,
    ensures
        y * n + x < n * n <= m * m,
        y * n + x >= 0,
{
    assert(y * n + x < n * n && n * n <= m * m && y * n + x >= 0) by (nonlinear_arith)
        requires
            0 <= y < n,
            0 <= x < n,
            n <= m,
    ;
}

/// In the frame of the face selected for `v`, the outward component carries
/// the largest magnitude and is nonnegative.
pub proof fn lemma_dominant_local(v: Vec3)
    requires
        v.bounded(),
    ensures
        ({
            let l = Face::spec_from_vector(v).spec_world_to_local(v);
            &&& l.z >= abs_int(l.x as int)
            &&& l.z >= abs_int(l.y as int)
            &&& l.z >= 0
            &&& !v.is_zero() ==> l.z > 0
        }),
{
}

/// A vector strictly dominated by its local z component maps back to the face
/// that produced it.
pub proof fn lemma_face_of_local(f: Face, u: Vec3)
    requires
        u.bounded(),
        abs_int(u.x as int) < u.z,
        abs_int(u.y as int) < u.z,
    ensures
        Face::spec_from_vector(f.spec_local_to_world(u)) == f,
{
}

/// Round-trip addressing: the direction through the midpoint of a cell maps
/// back to exactly that cell, on every face and at every resolution.
pub proof fn lemma_address_round_trip(res: int, c: Coords)
    requires
        1 <= res <= MAX_RESOLUTION,
        c.valid(res),
    ensures
        Coords::spec_from_vector(res, c.spec_direction(res, 1, 1, 2)) == c,
{
    let x = c.coords.0 as int;
    let y = c.coords.1 as int;
    let u = Vec3 { x: (4 * x + 2 - 2 * res) as i64, y: (4 * y + 2 - 2 * res) as i64, z: (2
        * res) as i64 };
    let w = c.spec_direction(res, 1, 1, 2);
    assert(w == c.face.spec_local_to_world(u));
    lemma_face_of_local(c.face, u);
    crate::face::lemma_face_frames_inverse(c.face, u);
    assert(Face::spec_from_vector(w).spec_world_to_local(w) == u);
    lemma_cell_midpoint(res, x);
    lemma_cell_midpoint(res, y);
}

/// Discretising the midpoint coordinate of cell `x` recovers `x`.
proof fn lemma_cell_midpoint(res: int, x: int)
    requires
        1 <= res,
        0 <= x < res,
    ensures
        spec_cell(res, 4 * x + 2 - 2 * res, 2 * res) == x,
{
    let num = 4 * x + 2 - 2 * res;
    let den = 2 * res;
    assert(res * ((4 * x + 2 - 2 * res) + 2 * res) == x * (2 * (2 * res)) + 2 * res)
        by (nonlinear_arith);
    assert(0 <= 2 * res < 2 * den);
    lemma_fundamental_div_mod_converse(res * (num + den), 2 * den, x, 2 * res);
}

} // verus!
