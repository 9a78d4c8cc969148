//! Terrain collision: height sampling behind a bounded least-recently-used
//! store of per-cell height grids, exact chunk selection for point projection
//! and contact generation, and the stable triangle indexing that contact
//! caching relies on.
//!
//! Height grids are integer samples in the terrain's fixed amplitude range.
//! The geometric narrow phase itself (triangle projection, contact points)
//! belongs to the physics engine; this module decides exactly *which* cells
//! and triangles it must consider.

use vstd::prelude::*;
use crate::coords::{Coords, MAX_RESOLUTION};
use crate::face::Face;
use crate::neighborhood::{neighborhood_contains, face_rank};
use crate::vect::{Vec3, COMPONENT_BOUND};
use std::num::NonZeroUsize;

verus! {

/// Largest height sample magnitude: the fixed 16-bit amplitude range.
pub const MAX_HEIGHT: i64 = 32767;

/// Largest accepted body radius for collision bookkeeping.
pub const MAX_RADIUS: i64 = 0x100_0000_0000;

/// Fixed clearance added above the terrain radius for bounding volumes.
pub const ATMOSPHERE_MARGIN: i64 = 32000;

/// A height source: a grid of height samples for any cell of its face grid.
/// An implementation is a pure height field: the grid it returns is a fixed
/// function of the cell and resolution, named by `spec_height`, with values
/// in the fixed amplitude range.
pub trait Terrain: Sized {
    /// The face-grid resolution this terrain is keyed at.
    spec fn spec_face_resolution(&self) -> u32;

    /// The height this terrain assigns to grid position `(xi, yi)` of the
    /// cell at the given sampling resolution.
    spec fn spec_height(&self, coords: Coords, resolution: u32, yi: u32, xi: u32) -> i64;

    /// The face-grid resolution this terrain is keyed at.
    fn face_resolution(&self) -> (r: u32)
        ensures
            r == self.spec_face_resolution(),
            1 <= r <= MAX_RESOLUTION,
    ;

    /// A `resolution x resolution` height grid over the cell, row-major with
    /// x varying fastest: exactly this terrain's heights.
    fn samples(&self, coords: &Coords, resolution: u32) -> (r: Vec<i64>)
        requires
            coords.valid(self.spec_face_resolution() as int),
            1 <= self.spec_face_resolution() <= MAX_RESOLUTION,
            2 <= resolution < MAX_RESOLUTION,
        ensures
            r@.len() == resolution * resolution,
            forall|i: int| 0 <= i < r@.len() ==> -MAX_HEIGHT <= #[trigger] r@[i] <= MAX_HEIGHT,
            forall|yi: u32, xi: u32|
                yi < resolution && xi < resolution ==> r@[crate::coords::grid_index(
                    resolution as int,
                    yi as int,
                    xi as int,
                )] == self.spec_height(*coords, resolution, yi, xi),
    ;
}

/// The full height grid a terrain assigns to a cell, row-major with x varying
/// fastest: what `Terrain::samples` returns, as one sequence.
pub open spec fn terrain_grid<T: Terrain>(t: T, coords: Coords, resolution: u32) -> Seq<i64> {
    Seq::new(
        (resolution * resolution) as nat,
        |i: int|
            t.spec_height(
                coords,
                resolution,
                (i / (resolution as int)) as u32,
                (i % (resolution as int)) as u32,
            ),
    )
}

/// A grid that matches the terrain's heights pointwise is the terrain's grid.
pub proof fn lemma_samples_grid<T: Terrain>(t: T, coords: Coords, resolution: u32, s: Seq<i64>)
    requires
        2 <= resolution,
        s.len() == resolution * resolution,
        forall|yi: u32, xi: u32|
            yi < resolution && xi < resolution ==> s[crate::coords::grid_index(
                resolution as int,
                yi as int,
                xi as int,
            )] == t.spec_height(coords, resolution, yi, xi),
    ensures
        s == terrain_grid(t, coords, resolution),
{
    let res = resolution as int;
    assert forall|i: int| 0 <= i < s.len() implies s[i] == terrain_grid(t, coords, resolution)[i] by {
        vstd::arithmetic::div_mod::lemma_fundamental_div_mod(i, res);
        vstd::arithmetic::div_mod::lemma_mod_bound(i, res);
        let yi = i / res;
        let xi = i % res;
        assert(yi < res) by (nonlinear_arith)
            requires
                i < res * res,
                i == res * yi + xi,
                0 <= xi < res,
                res >= 2,
        ;
        assert(yi >= 0) by (nonlinear_arith)
            requires
                i >= 0,
                i == res * yi + xi,
                0 <= xi < res,
                res >= 2,
        ;
        assert(crate::coords::grid_index(res, yi, xi) == i) by (nonlinear_arith)
            requires
                i == res * yi + xi,
                crate::coords::grid_index(res, yi, xi) == yi * res + xi,
        ;
        assert(s[crate::coords::grid_index(res, (yi as u32) as int, (xi as u32) as int)]
            == t.spec_height(coords, resolution, yi as u32, xi as u32));
    }
    assert(s =~= terrain_grid(t, coords, resolution));
}

/// A terrain of height zero everywhere, at a fixed face resolution.
#[derive(Debug, Clone, Copy)]
pub struct FlatTerrain {
    pub face_resolution: u32,
}

impl Terrain for FlatTerrain {
    open spec fn spec_face_resolution(&self) -> u32 {
        4096
    }

    open spec fn spec_height(&self, coords: Coords, resolution: u32, yi: u32, xi: u32) -> i64 {
        0
    }

    fn face_resolution(&self) -> (r: u32) {
        4096
    }

    fn samples(&self, coords: &Coords, resolution: u32) -> (r: Vec<i64>) {
        proof {
            assert((resolution as int) * (resolution as int) <= 0xffff * 0xffff)
                by (nonlinear_arith)
                requires
                    resolution <= 0xffff,
            ;
        }
        let n = resolution as usize * resolution as usize;
        let mut out: Vec<i64> = Vec::new();
        let mut i: usize = 0;
        while i < n
            invariant
                i <= n,
                out@.len() == i,
                forall|j: int| 0 <= j < i ==> #[trigger] out@[j] == 0,
            decreases n - i,
        {
            out.push(0);
            i = i + 1;
        }
        proof {
            assert(n == resolution * resolution) by (nonlinear_arith)
                requires
                    n == (resolution as int) * (resolution as int),
            ;
            assert forall|yi: u32, xi: u32|
                yi < resolution && xi < resolution implies out@[crate::coords::grid_index(
                resolution as int,
                yi as int,
                xi as int,
            )] == self.spec_height(*coords, resolution, yi, xi) by {
                crate::coords::lemma_grid_index_bound(
                    yi as int,
                    xi as int,
                    resolution as int,
                    resolution as int,
                );
            }
        }
        out
    }
}

/// Largest value in a nonempty sequence of heights.
pub open spec fn seq_max(s: Seq<i64>) -> i64
    recommends
        s.len() >= 1,
    decreases s.len(),
{
    if s.len() <= 1 {
        s[0]
    } else {
        let m = seq_max(s.drop_last());
        if s.last() > m {
            s.last()
        } else {
            m
        }
    }
}

/// The largest value dominates every element and is one of them.
pub proof fn lemma_seq_max(s: Seq<i64>)
    requires
        s.len() >= 1,
    ensures
        forall|i: int| 0 <= i < s.len() ==> #[trigger] s[i] <= seq_max(s),
        exists|i: int| 0 <= i < s.len() && s[i] == seq_max(s),
    decreases s.len(),
{
    if s.len() == 1 {
        assert(s[0] == seq_max(s));
    } else {
        lemma_seq_max(s.drop_last());
        assert forall|i: int| 0 <= i < s.len() implies #[trigger] s[i] <= seq_max(s) by {
            if i < s.len() - 1 {
                assert(s.drop_last()[i] == s[i]);
            }
        }
        if s.last() > seq_max(s.drop_last()) {
            assert(s[s.len() - 1] == seq_max(s));
        } else {
            let i = choose|i: int|
                0 <= i < s.drop_last().len() && s.drop_last()[i] == seq_max(s.drop_last());
            assert(s.drop_last()[i] == s[i]);
            assert(s[i] == seq_max(s));
        }
    }
}


/// One cell's cached collision data: its height grid and the largest height
/// in it.
pub struct ChunkData {
    pub samples: Vec<i64>,
    pub max: i64,
}

impl ChunkData {
    /// Wraps a height grid, recording its largest sample.
    pub fn new(samples: Vec<i64>) -> (r: ChunkData)
        requires
            samples@.len() > 0,
        ensures
            r.samples@ == samples@,
            r.max == seq_max(samples@),
            forall|i: int| 0 <= i < samples@.len() ==> #[trigger] samples@[i] <= r.max,
            exists|i: int| 0 <= i < samples@.len() && samples@[i] == r.max,
    {
        proof {
            lemma_seq_max(samples@);
        }
        let mut max = samples[0];
        let mut i: usize = 1;
        while i < samples.len()
            invariant
                1 <= i <= samples@.len(),
                max == seq_max(samples@.subrange(0, i as int)),
            decreases samples@.len() - i,
        {
            proof {
                assert(samples@.subrange(0, i + 1).drop_last() =~= samples@.subrange(0, i as int));
                assert(samples@.subrange(0, i + 1).last() == samples@[i as int]);
            }
            if samples[i] > max {
                max = samples[i];
            }
            i = i + 1;
        }
        proof {
            assert(samples@.subrange(0, samples@.len() as int) =~= samples@);
        }
        ChunkData { samples, max }
    }
}

/// The external least-recently-used store holding height grids by cell key.
#[verifier::external_type_specification]
#[verifier::external_body]
#[verifier::reject_recursive_types(K)]
#[verifier::reject_recursive_types(V)]
#[verifier::reject_recursive_types(S)]
pub struct ExLruCache<K, V, S>(lru::LruCache<K, V, S>);

/// The hash builder the store uses by default.
#[verifier::external_type_specification]
#[verifier::external_body]
pub struct ExLruDefaultHasher(lru::DefaultHasher);

/// The entries the store holds, most recently used first, as key and grid
/// pairs.
pub uninterp spec fn lru_entries(c: lru::LruCache<u64, Vec<i64>>) -> Seq<(u64, Seq<i64>)>;

/// The bound the store was created with.
pub uninterp spec fn lru_cap(c: lru::LruCache<u64, Vec<i64>>) -> int;

/// Index of the first entry with key `k`, or `-1`.
pub open spec fn find_key(es: Seq<(u64, Seq<i64>)>, k: u64) -> int
    decreases es.len(),
{
    if es.len() == 0 {
        -1
    } else if es[0].0 == k {
        0
    } else {
        let r = find_key(es.drop_first(), k);
        if r < 0 {
            -1
        } else {
            r + 1
        }
    }
}

/// The store holds an entry with key `k`.
pub open spec fn has_key(es: Seq<(u64, Seq<i64>)>, k: u64) -> bool {
    find_key(es, k) >= 0
}

/// Entry `i` moved to the front, the rest kept in order.
pub open spec fn promote(es: Seq<(u64, Seq<i64>)>, i: int) -> Seq<(u64, Seq<i64>)> {
    seq![es[i]] + es.subrange(0, i) + es.subrange(i + 1, es.len() as int)
}

/// Recency order after looking key `k` up: its entry moves to the front; a
/// missing key changes nothing.
pub open spec fn model_get(es: Seq<(u64, Seq<i64>)>, k: u64) -> Seq<(u64, Seq<i64>)> {
    let i = find_key(es, k);
    if i >= 0 {
        promote(es, i)
    } else {
        es
    }
}

/// Recency order after storing `(k, v)`: a present key is updated and moved
/// to the front; a fresh key enters at the front, evicting the least recently
/// used entry when the store is full.
pub open spec fn model_put(es: Seq<(u64, Seq<i64>)>, cap: int, k: u64, v: Seq<i64>) -> Seq<
    (u64, Seq<i64>),
> {
    let i = find_key(es, k);
    if i >= 0 {
        seq![(k, v)] + es.subrange(0, i) + es.subrange(i + 1, es.len() as int)
    } else if es.len() >= cap {
        seq![(k, v)] + es.subrange(0, es.len() - 1)
    } else {
        seq![(k, v)] + es
    }
}

/// Relies on lru::LruCache::new: an empty store with the given bound.
#[verifier::external_body]
fn lru_new(cap: usize) -> (r: lru::LruCache<u64, Vec<i64>>)
    requires
        cap >= 1,
    ensures
        lru_cap(r) == cap,
        lru_entries(r) == Seq::<(u64, Seq<i64>)>::empty(),
{
    lru::LruCache::new(NonZeroUsize::new(cap).unwrap())
}

/// Relies on lru::LruCache::get: returns the value stored under the key and
/// marks it most recently used.
#[verifier::external_body]
fn lru_get(c: &mut lru::LruCache<u64, Vec<i64>>, k: u64) -> (r: Option<Vec<i64>>)
    ensures
        lru_cap(*final(c)) == lru_cap(*old(c)),
        lru_entries(*final(c)) == model_get(lru_entries(*old(c)), k),
        match r {
            Some(v) => has_key(lru_entries(*old(c)), k) && v@ == lru_entries(*old(c))[find_key(
                lru_entries(*old(c)),
                k,
            )].1,
            None => !has_key(lru_entries(*old(c)), k),
        },
{
    c.get(&k).cloned()
}

/// Relies on lru::LruCache::put: stores the value under the key at the front
/// of the recency order, evicting the least recently used entry when full.
#[verifier::external_body]
fn lru_put(c: &mut lru::LruCache<u64, Vec<i64>>, k: u64, v: Vec<i64>)
    ensures
        lru_cap(*final(c)) == lru_cap(*old(c)),
        lru_entries(*final(c)) == model_put(
            lru_entries(*old(c)),
            lru_cap(*old(c)),
            k,
            v@,
        ),
{
    let _ = c.put(k, v);
}

/// Relies on lru::LruCache::contains: whether the key is held, without
/// touching the recency order.
#[verifier::external_body]
fn lru_contains(c: &lru::LruCache<u64, Vec<i64>>, k: u64) -> (r: bool)
    ensures
        r == has_key(lru_entries(*c), k),
{
    c.contains(&k)
}

/// Relies on lru::LruCache::len: the number of entries held.
#[verifier::external_body]
fn lru_len(c: &lru::LruCache<u64, Vec<i64>>) -> (r: usize)
    ensures
        r == lru_entries(*c).len(),
{
    c.len()
}

/// Injective integer key of a face cell at a fixed resolution.
pub open spec fn spec_coords_key(c: Coords) -> int {
    face_rank(c.face) + 8 * (c.coords.0 + 0x1_0000 * c.coords.1)
}

/// Exact integer key of a face cell.
pub fn coords_key(c: &Coords) -> (r: u64)
    requires
        c.coords.0 < MAX_RESOLUTION,
        c.coords.1 < MAX_RESOLUTION,
    ensures
        r == spec_coords_key(*c),
{
    let fr: u64 = match c.face {
        Face::PX => 0,
        Face::NX => 1,
        Face::PY => 2,
        Face::NY => 3,
        Face::PZ => 4,
        Face::NZ => 5,
    };
    fr + 8 * (c.coords.0 as u64 + 0x1_0000 * c.coords.1 as u64)
}

/// Distinct cells within the resolution bound have distinct keys.
pub proof fn lemma_coords_key_injective(c1: Coords, c2: Coords)
    requires
        c1.coords.0 < MAX_RESOLUTION,
        c1.coords.1 < MAX_RESOLUTION,
        c2.coords.0 < MAX_RESOLUTION,
        c2.coords.1 < MAX_RESOLUTION,
        spec_coords_key(c1) == spec_coords_key(c2),
    ensures
        c1 == c2,
{
}

/// The body at `d` (with reach `reach = radius + query bounding radius +
/// largest height`) cannot touch the cell: it is strictly farther away than
/// the reach.
pub open spec fn spec_culled(reach: int, d: Vec3) -> bool {
    reach < 0 || reach * reach < d.spec_norm2()
}

/// Exact decision whether a cell is beyond reach.
pub fn is_culled(reach: i64, d: Vec3) -> (r: bool)
    requires
        d.bounded(),
        -0x4000_0000_0000_0000 <= reach <= 0x4000_0000_0000_0000,
    ensures
        r == spec_culled(reach as int, d),
{
    if reach < 0 {
        return true;
    }
    proof {
        crate::vect::lemma_mul_bound(reach as int, reach as int, 0x4000_0000_0000_0000);
    }
    let r2: i128 = (reach as i128) * (reach as i128);
    r2 < d.norm2()
}

/// Number of triangles over a `grid`-wide sample grid: two per quad.
pub open spec fn spec_triangle_count(grid: int) -> int {
    2 * ((grid - 1) * (grid - 1))
}

/// Number of triangles over a `grid`-wide sample grid.
pub fn triangle_count(grid: u32) -> (r: u32)
    requires
        2 <= grid <= 0x8000,
    ensures
        r == spec_triangle_count(grid as int),
{
    proof {
        assert(2 * (((grid - 1) as int) * ((grid - 1) as int)) <= 2 * (0x7fff * 0x7fff))
            by (nonlinear_arith)
            requires
                1 <= ((grid - 1) as int) <= 0x7fff,
        ;
    }
    2 * ((grid - 1) * (grid - 1))
}

/// Grid positions of the three corners of triangle `index`: triangles pair up
/// over the quads of the grid, row-major, each quad split along its rising
/// diagonal. The numbering is a pure function of the index, so a contact
/// algorithm keyed by `(cell, index)` stays attached to the same triangle
/// from frame to frame.
pub open spec fn spec_triangle_vertices(grid: int, index: int) -> (
    (int, int),
    (int, int),
    (int, int),
) {
    let quad = index / 2;
    let qx = quad % (grid - 1);
    let qy = quad / (grid - 1);
    if index % 2 == 0 {
        ((qx, qy), (qx + 1, qy), (qx, qy + 1))
    } else {
        ((qx + 1, qy), (qx + 1, qy + 1), (qx, qy + 1))
    }
}

/// Grid positions of the three corners of triangle `index`.
pub fn triangle_vertices(grid: u32, index: u32) -> (r: ((u32, u32), (u32, u32), (u32, u32)))
    requires
        2 <= grid <= 0x8000,
        index < spec_triangle_count(grid as int),
    ensures
        ({
            let v = spec_triangle_vertices(grid as int, index as int);
            &&& (r.0.0 as int, r.0.1 as int) == v.0
            &&& (r.1.0 as int, r.1.1 as int) == v.1
            &&& (r.2.0 as int, r.2.1 as int) == v.2
        }),
        r.0.0 < grid && r.0.1 < grid && r.1.0 < grid && r.1.1 < grid && r.2.0 < grid && r.2.1
            < grid,
{
    let quad = index / 2;
    let g1 = grid - 1;
    proof {
        assert(quad as int == index as int / 2);
        vstd::arithmetic::div_mod::lemma_fundamental_div_mod(quad as int, g1 as int);
        vstd::arithmetic::div_mod::lemma_mod_bound(quad as int, g1 as int);
        assert(quad < (g1 as int) * (g1 as int)) by (nonlinear_arith)
            requires
                index < 2 * ((g1 as int) * (g1 as int)),
                quad as int == index as int / 2,
                index >= 0,
        ;
        assert((quad as int / g1 as int) < g1 as int) by (nonlinear_arith)
            requires
                quad < (g1 as int) * (g1 as int),
                quad as int == (g1 as int) * (quad as int / g1 as int) + (quad as int % g1 as int),
                0 <= (quad as int % g1 as int) < g1 as int,
                g1 >= 1,
        ;
    }
    let qx = quad % g1;
    let qy = quad / g1;
    if index % 2 == 0 {
        ((qx, qy), (qx + 1, qy), (qx, qy + 1))
    } else {
        ((qx + 1, qy), (qx + 1, qy + 1), (qx, qy + 1))
    }
}

/// How a contact dispatcher must route a shape pair: which side is the
/// terrain, or neither.
#[derive(Debug, Clone, Copy, PartialEq, Eq, Structural)]
pub enum ContactRoute {
    /// The first shape is the terrain; generate contacts unflipped.
    FirstIsPlanet,
    /// The second shape is the terrain; generate contacts flipped.
    SecondIsPlanet,
    /// Neither shape is the terrain; delegate to the wrapped dispatcher.
    Delegate,
}

/// A contact dispatcher that recognises the terrain shape and hands every
/// other pair to the dispatcher it wraps.
pub struct PlanetDispatcher<T> {
    pub inner: T,
}

impl<T> PlanetDispatcher<T> {
    /// Wraps an inner dispatcher.
    pub fn new(inner: T) -> (r: PlanetDispatcher<T>)
        ensures
            r.inner == inner,
    {
        PlanetDispatcher { inner }
    }

    /// Decides the routing of a shape pair: the first terrain side wins, a
    /// terrain second shape flips the pair, anything else is delegated.
    pub fn route(&self, first_is_planet: bool, second_is_planet: bool) -> (r: ContactRoute)
        ensures
            r == (if first_is_planet {
                ContactRoute::FirstIsPlanet
            } else if second_is_planet {
                ContactRoute::SecondIsPlanet
            } else {
                ContactRoute::Delegate
            }),
    {
        if first_is_planet {
            ContactRoute::FirstIsPlanet
        } else if second_is_planet {
            ContactRoute::SecondIsPlanet
        } else {
            ContactRoute::Delegate
        }
    }
}

/// All keys in the store are distinct.
pub open spec fn distinct_keys(es: Seq<(u64, Seq<i64>)>) -> bool {
    forall|i: int, j: int|
        0 <= i < es.len() && 0 <= j < es.len() && i != j ==> (#[trigger] es[i]).0 != (
        #[trigger] es[j]).0
}

/// `has_key` holds exactly when some entry carries the key.
pub proof fn lemma_has_key_iff(es: Seq<(u64, Seq<i64>)>, k: u64)
    ensures
        has_key(es, k) <==> exists|j: int| 0 <= j < es.len() && (#[trigger] es[j]).0 == k,
        has_key(es, k) ==> 0 <= find_key(es, k) < es.len() && es[find_key(es, k)].0 == k,
    decreases es.len(),
{
    if es.len() > 0 {
        lemma_has_key_iff(es.drop_first(), k);
        if es[0].0 != k {
            if has_key(es, k) {
                let i = find_key(es.drop_first(), k);
                assert(es[i + 1] == es.drop_first()[i]);
            }
            if exists|j: int| 0 <= j < es.len() && (#[trigger] es[j]).0 == k {
                let j = choose|j: int| 0 <= j < es.len() && (#[trigger] es[j]).0 == k;
                assert(es.drop_first()[j - 1] == es[j]);
            }
        }
    }
}

/// Elementwise description of a promoted sequence.
pub proof fn lemma_promote_index(es: Seq<(u64, Seq<i64>)>, i: int)
    requires
        0 <= i < es.len(),
    ensures
        promote(es, i).len() == es.len(),
        forall|j: int|
            0 <= j < es.len() ==> #[trigger] promote(es, i)[j] == (if j == 0 {
                es[i]
            } else if j <= i {
                es[j - 1]
            } else {
                es[j]
            }),
{
}

/// Elementwise description of the store after `model_put`.
pub proof fn lemma_model_put_index(es: Seq<(u64, Seq<i64>)>, cap: int, k: u64, v: Seq<i64>)
    requires
        cap >= 1,
        es.len() <= cap,
    ensures
        ({
            let es2 = model_put(es, cap, k, v);
            let i = find_key(es, k);
            &&& es2.len() == (if i >= 0 {
                es.len() as int
            } else if es.len() >= cap {
                cap as int
            } else {
                es.len() as int + 1
            })
            &&& es2[0] == (k, v)
            &&& forall|j: int|
                1 <= j < es2.len() ==> #[trigger] es2[j] == (if i >= 0 && j > i {
                    es[j]
                } else {
                    es[j - 1]
                })
        }),
{
    lemma_has_key_iff(es, k);
}

/// Looking a key up moves its entry to the front and keeps every other entry.
pub proof fn lemma_model_get_index(es: Seq<(u64, Seq<i64>)>, k: u64)
    ensures
        ({
            let es2 = model_get(es, k);
            &&& es2.len() == es.len()
            &&& forall|j: int|
                0 <= j < es2.len() ==> exists|m: int|
                    0 <= m < es.len() && #[trigger] es2[j] == es[m]
        }),
{
    let i = find_key(es, k);
    lemma_has_key_iff(es, k);
    if i >= 0 {
        lemma_promote_index(es, i);
        assert forall|j: int|
            0 <= j < promote(es, i).len() implies exists|m: int|
            0 <= m < es.len() && #[trigger] promote(es, i)[j] == es[m] by {
            if j == 0 {
                assert(promote(es, i)[j] == es[i]);
            } else if j <= i {
                assert(promote(es, i)[j] == es[j - 1]);
            } else {
                assert(promote(es, i)[j] == es[j]);
            }
        }
    } else {
        assert forall|j: int|
            0 <= j < es.len() implies exists|m: int|
            0 <= m < es.len() && #[trigger] es[j] == es[m] by {
            assert(es[j] == es[j]);
        }
    }
}

/// Least-recently-used eviction: storing a fresh key in a full store puts it
/// at the front, shifts every other entry back by one, and drops exactly the
/// least recently used entry; under distinct keys, the dropped key is gone.
pub proof fn lemma_lru_eviction(es: Seq<(u64, Seq<i64>)>, cap: int, k: u64, v: Seq<i64>)
    requires
        cap >= 1,
        es.len() == cap,
        !has_key(es, k),
    ensures
        ({
            let es2 = model_put(es, cap, k, v);
            &&& es2.len() == cap
            &&& es2[0] == (k, v)
            &&& forall|j: int| 1 <= j < cap ==> #[trigger] es2[j] == es[j - 1]
            &&& distinct_keys(es) ==> !has_key(es2, es[cap - 1].0)
        }),
{
    lemma_has_key_iff(es, k);
    lemma_model_put_index(es, cap, k, v);
    let es2 = model_put(es, cap, k, v);
    if distinct_keys(es) {
        let dropped = es[cap - 1].0;
        lemma_has_key_iff(es2, dropped);
        if has_key(es2, dropped) {
            let j = choose|j: int| 0 <= j < es2.len() && (#[trigger] es2[j]).0 == dropped;
            if j == 0 {
                assert(es2[0].0 == k);
                assert(exists|m: int| 0 <= m < es.len() && (#[trigger] es[m]).0 == k) by {
                    assert(es[cap - 1].0 == dropped);
                }
            } else {
                assert(es2[j] == es[j - 1]);
                assert(es[j - 1].0 == es[cap - 1].0);
            }
        }
    }
}

/// Recency protection: an entry looked up before a fresh key forces an
/// eviction survives that eviction (the store holding at least two entries).
pub proof fn lemma_lru_reaccess_survives(
    es: Seq<(u64, Seq<i64>)>,
    cap: int,
    k: u64,
    k2: u64,
    v2: Seq<i64>,
)
    requires
        cap >= 2,
        es.len() == cap,
        distinct_keys(es),
        has_key(es, k),
        !has_key(es, k2),
    ensures
        has_key(model_put(model_get(es, k), cap, k2, v2), k),
{
    let i = find_key(es, k);
    lemma_has_key_iff(es, k);
    lemma_promote_index(es, i);
    let g = model_get(es, k);
    assert(g == promote(es, i));
    assert(g[0] == es[i]);
    assert(g[0].0 == k);
    lemma_has_key_iff(g, k2);
    if has_key(g, k2) {
        let j = choose|j: int| 0 <= j < g.len() && (#[trigger] g[j]).0 == k2;
        lemma_has_key_iff(es, k2);
        if j == 0 {
            assert(es[i].0 == k2);
        } else if j <= i {
            assert(g[j] == es[j - 1]);
        } else {
            assert(g[j] == es[j]);
        }
    }
    lemma_model_put_index(g, cap, k2, v2);
    let es2 = model_put(g, cap, k2, v2);
    assert(es2[1] == g[0]);
    lemma_has_key_iff(es2, k);
}

/// Terrain collision state: the height source, the per-cell sampling
/// resolution, the body radius, and a bounded least-recently-used store of
/// sampled height grids.
pub struct PlanetCollision<T: Terrain> {
    pub terrain: T,
    pub resolution: u32,
    pub radius: i64,
    pub cache: lru::LruCache<u64, Vec<i64>>,
}

impl<T: Terrain> PlanetCollision<T> {
    /// Structural invariant: parameters in range and every cached grid shaped
    /// and bounded like a fresh sample grid.
    pub open spec fn wf(self) -> bool {
        &&& 2 <= self.resolution < MAX_RESOLUTION
        &&& 0 <= self.radius <= MAX_RADIUS
        &&& 1 <= self.terrain.spec_face_resolution() <= MAX_RESOLUTION
        &&& lru_cap(self.cache) >= 1
        &&& lru_entries(self.cache).len() <= lru_cap(self.cache)
        &&& forall|j: int|
            0 <= j < lru_entries(self.cache).len() ==> self.entry_ok(
                #[trigger] lru_entries(self.cache)[j],
            )
    }

    /// A cached entry has the shape and range of a sample grid, and holds
    /// exactly the terrain's grid for the cell its key names.
    pub open spec fn entry_ok(self, e: (u64, Seq<i64>)) -> bool {
        &&& e.1.len() == self.resolution * self.resolution
        &&& forall|i: int| 0 <= i < e.1.len() ==> -MAX_HEIGHT <= #[trigger] e.1[i] <= MAX_HEIGHT
        &&& exists|c: Coords|
            {
                &&& c.valid(self.terrain.spec_face_resolution() as int)
                &&& e.0 == spec_coords_key(c) as u64
                &&& e.1 == terrain_grid(self.terrain, c, self.resolution)
            }
    }

    /// A collision shape over `terrain` with an empty store of `cache_size`
    /// height grids.
    pub fn new(terrain: T, resolution: u32, radius: i64, cache_size: usize) -> (r:
        PlanetCollision<T>)
        requires
            2 <= resolution < MAX_RESOLUTION,
            0 <= radius <= MAX_RADIUS,
            cache_size >= 1,
        ensures
            r.wf(),
            r.terrain == terrain,
            r.resolution == resolution,
            r.radius == radius,
            lru_cap(r.cache) == cache_size,
            lru_entries(r.cache).len() == 0,
    {
        let _ = terrain.face_resolution();
        let cache = lru_new(cache_size);
        PlanetCollision { terrain, resolution, radius, cache }
    }

    /// Radius of the bounding sphere reported to the broad phase: the body
    /// radius plus the fixed clearance.
    pub fn bounding_radius(&self) -> (r: i64)
        requires
            self.wf(),
        ensures
            r == self.radius + ATMOSPHERE_MARGIN,
    {
        self.radius + ATMOSPHERE_MARGIN
    }

    /// The height grid of one cell, from the store if resident (marking it
    /// most recently used), else sampled from the terrain and stored. The
    /// grid returned is the one at the front of the store afterwards.
    pub fn chunk_data(&mut self, coords: &Coords) -> (r: ChunkData)
        requires
            old(self).wf(),
            coords.valid(old(self).terrain.spec_face_resolution() as int),
        ensures
            final(self).wf(),
            final(self).terrain == old(self).terrain,
            final(self).resolution == old(self).resolution,
            final(self).radius == old(self).radius,
            lru_cap(final(self).cache) == lru_cap(old(self).cache),
            r.samples@ == terrain_grid(old(self).terrain, *coords, old(self).resolution),
            r.samples@.len() == old(self).resolution * old(self).resolution,
            forall|i: int|
                0 <= i < r.samples@.len() ==> -MAX_HEIGHT <= #[trigger] r.samples@[i]
                    <= MAX_HEIGHT,
            r.max == seq_max(r.samples@),
            forall|i: int| 0 <= i < r.samples@.len() ==> #[trigger] r.samples@[i] <= r.max,
            -MAX_HEIGHT <= r.max <= MAX_HEIGHT,
            lru_entries(final(self).cache).len() >= 1,
            lru_entries(final(self).cache)[0] == (
                spec_coords_key(*coords) as u64,
                r.samples@,
            ),
            lru_entries(final(self).cache) == (if has_key(
                lru_entries(old(self).cache),
                spec_coords_key(*coords) as u64,
            ) {
                model_get(lru_entries(old(self).cache), spec_coords_key(*coords) as u64)
            } else {
                model_put(
                    lru_entries(old(self).cache),
                    lru_cap(old(self).cache),
                    spec_coords_key(*coords) as u64,
                    r.samples@,
                )
            }),
    {
        let key = coords_key(coords);
        let ghost es0 = lru_entries(old(self).cache);
        let got = lru_get(&mut self.cache, key);
        match got {
            Some(v) => {
                proof {
                    let rr = old(self).resolution as int;
                    assert(rr * rr >= 4) by (nonlinear_arith)
                        requires
                            rr >= 2,
                    ;
                    lemma_has_key_iff(es0, key);
                    lemma_model_get_index(es0, key);
                    lemma_promote_index(es0, find_key(es0, key));
                    assert(lru_entries(self.cache)[0] == es0[find_key(es0, key)]);
                    assert(old(self).entry_ok(es0[find_key(es0, key)]));
                    let e = es0[find_key(es0, key)];
                    let cw = choose|c: Coords|
                        {
                            &&& c.valid(old(self).terrain.spec_face_resolution() as int)
                            &&& e.0 == spec_coords_key(c) as u64
                            &&& e.1 == terrain_grid(
                                old(self).terrain,
                                c,
                                old(self).resolution,
                            )
                        };
                    lemma_coords_key_injective(cw, *coords);
                    assert(v@ == terrain_grid(old(self).terrain, *coords, old(self).resolution));
                    assert forall|j: int|
                        0 <= j < lru_entries(self.cache).len() implies self.entry_ok(
                        #[trigger] lru_entries(self.cache)[j],
                    ) by {
                        let es2 = lru_entries(self.cache);
                        let m = choose|m: int| 0 <= m < es0.len() && es2[j] == es0[m];
                        assert(old(self).entry_ok(es0[m]));
                    }
                }
                ChunkData::new(v)
            },
            None => {
                let samples = self.terrain.samples(coords, self.resolution);
                proof {
                    let ghost rr = old(self).resolution as int;
                    assert(rr * rr >= 4) by (nonlinear_arith)
                        requires
                            rr >= 2,
                    ;
                    lemma_samples_grid(
                        old(self).terrain,
                        *coords,
                        old(self).resolution,
                        samples@,
                    );
                }
                lru_put(&mut self.cache, key, samples);
                let got2 = lru_get(&mut self.cache, key);
                match got2 {
                    Some(v) => {
                        proof {
                            let ghost es1 = model_put(
                                es0,
                                lru_cap(old(self).cache),
                                key,
                                samples@,
                            );
                            lemma_model_put_index(es0, lru_cap(old(self).cache), key, samples@);
                            assert(es1[0] == (key, samples@));
                            assert(find_key(es1, key) == 0);
                            assert(v@ == samples@);
                            assert(model_get(es1, key) =~= es1) by {
                                lemma_promote_index(es1, 0);
                                assert forall|j: int|
                                    0 <= j < es1.len() implies promote(es1, 0)[j] == es1[j] by {}
                            }
                            assert(lru_entries(self.cache) == es1);
                            assert(0 <= spec_coords_key(*coords) < 0x1_0000_0000_0000);
                            assert(key == spec_coords_key(*coords) as u64);
                            assert(self.entry_ok((key, samples@))) by {
                                assert((*coords).valid(
                                    self.terrain.spec_face_resolution() as int,
                                ) && key == spec_coords_key(*coords) as u64 && samples@
                                    == terrain_grid(self.terrain, *coords, self.resolution));
                            }
                            assert forall|j: int|
                                0 <= j < lru_entries(self.cache).len() implies self.entry_ok(
                                #[trigger] lru_entries(self.cache)[j],
                            ) by {
                                if j >= 1 {
                                    let i = find_key(es0, key);
                                    if i >= 0 && j > i {
                                        assert(old(self).entry_ok(es0[j]));
                                    } else {
                                        assert(old(self).entry_ok(es0[j - 1]));
                                    }
                                } else {
                                    assert(lru_entries(self.cache)[j] == (key, samples@));
                                }
                            }
                        }
                        ChunkData::new(v)
                    },
                    None => {
                        proof {
                            lemma_model_put_index(es0, lru_cap(old(self).cache), key, samples@);
                            let es1 = model_put(es0, lru_cap(old(self).cache), key, samples@);
                            lemma_has_key_iff(es1, key);
                            assert(false);
                        }
                        vstd::pervasive::unreached()
                    },
                }
            },
        }
    }

    /// Whether the cell's height grid is currently held, without touching
    /// the recency order.
    pub fn is_cached(&self, coords: &Coords) -> (r: bool)
        requires
            self.wf(),
            coords.valid(self.terrain.spec_face_resolution() as int),
        ensures
            r == has_key(lru_entries(self.cache), spec_coords_key(*coords) as u64),
    {
        let key = coords_key(coords);
        lru_contains(&self.cache, key)
    }

    /// Number of height grids currently held.
    pub fn cached_len(&self) -> (r: usize)
        requires
            self.wf(),
        ensures
            r == lru_entries(self.cache).len(),
    {
        lru_len(&self.cache)
    }

    /// The cell a point projects to, with its height grid: the chunk the
    /// narrow phase must search for the closest triangle.
    pub fn project_point_chunk(&mut self, p: Vec3) -> (r: (Coords, ChunkData))
        requires
            old(self).wf(),
            p.bounded(),
            !p.is_zero(),
        ensures
            final(self).wf(),
            final(self).terrain == old(self).terrain,
            final(self).resolution == old(self).resolution,
            final(self).radius == old(self).radius,
            lru_cap(final(self).cache) == lru_cap(old(self).cache),
            r.0 == Coords::spec_from_vector(old(self).terrain.spec_face_resolution() as int, p),
            r.1.samples@ == terrain_grid(old(self).terrain, r.0, old(self).resolution),
            r.1.samples@.len() == old(self).resolution * old(self).resolution,
            r.1.max == seq_max(r.1.samples@),
            -MAX_HEIGHT <= r.1.max <= MAX_HEIGHT,
            lru_entries(final(self).cache).len() >= 1,
            lru_entries(final(self).cache)[0] == (spec_coords_key(r.0) as u64, r.1.samples@),
            lru_entries(final(self).cache) == (if has_key(
                lru_entries(old(self).cache),
                spec_coords_key(r.0) as u64,
            ) {
                model_get(lru_entries(old(self).cache), spec_coords_key(r.0) as u64)
            } else {
                model_put(
                    lru_entries(old(self).cache),
                    lru_cap(old(self).cache),
                    spec_coords_key(r.0) as u64,
                    r.1.samples@,
                )
            }),
    {
        let res = self.terrain.face_resolution();
        let coords = Coords::from_vector(res, &p);
        let data = self.chunk_data(&coords);
        (coords, data)
    }

    /// Every cell within the angular cap around `dir` whose terrain can reach
    /// the queried body, each exactly once: a cell of the cap is returned if
    /// and only if it is not strictly beyond `radius + its grid's largest
    /// height + query_radius` from the origin.
    #[verifier::loop_isolation(false)]
    pub fn contact_chunks(
        &mut self,
        dir: Vec3,
        tan_num: i64,
        tan_den: i64,
        query_radius: i64,
    ) -> (r: Vec<(Coords, ChunkData)>)
        requires
            old(self).wf(),
            dir.bounded(),
            0 <= tan_num <= COMPONENT_BOUND,
            1 <= tan_den <= COMPONENT_BOUND,
            0 <= query_radius <= MAX_RADIUS,
        ensures
            final(self).wf(),
            final(self).terrain == old(self).terrain,
            final(self).resolution == old(self).resolution,
            final(self).radius == old(self).radius,
            lru_cap(final(self).cache) == lru_cap(old(self).cache),
            forall|j: int|
                0 <= j < r@.len() ==> {
                    let e = #[trigger] r@[j];
                    &&& neighborhood_contains(
                        old(self).terrain.spec_face_resolution() as int,
                        dir,
                        tan_num as int,
                        tan_den as int,
                        e.0,
                    )
                    &&& !spec_culled(old(self).radius + e.1.max + query_radius, dir)
                    &&& e.1.samples@ == terrain_grid(
                        old(self).terrain,
                        e.0,
                        old(self).resolution,
                    )
                    &&& e.1.max == seq_max(e.1.samples@)
                    &&& e.1.samples@.len() == old(self).resolution * old(self).resolution
                },
            forall|c: Coords| #[trigger]
                neighborhood_contains(
                    old(self).terrain.spec_face_resolution() as int,
                    dir,
                    tan_num as int,
                    tan_den as int,
                    c,
                ) ==> ((exists|j: int| 0 <= j < r@.len() && (#[trigger] r@[j]).0 == c)
                    <==> !spec_culled(
                    old(self).radius + seq_max(
                        terrain_grid(old(self).terrain, c, old(self).resolution),
                    ) + query_radius,
                    dir,
                )),
            forall|j1: int, j2: int| 0 <= j1 < j2 < r@.len() ==> r@[j1].0 != r@[j2].0,
    {
        let res = self.terrain.face_resolution();
        let cells = Coords::neighborhood(res, dir, tan_num, tan_den);
        let mut out: Vec<(Coords, ChunkData)> = Vec::new();
        let mut i: usize = 0;
        while i < cells.len()
            invariant
                i <= cells@.len(),
                self.wf(),
                self.terrain == old(self).terrain,
                self.resolution == old(self).resolution,
                self.radius == old(self).radius,
                lru_cap(self.cache) == lru_cap(old(self).cache),
                dir.bounded(),
                res == old(self).terrain.spec_face_resolution(),
                forall|c: Coords| #[trigger]
                    cells@.contains(c) ==> c.valid(res as int),
                forall|j: int|
                    0 <= j < out@.len() ==> {
                        let e = #[trigger] out@[j];
                        &&& neighborhood_contains(
                            res as int,
                            dir,
                            tan_num as int,
                            tan_den as int,
                            e.0,
                        )
                        &&& !spec_culled(old(self).radius + e.1.max + query_radius, dir)
                        &&& e.1.samples@.len() == old(self).resolution * old(self).resolution
                    },
                forall|c: Coords| #[trigger]
                    cells@.contains(c) == neighborhood_contains(
                        res as int,
                        dir,
                        tan_num as int,
                        tan_den as int,
                        c,
                    ),
                crate::neighborhood::no_duplicates(cells@),
                forall|m: int|
                    0 <= m < i ==> ((exists|j: int|
                        0 <= j < out@.len() && (#[trigger] out@[j]).0 == cells@[m]) <==> !spec_culled(
                        old(self).radius + seq_max(
                            terrain_grid(old(self).terrain, #[trigger] cells@[m], old(self).resolution),
                        ) + query_radius,
                        dir,
                    )),
                forall|j: int|
                    0 <= j < out@.len() ==> exists|m: int|
                        0 <= m < i && (#[trigger] out@[j]).0 == cells@[m],
                forall|j1: int, j2: int| 0 <= j1 < j2 < out@.len() ==> out@[j1].0 != out@[j2].0,
                forall|j: int|
                    0 <= j < out@.len() ==> (#[trigger] out@[j]).1.samples@ == terrain_grid(
                        old(self).terrain,
                        out@[j].0,
                        old(self).resolution,
                    ) && out@[j].1.max == seq_max(out@[j].1.samples@),
            decreases cells@.len() - i,
        {
            let cell = cells[i];
            proof {
                assert(cells@.contains(cells@[i as int]));
            }
            let data = self.chunk_data(&cell);
            let reach = self.radius + data.max + query_radius;
            let ghost pre = out@;
            if !is_culled(reach, dir) {
                out.push((cell, data));
                proof {
                    assert(out@.drop_last() =~= pre);
                    assert forall|j: int|
                        0 <= j < out@.len() implies {
                        let e = #[trigger] out@[j];
                        &&& neighborhood_contains(
                            res as int,
                            dir,
                            tan_num as int,
                            tan_den as int,
                            e.0,
                        )
                        &&& !spec_culled(old(self).radius + e.1.max + query_radius, dir)
                        &&& e.1.samples@ == terrain_grid(
                            old(self).terrain,
                            e.0,
                            old(self).resolution,
                        )
                        &&& e.1.max == seq_max(e.1.samples@)
                        &&& e.1.samples@.len() == old(self).resolution * old(self).resolution
                    } by {
                        if j < pre.len() {
                            assert(out@[j] == pre[j]);
                        }
                    }
                }
            }
            proof {
                assert forall|m: int|
                    0 <= m < i + 1 implies ((exists|j: int|
                    0 <= j < out@.len() && (#[trigger] out@[j]).0 == cells@[m]) <==> !spec_culled(
                    old(self).radius + seq_max(
                        terrain_grid(old(self).terrain, #[trigger] cells@[m], old(self).resolution),
                    ) + query_radius,
                    dir,
                )) by {
                    if m < i {
                        if exists|j: int| 0 <= j < pre.len() && (#[trigger] pre[j]).0 == cells@[m] {
                            let j = choose|j: int|
                                0 <= j < pre.len() && (#[trigger] pre[j]).0 == cells@[m];
                            assert(out@[j].0 == cells@[m]);
                        } else if exists|j: int|
                            0 <= j < out@.len() && (#[trigger] out@[j]).0 == cells@[m] {
                            let j = choose|j: int|
                                0 <= j < out@.len() && (#[trigger] out@[j]).0 == cells@[m];
                            assert(j == pre.len());
                            assert(cells@[i as int] == cells@[m]);
                        }
                    } else {
                        if !spec_culled(reach as int, dir) {
                            assert(out@[out@.len() - 1].0 == cells@[m]);
                        } else if exists|j: int|
                            0 <= j < out@.len() && (#[trigger] out@[j]).0 == cells@[m] {
                            let j = choose|j: int|
                                0 <= j < out@.len() && (#[trigger] out@[j]).0 == cells@[m];
                            let m0 = choose|m0: int|
                                0 <= m0 < i && (#[trigger] out@[j]).0 == cells@[m0];
                            assert(cells@[m0] == cells@[m]);
                        }
                    }
                }
                assert forall|j: int|
                    0 <= j < out@.len() implies exists|m: int|
                    0 <= m < i + 1 && (#[trigger] out@[j]).0 == cells@[m] by {
                    if j < pre.len() {
                        let m0 = choose|m0: int|
                            0 <= m0 < i && (#[trigger] pre[j]).0 == cells@[m0];
                        assert(out@[j].0 == cells@[m0]);
                    } else {
                        assert(out@[j].0 == cells@[i as int]);
                    }
                }
                assert forall|j1: int, j2: int|
                    0 <= j1 < j2 < out@.len() implies out@[j1].0 != out@[j2].0 by {
                    if j2 == pre.len() && out@.len() > pre.len() {
                        let m0 = choose|m0: int|
                            0 <= m0 < i && (#[trigger] pre[j1]).0 == cells@[m0];
                        assert(out@[j1].0 == cells@[m0]);
                        assert(out@[j2].0 == cells@[i as int]);
                    }
                }
            }
            i = i + 1;
        }
        proof {
            assert forall|c: Coords| #[trigger]
                neighborhood_contains(res as int, dir, tan_num as int, tan_den as int, c) implies ((
            exists|j: int| 0 <= j < out@.len() && (#[trigger] out@[j]).0 == c) <==> !spec_culled(
                old(self).radius + seq_max(
                    terrain_grid(old(self).terrain, c, old(self).resolution),
                ) + query_radius,
                dir,
            )) by {
                assert(cells@.contains(c));
                let m = choose|m: int| 0 <= m < cells@.len() && cells@[m] == c;
                assert(cells@[m] == c);
            }
        }
        out
    }
}

} // verus!
