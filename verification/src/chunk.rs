//! Quadtree nodes over the cube-sphere grid.
//!
//! A [`Chunk`] is one node of the quadtree on a face: an address at the
//! implicit resolution `2^depth`. Depth zero is the whole face; subdividing a
//! chunk yields the four nodes of the next depth that tile it.

use vstd::prelude::*;
use vstd::arithmetic::power2::pow2;
use crate::coords::{Coords, MAX_RESOLUTION};
use crate::face::Face;
use crate::vect::Vec3;

verus! {

/// Deepest chunk level the arithmetic supports: `2^MAX_DEPTH` still fits the
/// `u32` grid coordinates with room for one subdivision.
pub const MAX_DEPTH: u8 = 30;

/// Levels whose resolution stays within the addressing bound
/// [`MAX_RESOLUTION`], required by the operations that turn chunks into
/// directions.
pub const MAX_ADDRESSABLE_DEPTH: u8 = 16;

/// One quadtree node: a cell of the `2^depth` grid on one face.
#[derive(Debug, Clone, Copy, Eq, Hash)]
pub struct Chunk {
    pub depth: u8,
    pub coords: Coords,
}

impl PartialEq for Chunk {
    fn eq(&self, other: &Chunk) -> (r: bool) {
        self.depth == other.depth && self.coords == other.coords
    }
}

impl vstd::std_specs::cmp::PartialEqSpecImpl for Chunk {
    open spec fn obeys_eq_spec() -> bool {
        true
    }

    open spec fn eq_spec(&self, other: &Chunk) -> bool {
        *self == *other
    }
}

impl Chunk {
    /// The chunk's coordinates fit the grid of its depth, and the depth is
    /// within the supported range.
    pub open spec fn wf(self) -> bool {
        &&& self.depth <= MAX_DEPTH
        &&& self.coords.valid(pow2(self.depth as nat) as int)
    }

    /// The root chunk of a face: depth zero, the face's single cell.
    pub fn from_face(face: Face) -> (r: Chunk)
        ensures
            r == (Chunk { depth: 0, coords: Coords { coords: (0, 0), face } }),
            r.wf(),
    {
        proof {
            vstd::arithmetic::power2::lemma2_to64();
        }
        Chunk { coords: Coords { coords: (0, 0), face }, depth: 0 }
    }

    /// The grid resolution of this chunk's depth: `2^depth`.
    pub fn resolution(&self) -> (r: u32)
        requires
            self.depth <= MAX_DEPTH,
        ensures
            r == pow2(self.depth as nat),
            r >= 1,
    {
        let mut r: u32 = 1;
        let mut i: u8 = 0;
        proof {
            vstd::arithmetic::power2::lemma2_to64();
            assert(pow2(0) == 1);
        }
        while i < self.depth
            invariant
                i <= self.depth <= MAX_DEPTH,
                r == pow2(i as nat),
                r <= 0x4000_0000,
            decreases self.depth - i,
        {
            proof {
                vstd::arithmetic::power2::lemma_pow2_unfold((i + 1) as nat);
                vstd::arithmetic::power2::lemma2_to64();
                if i + 1 < MAX_DEPTH {
                    vstd::arithmetic::power2::lemma_pow2_strictly_increases(
                        (i + 1) as nat,
                        MAX_DEPTH as nat,
                    );
                }
            }
            r = r * 2;
            i = i + 1;
        }
        r
    }

    /// Splits this chunk into the four chunks of the next depth that exactly
    /// tile it.
    pub fn subdivide(&self) -> (r: [Chunk; 4])
        requires
            self.wf(),
            self.depth < MAX_DEPTH,
        ensures
            r@ == self.spec_children(),
            forall|i: int| 0 <= i < 4 ==> (#[trigger] r@[i]).wf(),
    {
        let depth = self.depth + 1;
        let face = self.coords.face;
        proof {
            self.lemma_children_wf();
            vstd::arithmetic::power2::lemma_pow2_unfold(depth as nat);
        }
        let (x, y) = (self.coords.coords.0 * 2, self.coords.coords.1 * 2);
        let r = [
            Chunk { coords: Coords { coords: (x, y), face }, depth },
            Chunk { coords: Coords { coords: (x, y + 1), face }, depth },
            Chunk { coords: Coords { coords: (x + 1, y), face }, depth },
            Chunk { coords: Coords { coords: (x + 1, y + 1), face }, depth },
        ];
        proof {
            assert(r@ =~= self.spec_children());
        }
        r
    }

    /// The four children of this chunk, in a fixed order: both coordinates
    /// doubled, then each combination of adding one.
    pub open spec fn spec_children(self) -> Seq<Chunk> {
        let depth = (self.depth + 1) as u8;
        let face = self.coords.face;
        let x = self.coords.coords.0;
        let y = self.coords.coords.1;
        seq![
            Chunk { coords: Coords { coords: ((2 * x) as u32, (2 * y) as u32), face }, depth },
            Chunk { coords: Coords { coords: ((2 * x) as u32, (2 * y + 1) as u32), face }, depth },
            Chunk { coords: Coords { coords: ((2 * x + 1) as u32, (2 * y) as u32), face }, depth },
            Chunk {
                coords: Coords { coords: ((2 * x + 1) as u32, (2 * y + 1) as u32), face },
                depth,
            },
        ]
    }

    /// Children of a well-formed chunk are well formed and their coordinates
    /// stay within `u32`.
    pub proof fn lemma_children_wf(self)
        requires
            self.wf(),
            self.depth < MAX_DEPTH,
        ensures
            forall|i: int| 0 <= i < 4 ==> (#[trigger] self.spec_children()[i]).wf(),
            2 * self.coords.coords.0 + 1 < pow2((self.depth + 1) as nat),
            2 * self.coords.coords.1 + 1 < pow2((self.depth + 1) as nat),
            pow2((self.depth + 1) as nat) <= 0x4000_0000,
    {
        vstd::arithmetic::power2::lemma_pow2_unfold((self.depth + 1) as nat);
        vstd::arithmetic::power2::lemma_pow2_pos(self.depth as nat);
        vstd::arithmetic::power2::lemma2_to64();
        if self.depth + 1 < MAX_DEPTH {
            vstd::arithmetic::power2::lemma_pow2_strictly_increases(
                (self.depth + 1) as nat,
                MAX_DEPTH as nat,
            );
        }
    }

    /// The world direction through this chunk's centre (unnormalised).
    pub fn origin_on_face(&self) -> (r: Vec3)
        requires
            self.wf(),
            self.depth <= MAX_ADDRESSABLE_DEPTH,
        ensures
            r == self.coords.spec_direction(pow2(self.depth as nat) as int, 1, 1, 2),
            r.bounded(),
    {
        let res = self.resolution();
        proof {
            lemma_addressable_resolution(self.depth);
        }
        self.coords.midpoint_direction(res)
    }

    /// Sample directions of a `chunk_resolution`-wide grid over this chunk,
    /// row-major with x varying fastest.
    pub fn samples(&self, chunk_resolution: u32) -> (r: Vec<Vec3>)
        requires
            self.wf(),
            self.depth <= MAX_ADDRESSABLE_DEPTH,
            2 <= chunk_resolution <= MAX_RESOLUTION,
        ensures
            r@.len() == chunk_resolution * chunk_resolution,
            forall|yi: int, xi: int|
                0 <= yi < chunk_resolution && 0 <= xi < chunk_resolution
                    ==> r@[#[trigger] crate::coords::grid_index(chunk_resolution as int, yi, xi)]
                    == self.coords.spec_direction(
                    pow2(self.depth as nat) as int,
                    xi,
                    yi,
                    chunk_resolution - 1,
                ),
    {
        let res = self.resolution();
        proof {
            lemma_addressable_resolution(self.depth);
        }
        self.coords.samples(res, chunk_resolution)
    }

    /// Sample directions together with their grid position.
    pub fn samples_xy(&self, chunk_resolution: u32) -> (r: Vec<(Vec3, (u32, u32))>)
        requires
            self.wf(),
            self.depth <= MAX_ADDRESSABLE_DEPTH,
            2 <= chunk_resolution <= MAX_RESOLUTION,
        ensures
            r@.len() == chunk_resolution * chunk_resolution,
            forall|yi: int, xi: int|
                0 <= yi < chunk_resolution && 0 <= xi < chunk_resolution
                    ==> r@[#[trigger] crate::coords::grid_index(chunk_resolution as int, yi, xi)]
                    == (
                    self.coords.spec_direction(
                        pow2(self.depth as nat) as int,
                        xi,
                        yi,
                        chunk_resolution - 1,
                    ),
                    (xi as u32, yi as u32),
                ),
    {
        let res = self.resolution();
        proof {
            lemma_addressable_resolution(self.depth);
        }
        self.coords.samples_xy(res, chunk_resolution)
    }
}

/// The resolution of an addressable depth is within the addressing bound.
pub proof fn lemma_addressable_resolution(depth: u8)
    requires
        depth <= MAX_ADDRESSABLE_DEPTH,
    ensures
        1 <= pow2(depth as nat) <= MAX_RESOLUTION,
{
    vstd::arithmetic::power2::lemma_pow2_pos(depth as nat);
    vstd::arithmetic::power2::lemma2_to64();
    vstd::arithmetic::power2::lemma2_to64_rest();
    if depth < MAX_ADDRESSABLE_DEPTH {
        vstd::arithmetic::power2::lemma_pow2_strictly_increases(
            depth as nat,
            MAX_ADDRESSABLE_DEPTH as nat,
        );
    }
}

/// Cell `(u, v)` of the grid one level below `c` lies inside `c`'s footprint.
pub open spec fn child_cell_in(c: Chunk, u: int, v: int) -> bool {
    &&& 2 * c.coords.coords.0 <= u < 2 * c.coords.coords.0 + 2
    &&& 2 * c.coords.coords.1 <= v < 2 * c.coords.coords.1 + 2
}

/// Subdivision partition: the four children of a chunk are pairwise distinct,
/// all one level deeper on the same face, and their cells are exactly the
/// cells of the chunk's footprint at that level, with no gap and no overlap;
/// and each child's centre lies within the chunk's footprint on the face
/// (centres measured as fractions `(2c+1) / 2^(depth+2)` of the face edge).
pub proof fn lemma_subdivision_partition(c: Chunk)
    requires
        c.wf(),
        c.depth < MAX_DEPTH,
    ensures
        c.spec_children().len() == 4,
        forall|i: int, j: int|
            0 <= i < 4 && 0 <= j < 4 && i != j ==> c.spec_children()[i] != c.spec_children()[j],
        forall|i: int|
            0 <= i < 4 ==> (#[trigger] c.spec_children()[i]).depth == c.depth + 1
                && c.spec_children()[i].coords.face == c.coords.face,
        forall|u: u32, v: u32|
            child_cell_in(c, u as int, v as int) <==> c.spec_children().contains(
                Chunk {
                    coords: Coords { coords: (u, v), face: c.coords.face },
                    depth: (c.depth + 1) as u8,
                },
            ),
        forall|i: int|
            0 <= i < 4 ==> {
                let m = 2 * (#[trigger] c.spec_children()[i]).coords.coords.0 + 1;
                let n = 2 * c.spec_children()[i].coords.coords.1 + 1;
                &&& 4 * c.coords.coords.0 <= m <= 4 * c.coords.coords.0 + 4
                &&& 4 * c.coords.coords.1 <= n <= 4 * c.coords.coords.1 + 4
            },
{
    c.lemma_children_wf();
    let ch = c.spec_children();
    assert forall|u: u32, v: u32|
        child_cell_in(c, u as int, v as int) implies ch.contains(
        Chunk {
            coords: Coords { coords: (u, v), face: c.coords.face },
            depth: (c.depth + 1) as u8,
        },
    ) by {
        let x = c.coords.coords.0 as int;
        let y = c.coords.coords.1 as int;
        let k = Chunk {
            coords: Coords { coords: (u, v), face: c.coords.face },
            depth: (c.depth + 1) as u8,
        };
        if u == 2 * x {
            if v == 2 * y {
                assert(ch[0] == k);
            } else {
                assert(ch[1] == k);
            }
        } else {
            if v == 2 * y {
                assert(ch[2] == k);
            } else {
                assert(ch[3] == k);
            }
        }
    }
    assert forall|u: u32, v: u32|
        ch.contains(
            Chunk {
                coords: Coords { coords: (u, v), face: c.coords.face },
                depth: (c.depth + 1) as u8,
            },
        ) implies child_cell_in(c, u as int, v as int) by {
        let k = Chunk {
            coords: Coords { coords: (u, v), face: c.coords.face },
            depth: (c.depth + 1) as u8,
        };
        let i = choose|i: int| 0 <= i < ch.len() && ch[i] == k;
        assert(ch[i] == k);
    }
}

} // verus!
