//! The six faces of the cube that tiles the sphere.
//!
//! Each face carries a fixed orthonormal basis mapping face-local `(x, y, z)`
//! to world coordinates. Every basis is a signed permutation of the axes, so
//! applying it to an integer vector is exact.

use vstd::prelude::*;
use crate::vect::Vec3;

verus! {

/// One of the six cube faces, named by the world axis of its outward normal.
#[derive(Debug, Clone, Copy, PartialEq, Eq, Hash, Structural)]
pub enum Face {
    PX,
    NX,
    PY,
    NY,
    PZ,
    NZ,
}

impl Face {
    /// The face on the other side of the cube.
    pub open spec fn spec_opposite(self) -> Face {
        match self {
            Face::PX => Face::NX,
            Face::NX => Face::PX,
            Face::PY => Face::NY,
            Face::NY => Face::PY,
            Face::PZ => Face::NZ,
            Face::NZ => Face::PZ,
        }
    }

    /// The face on the other side of the cube.
    pub fn opposite(self) -> (r: Face)
        ensures
            r == self.spec_opposite(),
    {
        match self {
            Face::PX => Face::NX,
            Face::NX => Face::PX,
            Face::PY => Face::NY,
            Face::NY => Face::PY,
            Face::PZ => Face::NZ,
            Face::NZ => Face::PZ,
        }
    }

    /// The face basis applied to a face-local vector: world coordinates of
    /// `v`. Each basis is a signed permutation, so this is exact.
    pub open spec fn spec_local_to_world(self, v: Vec3) -> Vec3 {
        match self {
            Face::PX => Vec3 { x: v.z, y: neg64(v.y), z: v.x },
            Face::NX => Vec3 { x: neg64(v.z), y: neg64(v.y), z: neg64(v.x) },
            Face::PY => Vec3 { x: v.x, y: v.z, z: neg64(v.y) },
            Face::NY => Vec3 { x: v.x, y: neg64(v.z), z: v.y },
            Face::PZ => Vec3 { x: v.x, y: v.y, z: v.z },
            Face::NZ => Vec3 { x: neg64(v.x), y: v.y, z: neg64(v.z) },
        }
    }

    /// The inverse of the face basis applied to a world vector: face-local
    /// coordinates of `w`.
    pub open spec fn spec_world_to_local(self, w: Vec3) -> Vec3 {
        match self {
            Face::PX => Vec3 { x: w.z, y: neg64(w.y), z: w.x },
            Face::NX => Vec3 { x: neg64(w.z), y: neg64(w.y), z: neg64(w.x) },
            Face::PY => Vec3 { x: w.x, y: neg64(w.z), z: w.y },
            Face::NY => Vec3 { x: w.x, y: w.z, z: neg64(w.y) },
            Face::PZ => Vec3 { x: w.x, y: w.y, z: w.z },
            Face::NZ => Vec3 { x: neg64(w.x), y: w.y, z: neg64(w.z) },
        }
    }

    /// World direction of the face's outward normal.
    pub open spec fn spec_normal(self) -> Vec3 {
        self.spec_local_to_world(Vec3 { x: 0, y: 0, z: 1 })
    }

    pub fn local_to_world(self, v: Vec3) -> (r: Vec3)
        requires
            v.bounded(),
        ensures
            r == self.spec_local_to_world(v),
            r.bounded(),
    {
        match self {
            Face::PX => Vec3 { x: v.z, y: -v.y, z: v.x },
            Face::NX => Vec3 { x: -v.z, y: -v.y, z: -v.x },
            Face::PY => Vec3 { x: v.x, y: v.z, z: -v.y },
            Face::NY => Vec3 { x: v.x, y: -v.z, z: v.y },
            Face::PZ => Vec3 { x: v.x, y: v.y, z: v.z },
            Face::NZ => Vec3 { x: -v.x, y: v.y, z: -v.z },
        }
    }

    pub fn world_to_local(self, w: Vec3) -> (r: Vec3)
        requires
            w.bounded(),
        ensures
            r == self.spec_world_to_local(w),
            r.bounded(),
    {
        match self {
            Face::PX => Vec3 { x: w.z, y: -w.y, z: w.x },
            Face::NX => Vec3 { x: -w.z, y: -w.y, z: -w.x },
            Face::PY => Vec3 { x: w.x, y: -w.z, z: w.y },
            Face::NY => Vec3 { x: w.x, y: w.z, z: -w.y },
            Face::PZ => Vec3 { x: w.x, y: w.y, z: w.z },
            Face::NZ => Vec3 { x: -w.x, y: w.y, z: -w.z },
        }
    }

    /// World direction of the face's outward normal.
    pub fn normal(self) -> (r: Vec3)
        ensures
            r == self.spec_normal(),
            r.bounded(),
    {
        self.local_to_world(Vec3 { x: 0, y: 0, z: 1 })
    }

    /// The face whose axis carries the largest component of `v`, ties broken
    /// in the order x, y, z and a zero component counting as positive.
    pub open spec fn spec_from_vector(v: Vec3) -> Face {
        let ax = abs_int(v.x as int);
        let ay = abs_int(v.y as int);
        let az = abs_int(v.z as int);
        if ax >= ay && ax >= az {
            if v.x >= 0 {
                Face::PX
            } else {
                Face::NX
            }
        } else if ay >= az {
            if v.y >= 0 {
                Face::PY
            } else {
                Face::NY
            }
        } else {
            if v.z >= 0 {
                Face::PZ
            } else {
                Face::NZ
            }
        }
    }

    /// Selects the cube face a direction points at: the axis of greatest
    /// absolute component, signed.
    pub fn from_vector(v: &Vec3) -> (r: Face)
        requires
            v.bounded(),
        ensures
            r == Face::spec_from_vector(*v),
    {
        let ax = abs64(v.x);
        let ay = abs64(v.y);
        let az = abs64(v.z);
        if ax >= ay && ax >= az {
            if v.x >= 0 {
                Face::PX
            } else {
                Face::NX
            }
        } else if ay >= az {
            if v.y >= 0 {
                Face::PY
            } else {
                Face::NY
            }
        } else {
            if v.z >= 0 {
                Face::PZ
            } else {
                Face::NZ
            }
        }
    }

    /// All six faces, in a fixed order.
    pub open spec fn spec_all() -> Seq<Face> {
        seq![Face::PX, Face::NX, Face::PY, Face::NY, Face::PZ, Face::NZ]
    }

    /// All six faces, in a fixed order.
    pub fn iter() -> (r: Vec<Face>)
        ensures
            r@ == Face::spec_all(),
    {
        let faces = vec![Face::PX, Face::NX, Face::PY, Face::NY, Face::PZ, Face::NZ];
        proof {
            assert(faces@ =~= Face::spec_all());
        }
        faces
    }
}


/// Wrapping negation on `i64`; an involution, and plain negation away from
/// the minimum value.
pub open spec fn neg64(a: i64) -> i64 {
    (-(a as int)) as i64
}

/// Absolute value over unbounded integers.
pub open spec fn abs_int(a: int) -> int {
    if a >= 0 {
        a
    } else {
        -a
    }
}

/// Absolute value on `i64`, defined away from the lone overflowing input.
pub fn abs64(a: i64) -> (r: i64)
    requires
        a != i64::MIN,
    ensures
        r == abs_int(a as int),
{
    if a >= 0 {
        a
    } else {
        -a
    }
}

/// Round trips between a face's local and world frames are exact inverses.
pub proof fn lemma_face_frames_inverse(f: Face, v: Vec3)
    requires
        v.bounded(),
    ensures
        f.spec_world_to_local(f.spec_local_to_world(v)) == v,
        f.spec_local_to_world(f.spec_world_to_local(v)) == v,
{
}

} // verus!
