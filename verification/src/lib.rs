//! Cube-sphere terrain addressing with level-of-detail chunk streaming and
//! collision-chunk caching.
//!
//! A planet's surface is modelled as six gridded cube faces. Every grid cell
//! at a given resolution has an address ([`coords::Coords`]); a quadtree node over
//! those addresses is a [`chunk::Chunk`]. On top of the addressing sit a
//! bounded slot cache that decides which chunks must be resident for a set of
//! viewpoints ([`cache::Cache`]) and a terrain-collision front end that keeps
//! recently sampled height grids in a least-recently-used store
//! ([`collision::PlanetCollision`]).
//!
//! All geometry is carried in exact integer arithmetic: directions are
//! integer vectors ([`vect::Vec3`]) and angular thresholds enter as rational
//! tangents, so the addressing and streaming decisions are verified exactly.

use vstd::prelude::*;

pub mod cache;
pub mod chunk;
pub mod collision;
pub mod coords;
pub mod face;
pub mod neighborhood;
pub mod vect;
pub mod wide;

verus! {

/// Identifier of a simulated entity, shared between producers and consumers
/// of world state.
#[derive(Debug, Clone, Copy, PartialEq, Eq, Hash, PartialOrd, Ord, Structural)]
pub struct EntityId(pub u32);

impl From<u32> for EntityId {
    fn from(x: u32) -> (r: Self) {
        EntityId(x)
    }
}

impl vstd::std_specs::convert::FromSpecImpl<u32> for EntityId {
    open spec fn obeys_from_spec() -> bool {
        true
    }

    open spec fn from_spec(x: u32) -> Self {
        EntityId(x)
    }
}

} // verus!
