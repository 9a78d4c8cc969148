//! The level-of-detail streaming cache.
//!
//! The cache owns a fixed number of storage slots. A query walks the chunk
//! quadtree from the six face roots, marking resident chunks as used,
//! collecting chunks that still need a slot into `transfer`, and collecting
//! the displayable set into `render`. A subsequent update frees unused ready
//! slots until the pending transfers fit, dropping the overflow. Slots are
//! allocated one chunk at a time and become ready when the produced data has
//! been attached.
//!
//! The subdivision test is the angular-size criterion: a chunk is refined
//! when the half-angle it subtends at some viewpoint, `atan((edge/2) /
//! distance)`, reaches the fixed threshold `atan(1/sqrt(10))`, and the chunk
//! centre faces the viewpoint. Viewpoints enter as integer vectors in units
//! of `1 / VIEW_SCALE` of the sphere radius, and the criterion is decided
//! exactly in integers by comparing squares.

use vstd::prelude::*;
use vstd::arithmetic::power2::pow2;
use crate::chunk::Chunk;
use crate::coords::Coords;
use crate::face::Face;
use crate::vect::Vec3;
use crate::wide::{square, scale, le5, val4, val5};
use std::collections::HashMap;

verus! {

broadcast use vstd::std_specs::hash::group_hash_axioms, vstd::set::group_set_axioms, vstd::map::group_map_axioms, vstd::seq_lib::lemma_seq_concat_contains_all_elements;

/// Deepest level the cache walks: keeps the subdivision arithmetic exact.
pub const MAX_QUERY_DEPTH: u8 = 15;

/// Fixed-point scale of viewpoint coordinates: one sphere radius.
pub const VIEW_SCALE: i64 = 4096;

/// Largest accepted viewpoint coordinate magnitude.
pub const VIEW_BOUND: i64 = 0x100_0000_0000;

/// A viewpoint's coordinates are within the accepted range.
pub open spec fn view_ok(v: Vec3) -> bool {
    &&& -VIEW_BOUND <= v.x <= VIEW_BOUND
    &&& -VIEW_BOUND <= v.y <= VIEW_BOUND
    &&& -VIEW_BOUND <= v.z <= VIEW_BOUND
}

/// One storage unit: the chunk resident in it, and whether its data has been
/// delivered.
#[derive(Debug, Clone, Copy, Eq, PartialEq)]
pub struct Slot {
    pub chunk: Chunk,
    /// Whether the slot is ready for reading.
    pub ready: bool,
}

/// A quadtree node under consideration during a walk: the chunk, its slot if
/// resident, and whether its ancestry allows it to be displayed.
pub struct ChunkInfo {
    pub chunk: Chunk,
    pub index: Option<u32>,
    pub renderable: bool,
}

/// Injective integer key of a chunk, used to index the slot map.
pub open spec fn spec_chunk_key(c: Chunk) -> int {
    crate::neighborhood::face_rank(c.coords.face) + 8 * (c.depth + 32 * (c.coords.coords.0 + 65536
        * c.coords.coords.1))
}

/// A chunk the cache can hold: well formed and within the walkable depth.
pub open spec fn cacheable(c: Chunk) -> bool {
    &&& c.wf()
    &&& c.depth <= MAX_QUERY_DEPTH
}

/// Exact integer key of a chunk.
pub fn chunk_key(c: &Chunk) -> (r: u64)
    requires
        cacheable(*c),
    ensures
        r == spec_chunk_key(*c),
{
    proof {
        crate::chunk::lemma_addressable_resolution(c.depth);
        vstd::arithmetic::power2::lemma2_to64();
        if (c.depth as nat) < 16 {
            vstd::arithmetic::power2::lemma_pow2_strictly_increases(c.depth as nat, 16);
        }
    }
    let fr: u64 = match c.coords.face {
        Face::PX => 0,
        Face::NX => 1,
        Face::PY => 2,
        Face::NY => 3,
        Face::PZ => 4,
        Face::NZ => 5,
    };
    fr + 8 * (c.depth as u64 + 32 * (c.coords.coords.0 as u64 + 65536 * c.coords.coords.1 as u64))
}

/// Distinct cacheable chunks have distinct keys.
pub proof fn lemma_chunk_key_injective(c1: Chunk, c2: Chunk)
    requires
        cacheable(c1),
        cacheable(c2),
        spec_chunk_key(c1) == spec_chunk_key(c2),
    ensures
        c1 == c2,
{
    crate::chunk::lemma_addressable_resolution(c1.depth);
    crate::chunk::lemma_addressable_resolution(c2.depth);
    vstd::arithmetic::power2::lemma2_to64();
    if (c1.depth as nat) < 16 {
        vstd::arithmetic::power2::lemma_pow2_strictly_increases(c1.depth as nat, 16);
    }
    if (c2.depth as nat) < 16 {
        vstd::arithmetic::power2::lemma_pow2_strictly_increases(c2.depth as nat, 16);
    }
    assert(c1.coords.coords.0 < 65536 && c1.coords.coords.1 < 65536);
    assert(c2.coords.coords.0 < 65536 && c2.coords.coords.1 < 65536);
    assert(c1.coords.face == c2.coords.face && c1.depth == c2.depth && c1.coords.coords.0
        == c2.coords.coords.0 && c1.coords.coords.1 == c2.coords.coords.1);
}

/// Number of empty slots in a slot sequence.
pub open spec fn free_count(s: Seq<Option<Slot>>) -> int
    decreases s.len(),
{
    if s.len() == 0 {
        0
    } else {
        free_count(s.drop_last()) + if s.last() is None {
            1int
        } else {
            0int
        }
    }
}

/// Replacing one slot changes the free count by the difference of the two
/// occupancies.
pub proof fn lemma_free_count_update(s: Seq<Option<Slot>>, i: int, v: Option<Slot>)
    requires
        0 <= i < s.len(),
    ensures
        free_count(s.update(i, v)) == free_count(s) - (if s[i] is None {
            1int
        } else {
            0int
        }) + (if v is None {
            1int
        } else {
            0int
        }),
    decreases s.len(),
{
    let t = s.update(i, v);
    if i == s.len() - 1 {
        assert(t.drop_last() =~= s.drop_last());
    } else {
        assert(t.drop_last() =~= s.drop_last().update(i, v));
        lemma_free_count_update(s.drop_last(), i, v);
    }
}

/// The free count counts a subset of the slots.
pub proof fn lemma_free_count_bounds(s: Seq<Option<Slot>>)
    ensures
        0 <= free_count(s) <= s.len(),
    decreases s.len(),
{
    if s.len() > 0 {
        lemma_free_count_bounds(s.drop_last());
    }
}

/// Extending a prefix by one element adds that element's occupancy.
pub proof fn lemma_free_count_step(s: Seq<Option<Slot>>, i: int)
    requires
        0 <= i < s.len(),
    ensures
        free_count(s.subrange(0, i + 1)) == free_count(s.subrange(0, i)) + if s[i] is None {
            1int
        } else {
            0int
        },
{
    assert(s.subrange(0, i + 1).drop_last() =~= s.subrange(0, i));
}

/// The slot can be freed by an update: occupied, its data delivered, and not
/// marked used by the current traversal.
pub open spec fn evictable(slot: Option<Slot>, used: bool) -> bool {
    &&& slot is Some
    &&& slot->Some_0.ready
    &&& !used
}

/// Number of evictable slots among the first `n`.
pub open spec fn evictable_upto(s: Seq<Option<Slot>>, u: Seq<bool>, n: int) -> int
    decreases n,
{
    if n <= 0 {
        0
    } else {
        evictable_upto(s, u, n - 1) + if evictable(s[n - 1], u[n - 1]) {
            1int
        } else {
            0int
        }
    }
}

/// The evictable count only grows with the prefix length.
pub proof fn lemma_evictable_upto_monotone(s: Seq<Option<Slot>>, u: Seq<bool>, a: int, b: int)
    requires
        a <= b,
    ensures
        evictable_upto(s, u, a) <= evictable_upto(s, u, b),
    decreases b - a,
{
    if a < b {
        lemma_evictable_upto_monotone(s, u, a, b - 1);
    }
}

/// The streaming cache: bounded slot storage, a chunk-to-slot index, the
/// pending transfer list, the current render list, and the per-walk use
/// marks. The number of resident chunks can never exceed `capacity`, because
/// residents live only in the `capacity` slots.
pub struct Cache {
    pub slots: Vec<Option<Slot>>,
    pub index: HashMap<u64, u32>,
    pub transfer: Vec<Chunk>,
    pub render: Vec<Chunk>,
    pub max_depth: u8,
    pub used: Vec<bool>,
    pub capacity: usize,
}

impl Cache {
    /// Structural invariant: the slot and mark stores have exactly
    /// `capacity` entries, and the index is a bijection between resident
    /// chunks' keys and their occupied slots.
    pub open spec fn wf(self) -> bool {
        &&& self.slots@.len() == self.capacity
        &&& self.used@.len() == self.capacity
        &&& self.max_depth <= MAX_QUERY_DEPTH
        &&& self.capacity <= u32::MAX
        &&& forall|k: u64|
            #[trigger] self.index@.contains_key(k) ==> {
                &&& self.index@[k] < self.capacity
                &&& self.slots@[self.index@[k] as int] is Some
                &&& spec_chunk_key(self.slots@[self.index@[k] as int]->Some_0.chunk) == k
            }
        &&& forall|i: int|
            0 <= i < self.capacity && self.slots@[i] is Some ==> {
                &&& cacheable((#[trigger] self.slots@[i])->Some_0.chunk)
                &&& self.slots@[i]->Some_0.chunk.depth <= self.max_depth
                &&& self.index@.contains_key(spec_chunk_key(self.slots@[i]->Some_0.chunk) as u64)
                &&& self.index@[spec_chunk_key(self.slots@[i]->Some_0.chunk) as u64] == i
            }
    }

    /// The slot id the chunk is resident in, if any.
    pub open spec fn spec_get(self, c: Chunk) -> Option<u32> {
        if self.index@.contains_key(spec_chunk_key(c) as u64) {
            Some(self.index@[spec_chunk_key(c) as u64])
        } else {
            None
        }
    }

    /// The chunk is resident and its data has been delivered.
    pub open spec fn slot_ready(self, c: Chunk) -> bool {
        match self.spec_get(c) {
            Some(id) => self.slots@[id as int] is Some && self.slots@[id as int]->Some_0.ready,
            None => false,
        }
    }

    /// All four children of `c` are resident with delivered data.
    pub open spec fn children_all_ready(self, c: Chunk) -> bool {
        forall|i: int| 0 <= i < 4 ==> self.slot_ready(#[trigger] c.spec_children()[i])
    }

    /// A chunk may stand in the render set: it is not further subdivided, or
    /// some child of it is not yet ready, so it fills in for them.
    pub open spec fn render_entry_ok(self, vps: Seq<Vec3>, c: Chunk) -> bool {
        ||| !spec_should_subdivide(c, vps, self.max_depth as int)
        ||| !self.children_all_ready(c)
    }

    /// What one step of the quadtree walk produces, as a value: the chunks
    /// rendered, the chunks queued for transfer, and the slot ids marked
    /// used, each in walk order. The walk requests a slot for a chunk that
    /// has none, descends where the angular test asks for refinement, and
    /// renders a chunk where it stops — or above children that are not all
    /// ready.
    pub open spec fn spec_walk(self, c: Chunk, renderable: bool, vps: Seq<Vec3>) -> (
        Seq<Chunk>,
        Seq<Chunk>,
        Seq<u32>,
    )
        decreases self.max_depth - c.depth, 5int,
    {
        let queued = if self.spec_get(c) is None {
            seq![c]
        } else {
            Seq::<Chunk>::empty()
        };
        let marked = match self.spec_get(c) {
            Some(id) => seq![id],
            None => Seq::<u32>::empty(),
        };
        if !spec_should_subdivide(c, vps, self.max_depth as int) {
            (
                if renderable {
                    seq![c]
                } else {
                    Seq::<Chunk>::empty()
                },
                queued,
                marked,
            )
        } else {
            let cr = renderable && self.children_all_ready(c);
            let here = if renderable && !cr {
                seq![c]
            } else {
                Seq::<Chunk>::empty()
            };
            let rest = self.spec_walk_children(c, cr, vps, 4);
            (here + rest.0, queued + rest.1, marked + rest.2)
        }
    }

    /// What the walks of the first `k` children of `c` produce, concatenated.
    pub open spec fn spec_walk_children(self, c: Chunk, cr: bool, vps: Seq<Vec3>, k: int) -> (
        Seq<Chunk>,
        Seq<Chunk>,
        Seq<u32>,
    )
        decreases self.max_depth - c.depth, k,
        via Self::spec_walk_children_decreases
    {
        if k <= 0 || k > 4 || c.depth >= self.max_depth {
            (Seq::<Chunk>::empty(), Seq::<Chunk>::empty(), Seq::<u32>::empty())
        } else {
            let prev = self.spec_walk_children(c, cr, vps, k - 1);
            let w = self.spec_walk(c.spec_children()[k - 1], cr, vps);
            (prev.0 + w.0, prev.1 + w.1, prev.2 + w.2)
        }
    }

    #[via_fn]
    proof fn spec_walk_children_decreases(self, c: Chunk, cr: bool, vps: Seq<Vec3>, k: int) {
        if !(k <= 0 || k > 4 || c.depth >= self.max_depth) {
            Self::lemma_child_depth(c, k - 1);
        }
    }

    /// Every child of `c` sits one level deeper.
    pub proof fn lemma_child_depth(c: Chunk, j: int)
        requires
            0 <= j < 4,
            c.depth < 255,
        ensures
            c.spec_children()[j].depth == c.depth + 1,
    {
        if j == 0 {
        } else if j == 1 {
        } else if j == 2 {
        } else {
        }
    }

    /// What a full query produces from the roots of the first `k` faces.
    pub open spec fn spec_query_prefix(self, vps: Seq<Vec3>, k: int) -> (
        Seq<Chunk>,
        Seq<Chunk>,
        Seq<u32>,
    )
        decreases k,
    {
        if k <= 0 {
            (Seq::<Chunk>::empty(), Seq::<Chunk>::empty(), Seq::<u32>::empty())
        } else {
            let prev = self.spec_query_prefix(vps, k - 1);
            let root = Chunk {
                depth: 0,
                coords: Coords { coords: (0, 0), face: Face::spec_all()[k - 1] },
            };
            let w = self.spec_walk(root, self.slot_ready(root), vps);
            (prev.0 + w.0, prev.1 + w.1, prev.2 + w.2)
        }
    }

    /// What a full query produces: the walks of the six face roots, in face
    /// order.
    pub open spec fn spec_query(self, vps: Seq<Vec3>) -> (Seq<Chunk>, Seq<Chunk>, Seq<u32>) {
        self.spec_query_prefix(vps, 6)
    }

    /// The walk's outcome depends only on the slot storage, the index and the
    /// depth limit, not on the collected lists.
    pub proof fn lemma_walk_stable(self, other: Cache, c: Chunk, renderable: bool, vps: Seq<Vec3>)
        requires
            self.slots@ == other.slots@,
            self.index@ == other.index@,
            self.max_depth == other.max_depth,
        ensures
            self.spec_walk(c, renderable, vps) == other.spec_walk(c, renderable, vps),
        decreases self.max_depth - c.depth, 5int,
    {
        if self.children_all_ready(c) != other.children_all_ready(c) {
            assert forall|i: int|
                0 <= i < 4 implies self.slot_ready(#[trigger] c.spec_children()[i])
                == other.slot_ready(c.spec_children()[i]) by {}
            assert(false);
        }
        if spec_should_subdivide(c, vps, self.max_depth as int) {
            let cr = renderable && self.children_all_ready(c);
            self.lemma_walk_children_stable(other, c, cr, vps, 4);
        }
    }

    /// Companion of [`Cache::lemma_walk_stable`] for the child concatenation.
    pub proof fn lemma_walk_children_stable(
        self,
        other: Cache,
        c: Chunk,
        cr: bool,
        vps: Seq<Vec3>,
        k: int,
    )
        requires
            self.slots@ == other.slots@,
            self.index@ == other.index@,
            self.max_depth == other.max_depth,
        ensures
            self.spec_walk_children(c, cr, vps, k) == other.spec_walk_children(c, cr, vps, k),
        decreases self.max_depth - c.depth, k,
    {
        if !(k <= 0 || k > 4 || c.depth >= self.max_depth) {
            Self::lemma_child_depth(c, k - 1);
            self.lemma_walk_children_stable(other, c, cr, vps, k - 1);
            self.lemma_walk_stable(other, c.spec_children()[k - 1], cr, vps);
        }
    }

    /// A cache sized by the worst-case traversal from the reference
    /// viewpoint, with every slot empty.
    #[verifier::loop_isolation(false)]
    pub fn new(max_depth: u8) -> (r: Cache)
        requires
            max_depth < MAX_QUERY_DEPTH,
        ensures
            r.wf(),
            r.max_depth == max_depth,
            r.capacity == spec_slots_needed(max_depth),
            r.index@ == Map::<u64, u32>::empty(),
            r.transfer@.len() == 0,
            r.render@.len() == 0,
            free_count(r.slots@) == r.capacity,
            forall|i: int| 0 <= i < r.used@.len() ==> !r.used@[i],
            forall|i: int| 0 <= i < r.slots@.len() ==> (#[trigger] r.slots@[i]) is None,
    {
        let cap64 = slots_needed(max_depth);
        let capacity = cap64 as usize;
        let mut slots: Vec<Option<Slot>> = Vec::new();
        let mut used: Vec<bool> = Vec::new();
        let mut i: usize = 0;
        while i < capacity
            invariant
                i <= capacity,
                slots@.len() == i,
                used@.len() == i,
                free_count(slots@) == i,
                forall|j: int| 0 <= j < i ==> (#[trigger] slots@[j]) is None && !used@[j],
            decreases capacity - i,
        {
            let ghost prev = slots@;
            let ghost prev_used = used@;
            slots.push(None);
            used.push(false);
            proof {
                assert(slots@.drop_last() =~= prev);
                assert(slots@ == prev.push(None::<Slot>));
                assert(used@ == prev_used.push(false));
                assert forall|j: int|
                    0 <= j < i + 1 implies (#[trigger] slots@[j]) is None && !used@[j] by {
                    if j < i {
                        vstd::seq::axiom_seq_push_index_different(prev, None::<Slot>, j);
                        vstd::seq::axiom_seq_push_index_different(prev_used, false, j);
                    } else {
                        vstd::seq::axiom_seq_push_index_same(prev, None::<Slot>, j);
                        vstd::seq::axiom_seq_push_index_same(prev_used, false, j);
                    }
                }
            }
            i = i + 1;
        }
        proof {
            assert forall|j: int| 0 <= j < capacity implies !used@[j] && slots@[j] is None by {
                assert(slots@[j] is None && !used@[j]);
            }
        }
        Cache {
            slots,
            index: HashMap::new(),
            transfer: Vec::new(),
            render: Vec::new(),
            max_depth,
            used,
            capacity,
        }
    }

    /// The slot id the chunk is resident in, if any.
    pub fn get(&self, chunk: &Chunk) -> (r: Option<u32>)
        requires
            self.wf(),
            cacheable(*chunk),
        ensures
            r == self.spec_get(*chunk),
    {
        let key = chunk_key(chunk);
        match self.index.get(&key) {
            Some(id) => Some(*id),
            None => None,
        }
    }

    /// Binds a slot to `chunk`, not yet ready, in the first free slot; fails
    /// exactly when every slot is occupied.
    #[verifier::loop_isolation(false)]
    pub fn allocate(&mut self, chunk: Chunk) -> (r: Option<u32>)
        requires
            old(self).wf(),
            cacheable(chunk),
            chunk.depth <= old(self).max_depth,
            old(self).spec_get(chunk) is None,
        ensures
            final(self).wf(),
            final(self).max_depth == old(self).max_depth,
            final(self).capacity == old(self).capacity,
            final(self).transfer@ == old(self).transfer@,
            final(self).render@ == old(self).render@,
            final(self).used@ == old(self).used@,
            match r {
                None => {
                    &&& free_count(old(self).slots@) == 0
                    &&& final(self).slots@ == old(self).slots@
                    &&& final(self).index@ == old(self).index@
                },
                Some(id) => {
                    &&& id < old(self).capacity
                    &&& old(self).slots@[id as int] is None
                    &&& final(self).slots@ == old(self).slots@.update(
                        id as int,
                        Some(Slot { chunk, ready: false }),
                    )
                    &&& final(self).index@ == old(self).index@.insert(
                        spec_chunk_key(chunk) as u64,
                        id,
                    )
                    &&& free_count(final(self).slots@) == free_count(old(self).slots@) - 1
                },
            },
    {
        let mut free: Option<usize> = None;
        let mut i: usize = 0;
        while i < self.capacity
            invariant
                i <= self.capacity,
                match free {
                    Some(f) => f < self.capacity && self.slots@[f as int] is None,
                    None => free_count(self.slots@.subrange(0, i as int)) == 0,
                },
            decreases self.capacity - i,
        {
            proof {
                lemma_free_count_step(self.slots@, i as int);
            }
            if self.slots[i].is_none() {
                free = Some(i);
                break;
            }
            i = i + 1;
        }
        match free {
            Some(f) => {
                let key = chunk_key(&chunk);
                let id = f as u32;
                self.slots.set(f, Some(Slot { chunk, ready: false }));
                self.index.insert(key, id);
                proof {
                    lemma_free_count_update(
                        old(self).slots@,
                        f as int,
                        Some(Slot { chunk, ready: false }),
                    );
                    self.lemma_wf_after_insert(*old(self), chunk, id);
                }
                Some(id)
            },
            None => {
                proof {
                    assert(self.slots@.subrange(0, self.capacity as int) =~= self.slots@);
                }
                None
            },
        }
    }

    /// After binding a fresh chunk to a free slot, the bijection holds again.
    proof fn lemma_wf_after_insert(self, prev: Cache, chunk: Chunk, id: u32)
        requires
            prev.wf(),
            cacheable(chunk),
            chunk.depth <= prev.max_depth,
            prev.spec_get(chunk) is None,
            id < prev.capacity,
            prev.slots@[id as int] is None,
            self.slots@ == prev.slots@.update(id as int, Some(Slot { chunk, ready: false })),
            self.index@ == prev.index@.insert(spec_chunk_key(chunk) as u64, id),
            self.used@ == prev.used@,
            self.capacity == prev.capacity,
            self.max_depth == prev.max_depth,
        ensures
            self.wf(),
    {
        assert forall|k: u64| #[trigger] self.index@.contains_key(k) implies {
            &&& self.index@[k] < self.capacity
            &&& self.slots@[self.index@[k] as int] is Some
            &&& spec_chunk_key(self.slots@[self.index@[k] as int]->Some_0.chunk) == k
        } by {
            if k != spec_chunk_key(chunk) as u64 {
                assert(prev.index@.contains_key(k));
            }
        }
        assert forall|i: int|
            0 <= i < self.capacity && self.slots@[i] is Some implies {
            &&& cacheable((#[trigger] self.slots@[i])->Some_0.chunk)
            &&& self.slots@[i]->Some_0.chunk.depth <= self.max_depth
            &&& self.index@.contains_key(spec_chunk_key(self.slots@[i]->Some_0.chunk) as u64)
            &&& self.index@[spec_chunk_key(self.slots@[i]->Some_0.chunk) as u64] == i
        } by {
            if i != id {
                let c = self.slots@[i]->Some_0.chunk;
                assert(prev.slots@[i] is Some);
                if spec_chunk_key(c) == spec_chunk_key(chunk) {
                    lemma_chunk_key_injective(c, chunk);
                }
            }
        }
    }

    /// Marks a slot's data as delivered.
    pub fn release(&mut self, slot: u32)
        requires
            old(self).wf(),
            slot < old(self).capacity,
            old(self).slots@[slot as int] is Some,
        ensures
            final(self).wf(),
            final(self).slots@ == old(self).slots@.update(
                slot as int,
                Some(
                    Slot {
                        chunk: old(self).slots@[slot as int]->Some_0.chunk,
                        ready: true,
                    },
                ),
            ),
            final(self).index@ == old(self).index@,
            final(self).transfer@ == old(self).transfer@,
            final(self).render@ == old(self).render@,
            final(self).used@ == old(self).used@,
            final(self).capacity == old(self).capacity,
            final(self).max_depth == old(self).max_depth,
    {
        let entry = self.slots[slot as usize];
        match entry {
            Some(s) => {
                self.slots.set(slot as usize, Some(Slot { chunk: s.chunk, ready: true }));
            },
            None => {
                proof {
                    assert(false);
                }
            },
        }
    }

    /// Resets the transfer list and the per-walk use marks.
    #[verifier::loop_isolation(false)]
    pub fn clear(&mut self)
        requires
            old(self).wf(),
        ensures
            final(self).wf(),
            final(self).transfer@.len() == 0,
            final(self).used@.len() == old(self).used@.len(),
            forall|i: int| 0 <= i < final(self).used@.len() ==> !final(self).used@[i],
            final(self).slots@ == old(self).slots@,
            final(self).index@ == old(self).index@,
            final(self).render@ == old(self).render@,
            final(self).capacity == old(self).capacity,
            final(self).max_depth == old(self).max_depth,
    {
        self.transfer.clear();
        let mut i: usize = 0;
        while i < self.used.len()
            invariant
                i <= self.used@.len(),
                self.used@.len() == old(self).used@.len(),
                forall|j: int| 0 <= j < i ==> !self.used@[j],
                self.slots@ == old(self).slots@,
                self.index@ == old(self).index@,
                self.render@ == old(self).render@,
                self.transfer@.len() == 0,
                self.capacity == old(self).capacity,
                self.max_depth == old(self).max_depth,
                old(self).wf(),
            decreases self.used@.len() - i,
        {
            self.used.set(i, false);
            i = i + 1;
        }
    }
}


/// Bound on a dot product from componentwise bounds.
pub proof fn lemma_dot_bound(w: Vec3, v: Vec3, mw: int, mv: int)
    requires
        mw >= 0,
        mv >= 0,
        -mw <= w.x <= mw,
        -mw <= w.y <= mw,
        -mw <= w.z <= mw,
        -mv <= v.x <= mv,
        -mv <= v.y <= mv,
        -mv <= v.z <= mv,
    ensures
        -3 * (mw * mv) <= w.spec_dot(v) <= 3 * (mw * mv),
{
    crate::vect::lemma_mul_bound(w.x as int, v.x as int, if mw >= mv { mw } else { mv });
    assert(-(mw * mv) <= w.x * v.x <= mw * mv && -(mw * mv) <= w.y * v.y <= mw * mv && -(mw * mv)
        <= w.z * v.z <= mw * mv) by (nonlinear_arith)
        requires
            mw >= 0,
            mv >= 0,
            -mw <= w.x <= mw,
            -mw <= w.y <= mw,
            -mw <= w.z <= mw,
            -mv <= v.x <= mv,
            -mv <= v.y <= mv,
            -mv <= v.z <= mv,
    ;
}

/// Bound on a squared norm from componentwise bounds.
pub proof fn lemma_norm2_bound(v: Vec3, m: int)
    requires
        m >= 0,
        -m <= v.x <= m,
        -m <= v.y <= m,
        -m <= v.z <= m,
    ensures
        0 <= v.spec_norm2() <= 3 * (m * m),
{
    crate::vect::lemma_square_nonneg(v.x as int);
    crate::vect::lemma_square_nonneg(v.y as int);
    crate::vect::lemma_square_nonneg(v.z as int);
    assert(v.x * v.x <= m * m && v.y * v.y <= m * m && v.z * v.z <= m * m) by (nonlinear_arith)
        requires
            m >= 0,
            -m <= v.x <= m,
            -m <= v.y <= m,
            -m <= v.z <= m,
    ;
}

/// The chunk subtends a half-angle of at least `atan(1/sqrt(10))` at the
/// viewpoint and its centre faces the viewpoint. With `w` the integer centre
/// ray, `s = w . v`, `p = 4^depth` and the viewpoint at `v / VIEW_SCALE`,
/// the angular test `10/p >= |v/VIEW_SCALE - w/|w||^2` becomes, after
/// clearing the square root by squaring the one mixed term,
/// `4 s^2 VIEW_SCALE^2 p^2 >= b^2 |w|^2` with
/// `b = (VIEW_SCALE^2 + |v|^2) p - 10 VIEW_SCALE^2`.
pub open spec fn spec_needs_subdivision(c: Chunk, v: Vec3) -> bool {
    let w = c.coords.spec_direction(pow2(c.depth as nat) as int, 1, 1, 2);
    let s = w.spec_dot(v);
    let p = pow2((2 * c.depth) as nat) as int;
    let b = (VIEW_SCALE * VIEW_SCALE + v.spec_norm2()) * p - 10 * (VIEW_SCALE * VIEW_SCALE);
    &&& s >= 0
    &&& (b <= 0 || 4 * s * s * (VIEW_SCALE * VIEW_SCALE) * p * p >= b * b * w.spec_norm2())
}

/// Some viewpoint of the list triggers subdivision, and the chunk is above
/// the depth limit.
pub open spec fn spec_should_subdivide(c: Chunk, vps: Seq<Vec3>, max_depth: int) -> bool {
    &&& c.depth < max_depth
    &&& exists|i: int| 0 <= i < vps.len() && spec_needs_subdivision(c, #[trigger] vps[i])
}

/// The integer centre ray of a chunk has components within twice its
/// resolution.
proof fn lemma_centre_ray_bounds(c: Chunk)
    requires
        c.wf(),
        c.depth <= MAX_QUERY_DEPTH,
    ensures
        ({
            let w = c.coords.spec_direction(pow2(c.depth as nat) as int, 1, 1, 2);
            let res = pow2(c.depth as nat) as int;
            &&& -2 * res <= w.x <= 2 * res
            &&& -2 * res <= w.y <= 2 * res
            &&& -2 * res <= w.z <= 2 * res
            &&& res <= 0x8000
        }),
{
    crate::chunk::lemma_addressable_resolution(c.depth);
    vstd::arithmetic::power2::lemma2_to64();
    if (c.depth as nat) < 15 {
        vstd::arithmetic::power2::lemma_pow2_strictly_increases(c.depth as nat, 15);
    }
}

/// Exact decision of the angular subdivision test.
pub fn needs_subdivision(chunk: &Chunk, viewpoint: &Vec3) -> (r: bool)
    requires
        chunk.wf(),
        chunk.depth <= MAX_QUERY_DEPTH,
        view_ok(*viewpoint),
    ensures
        r == spec_needs_subdivision(*chunk, *viewpoint),
{
    proof {
        lemma_centre_ray_bounds(*chunk);
    }
    let w = chunk.origin_on_face();
    proof {
        lemma_dot_bound(w, *viewpoint, 0x1_0000, VIEW_BOUND as int);
        lemma_norm2_bound(*viewpoint, VIEW_BOUND as int);
        lemma_w2_fits(w);
    }
    let s_dot = w.dot(*viewpoint);
    if s_dot < 0 {
        return false;
    }
    let res = chunk.resolution();
    proof {
        vstd::arithmetic::power2::lemma_pow2_adds(chunk.depth as nat, chunk.depth as nat);
        assert(res as int * res as int == pow2((2 * chunk.depth) as nat));
        assert(res as int * res as int <= 0x8000 * 0x8000 && res as int * res as int >= 1)
            by (nonlinear_arith)
            requires
                1 <= (res as int) <= 0x8000,
        ;
    }
    let p: u64 = res as u64 * res as u64;
    let v2 = viewpoint.norm2();
    let sc: i128 = 0x100_0000;
    proof {
        assert(0 <= ((sc as int) + (v2 as int)) * (p as int) && ((sc as int) + (v2 as int)) * (
        p as int) <= 0x1000_0000_0000_0000_0000_0000_0000_0000) by (nonlinear_arith)
            requires
                0 <= (sc as int) + (v2 as int) <= 0x4_0000_0000_0000_0000_0000,
                1 <= (p as int) <= 0x4000_0000,
        ;
    }
    let b: i128 = (sc + v2) * (p as i128) - 10 * sc;
    if b <= 0 {
        return true;
    }
    let x1: i128 = 2 * s_dot;
    proof {
        assert(0 <= (x1 as int) * (VIEW_SCALE as int) && (x1 as int) * (VIEW_SCALE as int)
            <= 0x6000_0000_0000_0000_0000) by (nonlinear_arith)
            requires
                0 <= (x1 as int) <= 0x6_0000_0000_0000_0000,
                VIEW_SCALE == 4096,
        ;
    }
    let x2: i128 = x1 * 4096;
    proof {
        assert(0 <= (x2 as int) * (p as int) && (x2 as int) * (p as int)
            <= 0x1_8000_0000_0000_0000_0000_0000_0000) by (nonlinear_arith)
            requires
                0 <= (x2 as int) <= 0x6000_0000_0000_0000_0000,
                1 <= (p as int) <= 0x4000_0000,
        ;
    }
    let x: i128 = x2 * (p as i128);
    let w2: u64 = w.norm2() as u64;
    let xx = square(x as u128);
    let bb = square(b as u128);
    let lhs = scale(xx, 1);
    let rhs = scale(bb, w2);
    let r = le5(rhs, lhs);
    proof {
        assert(val5(lhs) == (x as int) * (x as int) && val5(rhs) == ((b as int) * (b as int)) * (
        w2 as int)) by (nonlinear_arith)
            requires
                val5(lhs) == val4(xx) * 1,
                val4(xx) == (x as int) * (x as int),
                val5(rhs) == val4(bb) * (w2 as int),
                val4(bb) == (b as int) * (b as int),
        ;
        let sd = s_dot as int;
        let scv = VIEW_SCALE as int;
        assert((x as int) * (x as int) == 4 * sd * sd * (scv * scv) * (p as int) * (p as int))
            by (nonlinear_arith)
            requires
                x as int == (2 * sd * scv) * (p as int),
        ;
    }
    r
}

/// The squared centre ray fits a `u64`.
proof fn lemma_w2_fits(w: Vec3)
    requires
        -0x2_0000 <= w.x <= 0x2_0000,
        -0x2_0000 <= w.y <= 0x2_0000,
        -0x2_0000 <= w.z <= 0x2_0000,
    ensures
        0 <= w.spec_norm2() <= 0xc_0000_0000,
{
    crate::vect::lemma_mul_bound(w.x as int, w.x as int, 0x2_0000);
    crate::vect::lemma_mul_bound(w.y as int, w.y as int, 0x2_0000);
    crate::vect::lemma_mul_bound(w.z as int, w.z as int, 0x2_0000);
    crate::vect::lemma_square_nonneg(w.x as int);
    crate::vect::lemma_square_nonneg(w.y as int);
    crate::vect::lemma_square_nonneg(w.z as int);
}

/// The reference subdivision test used to size the cache: the viewpoint is
/// the unit vector along `(1,1,1)`. With `w` the chunk's integer centre ray,
/// `s = w.x + w.y + w.z` and `p = 4^depth`, the angular criterion
/// `10/p >= 2 - 2s/(sqrt(3)|w|)` becomes, after squaring the mixed term,
/// `4 s^2 p^2 >= 3 (2p - 10)^2 |w|^2`.
pub open spec fn spec_needs_subdivision_ref(c: Chunk) -> bool {
    let w = c.coords.spec_direction(pow2(c.depth as nat) as int, 1, 1, 2);
    let s = w.x + w.y + w.z;
    let p = pow2((2 * c.depth) as nat) as int;
    &&& s >= 0
    &&& (2 * p <= 10 || 4 * s * s * p * p >= 3 * ((2 * p - 10) * (2 * p - 10)) * w.spec_norm2())
}

/// Exact decision of the reference subdivision test.
pub fn needs_subdivision_ref(c: &Chunk) -> (r: bool)
    requires
        c.wf(),
        c.depth <= MAX_QUERY_DEPTH,
    ensures
        r == spec_needs_subdivision_ref(*c),
{
    proof {
        lemma_centre_ray_bounds(*c);
    }
    let w = c.origin_on_face();
    let s: i64 = w.x + w.y + w.z;
    if s < 0 {
        return false;
    }
    let res = c.resolution();
    proof {
        vstd::arithmetic::power2::lemma_pow2_adds(c.depth as nat, c.depth as nat);
        assert(res as int * res as int == pow2((2 * c.depth) as nat));
        assert(res as int * res as int <= 0x8000 * 0x8000 && 1 <= res as int * res as int)
            by (nonlinear_arith)
            requires
                1 <= (res as int) <= 0x8000,
        ;
    }
    let p: u64 = res as u64 * res as u64;
    if 2 * p <= 10 {
        return true;
    }
    proof {
        lemma_w2_fits(w);
        assert(0 <= (s as int) * (s as int) <= 0x24_0000_0000) by (nonlinear_arith)
            requires
                0 <= (s as int) <= 0x6_0000,
        ;
    }
    let s2: i128 = (s as i128) * (s as i128);
    let t: i128 = 4 * s2;
    proof {
        assert(0 <= (t as int) * (p as int) <= 0x240_0000_0000_0000_0000) by (nonlinear_arith)
            requires
                0 <= (t as int) <= 0x90_0000_0000,
                1 <= (p as int) <= 0x4000_0000,
        ;
    }
    let t2: i128 = t * (p as i128);
    proof {
        assert(0 <= (t2 as int) * (p as int) <= 0x9000_0000_0000_0000_0000_0000_0000)
            by (nonlinear_arith)
            requires
                0 <= (t2 as int) <= 0x240_0000_0000_0000_0000,
                1 <= (p as int) <= 0x4000_0000,
        ;
    }
    let lhs: i128 = t2 * (p as i128);
    let q: i128 = 2 * (p as i128) - 10;
    proof {
        assert(0 <= (q as int) * (q as int) <= 0x4000_0000_0000_0000) by (nonlinear_arith)
            requires
                0 <= (q as int) <= 0x8000_0000,
        ;
    }
    let q2: i128 = q * q;
    let r3: i128 = 3 * q2;
    let w2: i128 = w.norm2();
    proof {
        assert(0 <= (r3 as int) * (w2 as int) <= 0xc000_0000_0000_0000 * 0xc_0000_0000)
            by (nonlinear_arith)
            requires
                0 <= (r3 as int) <= 0xc000_0000_0000_0000,
                0 <= (w2 as int) <= 0xc_0000_0000,
        ;
    }
    let rhs: i128 = r3 * w2;
    proof {
        let si = s as int;
        let pi = p as int;
        assert(lhs as int == 4 * si * si * pi * pi) by (nonlinear_arith)
            requires
                s2 as int == si * si,
                t as int == 4 * (s2 as int),
                t2 as int == (t as int) * pi,
                lhs as int == (t2 as int) * pi,
        ;
        assert(rhs as int == 3 * ((2 * pi - 10) * (2 * pi - 10)) * (w2 as int))
            by (nonlinear_arith)
            requires
                q as int == 2 * pi - 10,
                q2 as int == (q as int) * (q as int),
                r3 as int == 3 * (q2 as int),
                rhs as int == (r3 as int) * (w2 as int),
        ;
    }
    lhs >= rhs
}

/// Worst-case number of slots a traversal to `depth` can require below `c`,
/// from the reference viewpoint: one for the chunk itself plus, where the
/// reference test subdivides it, the slots of its four children.
pub open spec fn spec_slots_needed_inner(c: Chunk, depth: u8) -> int
    decreases depth - c.depth,
{
    if c.depth >= depth || !spec_needs_subdivision_ref(c) {
        1
    } else {
        let ch = c.spec_children();
        1 + spec_slots_needed_inner(ch[0], depth) + spec_slots_needed_inner(ch[1], depth)
            + spec_slots_needed_inner(ch[2], depth) + spec_slots_needed_inner(ch[3], depth)
    }
}

/// The per-face slot count is positive and below `4^(gap+1)`.
pub proof fn lemma_slots_needed_inner_bound(c: Chunk, depth: u8)
    requires
        c.wf(),
        c.depth <= depth <= MAX_QUERY_DEPTH,
    ensures
        1 <= spec_slots_needed_inner(c, depth) <= pow2((2 * (depth - c.depth) + 2) as nat) - 1,
    decreases depth - c.depth,
{
    vstd::arithmetic::power2::lemma_pow2_pos((2 * (depth - c.depth) + 2) as nat);
    vstd::arithmetic::power2::lemma2_to64();
    if c.depth >= depth || !spec_needs_subdivision_ref(c) {
    } else {
        let ch = c.spec_children();
        c.lemma_children_wf();
        lemma_slots_needed_inner_bound(ch[0], depth);
        lemma_slots_needed_inner_bound(ch[1], depth);
        lemma_slots_needed_inner_bound(ch[2], depth);
        lemma_slots_needed_inner_bound(ch[3], depth);
        vstd::arithmetic::power2::lemma_pow2_adds(
            (2 * (depth - c.depth - 1) + 2) as nat,
            2,
        );
        assert(pow2(2) == 4);
    }
}

/// Worst-case number of slots a traversal to `depth` can require below `c`.
pub fn slots_needed_inner(c: &Chunk, depth: u8) -> (r: u64)
    requires
        c.wf(),
        c.depth <= depth,
        depth <= MAX_QUERY_DEPTH,
    ensures
        r == spec_slots_needed_inner(*c, depth),
    decreases depth - c.depth,
{
    proof {
        lemma_slots_needed_inner_bound(*c, depth);
    }
    if c.depth == depth || !needs_subdivision_ref(c) {
        return 1;
    }
    let ch = c.subdivide();
    proof {
        c.lemma_children_wf();
        lemma_slots_needed_inner_bound(c.spec_children()[0], depth);
        lemma_slots_needed_inner_bound(c.spec_children()[1], depth);
        lemma_slots_needed_inner_bound(c.spec_children()[2], depth);
        lemma_slots_needed_inner_bound(c.spec_children()[3], depth);
        vstd::arithmetic::power2::lemma_pow2_strictly_increases(
            (2 * (depth - c.depth - 1) + 2) as nat,
            34,
        );
        vstd::arithmetic::power2::lemma2_to64_rest();
    }
    1 + slots_needed_inner(&ch[0], depth) + slots_needed_inner(&ch[1], depth)
        + slots_needed_inner(&ch[2], depth) + slots_needed_inner(&ch[3], depth)
}

/// Worst-case slot demand of a full traversal to `depth` from the reference
/// viewpoint: the sum over the six face roots.
pub open spec fn spec_slots_needed(depth: u8) -> int {
    spec_slots_needed_inner(Chunk { depth: 0, coords: Coords { coords: (0, 0), face: Face::PX } }, depth)
        + spec_slots_needed_inner(Chunk { depth: 0, coords: Coords { coords: (0, 0), face: Face::NX } }, depth)
        + spec_slots_needed_inner(Chunk { depth: 0, coords: Coords { coords: (0, 0), face: Face::PY } }, depth)
        + spec_slots_needed_inner(Chunk { depth: 0, coords: Coords { coords: (0, 0), face: Face::NY } }, depth)
        + spec_slots_needed_inner(Chunk { depth: 0, coords: Coords { coords: (0, 0), face: Face::PZ } }, depth)
        + spec_slots_needed_inner(Chunk { depth: 0, coords: Coords { coords: (0, 0), face: Face::NZ } }, depth)
}

/// Worst-case slot demand of a full traversal to `depth`.
pub fn slots_needed(depth: u8) -> (r: u64)
    requires
        depth <= MAX_QUERY_DEPTH,
    ensures
        r == spec_slots_needed(depth),
        r <= 0x18_0000_0000,
        depth < MAX_QUERY_DEPTH ==> r <= 0xC000_0000,
{
    proof {
        vstd::arithmetic::power2::lemma2_to64();
    }
    let roots = [
        Chunk::from_face(Face::PX),
        Chunk::from_face(Face::NX),
        Chunk::from_face(Face::PY),
        Chunk::from_face(Face::NY),
        Chunk::from_face(Face::PZ),
        Chunk::from_face(Face::NZ),
    ];
    proof {
        lemma_slots_needed_inner_bound(roots@[0], depth);
        lemma_slots_needed_inner_bound(roots@[1], depth);
        lemma_slots_needed_inner_bound(roots@[2], depth);
        lemma_slots_needed_inner_bound(roots@[3], depth);
        lemma_slots_needed_inner_bound(roots@[4], depth);
        lemma_slots_needed_inner_bound(roots@[5], depth);
        vstd::arithmetic::power2::lemma2_to64_rest();
        if ((2 * depth + 2) as nat) < 34 {
            vstd::arithmetic::power2::lemma_pow2_strictly_increases((2 * depth + 2) as nat, 34);
        }
    }
    slots_needed_inner(&roots[0], depth) + slots_needed_inner(&roots[1], depth)
        + slots_needed_inner(&roots[2], depth) + slots_needed_inner(&roots[3], depth)
        + slots_needed_inner(&roots[4], depth) + slots_needed_inner(&roots[5], depth)
}

impl Cache {
    /// Whether the chunk is resident with delivered data.
    fn is_ready(&self, c: &Chunk) -> (r: bool)
        requires
            self.wf(),
            cacheable(*c),
        ensures
            r == self.slot_ready(*c),
    {
        match self.get(c) {
            Some(id) => match &self.slots[id as usize] {
                Some(slot) => slot.ready,
                None => false,
            },
            None => false,
        }
    }

    /// One step of the quadtree walk: marks or requests the chunk's slot,
    /// then either renders the chunk or descends into its children, rendering
    /// the chunk as a stand-in when they are not all ready. Appends exactly
    /// what [`Cache::spec_walk`] says to the render and transfer lists, and
    /// marks exactly the slots it says.
    #[verifier::rlimit(60)]
    fn walk_inner(&mut self, chunk: ChunkInfo, viewpoints: &Vec<Vec3>)
        requires
            old(self).wf(),
            cacheable(chunk.chunk),
            chunk.chunk.depth <= old(self).max_depth,
            chunk.index == old(self).spec_get(chunk.chunk),
            forall|i: int| 0 <= i < viewpoints@.len() ==> view_ok(#[trigger] viewpoints@[i]),
        ensures
            final(self).wf(),
            final(self).slots@ == old(self).slots@,
            final(self).index@ == old(self).index@,
            final(self).capacity == old(self).capacity,
            final(self).max_depth == old(self).max_depth,
            final(self).used@.len() == old(self).used@.len(),
            final(self).render@ == old(self).render@ + old(self).spec_walk(
                chunk.chunk,
                chunk.renderable,
                viewpoints@,
            ).0,
            final(self).transfer@ == old(self).transfer@ + old(self).spec_walk(
                chunk.chunk,
                chunk.renderable,
                viewpoints@,
            ).1,
            forall|i: int|
                0 <= i < old(self).used@.len() ==> final(self).used@[i] == (old(self).used@[i]
                    || old(self).spec_walk(chunk.chunk, chunk.renderable, viewpoints@).2.contains(
                    i as u32,
                )),
            forall|i: int|
                old(self).render@.len() <= i < final(self).render@.len() ==> {
                    let c = #[trigger] final(self).render@[i];
                    &&& final(self).render_entry_ok(viewpoints@, c)
                    &&& cacheable(c)
                    &&& c.depth <= old(self).max_depth
                },
            forall|i: int|
                old(self).transfer@.len() <= i < final(self).transfer@.len() ==> {
                    let c = #[trigger] final(self).transfer@[i];
                    &&& final(self).spec_get(c) is None
                    &&& cacheable(c)
                    &&& c.depth <= old(self).max_depth
                },
        decreases old(self).max_depth - chunk.chunk.depth,
    {
        let ghost w = old(self).spec_walk(chunk.chunk, chunk.renderable, viewpoints@);
        match chunk.index {
            Some(id) => {
                self.used.set(id as usize, true);
            },
            None => {
                self.transfer.push(chunk.chunk);
                proof {
                    assert(self.transfer@ =~= old(self).transfer@ + seq![chunk.chunk]);
                }
            },
        }
        let subdivide = chunk.chunk.depth < self.max_depth && any_needs_subdivision(
            &chunk.chunk,
            viewpoints,
        );
        proof {
            assert(subdivide == spec_should_subdivide(
                chunk.chunk,
                viewpoints@,
                old(self).max_depth as int,
            ));
            match chunk.index {
                Some(id) => {
                    assert forall|i: int|
                        0 <= i < old(self).used@.len() implies self.used@[i] == (old(
                        self,
                    ).used@[i] || seq![id].contains(i as u32)) by {
                        if i == id {
                            assert(seq![id][0] == id);
                            assert(seq![id].contains(i as u32));
                        } else if seq![id].contains(i as u32) {
                            let m = choose|m: int|
                                0 <= m < 1 && seq![id][m] == i as u32;
                            assert(false);
                        }
                    }
                },
                None => {
                    assert(forall|x: u32| !Seq::<u32>::empty().contains(x));
                },
            }
        }
        if !subdivide {
            if chunk.renderable {
                self.render.push(chunk.chunk);
                proof {
                    assert(self.render@ =~= old(self).render@ + seq![chunk.chunk]);
                }
            } else {
                proof {
                    assert(self.render@ =~= old(self).render@ + Seq::<Chunk>::empty());
                }
            }
            proof {
                assert(self.transfer@ == old(self).transfer@ + w.1) by {
                    if old(self).spec_get(chunk.chunk) is None {
                    } else {
                        assert(self.transfer@ =~= old(self).transfer@ + Seq::<Chunk>::empty());
                    }
                }
            }
            return ;
        }
        let children = chunk.chunk.subdivide();
        let child_slots = [
            self.get(&children[0]),
            self.get(&children[1]),
            self.get(&children[2]),
            self.get(&children[3]),
        ];
        let children_renderable = chunk.renderable && self.is_ready(&children[0]) && self.is_ready(
            &children[1],
        ) && self.is_ready(&children[2]) && self.is_ready(&children[3]);
        proof {
            assert forall|i: int|
                0 <= i < 4 implies self.slot_ready(#[trigger] chunk.chunk.spec_children()[i])
                == old(self).slot_ready(children@[i]) by {}
            assert(children_renderable == (chunk.renderable && old(self).children_all_ready(
                chunk.chunk,
            ))) by {
                if chunk.renderable {
                    if children_renderable {
                        assert forall|i: int|
                            0 <= i < 4 implies old(self).slot_ready(
                            #[trigger] chunk.chunk.spec_children()[i],
                        ) by {}
                    }
                }
            }
        }
        let ghost here = if chunk.renderable && !children_renderable {
            seq![chunk.chunk]
        } else {
            Seq::<Chunk>::empty()
        };
        if chunk.renderable && !children_renderable {
            proof {
                assert(!self.children_all_ready(chunk.chunk)) by {
                    assert(self.slot_ready(chunk.chunk.spec_children()[0]) == self.slot_ready(
                        children@[0],
                    ));
                }
            }
            self.render.push(chunk.chunk);
            proof {
                assert(self.render@ =~= old(self).render@ + here);
            }
        } else {
            proof {
                assert(self.render@ =~= old(self).render@ + here);
            }
        }
        let ghost queued = if old(self).spec_get(chunk.chunk) is None {
            seq![chunk.chunk]
        } else {
            Seq::<Chunk>::empty()
        };
        let ghost marked = match old(self).spec_get(chunk.chunk) {
            Some(id) => seq![id],
            None => Seq::<u32>::empty(),
        };
        proof {
            assert(self.transfer@ == old(self).transfer@ + queued) by {
                if old(self).spec_get(chunk.chunk) is Some {
                    assert(self.transfer@ =~= old(self).transfer@ + queued);
                }
            }
        }
        let mut k: usize = 0;
        while k < 4
            invariant
                0 <= k <= 4,
                self.wf(),
                self.slots@ == old(self).slots@,
                self.index@ == old(self).index@,
                self.capacity == old(self).capacity,
                self.max_depth == old(self).max_depth,
                self.used@.len() == old(self).used@.len(),
                self.render@ == old(self).render@ + here + old(self).spec_walk_children(
                    chunk.chunk,
                    children_renderable,
                    viewpoints@,
                    k as int,
                ).0,
                self.transfer@ == old(self).transfer@ + queued + old(self).spec_walk_children(
                    chunk.chunk,
                    children_renderable,
                    viewpoints@,
                    k as int,
                ).1,
                forall|i: int|
                    0 <= i < old(self).used@.len() ==> self.used@[i] == (old(self).used@[i]
                        || marked.contains(i as u32) || old(self).spec_walk_children(
                        chunk.chunk,
                        children_renderable,
                        viewpoints@,
                        k as int,
                    ).2.contains(i as u32)),
                forall|i: int|
                    old(self).render@.len() <= i < self.render@.len() ==> {
                        let c = #[trigger] self.render@[i];
                        &&& self.render_entry_ok(viewpoints@, c)
                        &&& cacheable(c)
                        &&& c.depth <= old(self).max_depth
                    },
                forall|i: int|
                    old(self).transfer@.len() <= i < self.transfer@.len() ==> {
                        let c = #[trigger] self.transfer@[i];
                        &&& self.spec_get(c) is None
                        &&& cacheable(c)
                        &&& c.depth <= old(self).max_depth
                    },
                children@ == chunk.chunk.spec_children(),
                chunk.chunk.wf(),
                chunk.chunk.depth < old(self).max_depth,
                forall|i: int| 0 <= i < 4 ==> (#[trigger] children@[i]).wf(),
                forall|i: int|
                    0 <= i < 4 ==> #[trigger] child_slots@[i] == self.spec_get(children@[i]),
                forall|i: int| 0 <= i < viewpoints@.len() ==> view_ok(#[trigger] viewpoints@[i]),
            decreases 4 - k,
        {
            proof {
                assert(children@[k as int].depth == chunk.chunk.depth + 1);
            }
            let info = ChunkInfo {
                chunk: children[k],
                index: child_slots[k],
                renderable: children_renderable,
            };
            let ghost mid = *self;
            self.walk_inner(info, viewpoints);
            proof {
                mid.lemma_walk_stable(
                    *old(self),
                    children@[k as int],
                    children_renderable,
                    viewpoints@,
                );
                let ghost pk = old(self).spec_walk_children(
                    chunk.chunk,
                    children_renderable,
                    viewpoints@,
                    k as int,
                );
                let ghost wk = old(self).spec_walk(
                    children@[k as int],
                    children_renderable,
                    viewpoints@,
                );
                let ghost pk1 = old(self).spec_walk_children(
                    chunk.chunk,
                    children_renderable,
                    viewpoints@,
                    k + 1,
                );
                assert(pk1.0 == pk.0 + wk.0 && pk1.1 == pk.1 + wk.1 && pk1.2 == pk.2 + wk.2);
                assert(self.render@ =~= old(self).render@ + here + pk1.0);
                assert(self.transfer@ =~= old(self).transfer@ + queued + pk1.1);
                assert forall|i: int|
                    0 <= i < old(self).used@.len() implies self.used@[i] == (old(self).used@[i]
                    || marked.contains(i as u32) || pk1.2.contains(i as u32)) by {
                    assert((pk.2 + wk.2).contains(i as u32) <==> pk.2.contains(i as u32)
                        || wk.2.contains(i as u32));
                }
                assert forall|i: int|
                    old(self).render@.len() <= i < self.render@.len() implies {
                    let c = #[trigger] self.render@[i];
                    &&& self.render_entry_ok(viewpoints@, c)
                    &&& cacheable(c)
                    &&& c.depth <= old(self).max_depth
                } by {
                    if i < mid.render@.len() {
                        assert(self.render@[i] == mid.render@[i]);
                        mid.lemma_entry_ok_stable(*self, viewpoints@, mid.render@[i]);
                    }
                }
                assert forall|i: int|
                    old(self).transfer@.len() <= i < self.transfer@.len() implies {
                    let c = #[trigger] self.transfer@[i];
                    &&& self.spec_get(c) is None
                    &&& cacheable(c)
                    &&& c.depth <= old(self).max_depth
                } by {
                    if i < mid.transfer@.len() {
                        assert(self.transfer@[i] == mid.transfer@[i]);
                    }
                }
            }
            k = k + 1;
        }
        proof {
            assert(self.render@ == old(self).render@ + w.0);
            assert(self.transfer@ == old(self).transfer@ + w.1);
            assert forall|i: int|
                0 <= i < old(self).used@.len() implies self.used@[i] == (old(self).used@[i]
                || w.2.contains(i as u32)) by {
                let rest = old(self).spec_walk_children(
                    chunk.chunk,
                    children_renderable,
                    viewpoints@,
                    4,
                );
                assert((marked + rest.2).contains(i as u32) <==> marked.contains(i as u32)
                    || rest.2.contains(i as u32));
            }
        }
    }

    /// Rebuilds the render set by walking the quadtree from every face root:
    /// resident chunks are marked used, missing ones are queued for transfer,
    /// and the render set is crack-free: a chunk stands in it only if it is
    /// not subdivided for these viewpoints, or some child of it is not ready.
    /// The lists are pinned exactly: the render set becomes what
    /// [`Cache::spec_query`] says, the transfer list grows by exactly its
    /// queued chunks, and exactly its slots are marked used.
    pub fn query(&mut self, viewpoints: &Vec<Vec3>)
        requires
            old(self).wf(),
            forall|i: int| 0 <= i < viewpoints@.len() ==> view_ok(#[trigger] viewpoints@[i]),
        ensures
            final(self).wf(),
            final(self).slots@ == old(self).slots@,
            final(self).index@ == old(self).index@,
            final(self).capacity == old(self).capacity,
            final(self).max_depth == old(self).max_depth,
            final(self).used@.len() == old(self).used@.len(),
            final(self).render@ == old(self).spec_query(viewpoints@).0,
            final(self).transfer@ == old(self).transfer@ + old(self).spec_query(viewpoints@).1,
            forall|i: int|
                0 <= i < old(self).used@.len() ==> final(self).used@[i] == (old(self).used@[i]
                    || old(self).spec_query(viewpoints@).2.contains(i as u32)),
            forall|i: int|
                0 <= i < final(self).render@.len() ==> {
                    let c = #[trigger] final(self).render@[i];
                    &&& final(self).render_entry_ok(viewpoints@, c)
                    &&& cacheable(c)
                    &&& c.depth <= old(self).max_depth
                },
            old(self).transfer@.is_prefix_of(final(self).transfer@),
            forall|i: int|
                old(self).transfer@.len() <= i < final(self).transfer@.len() ==> {
                    let c = #[trigger] final(self).transfer@[i];
                    &&& final(self).spec_get(c) is None
                    &&& cacheable(c)
                    &&& c.depth <= old(self).max_depth
                },
    {
        self.render.clear();
        let faces = Face::iter();
        let mut k: usize = 0;
        while k < 6
            invariant
                0 <= k <= 6,
                self.wf(),
                self.slots@ == old(self).slots@,
                self.index@ == old(self).index@,
                self.capacity == old(self).capacity,
                self.max_depth == old(self).max_depth,
                self.used@.len() == old(self).used@.len(),
                self.render@ == old(self).spec_query_prefix(viewpoints@, k as int).0,
                self.transfer@ == old(self).transfer@ + old(self).spec_query_prefix(
                    viewpoints@,
                    k as int,
                ).1,
                forall|i: int|
                    0 <= i < old(self).used@.len() ==> self.used@[i] == (old(self).used@[i]
                        || old(self).spec_query_prefix(viewpoints@, k as int).2.contains(
                        i as u32,
                    )),
                forall|i: int|
                    0 <= i < self.render@.len() ==> {
                        let c = #[trigger] self.render@[i];
                        &&& self.render_entry_ok(viewpoints@, c)
                        &&& cacheable(c)
                        &&& c.depth <= old(self).max_depth
                    },
                old(self).transfer@.is_prefix_of(self.transfer@),
                forall|i: int|
                    old(self).transfer@.len() <= i < self.transfer@.len() ==> {
                        let c = #[trigger] self.transfer@[i];
                        &&& self.spec_get(c) is None
                        &&& cacheable(c)
                        &&& c.depth <= old(self).max_depth
                    },
                faces@ == Face::spec_all(),
                forall|i: int| 0 <= i < viewpoints@.len() ==> view_ok(#[trigger] viewpoints@[i]),
            decreases 6 - k,
        {
            proof {
                if k == 0 {
                    assert(self.render@ =~= Seq::<Chunk>::empty());
                    assert(self.transfer@ =~= old(self).transfer@ + Seq::<Chunk>::empty());
                }
            }
            let face_chunk = Chunk::from_face(faces[k]);
            let slot = self.get(&face_chunk);
            let renderable = self.is_ready(&face_chunk);
            let ghost mid = *self;
            self.walk_inner(
                ChunkInfo { chunk: face_chunk, index: slot, renderable },
                viewpoints,
            );
            proof {
                lemma_prefix_transitive(old(self).transfer@, mid.transfer@, self.transfer@);
                mid.lemma_walk_stable(*old(self), face_chunk, renderable, viewpoints@);
                let ghost pk = old(self).spec_query_prefix(viewpoints@, k as int);
                let ghost wk = old(self).spec_walk(face_chunk, renderable, viewpoints@);
                let ghost pk1 = old(self).spec_query_prefix(viewpoints@, k + 1);
                assert(renderable == old(self).slot_ready(face_chunk));
                assert(pk1.0 == pk.0 + wk.0 && pk1.1 == pk.1 + wk.1 && pk1.2 == pk.2 + wk.2);
                assert(self.render@ =~= pk1.0);
                assert(self.transfer@ =~= old(self).transfer@ + pk1.1);
                assert forall|i: int|
                    0 <= i < old(self).used@.len() implies self.used@[i] == (old(self).used@[i]
                    || pk1.2.contains(i as u32)) by {
                    assert((pk.2 + wk.2).contains(i as u32) <==> pk.2.contains(i as u32)
                        || wk.2.contains(i as u32));
                }
                assert forall|i: int|
                    0 <= i < self.render@.len() implies {
                    let c = #[trigger] self.render@[i];
                    &&& self.render_entry_ok(viewpoints@, c)
                    &&& cacheable(c)
                    &&& c.depth <= old(self).max_depth
                } by {
                    if i < mid.render@.len() {
                        assert(self.render@[i] == mid.render@[i]);
                        mid.lemma_entry_ok_stable(*self, viewpoints@, mid.render@[i]);
                    }
                }
                assert forall|i: int|
                    old(self).transfer@.len() <= i < self.transfer@.len() implies {
                    let c = #[trigger] self.transfer@[i];
                    &&& self.spec_get(c) is None
                    &&& cacheable(c)
                    &&& c.depth <= old(self).max_depth
                } by {
                    if i < mid.transfer@.len() {
                        assert(self.transfer@[i] == mid.transfer@[i]);
                    }
                }
            }
            k = k + 1;
        }
    }

    /// Frees slots that are not marked used and whose data has arrived, one
    /// by one in slot order, until the pending transfers fit in the free
    /// slots; transfers that still do not fit are dropped from the back of
    /// the list, and nothing is dropped or evicted beyond that.
    #[verifier::loop_isolation(false)]
    pub fn update(&mut self)
        requires
            old(self).wf(),
        ensures
            final(self).wf(),
            final(self).capacity == old(self).capacity,
            final(self).max_depth == old(self).max_depth,
            final(self).render@ == old(self).render@,
            final(self).used@ == old(self).used@,
            final(self).slots@.len() == old(self).slots@.len(),
            forall|i: int|
                0 <= i < old(self).slots@.len() && final(self).slots@[i] != old(self).slots@[i]
                    ==> {
                    &&& final(self).slots@[i] is None
                    &&& evictable((#[trigger] old(self).slots@[i]), old(self).used@[i])
                },
            final(self).transfer@ == old(self).transfer@.subrange(
                0,
                final(self).transfer@.len() as int,
            ),
            final(self).transfer@.len() == (if old(self).transfer@.len() <= free_count(
                old(self).slots@,
            ) + old(self).evictable_count() {
                old(self).transfer@.len() as int
            } else {
                free_count(old(self).slots@) + old(self).evictable_count()
            }),
            final(self).transfer@.len() <= free_count(final(self).slots@),
            free_count(old(self).slots@) >= old(self).transfer@.len() ==> {
                &&& final(self).slots@ == old(self).slots@
                &&& final(self).index@ == old(self).index@
                &&& final(self).transfer@ == old(self).transfer@
            },
    {
        proof {
            lemma_free_count_bounds(old(self).slots@);
        }
        let mut available: usize = self.count_free();
        let mut id: usize = 0;
        while id < self.capacity && available < self.transfer.len()
            invariant
                id <= self.capacity,
                self.wf(),
                self.capacity == old(self).capacity,
                self.max_depth == old(self).max_depth,
                self.render@ == old(self).render@,
                self.used@ == old(self).used@,
                self.transfer@ == old(self).transfer@,
                available == free_count(self.slots@),
                available <= self.capacity,
                available == free_count(old(self).slots@) + evictable_upto(
                    old(self).slots@,
                    old(self).used@,
                    id as int,
                ),
                available <= old(self).transfer@.len() || available == free_count(
                    old(self).slots@,
                ),
                self.slots@.len() == old(self).slots@.len(),
                forall|j: int| id <= j < self.capacity ==> self.slots@[j] == old(self).slots@[j],
                forall|j: int|
                    0 <= j < id ==> self.slots@[j] == (if evictable(
                        old(self).slots@[j],
                        old(self).used@[j],
                    ) {
                        None
                    } else {
                        old(self).slots@[j]
                    }),
                free_count(old(self).slots@) >= old(self).transfer@.len() ==> self.slots@ == old(
                    self,
                ).slots@ && self.index@ == old(self).index@,
            decreases self.capacity - id,
        {
            if !self.used[id] {
                let entry = self.slots[id];
                match entry {
                    Some(slot) => {
                        if slot.ready {
                            let key = chunk_key(&slot.chunk);
                            let ghost prev = *self;
                            self.slots.set(id, None);
                            self.index.remove(&key);
                            proof {
                                lemma_free_count_update(prev.slots@, id as int, None);
                                lemma_free_count_bounds(self.slots@);
                                self.lemma_wf_after_remove(prev, id as int);
                            }
                            available = available + 1;
                        }
                    },
                    None => {},
                }
            }
            id = id + 1;
        }
        proof {
            lemma_evictable_upto_monotone(
                old(self).slots@,
                old(self).used@,
                id as int,
                self.capacity as int,
            );
            if !(id < self.capacity) {
                assert(evictable_upto(old(self).slots@, old(self).used@, id as int) == old(
                    self,
                ).evictable_count());
            }
        }
        let ghost pre_truncate = self.transfer@;
        self.transfer.truncate(available);
        proof {
            if available <= pre_truncate.len() {
                assert(self.transfer@ == old(self).transfer@.subrange(0, available as int));
            } else {
                assert(self.transfer@ =~= old(self).transfer@.subrange(
                    0,
                    self.transfer@.len() as int,
                ));
            }
        }
    }

    /// Number of free slots.
    #[verifier::loop_isolation(false)]
    fn count_free(&self) -> (r: usize)
        requires
            self.wf(),
        ensures
            r == free_count(self.slots@),
            r <= self.capacity,
    {
        let mut count: usize = 0;
        let mut i: usize = 0;
        proof {
            lemma_free_count_bounds(self.slots@);
        }
        while i < self.capacity
            invariant
                i <= self.capacity,
                count == free_count(self.slots@.subrange(0, i as int)),
                count <= i,
            decreases self.capacity - i,
        {
            proof {
                lemma_free_count_step(self.slots@, i as int);
            }
            if self.slots[i].is_none() {
                count = count + 1;
            }
            i = i + 1;
        }
        proof {
            assert(self.slots@.subrange(0, self.capacity as int) =~= self.slots@);
        }
        count
    }

    /// After unbinding an occupied slot, the bijection holds again.
    proof fn lemma_wf_after_remove(self, prev: Cache, id: int)
        requires
            prev.wf(),
            0 <= id < prev.capacity,
            prev.slots@[id] is Some,
            self.slots@ == prev.slots@.update(id, None),
            self.index@ == prev.index@.remove(
                spec_chunk_key(prev.slots@[id]->Some_0.chunk) as u64,
            ),
            self.used@ == prev.used@,
            self.capacity == prev.capacity,
            self.max_depth == prev.max_depth,
        ensures
            self.wf(),
    {
        let key = spec_chunk_key(prev.slots@[id]->Some_0.chunk) as u64;
        assert forall|k: u64| #[trigger] self.index@.contains_key(k) implies {
            &&& self.index@[k] < self.capacity
            &&& self.slots@[self.index@[k] as int] is Some
            &&& spec_chunk_key(self.slots@[self.index@[k] as int]->Some_0.chunk) == k
        } by {
            assert(prev.index@.contains_key(k));
            assert(k != key);
            if prev.index@[k] == id {
                assert(spec_chunk_key(prev.slots@[id]->Some_0.chunk) == k);
            }
        }
    }
}

impl Cache {
    /// Render admissibility depends only on the slot storage, the index and
    /// the depth limit.
    proof fn lemma_entry_ok_stable(self, other: Cache, vps: Seq<Vec3>, c: Chunk)
        requires
            self.slots@ == other.slots@,
            self.index@ == other.index@,
            self.max_depth == other.max_depth,
        ensures
            self.render_entry_ok(vps, c) == other.render_entry_ok(vps, c),
    {
        assert forall|i: int| 0 <= i < 4 implies self.slot_ready(#[trigger] c.spec_children()[i])
            == other.slot_ready(c.spec_children()[i]) by {}
        if self.children_all_ready(c) {
            assert(other.children_all_ready(c));
        }
        if other.children_all_ready(c) {
            assert(self.children_all_ready(c));
        }
    }
}

impl Cache {
    /// Number of resident chunks: occupied slots.
    pub open spec fn resident_count(self) -> int {
        self.slots@.len() - free_count(self.slots@)
    }

    /// Number of slots an update may free: ready and not marked used.
    pub open spec fn evictable_count(self) -> int {
        evictable_upto(self.slots@, self.used@, self.slots@.len() as int)
    }
}

/// Capacity invariant: a well-formed cache never holds more resident chunks
/// than its capacity, whatever sequence of queries, updates, allocations,
/// releases and clears produced it — residents live only in the fixed slots.
pub proof fn lemma_resident_within_capacity(c: Cache)
    requires
        c.wf(),
    ensures
        0 <= c.resident_count() <= c.capacity,
{
    lemma_free_count_bounds(c.slots@);
}

/// Sequence prefixing is transitive.
proof fn lemma_prefix_transitive(a: Seq<Chunk>, b: Seq<Chunk>, c: Seq<Chunk>)
    requires
        a.is_prefix_of(b),
        b.is_prefix_of(c),
    ensures
        a.is_prefix_of(c),
{
    assert(a =~= c.subrange(0, a.len() as int));
}

/// Whether any viewpoint of the list triggers subdivision of the chunk.
fn any_needs_subdivision(chunk: &Chunk, viewpoints: &Vec<Vec3>) -> (r: bool)
    requires
        chunk.wf(),
        chunk.depth <= MAX_QUERY_DEPTH,
        forall|i: int| 0 <= i < viewpoints@.len() ==> view_ok(#[trigger] viewpoints@[i]),
    ensures
        r == exists|i: int|
            0 <= i < viewpoints@.len() && spec_needs_subdivision(*chunk, #[trigger] viewpoints@[i]),
{
    let mut k: usize = 0;
    while k < viewpoints.len()
        invariant
            k <= viewpoints@.len(),
            chunk.wf(),
            chunk.depth <= MAX_QUERY_DEPTH,
            forall|i: int| 0 <= i < viewpoints@.len() ==> view_ok(#[trigger] viewpoints@[i]),
            forall|i: int| 0 <= i < k ==> !spec_needs_subdivision(*chunk, #[trigger] viewpoints@[i]),
        decreases viewpoints@.len() - k,
    {
        if needs_subdivision(chunk, &viewpoints[k]) {
            return true;
        }
        k = k + 1;
    }
    false
}

/// The quadtree node one level above `c`.
pub open spec fn spec_parent(c: Chunk) -> Chunk
    recommends
        c.depth > 0,
{
    Chunk {
        depth: (c.depth - 1) as u8,
        coords: Coords {
            coords: (
                (c.coords.coords.0 as int / 2) as u32,
                (c.coords.coords.1 as int / 2) as u32,
            ),
            face: c.coords.face,
        },
    }
}

/// `c` lies in the quadtree below `a`: dropping `c`'s extra depth levels of
/// coordinate detail recovers `a`.
pub open spec fn in_subtree(a: Chunk, c: Chunk) -> bool {
    &&& a.depth <= c.depth
    &&& c.coords.face == a.coords.face
    &&& c.coords.coords.0 as int / pow2((c.depth - a.depth) as nat) as int == a.coords.coords.0
    &&& c.coords.coords.1 as int / pow2((c.depth - a.depth) as nat) as int == a.coords.coords.1
}

/// No chunk of the sequence is the direct parent of another (or of itself).
pub open spec fn no_parent_pairs(s: Seq<Chunk>) -> bool {
    forall|i: int, j: int|
        0 <= i < s.len() && 0 <= j < s.len() && (#[trigger] s[j]).depth > 0 ==> #[trigger] s[i]
            != spec_parent(s[j])
}

/// Every chunk is in its own subtree.
pub proof fn lemma_in_subtree_refl(c: Chunk)
    ensures
        in_subtree(c, c),
{
    vstd::arithmetic::power2::lemma2_to64();
    vstd::arithmetic::div_mod::lemma_div_basics(c.coords.coords.0 as int);
    vstd::arithmetic::div_mod::lemma_div_basics(c.coords.coords.1 as int);
}

/// A chunk below one of `c`'s children is below `c`.
pub proof fn lemma_child_subtree(c: Chunk, idx: int, e: Chunk)
    requires
        c.wf(),
        c.depth < crate::chunk::MAX_DEPTH,
        0 <= idx < 4,
        in_subtree(c.spec_children()[idx], e),
    ensures
        in_subtree(c, e),
        e.depth > c.depth,
{
    let ch = c.spec_children()[idx];
    Cache::lemma_child_depth(c, idx);
    c.lemma_children_wf();
    let k = (e.depth - ch.depth) as nat;
    vstd::arithmetic::power2::lemma_pow2_adds(k, 1);
    vstd::arithmetic::power2::lemma_pow2_pos(k);
    vstd::arithmetic::power2::lemma2_to64();
    vstd::arithmetic::div_mod::lemma_div_denominator(
        e.coords.coords.0 as int,
        pow2(k) as int,
        2,
    );
    vstd::arithmetic::div_mod::lemma_div_denominator(
        e.coords.coords.1 as int,
        pow2(k) as int,
        2,
    );
    lemma_halving_child(c.coords.coords.0 as int, ch.coords.coords.0 as int);
    lemma_halving_child(c.coords.coords.1 as int, ch.coords.coords.1 as int);
}

/// A child coordinate halves back to its parent coordinate.
proof fn lemma_halving_child(x: int, cx: int)
    requires
        cx == 2 * x || cx == 2 * x + 1,
        x >= 0,
    ensures
        cx / 2 == x,
{
    if cx == 2 * x {
        vstd::arithmetic::div_mod::lemma_fundamental_div_mod_converse(cx, 2, x, 0);
    } else {
        vstd::arithmetic::div_mod::lemma_fundamental_div_mod_converse(cx, 2, x, 1);
    }
}

/// The parent of a chunk strictly below `a` is still below `a` (or is `a`).
pub proof fn lemma_parent_in_subtree(a: Chunk, e: Chunk)
    requires
        in_subtree(a, e),
        e.depth > a.depth,
    ensures
        in_subtree(a, spec_parent(e)),
{
    let k = (e.depth - a.depth - 1) as nat;
    vstd::arithmetic::power2::lemma_pow2_adds(1, k);
    vstd::arithmetic::power2::lemma_pow2_pos(k);
    vstd::arithmetic::power2::lemma2_to64();
    vstd::arithmetic::div_mod::lemma_div_denominator(e.coords.coords.0 as int, 2, pow2(k) as int);
    vstd::arithmetic::div_mod::lemma_div_denominator(e.coords.coords.1 as int, 2, pow2(k) as int);
    vstd::arithmetic::div_mod::lemma_div_pos_is_pos(e.coords.coords.0 as int, 2);
    vstd::arithmetic::div_mod::lemma_div_pos_is_pos(e.coords.coords.1 as int, 2);
    vstd::arithmetic::div_mod::lemma_div_nonincreasing(e.coords.coords.0 as int, 2);
    vstd::arithmetic::div_mod::lemma_div_nonincreasing(e.coords.coords.1 as int, 2);
}

/// A chunk has at most one ancestor at each depth.
pub proof fn lemma_subtree_unique(a: Chunk, b: Chunk, e: Chunk)
    requires
        in_subtree(a, e),
        in_subtree(b, e),
        a.depth == b.depth,
    ensures
        a == b,
{
}

/// The parent of each of `c`'s children is `c`, and the children are
/// pairwise distinct.
pub proof fn lemma_children_parent(c: Chunk)
    requires
        c.wf(),
        c.depth < crate::chunk::MAX_DEPTH,
    ensures
        forall|idx: int|
            0 <= idx < 4 ==> spec_parent(#[trigger] c.spec_children()[idx]) == c,
        forall|i: int, j: int|
            0 <= i < 4 && 0 <= j < 4 && i != j ==> c.spec_children()[i] != c.spec_children()[j],
{
    c.lemma_children_wf();
    assert forall|idx: int|
        0 <= idx < 4 implies spec_parent(#[trigger] c.spec_children()[idx]) == c by {
        Cache::lemma_child_depth(c, idx);
        lemma_halving_child(c.coords.coords.0 as int, c.spec_children()[idx].coords.coords.0 as int);
        lemma_halving_child(c.coords.coords.1 as int, c.spec_children()[idx].coords.coords.1 as int);
    }
}

impl Cache {
    /// A walk that may not render produces no render entries.
    pub proof fn lemma_walk_unrenderable(self, c: Chunk, vps: Seq<Vec3>)
        ensures
            self.spec_walk(c, false, vps).0 == Seq::<Chunk>::empty(),
        decreases self.max_depth - c.depth, 5int,
    {
        if spec_should_subdivide(c, vps, self.max_depth as int) {
            self.lemma_walk_children_unrenderable(c, vps, 4);
            assert(self.spec_walk(c, false, vps).0 =~= Seq::<Chunk>::empty());
        } else {
            assert(self.spec_walk(c, false, vps).0 =~= Seq::<Chunk>::empty());
        }
    }

    /// Companion of [`Cache::lemma_walk_unrenderable`] for the children.
    pub proof fn lemma_walk_children_unrenderable(self, c: Chunk, vps: Seq<Vec3>, k: int)
        ensures
            self.spec_walk_children(c, false, vps, k).0 == Seq::<Chunk>::empty(),
        decreases self.max_depth - c.depth, k,
    {
        if !(k <= 0 || k > 4 || c.depth >= self.max_depth) {
            Self::lemma_child_depth(c, k - 1);
            self.lemma_walk_children_unrenderable(c, vps, k - 1);
            self.lemma_walk_unrenderable(c.spec_children()[k - 1], vps);
            assert(self.spec_walk_children(c, false, vps, k).0 =~= Seq::<Chunk>::empty());
        } else {
            assert(self.spec_walk_children(c, false, vps, k).0 =~= Seq::<Chunk>::empty());
        }
    }

    /// The render entries of a walk all lie below its chunk, and none is the
    /// parent of another: a rendered stand-in never coexists with entries
    /// from the subtree it stands in for.
    pub proof fn lemma_walk_render_shape(self, c: Chunk, renderable: bool, vps: Seq<Vec3>)
        requires
            c.wf(),
            self.max_depth <= MAX_QUERY_DEPTH,
        ensures
            no_parent_pairs(self.spec_walk(c, renderable, vps).0),
            forall|j: int|
                0 <= j < self.spec_walk(c, renderable, vps).0.len() ==> in_subtree(
                    c,
                    #[trigger] self.spec_walk(c, renderable, vps).0[j],
                ),
        decreases self.max_depth - c.depth, 5int,
    {
        let w = self.spec_walk(c, renderable, vps);
        lemma_in_subtree_refl(c);
        if !spec_should_subdivide(c, vps, self.max_depth as int) {
            assert forall|i: int, j: int|
                0 <= i < w.0.len() && 0 <= j < w.0.len() && (#[trigger] w.0[j]).depth
                    > 0 implies #[trigger] w.0[i] != spec_parent(w.0[j]) by {
                assert(spec_parent(w.0[j]).depth != w.0[i].depth);
            }
        } else {
            let cr = renderable && self.children_all_ready(c);
            let rest = self.spec_walk_children(c, cr, vps, 4);
            if renderable && !cr {
                self.lemma_walk_children_unrenderable(c, vps, 4);
                assert(w.0 =~= seq![c]);
                assert forall|i: int, j: int|
                    0 <= i < w.0.len() && 0 <= j < w.0.len() && (#[trigger] w.0[j]).depth
                        > 0 implies #[trigger] w.0[i] != spec_parent(w.0[j]) by {
                    assert(spec_parent(w.0[j]).depth != w.0[i].depth);
                }
            } else {
                self.lemma_walk_children_shape(c, cr, vps, 4);
                assert(w.0 =~= rest.0);
                assert forall|j: int|
                    0 <= j < w.0.len() implies in_subtree(c, #[trigger] w.0[j]) by {
                    let idx = choose|idx: int|
                        0 <= idx < 4 && in_subtree(c.spec_children()[idx], rest.0[j]);
                    lemma_child_subtree(c, idx, rest.0[j]);
                }
            }
        }
    }

    /// Companion of [`Cache::lemma_walk_render_shape`] for the children: the
    /// concatenated child walks render only chunks below some child, with no
    /// parent pair among them.
    #[verifier::rlimit(80)]
    pub proof fn lemma_walk_children_shape(self, c: Chunk, cr: bool, vps: Seq<Vec3>, k: int)
        requires
            c.wf(),
            self.max_depth <= MAX_QUERY_DEPTH,
        ensures
            no_parent_pairs(self.spec_walk_children(c, cr, vps, k).0),
            forall|j: int|
                0 <= j < self.spec_walk_children(c, cr, vps, k).0.len() ==> exists|idx: int|
                    0 <= idx < k && in_subtree(
                        c.spec_children()[idx],
                        #[trigger] self.spec_walk_children(c, cr, vps, k).0[j],
                    ),
        decreases self.max_depth - c.depth, k,
    {
        if !(k <= 0 || k > 4 || c.depth >= self.max_depth) {
            Self::lemma_child_depth(c, k - 1);
            c.lemma_children_wf();
            lemma_children_parent(c);
            let prev = self.spec_walk_children(c, cr, vps, k - 1).0;
            let ch = c.spec_children()[k - 1];
            let w = self.spec_walk(ch, cr, vps).0;
            let all = self.spec_walk_children(c, cr, vps, k).0;
            self.lemma_walk_children_shape(c, cr, vps, k - 1);
            self.lemma_walk_render_shape(ch, cr, vps);
            assert(all == prev + w);
            assert forall|j: int|
                0 <= j < all.len() implies exists|idx: int|
                0 <= idx < k && in_subtree(c.spec_children()[idx], #[trigger] all[j]) by {
                if j < prev.len() {
                    assert(all[j] == prev[j]);
                    let idx = choose|idx: int|
                        0 <= idx < k - 1 && in_subtree(c.spec_children()[idx], prev[j]);
                    assert(in_subtree(c.spec_children()[idx], all[j]));
                } else {
                    assert(all[j] == w[j - prev.len()]);
                    assert(in_subtree(c.spec_children()[k - 1], all[j]));
                }
            }
            assert forall|i: int, j: int|
                0 <= i < all.len() && 0 <= j < all.len() && (#[trigger] all[j]).depth
                    > 0 implies #[trigger] all[i] != spec_parent(all[j]) by {
                let e = all[i];
                let f = all[j];
                let ia = choose|idx: int|
                    0 <= idx < k && in_subtree(c.spec_children()[idx], all[i]);
                let ja = choose|idx: int|
                    0 <= idx < k && in_subtree(c.spec_children()[idx], all[j]);
                if i < prev.len() && j < prev.len() {
                    assert(all[i] == prev[i] && all[j] == prev[j]);
                } else if i >= prev.len() && j >= prev.len() {
                    assert(all[i] == w[i - prev.len()] && all[j] == w[j - prev.len()]);
                } else {
                    // Entries of different child subtrees: a parent of one
                    // stays in its subtree or is `c` itself, which lies above
                    // every entry.
                    let a = c.spec_children()[ia];
                    let b = c.spec_children()[ja];
                    if e == spec_parent(f) {
                        lemma_child_subtree(c, ia, e);
                        lemma_child_subtree(c, ja, f);
                        if f.depth == b.depth {
                            lemma_in_subtree_refl(f);
                            lemma_subtree_unique(b, f, f);
                            assert(spec_parent(f) == c);
                            assert(e.depth > c.depth);
                        } else {
                            lemma_parent_in_subtree(b, f);
                            lemma_in_subtree_refl(e);
                            if e.depth == a.depth {
                                lemma_subtree_unique(a, e, e);
                                lemma_subtree_unique(e, b, spec_parent(f));
                            } else {
                                lemma_parent_in_subtree(a, e);
                                lemma_subtree_unique(a, b, spec_parent(f));
                            }
                        }
                        assert(false);
                    }
                }
            }
        } else {
            let all = self.spec_walk_children(c, cr, vps, k).0;
            assert(all.len() == 0);
        }
    }

    /// The render set a query builds from the first `k` faces: every entry
    /// lies below one of those face roots, and no entry is another's parent.
    #[verifier::rlimit(80)]
    pub proof fn lemma_query_prefix_render_shape(self, vps: Seq<Vec3>, k: int)
        requires
            self.max_depth <= MAX_QUERY_DEPTH,
            k <= 6,
        ensures
            no_parent_pairs(self.spec_query_prefix(vps, k).0),
            forall|j: int|
                0 <= j < self.spec_query_prefix(vps, k).0.len() ==> exists|fi: int|
                    0 <= fi < k && in_subtree(
                        Chunk {
                            depth: 0,
                            coords: Coords { coords: (0, 0), face: Face::spec_all()[fi] },
                        },
                        #[trigger] self.spec_query_prefix(vps, k).0[j],
                    ),
        decreases k,
    {
        if k > 0 {
            self.lemma_query_prefix_render_shape(vps, k - 1);
            let root = Chunk {
                depth: 0,
                coords: Coords { coords: (0, 0), face: Face::spec_all()[k - 1] },
            };
            vstd::arithmetic::power2::lemma2_to64();
            assert(root.wf());
            self.lemma_walk_render_shape(root, self.slot_ready(root), vps);
            let prev = self.spec_query_prefix(vps, k - 1).0;
            let w = self.spec_walk(root, self.slot_ready(root), vps).0;
            let all = self.spec_query_prefix(vps, k).0;
            assert(all == prev + w);
            assert forall|j: int|
                0 <= j < all.len() implies exists|fi: int|
                0 <= fi < k && in_subtree(
                    Chunk {
                        depth: 0,
                        coords: Coords { coords: (0, 0), face: Face::spec_all()[fi] },
                    },
                    #[trigger] all[j],
                ) by {
                if j < prev.len() {
                    assert(all[j] == prev[j]);
                    let fi = choose|fi: int|
                        0 <= fi < k - 1 && in_subtree(
                            Chunk {
                                depth: 0,
                                coords: Coords { coords: (0, 0), face: Face::spec_all()[fi] },
                            },
                            prev[j],
                        );
                    assert(in_subtree(
                        Chunk {
                            depth: 0,
                            coords: Coords { coords: (0, 0), face: Face::spec_all()[fi] },
                        },
                        all[j],
                    ));
                } else {
                    assert(all[j] == w[j - prev.len()]);
                    assert(in_subtree(root, all[j]));
                }
            }
            assert forall|i: int, j: int|
                0 <= i < all.len() && 0 <= j < all.len() && (#[trigger] all[j]).depth
                    > 0 implies #[trigger] all[i] != spec_parent(all[j]) by {
                if i < prev.len() && j < prev.len() {
                    assert(all[i] == prev[i] && all[j] == prev[j]);
                } else if i >= prev.len() && j >= prev.len() {
                    assert(all[i] == w[i - prev.len()] && all[j] == w[j - prev.len()]);
                } else {
                    // Entries under different faces: a parent keeps its face.
                    let fi = choose|fi: int|
                        0 <= fi < k && in_subtree(
                            Chunk {
                                depth: 0,
                                coords: Coords { coords: (0, 0), face: Face::spec_all()[fi] },
                            },
                            all[i],
                        );
                    let fj = choose|fj: int|
                        0 <= fj < k && in_subtree(
                            Chunk {
                                depth: 0,
                                coords: Coords { coords: (0, 0), face: Face::spec_all()[fj] },
                            },
                            all[j],
                        );
                    if all[i] == spec_parent(all[j]) {
                        assert(all[i].coords.face == Face::spec_all()[fi]);
                        assert(all[j].coords.face == Face::spec_all()[fj]);
                        assert(spec_parent(all[j]).coords.face == all[j].coords.face);
                    }
                }
            }
        }
    }
}

/// Crack-free exclusion for the whole render set: the render list a query
/// builds never holds a chunk together with that chunk's parent (and hence
/// never a chunk together with all four of its children).
pub proof fn lemma_query_render_no_parent_pairs(c: Cache, vps: Seq<Vec3>)
    requires
        c.max_depth <= MAX_QUERY_DEPTH,
    ensures
        no_parent_pairs(c.spec_query(vps).0),
{
    c.lemma_query_prefix_render_shape(vps, 6);
}

} // verus!
