use planetcore::cache::{needs_subdivision, needs_subdivision_ref, slots_needed, Cache, VIEW_SCALE};
use planetcore::chunk::Chunk;
use planetcore::face::Face;
use planetcore::vect::Vec3;

fn unit_viewpoint(x: i64, y: i64, z: i64) -> Vec3 {
    Vec3::new(x * VIEW_SCALE, y * VIEW_SCALE, z * VIEW_SCALE)
}

#[test]
fn subdivision_angular_test() {
    let root = Chunk::from_face(Face::PZ);
    // At distance 2 the root face subtends atan(1/1) = 45 degrees, above the
    // threshold atan(1/sqrt(10)).
    assert!(needs_subdivision(&root, &unit_viewpoint(0, 0, 2)));
    // At distance 10 it subtends atan(1/9), below the threshold.
    assert!(!needs_subdivision(&root, &unit_viewpoint(0, 0, 10)));
    // A chunk whose centre points away from the viewpoint is never split.
    let back = Chunk::from_face(Face::NZ);
    assert!(!needs_subdivision(&back, &unit_viewpoint(0, 0, 2)));
}

#[test]
fn reference_test_splits_near_faces_only() {
    // The reference viewpoint lies along (1,1,1): faces turned away from it
    // are not subdivided.
    assert!(needs_subdivision_ref(&Chunk::from_face(Face::PX)));
    assert!(!needs_subdivision_ref(&Chunk::from_face(Face::NX)));
    assert!(!needs_subdivision_ref(&Chunk::from_face(Face::NY)));
    assert!(!needs_subdivision_ref(&Chunk::from_face(Face::NZ)));
}

#[test]
fn slots_needed_counts_roots_at_depth_zero() {
    // With no subdivision allowed, one slot per face.
    assert_eq!(slots_needed(0), 6);
    // Deeper traversals only ever need more.
    let mut prev = 6;
    for depth in 1..6u8 {
        let n = slots_needed(depth);
        assert!(n >= prev);
        prev = n;
    }
}

#[test]
fn streaming_scenario_single_viewpoint() {
    // A cache of max depth 5 queried from one viewpoint ten radii out along
    // +z: the six roots are requested, the +z root is allocated first,
    // released data makes it renderable, and no transfer remains pending.
    let mut cache = Cache::new(5);
    assert_eq!(cache.capacity as u64, slots_needed(5));
    assert!(cache.capacity >= 6);

    let viewpoints = vec![unit_viewpoint(0, 0, 10)];
    cache.query(&viewpoints);
    // No slot is resident yet: every root is requested, nothing rendered.
    assert_eq!(cache.transfer.len(), 6);
    assert_eq!(cache.render.len(), 0);

    cache.update();
    // Capacity suffices, so no request is dropped.
    assert_eq!(cache.transfer.len(), 6);

    // Allocate the +z root's slot first.
    let pz_root = Chunk::from_face(Face::PZ);
    let pz_slot = cache.allocate(pz_root).unwrap();
    assert_eq!(cache.get(&pz_root), Some(pz_slot));
    cache.release(pz_slot);

    // Allocate and fill the remaining roots.
    for face in Face::iter() {
        if face != Face::PZ {
            let slot = cache.allocate(Chunk::from_face(face)).unwrap();
            cache.release(slot);
        }
    }

    cache.clear();
    cache.query(&viewpoints);
    // Everything is resident and ready: nothing to transfer, and the +z root
    // (not refined at this distance) is in the render set.
    assert_eq!(cache.transfer.len(), 0);
    assert!(cache.render.contains(&pz_root));
    assert_eq!(cache.render.len(), 6);

    cache.update();
    assert_eq!(cache.transfer.len(), 0);
}

#[test]
fn eviction_spares_used_slots() {
    let mut cache = Cache::new(0);
    assert_eq!(cache.capacity, 6);
    let viewpoints = vec![unit_viewpoint(0, 0, 10)];
    cache.query(&viewpoints);
    for face in Face::iter() {
        let slot = cache.allocate(Chunk::from_face(face)).unwrap();
        cache.release(slot);
    }
    cache.clear();
    cache.query(&viewpoints);
    // All six roots are marked used; update must not evict any of them.
    cache.update();
    for face in Face::iter() {
        assert!(cache.get(&Chunk::from_face(face)).is_some());
    }
}

#[test]
fn allocate_fails_only_when_full() {
    let mut cache = Cache::new(1);
    let mut chunks = Vec::new();
    for face in Face::iter() {
        let root = Chunk::from_face(face);
        chunks.push(root);
        for child in root.subdivide() {
            chunks.push(child);
        }
    }
    let mut allocated = 0;
    let mut refused = 0;
    for chunk in chunks {
        match cache.allocate(chunk) {
            Some(_) => allocated += 1,
            None => refused += 1,
        }
    }
    // Exactly the capacity is granted; the surplus requests are refused.
    assert_eq!(allocated, cache.capacity);
    assert_eq!(refused, 30 - cache.capacity);
}

#[test]
fn update_drops_only_the_over_budget_transfers() {
    // A close viewpoint refines five faces at depth one: more chunks are
    // requested than the cache sized for the reference viewpoint can hold,
    // and update truncates the request list to exactly the free slots.
    let mut cache = Cache::new(1);
    assert_eq!(cache.capacity, 18);
    let close = vec![Vec3::new(0, 0, (VIEW_SCALE * 105) / 100)];
    cache.query(&close);
    assert!(cache.transfer.len() > cache.capacity);
    let requested = cache.transfer.clone();
    cache.update();
    // Nothing was resident, so all capacity is free; the surplus is dropped
    // from the back, keeping the walk order.
    assert_eq!(cache.transfer.len(), cache.capacity);
    assert_eq!(cache.transfer[..], requested[..cache.capacity]);
    for chunk in cache.transfer.clone() {
        assert!(cache.allocate(chunk).is_some());
    }
    // The store is now full: any further chunk is refused.
    assert!(cache.allocate(requested[cache.capacity]).is_none());
}
