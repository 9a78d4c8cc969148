use planetcore::coords::Coords;
use planetcore::face::Face;
use planetcore::vect::Vec3;
use planetcore::EntityId;

#[test]
fn face_from_vector_picks_dominant_axis() {
    assert_eq!(Face::from_vector(&Vec3::new(5, 1, -2)), Face::PX);
    assert_eq!(Face::from_vector(&Vec3::new(-5, 1, -2)), Face::NX);
    assert_eq!(Face::from_vector(&Vec3::new(1, 7, 3)), Face::PY);
    assert_eq!(Face::from_vector(&Vec3::new(1, -7, 3)), Face::NY);
    assert_eq!(Face::from_vector(&Vec3::new(1, 2, 5)), Face::PZ);
    assert_eq!(Face::from_vector(&Vec3::new(1, 2, -5)), Face::NZ);
}

#[test]
fn face_frames_are_inverse() {
    for face in Face::iter() {
        let v = Vec3::new(3, -4, 5);
        assert_eq!(face.world_to_local(face.local_to_world(v)), v);
        assert_eq!(face.local_to_world(face.world_to_local(v)), v);
    }
}

#[test]
fn face_opposite_flips() {
    assert_eq!(Face::PX.opposite(), Face::NX);
    assert_eq!(Face::NZ.opposite(), Face::PZ);
    for face in Face::iter() {
        assert_eq!(face.opposite().opposite(), face);
    }
}

#[test]
fn from_vector_discretizes() {
    // local x coordinate (1 + 5) / (2 * 5) = 0.6 -> cell 2 of 4;
    // local y coordinate (2 + 5) / (2 * 5) = 0.7 -> cell 2 of 4.
    let c = Coords::from_vector(4, &Vec3::new(1, 2, 5));
    assert_eq!(c.face, Face::PZ);
    assert_eq!(c.coords, (2, 2));
}

#[test]
fn midpoint_round_trips() {
    // Round-trip addressing at a midpoint is exact, on every face.
    for face in Face::iter() {
        for &res in &[1u32, 4, 16, 256] {
            let c = Coords {
                coords: (res / 3, res - 1),
                face,
            };
            let dir = c.midpoint_direction(res);
            assert_eq!(Coords::from_vector(res, &dir), c);
        }
    }
}

#[test]
fn samples_cover_grid() {
    let c = Coords {
        coords: (1, 2),
        face: Face::PY,
    };
    let s = c.samples(4, 3);
    assert_eq!(s.len(), 9);
    // Row-major with x fastest: entry (x, y) sits at y * 3 + x.
    let sxy = c.samples_xy(4, 3);
    assert_eq!(sxy.len(), 9);
    for y in 0..3u32 {
        for x in 0..3u32 {
            let i = (y * 3 + x) as usize;
            assert_eq!(sxy[i].1, (x, y));
            assert_eq!(sxy[i].0, s[i]);
        }
    }
    // Corner samples are the corner rays of the cell.
    let corner = c.direction(4, 0, 0, 2);
    assert_eq!(s[0], corner);
}

#[test]
fn entity_ids_wrap_numbers() {
    let id = EntityId::from(7u32);
    assert_eq!(id, EntityId(7));
    assert!(EntityId(3) < EntityId(4));
}
