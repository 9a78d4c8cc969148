use planetcore::chunk::Chunk;
use planetcore::coords::Coords;
use planetcore::face::Face;
use planetcore::vect::Vec3;

#[test]
fn subdivision_partitions_footprint() {
    let c = Chunk {
        depth: 1,
        coords: Coords {
            coords: (1, 0),
            face: Face::PX,
        },
    };
    let children = c.subdivide();
    let expect = [(2u32, 0u32), (2, 1), (3, 0), (3, 1)];
    for (child, &(x, y)) in children.iter().zip(expect.iter()) {
        assert_eq!(child.depth, 2);
        assert_eq!(child.coords.face, Face::PX);
        assert_eq!(child.coords.coords, (x, y));
    }
    // No overlap: all four children are distinct.
    for i in 0..4 {
        for j in 0..4 {
            if i != j {
                assert!(children[i] != children[j]);
            }
        }
    }
    // Each child's centre lies within the parent footprint:
    // 4x <= 2cx + 1 <= 4x + 4 in units of the child grid.
    for child in children.iter() {
        let m = 2 * child.coords.coords.0 + 1;
        let n = 2 * child.coords.coords.1 + 1;
        assert!(4 * c.coords.coords.0 <= m && m <= 4 * c.coords.coords.0 + 4);
        assert!(4 * c.coords.coords.1 <= n && n <= 4 * c.coords.coords.1 + 4);
    }
}

#[test]
fn roots_and_resolution() {
    let root = Chunk::from_face(Face::NY);
    assert_eq!(root.depth, 0);
    assert_eq!(root.coords.coords, (0, 0));
    assert_eq!(root.resolution(), 1);
    let c = Chunk {
        depth: 5,
        coords: Coords {
            coords: (0, 0),
            face: Face::NY,
        },
    };
    assert_eq!(c.resolution(), 32);
}

#[test]
fn neighborhood_zero_angle_hits_addressed_cell() {
    // Neighborhood soundness: the zero-angle cap around a direction always
    // includes the cell the direction addresses.
    let dirs = [
        Vec3::new(1, 2, 5),
        Vec3::new(-7, 3, 1),
        Vec3::new(0, 0, 1),
        Vec3::new(4, -4, -9),
    ];
    for dir in dirs.iter() {
        let cell = Coords::from_vector(8, dir);
        let hood = Coords::neighborhood(8, *dir, 0, 1);
        assert!(hood.contains(&cell));
    }
}

#[test]
fn neighborhood_grows_with_angle() {
    let dir = Vec3::new(3, 2, 9);
    let small = Coords::neighborhood(16, dir, 1, 10);
    let large = Coords::neighborhood(16, dir, 1, 3);
    assert!(small.len() >= 1);
    assert!(large.len() >= small.len());
    for c in small.iter() {
        assert!(large.contains(c));
    }
}

#[test]
fn neighborhood_axis_direction_is_single_cell() {
    let hood = Coords::neighborhood(2, Vec3::new(0, 0, 1), 0, 1);
    assert_eq!(hood.len(), 1);
    assert_eq!(hood[0].face, Face::PZ);
    assert_eq!(hood[0].coords, (1, 1));
}
