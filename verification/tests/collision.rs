use planetcore::collision::{
    triangle_count, triangle_vertices, ChunkData, ContactRoute, FlatTerrain, PlanetCollision,
    PlanetDispatcher, Terrain, ATMOSPHERE_MARGIN,
};
use planetcore::coords::Coords;
use planetcore::face::Face;
use planetcore::vect::Vec3;

const PLANET_RADIUS: i64 = 6_371_000;

fn cell(face: Face, x: u32, y: u32) -> Coords {
    Coords { coords: (x, y), face }
}

#[test]
fn chunk_data_tracks_maximum() {
    let d = ChunkData::new(vec![3, -7, 12, 0]);
    assert_eq!(d.max, 12);
    assert_eq!(d.samples, vec![3, -7, 12, 0]);
}

#[test]
fn flat_terrain_is_flat() {
    let t = FlatTerrain { face_resolution: 4096 };
    assert_eq!(t.face_resolution(), 4096);
    let s = t.samples(&cell(Face::PX, 12, 17), 17);
    assert_eq!(s.len(), 17 * 17);
    assert!(s.iter().all(|&h| h == 0));
}

#[test]
fn lru_store_evicts_least_recently_used() {
    // A store of capacity two: filling it with two cells, touching the first
    // again, then adding a third evicts exactly the untouched second cell.
    let terrain = FlatTerrain { face_resolution: 4096 };
    let mut planet = PlanetCollision::new(terrain, 17, PLANET_RADIUS, 2);
    let c1 = cell(Face::PX, 1, 1);
    let c2 = cell(Face::PX, 2, 2);
    let c3 = cell(Face::PX, 3, 3);

    planet.chunk_data(&c1);
    planet.chunk_data(&c2);
    assert_eq!(planet.cached_len(), 2);

    // Re-access c1 so that c2 becomes the least recently used entry.
    planet.chunk_data(&c1);
    planet.chunk_data(&c3);

    assert_eq!(planet.cached_len(), 2);
    assert!(planet.is_cached(&c1));
    assert!(!planet.is_cached(&c2));
    assert!(planet.is_cached(&c3));
}

#[test]
fn lru_store_returns_cached_grid() {
    let terrain = FlatTerrain { face_resolution: 4096 };
    let mut planet = PlanetCollision::new(terrain, 17, PLANET_RADIUS, 4);
    let c = cell(Face::NY, 5, 9);
    let first = planet.chunk_data(&c);
    let second = planet.chunk_data(&c);
    assert_eq!(first.samples, second.samples);
    assert_eq!(planet.cached_len(), 1);
}

#[test]
fn point_projection_selects_cell() {
    let terrain = FlatTerrain { face_resolution: 4096 };
    let mut planet = PlanetCollision::new(terrain, 17, PLANET_RADIUS, 8);
    let p = Vec3::new(100, -250, PLANET_RADIUS);
    let (coords, data) = planet.project_point_chunk(p);
    assert_eq!(coords, Coords::from_vector(4096, &p));
    assert_eq!(data.samples.len(), 17 * 17);
    assert_eq!(planet.bounding_radius(), PLANET_RADIUS + ATMOSPHERE_MARGIN);
}

#[test]
fn contact_chunks_cover_the_contact_point() {
    let terrain = FlatTerrain { face_resolution: 4096 };
    let mut planet = PlanetCollision::new(terrain, 17, PLANET_RADIUS, 32);
    // A ball of radius 50 resting on the surface along -x.
    let dir = Vec3::new(-PLANET_RADIUS, 0, 0);
    let candidates = planet.contact_chunks(dir, 50, PLANET_RADIUS, 50);
    assert!(!candidates.is_empty());
    let home = Coords::from_vector(4096, &dir);
    assert!(candidates.iter().any(|e| e.0 == home));
    // A flat terrain cannot be culled when the body touches the surface.
    for e in candidates.iter() {
        assert_eq!(e.1.max, 0);
    }
}

#[test]
fn triangles_tile_the_grid() {
    assert_eq!(triangle_count(3), 8);
    assert_eq!(triangle_vertices(3, 0), ((0, 0), (1, 0), (0, 1)));
    assert_eq!(triangle_vertices(3, 1), ((1, 0), (1, 1), (0, 1)));
    assert_eq!(triangle_vertices(3, 3), ((2, 0), (2, 1), (1, 1)));
    // Stable keying: the same index always names the same corners.
    for index in 0..8 {
        assert_eq!(triangle_vertices(3, index), triangle_vertices(3, index));
    }
    // Every grid corner of every triangle is inside the grid.
    for index in 0..8 {
        let (a, b, c) = triangle_vertices(3, index);
        for v in [a, b, c] {
            assert!(v.0 < 3 && v.1 < 3);
        }
    }
}

#[test]
fn dispatcher_routes_terrain_pairs() {
    let d = PlanetDispatcher::new(());
    assert_eq!(d.route(true, false), ContactRoute::FirstIsPlanet);
    assert_eq!(d.route(true, true), ContactRoute::FirstIsPlanet);
    assert_eq!(d.route(false, true), ContactRoute::SecondIsPlanet);
    assert_eq!(d.route(false, false), ContactRoute::Delegate);
}

#[test]
fn contact_chunks_regression_direction() {
    // A ball of radius 50 resting on the surface along a known awkward
    // direction must yield contact candidates covering its cell.
    let terrain = FlatTerrain { face_resolution: 4096 };
    let mut planet = PlanetCollision::new(terrain, 17, PLANET_RADIUS, 32);
    let dir = Vec3::new(-5_195_083, 3_582_099, -877_091);
    let candidates = planet.contact_chunks(dir, 50, PLANET_RADIUS, 50);
    assert!(!candidates.is_empty());
    let home = Coords::from_vector(4096, &dir);
    assert!(candidates.iter().any(|e| e.0 == home));
}
