use geo::BooleanOps;
use geo_tiler::{store_clipped_fragment, validate_clip_polygon, GeoCoordinate, Polygon, Tile};

const SCALE_F: f64 = 1e12;

fn to_fixed(v: f64) -> i64 {
    (v * SCALE_F).round() as i64
}

fn fixed_polygon(coords: &[(f64, f64)]) -> Polygon {
    let exterior: Vec<GeoCoordinate> = coords
        .iter()
        .map(|&(x, y)| GeoCoordinate { longitude: to_fixed(x), latitude: to_fixed(y) })
        .collect();
    Polygon { exterior, holes: Vec::new() }
}

fn geo_polygon(coords: &[(f64, f64)]) -> geo::Polygon<f64> {
    let ring: Vec<geo::Coord<f64>> = coords.iter().map(|&(x, y)| geo::Coord { x, y }).collect();
    geo::Polygon::new(geo::LineString::new(ring), vec![])
}

// helper function to create a square tile
fn create_square_tile(x: f64, y: f64, size: f64) -> Tile {
    let vertices = fixed_polygon(&[
        (x, y),
        (x + size, y),
        (x + size, y + size),
        (x, y + size),
        (x, y),
    ]);
    Tile { vertices, polygons: Vec::new() }
}

// helper function to create a 2x2 grid of tiles
fn create_2x2_grid(tile_size: f64) -> Vec<Tile> {
    vec![
        create_square_tile(0.0, 0.0, tile_size),
        create_square_tile(tile_size, 0.0, tile_size),
        create_square_tile(0.0, tile_size, tile_size),
        create_square_tile(tile_size, tile_size, tile_size),
    ]
}

// The clipping loop as the pipeline runs it: validate the polygon, then
// intersect it with each tile rectangle (the outside boolean-geometry
// primitive) and deposit each fragment through the library.
fn clip_polygon_to_tiles(grid: &mut Vec<Tile>, polygon: &[(f64, f64)]) {
    let fixed = fixed_polygon(polygon);
    validate_clip_polygon(&fixed).unwrap();
    let subject = geo_polygon(polygon);
    for tile in grid.iter_mut() {
        let ring: Vec<geo::Coord<f64>> = tile
            .vertices
            .exterior
            .iter()
            .map(|c| geo::Coord {
                x: c.longitude as f64 / SCALE_F,
                y: c.latitude as f64 / SCALE_F,
            })
            .collect();
        let rect = geo::Polygon::new(geo::LineString::new(ring), vec![]);
        let fragments = rect.intersection(&subject);
        for fragment in fragments {
            let coords: Vec<(f64, f64)> =
                fragment.exterior().coords().map(|c| (c.x, c.y)).collect();
            store_clipped_fragment(tile, fixed_polygon(&coords));
        }
    }
}

#[test]
fn test_polygon_fully_within_single_tile() {
    let mut grid: Vec<Tile> = create_2x2_grid(10.0);
    let polygon = [(2.0, 2.0), (4.0, 2.0), (4.0, 4.0), (2.0, 4.0), (2.0, 2.0)];
    clip_polygon_to_tiles(&mut grid, &polygon);
    // first tile should have the polygon
    assert_eq!(grid[0].polygons.len(), 1);
    // other tiles should have no polygons
    assert_eq!(grid[1].polygons.len(), 0);
    assert_eq!(grid[2].polygons.len(), 0);
    assert_eq!(grid[3].polygons.len(), 0);
}

#[test]
fn test_polygon_spanning_multiple_tiles() {
    let mut grid: Vec<Tile> = create_2x2_grid(10.0);
    let polygon = [(5.0, 5.0), (15.0, 5.0), (15.0, 15.0), (5.0, 15.0), (5.0, 5.0)];
    clip_polygon_to_tiles(&mut grid, &polygon);
    // all tiles should have intersection polygons
    assert_eq!(grid[0].polygons.len(), 1);
    assert_eq!(grid[1].polygons.len(), 1);
    assert_eq!(grid[2].polygons.len(), 1);
    assert_eq!(grid[3].polygons.len(), 1);
}

#[test]
fn test_polygon_no_intersection() {
    let mut grid: Vec<Tile> = create_2x2_grid(10.0);
    let polygon = [(25.0, 25.0), (30.0, 25.0), (30.0, 30.0), (25.0, 30.0), (25.0, 25.0)];
    clip_polygon_to_tiles(&mut grid, &polygon);
    // no tiles should have polygons
    assert_eq!(grid[0].polygons.len(), 0);
    assert_eq!(grid[1].polygons.len(), 0);
    assert_eq!(grid[2].polygons.len(), 0);
    assert_eq!(grid[3].polygons.len(), 0);
}

#[test]
fn test_polygon_edge_intersection() {
    let mut grid: Vec<Tile> = create_2x2_grid(10.0);
    let polygon = [(8.0, 0.0), (12.0, 0.0), (12.0, 10.0), (8.0, 10.0), (8.0, 0.0)];
    clip_polygon_to_tiles(&mut grid, &polygon);
    // First and second tile should have intersections
    assert_eq!(grid[0].polygons.len(), 1);
    assert_eq!(grid[1].polygons.len(), 1);
    assert_eq!(grid[2].polygons.len(), 0);
    assert_eq!(grid[3].polygons.len(), 0);
}

#[test]
fn test_complex_polygon_intersection() {
    let mut grid: Vec<Tile> = create_2x2_grid(10.0);
    // L-shaped polygon
    let polygon = [
        (5.0, 5.0),
        (15.0, 5.0),
        (15.0, 10.0),
        (10.0, 10.0),
        (10.0, 15.0),
        (5.0, 15.0),
        (5.0, 5.0),
    ];
    clip_polygon_to_tiles(&mut grid, &polygon);
    // tiles 0, 1, and 2 should have intersections
    assert!(grid[0].polygons.len() > 0);
    assert!(grid[1].polygons.len() > 0);
    assert!(grid[2].polygons.len() > 0);
    // tile 3 might or might not have intersection depending on exact calculation
}

#[test]
fn test_empty_grid() {
    let mut grid: Vec<Tile> = Vec::new();
    let polygon = [(0.0, 0.0), (10.0, 0.0), (10.0, 10.0), (0.0, 10.0), (0.0, 0.0)];
    // should not panic with empty grid
    clip_polygon_to_tiles(&mut grid, &polygon);
    assert_eq!(grid.len(), 0);
}

#[test]
fn test_multiple_polygons_same_tile() {
    let mut grid: Vec<Tile> = create_2x2_grid(10.0);
    let polygon1 = [(1.0, 1.0), (3.0, 1.0), (3.0, 3.0), (1.0, 3.0), (1.0, 1.0)];
    let polygon2 = [(5.0, 5.0), (7.0, 5.0), (7.0, 7.0), (5.0, 7.0), (5.0, 5.0)];
    clip_polygon_to_tiles(&mut grid, &polygon1);
    clip_polygon_to_tiles(&mut grid, &polygon2);
    // first tile should have two polygons
    assert_eq!(grid[0].polygons.len(), 2);
}

#[test]
fn test_polygon_touching_tile_corner() {
    let mut grid: Vec<Tile> = create_2x2_grid(10.0);
    let polygon = [(9.0, 9.0), (11.0, 9.0), (11.0, 11.0), (9.0, 11.0), (9.0, 9.0)];
    clip_polygon_to_tiles(&mut grid, &polygon);
    // all four tiles should have small intersections
    assert_eq!(grid[0].polygons.len(), 1);
    assert_eq!(grid[1].polygons.len(), 1);
    assert_eq!(grid[2].polygons.len(), 1);
    assert_eq!(grid[3].polygons.len(), 1);
}

#[test]
fn test_concave_polygon() {
    let mut grid: Vec<Tile> = create_2x2_grid(10.0);
    let polygon = [
        (10.0, 5.0),
        (12.0, 8.0),
        (15.0, 8.0),
        (13.0, 11.0),
        (14.0, 15.0),
        (10.0, 13.0),
        (6.0, 15.0),
        (7.0, 11.0),
        (5.0, 8.0),
        (8.0, 8.0),
        (10.0, 5.0),
    ];
    clip_polygon_to_tiles(&mut grid, &polygon);
    // multiple tiles should have intersections
    let total_intersections: usize = grid.iter().map(|tile| tile.polygons.len()).sum();
    assert!(total_intersections > 0);
}

#[test]
fn test_very_small_polygon() {
    let mut grid: Vec<Tile> = create_2x2_grid(10.0);
    let polygon = [(5.0, 5.0), (5.1, 5.0), (5.1, 5.1), (5.0, 5.1), (5.0, 5.0)];
    clip_polygon_to_tiles(&mut grid, &polygon);
    // should still work with very small polygons
    assert_eq!(grid[0].polygons.len(), 1);
}
