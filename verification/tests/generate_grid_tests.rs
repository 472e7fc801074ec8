use geo_tiler::{generate_grid, Tile, SCALE};

#[test]
fn test_generate_grid_basic_functionality() {
    let step: usize = 10;
    let grid: Vec<Tile> = generate_grid(step).unwrap();
    // longitude: -180 to 180 (360 degrees) with step 10 = 36 tiles
    // latitude: -90 to 90 (180 degrees) with step 10 = 18 tiles
    // total: 36 * 18 = 648 tiles
    assert_eq!(grid.len(), 648);
    for tile in &grid {
        // a closed rectangular ring: four corners plus the closing repeat
        assert_eq!(tile.vertices.exterior.len(), 5);
        assert_eq!(tile.vertices.exterior[0], *tile.vertices.exterior.last().unwrap());
        assert_eq!(tile.polygons.len(), 0);
    }
}

#[test]
fn test_generate_grid_step_1() {
    let step: usize = 1;
    let grid: Vec<Tile> = generate_grid(step).unwrap();
    // 360 * 180 = 64,800 tiles for step size 1
    assert_eq!(grid.len(), 64800);
}

#[test]
fn test_generate_grid_large_step() {
    let step: usize = 90;
    let grid: Vec<Tile> = generate_grid(step).unwrap();
    // longitude: 360/90 = 4 tiles, latitude: 180/90 = 2 tiles, total: 8
    assert_eq!(grid.len(), 8);
}

#[test]
fn test_coordinate_ranges() {
    let step: usize = 45;
    let grid: Vec<Tile> = generate_grid(step).unwrap();
    for tile in &grid {
        for coord in &tile.vertices.exterior {
            assert!(coord.longitude >= -180 * SCALE);
            assert!(coord.longitude <= 180 * SCALE);
            assert!(coord.latitude >= -90 * SCALE);
            assert!(coord.latitude <= 90 * SCALE);
        }
    }
}

#[test]
fn test_tile_dimensions() {
    let step: usize = 20;
    let grid: Vec<Tile> = generate_grid(step).unwrap();
    for tile in &grid {
        let coords = &tile.vertices.exterior;
        let width = (coords[1].longitude - coords[0].longitude).abs();
        let height = (coords[2].latitude - coords[0].latitude).abs();
        assert_eq!(width, step as i64 * SCALE);
        assert_eq!(height, step as i64 * SCALE);
    }
}

#[test]
fn test_no_overlapping_tiles() {
    let step: usize = 60;
    let grid: Vec<Tile> = generate_grid(step).unwrap();
    for (i, tile1) in grid.iter().enumerate() {
        for (j, tile2) in grid.iter().enumerate() {
            if i != j {
                let v1 = &tile1.vertices.exterior;
                let v2 = &tile2.vertices.exterior;
                if v1[0].longitude == v2[0].longitude && v1[1].longitude == v2[1].longitude {
                    assert!(
                        v1[0].latitude >= v2[2].latitude || v2[0].latitude >= v1[2].latitude,
                        "tiles with same longitude should not overlap in latitude"
                    );
                }
            }
        }
    }
}

#[test]
fn test_complete_coverage() {
    let step: usize = 90;
    let grid: Vec<Tile> = generate_grid(step).unwrap();
    assert_eq!(grid.len(), 8);
    let mut min_lon: i64 = i64::MAX;
    let mut max_lon: i64 = i64::MIN;
    let mut min_lat: i64 = i64::MAX;
    let mut max_lat: i64 = i64::MIN;
    for tile in &grid {
        for coord in &tile.vertices.exterior {
            min_lon = min_lon.min(coord.longitude);
            max_lon = max_lon.max(coord.longitude);
            min_lat = min_lat.min(coord.latitude);
            max_lat = max_lat.max(coord.latitude);
        }
    }
    assert_eq!(min_lon, -180 * SCALE);
    assert_eq!(max_lon, 180 * SCALE);
    assert_eq!(min_lat, -90 * SCALE);
    assert_eq!(max_lat, 90 * SCALE);
}

#[test]
fn test_generate_grid_rejects_bad_steps() {
    assert!(generate_grid(0).is_err());
    assert!(generate_grid(181).is_err());
    assert!(generate_grid(7).is_err());
}
