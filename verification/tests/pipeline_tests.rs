use geo_tiler::{
    assemble_mesh_data, build_constraint_edges, clamp_polygons, densify_edges, fibonacci_sphere,
    ll_to_cartesian, prepare_triangulation, rotate_points_to_south_pole,
    stereographic_projection, Cartesian3, GeoCoordinate, GeoTilerError, Polygon, Tile,
    DEFAULT_FIBONACCI_POINT_COUNT, SCALE,
};

const PI_FP: i64 = 3_141_592_653_590;
const HALF_PI_FP: i64 = 1_570_796_326_795;

fn coord(lon_deg: f64, lat_deg: f64) -> GeoCoordinate {
    GeoCoordinate {
        longitude: (lon_deg * 1e12).round() as i64,
        latitude: (lat_deg * 1e12).round() as i64,
    }
}

#[test]
fn test_ll_to_cartesian_unit_norm() {
    for &(lon, lat) in &[(0.0, 0.0), (45.0, 30.0), (-120.0, -60.0), (179.9, 89.9), (13.4, -7.2)] {
        let c = coord(lon, lat);
        let v = ll_to_cartesian(c.longitude, c.latitude).unwrap();
        let norm = ((v.x as f64).powi(2) + (v.y as f64).powi(2) + (v.z as f64).powi(2)).sqrt();
        let unit = SCALE as f64;
        assert!((norm - unit).abs() <= 1e-9 * unit, "norm {} off unit", norm);
    }
}

#[test]
fn test_ll_to_cartesian_rejects_out_of_range() {
    let c = coord(200.0, 0.0);
    let res = ll_to_cartesian(c.longitude, c.latitude);
    assert!(matches!(res, Err(GeoTilerError::CoordinateRangeError { .. })));
}

#[test]
fn test_ll_to_cartesian_poles_and_origin() {
    assert_eq!(
        ll_to_cartesian(0, 90 * SCALE).unwrap(),
        Cartesian3 { x: 0, y: 0, z: SCALE }
    );
    assert_eq!(
        ll_to_cartesian(0, -90 * SCALE).unwrap(),
        Cartesian3 { x: 0, y: 0, z: -SCALE }
    );
    assert_eq!(ll_to_cartesian(0, 0).unwrap(), Cartesian3 { x: SCALE, y: 0, z: 0 });
}

#[test]
fn test_stereographic_projection_singularity_and_south_pole() {
    let north = Cartesian3 { x: 0, y: 0, z: SCALE };
    assert_eq!(stereographic_projection(north), Err(GeoTilerError::ProjectionError));
    let south = Cartesian3 { x: 0, y: 0, z: -SCALE };
    let p = stereographic_projection(south).unwrap();
    assert_eq!((p.x, p.y), (0, 0));
}

#[test]
fn test_stereographic_projection_equator_point() {
    // (1, 0, 0) maps to (1, 0) on the plane: x / (1 - z) with z = 0.
    let v = Cartesian3 { x: SCALE, y: 0, z: 0 };
    let p = stereographic_projection(v).unwrap();
    assert_eq!((p.x, p.y), (SCALE as i128, 0));
}

#[test]
fn test_rotate_empty_set_fails() {
    let res = rotate_points_to_south_pole(&Vec::new());
    assert_eq!(res, Err(GeoTilerError::EmptyPointSetError));
}

#[test]
fn test_rotate_sends_centroid_direction_south() {
    // A tight cluster of unit points near (45 E, 30 N).
    let mut points: Vec<Cartesian3> = Vec::new();
    for &(lon, lat) in &[(44.0, 29.0), (46.0, 29.0), (45.0, 31.0), (45.0, 30.0)] {
        let c = coord(lon, lat);
        points.push(ll_to_cartesian(c.longitude, c.latitude).unwrap());
    }
    let rotated = rotate_points_to_south_pole(&points).unwrap();
    assert_eq!(rotated.len(), points.len());
    // The rotated centroid points at the south pole within tolerance.
    let n = rotated.len() as f64;
    let cx: f64 = rotated.iter().map(|p| p.x as f64).sum::<f64>() / n;
    let cy: f64 = rotated.iter().map(|p| p.y as f64).sum::<f64>() / n;
    let cz: f64 = rotated.iter().map(|p| p.z as f64).sum::<f64>() / n;
    let mag = (cx * cx + cy * cy + cz * cz).sqrt();
    assert!(cz < 0.0);
    assert!((cx / mag).abs() < 1e-6);
    assert!((cy / mag).abs() < 1e-6);
    assert!((cz / mag + 1.0).abs() < 1e-6);
    // Rotation preserves each point's distance from the origin.
    for (a, b) in points.iter().zip(rotated.iter()) {
        let na = ((a.x as f64).powi(2) + (a.y as f64).powi(2) + (a.z as f64).powi(2)).sqrt();
        let nb = ((b.x as f64).powi(2) + (b.y as f64).powi(2) + (b.z as f64).powi(2)).sqrt();
        assert!((na - nb).abs() < 1e-5 * na);
    }
}

#[test]
fn test_rotate_zero_centroid_fails() {
    let points = vec![
        Cartesian3 { x: SCALE, y: 0, z: 0 },
        Cartesian3 { x: -SCALE, y: 0, z: 0 },
    ];
    assert_eq!(rotate_points_to_south_pole(&points), Err(GeoTilerError::RotationError));
}

#[test]
fn test_rotate_north_pole_centroid_fails() {
    let points = vec![Cartesian3 { x: 0, y: 0, z: SCALE }];
    assert_eq!(rotate_points_to_south_pole(&points), Err(GeoTilerError::RotationError));
}

#[test]
fn test_fibonacci_sphere_zero_fails() {
    assert_eq!(fibonacci_sphere(0), Err(GeoTilerError::FibonacciError));
}

#[test]
fn test_fibonacci_sphere_ranges_and_determinism() {
    let pts = fibonacci_sphere(500).unwrap();
    assert_eq!(pts.len(), 500);
    for p in &pts {
        assert!(-PI_FP < p.longitude && p.longitude <= PI_FP);
        assert!(-HALF_PI_FP <= p.latitude && p.latitude <= HALF_PI_FP);
    }
    assert_eq!(pts[0].latitude, HALF_PI_FP);
    assert_eq!(pts[499].latitude, -HALF_PI_FP);
    let again = fibonacci_sphere(500).unwrap();
    assert_eq!(pts, again);
}

#[test]
fn test_densify_edges_splits_long_edges() {
    // A 2-degree edge with a half-degree maximum gains interior points.
    let mut poly = Polygon {
        exterior: vec![coord(0.0, 0.0), coord(2.0, 0.0), coord(2.0, 2.0), coord(0.0, 0.0)],
        holes: Vec::new(),
    };
    let max = SCALE / 2;
    densify_edges(&mut poly, max);
    let ring = &poly.exterior;
    assert!(ring.len() > 4);
    assert_eq!(ring[0], coord(0.0, 0.0));
    assert_eq!(*ring.last().unwrap(), ring[0]);
    for pair in ring.windows(2) {
        let dx = (pair[1].longitude - pair[0].longitude) as f64;
        let dy = (pair[1].latitude - pair[0].latitude) as f64;
        let dist = (dx * dx + dy * dy).sqrt();
        assert!(dist <= max as f64 + 2.0, "segment {} too long", dist);
    }
}

#[test]
fn test_clamp_polygons_pulls_fragments_inside() {
    let tile = Tile {
        vertices: Polygon {
            exterior: vec![coord(0.0, 0.0), coord(10.0, 0.0), coord(0.0, 10.0), coord(10.0, 10.0)],
            holes: Vec::new(),
        },
        polygons: vec![Polygon {
            exterior: vec![
                coord(-0.001, 5.0),
                coord(5.0, 10.002),
                coord(5.0, 5.0),
                coord(-0.001, 5.0),
            ],
            holes: Vec::new(),
        }],
    };
    let mut tiles = vec![tile];
    clamp_polygons(&mut tiles);
    for c in &tiles[0].polygons[0].exterior {
        assert!(c.longitude >= 0 && c.longitude <= 10 * SCALE);
        assert!(c.latitude >= 0 && c.latitude <= 10 * SCALE);
    }
    assert_eq!(tiles[0].polygons[0].exterior[0], coord(0.0, 5.0));
}

#[test]
fn test_build_constraint_edges_reverse_ring() {
    let edges = build_constraint_edges(4);
    assert_eq!(edges.len(), 4);
    let pairs: Vec<(u32, u32)> = edges.iter().map(|e| (e.from, e.to)).collect();
    assert_eq!(pairs, vec![(3, 2), (2, 1), (1, 0), (0, 3)]);
}

#[test]
fn test_assemble_mesh_data_checks_indices() {
    let vertices = vec![
        Cartesian3 { x: SCALE, y: 0, z: 0 },
        Cartesian3 { x: 0, y: SCALE, z: 0 },
        Cartesian3 { x: 0, y: 0, z: SCALE },
    ];
    let mesh = assemble_mesh_data(vertices.clone(), vec![0, 1, 2]).unwrap();
    assert_eq!(mesh.triangles.len() % 3, 0);
    assert!(mesh.triangles.iter().all(|&i| (i as usize) < mesh.vertices.len()));
    assert_eq!(
        assemble_mesh_data(vertices.clone(), vec![0, 1, 3]),
        Err(GeoTilerError::TriangulationError)
    );
    assert_eq!(
        assemble_mesh_data(vertices, vec![0, 1]),
        Err(GeoTilerError::TriangulationError)
    );
}

#[test]
fn test_get_mesh_points_reports_first_out_of_range_coordinate() {
    let polygon = Polygon {
        exterior: vec![
            coord(10.0, 10.0),
            coord(12.0, 10.0),
            coord(200.0, 95.0),
            coord(10.0, 12.0),
            coord(10.0, 10.0),
        ],
        holes: Vec::new(),
    };
    let inside = vec![false; DEFAULT_FIBONACCI_POINT_COUNT];
    let res = geo_tiler::get_mesh_points(&polygon, &inside);
    assert_eq!(
        res,
        Err(GeoTilerError::CoordinateRangeError {
            longitude: coord(200.0, 95.0).longitude,
            latitude: coord(200.0, 95.0).latitude,
        })
    );
}

#[test]
fn test_get_mesh_points_keeps_boundary_first() {
    let polygon = Polygon {
        exterior: vec![
            coord(10.0, 10.0),
            coord(10.0, 12.0),
            coord(12.0, 12.0),
            coord(10.0, 10.0),
        ],
        holes: Vec::new(),
    };
    let inside = vec![false; DEFAULT_FIBONACCI_POINT_COUNT];
    let pts = geo_tiler::get_mesh_points(&polygon, &inside).unwrap();
    assert_eq!(pts.len(), 4);
    for (c, v) in polygon.exterior.iter().zip(pts.iter()) {
        assert_eq!(*v, ll_to_cartesian(c.longitude, c.latitude).unwrap());
    }
}

#[test]
fn test_prepare_triangulation_rejects_small_boundaries() {
    let inside = vec![false; DEFAULT_FIBONACCI_POINT_COUNT];
    let empty = Polygon { exterior: Vec::new(), holes: Vec::new() };
    assert_eq!(
        prepare_triangulation(&empty, &inside),
        Err(GeoTilerError::EmptyPointSetError)
    );
    let tiny = Polygon { exterior: vec![coord(0.0, 0.0), coord(1.0, 1.0)], holes: Vec::new() };
    assert_eq!(
        prepare_triangulation(&tiny, &inside),
        Err(GeoTilerError::MeshGenerationError)
    );
}

// The full mesh path: preparation in the library, the constrained Delaunay
// triangulation by the outside primitive, assembly and validation back in
// the library.
#[test]
fn test_generate_mesh_from_polygon() {
    let polygon = Polygon {
        exterior: vec![
            coord(10.0, 10.0),
            coord(10.0, 12.0),
            coord(12.0, 12.0),
            coord(12.0, 10.0),
            coord(10.0, 10.0),
        ],
        holes: Vec::new(),
    };
    let inside = vec![false; DEFAULT_FIBONACCI_POINT_COUNT];
    let (vertices, edges, projected) = prepare_triangulation(&polygon, &inside).unwrap();
    assert_eq!(vertices.len(), 5);
    assert_eq!(projected.len(), vertices.len());
    assert_eq!(edges.len(), 5);

    #[derive(Clone, Copy)]
    struct V {
        x: f64,
        y: f64,
    }
    impl ghx_constrained_delaunay::types::Vertex2d for V {
        fn x(self) -> f64 {
            self.x
        }
        fn y(self) -> f64 {
            self.y
        }
    }
    let verts: Vec<V> = projected
        .iter()
        .map(|p| V { x: p.x as f64 / 1e12, y: p.y as f64 / 1e12 })
        .collect();
    let ghx_edges: Vec<ghx_constrained_delaunay::types::Edge> = edges
        .iter()
        .map(|e| ghx_constrained_delaunay::types::Edge { from: e.from, to: e.to })
        .collect();
    let config =
        ghx_constrained_delaunay::constrained_triangulation::ConstrainedTriangulationConfiguration {
            bin_vertex_density_power: 1.0,
        };
    let triangulation = ghx_constrained_delaunay::constrained_triangulation_from_2d_vertices(
        &verts, &ghx_edges, config,
    )
    .unwrap();
    let flat: Vec<u32> = triangulation.triangles.iter().flat_map(|t| t.iter().copied()).collect();
    let mesh = assemble_mesh_data(vertices, flat).unwrap();
    assert_eq!(mesh.triangles.len() % 3, 0);
    assert!(mesh.triangles.iter().all(|&i| (i as usize) < mesh.vertices.len()));
    assert!(mesh.triangles.len() >= 3);
}
