use train_ute::errors::{DataExportError, NotFoundKind};
use train_ute::float_bits::f32_bits_of;
use train_ute::shapes::{
    build_shape_buffers, export_shape_file, Rgb, Route, Shape, ShapePoint, Trip,
};

fn point(lon: f32, lat: f32) -> ShapePoint {
    ShapePoint { lon_bits: lon.to_bits(), lat_bits: lat.to_bits() }
}

#[test]
fn float_bits_match_hardware_floats() {
    for v in [0u32, 1, 2, 3, 5, 9, 10, 20, 100, 255, 256, 1000, 123_456, 0xFF_FFFF] {
        assert_eq!(f32_bits_of(v), (v as f32).to_bits(), "value {v}");
    }
}

#[test]
fn single_red_shape() {
    // One shape with 2 points and colour (255,0,0): height 10, start index 0.
    let shapes = vec![Shape { id: 1, points: vec![point(144.9, -37.8), point(145.0, -37.9)] }];
    let trips = vec![Trip { shape_id: Some(1), route_id: 7 }];
    let routes = vec![Route { id: 7, color: Rgb { r: 255, g: 0, b: 0 } }];
    let b = build_shape_buffers(&shapes, &trips, &routes).unwrap();
    assert_eq!(b.start_indices, vec![0]);
    assert_eq!(
        b.points,
        vec![
            144.9f32.to_bits(),
            (-37.8f32).to_bits(),
            10.0f32.to_bits(),
            145.0f32.to_bits(),
            (-37.9f32).to_bits(),
            10.0f32.to_bits(),
        ]
    );
    assert_eq!(b.colors, vec![255, 0, 0, 255, 0, 0]);
}

#[test]
fn heights_follow_colour_encounter_order() {
    // Colours red, blue, red: heights 10, 20, 10.
    let shapes = vec![
        Shape { id: 1, points: vec![point(1.0, 2.0)] },
        Shape { id: 2, points: vec![point(3.0, 4.0)] },
        Shape { id: 3, points: vec![point(5.0, 6.0)] },
    ];
    let trips = vec![
        Trip { shape_id: Some(1), route_id: 10 },
        Trip { shape_id: Some(2), route_id: 20 },
        Trip { shape_id: Some(3), route_id: 30 },
    ];
    let red = Rgb { r: 255, g: 0, b: 0 };
    let blue = Rgb { r: 0, g: 0, b: 255 };
    let routes = vec![
        Route { id: 10, color: red },
        Route { id: 20, color: blue },
        Route { id: 30, color: red },
    ];
    let b = build_shape_buffers(&shapes, &trips, &routes).unwrap();
    assert_eq!(b.points[2], 10.0f32.to_bits());
    assert_eq!(b.points[5], 20.0f32.to_bits());
    assert_eq!(b.points[8], 10.0f32.to_bits());
}

#[test]
fn start_indices_are_cumulative_point_counts() {
    let shapes = vec![
        Shape { id: 1, points: vec![point(0.0, 0.0), point(1.0, 1.0)] },
        Shape { id: 2, points: vec![point(2.0, 2.0), point(3.0, 3.0), point(4.0, 4.0)] },
        Shape { id: 3, points: vec![point(5.0, 5.0)] },
    ];
    let trips = vec![
        Trip { shape_id: Some(1), route_id: 1 },
        Trip { shape_id: Some(2), route_id: 1 },
        Trip { shape_id: Some(3), route_id: 1 },
    ];
    let routes = vec![Route { id: 1, color: Rgb { r: 9, g: 9, b: 9 } }];
    let b = build_shape_buffers(&shapes, &trips, &routes).unwrap();
    assert_eq!(b.start_indices, vec![0, 2, 5]);
    assert_eq!(b.points.len(), 3 * 6);
    assert_eq!(b.colors.len(), 3 * 6);
}

#[test]
fn first_matching_trip_decides_the_route() {
    // Two trips reference the shape; the first one's route colours it.
    let shapes = vec![Shape { id: 5, points: vec![point(0.0, 0.0)] }];
    let trips = vec![
        Trip { shape_id: Some(4), route_id: 1 },
        Trip { shape_id: Some(5), route_id: 2 },
        Trip { shape_id: Some(5), route_id: 3 },
    ];
    let routes = vec![
        Route { id: 2, color: Rgb { r: 1, g: 2, b: 3 } },
        Route { id: 3, color: Rgb { r: 7, g: 8, b: 9 } },
    ];
    let b = build_shape_buffers(&shapes, &trips, &routes).unwrap();
    assert_eq!(b.colors, vec![1, 2, 3]);
}

#[test]
fn shape_without_trip_reports_not_found() {
    let shapes = vec![Shape { id: 42, points: vec![point(0.0, 0.0)] }];
    let trips = vec![Trip { shape_id: None, route_id: 1 }];
    let routes = vec![Route { id: 1, color: Rgb { r: 0, g: 0, b: 0 } }];
    let r = build_shape_buffers(&shapes, &trips, &routes);
    assert_eq!(r.unwrap_err(), DataExportError::NotFound { kind: NotFoundKind::Trip, id: 42 });
}

#[test]
fn trip_with_unknown_route_reports_not_found() {
    let shapes = vec![Shape { id: 42, points: vec![point(0.0, 0.0)] }];
    let trips = vec![Trip { shape_id: Some(42), route_id: 77 }];
    let routes = vec![Route { id: 1, color: Rgb { r: 0, g: 0, b: 0 } }];
    let r = build_shape_buffers(&shapes, &trips, &routes);
    assert_eq!(r.unwrap_err(), DataExportError::NotFound { kind: NotFoundKind::Route, id: 77 });
}

#[test]
fn exported_file_packs_three_chunks() {
    let shapes = vec![Shape { id: 1, points: vec![point(1.5, 2.5), point(3.5, 4.5)] }];
    let trips = vec![Trip { shape_id: Some(1), route_id: 7 }];
    let routes = vec![Route { id: 7, color: Rgb { r: 10, g: 20, b: 30 } }];
    let bytes = export_shape_file(&shapes, &trips, &routes).unwrap();

    // Header: 3 chunks. Points: 6 words = 24 bytes (24 padded). Start
    // indices: 1 word = 4 bytes (8 padded). Colours: 6 bytes (8 padded).
    let header = 24usize;
    assert_eq!(bytes.len(), header + 24 + 8 + 8);
    let offsets: Vec<u32> = (0..3)
        .map(|i| u32::from_le_bytes(bytes[8 * i..8 * i + 4].try_into().unwrap()))
        .collect();
    let lengths: Vec<u32> = (0..3)
        .map(|i| u32::from_le_bytes(bytes[8 * i + 4..8 * i + 8].try_into().unwrap()))
        .collect();
    assert_eq!(offsets, vec![24, 48, 56]);
    assert_eq!(lengths, vec![24, 4, 6]);

    // Point chunk: lon, lat, height per vertex, little-endian f32.
    let p0 = f32::from_le_bytes(bytes[24..28].try_into().unwrap());
    let h0 = f32::from_le_bytes(bytes[32..36].try_into().unwrap());
    assert_eq!(p0, 1.5);
    assert_eq!(h0, 10.0);
    // Start-index chunk.
    assert_eq!(&bytes[48..52], &0u32.to_le_bytes());
    // Colour chunk: one triplet per point.
    assert_eq!(&bytes[56..62], &[10, 20, 30, 10, 20, 30]);
}

#[test]
fn no_shapes_export_to_an_empty_container() {
    let shapes: Vec<Shape> = vec![];
    let trips: Vec<Trip> = vec![];
    let routes: Vec<Route> = vec![];
    let bytes = export_shape_file(&shapes, &trips, &routes).unwrap();
    // Three chunks, all empty: a 24-byte header and no data.
    assert_eq!(bytes.len(), 24);
}
