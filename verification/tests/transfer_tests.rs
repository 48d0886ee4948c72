use train_ute::errors::{DataExportError, NotFoundKind};
use train_ute::params::DefaultSimulationParams;
use train_ute::transfers::{
    build_transfer_buffers, export_agent_transfers, AgentTransfer, RawStop,
};

fn stop(lon: f32, lat: f32) -> RawStop {
    RawStop { lon_bits: Some(lon.to_bits()), lat_bits: Some(lat.to_bits()) }
}

#[test]
fn single_transfer_buffers() {
    // One transfer from stop 0 at (1.0, 2.0) to stop 1 at (3.0, 4.0),
    // departing at 100 and arriving at 220.
    let stops = vec![stop(1.0, 2.0), stop(3.0, 4.0)];
    let transfers =
        vec![AgentTransfer { start_idx: 0, end_idx: 1, timestamp: 100, arrival_time: 220 }];
    let b = build_transfer_buffers(&stops, &transfers).unwrap();
    assert_eq!(
        b.points,
        vec![
            1.0f32.to_bits(),
            2.0f32.to_bits(),
            100.0f32.to_bits(),
            3.0f32.to_bits(),
            4.0f32.to_bits(),
            100.0f32.to_bits(),
        ]
    );
    assert_eq!(b.start_indices, vec![0]);
    assert_eq!(b.timestamps, vec![100.0f32.to_bits(), 220.0f32.to_bits()]);
    assert_eq!(b.colors, vec![160, 32, 240, 160, 32, 240]);
}

#[test]
fn buffer_lengths_scale_with_transfer_count() {
    let stops = vec![stop(0.0, 0.0), stop(1.0, 1.0), stop(2.0, 2.0)];
    let transfers = vec![
        AgentTransfer { start_idx: 0, end_idx: 1, timestamp: 10, arrival_time: 20 },
        AgentTransfer { start_idx: 1, end_idx: 2, timestamp: 30, arrival_time: 40 },
        AgentTransfer { start_idx: 2, end_idx: 0, timestamp: 50, arrival_time: 60 },
    ];
    let b = build_transfer_buffers(&stops, &transfers).unwrap();
    assert_eq!(b.points.len(), 6 * transfers.len());
    assert_eq!(b.timestamps.len(), 2 * transfers.len());
    assert_eq!(b.colors.len(), 6 * transfers.len());
    assert_eq!(b.start_indices, vec![0, 2, 4]);
    // Second transfer's segment: stop 1 to stop 2.
    assert_eq!(b.points[6], 1.0f32.to_bits());
    assert_eq!(b.points[9], 2.0f32.to_bits());
}

#[test]
fn missing_stop_coordinate_reports_not_found() {
    let stops = vec![stop(0.0, 0.0), RawStop { lon_bits: None, lat_bits: Some(0) }];
    let transfers: Vec<AgentTransfer> = vec![];
    let r = build_transfer_buffers(&stops, &transfers);
    assert_eq!(r.unwrap_err(), DataExportError::NotFound { kind: NotFoundKind::Stop, id: 1 });
}

#[test]
fn out_of_range_stop_index_reports_not_found() {
    let stops = vec![stop(0.0, 0.0)];
    let transfers =
        vec![AgentTransfer { start_idx: 0, end_idx: 9, timestamp: 1, arrival_time: 2 }];
    let r = build_transfer_buffers(&stops, &transfers);
    assert_eq!(r.unwrap_err(), DataExportError::NotFound { kind: NotFoundKind::Stop, id: 9 });
}

#[test]
fn exported_file_packs_four_chunks() {
    let stops = vec![stop(1.0, 2.0), stop(3.0, 4.0)];
    let transfers =
        vec![AgentTransfer { start_idx: 0, end_idx: 1, timestamp: 100, arrival_time: 220 }];
    let bytes = export_agent_transfers(&stops, &transfers).unwrap();

    // Header: 4 chunks. Points: 6 words = 24 bytes. Start indices: 4 bytes
    // (8 padded). Timestamps: 8 bytes. Colours: 6 bytes (8 padded).
    let header = 32usize;
    assert_eq!(bytes.len(), header + 24 + 8 + 8 + 8);
    let offsets: Vec<u32> = (0..4)
        .map(|i| u32::from_le_bytes(bytes[8 * i..8 * i + 4].try_into().unwrap()))
        .collect();
    let lengths: Vec<u32> = (0..4)
        .map(|i| u32::from_le_bytes(bytes[8 * i + 4..8 * i + 8].try_into().unwrap()))
        .collect();
    assert_eq!(offsets, vec![32, 56, 64, 72]);
    assert_eq!(lengths, vec![24, 4, 8, 6]);

    // Timestamps chunk holds departure then arrival as little-endian f32.
    let dep = f32::from_le_bytes(bytes[64..68].try_into().unwrap());
    let arr = f32::from_le_bytes(bytes[68..72].try_into().unwrap());
    assert_eq!(dep, 100.0);
    assert_eq!(arr, 220.0);
    // Colour chunk is purple per point.
    assert_eq!(&bytes[72..78], &[0xA0, 0x20, 0xF0, 0xA0, 0x20, 0xF0]);
}

#[test]
fn no_transfers_export_to_an_empty_container() {
    let stops = vec![stop(0.0, 0.0)];
    let transfers: Vec<AgentTransfer> = vec![];
    let bytes = export_agent_transfers(&stops, &transfers).unwrap();
    assert_eq!(bytes.len(), 32);
}

#[test]
fn default_params_keep_capacity() {
    let params = DefaultSimulationParams::new(794);
    assert_eq!(params.max_train_capacity, 794);
}
