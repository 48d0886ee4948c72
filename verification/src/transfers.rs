//! The agent-transfer exporter.
//!
//! Every simulated passenger transfer becomes one straight two-point segment
//! between its origin and destination stop, drawn at a fixed synthetic
//! height of 100 and in a fixed purple. The exporter packs four chunks in
//! fixed order: the point buffer, the start-index table, the departure and
//! arrival timestamps, and the colour buffer.

use vstd::prelude::*;

use crate::container::{
    container_bytes, fits_u32, lemma_view_link, serialize_u32s, words_bytes, write_bin,
};
use crate::errors::{DataExportError, NotFoundKind};
use crate::float_bits::{f32_bits, f32_bits_of};
use crate::shapes::{color_triplets, Rgb, ShapePoint};

verus! {

/// One simulated passenger transfer between two stops: the stop indices and
/// the departure and arrival times. Times are plain integers (seconds), kept
/// below 2^24 so single precision represents them exactly.
#[derive(Clone, Copy, Debug, PartialEq, Eq, Structural)]
pub struct AgentTransfer {
    pub start_idx: u32,
    pub end_idx: u32,
    pub timestamp: u32,
    pub arrival_time: u32,
}

/// A stop as read from the timetable: longitude and latitude as f32 bit
/// patterns, either of which may be missing.
#[derive(Clone, Copy, Debug)]
pub struct RawStop {
    pub lon_bits: Option<u32>,
    pub lat_bits: Option<u32>,
}

/// The fixed colour of transfer segments.
pub open spec fn purple() -> Rgb {
    Rgb { r: 0xA0, g: 0x20, b: 0xF0 }
}

/// The f32 bit pattern of the fixed transfer height of 100.
pub open spec fn transfer_height_bits() -> u32 {
    f32_bits(100) as u32
}

/// Every stop has both coordinates.
pub open spec fn stops_resolved(stops: Seq<RawStop>) -> bool {
    forall|i: int|
        0 <= i < stops.len() ==> stops[i].lon_bits is Some && stops[i].lat_bits is Some
}

/// Stop `i` is the first one missing a coordinate.
pub open spec fn first_missing_stop(stops: Seq<RawStop>, i: int) -> bool {
    &&& 0 <= i < stops.len()
    &&& !(stops[i].lon_bits is Some && stops[i].lat_bits is Some)
    &&& forall|k: int| 0 <= k < i ==> stops[k].lon_bits is Some && stops[k].lat_bits is Some
}

/// The resolved location of stop `idx` (zero bits where missing).
pub open spec fn stop_point(stops: Seq<RawStop>, idx: int) -> ShapePoint {
    ShapePoint {
        lon_bits: match stops[idx].lon_bits {
            Some(v) => v,
            None => 0,
        },
        lat_bits: match stops[idx].lat_bits {
            Some(v) => v,
            None => 0,
        },
    }
}

/// Every transfer's stop indices are in range.
pub open spec fn indices_ok(transfers: Seq<AgentTransfer>, n_stops: nat) -> bool {
    forall|i: int|
        0 <= i < transfers.len() ==> transfers[i].start_idx < n_stops && transfers[i].end_idx
            < n_stops
}

/// Transfer `i` is the first one referencing a stop index out of range.
pub open spec fn first_bad_transfer(transfers: Seq<AgentTransfer>, n_stops: nat, i: int) -> bool {
    &&& 0 <= i < transfers.len()
    &&& !(transfers[i].start_idx < n_stops && transfers[i].end_idx < n_stops)
    &&& forall|k: int|
        0 <= k < i ==> transfers[k].start_idx < n_stops && transfers[k].end_idx < n_stops
}

/// The error reported for a transfer whose stop index is out of range.
pub open spec fn transfer_error(t: AgentTransfer, n_stops: nat) -> DataExportError {
    if t.start_idx >= n_stops {
        DataExportError::NotFound { kind: NotFoundKind::Stop, id: t.start_idx }
    } else {
        DataExportError::NotFound { kind: NotFoundKind::Stop, id: t.end_idx }
    }
}

/// All timestamps are small enough to be exact single-precision integers.
pub open spec fn timestamps_exact(transfers: Seq<AgentTransfer>) -> bool {
    forall|i: int|
        0 <= i < transfers.len() ==> transfers[i].timestamp < 0x1000000
            && transfers[i].arrival_time < 0x1000000
}

/// The point buffer over the first `k` transfers: start stop, then end
/// stop, each as (longitude, latitude, height-100) float words.
pub open spec fn transfer_points_words(
    stops: Seq<RawStop>,
    transfers: Seq<AgentTransfer>,
    k: int,
) -> Seq<u32>
    decreases k,
{
    if k <= 0 {
        Seq::empty()
    } else {
        let t = transfers[k - 1];
        let sp = stop_point(stops, t.start_idx as int);
        let ep = stop_point(stops, t.end_idx as int);
        transfer_points_words(stops, transfers, k - 1) + seq![
            sp.lon_bits,
            sp.lat_bits,
            transfer_height_bits(),
            ep.lon_bits,
            ep.lat_bits,
            transfer_height_bits(),
        ]
    }
}

/// The timestamp buffer over the first `k` transfers: departure and arrival
/// as float words.
pub open spec fn transfer_time_words(transfers: Seq<AgentTransfer>, k: int) -> Seq<u32>
    decreases k,
{
    if k <= 0 {
        Seq::empty()
    } else {
        transfer_time_words(transfers, k - 1) + seq![
            f32_bits(transfers[k - 1].timestamp as nat) as u32,
            f32_bits(transfers[k - 1].arrival_time as nat) as u32,
        ]
    }
}

/// The start-index table: transfer `i`'s segment begins at point `2 * i`.
pub open spec fn transfer_start_words(n: nat) -> Seq<u32> {
    Seq::new(n, |i: int| (2 * i) as u32)
}

/// The four buffers the transfer exporter hands to the container writer.
#[derive(Debug)]
pub struct TransferBuffers {
    /// (longitude, latitude, height) f32 words, three per point, two points
    /// per transfer.
    pub points: Vec<u32>,
    /// For each transfer, the index (in points, not words) of its segment.
    pub start_indices: Vec<u32>,
    /// (departure, arrival) f32 words, two per transfer.
    pub timestamps: Vec<u32>,
    /// One RGB triplet per point, all purple.
    pub colors: Vec<u8>,
}

/// Resolves every stop's location up front; fails with the first stop that
/// lacks a coordinate.
fn resolve_stop_points(stops: &Vec<RawStop>) -> (r: Result<Vec<ShapePoint>, DataExportError>)
    requires
        stops@.len() <= 0xFFFF_FFFF,
    ensures
        r is Ok <==> stops_resolved(stops@),
        r matches Ok(v) ==> v@.len() == stops@.len() && forall|i: int|
            0 <= i < stops@.len() ==> v@[i] == stop_point(stops@, i),
        r matches Err(e) ==> exists|i: int|
            first_missing_stop(stops@, i) && e == (DataExportError::NotFound {
                kind: NotFoundKind::Stop,
                id: i as u32,
            }),
{
    let n = stops.len();
    let mut out: Vec<ShapePoint> = Vec::new();
    let mut i: usize = 0;
    while i < n
        invariant
            0 <= i <= n,
            n == stops@.len(),
            n <= 0xFFFF_FFFF,
            out@.len() == i,
            forall|k: int| 0 <= k < i ==> out@[k] == stop_point(stops@, k),
            forall|k: int| 0 <= k < i ==> stops@[k].lon_bits is Some && stops@[k].lat_bits is Some,
        decreases n - i,
    {
        let s = stops[i];
        match (s.lon_bits, s.lat_bits) {
            (Some(lon), Some(lat)) => {
                out.push(ShapePoint { lon_bits: lon, lat_bits: lat });
            },
            _ => {
                proof {
                    assert(first_missing_stop(stops@, i as int));
                }
                return Err(DataExportError::NotFound { kind: NotFoundKind::Stop, id: i as u32 });
            },
        }
        i = i + 1;
    }
    Ok(out)
}

/// Builds the point, start-index, timestamp and colour buffers for the
/// transfer list, in input order: one two-point segment per transfer at
/// height 100, its departure and arrival times, and a purple triplet per
/// point. Fails with the first stop lacking a coordinate, then with the
/// first transfer referencing a stop index out of range.
pub fn build_transfer_buffers(stops: &Vec<RawStop>, transfers: &Vec<AgentTransfer>) -> (r: Result<
    TransferBuffers,
    DataExportError,
>)
    requires
        stops@.len() <= 0xFFFF_FFFF,
        transfers@.len() <= 0x1FFF_FFFF,  // indices and buffer sizes stay in range
        timestamps_exact(transfers@),
    ensures
        r is Ok <==> stops_resolved(stops@) && indices_ok(transfers@, stops@.len()),
        r matches Ok(b) ==> {
            &&& b.points@ == transfer_points_words(stops@, transfers@, transfers@.len() as int)
            &&& b.start_indices@ == transfer_start_words(transfers@.len())
            &&& b.timestamps@ == transfer_time_words(transfers@, transfers@.len() as int)
            &&& b.colors@ == color_triplets((2 * transfers@.len()) as nat, purple())
        },
        r matches Err(e) ==> (!stops_resolved(stops@) ==> exists|i: int|
            first_missing_stop(stops@, i) && e == (DataExportError::NotFound {
                kind: NotFoundKind::Stop,
                id: i as u32,
            })),
        r matches Err(e) ==> (stops_resolved(stops@) ==> exists|i: int|
            first_bad_transfer(transfers@, stops@.len(), i) && e == transfer_error(
                transfers@[i],
                stops@.len(),
            )),
{
    let stop_points = match resolve_stop_points(stops) {
        Ok(v) => v,
        Err(e) => {
            return Err(e);
        },
    };
    let n_stops = stop_points.len();
    let n = transfers.len();

    let mut points: Vec<u32> = Vec::new();
    let mut start_indices: Vec<u32> = Vec::new();
    let mut timestamps: Vec<u32> = Vec::new();
    let mut colors: Vec<u8> = Vec::new();

    let height_bits = f32_bits_of(100);
    proof {
        assert(height_bits == transfer_height_bits());
    }

    let mut i: usize = 0;
    while i < n
        invariant
            0 <= i <= n,
            n == transfers@.len(),
            n <= 0x1FFF_FFFF,
            n_stops == stops@.len(),
            stops_resolved(stops@),
            timestamps_exact(transfers@),
            height_bits == transfer_height_bits(),
            stop_points@.len() == stops@.len(),
            forall|k: int| 0 <= k < stops@.len() ==> stop_points@[k] == stop_point(stops@, k),
            forall|k: int|
                0 <= k < i ==> transfers@[k].start_idx < n_stops && transfers@[k].end_idx
                    < n_stops,
            points@ == transfer_points_words(stops@, transfers@, i as int),
            start_indices@.len() == i,
            forall|k: int| 0 <= k < i ==> start_indices@[k] == (2 * k) as u32,
            timestamps@ == transfer_time_words(transfers@, i as int),
            colors@ == color_triplets((2 * i) as nat, purple()),
        decreases n - i,
    {
        let t = transfers[i];
        if t.start_idx as usize >= n_stops || t.end_idx as usize >= n_stops {
            proof {
                assert(first_bad_transfer(transfers@, stops@.len(), i as int));
            }
            let id = if t.start_idx as usize >= n_stops {
                t.start_idx
            } else {
                t.end_idx
            };
            return Err(DataExportError::NotFound { kind: NotFoundKind::Stop, id });
        }
        start_indices.push((2 * i) as u32);

        let sp = stop_points[t.start_idx as usize];
        let ep = stop_points[t.end_idx as usize];
        points.push(sp.lon_bits);
        points.push(sp.lat_bits);
        points.push(height_bits);
        points.push(ep.lon_bits);
        points.push(ep.lat_bits);
        points.push(height_bits);

        timestamps.push(f32_bits_of(t.timestamp));
        timestamps.push(f32_bits_of(t.arrival_time));

        colors.push(0xA0);
        colors.push(0x20);
        colors.push(0xF0);
        colors.push(0xA0);
        colors.push(0x20);
        colors.push(0xF0);

        proof {
            assert(points@ =~= transfer_points_words(stops@, transfers@, i as int + 1));
            assert(timestamps@ =~= transfer_time_words(transfers@, i as int + 1));
            assert(color_triplets((2 * i + 1) as nat, purple()) + seq![0xF0u8] =~= color_triplets(
                (2 * i + 1) as nat,
                purple(),
            ).push(0xF0u8));
            assert(colors@ =~= color_triplets((2 * (i + 1)) as nat, purple()));
        }
        i = i + 1;
    }
    Ok(TransferBuffers { points, start_indices, timestamps, colors })
}

/// The transfer buffers hold six point words and two time words per
/// transfer, over any prefix.
proof fn lemma_transfer_words_len(stops: Seq<RawStop>, transfers: Seq<AgentTransfer>, k: int)
    requires
        0 <= k <= transfers.len(),
    ensures
        transfer_points_words(stops, transfers, k).len() == 6 * k,
        transfer_time_words(transfers, k).len() == 2 * k,
    decreases k,
{
    if k > 0 {
        lemma_transfer_words_len(stops, transfers, k - 1);
    }
}

/// LAW: the point buffer holds six words and the timestamp buffer two words
/// per transfer, and transfer `i`'s slice of them is exactly its start
/// stop's and end stop's (longitude, latitude, height-100) words, in that
/// order, followed by its departure and arrival times as float words.
pub proof fn lemma_transfer_geometry(stops: Seq<RawStop>, transfers: Seq<AgentTransfer>, i: int)
    requires
        0 <= i < transfers.len(),
    ensures
        transfer_points_words(stops, transfers, transfers.len() as int).len() == 6
            * transfers.len(),
        transfer_time_words(transfers, transfers.len() as int).len() == 2 * transfers.len(),
        transfer_points_words(stops, transfers, transfers.len() as int).subrange(
            6 * i,
            6 * i + 6,
        ) == seq![
            stop_point(stops, transfers[i].start_idx as int).lon_bits,
            stop_point(stops, transfers[i].start_idx as int).lat_bits,
            transfer_height_bits(),
            stop_point(stops, transfers[i].end_idx as int).lon_bits,
            stop_point(stops, transfers[i].end_idx as int).lat_bits,
            transfer_height_bits(),
        ],
        transfer_time_words(transfers, transfers.len() as int).subrange(2 * i, 2 * i + 2) == seq![
            f32_bits(transfers[i].timestamp as nat) as u32,
            f32_bits(transfers[i].arrival_time as nat) as u32,
        ],
{
    lemma_transfer_words_len(stops, transfers, transfers.len() as int);
    lemma_transfer_slice(stops, transfers, transfers.len() as int, i);
}

/// Transfer `i`'s words sit at the same place in every longer prefix.
proof fn lemma_transfer_slice(
    stops: Seq<RawStop>,
    transfers: Seq<AgentTransfer>,
    k: int,
    i: int,
)
    requires
        0 <= i < k <= transfers.len(),
    ensures
        transfer_points_words(stops, transfers, k).subrange(6 * i, 6 * i + 6) == seq![
            stop_point(stops, transfers[i].start_idx as int).lon_bits,
            stop_point(stops, transfers[i].start_idx as int).lat_bits,
            transfer_height_bits(),
            stop_point(stops, transfers[i].end_idx as int).lon_bits,
            stop_point(stops, transfers[i].end_idx as int).lat_bits,
            transfer_height_bits(),
        ],
        transfer_time_words(transfers, k).subrange(2 * i, 2 * i + 2) == seq![
            f32_bits(transfers[i].timestamp as nat) as u32,
            f32_bits(transfers[i].arrival_time as nat) as u32,
        ],
    decreases k,
{
    lemma_transfer_words_len(stops, transfers, k - 1);
    lemma_transfer_words_len(stops, transfers, k);
    if i == k - 1 {
        assert(transfer_points_words(stops, transfers, k).subrange(6 * i, 6 * i + 6) =~= seq![
            stop_point(stops, transfers[i].start_idx as int).lon_bits,
            stop_point(stops, transfers[i].start_idx as int).lat_bits,
            transfer_height_bits(),
            stop_point(stops, transfers[i].end_idx as int).lon_bits,
            stop_point(stops, transfers[i].end_idx as int).lat_bits,
            transfer_height_bits(),
        ]);
        assert(transfer_time_words(transfers, k).subrange(2 * i, 2 * i + 2) =~= seq![
            f32_bits(transfers[i].timestamp as nat) as u32,
            f32_bits(transfers[i].arrival_time as nat) as u32,
        ]);
    } else {
        lemma_transfer_slice(stops, transfers, k - 1, i);
        assert(transfer_points_words(stops, transfers, k).subrange(6 * i, 6 * i + 6)
            =~= transfer_points_words(stops, transfers, k - 1).subrange(6 * i, 6 * i + 6));
        assert(transfer_time_words(transfers, k).subrange(2 * i, 2 * i + 2) =~= transfer_time_words(
            transfers,
            k - 1,
        ).subrange(2 * i, 2 * i + 2));
    }
}

/// The four chunks the transfer exporter writes, in their fixed order:
/// points, start indices, timestamps, colours.
pub open spec fn transfer_chunks(stops: Seq<RawStop>, transfers: Seq<AgentTransfer>) -> Seq<
    Seq<u8>,
> {
    seq![
        words_bytes(transfer_points_words(stops, transfers, transfers.len() as int)),
        words_bytes(transfer_start_words(transfers.len())),
        words_bytes(transfer_time_words(transfers, transfers.len() as int)),
        color_triplets((2 * transfers.len()) as nat, purple()),
    ]
}

/// Exports the transfer list as a chunk container byte stream: point,
/// start-index, timestamp and colour buffers, serialized little-endian and
/// packed in that order. Fails with the first stop lacking a coordinate,
/// then with the first transfer referencing a stop index out of range, and
/// with `TooLarge` when an offset would overflow a 32-bit header field.
pub fn export_agent_transfers(stops: &Vec<RawStop>, transfers: &Vec<AgentTransfer>) -> (r: Result<
    Vec<u8>,
    DataExportError,
>)
    requires
        stops@.len() <= 0xFFFF_FFFF,
        transfers@.len() <= 0x1FFF_FFFF,  // indices and buffer sizes stay in range
        timestamps_exact(transfers@),
    ensures
        r is Ok <==> stops_resolved(stops@) && indices_ok(transfers@, stops@.len()) && fits_u32(
            transfer_chunks(stops@, transfers@),
        ),
        r matches Ok(bytes) ==> bytes@ == container_bytes(transfer_chunks(stops@, transfers@)),
        r matches Err(e) ==> (!stops_resolved(stops@) ==> exists|i: int|
            first_missing_stop(stops@, i) && e == (DataExportError::NotFound {
                kind: NotFoundKind::Stop,
                id: i as u32,
            })),
        r matches Err(e) ==> (stops_resolved(stops@) && !indices_ok(transfers@, stops@.len())
            ==> exists|i: int|
            first_bad_transfer(transfers@, stops@.len(), i) && e == transfer_error(
                transfers@[i],
                stops@.len(),
            )),
        r matches Err(e) ==> (stops_resolved(stops@) && indices_ok(transfers@, stops@.len()) ==> e
            == DataExportError::TooLarge),
{
    let b = match build_transfer_buffers(stops, transfers) {
        Ok(b) => b,
        Err(e) => {
            return Err(e);
        },
    };
    let point_bytes = serialize_u32s(&b.points);
    let index_bytes = serialize_u32s(&b.start_indices);
    let time_bytes = serialize_u32s(&b.timestamps);
    let mut chunks: Vec<Vec<u8>> = Vec::new();
    chunks.push(point_bytes);
    chunks.push(index_bytes);
    chunks.push(time_bytes);
    chunks.push(b.colors);
    proof {
        assert(chunks.deep_view() =~= transfer_chunks(stops@, transfers@)) by {
            lemma_view_link(&chunks, 0);
            lemma_view_link(&chunks, 1);
            lemma_view_link(&chunks, 2);
            lemma_view_link(&chunks, 3);
        }
    }
    write_bin(&chunks)
}

} // verus!
