//! The transit-route shape exporter.
//!
//! Turns a table of route shapes (polylines) into three container chunks:
//! a flat point buffer of `(longitude, latitude, height)` float words, a
//! start-index table with one entry per shape, and a colour buffer with one
//! RGB triplet per point. The height is synthetic: the first distinct route
//! colour encountered gets 10, each subsequently distinct colour gets the
//! previous maximum plus 10, so overlapping routes of different colours are
//! drawn at different z-levels.

use vstd::prelude::*;

use crate::errors::{DataExportError, NotFoundKind};

verus! {

/// An RGB colour, one byte per channel, as stored in the colour chunk.
#[derive(Clone, Copy, Debug, PartialEq, Eq, Structural)]
pub struct Rgb {
    pub r: u8,
    pub g: u8,
    pub b: u8,
}

/// One polyline vertex: longitude and latitude as the bit patterns of
/// little-endian 32-bit floats.
#[derive(Clone, Copy, Debug, PartialEq, Eq, Structural)]
pub struct ShapePoint {
    pub lon_bits: u32,
    pub lat_bits: u32,
}

/// A route shape: an identifier and its ordered polyline vertices.
#[derive(Debug)]
pub struct Shape {
    pub id: u32,
    pub points: Vec<ShapePoint>,
}

/// A trip: the shape it runs along, if any, and the route it belongs to.
#[derive(Clone, Copy, Debug)]
pub struct Trip {
    pub shape_id: Option<u32>,
    pub route_id: u32,
}

/// A route with its display colour.
#[derive(Clone, Copy, Debug)]
pub struct Route {
    pub id: u32,
    pub color: Rgb,
}

/// The route of the first trip that references shape `sid`, if any.
pub open spec fn trip_route_for(trips: Seq<Trip>, sid: u32) -> Option<u32>
    decreases trips.len(),
{
    if trips.len() == 0 {
        None
    } else if trips[0].shape_id == Some(sid) {
        Some(trips[0].route_id)
    } else {
        trip_route_for(trips.drop_first(), sid)
    }
}

/// The colour of the first route with identifier `rid`, if any.
pub open spec fn route_color(routes: Seq<Route>, rid: u32) -> Option<Rgb>
    decreases routes.len(),
{
    if routes.len() == 0 {
        None
    } else if routes[0].id == rid {
        Some(routes[0].color)
    } else {
        route_color(routes.drop_first(), rid)
    }
}

/// The display colour of shape `sid`: the colour of the route of the first
/// trip that references it.
pub open spec fn shape_color(trips: Seq<Trip>, routes: Seq<Route>, sid: u32) -> Option<Rgb> {
    match trip_route_for(trips, sid) {
        Some(rid) => route_color(routes, rid),
        None => None,
    }
}

/// Whether shape `sid`'s colour can be resolved at all.
pub open spec fn resolves(trips: Seq<Trip>, routes: Seq<Route>, sid: u32) -> bool {
    shape_color(trips, routes, sid) is Some
}

/// Every shape in the table resolves to a colour.
pub open spec fn resolves_all(shapes: Seq<Shape>, trips: Seq<Trip>, routes: Seq<Route>) -> bool {
    forall|i: int| 0 <= i < shapes.len() ==> resolves(trips, routes, shapes[i].id)
}

/// The resolved colour of shape `sid` (black if it does not resolve).
pub open spec fn color_at(trips: Seq<Trip>, routes: Seq<Route>, sid: u32) -> Rgb
    recommends
        resolves(trips, routes, sid),
{
    match shape_color(trips, routes, sid) {
        Some(c) => c,
        None => Rgb { r: 0, g: 0, b: 0 },
    }
}

/// The error the exporter reports for shape `sid` when its colour cannot
/// be resolved: a missing trip, or the trip's route missing from the table.
pub open spec fn lookup_error(trips: Seq<Trip>, routes: Seq<Route>, sid: u32) -> DataExportError
    recommends
        !resolves(trips, routes, sid),
{
    match trip_route_for(trips, sid) {
        None => DataExportError::NotFound { kind: NotFoundKind::Trip, id: sid },
        Some(rid) => DataExportError::NotFound { kind: NotFoundKind::Route, id: rid },
    }
}

/// Finds the route of the first trip that references shape `sid`.
fn find_trip_route(trips: &Vec<Trip>, sid: u32) -> (r: Option<u32>)
    ensures
        r == trip_route_for(trips@, sid),
{
    let n = trips.len();
    let mut t: usize = 0;
    proof {
        assert(trips@.skip(0) =~= trips@);
    }
    while t < n
        invariant
            0 <= t <= n,
            n == trips@.len(),
            trip_route_for(trips@, sid) == trip_route_for(trips@.skip(t as int), sid),
        decreases n - t,
    {
        let hit = match trips[t].shape_id {
            Some(s) => s == sid,
            None => false,
        };
        proof {
            assert(trips@.skip(t as int)[0] == trips@[t as int]);
            assert(trips@.skip(t as int).drop_first() =~= trips@.skip(t as int + 1));
        }
        if hit {
            return Some(trips[t].route_id);
        }
        t = t + 1;
    }
    proof {
        assert(trips@.skip(n as int) =~= Seq::<Trip>::empty());
    }
    None
}

/// Finds the colour of the first route with identifier `rid`.
fn find_route_color(routes: &Vec<Route>, rid: u32) -> (r: Option<Rgb>)
    ensures
        r == route_color(routes@, rid),
{
    let n = routes.len();
    let mut t: usize = 0;
    proof {
        assert(routes@.skip(0) =~= routes@);
    }
    while t < n
        invariant
            0 <= t <= n,
            n == routes@.len(),
            route_color(routes@, rid) == route_color(routes@.skip(t as int), rid),
        decreases n - t,
    {
        proof {
            assert(routes@.skip(t as int)[0] == routes@[t as int]);
            assert(routes@.skip(t as int).drop_first() =~= routes@.skip(t as int + 1));
        }
        if routes[t].id == rid {
            return Some(routes[t].color);
        }
        t = t + 1;
    }
    proof {
        assert(routes@.skip(n as int) =~= Seq::<Route>::empty());
    }
    None
}

/// Index of the first occurrence of `c` in `s`, or -1 if it is absent.
pub open spec fn pos_in(s: Seq<Rgb>, c: Rgb) -> int
    decreases s.len(),
{
    if s.len() == 0 {
        -1
    } else if s[0] == c {
        0
    } else {
        let r = pos_in(s.drop_first(), c);
        if r < 0 {
            -1
        } else {
            1 + r
        }
    }
}

/// The distinct colours of `s` in encounter order.
pub open spec fn distinct_colors(s: Seq<Rgb>) -> Seq<Rgb>
    decreases s.len(),
{
    if s.len() == 0 {
        Seq::empty()
    } else {
        let p = distinct_colors(s.drop_last());
        if pos_in(p, s.last()) >= 0 {
            p
        } else {
            p.push(s.last())
        }
    }
}

/// Encounter rank of colour `i` of the sequence: how many distinct colours
/// came strictly before its first occurrence.
pub open spec fn encounter_rank(colors: Seq<Rgb>, i: int) -> int {
    pos_in(distinct_colors(colors), colors[i])
}

/// Synthetic height of the shape with the `i`-th colour of the sequence:
/// 10 for the first distinct colour, the previous maximum plus 10 for each
/// subsequently distinct one.
pub open spec fn shape_height(colors: Seq<Rgb>, i: int) -> int {
    10 * (pos_in(distinct_colors(colors.take(i + 1)), colors[i]) + 1)
}

/// `pos_in` finds exactly the first occurrence.
proof fn lemma_pos_in_first(s: Seq<Rgb>, c: Rgb, j: int)
    requires
        0 <= j < s.len(),
        s[j] == c,
        forall|k: int| 0 <= k < j ==> s[k] != c,
    ensures
        pos_in(s, c) == j,
    decreases s.len(),
{
    if j > 0 {
        lemma_pos_in_first(s.drop_first(), c, j - 1);
    }
}

/// A found position is inside the sequence and holds the colour.
proof fn lemma_pos_in_valid(s: Seq<Rgb>, c: Rgb)
    requires
        pos_in(s, c) >= 0,
    ensures
        pos_in(s, c) < s.len(),
        s[pos_in(s, c)] == c,
    decreases s.len(),
{
    if s.len() > 0 && s[0] != c {
        lemma_pos_in_valid(s.drop_first(), c);
    }
}

/// A colour present in a prefix has the same position in any extension.
proof fn lemma_pos_in_prefix(p: Seq<Rgb>, s: Seq<Rgb>, c: Rgb)
    requires
        p.is_prefix_of(s),
        pos_in(p, c) >= 0,
    ensures
        pos_in(s, c) == pos_in(p, c),
    decreases p.len(),
{
    assert(p.len() <= s.len());
    assert(p[0] == s[0]);
    if p[0] != c {
        assert(p.drop_first().is_prefix_of(s.drop_first()));
        lemma_pos_in_prefix(p.drop_first(), s.drop_first(), c);
    }
}

/// A colour with no position in the sequence occurs nowhere in it.
proof fn lemma_pos_in_absent(s: Seq<Rgb>, c: Rgb)
    requires
        pos_in(s, c) < 0,
    ensures
        forall|k: int| 0 <= k < s.len() ==> s[k] != c,
    decreases s.len(),
{
    if s.len() > 0 {
        lemma_pos_in_absent(s.drop_first(), c);
        assert forall|k: int| 0 <= k < s.len() implies s[k] != c by {
            if k > 0 {
                assert(s.drop_first()[k - 1] == s[k]);
            }
        }
    }
}

/// The distinct-colour list of a prefix is a prefix of the full list.
proof fn lemma_distinct_colors_extends(s: Seq<Rgb>, k: int)
    requires
        0 <= k <= s.len(),
    ensures
        distinct_colors(s.take(k)).is_prefix_of(distinct_colors(s)),
    decreases s.len(),
{
    if k == s.len() {
        assert(s.take(k) =~= s);
        assert(distinct_colors(s).is_prefix_of(distinct_colors(s)));
    } else {
        lemma_distinct_colors_extends(s.drop_last(), k);
        assert(s.drop_last().take(k) =~= s.take(k));
        let a = distinct_colors(s.take(k));
        let b = distinct_colors(s.drop_last());
        let d = distinct_colors(s);
        assert(a =~= b.take(a.len() as int));
        if pos_in(b, s.last()) >= 0 {
            assert(d == b);
        } else {
            assert(d == b.push(s.last()));
            assert(b =~= d.take(b.len() as int));
            assert(a =~= d.take(a.len() as int));
        }
    }
}

/// Every colour of the sequence appears in its distinct-colour list, at the
/// same position in the list of any prefix that already contains it.
proof fn lemma_rank_stable(colors: Seq<Rgb>, i: int)
    requires
        0 <= i < colors.len(),
    ensures
        pos_in(distinct_colors(colors.take(i + 1)), colors[i]) >= 0,
        pos_in(distinct_colors(colors.take(i + 1)), colors[i]) == encounter_rank(colors, i),
{
    let t = colors.take(i + 1);
    let p = distinct_colors(t.drop_last());
    assert(t.last() == colors[i]);
    if pos_in(p, t.last()) >= 0 {
        assert(distinct_colors(t) == p);
    } else {
        assert(distinct_colors(t) == p.push(t.last()));
        lemma_pos_in_absent(p, t.last());
        assert forall|k: int| 0 <= k < p.len() implies p.push(t.last())[k] != t.last() by {
            assert(p.push(t.last())[k] == p[k]);
        }
        lemma_pos_in_first(p.push(t.last()), t.last(), p.len() as int);
    }
    lemma_distinct_colors_extends(colors, i + 1);
    lemma_pos_in_prefix(distinct_colors(t), distinct_colors(colors), colors[i]);
}

/// LAW: two shapes with the same colour get the same height, and heights
/// differ by exactly ten times the difference of the colours' encounter
/// ranks (so each subsequently distinct colour sits 10 higher).
pub proof fn lemma_color_heights(colors: Seq<Rgb>, i: int, j: int)
    requires
        0 <= i < colors.len(),
        0 <= j < colors.len(),
    ensures
        shape_height(colors, i) == 10 * (encounter_rank(colors, i) + 1),
        colors[i] == colors[j] ==> shape_height(colors, i) == shape_height(colors, j),
        shape_height(colors, i) - shape_height(colors, j) == 10 * (encounter_rank(colors, i)
            - encounter_rank(colors, j)),
{
    lemma_rank_stable(colors, i);
    lemma_rank_stable(colors, j);
}

/// Colour of each shape, in shape order.
pub open spec fn colors_of(shapes: Seq<Shape>, trips: Seq<Trip>, routes: Seq<Route>) -> Seq<Rgb> {
    Seq::new(shapes.len(), |i: int| color_at(trips, routes, shapes[i].id))
}

/// Total number of polyline points over all shapes.
pub open spec fn points_count(shapes: Seq<Shape>) -> nat
    decreases shapes.len(),
{
    if shapes.len() == 0 {
        0
    } else {
        points_count(shapes.drop_last()) + shapes.last().points@.len()
    }
}

/// Number of polyline points of the shapes before shape `i`.
pub open spec fn points_before(shapes: Seq<Shape>, i: int) -> nat {
    points_count(shapes.take(i))
}

/// Float words of one shape's points: (longitude, latitude, height) per
/// vertex, all as f32 bit patterns.
pub open spec fn point_words(pts: Seq<ShapePoint>, h_bits: u32) -> Seq<u32>
    decreases pts.len(),
{
    if pts.len() == 0 {
        Seq::empty()
    } else {
        point_words(pts.drop_last(), h_bits) + seq![
            pts.last().lon_bits,
            pts.last().lat_bits,
            h_bits,
        ]
    }
}

/// `n` copies of one colour's RGB triplet.
pub open spec fn color_triplets(n: nat, c: Rgb) -> Seq<u8>
    decreases n,
{
    if n == 0 {
        Seq::empty()
    } else {
        color_triplets((n - 1) as nat, c) + seq![c.r, c.g, c.b]
    }
}

/// The f32 bit pattern of shape `i`'s synthetic height.
pub open spec fn height_bits(colors: Seq<Rgb>, i: int) -> u32 {
    crate::float_bits::f32_bits(shape_height(colors, i) as nat) as u32
}

/// The flat point buffer over the first `k` shapes.
pub open spec fn points_words(shapes: Seq<Shape>, colors: Seq<Rgb>, k: int) -> Seq<u32>
    decreases k,
{
    if k <= 0 {
        Seq::empty()
    } else {
        points_words(shapes, colors, k - 1) + point_words(
            shapes[k - 1].points@,
            height_bits(colors, k - 1),
        )
    }
}

/// The colour buffer over the first `k` shapes: one triplet per point.
pub open spec fn colors_bytes(shapes: Seq<Shape>, colors: Seq<Rgb>, k: int) -> Seq<u8>
    decreases k,
{
    if k <= 0 {
        Seq::empty()
    } else {
        colors_bytes(shapes, colors, k - 1) + color_triplets(
            shapes[k - 1].points@.len(),
            colors[k - 1],
        )
    }
}

/// Shape `i` is the first one whose colour does not resolve.
pub open spec fn first_unresolved(
    shapes: Seq<Shape>,
    trips: Seq<Trip>,
    routes: Seq<Route>,
    i: int,
) -> bool {
    &&& 0 <= i < shapes.len()
    &&& !resolves(trips, routes, shapes[i].id)
    &&& forall|k: int| 0 <= k < i ==> resolves(trips, routes, shapes[k].id)
}

/// One shape's point buffer holds three words per vertex.
pub proof fn lemma_point_words_len(pts: Seq<ShapePoint>, h_bits: u32)
    ensures
        point_words(pts, h_bits).len() == 3 * pts.len(),
    decreases pts.len(),
{
    if pts.len() > 0 {
        lemma_point_words_len(pts.drop_last(), h_bits);
    }
}

/// Taking one more shape appends exactly that shape's point count.
proof fn lemma_points_take_succ(shapes: Seq<Shape>, i: int)
    requires
        0 <= i < shapes.len(),
    ensures
        points_before(shapes, i + 1) == points_before(shapes, i) + shapes[i].points@.len(),
{
    assert(shapes.take(i + 1).drop_last() =~= shapes.take(i));
}

/// A longer prefix of shapes never has fewer points.
proof fn lemma_points_monotone(shapes: Seq<Shape>, i: int, j: int)
    requires
        0 <= i <= j <= shapes.len(),
    ensures
        points_before(shapes, i) <= points_before(shapes, j),
    decreases j - i,
{
    if i < j {
        lemma_points_monotone(shapes, i, j - 1);
        lemma_points_take_succ(shapes, j - 1);
    }
}

/// The distinct-colour list is never longer than the colour sequence.
proof fn lemma_distinct_len(s: Seq<Rgb>)
    ensures
        distinct_colors(s).len() <= s.len(),
    decreases s.len(),
{
    if s.len() > 0 {
        lemma_distinct_len(s.drop_last());
    }
}

/// Finds the first position of `c` in `seen`, if it occurs.
fn find_color_pos(seen: &Vec<Rgb>, c: Rgb) -> (r: Option<usize>)
    ensures
        r matches Some(p) ==> p == pos_in(seen@, c),
        r is None ==> pos_in(seen@, c) < 0,
{
    let n = seen.len();
    let mut t: usize = 0;
    while t < n
        invariant
            0 <= t <= n,
            n == seen@.len(),
            forall|k: int| 0 <= k < t ==> seen@[k] != c,
        decreases n - t,
    {
        if seen[t].r == c.r && seen[t].g == c.g && seen[t].b == c.b {
            proof {
                lemma_pos_in_first(seen@, c, t as int);
            }
            return Some(t);
        }
        t = t + 1;
    }
    proof {
        if pos_in(seen@, c) >= 0 {
            lemma_pos_in_valid(seen@, c);
        }
    }
    None
}

/// The three buffers the shape exporter hands to the container writer.
#[derive(Debug)]
pub struct ShapeBuffers {
    /// (longitude, latitude, height) f32 words, three per point.
    pub points: Vec<u32>,
    /// For each shape, the index (in points, not words) of its first vertex.
    pub start_indices: Vec<u32>,
    /// One RGB triplet per point.
    pub colors: Vec<u8>,
}

/// Builds the point, start-index and colour buffers for the shape table.
/// Shapes are processed in table order; each shape's colour is the colour
/// of the route of the first trip referencing it, and its height is 10
/// times one more than its colour's encounter rank. Fails with the first
/// shape whose colour cannot be resolved.
pub fn build_shape_buffers(shapes: &Vec<Shape>, trips: &Vec<Trip>, routes: &Vec<Route>) -> (r:
    Result<ShapeBuffers, DataExportError>)
    requires
        shapes@.len() <= 0x0019_9999,  // heights stay exactly representable as f32
        points_count(shapes@) <= 0x1FFF_FFFF,  // 3 * count fits a 32-bit index
    ensures
        r is Ok <==> resolves_all(shapes@, trips@, routes@),
        r matches Ok(b) ==> {
            let cols = colors_of(shapes@, trips@, routes@);
            &&& b.points@ == points_words(shapes@, cols, shapes@.len() as int)
            &&& b.start_indices@.len() == shapes@.len()
            &&& shapes@.len() > 0 ==> b.start_indices@[0] == 0
            &&& forall|i: int|
                0 <= i < shapes@.len() ==> b.start_indices@[i] == points_before(shapes@, i)
            &&& b.colors@ == colors_bytes(shapes@, cols, shapes@.len() as int)
        },
        r matches Err(e) ==> exists|i: int|
            first_unresolved(shapes@, trips@, routes@, i) && e == lookup_error(
                trips@,
                routes@,
                shapes@[i].id,
            ),
{
    let ghost cols = colors_of(shapes@, trips@, routes@);
    let n = shapes.len();
    let mut points: Vec<u32> = Vec::new();
    let mut start_indices: Vec<u32> = Vec::new();
    let mut colors: Vec<u8> = Vec::new();
    let mut seen: Vec<Rgb> = Vec::new();

    let mut i: usize = 0;
    while i < n
        invariant
            0 <= i <= n,
            n == shapes@.len(),
            n <= 0x0019_9999,
            points_count(shapes@) <= 0x1FFF_FFFF,
            cols == colors_of(shapes@, trips@, routes@),
            forall|k: int| 0 <= k < i ==> resolves(trips@, routes@, shapes@[k].id),
            points@ == points_words(shapes@, cols, i as int),
            points@.len() == 3 * points_before(shapes@, i as int),
            start_indices@.len() == i,
            forall|k: int| 0 <= k < i ==> start_indices@[k] == points_before(shapes@, k),
            colors@ == colors_bytes(shapes@, cols, i as int),
            seen@ == distinct_colors(cols.take(i as int)),
        decreases n - i,
    {
        let sid = shapes[i].id;
        proof {
            assert(cols.take(0) =~= Seq::<Rgb>::empty());
        }

        // Resolve the shape's colour: first trip referencing it, then the
        // trip's route.
        let rid = match find_trip_route(trips, sid) {
            Some(rid) => rid,
            None => {
                proof {
                    assert(first_unresolved(shapes@, trips@, routes@, i as int));
                }
                return Err(DataExportError::NotFound { kind: NotFoundKind::Trip, id: sid });
            },
        };
        let c = match find_route_color(routes, rid) {
            Some(c) => c,
            None => {
                proof {
                    assert(first_unresolved(shapes@, trips@, routes@, i as int));
                }
                return Err(DataExportError::NotFound { kind: NotFoundKind::Route, id: rid });
            },
        };
        proof {
            assert(resolves(trips@, routes@, sid));
            assert(c == cols[i as int]);
        }

        // Determine the height from the colour's encounter rank.
        let ghost t = cols.take(i as int + 1);
        proof {
            assert(t.drop_last() =~= cols.take(i as int));
            assert(t.last() == cols[i as int]);
            lemma_distinct_len(cols.take(i as int));
        }
        let rank: usize = match find_color_pos(&seen, c) {
            Some(p) => {
                proof {
                    assert(distinct_colors(t) == seen@);
                    lemma_pos_in_valid(seen@, c);
                }
                p
            },
            None => {
                proof {
                    assert(distinct_colors(t) == seen@.push(c));
                    lemma_pos_in_absent(seen@, c);
                    assert forall|k: int| 0 <= k < seen@.len() implies seen@.push(c)[k] != c by {
                        assert(seen@.push(c)[k] == seen@[k]);
                    }
                    lemma_pos_in_first(seen@.push(c), c, seen@.len() as int);
                }
                let p = seen.len();
                seen.push(c);
                p
            },
        };
        proof {
            assert(rank <= i);
        }
        let height_val: u32 = 10 * ((rank as u32) + 1);
        proof {
            assert(height_val == shape_height(cols, i as int));
        }
        let h_bits = crate::float_bits::f32_bits_of(height_val);
        proof {
            assert(h_bits == height_bits(cols, i as int));
        }

        // Start index of this shape, in points (three words per point).
        proof {
            lemma_points_monotone(shapes@, i as int, shapes@.len() as int);
            assert(shapes@.take(n as int) =~= shapes@);
        }
        start_indices.push((points.len() / 3) as u32);

        // Append the shape's vertices and one colour triplet per vertex.
        let ghost points_prev = points@;
        let ghost colors_prev = colors@;
        let pts = &shapes[i].points;
        let m = pts.len();
        proof {
            lemma_points_take_succ(shapes@, i as int);
        }
        let mut k: usize = 0;
        while k < m
            invariant
                0 <= k <= m,
                m == pts@.len(),
                points@ == points_prev + point_words(pts@.take(k as int), h_bits),
                colors@ == colors_prev + color_triplets(k as nat, c),
            decreases m - k,
        {
            points.push(pts[k].lon_bits);
            points.push(pts[k].lat_bits);
            points.push(h_bits);
            colors.push(c.r);
            colors.push(c.g);
            colors.push(c.b);
            proof {
                assert(pts@.take(k as int + 1).drop_last() =~= pts@.take(k as int));
                assert(points@ =~= points_prev + point_words(pts@.take(k as int + 1), h_bits));
                assert(colors@ =~= colors_prev + color_triplets((k + 1) as nat, c));
            }
            k = k + 1;
        }
        proof {
            assert(pts@.take(m as int) =~= pts@);
            assert(points@ =~= points_words(shapes@, cols, i as int + 1));
            assert(colors@ =~= colors_bytes(shapes@, cols, i as int + 1));
            lemma_point_words_len(pts@, h_bits);
        }
        i = i + 1;
    }
    proof {
        assert(cols.take(n as int) =~= cols);
    }
    Ok(ShapeBuffers { points, start_indices, colors })
}

/// The start-index table as 32-bit words: for each shape, the number of
/// points that come before it.
pub open spec fn start_words(shapes: Seq<Shape>) -> Seq<u32> {
    Seq::new(shapes.len(), |i: int| points_before(shapes, i) as u32)
}

/// The three chunks the shape exporter writes, in their fixed order:
/// points, start indices, colours.
pub open spec fn shape_chunks(shapes: Seq<Shape>, trips: Seq<Trip>, routes: Seq<Route>) -> Seq<
    Seq<u8>,
> {
    let cols = colors_of(shapes, trips, routes);
    seq![
        crate::container::words_bytes(points_words(shapes, cols, shapes.len() as int)),
        crate::container::words_bytes(start_words(shapes)),
        colors_bytes(shapes, cols, shapes.len() as int),
    ]
}

/// Exports the shape table as a chunk container byte stream: the flat point
/// buffer, the start-index table and the colour buffer, serialized little-
/// endian and packed in that order. Fails with the first shape whose colour
/// cannot be resolved, or with `TooLarge` when an offset would overflow a
/// 32-bit header field.
pub fn export_shape_file(shapes: &Vec<Shape>, trips: &Vec<Trip>, routes: &Vec<Route>) -> (r:
    Result<Vec<u8>, DataExportError>)
    requires
        shapes@.len() <= 0x0019_9999,  // heights stay exactly representable as f32
        points_count(shapes@) <= 0x1FFF_FFFF,  // 3 * count fits a 32-bit index
    ensures
        r is Ok <==> resolves_all(shapes@, trips@, routes@) && crate::container::fits_u32(
            shape_chunks(shapes@, trips@, routes@),
        ),
        r matches Ok(bytes) ==> bytes@ == crate::container::container_bytes(
            shape_chunks(shapes@, trips@, routes@),
        ),
        r matches Err(e) ==> (resolves_all(shapes@, trips@, routes@) ==> e
            == DataExportError::TooLarge),
        r matches Err(e) ==> (!resolves_all(shapes@, trips@, routes@) ==> exists|i: int|
            first_unresolved(shapes@, trips@, routes@, i) && e == lookup_error(
                trips@,
                routes@,
                shapes@[i].id,
            )),
{
    let b = match build_shape_buffers(shapes, trips, routes) {
        Ok(b) => b,
        Err(e) => {
            return Err(e);
        },
    };
    let point_bytes = crate::container::serialize_u32s(&b.points);
    let index_bytes = crate::container::serialize_u32s(&b.start_indices);
    proof {
        assert(b.start_indices@ =~= start_words(shapes@)) by {
            assert forall|i: int| 0 <= i < shapes@.len() implies b.start_indices@[i] == start_words(
                shapes@,
            )[i] by {
                lemma_points_monotone(shapes@, i, shapes@.len() as int);
                assert(shapes@.take(shapes@.len() as int) =~= shapes@);
            }
        }
    }
    let mut chunks: Vec<Vec<u8>> = Vec::new();
    chunks.push(point_bytes);
    chunks.push(index_bytes);
    chunks.push(b.colors);
    proof {
        assert(chunks.deep_view() =~= shape_chunks(shapes@, trips@, routes@)) by {
            crate::container::lemma_view_link(&chunks, 0);
            crate::container::lemma_view_link(&chunks, 1);
            crate::container::lemma_view_link(&chunks, 2);
        }
    }
    crate::container::write_bin(&chunks)
}

} // verus!
