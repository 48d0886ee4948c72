//! The aligned binary chunk container.
//!
//! A container holds an ordered list of byte chunks in a single byte stream:
//! first a header of one `(offset, length)` pair per chunk (both unsigned
//! 32-bit little-endian; the offset counts from the start of the stream, the
//! length is the chunk's true, unpadded length), then each chunk's bytes
//! padded with zeros to the next multiple of 8.

use vstd::prelude::*;

use crate::errors::DataExportError;

verus! {

/// `n` rounded up to the next multiple of 8.
pub open spec fn round8(n: nat) -> nat {
    ((n + 7) / 8) * 8
}

/// The four little-endian bytes of `x` (meaningful for `x < 2^32`).
pub open spec fn le4(x: nat) -> Seq<u8> {
    seq![
        (x % 0x100) as u8,
        ((x / 0x100) % 0x100) as u8,
        ((x / 0x10000) % 0x100) as u8,
        ((x / 0x1000000) % 0x100) as u8,
    ]
}

/// The unsigned 32-bit value stored little-endian at `pos` in `s`.
pub open spec fn read_le4(s: Seq<u8>, pos: int) -> nat {
    (s[pos] + 0x100 * s[pos + 1] + 0x10000 * s[pos + 2] + 0x1000000 * s[pos + 3]) as nat
}

/// A chunk followed by its zero padding up to a multiple of 8 bytes.
pub open spec fn padded_chunk(c: Seq<u8>) -> Seq<u8> {
    c + Seq::new((round8(c.len()) - c.len()) as nat, |i: int| 0u8)
}

/// The data region: every chunk in order, each zero-padded.
pub open spec fn data_region(cs: Seq<Seq<u8>>) -> Seq<u8>
    decreases cs.len(),
{
    if cs.len() == 0 {
        Seq::empty()
    } else {
        data_region(cs.drop_last()) + padded_chunk(cs.last())
    }
}

/// Total padded length of all chunks.
pub open spec fn total_padded(cs: Seq<Seq<u8>>) -> nat
    decreases cs.len(),
{
    if cs.len() == 0 {
        0
    } else {
        total_padded(cs.drop_last()) + round8(cs.last().len())
    }
}

/// The header takes 8 bytes (two 32-bit values) per chunk.
pub open spec fn header_size(cs: Seq<Seq<u8>>) -> nat {
    cs.len() * 8
}

/// Byte offset of chunk `i`'s data from the start of the container.
/// `chunk_offset(cs, cs.len())` is the total container size.
pub open spec fn chunk_offset(cs: Seq<Seq<u8>>, i: int) -> nat {
    header_size(cs) + total_padded(cs.take(i))
}

/// Length of the whole container in bytes.
pub open spec fn total_size(cs: Seq<Seq<u8>>) -> nat {
    header_size(cs) + total_padded(cs)
}

/// Every offset the header stores must fit in an unsigned 32-bit field.
pub open spec fn fits_u32(cs: Seq<Seq<u8>>) -> bool {
    total_size(cs) <= 0xFFFF_FFFF
}

/// The first `k` header entries, in order.
pub open spec fn header_bytes(cs: Seq<Seq<u8>>, k: int) -> Seq<u8>
    decreases k,
{
    if k <= 0 {
        Seq::empty()
    } else {
        header_bytes(cs, k - 1) + le4(chunk_offset(cs, k - 1)) + le4(cs[k - 1].len())
    }
}

/// The entire container: header entries for every chunk, then the data region.
pub open spec fn container_bytes(cs: Seq<Seq<u8>>) -> Seq<u8> {
    header_bytes(cs, cs.len() as int) + data_region(cs)
}

/// Rounds a byte length up to the next multiple of 8.
pub fn round_up_to_eight(n: u64) -> (r: u64)
    requires
        n <= 0xFFFF_FFFF,
    ensures
        r == round8(n as nat),
{
    ((n + 7) / 8) * 8
}

/// Appends the four little-endian bytes of `x` to `out`.
pub fn push_le4(out: &mut Vec<u8>, x: u32)
    ensures
        final(out)@ == old(out)@ + le4(x as nat),
{
    out.push((x % 0x100) as u8);
    out.push(((x / 0x100) % 0x100) as u8);
    out.push(((x / 0x10000) % 0x100) as u8);
    out.push(((x / 0x1000000) % 0x100) as u8);
    assert(out@ =~= old(out)@ + le4(x as nat));
}

/// The little-endian bytes of a sequence of 32-bit words, in order.
pub open spec fn words_bytes(ws: Seq<u32>) -> Seq<u8>
    decreases ws.len(),
{
    if ws.len() == 0 {
        Seq::empty()
    } else {
        words_bytes(ws.drop_last()) + le4(ws.last() as nat)
    }
}

/// Serializes 32-bit words into little-endian bytes.
pub fn serialize_u32s(ws: &Vec<u32>) -> (r: Vec<u8>)
    ensures
        r@ == words_bytes(ws@),
{
    let n = ws.len();
    let mut out: Vec<u8> = Vec::new();
    let mut i: usize = 0;
    while i < n
        invariant
            0 <= i <= n,
            n == ws@.len(),
            out@ == words_bytes(ws@.take(i as int)),
        decreases n - i,
    {
        push_le4(&mut out, ws[i]);
        proof {
            assert(ws@.take(i as int + 1).drop_last() =~= ws@.take(i as int));
        }
        i = i + 1;
    }
    proof {
        assert(ws@.take(n as int) =~= ws@);
    }
    out
}

/// Taking one more element appends exactly `cs[i]` at the end.
proof fn lemma_take_succ(cs: Seq<Seq<u8>>, i: int)
    requires
        0 <= i < cs.len(),
    ensures
        cs.take(i + 1).drop_last() == cs.take(i),
        cs.take(i + 1).last() == cs[i],
        total_padded(cs.take(i + 1)) == total_padded(cs.take(i)) + round8(cs[i].len()),
        data_region(cs.take(i + 1)) == data_region(cs.take(i)) + padded_chunk(cs[i]),
{
    assert(cs.take(i + 1).drop_last() =~= cs.take(i));
}

/// A longer prefix of chunks never has a smaller padded length.
proof fn lemma_total_padded_monotone(cs: Seq<Seq<u8>>, i: int, j: int)
    requires
        0 <= i <= j <= cs.len(),
    ensures
        total_padded(cs.take(i)) <= total_padded(cs.take(j)),
    decreases j - i,
{
    if i < j {
        lemma_total_padded_monotone(cs, i, j - 1);
        lemma_take_succ(cs, j - 1);
    }
}

/// Element `i` of the deep view is the view of element `i`.
pub(crate) proof fn lemma_view_link(data_list: &Vec<Vec<u8>>, i: int)
    requires
        0 <= i < data_list@.len(),
    ensures
        data_list.deep_view().len() == data_list@.len(),
        data_list.deep_view()[i] == data_list@[i]@,
{
    assert(data_list.deep_view()[i] =~= data_list@[i]@);
}

/// In a container whose offsets fit 32 bits, each chunk's length and each
/// offset fit too, and consecutive offsets differ by the padded length.
proof fn lemma_fits_chunk(cs: Seq<Seq<u8>>, i: int)
    requires
        fits_u32(cs),
        0 <= i < cs.len(),
    ensures
        cs[i].len() <= round8(cs[i].len()),
        chunk_offset(cs, i) + round8(cs[i].len()) == chunk_offset(cs, i + 1),
        chunk_offset(cs, i + 1) <= 0xFFFF_FFFF,
{
    lemma_take_succ(cs, i);
    lemma_total_padded_monotone(cs, i + 1, cs.len() as int);
    assert(cs.take(cs.len() as int) =~= cs);
}

/// Builds the container byte stream for an ordered list of chunks: the
/// header of little-endian `(offset, length)` pairs, then every chunk's
/// bytes zero-padded to an 8-byte boundary. Fails with `TooLarge` exactly
/// when some offset would not fit in an unsigned 32-bit header field.
pub fn write_bin(data_list: &Vec<Vec<u8>>) -> (r: Result<Vec<u8>, DataExportError>)
    ensures
        r is Ok <==> fits_u32(data_list.deep_view()),
        r matches Ok(bytes) ==> bytes@ == container_bytes(data_list.deep_view()),
        r matches Err(e) ==> e == DataExportError::TooLarge,
{
    let ghost cs = data_list.deep_view();
    let n = data_list.len();
    proof {
        assert(cs.len() == n);
        assert(cs.take(n as int) =~= cs);
    }
    if n > 0x1FFF_FFFF {
        proof {
            lemma_total_padded_monotone(cs, 0, cs.len() as int);
            assert(cs.take(0) =~= Seq::<Seq<u8>>::empty());
        }
        return Err(DataExportError::TooLarge);
    }

    // First pass: check that every offset fits in 32 bits.
    let mut total: u64 = (n as u64) * 8;
    let mut i: usize = 0;
    while i < n
        invariant
            0 <= i <= n,
            n <= 0x1FFF_FFFF,
            cs.len() == n,
            cs == data_list.deep_view(),
            total == header_size(cs) + total_padded(cs.take(i as int)),
            total <= 0xFFFF_FFFF,
        decreases n - i,
    {
        let len64 = data_list[i].len() as u64;
        proof {
            lemma_view_link(data_list, i as int);
            lemma_take_succ(cs, i as int);
            lemma_total_padded_monotone(cs, i + 1, cs.len() as int);
            assert(cs.take(cs.len() as int) =~= cs);
            assert(round8(cs[i as int].len()) >= cs[i as int].len());
        }
        if len64 > 0xFFFF_FFFF {
            return Err(DataExportError::TooLarge);
        }
        let padded = round_up_to_eight(len64);
        let new_total = total + padded;
        if new_total > 0xFFFF_FFFF {
            return Err(DataExportError::TooLarge);
        }
        total = new_total;
        i = i + 1;
    }
    proof {
        assert(cs.take(n as int) =~= cs);
    }

    // Second pass: the header of (offset, length) pairs.
    let mut out: Vec<u8> = Vec::new();
    let mut cursor: u32 = (n * 8) as u32;
    let mut i: usize = 0;
    while i < n
        invariant
            0 <= i <= n,
            n <= 0x1FFF_FFFF,
            cs.len() == n,
            cs == data_list.deep_view(),
            fits_u32(cs),
            out@ == header_bytes(cs, i as int),
            cursor == chunk_offset(cs, i as int),
        decreases n - i,
    {
        proof {
            lemma_view_link(data_list, i as int);
            lemma_fits_chunk(cs, i as int);
        }
        push_le4(&mut out, cursor);
        push_le4(&mut out, data_list[i].len() as u32);
        let padded = round_up_to_eight(data_list[i].len() as u64);
        cursor = cursor + (padded as u32);
        i = i + 1;
    }

    // Third pass: the data region, 8-byte aligned.
    let ghost header = out@;
    let mut i: usize = 0;
    while i < n
        invariant
            0 <= i <= n,
            cs.len() == n,
            cs == data_list.deep_view(),
            fits_u32(cs),
            header == header_bytes(cs, n as int),
            out@ == header + data_region(cs.take(i as int)),
        decreases n - i,
    {
        proof {
            lemma_view_link(data_list, i as int);
            lemma_fits_chunk(cs, i as int);
            lemma_take_succ(cs, i as int);
        }
        push_chunk_padded(&mut out, &data_list[i]);
        proof {
            assert(out@ =~= header + data_region(cs.take(i as int + 1)));
        }
        i = i + 1;
    }
    proof {
        assert(cs.take(n as int) =~= cs);
    }
    Ok(out)
}

/// Appends `c`'s bytes to `out`, then zero bytes up to a multiple of 8.
fn push_chunk_padded(out: &mut Vec<u8>, c: &Vec<u8>)
    requires
        c@.len() <= 0xFFFF_FFFF,
    ensures
        final(out)@ == old(out)@ + padded_chunk(c@),
{
    let len = c.len();
    let mut j: usize = 0;
    while j < len
        invariant
            0 <= j <= len,
            len == c@.len(),
            out@ == old(out)@ + c@.take(j as int),
        decreases len - j,
    {
        let b = c[j];
        out.push(b);
        proof {
            assert(c@.take(j as int + 1) =~= c@.take(j as int).push(c@[j as int]));
        }
        j = j + 1;
    }
    proof {
        assert(c@.take(len as int) =~= c@);
    }
    let pad = ((8 - (len as u64 % 8)) % 8) as usize;
    proof {
        assert(pad == round8(c@.len()) - c@.len());
    }
    let mut k: usize = 0;
    while k < pad
        invariant
            0 <= k <= pad,
            pad == round8(c@.len()) - c@.len(),
            out@ == old(out)@ + c@ + Seq::new(k as nat, |i: int| 0u8),
        decreases pad - k,
    {
        out.push(0u8);
        proof {
            assert(Seq::new((k + 1) as nat, |i: int| 0u8) =~= Seq::new(k as nat, |i: int| 0u8).push(
                0u8,
            ));
        }
        k = k + 1;
    }
    proof {
        assert(out@ =~= old(out)@ + padded_chunk(c@));
    }
}

proof fn lemma_header_len(cs: Seq<Seq<u8>>, k: int)
    requires
        0 <= k,
    ensures
        header_bytes(cs, k).len() == 8 * k,
    decreases k,
{
    if k > 0 {
        lemma_header_len(cs, k - 1);
    }
}

proof fn lemma_data_region_len(cs: Seq<Seq<u8>>)
    ensures
        data_region(cs).len() == total_padded(cs),
    decreases cs.len(),
{
    if cs.len() > 0 {
        lemma_data_region_len(cs.drop_last());
        assert(round8(cs.last().len()) >= cs.last().len());
    }
}

/// LAW: the container's length is the header size plus the sum of the
/// chunks' padded lengths.
pub proof fn lemma_container_length(cs: Seq<Seq<u8>>)
    ensures
        container_bytes(cs).len() == header_size(cs) + total_padded(cs),
{
    lemma_header_len(cs, cs.len() as int);
    lemma_data_region_len(cs);
}

/// Chunk `i` occupies exactly the padded slot between its offset and the
/// next chunk's offset inside the data region.
proof fn lemma_data_region_chunk(cs: Seq<Seq<u8>>, i: int)
    requires
        0 <= i < cs.len(),
    ensures
        total_padded(cs.take(i + 1)) <= total_padded(cs),
        data_region(cs).subrange(
            total_padded(cs.take(i)) as int,
            total_padded(cs.take(i + 1)) as int,
        ) == padded_chunk(cs[i]),
    decreases cs.len(),
{
    lemma_take_succ(cs, i);
    lemma_data_region_len(cs);
    lemma_total_padded_monotone(cs, i + 1, cs.len() as int);
    assert(cs.take(cs.len() as int) =~= cs);
    lemma_data_region_len(cs.drop_last());
    assert(round8(cs[i].len()) >= cs[i].len());
    if i == cs.len() - 1 {
        assert(cs.take(i) =~= cs.drop_last());
        assert(data_region(cs).subrange(
            total_padded(cs.take(i)) as int,
            total_padded(cs.take(i + 1)) as int,
        ) =~= padded_chunk(cs[i]));
    } else {
        assert(cs.drop_last().take(i) =~= cs.take(i));
        assert(cs.drop_last().take(i + 1) =~= cs.take(i + 1));
        lemma_data_region_chunk(cs.drop_last(), i);
        assert(data_region(cs).subrange(
            total_padded(cs.take(i)) as int,
            total_padded(cs.take(i + 1)) as int,
        ) =~= data_region(cs.drop_last()).subrange(
            total_padded(cs.drop_last().take(i)) as int,
            total_padded(cs.drop_last().take(i + 1)) as int,
        ));
    }
}

/// LAW: chunks do not overlap, and every byte between the end of a chunk's
/// data and the next chunk's offset is zero padding.
pub proof fn lemma_chunks_separated(cs: Seq<Seq<u8>>, i: int)
    requires
        fits_u32(cs),
        0 <= i < cs.len(),
    ensures
        chunk_offset(cs, i) + cs[i].len() <= chunk_offset(cs, i + 1),
        chunk_offset(cs, i + 1) <= container_bytes(cs).len(),
        forall|j: int|
            chunk_offset(cs, i) + cs[i].len() <= j < chunk_offset(cs, i + 1)
                ==> container_bytes(cs)[j] == 0,
{
    lemma_fits_chunk(cs, i);
    lemma_take_succ(cs, i);
    lemma_container_length(cs);
    lemma_header_len(cs, cs.len() as int);
    lemma_data_region_len(cs);
    lemma_data_region_chunk(cs, i);
    let ghost h = header_size(cs) as int;
    let ghost tp_i = total_padded(cs.take(i)) as int;
    let ghost padded = data_region(cs).subrange(tp_i, total_padded(cs.take(i + 1)) as int);
    assert forall|j: int|
        chunk_offset(cs, i) + cs[i].len() <= j < chunk_offset(cs, i + 1)
            implies container_bytes(cs)[j] == 0 by {
        assert(container_bytes(cs)[j] == data_region(cs)[j - h]);
        assert(data_region(cs)[j - h] == padded[j - h - tp_i]);
        assert(padded_chunk(cs[i])[j - h - tp_i] == 0u8);
    }
}

/// LAW: the header entry for chunk `i` reads back as its offset and its
/// unpadded length, and the slice of the container at that offset and
/// length is byte-identical to the chunk that was written.
#[verifier::rlimit(100)]
pub proof fn lemma_round_trip(cs: Seq<Seq<u8>>, i: int)
    requires
        fits_u32(cs),
        0 <= i < cs.len(),
    ensures
        read_le4(container_bytes(cs), 8 * i) == chunk_offset(cs, i),
        read_le4(container_bytes(cs), 8 * i + 4) == cs[i].len(),
        container_bytes(cs).subrange(
            chunk_offset(cs, i) as int,
            chunk_offset(cs, i) + cs[i].len() as int,
        ) == cs[i],
{
    lemma_fits_chunk(cs, i);
    lemma_container_length(cs);
    lemma_header_len(cs, cs.len() as int);
    lemma_data_region_len(cs);
    lemma_header_entry(cs, cs.len() as int, i);
    lemma_total_padded_monotone(cs, 0, i);
    assert(cs.take(0) =~= Seq::<Seq<u8>>::empty());

    // The two header fields.
    let ghost hb = header_bytes(cs, cs.len() as int);
    let ghost entry = hb.subrange(8 * i, 8 * i + 8);
    assert(entry.subrange(0, 4) =~= le4(chunk_offset(cs, i)));
    assert(entry.subrange(4, 8) =~= le4(cs[i].len()));
    assert(container_bytes(cs).subrange(8 * i, 8 * i + 4) =~= entry.subrange(0, 4));
    assert(container_bytes(cs).subrange(8 * i + 4, 8 * i + 8) =~= entry.subrange(4, 8));
    lemma_le4_read(chunk_offset(cs, i), container_bytes(cs), 8 * i);
    lemma_le4_read(cs[i].len(), container_bytes(cs), 8 * i + 4);

    // The data slice.
    lemma_data_region_chunk(cs, i);
    let ghost h = header_size(cs) as int;
    let ghost tp_i = total_padded(cs.take(i)) as int;
    let ghost padded = data_region(cs).subrange(tp_i, total_padded(cs.take(i + 1)) as int);
    lemma_take_succ(cs, i);
    assert(padded_chunk(cs[i]).subrange(0, cs[i].len() as int) =~= cs[i]);
    assert(container_bytes(cs).subrange(
        chunk_offset(cs, i) as int,
        chunk_offset(cs, i) + cs[i].len() as int,
    ) =~= padded.subrange(0, cs[i].len() as int));
}

/// Header entry `i` sits at bytes `8i .. 8i+8` of the header.
proof fn lemma_header_entry(cs: Seq<Seq<u8>>, k: int, i: int)
    requires
        0 <= i < k <= cs.len(),
    ensures
        header_bytes(cs, k).subrange(8 * i, 8 * i + 8) == le4(chunk_offset(cs, i)) + le4(
            cs[i].len(),
        ),
    decreases k,
{
    lemma_header_len(cs, k);
    lemma_header_len(cs, k - 1);
    if i == k - 1 {
        assert(header_bytes(cs, k).subrange(8 * i, 8 * i + 8) =~= le4(chunk_offset(cs, i)) + le4(
            cs[i].len(),
        ));
    } else {
        lemma_header_entry(cs, k - 1, i);
        assert(header_bytes(cs, k).subrange(8 * i, 8 * i + 8) =~= header_bytes(cs, k - 1).subrange(
            8 * i,
            8 * i + 8,
        ));
    }
}

/// Reading four little-endian bytes gives back the value they encode.
proof fn lemma_le4_read(x: nat, s: Seq<u8>, pos: int)
    requires
        x <= 0xFFFF_FFFF,
        0 <= pos,
        pos + 4 <= s.len(),
        s.subrange(pos, pos + 4) == le4(x),
    ensures
        read_le4(s, pos) == x,
{
    assert(s[pos] == le4(x)[0]);
    assert(s[pos + 1] == le4(x)[1]);
    assert(s[pos + 2] == le4(x)[2]);
    assert(s[pos + 3] == le4(x)[3]);
    assert(x % 0x100 + 0x100 * ((x / 0x100) % 0x100) + 0x10000 * ((x / 0x10000) % 0x100)
        + 0x1000000 * ((x / 0x1000000) % 0x100) == x) by {
        assert(x == 0x100 * (x / 0x100) + x % 0x100);
        assert(x / 0x100 == 0x100 * ((x / 0x100) / 0x100) + (x / 0x100) % 0x100);
        assert((x / 0x100) / 0x100 == x / 0x10000) by (nonlinear_arith);
        assert(x / 0x10000 == 0x100 * ((x / 0x10000) / 0x100) + (x / 0x10000) % 0x100);
        assert((x / 0x10000) / 0x100 == x / 0x1000000) by (nonlinear_arith);
        assert(x / 0x1000000 % 0x100 == x / 0x1000000);
    }
}

} // verus!
