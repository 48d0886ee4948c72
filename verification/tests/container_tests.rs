use train_ute::container::{round_up_to_eight, serialize_u32s, write_bin};

#[test]
fn two_chunks_exact_bytes() {
    // Chunks "AB" and "CDEFG": header of 16 bytes, first chunk at offset 16
    // with length 2, second at offset 24 with length 5, file length 32.
    let chunks: Vec<Vec<u8>> = vec![b"AB".to_vec(), b"CDEFG".to_vec()];
    let bytes = write_bin(&chunks).unwrap();
    let mut expected: Vec<u8> = Vec::new();
    expected.extend_from_slice(&16u32.to_le_bytes());
    expected.extend_from_slice(&2u32.to_le_bytes());
    expected.extend_from_slice(&24u32.to_le_bytes());
    expected.extend_from_slice(&5u32.to_le_bytes());
    expected.extend_from_slice(b"AB");
    expected.extend_from_slice(&[0u8; 6]);
    expected.extend_from_slice(b"CDEFG");
    expected.extend_from_slice(&[0u8; 3]);
    assert_eq!(bytes.len(), 32);
    assert_eq!(bytes, expected);
}

#[test]
fn empty_chunk_list_gives_empty_file() {
    let chunks: Vec<Vec<u8>> = vec![];
    let bytes = write_bin(&chunks).unwrap();
    assert_eq!(bytes.len(), 0);
}

#[test]
fn container_length_is_header_plus_padded_chunks() {
    let chunks: Vec<Vec<u8>> = vec![vec![1u8; 3], vec![2u8; 8], vec![], vec![3u8; 9]];
    let bytes = write_bin(&chunks).unwrap();
    // 4 chunks * 8 header bytes + 8 + 8 + 0 + 16 padded data bytes.
    assert_eq!(bytes.len(), 32 + 8 + 8 + 0 + 16);
}

#[test]
fn round_trip_recovers_chunks() {
    let chunks: Vec<Vec<u8>> = vec![vec![7u8, 8, 9], vec![], b"hello world".to_vec()];
    let bytes = write_bin(&chunks).unwrap();
    for (i, chunk) in chunks.iter().enumerate() {
        let hdr = 8 * i;
        let offset =
            u32::from_le_bytes([bytes[hdr], bytes[hdr + 1], bytes[hdr + 2], bytes[hdr + 3]])
                as usize;
        let length = u32::from_le_bytes([
            bytes[hdr + 4],
            bytes[hdr + 5],
            bytes[hdr + 6],
            bytes[hdr + 7],
        ]) as usize;
        assert_eq!(length, chunk.len());
        assert_eq!(&bytes[offset..offset + length], chunk.as_slice());
    }
}

#[test]
fn bytes_between_chunks_are_zero() {
    let chunks: Vec<Vec<u8>> = vec![vec![0xFFu8; 5], vec![0xEEu8; 2]];
    let bytes = write_bin(&chunks).unwrap();
    // First chunk: offset 16, length 5, padded to 8; the 3 pad bytes are zero.
    assert_eq!(&bytes[21..24], &[0u8, 0, 0]);
    // Second chunk: offset 24, length 2, padded to 8.
    assert_eq!(&bytes[26..32], &[0u8; 6]);
    assert_eq!(bytes.len(), 32);
}

#[test]
fn aligned_chunk_gets_no_padding() {
    let chunks: Vec<Vec<u8>> = vec![vec![5u8; 8]];
    let bytes = write_bin(&chunks).unwrap();
    assert_eq!(bytes.len(), 8 + 8);
    assert_eq!(&bytes[8..16], &[5u8; 8]);
}

#[test]
fn serialize_u32s_little_endian() {
    let words: Vec<u32> = vec![1, 0x01020304, 0xFFFFFFFF];
    let bytes = serialize_u32s(&words);
    assert_eq!(
        bytes,
        vec![1, 0, 0, 0, 0x04, 0x03, 0x02, 0x01, 0xFF, 0xFF, 0xFF, 0xFF]
    );
}

#[test]
fn round_up_to_eight_values() {
    assert_eq!(round_up_to_eight(0), 0);
    assert_eq!(round_up_to_eight(1), 8);
    assert_eq!(round_up_to_eight(7), 8);
    assert_eq!(round_up_to_eight(8), 8);
    assert_eq!(round_up_to_eight(9), 16);
    assert_eq!(round_up_to_eight(0xFFFF_FFFF), 0x1_0000_0000);
}
