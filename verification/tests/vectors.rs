use base122::{decode, encode, DecodeError};

fn round_trip(data: &[u8]) {
    let encoded = encode(data);
    assert_eq!(decode(&encoded), Ok(data.to_vec()), "input {data:?}");
}

#[test]
fn encodes_plain_chunks_as_single_bytes() {
    // 0x41 = 0100_0001: chunks 0100000 and 1 followed by six padding zeros.
    assert_eq!(encode(&[0x41]), " @");
    assert_eq!(encode(&[0xff]), "\x7f@");
    assert_eq!(encode(b"Hello").as_bytes(), &[36, 25, 45, 70, 99, 60]);
}

#[test]
fn encodes_dangerous_chunk_with_follower_as_escape() {
    // 0x00: chunk 0 is dangerous (index 0), the padding chunk 0 is its payload.
    assert_eq!(encode(&[0x00]).as_bytes(), &[0xc2, 0x80]);
    // 0x14 = 0001_0100: chunk 10 (index 1), then chunk 0.
    assert_eq!(encode(&[0x14]).as_bytes(), &[0xc6, 0x80]);
    // Payload with its top bit set lands in the lowest bit of the lead byte.
    assert_eq!(
        encode(b"Hello, World!").as_bytes(),
        &[36, 25, 45, 70, 99, 60, 88, 32, 43, 91, 110, 0xd3, 0xa3, 16, 66]
    );
    assert_eq!(
        encode(&[0, 10, 13, 34, 38, 92]).as_bytes(),
        &[0xc2, 0x82, 65, 82, 17, 25, 56]
    );
}

#[test]
fn encodes_dangerous_last_chunk_as_shortened_escape() {
    // 0x40 = 0100_0000: chunk 32, then a last chunk 0 with nothing behind it.
    assert_eq!(encode(&[0x40]).as_bytes(), &[0x20, 0xde, 0x80]);
    assert_eq!(encode(&[0x42]).as_bytes(), &[0x21, 0xde, 0x80]);
    // Three zero chunks: one full escape, then a shortened one.
    assert_eq!(encode(&[0, 0]).as_bytes(), &[0xc2, 0x80, 0xde, 0x80]);
    assert_eq!(encode(&[0x14, 0x80]).as_bytes(), &[0xc6, 0xa0, 0xde, 0x80]);
}

#[test]
fn encoded_text_is_made_of_scalars_of_the_alphabet() {
    let data: Vec<u8> = (0..=255).collect();
    for c in encode(&data).chars() {
        let v = c as u32;
        assert!(v < 128 || (v < 2048 && v & 128 != 0 && v >> 8 != 6), "{v:#x}");
        assert!(c.len_utf8() <= 2);
    }
}

#[test]
fn decodes_exact_values() {
    assert_eq!(decode(" @"), Ok(vec![0x41]));
    assert_eq!(decode("$\x19-Fc<"), Ok(b"Hello".to_vec()));
    assert_eq!(
        decode("valid ascii"),
        Ok(vec![237, 135, 102, 156, 136, 48, 243, 199, 167])
    );
    // Index 0 and payload 0: two zero chunks, fourteen bits, one byte.
    assert_eq!(decode("\u{80}"), Ok(vec![0]));
    // Two shortened escapes with payload 127.
    assert_eq!(decode("\u{7ff}\u{7ff}"), Ok(vec![255]));
    assert_eq!(decode(" \u{780}"), Ok(vec![0x40]));
}

#[test]
fn decode_drops_bits_that_fill_no_byte() {
    assert_eq!(decode("\n"), Ok(vec![]));
    assert_eq!(decode("\u{780}"), Ok(vec![]));
    assert_eq!(decode("A"), Ok(vec![]));
}

#[test]
fn decode_rejects_longer_sequences() {
    assert_eq!(decode("\u{800}"), Err(DecodeError::InvalidSequence));
    assert_eq!(decode("\u{20ac}"), Err(DecodeError::InvalidSequence));
    assert_eq!(decode("\u{1f600}"), Err(DecodeError::InvalidSequence));
    assert_eq!(decode("ab\u{ffff}cd"), Err(DecodeError::InvalidSequence));
}

#[test]
fn decode_rejects_two_byte_scalars_that_are_no_escape() {
    // Bit 7 clear.
    assert_eq!(decode("\u{100}"), Err(DecodeError::InvalidSequence));
    assert_eq!(decode("\u{77f}"), Err(DecodeError::InvalidSequence));
    // Index field 6: neither an illegal index nor the shortened marker.
    assert_eq!(decode("\u{680}"), Err(DecodeError::InvalidSequence));
    assert_eq!(decode("\u{6ff}"), Err(DecodeError::InvalidSequence));
    assert_eq!(decode(" @\u{680}"), Err(DecodeError::InvalidSequence));
}

#[test]
fn decode_accepts_every_escape() {
    for index in [0u32, 1, 2, 3, 4, 5, 7] {
        for payload in 0u32..128 {
            let c = char::from_u32(index * 256 + 128 + payload).unwrap();
            let text = format!("{c}");
            assert!(decode(&text).is_ok());
        }
    }
}

#[test]
fn round_trips_every_single_byte() {
    for b in 0u8..=255 {
        round_trip(&[b]);
    }
}

#[test]
fn round_trips_every_pair_of_bytes() {
    for a in 0u8..=255 {
        for b in 0u8..=255 {
            let data = [a, b];
            let encoded = encode(&data);
            assert_eq!(decode(&encoded).unwrap(), data);
        }
    }
}

#[test]
fn round_trips_runs_of_dangerous_values() {
    let dangerous = [0u8, 10, 13, 34, 38, 92];
    round_trip(&dangerous);
    for len in 0..40usize {
        let data: Vec<u8> = (0..len).map(|i| dangerous[i % 6]).collect();
        round_trip(&data);
        let zeros = vec![0u8; len];
        round_trip(&zeros);
    }
}

#[test]
fn round_trips_every_length_up_to_sixty_four() {
    for len in 0..=64usize {
        let data: Vec<u8> = (0..len).map(|i| (i * 37 + i * i) as u8).collect();
        round_trip(&data);
    }
}

#[test]
fn length_without_dangerous_chunks_is_chunk_count() {
    // Forty bits make six chunks, none of them dangerous.
    assert_eq!(encode(b"Hello").len(), 6);
    assert_eq!(encode(&[0xff; 7]).len(), 8);
    assert_eq!(encode(&[0xff; 8]).len(), 10);
}

#[test]
fn length_stays_within_bounds() {
    for len in 0..200usize {
        let data: Vec<u8> = (0..len).map(|i| (i * 7 % 256) as u8).collect();
        let chunks = (len * 8).div_ceil(7);
        let encoded = encode(&data).len();
        assert!(len <= encoded);
        assert!(chunks <= encoded);
        assert!(encoded <= chunks + 1);
        assert!(encoded <= chunks * 2);
        let zeros = vec![0u8; len];
        let encoded = encode(&zeros).len();
        assert!(chunks <= encoded && encoded <= chunks + 1);
    }
    assert_eq!(encode(&(0..=255).collect::<Vec<u8>>()).len(), 293);
    assert_eq!(encode(&(0..1000).map(|i| (i % 256) as u8).collect::<Vec<u8>>()).len(), 1143);
}

#[test]
fn single_dangerous_bytes_encode_exactly() {
    // Chunks 0 and 0: a full escape, no shortened one.
    assert_eq!(encode(&[0]).as_bytes(), &[0xc2, 0x80]);
    // A plain chunk, then a zero chunk with nothing behind it.
    assert_eq!(encode(&[10]).as_bytes(), &[0x05, 0xde, 0x80]);
    assert_eq!(encode(&[34]).as_bytes(), &[0x11, 0xde, 0x80]);
    assert_eq!(encode(&[38]).as_bytes(), &[0x13, 0xde, 0x80]);
    assert_eq!(encode(&[92]).as_bytes(), &[0x2e, 0xde, 0x80]);
    // Chunks 6 and 64: nothing to escape.
    assert_eq!(encode(&[13]).as_bytes(), &[0x06, 0x40]);
    for b in [0u8, 10, 13, 34, 38, 92] {
        assert_eq!(decode(&encode(&[b])), Ok(vec![b]));
    }
}

#[test]
fn shortened_escape_carries_the_dangerous_chunk_itself() {
    // Seven bytes are eight chunks; the last one is 13.
    let data = [0xff, 0xff, 0xff, 0xff, 0xff, 0xff, 0x8d];
    assert_eq!(
        encode(&data).as_bytes(),
        &[0x7f, 0x7f, 0x7f, 0x7f, 0x7f, 0x7f, 0x7f, 0xde, 0x8d]
    );
    assert_eq!(decode(&encode(&data)), Ok(data.to_vec()));
    // The last chunk is 92, whose top bit goes into the lead byte.
    let data = [0xff, 0xff, 0xff, 0xff, 0xff, 0xff, 0xdc];
    assert_eq!(
        encode(&data).as_bytes(),
        &[0x7f, 0x7f, 0x7f, 0x7f, 0x7f, 0x7f, 0x7f, 0xdf, 0x9c]
    );
    assert_eq!(decode(&encode(&data)), Ok(data.to_vec()));
}

#[test]
fn mixed_text_encodes_exactly() {
    assert_eq!(
        encode(b"Hello\nWorld\0Test\"Data&More\\Path").as_bytes(),
        &[
            0x24, 0x19, 0x2d, 0x46, 0x63, 0x3c, 0x14, 0x57, 0x37, 0xd7, 0x8d, 0x46, 0x20, 0x01,
            0x28, 0x65, 0x39, 0x5d, 0x04, 0x24, 0x23, 0x05, 0x68, 0x61, 0x13, 0x13, 0x2d, 0x77,
            0x13, 0x15, 0x38, 0x50, 0x30, 0x5d, 0xca, 0x80
        ]
    );
}
