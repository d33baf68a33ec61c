use base122::alphabet::{illegal_index, ILLEGALS, SHORTENED};
use base122::decoder::escape_fields;
use base122::encoder::escape_bytes;
use base122::{BitReader, BitWriter};

fn all_chunks(data: &[u8]) -> Vec<u8> {
    let mut reader = BitReader::new(data);
    let mut chunks = Vec::new();
    while let Some(chunk) = reader.next_chunk() {
        chunks.push(chunk);
    }
    assert_eq!(reader.next_chunk(), None);
    chunks
}

fn all_bytes(chunks: &[u8]) -> Vec<u8> {
    let mut writer = BitWriter::new();
    let mut bytes = Vec::new();
    for &chunk in chunks {
        if let Some(byte) = writer.push(chunk) {
            bytes.push(byte);
        }
    }
    bytes
}

#[test]
fn reader_on_empty_buffer_gives_nothing() {
    let mut reader = BitReader::new(&[]);
    assert_eq!(reader.next_chunk(), None);
    assert_eq!(reader.next_chunk(), None);
}

#[test]
fn reader_cuts_seven_bits_at_a_time() {
    assert_eq!(all_chunks(&[0x41]), vec![0x20, 0x40]);
    assert_eq!(all_chunks(&[0xff]), vec![0x7f, 0x40]);
    assert_eq!(all_chunks(&[0xff, 0xff]), vec![0x7f, 0x7f, 0x60]);
    assert_eq!(all_chunks(b"Hello"), vec![36, 25, 45, 70, 99, 60]);
    assert_eq!(all_chunks(&[1, 66, 129, 33]), vec![0, 80, 80, 18, 8]);
}

#[test]
fn reader_gives_no_chunk_of_padding_alone() {
    // Seven bytes are exactly eight chunks.
    assert_eq!(all_chunks(&[0xff; 7]), vec![0x7f; 8]);
    assert_eq!(all_chunks(&[0; 7]), vec![0; 8]);
    for len in 0..50usize {
        let data = vec![0xa5u8; len];
        assert_eq!(all_chunks(&data).len(), (len * 8).div_ceil(7));
    }
}

#[test]
fn reader_chunks_stay_below_128() {
    let data: Vec<u8> = (0..=255).collect();
    assert!(all_chunks(&data).iter().all(|&c| c < 128));
}

#[test]
fn writer_gives_a_byte_when_eight_bits_are_there() {
    let mut writer = BitWriter::new();
    assert_eq!(writer.push(0x20), None);
    assert_eq!(writer.push(0x40), Some(0x41));
    assert_eq!(writer.push(0x7f), Some(0x03));
    assert_eq!(writer.push(0x7f), Some(0xff));
}

#[test]
fn writer_skips_every_eighth_chunk() {
    let mut writer = BitWriter::new();
    let mut given = Vec::new();
    for _ in 0..16 {
        given.push(writer.push(0x7f).is_some());
    }
    let mut expected = vec![true; 16];
    expected[0] = false;
    expected[8] = false;
    assert_eq!(given, expected);
}

#[test]
fn writer_packs_what_reader_cut() {
    for len in 0..40usize {
        let data: Vec<u8> = (0..len).map(|i| (i * 91 + 17) as u8).collect();
        assert_eq!(all_bytes(&all_chunks(&data)), data);
    }
    assert_eq!(all_bytes(&[36, 25, 45, 70, 99, 60]), b"Hello".to_vec());
    assert_eq!(all_bytes(&[10]), Vec::<u8>::new());
}

#[test]
fn illegal_index_is_the_position_in_the_table() {
    assert_eq!(ILLEGALS, [0, 10, 13, 34, 38, 92]);
    assert_eq!(SHORTENED, 7);
    for (i, &value) in ILLEGALS.iter().enumerate() {
        assert_eq!(illegal_index(value), Some(i as u8));
    }
    for chunk in 0u8..128 {
        assert_eq!(illegal_index(chunk).is_some(), ILLEGALS.contains(&chunk));
    }
    assert_eq!(illegal_index(1), None);
    assert_eq!(illegal_index(127), None);
}

#[test]
fn escape_bytes_follow_the_layout() {
    assert_eq!(escape_bytes(0, 0), (0b1100_0010, 0b1000_0000));
    assert_eq!(escape_bytes(5, 0b100_0001), (0b1101_0111, 0b1000_0001));
    assert_eq!(escape_bytes(SHORTENED, 92), (0b1101_1111, 0b1001_1100));
    assert_eq!(escape_bytes(4, 99), (0xd3, 0xa3));
    for index in 0u8..8 {
        for payload in 0u8..128 {
            let (lead, trail) = escape_bytes(index, payload);
            let bytes = [lead, trail];
            let text = std::str::from_utf8(&bytes).unwrap();
            let mut chars = text.chars();
            let c = chars.next().unwrap() as u32;
            assert_eq!(chars.next(), None);
            assert_eq!(c, ((index as u32) << 8) | 0x80 | payload as u32);
        }
    }
}

#[test]
fn escape_fields_reads_index_and_payload() {
    assert_eq!(escape_fields(0x80), Some((0, 0)));
    assert_eq!(escape_fields(0x7ff), Some((7, 127)));
    assert_eq!(escape_fields(0x5c1), Some((5, 0x41)));
    assert_eq!(escape_fields(0x7f), None);
    assert_eq!(escape_fields(0x100), None);
    assert_eq!(escape_fields(0x680), None);
    assert_eq!(escape_fields(0x800), None);
    assert_eq!(escape_fields(0x10ffff), None);
    for v in 0u32..4096 {
        let expected = v >= 128 && v < 2048 && v & 128 != 0 && v >> 8 != 6;
        assert_eq!(escape_fields(v).is_some(), expected);
    }
}
