use s3kv::block::{block_name, read_record, Location};
use s3kv::error::Error;

#[test]
fn encode_small_fields_take_one_byte_each() {
    let loc = Location { block_id: 0, offset: 0 };
    assert_eq!(loc.encode(), vec![0x00, 0x00]);
    let loc = Location { block_id: 1, offset: 127 };
    assert_eq!(loc.encode(), vec![0x01, 0x7f]);
}

#[test]
fn encode_sets_the_continuation_bit() {
    let loc = Location { block_id: 300, offset: 128 };
    assert_eq!(loc.encode(), vec![0xac, 0x02, 0x80, 0x01]);
}

#[test]
fn encode_is_between_two_and_twenty_bytes() {
    assert_eq!(Location::default().encode().len(), 2);
    let widest = Location { block_id: usize::MAX, offset: usize::MAX };
    let bytes = widest.encode();
    assert!(bytes.len() <= 20);
    if usize::BITS == 64 {
        assert_eq!(bytes.len(), 20);
        assert_eq!(&bytes[..10], &[0xff, 0xff, 0xff, 0xff, 0xff, 0xff, 0xff, 0xff, 0xff, 0x01]);
    }
}

#[test]
fn decode_gives_back_what_encode_wrote() {
    let samples = [
        Location { block_id: 0, offset: 0 },
        Location { block_id: 1, offset: 6 },
        Location { block_id: 127, offset: 128 },
        Location { block_id: 300, offset: 16_383 },
        Location { block_id: 16_384, offset: 1_000_000 },
        Location { block_id: usize::MAX, offset: 0 },
        Location { block_id: 0, offset: usize::MAX },
        Location { block_id: usize::MAX, offset: usize::MAX },
    ];
    for loc in samples {
        assert_eq!(Location::decode(&loc.encode()), Ok(loc));
    }
}

#[test]
fn decode_reads_block_then_offset() {
    assert_eq!(
        Location::decode(&[0xac, 0x02, 0x05]),
        Ok(Location { block_id: 300, offset: 5 })
    );
}

#[test]
fn decode_rejects_trailing_bytes() {
    assert_eq!(Location::decode(&[0x01, 0x02, 0x03]), Err(Error::Codec));
}

#[test]
fn decode_rejects_missing_fields() {
    assert_eq!(Location::decode(&[]), Err(Error::Codec));
    assert_eq!(Location::decode(&[0x01]), Err(Error::Codec));
}

#[test]
fn decode_rejects_a_varint_that_stops_short() {
    assert_eq!(Location::decode(&[0x01, 0x80]), Err(Error::Codec));
    assert_eq!(Location::decode(&[0x80]), Err(Error::Codec));
}

#[test]
fn decode_rejects_a_varint_that_overflows() {
    let mut bytes = vec![0xff; 9];
    bytes.push(0x02);
    bytes.push(0x00);
    assert_eq!(Location::decode(&bytes), Err(Error::Codec));
}

#[test]
fn decode_rejects_a_varint_of_eleven_bytes() {
    let mut bytes = vec![0x80; 10];
    bytes.push(0x00);
    bytes.push(0x00);
    assert_eq!(Location::decode(&bytes), Err(Error::Codec));
}

#[test]
fn decode_accepts_padded_varints() {
    assert_eq!(
        Location::decode(&[0x80, 0x00, 0x85, 0x00]),
        Ok(Location { block_id: 0, offset: 5 })
    );
}

#[test]
fn default_location_is_the_start_of_block_zero() {
    assert_eq!(Location::default(), Location { block_id: 0, offset: 0 });
}

#[test]
fn block_name_is_the_hex_of_the_varint() {
    assert_eq!(block_name(0), "00");
    assert_eq!(block_name(1), "01");
    assert_eq!(block_name(10), "0a");
    assert_eq!(block_name(255), "ff01");
    assert_eq!(block_name(300), "ac02");
}

#[test]
fn block_names_differ() {
    let mut seen = Vec::new();
    for id in 0..2000usize {
        let name = block_name(id);
        assert!(!seen.contains(&name));
        seen.push(name);
    }
}

#[test]
fn read_record_at_each_frame() {
    let block = [5, b'h', b'e', b'l', b'l', b'o', 3, b'f', b'o', b'o', 0];
    assert_eq!(read_record(&block, 0), Ok(b"hello".to_vec()));
    assert_eq!(read_record(&block, 6), Ok(b"foo".to_vec()));
    assert_eq!(read_record(&block, 10), Ok(Vec::new()));
}

#[test]
fn read_record_with_a_two_byte_length() {
    let mut block = vec![0xac, 0x02];
    block.extend(std::iter::repeat(7u8).take(300));
    assert_eq!(read_record(&block, 0), Ok(vec![7u8; 300]));
}

#[test]
fn read_record_rejects_a_frame_that_runs_out() {
    let block = [5, b'h', b'e', b'l'];
    assert_eq!(read_record(&block, 0), Err(Error::Codec));
}

#[test]
fn read_record_rejects_an_offset_at_or_past_the_end() {
    let block = [1, b'x'];
    assert_eq!(read_record(&block, 2), Err(Error::Codec));
    assert_eq!(read_record(&block, 3), Err(Error::Codec));
    assert_eq!(read_record(&block, usize::MAX), Err(Error::Codec));
}

#[test]
fn read_record_rejects_a_length_that_stops_short() {
    let block = [0x80];
    assert_eq!(read_record(&block, 0), Err(Error::Codec));
}

#[test]
fn read_record_rejects_a_length_past_the_machine() {
    let mut block = vec![0xff; 9];
    block.push(0x01);
    assert_eq!(read_record(&block, 0), Err(Error::Codec));
}
