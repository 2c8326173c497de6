use cf_trainer::protobuf::read_uvarint;
use cf_trainer::stream::{ByteStream, StreamError};

fn decode(bytes: Vec<u8>) -> Result<Option<u32>, StreamError> {
    read_uvarint(&mut ByteStream::new(bytes))
}

fn encode(mut v: u32) -> Vec<u8> {
    let mut out = Vec::new();
    while v >= 0x80 {
        out.push((v & 0x7f) as u8 | 0x80);
        v >>= 7;
    }
    out.push(v as u8);
    out
}

#[test]
fn test_read_uvarint() {
    // A lone byte with the high bit set is a truncated value, not the end.
    assert_eq!(decode(vec![0x80]), Err(StreamError::Truncated));
    assert_eq!(decode(vec![0x00]).unwrap().unwrap(), 0);
    assert_eq!(decode(vec![0x03]).unwrap().unwrap(), 3);
    assert_eq!(decode(vec![0x8E, 0x02]).unwrap().unwrap(), 270);
    assert_eq!(decode(vec![0x9E, 0xA7, 0x05]).unwrap().unwrap(), 86942);
}

#[test]
fn round_trip_of_chosen_values() {
    for v in [0u32, 1, 127, 128, 255, 270, 16383, 16384, 86942, 1 << 21, 1 << 28, u32::MAX - 1, u32::MAX] {
        let bytes = encode(v);
        let mut input = ByteStream::new(bytes.clone());
        assert_eq!(read_uvarint(&mut input), Ok(Some(v)));
        assert_eq!(input.pos, bytes.len());
    }
}

#[test]
fn largest_value_takes_five_bytes() {
    assert_eq!(encode(u32::MAX), vec![0xFF, 0xFF, 0xFF, 0xFF, 0x0F]);
    assert_eq!(decode(vec![0xFF, 0xFF, 0xFF, 0xFF, 0x0F]), Ok(Some(u32::MAX)));
}

#[test]
fn groups_beyond_bit_31_are_dropped() {
    assert_eq!(decode(vec![0x81, 0x80, 0x80, 0x80, 0xF0, 0x7F]), Ok(Some(1)));
}

#[test]
fn empty_stream_is_end() {
    let mut input = ByteStream::new(vec![]);
    assert_eq!(read_uvarint(&mut input), Ok(None));
    assert_eq!(input.pos, 0);
}

#[test]
fn exhausted_stream_is_end() {
    let mut input = ByteStream::new(vec![0x05]);
    assert_eq!(read_uvarint(&mut input), Ok(Some(5)));
    assert_eq!(read_uvarint(&mut input), Ok(None));
}

#[test]
fn dangling_continuation_is_truncated() {
    assert_eq!(decode(vec![0xFF]), Err(StreamError::Truncated));
    assert_eq!(decode(vec![0x8E, 0x82]), Err(StreamError::Truncated));
}

#[test]
fn reads_consecutive_values() {
    let mut input = ByteStream::new(vec![0x8E, 0x02, 0x03, 0x00]);
    assert_eq!(read_uvarint(&mut input), Ok(Some(270)));
    assert_eq!(read_uvarint(&mut input), Ok(Some(3)));
    assert_eq!(read_uvarint(&mut input), Ok(Some(0)));
    assert_eq!(read_uvarint(&mut input), Ok(None));
}

#[test]
fn stream_reads_bytes_and_rewinds() {
    let mut input = ByteStream::new(vec![7, 8]);
    assert_eq!(input.read_byte(), Some(7));
    assert_eq!(input.read_byte(), Some(8));
    assert_eq!(input.read_byte(), None);
    input.rewind();
    assert_eq!(input.pos, 0);
    assert_eq!(input.read_byte(), Some(7));
}
