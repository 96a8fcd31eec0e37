use base64_stream::DecodeError;
use base64_stream::FromBase64Reader;
use base64_stream::FromBase64Writer;
use base64_stream::MemSink;
use base64_stream::MemSource;
use base64_stream::StutterSource;
use base64_stream::ToBase64Reader;
use base64_stream::ToBase64Writer;
use base64_stream::TranscodeError;

/// A small deterministic byte generator for the larger cases.
fn pseudo_random_bytes(len: usize, seed: u64) -> Vec<u8> {
    let mut state = seed;
    let mut out = Vec::with_capacity(len);
    for _ in 0..len {
        state = state.wrapping_mul(6364136223846793005).wrapping_add(1442695040888963407);
        out.push((state >> 56) as u8);
    }
    out
}

fn encode_all(data: Vec<u8>) -> Vec<u8> {
    let mut reader = ToBase64Reader::new(MemSource::new(data));
    reader.read_to_end().unwrap()
}

fn decode_all(symbols: Vec<u8>) -> Result<Vec<u8>, TranscodeError> {
    let mut reader = FromBase64Reader::new(MemSource::new(symbols));
    reader.read_to_end()
}

#[test]
fn round_trip_short_lengths() {
    for len in [0usize, 1, 2, 3, 4, 5, 6, 7] {
        let data: Vec<u8> = (0..len).map(|i| (i * 37 + 11) as u8).collect();
        let encoded = encode_all(data.clone());
        assert_eq!(encoded.len(), 4 * data.len().div_ceil(3));
        let decoded = decode_all(encoded).unwrap();
        assert_eq!(data, decoded);
    }
}

#[test]
fn round_trip_large_random() {
    for (len, seed) in [(997usize, 1u64), (4096, 2), (10000, 3)] {
        let data = pseudo_random_bytes(len, seed);
        let decoded = decode_all(encode_all(data.clone())).unwrap();
        assert_eq!(data, decoded);
    }
}

#[test]
fn encode_exact_known_value() {
    // one whole group, a two-byte tail, and a one-byte tail
    assert_eq!(encode_all(b"abc".to_vec()), b"YWJj".to_vec());
    assert_eq!(encode_all(b"ab".to_vec()), b"YWI=".to_vec());
    assert_eq!(encode_all(b"a".to_vec()), b"YQ==".to_vec());
    assert_eq!(encode_all(Vec::new()), Vec::new());
}

#[test]
fn flush_is_idempotent_on_encode_writer() {
    let mut writer = ToBase64Writer::new(MemSink::new());
    writer.write(&b"ab".to_vec()).unwrap();
    writer.flush().unwrap();
    writer.flush().unwrap();
    let out = writer.into_inner().into_vec();
    assert_eq!(out, b"YWI=".to_vec());
}

#[test]
fn flush_is_idempotent_on_decode_writer() {
    let mut writer = FromBase64Writer::new(MemSink::new());
    writer.write(&b"YWI=".to_vec()).unwrap();
    writer.flush().unwrap();
    writer.flush().unwrap();
    let out = writer.into_inner().into_vec();
    assert_eq!(out, b"ab".to_vec());
}

#[test]
fn encode_reader_output_independent_of_buffer_size() {
    let data = pseudo_random_bytes(513, 7);
    let whole = encode_all(data.clone());
    for dst_size in [1usize, 2, 3, 4, 5, 7, 64] {
        let mut reader = ToBase64Reader::new(MemSource::new(data.clone()));
        let mut collected = Vec::new();
        loop {
            let mut dst = vec![0u8; dst_size];
            let n = reader.read(&mut dst).unwrap();
            if n == 0 {
                break;
            }
            collected.extend_from_slice(&dst[..n]);
        }
        assert_eq!(collected, whole);
    }
}

#[test]
fn decode_reader_output_independent_of_buffer_size() {
    let data = pseudo_random_bytes(200, 9);
    let symbols = encode_all(data.clone());
    for dst_size in [1usize, 2, 3, 4, 5, 64] {
        let mut reader = FromBase64Reader::new(MemSource::new(symbols.clone()));
        let mut collected = Vec::new();
        loop {
            let mut dst = vec![0u8; dst_size];
            let n = reader.read(&mut dst).unwrap();
            if n == 0 {
                break;
            }
            collected.extend_from_slice(&dst[..n]);
        }
        assert_eq!(collected, data);
    }
}

#[test]
fn minimal_destination_buffer_still_produces_everything() {
    let data = b"Hi there, this is a simple sentence used for testing this crate. I hope all cases are correct.".to_vec();
    let mut reader = ToBase64Reader::new(MemSource::new(data));
    let mut collected = Vec::new();
    loop {
        let mut dst = vec![0u8; 1];
        let n = reader.read(&mut dst).unwrap();
        if n == 0 {
            break;
        }
        assert_eq!(n, 1);
        collected.push(dst[0]);
    }
    assert_eq!(
        "SGkgdGhlcmUsIHRoaXMgaXMgYSBzaW1wbGUgc2VudGVuY2UgdXNlZCBmb3IgdGVzdGluZyB0aGlzIGNyYXRlLiBJIGhvcGUgYWxsIGNhc2VzIGFyZSBjb3JyZWN0Lg==",
        String::from_utf8(collected).unwrap()
    );
}

#[test]
fn encode_writer_chunked_writes_match_single_write() {
    let data = pseudo_random_bytes(301, 21);
    let mut whole = ToBase64Writer::new(MemSink::new());
    whole.write(&data).unwrap();
    whole.flush().unwrap();
    let expected = whole.into_inner().into_vec();

    let mut chunked = ToBase64Writer::new(MemSink::new());
    for b in &data {
        chunked.write(&vec![*b]).unwrap();
    }
    chunked.flush().unwrap();
    assert_eq!(chunked.into_inner().into_vec(), expected);
}

#[test]
fn decode_writer_chunked_writes_match_single_write() {
    let data = pseudo_random_bytes(301, 22);
    let symbols = encode_all(data.clone());

    let mut whole = FromBase64Writer::new(MemSink::new());
    whole.write(&symbols).unwrap();
    whole.flush().unwrap();
    assert_eq!(whole.into_inner().into_vec(), data);

    let mut chunked = FromBase64Writer::new(MemSink::new());
    for b in &symbols {
        chunked.write(&vec![*b]).unwrap();
    }
    chunked.flush().unwrap();
    assert_eq!(chunked.into_inner().into_vec(), data);
}

#[test]
fn invalid_symbol_is_rejected() {
    let err = decode_all(b"!AAA".to_vec()).unwrap_err();
    assert!(matches!(err, TranscodeError::Decode(DecodeError::InvalidByte(0, 33))));
}

#[test]
fn misplaced_padding_is_rejected() {
    // padding in the middle of a group is never canonical
    let err = decode_all(b"A=AA".to_vec()).unwrap_err();
    assert!(matches!(err, TranscodeError::Decode(DecodeError::InvalidByte(..))));
}

#[test]
fn dangling_tail_length_is_rejected() {
    // five symbols: one whole group, then a single dangling symbol
    let err = decode_all(b"YWJjZ".to_vec()).unwrap_err();
    assert!(matches!(err, TranscodeError::Decode(DecodeError::InvalidLength(..))));
}

#[test]
fn missing_padding_is_rejected() {
    // three dangling symbols would need padding to form a whole group
    let err = decode_all(b"YWJjYWI".to_vec()).unwrap_err();
    assert!(matches!(err, TranscodeError::Decode(DecodeError::InvalidPadding)));
}

#[test]
fn nonzero_trailing_bits_are_rejected() {
    // 'B' carries bits that no canonical one-byte tail can produce
    let err = decode_all(b"AB==".to_vec()).unwrap_err();
    assert!(matches!(err, TranscodeError::Decode(DecodeError::InvalidLastSymbol(..))));
}

#[test]
fn decode_writer_flush_rejects_partial_group() {
    let mut writer = FromBase64Writer::new(MemSink::new());
    writer.write(&b"YWJjZ".to_vec()).unwrap();
    let err = writer.flush().unwrap_err();
    assert!(matches!(err, TranscodeError::Decode(_)));
}

#[test]
fn read_exact_past_end_reports_eof() {
    let mut reader = ToBase64Reader::new(MemSource::new(b"a".to_vec()));
    let mut dst = vec![0u8; 5];
    let err = reader.read_exact(&mut dst).unwrap_err();
    assert_eq!(err, TranscodeError::UnexpectedEof);
}

#[test]
fn explicit_capacity_matches_default() {
    let data = pseudo_random_bytes(700, 31);
    let mut small = ToBase64Reader::new2(MemSource::new(data.clone()), 16);
    let small_out = small.read_to_end().unwrap();
    assert_eq!(small_out, encode_all(data.clone()));

    let mut small_writer = ToBase64Writer::new2(MemSink::new(), 16);
    small_writer.write(&data).unwrap();
    small_writer.flush().unwrap();
    assert_eq!(small_writer.into_inner().into_vec(), small_out);

    let mut small_decode = FromBase64Reader::new2(MemSource::new(small_out.clone()), 16);
    assert_eq!(small_decode.read_to_end().unwrap(), data);

    let mut small_decode_writer = FromBase64Writer::new2(MemSink::new(), 16);
    small_decode_writer.write(&small_out).unwrap();
    small_decode_writer.flush().unwrap();
    assert_eq!(small_decode_writer.into_inner().into_vec(), data);
}


#[test]
fn transient_interruptions_are_retried() {
    let data = b"Hi there, this is a simple sentence used for testing this crate. I hope all cases are correct.".to_vec();
    let mut reader = ToBase64Reader::new(StutterSource::new(data, 3));
    let out = reader.read_to_end().unwrap();
    assert_eq!(
        "SGkgdGhlcmUsIHRoaXMgaXMgYSBzaW1wbGUgc2VudGVuY2UgdXNlZCBmb3IgdGVzdGluZyB0aGlzIGNyYXRlLiBJIGhvcGUgYWxsIGNhc2VzIGFyZSBjb3JyZWN0Lg==",
        String::from_utf8(out).unwrap()
    );
}

#[test]
fn decoding_rides_out_interruptions_too() {
    let symbols = b"SGkgdGhlcmUsIHRoaXMgaXMgYSBzaW1wbGUgc2VudGVuY2UgdXNlZCBmb3IgdGVzdGluZyB0aGlzIGNyYXRlLiBJIGhvcGUgYWxsIGNhc2VzIGFyZSBjb3JyZWN0Lg==".to_vec();
    let mut reader = FromBase64Reader::new(StutterSource::new(symbols, 2));
    let out = reader.read_to_end().unwrap();
    assert_eq!(
        "Hi there, this is a simple sentence used for testing this crate. I hope all cases are correct.",
        String::from_utf8(out).unwrap()
    );
}

#[test]
fn decode_error_keeps_earlier_groups_in_destination() {
    // a five-byte destination makes the reader decode the first group on
    // its own before it meets the rejected one
    let mut reader = FromBase64Reader::new(MemSource::new(b"YWJj!!!!".to_vec()));
    let mut dst = vec![0u8; 5];
    let err = reader.read(&mut dst).unwrap_err();
    assert!(matches!(err, TranscodeError::Decode(DecodeError::InvalidByte(..))));
    assert_eq!(&dst[..3], b"abc");
    // the rejected group stays at the front of the stream: the next read
    // meets it again
    let err2 = reader.read(&mut dst).unwrap_err();
    assert!(matches!(err2, TranscodeError::Decode(DecodeError::InvalidByte(..))));
}
