use base64_stream::MemSource;
use base64_stream::ToBase64Reader;

#[test]
fn encode_exact() {
    let test_data = b"Hi there, this is a simple sentence used for testing this crate. I hope all cases are correct.".to_vec();

    let mut reader = ToBase64Reader::new(MemSource::new(test_data));

    let mut base64 = vec![0u8; 128];

    reader.read_exact(&mut base64).unwrap();

    assert_eq!("SGkgdGhlcmUsIHRoaXMgaXMgYSBzaW1wbGUgc2VudGVuY2UgdXNlZCBmb3IgdGVzdGluZyB0aGlzIGNyYXRlLiBJIGhvcGUgYWxsIGNhc2VzIGFyZSBjb3JyZWN0Lg==".as_bytes(), base64.as_slice());
}

#[test]
fn encode_read_to_end() {
    let test_data = b"Hi there, this is a simple sentence used for testing this crate. I hope all cases are correct.".to_vec();

    let mut reader = ToBase64Reader::new(MemSource::new(test_data));

    let base64 = reader.read_to_end().unwrap();

    assert_eq!(b"SGkgdGhlcmUsIHRoaXMgaXMgYSBzaW1wbGUgc2VudGVuY2UgdXNlZCBmb3IgdGVzdGluZyB0aGlzIGNyYXRlLiBJIGhvcGUgYWxsIGNhc2VzIGFyZSBjb3JyZWN0Lg==".to_vec(), base64);
}

#[test]
fn encode_read_to_string() {
    let test_data = b"Hi there, this is a simple sentence used for testing this crate. I hope all cases are correct.".to_vec();

    let mut reader = ToBase64Reader::new(MemSource::new(test_data));

    let base64_string = String::from_utf8(reader.read_to_end().unwrap()).unwrap();

    assert_eq!("SGkgdGhlcmUsIHRoaXMgaXMgYSBzaW1wbGUgc2VudGVuY2UgdXNlZCBmb3IgdGVzdGluZyB0aGlzIGNyYXRlLiBJIGhvcGUgYWxsIGNhc2VzIGFyZSBjb3JyZWN0Lg==", base64_string);
}
