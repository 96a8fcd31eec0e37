use base64_stream::MemSink;
use base64_stream::ToBase64Writer;

#[test]
fn encode_write() {
    let test_data = b"Hi there, this is a simple sentence used for testing this crate. I hope all cases are correct.".to_vec();

    let mut writer = ToBase64Writer::new(MemSink::new());

    writer.write(&test_data).unwrap();

    writer.flush().unwrap(); // the flush method is only used when the full plain data has been written

    let base64 = writer.into_inner().into_vec();

    assert_eq!("SGkgdGhlcmUsIHRoaXMgaXMgYSBzaW1wbGUgc2VudGVuY2UgdXNlZCBmb3IgdGVzdGluZyB0aGlzIGNyYXRlLiBJIGhvcGUgYWxsIGNhc2VzIGFyZSBjb3JyZWN0Lg==", String::from_utf8(base64).unwrap());
}
