use base64_stream::FromBase64Writer;
use base64_stream::MemSink;

#[test]
fn decode_write() {
    let base64 = b"SGkgdGhlcmUsIHRoaXMgaXMgYSBzaW1wbGUgc2VudGVuY2UgdXNlZCBmb3IgdGVzdGluZyB0aGlzIGNyYXRlLiBJIGhvcGUgYWxsIGNhc2VzIGFyZSBjb3JyZWN0Lg==".to_vec();

    let mut writer = FromBase64Writer::new(MemSink::new());

    writer.write(&base64).unwrap();

    writer.flush().unwrap(); // the flush method is only used when the full base64 data has been written

    let test_data = writer.into_inner().into_vec();

    assert_eq!(
        "Hi there, this is a simple sentence used for testing this crate. I hope all cases are \
         correct.",
        String::from_utf8(test_data).unwrap()
    );
}
