use openpgp_parse::packet::{parse_new_format, BodyLength};
use openpgp_parse::partial_body::BufferedReaderPartialBodyFilter;
use openpgp_parse::source::{ByteSource, Cookie, ReadError};

// "hello world" in three chunks: 2 bytes, a partial chunk of 4 bytes, and
// a last chunk of 5 bytes.
fn chunked() -> Vec<u8> {
    let mut v = b"he".to_vec();
    v.push(0xE2);
    v.extend_from_slice(b"llo ");
    v.push(0x05);
    v.extend_from_slice(b"world");
    v
}

fn reader(data: Vec<u8>, first: u32, hash_headers: bool) -> BufferedReaderPartialBodyFilter {
    let src = ByteSource::new(data, Cookie { level: Some(0) });
    BufferedReaderPartialBodyFilter::with_cookie(src, first, hash_headers, Cookie { level: None })
}

#[test]
fn whole_body_in_one_read() {
    let mut r = reader(chunked(), 2, false);
    assert_eq!(r.data(100).unwrap(), b"hello world".to_vec());
    assert_eq!(r.data_hard(11).unwrap(), b"hello world".to_vec());
    assert_eq!(r.data_consume(11).unwrap(), b"hello world".to_vec());
    assert_eq!(r.data(1).unwrap(), Vec::<u8>::new());
}

#[test]
fn bytewise_equals_single_read() {
    let mut a = reader(chunked(), 2, false);
    let mut b = reader(chunked(), 2, false);
    let bytewise = a.read_bytewise().unwrap();
    let once = b.data_consume_hard(11).unwrap();
    assert_eq!(bytewise, once);
    assert_eq!(bytewise, b"hello world".to_vec());
}

#[test]
fn reads_across_boundaries() {
    let mut r = reader(chunked(), 2, false);
    assert_eq!(r.data(1).unwrap(), b"h".to_vec());
    assert_eq!(r.data_consume(3).unwrap(), b"hel".to_vec());
    assert_eq!(r.consume(2), b"lo".to_vec());
    assert_eq!(r.data_consume_hard(6).unwrap(), b" world".to_vec());
    assert_eq!(r.data_consume_hard(1), Err(ReadError::UnexpectedEof));
    assert_eq!(r.read_bytewise().unwrap(), Vec::<u8>::new());
}

#[test]
fn headers_are_not_hashed() {
    let mut r = reader(chunked(), 2, false);
    assert_eq!(r.read_bytewise().unwrap(), b"hello world".to_vec());
    assert_eq!(r.into_inner().hashed().clone(), b"hello world".to_vec());

    let mut r = reader(chunked(), 2, true);
    assert_eq!(r.read_bytewise().unwrap(), b"hello world".to_vec());
    assert_eq!(r.into_inner().hashed().clone(), chunked());
}

#[test]
fn truncated_chunk() {
    // The second chunk declares 4 bytes; only 2 are there.
    let mut data = b"he".to_vec();
    data.push(0xE2);
    data.extend_from_slice(b"ll");
    let mut r = reader(data, 2, false);
    assert_eq!(r.data(10).unwrap(), b"hell".to_vec());
    assert_eq!(r.data_hard(10), Err(ReadError::UnexpectedEof));
    assert_eq!(r.data_hard(4).unwrap(), b"hell".to_vec());
}

#[test]
fn truncated_header() {
    // A five-byte length header cut after its first two bytes.
    let data = vec![b'h', b'e', 0xFF, 0x00];
    let mut r = reader(data, 2, false);
    assert_eq!(r.data(2).unwrap(), b"he".to_vec());
    assert_eq!(r.data(3), Err(ReadError::UnexpectedEof));
    assert_eq!(r.data_consume(2).unwrap(), b"he".to_vec());
    assert_eq!(r.read_bytewise(), Err(ReadError::UnexpectedEof));
}

#[test]
fn empty_last_chunk() {
    let data = vec![b'a', 0x00];
    let mut r = reader(data, 1, false);
    assert_eq!(r.read_bytewise().unwrap(), b"a".to_vec());
}

#[test]
fn cookie_is_kept() {
    let mut r = reader(chunked(), 2, false);
    assert_eq!(*r.cookie_ref(), Cookie { level: None });
    assert_eq!(r.cookie_set(Cookie { level: Some(3) }), Cookie { level: None });
    assert_eq!(*r.cookie_ref(), Cookie { level: Some(3) });
    assert_eq!(r.get_ref().available(), 13);
}

fn length(bytes: &[u8]) -> Result<BodyLength, ReadError> {
    let mut src = ByteSource::new(bytes.to_vec(), Cookie { level: None });
    parse_new_format(&mut src)
}

#[test]
fn new_format_lengths() {
    assert_eq!(length(&[100]), Ok(BodyLength::Full(100)));
    assert_eq!(length(&[191]), Ok(BodyLength::Full(191)));
    assert_eq!(length(&[192, 0]), Ok(BodyLength::Full(192)));
    assert_eq!(length(&[0xC5, 0xFB]), Ok(BodyLength::Full(1723)));
    assert_eq!(length(&[223, 255]), Ok(BodyLength::Full(8383)));
    assert_eq!(length(&[224]), Ok(BodyLength::Partial(1)));
    assert_eq!(length(&[0xEF]), Ok(BodyLength::Partial(32768)));
    assert_eq!(length(&[254]), Ok(BodyLength::Partial(1 << 30)));
    assert_eq!(length(&[255, 0x00, 0x01, 0x86, 0xA0]), Ok(BodyLength::Full(100000)));
    assert_eq!(length(&[]), Err(ReadError::UnexpectedEof));
    assert_eq!(length(&[200]), Err(ReadError::UnexpectedEof));
    assert_eq!(length(&[255, 1, 2, 3]), Err(ReadError::UnexpectedEof));
}

#[test]
fn byte_source_hashing() {
    let mut src = ByteSource::new(vec![1, 2, 3, 4], Cookie { level: None });
    let mut out = Vec::new();
    src.consume_into(&mut out, 1);
    src.set_hashing(false);
    assert_eq!(src.next_byte(), 2);
    src.set_hashing(true);
    assert_eq!(src.copy_ahead(2), vec![3, 4]);
    assert_eq!(src.peek_at(1), 4);
    src.consume_into(&mut out, 2);
    assert_eq!(out, vec![1, 3, 4]);
    assert_eq!(src.hashed().clone(), vec![1, 3, 4]);
    assert_eq!(src.available(), 0);
}

#[test]
fn failed_read_keeps_position() {
    // The body is followed by another packet's bytes.
    let mut data = chunked();
    data.extend_from_slice(&[0xCA, 0x00]);
    let mut r = reader(data, 2, false);
    assert_eq!(r.data_consume_hard(100), Err(ReadError::UnexpectedEof));
    assert_eq!(r.data_consume(100).unwrap(), b"hello world".to_vec());
    assert_eq!(r.get_ref().available(), 2);
}
