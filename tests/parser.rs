use openpgp_parse::parser::{
    read_header, PacketParser, PacketParserResult, ParseError, Tag,
};
use openpgp_parse::packet::BodyLength;
use openpgp_parse::pile::PacketPile;
use openpgp_parse::source::{ByteSource, Cookie};

// A new-format packet with a one-byte length.
fn packet(tag: u8, body: &[u8]) -> Vec<u8> {
    assert!(body.len() < 192);
    let mut v = vec![0xC0 | tag, body.len() as u8];
    v.extend_from_slice(body);
    v
}

fn literal(text: &[u8]) -> Vec<u8> {
    let mut body = vec![b'b', 0, 0, 0, 0, 0];
    body.extend_from_slice(text);
    packet(11, &body)
}

fn compressed(inner: &[u8]) -> Vec<u8> {
    let mut body = vec![0];
    body.extend_from_slice(inner);
    packet(8, &body)
}

fn expect_parser(r: PacketParserResult) -> PacketParser {
    match r {
        PacketParserResult::Parser(pp) => pp,
        PacketParserResult::Eof(_) => panic!("unexpected end"),
    }
}

// Literal data inside two levels of uncompressed containers, then a marker.
fn nested() -> Vec<u8> {
    let mut v = compressed(&compressed(&literal(b"hi")));
    v.extend(packet(10, b"PGP"));
    v
}

#[test]
fn recurse_descends_one_level_at_a_time() {
    let pp = expect_parser(PacketParser::from_bytes(nested()).unwrap());
    assert_eq!(pp.recursion_depth(), 0);
    assert_eq!(pp.packet().tag, Tag::CompressedData);
    let (old, r) = pp.recurse().unwrap();
    assert_eq!(old.tag, Tag::CompressedData);
    let pp = expect_parser(r);
    assert_eq!(pp.recursion_depth(), 1);
    let (_, r) = pp.recurse().unwrap();
    let pp = expect_parser(r);
    assert_eq!(pp.recursion_depth(), 2);
    assert_eq!(pp.packet().tag, Tag::Literal);
    assert_eq!(pp.packet().body, b"b\0\0\0\0\0hi".to_vec());
    let (_, r) = pp.recurse().unwrap();
    let pp = expect_parser(r);
    // Both containers are used up: back at the top.
    assert_eq!(pp.recursion_depth(), 0);
    assert_eq!(pp.packet().tag, Tag::Marker);
    let (old, r) = pp.next().unwrap();
    assert_eq!(old.body, b"PGP".to_vec());
    match r {
        PacketParserResult::Eof(e) => assert_eq!(e.last_recursion_depth(), 0),
        PacketParserResult::Parser(_) => panic!("expected the end"),
    }
}

#[test]
fn next_never_descends() {
    let pp = expect_parser(PacketParser::from_bytes(nested()).unwrap());
    let (_, r) = pp.next().unwrap();
    let pp = expect_parser(r);
    assert_eq!(pp.recursion_depth(), 0);
    assert_eq!(pp.packet().tag, Tag::Marker);
}

#[test]
fn depth_sequences() {
    let pile = PacketPile::from_bytes(nested()).unwrap();
    let depths: Vec<usize> = (0..pile.len()).map(|i| pile.depth(i)).collect();
    assert_eq!(depths, vec![0, 1, 2, 0]);
    let pile = PacketPile::top_level_from_bytes(nested()).unwrap();
    let depths: Vec<usize> = (0..pile.len()).map(|i| pile.depth(i)).collect();
    assert_eq!(depths, vec![0, 0]);
    assert_eq!(pile.packet(1).tag, Tag::Marker);
}

#[test]
fn recursion_limit() {
    let pp = expect_parser(PacketParser::from_bytes_with_depth(nested(), 1).unwrap());
    let (_, r) = pp.recurse().unwrap();
    let pp = expect_parser(r);
    assert_eq!(pp.recursion_depth(), 1);
    // The limit is reached: the inner container is skipped.
    let (_, r) = pp.recurse().unwrap();
    let pp = expect_parser(r);
    assert_eq!(pp.recursion_depth(), 0);
    assert_eq!(pp.packet().tag, Tag::Marker);
}

#[test]
fn finished_container_is_not_entered() {
    let mut pp = expect_parser(PacketParser::from_bytes(nested()).unwrap());
    assert_eq!(pp.finish().tag, Tag::CompressedData);
    let (_, r) = pp.recurse().unwrap();
    assert_eq!(expect_parser(r).packet().tag, Tag::Marker);

    let mut pp = expect_parser(PacketParser::from_bytes(nested()).unwrap());
    let content = pp.buffer_unread_content();
    assert_eq!(content, compressed(&literal(b"hi")).into_iter().fold(vec![0], |mut v, b| {
        v.push(b);
        v
    }));
    let (_, r) = pp.recurse().unwrap();
    assert_eq!(expect_parser(r).recursion_depth(), 0);
}

#[test]
fn decrypt_encrypted_container() {
    let mut data = packet(1, &[3, 0, 0, 0, 0, 0, 0, 0, 0, 1]);
    data.extend(packet(18, &[1, 0xAA, 0xBB, 0xCC]));
    let pp = expect_parser(PacketParser::from_bytes(data).unwrap());
    assert_eq!(pp.packet().tag, Tag::PKESK);
    let mut seip = expect_parser(pp.next().unwrap().1);
    assert_eq!(seip.packet().tag, Tag::SEIP);
    let plaintext = literal(b"hello world");
    assert_eq!(seip.decrypt(plaintext.clone()), Ok(()));
    assert_eq!(seip.decrypt(plaintext), Err(ParseError::InvalidOperation));
    let (_, r) = seip.recurse().unwrap();
    let inner = expect_parser(r);
    assert_eq!(inner.recursion_depth(), 1);
    assert_eq!(inner.packet().tag, Tag::Literal);
    assert_eq!(inner.packet().body[6..].to_vec(), b"hello world".to_vec());
}

#[test]
fn decrypt_needs_an_unread_container() {
    let mut pp = expect_parser(PacketParser::from_bytes(literal(b"x")).unwrap());
    assert_eq!(pp.decrypt(vec![]), Err(ParseError::InvalidOperation));
    let mut pp = expect_parser(PacketParser::from_bytes(packet(18, &[1])).unwrap());
    let _ = pp.buffer_unread_content();
    assert_eq!(pp.decrypt(vec![]), Err(ParseError::InvalidOperation));
}

#[test]
fn malformed_and_truncated_input() {
    assert!(matches!(
        PacketParser::from_bytes(vec![0x3F, 0]),
        Err(ParseError::MalformedEncoding)
    ));
    assert!(matches!(
        PacketParser::from_bytes(vec![0xCB, 10, 1, 2]),
        Err(ParseError::UnexpectedEof)
    ));
    assert!(matches!(
        PacketParser::from_bytes(vec![0xCB, 0xFF, 0]),
        Err(ParseError::UnexpectedEof)
    ));
    match PacketParser::from_bytes(vec![]) {
        Ok(PacketParserResult::Eof(e)) => assert_eq!(e.last_recursion_depth(), 0),
        _ => panic!("expected the end"),
    }
    // A truncated packet after a good one.
    let mut data = literal(b"ok");
    data.extend_from_slice(&[0xCB, 5, 1]);
    let pp = expect_parser(PacketParser::from_bytes(data).unwrap());
    assert!(matches!(pp.next(), Err(ParseError::UnexpectedEof)));
}

#[test]
fn old_format_headers() {
    // Tag 11, one-byte length.
    let mut src = ByteSource::new(vec![0xAC, 3, 1, 2, 3], Cookie { level: None });
    assert_eq!(read_header(&mut src), Ok((11, BodyLength::Full(3))));
    // Tag 2, two-byte length.
    let mut src = ByteSource::new(vec![0x89, 0x01, 0x02], Cookie { level: None });
    assert_eq!(read_header(&mut src), Ok((2, BodyLength::Full(258))));
    // Tag 6, four-byte length.
    let mut src = ByteSource::new(vec![0x9A, 0, 1, 0, 0], Cookie { level: None });
    assert_eq!(read_header(&mut src), Ok((6, BodyLength::Full(65536))));
    // Tag 11, indeterminate length: the body runs to the end.
    let data = vec![0xAF, b'b', 0, 0, 0, 0, 0, b'z'];
    let pp = expect_parser(PacketParser::from_bytes(data).unwrap());
    assert_eq!(pp.packet().tag, Tag::Literal);
    assert_eq!(pp.packet().body.len(), 7);
}

#[test]
fn partial_body_packet() {
    // A literal packet whose body comes in a 2-byte chunk and a last chunk
    // of 3 bytes.
    let data = vec![0xCB, 0xE1, b'a', b'b', 0x03, b'c', b'd', b'e', 0xCA, 0x00];
    let pp = expect_parser(PacketParser::from_bytes(data).unwrap());
    assert_eq!(pp.packet().tag, Tag::Literal);
    assert_eq!(pp.packet().body, b"abcde".to_vec());
    let (_, r) = pp.next().unwrap();
    let pp = expect_parser(r);
    assert_eq!(pp.packet().tag, Tag::Marker);
    assert_eq!(pp.packet().body.len(), 0);
}

#[test]
fn tag_codes() {
    for u in 0..=255u8 {
        assert_eq!(Tag::from_u8(u).to_u8(), u);
    }
    assert_eq!(Tag::from_u8(18), Tag::SEIP);
    assert_eq!(Tag::from_u8(61), Tag::Private(61));
    assert_eq!(Tag::from_u8(15), Tag::Unknown(15));
}

use openpgp_parse::decryption::{
    get_secret, sq_secret_cached, Action, DecryptError, DecryptionState, Recovery, Secret,
};

#[test]
fn decryption_decisions() {
    let mut st = DecryptionState::new();
    assert_eq!(st.step(Tag::PKESK), Action::Continue);
    assert_eq!(st.step(Tag::SKESK), Action::Continue);
    assert_eq!(st.step(Tag::PKESK), Action::Continue);
    assert_eq!(st.key_packets(), (2, 1));
    assert_eq!(st.step(Tag::SEIP), Action::RecoverSessionKey);
    assert_eq!(st.step(Tag::Literal), Action::Continue);

    assert!(matches!(get_secret(Recovery::Failed), Err(DecryptError::RecoveryFailed)));
    assert!(matches!(get_secret(Recovery::NoKey), Err(DecryptError::MissingSessionKey)));
    match get_secret(Recovery::Key(sq_secret_cached(9, vec![1, 2, 3]))) {
        Ok(Secret::Cached { algo, session_key }) => {
            assert_eq!(algo, 9);
            assert_eq!(session_key, vec![1, 2, 3]);
        }
        _ => panic!("expected the session key"),
    }
}

#[test]
fn top_level_pile_stops_at_the_first_bad_packet() {
    let mut data = literal(b"a");
    data.extend(packet(10, b"PGP"));
    let pile = PacketPile::top_level_from_bytes(data.clone()).unwrap();
    assert_eq!(pile.len(), 2);
    assert_eq!(pile.packet(0).tag, Tag::Literal);
    assert_eq!(pile.packet(1).body, b"PGP".to_vec());
    data.push(0x20);
    assert!(matches!(
        PacketPile::top_level_from_bytes(data),
        Err(ParseError::MalformedEncoding)
    ));
    assert_eq!(PacketPile::top_level_from_bytes(vec![]).unwrap().len(), 0);
}

#[test]
fn truncated_chunked_packet() {
    // A 2-byte chunk, then a last chunk that declares 5 bytes of which one
    // is there.
    let data = vec![0xCB, 0xE1, b'a', b'b', 0x05, b'c'];
    assert!(matches!(
        PacketParser::from_bytes(data),
        Err(ParseError::UnexpectedEof)
    ));
    // Cut inside the second chunk's length header.
    let data = vec![0xCB, 0xE1, b'a', b'b', 0xFF, 0];
    assert!(matches!(
        PacketParser::from_bytes(data),
        Err(ParseError::UnexpectedEof)
    ));
}

#[test]
fn decompressed_container_is_entered() {
    // Compression algorithm 1 (ZIP): the content is opaque until the
    // caller hands in what the decoder gives.
    let mut data = packet(8, &[1, 0xDE, 0xAD, 0xBE, 0xEF]);
    data.extend(packet(10, b"PGP"));
    let pp = expect_parser(PacketParser::from_bytes(data.clone()).unwrap());
    let (_, r) = pp.recurse().unwrap();
    let pp = expect_parser(r);
    assert_eq!(pp.recursion_depth(), 0);
    assert_eq!(pp.packet().tag, Tag::Marker);

    let mut pp = expect_parser(PacketParser::from_bytes(data).unwrap());
    assert_eq!(pp.decompress(literal(b"inner")), Ok(()));
    assert_eq!(pp.decompress(literal(b"again")), Err(ParseError::InvalidOperation));
    let (_, r) = pp.recurse().unwrap();
    let pp = expect_parser(r);
    assert_eq!(pp.recursion_depth(), 1);
    assert_eq!(pp.packet().tag, Tag::Literal);
    assert_eq!(pp.packet().body[6..].to_vec(), b"inner".to_vec());
    let (_, r) = pp.recurse().unwrap();
    assert_eq!(expect_parser(r).packet().tag, Tag::Marker);

    // Stored content is at hand already; other packets hold none.
    let mut pp = expect_parser(PacketParser::from_bytes(compressed(&literal(b"x"))).unwrap());
    assert_eq!(pp.decompress(vec![]), Err(ParseError::InvalidOperation));
    let mut pp = expect_parser(PacketParser::from_bytes(literal(b"x")).unwrap());
    assert_eq!(pp.decompress(vec![]), Err(ParseError::InvalidOperation));
}
