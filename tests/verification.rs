use openpgp_parse::pile::PacketPile;
use openpgp_parse::policy::StandardPolicy;
use openpgp_parse::types::{HashAlgorithm, Signature, SignatureType};
use openpgp_parse::verification::{
    classify, parse_signature, results_for, signature_levels, sq_verification_result_signature,
    CheckOutcome, HelperCookie, VerificationResult, VerificationResults,
};

fn packet(tag: u8, body: &[u8]) -> Vec<u8> {
    let mut v = vec![0xC0 | tag, body.len() as u8];
    v.extend_from_slice(body);
    v
}

fn one_pass(hash: u8) -> Vec<u8> {
    packet(4, &[3, 0, hash, 1, 1, 2, 3, 4, 5, 6, 7, 8, 1])
}

fn signature(hash: u8) -> Vec<u8> {
    packet(2, &[4, 0, 1, hash, 0, 0, 0, 0, 0xAB, 0xCD])
}

// A message signed over SHA-256, compressed (stored), and notarized over
// SHA-1.
fn notarized() -> Vec<u8> {
    let mut inner = one_pass(8);
    inner.extend(packet(11, b"b\0\0\0\0\0hello"));
    inner.extend(signature(8));
    let mut compressed = vec![0];
    compressed.extend(inner);
    let mut v = one_pass(2);
    v.extend(packet(8, &compressed));
    v.extend(signature(2));
    v
}

const GOOD: CheckOutcome = CheckOutcome { key_found: true, checksum_ok: true };

// 2026-01-01.
const T: u32 = 1767225600;

#[test]
fn notarization_levels() {
    let pile = PacketPile::from_bytes(notarized()).unwrap();
    let depths: Vec<usize> = (0..pile.len()).map(|i| pile.depth(i)).collect();
    assert_eq!(depths, vec![0, 0, 1, 1, 1, 0]);
    let levels = signature_levels(&pile);
    assert_eq!(levels.len(), 2);
    assert_eq!(levels[0].0, 0);
    assert_eq!(levels[0].1.hash_algo, HashAlgorithm::SHA256);
    assert_eq!(levels[1].0, 1);
    assert_eq!(levels[1].1.hash_algo, HashAlgorithm::SHA1);

    // The standard policy rejects SHA-1 for the notarization only.
    let strict = StandardPolicy::new();
    let results = results_for(&levels, &vec![GOOD, GOOD], &strict, T);
    assert_eq!(results.levels(), 2);
    assert_eq!(results.results_at_level(0).len(), 1);
    assert!(matches!(results.results_at_level(0)[0], VerificationResult::GoodChecksum(_)));
    assert!(matches!(results.results_at_level(1)[0], VerificationResult::PolicyRejected(_)));

    // Accepting SHA-1 changes level 1 and leaves level 0 as it was.
    let mut lax = StandardPolicy::new();
    lax.accept_hash(HashAlgorithm::SHA1);
    let lax_results = results_for(&levels, &vec![GOOD, GOOD], &lax, T);
    assert_eq!(lax_results.results_at_level(0), results.results_at_level(0));
    assert!(matches!(lax_results.results_at_level(1)[0], VerificationResult::GoodChecksum(_)));
}

#[test]
fn signed_message_is_level_zero() {
    let mut msg = one_pass(10);
    msg.extend(packet(11, b"b\0\0\0\0\0data"));
    msg.extend(signature(10));
    let pile = PacketPile::from_bytes(msg).unwrap();
    let levels = signature_levels(&pile);
    assert_eq!(levels.len(), 1);
    assert_eq!(levels[0].0, 0);
    let results = results_for(&levels, &vec![GOOD], &StandardPolicy::new(), T);
    assert_eq!(results.levels(), 1);
    assert!(matches!(results.results_at_level(0)[0], VerificationResult::GoodChecksum(_)));
}

#[test]
fn unsigned_message_has_no_levels() {
    let pile = PacketPile::from_bytes(packet(11, b"b\0\0\0\0\0x")).unwrap();
    let levels = signature_levels(&pile);
    assert!(levels.is_empty());
    let results = results_for(&levels, &vec![], &StandardPolicy::new(), T);
    assert_eq!(results.levels(), 0);
}

#[test]
fn classification() {
    let p = StandardPolicy::new();
    let s = Signature::new(SignatureType::Binary, HashAlgorithm::SHA256);
    let weak = Signature::new(SignatureType::Binary, HashAlgorithm::MD5);
    let none = CheckOutcome { key_found: false, checksum_ok: false };
    let bad = CheckOutcome { key_found: true, checksum_ok: false };
    assert_eq!(classify(&s, none, &p, T), VerificationResult::MissingKey(s));
    assert_eq!(classify(&s, bad, &p, T), VerificationResult::BadChecksum(s));
    assert_eq!(classify(&s, GOOD, &p, T), VerificationResult::GoodChecksum(s));
    assert_eq!(classify(&weak, GOOD, &p, T), VerificationResult::PolicyRejected(weak));
    assert_eq!(classify(&weak, bad, &p, T), VerificationResult::BadChecksum(weak));
    let r = VerificationResult::PolicyRejected(weak);
    assert_eq!(*sq_verification_result_signature(&r), weak);
}

#[test]
fn grouping_keeps_order() {
    let a = Signature::new(SignatureType::Binary, HashAlgorithm::SHA256);
    let b = Signature::new(SignatureType::Text, HashAlgorithm::SHA512);
    let entries = vec![
        (2, VerificationResult::GoodChecksum(a)),
        (0, VerificationResult::MissingKey(b)),
        (2, VerificationResult::BadChecksum(b)),
    ];
    let r = VerificationResults::from_entries(&entries);
    assert_eq!(r.levels(), 3);
    assert_eq!(r.results_at_level(0), &vec![VerificationResult::MissingKey(b)]);
    assert!(r.results_at_level(1).is_empty());
    assert_eq!(
        r.results_at_level(2),
        &vec![VerificationResult::GoodChecksum(a), VerificationResult::BadChecksum(b)]
    );
    let _cookie = HelperCookie {};
}

#[test]
fn signature_fields() {
    let v4 = vec![4, 0x13, 1, 8, 0, 0, 0, 0, 0xAB, 0xCD];
    let s = parse_signature(&v4).unwrap();
    assert_eq!(s.typ, SignatureType::PositiveCertification);
    assert_eq!(s.pk_algo, 1);
    assert_eq!(s.hash_algo, HashAlgorithm::SHA256);
    assert_eq!(s.creation_time, None);
    assert_eq!(s.issuer, None);
    // Creation time in the hashed area, issuer in the unhashed one.
    let v4 = vec![
        4, 0x00, 1, 10, 0, 6, 5, 2, 0x5E, 0x0B, 0xE1, 0x00, 0, 10, 9, 16, 1, 2, 3, 4, 5, 6, 7, 8,
        0xAB, 0xCD,
    ];
    let s = parse_signature(&v4).unwrap();
    assert_eq!(s.hash_algo, HashAlgorithm::SHA512);
    assert_eq!(s.creation_time, Some(0x5E0BE100));
    assert_eq!(s.issuer, Some(0x0102030405060708));
    // Critical bits set; the hashed issuer wins over the unhashed one.
    let v4 = vec![
        4, 0x00, 1, 10, 0, 16, 5, 0x82, 0, 0, 0, 7, 9, 0x90, 8, 8, 8, 8, 8, 8, 8, 8, 0, 10, 9, 16,
        1, 2, 3, 4, 5, 6, 7, 8,
    ];
    let s = parse_signature(&v4).unwrap();
    assert_eq!(s.creation_time, Some(7));
    assert_eq!(s.issuer, Some(0x0808080808080808));
    // The areas must fit in the body.
    assert_eq!(parse_signature(&vec![4, 0, 1, 8, 0, 0]), None);
    assert_eq!(parse_signature(&vec![4, 0, 1, 8, 0, 9, 1, 2]), None);
    let v3 = vec![3, 5, 0x00, 0x5E, 0x0B, 0xE1, 0x00, 1, 2, 3, 4, 5, 6, 7, 8, 17, 2];
    let s = parse_signature(&v3).unwrap();
    assert_eq!(s.typ, SignatureType::Binary);
    assert_eq!(s.creation_time, Some(0x5E0BE100));
    assert_eq!(s.issuer, Some(0x0102030405060708));
    assert_eq!(s.pk_algo, 17);
    assert_eq!(s.hash_algo, HashAlgorithm::SHA1);
    assert_eq!(parse_signature(&vec![5, 0, 1, 8]), None);
    assert_eq!(parse_signature(&vec![4, 0, 1]), None);
}

use openpgp_parse::verification::{CheckState, VerifyError};

#[test]
fn check_runs_once_at_the_end() {
    let mut st = CheckState::new();
    assert_eq!(st.end_of_message(), Ok(()));
    assert_eq!(st.end_of_message(), Err(VerifyError::AlreadyChecked));
    assert_eq!(st.judgment(true), Ok(()));
    assert_eq!(st.judgment(false), Err(VerifyError::Rejected));
}

#[test]
fn pile_lists_nested_packets() {
    let pile = PacketPile::from_bytes(notarized()).unwrap();
    assert_eq!(pile.len(), 6);
    assert_eq!(pile.packet(3).body, b"b\0\0\0\0\0hello".to_vec());
    let mut bad = notarized();
    bad.push(0x01);
    assert!(PacketPile::from_bytes(bad).is_err());
}
