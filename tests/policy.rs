use openpgp_parse::policy::{
    system_time_cutoff_to_timestamp, Policy, PolicyError, StandardPolicy, TIMESTAMP_MAX, Y1997,
    Y2004, Y2013, Y2020,
};
use openpgp_parse::types::{HashAlgorithm, Signature, SignatureType};
use std::time::{SystemTime, UNIX_EPOCH};

const SECS_IN_YEAR: i64 = 365 * 24 * 60 * 60;

fn now_secs() -> i64 {
    SystemTime::now().duration_since(UNIX_EPOCH).unwrap().as_secs() as i64
}

fn sig(typ: SignatureType, hash: HashAlgorithm) -> Signature {
    Signature::new(typ, hash)
}

// A certificate as the policy sees it: a primary key with its direct key
// signature, subkeys with their binding signatures, user IDs with their
// certifications, and revocations.
struct Cert {
    primary: Signature,
    subkeys: Vec<(Signature, Option<Signature>)>,
    userids: Vec<(Signature, Option<Signature>)>,
}

impl Cert {
    fn new(n_subkeys: usize, n_userids: usize) -> Cert {
        Cert {
            primary: sig(SignatureType::DirectKey, HashAlgorithm::SHA512),
            subkeys: (0..n_subkeys)
                .map(|_| (sig(SignatureType::SubkeyBinding, HashAlgorithm::SHA512), None))
                .collect(),
            userids: (0..n_userids)
                .map(|_| (sig(SignatureType::PositiveCertification, HashAlgorithm::SHA512), None))
                .collect(),
        }
    }

    fn primary_valid(&self, p: &dyn Policy) -> bool {
        p.signature(&self.primary).is_ok()
    }

    // Valid keys; with `unrevoked`, only those whose revocation the policy
    // does not accept.
    fn keys(&self, p: &dyn Policy, unrevoked: bool) -> usize {
        if !self.primary_valid(p) {
            return 0;
        }
        1 + self
            .subkeys
            .iter()
            .filter(|(binding, rev)| {
                p.signature(binding).is_ok()
                    && !(unrevoked && rev.map_or(false, |r| p.signature(&r).is_ok()))
            })
            .count()
    }

    fn userids(&self, p: &dyn Policy, unrevoked: bool) -> usize {
        if !self.primary_valid(p) {
            return 0;
        }
        self.userids
            .iter()
            .filter(|(cert, rev)| {
                p.signature(cert).is_ok()
                    && !(unrevoked && rev.map_or(false, |r| p.signature(&r).is_ok()))
            })
            .count()
    }
}

struct RejectType(SignatureType);

impl Policy for RejectType {
    fn signature(&self, sig: &Signature) -> Result<(), PolicyError> {
        if sig.typ == self.0 {
            Err(PolicyError::Rejected(format!("{:?}!", self.0)))
        } else {
            Ok(())
        }
    }
}

#[test]
fn binding_signature() {
    let p = &StandardPolicy::new();

    // A primary and two subkeys.
    let cert = Cert::new(2, 0);
    assert_eq!(cert.keys(p, false), 3);

    // Reject all direct key signatures.
    let p = &RejectType(SignatureType::DirectKey);
    assert_eq!(cert.keys(p, false), 0);

    // Reject all subkey signatures.
    let p = &RejectType(SignatureType::SubkeyBinding);
    assert_eq!(cert.keys(p, false), 1);
}

#[test]
fn revocation() {
    let p = &StandardPolicy::new();

    // A primary, two subkeys and one user ID.
    let mut cert = Cert::new(2, 1);
    assert_eq!(cert.keys(p, false), 3);
    assert_eq!(cert.userids(p, false), 1);

    // Reject all user id signatures.
    let p = &RejectType(SignatureType::PositiveCertification);
    assert_eq!(cert.userids(p, false), 0);

    // Revoke the user ID.
    let revocation = sig(SignatureType::CertificationRevocation, HashAlgorithm::SHA512);
    assert_eq!(revocation.typ, SignatureType::CertificationRevocation);
    cert.userids[0].1 = Some(revocation);
    assert_eq!(cert.userids(p, true), 0);

    // Reject all certification revocations: the user ID is no longer
    // revoked.
    let p = &RejectType(SignatureType::CertificationRevocation);
    assert_eq!(cert.userids(p, true), 1);

    // Revoke the first subkey.
    let revocation = sig(SignatureType::SubkeyRevocation, HashAlgorithm::SHA512);
    assert_eq!(revocation.typ, SignatureType::SubkeyRevocation);
    assert_eq!(cert.keys(p, true), 3);
    cert.subkeys[0].1 = Some(revocation);
    assert_eq!(cert.keys(p, true), 2);

    // Reject all subkey revocations: the key is no longer revoked.
    let p = &RejectType(SignatureType::SubkeyRevocation);
    assert_eq!(cert.keys(p, true), 3);
}

// The primary key's binding signature, and the key's revocation.
fn binding_and_revocation(algo: HashAlgorithm) -> (Signature, Signature) {
    (
        sig(SignatureType::PositiveCertification, algo),
        sig(SignatureType::KeyRevocation, algo),
    )
}

#[test]
fn hash_algo() {
    let default = StandardPolicy::new();
    let algo = HashAlgorithm::SHA512;
    let (binding, revocation) = binding_and_revocation(algo);
    assert!(default.signature(&binding).is_ok());
    assert!(default.signature(&revocation).is_ok());
    assert_eq!(revocation.hash_algo, algo);

    // Reject the hash algorithm unconditionally.
    let mut reject = StandardPolicy::new();
    reject.reject_hash(algo);
    assert!(reject.signature(&binding).is_err());
    assert!(reject.signature(&revocation).is_err());

    // Reject the hash algorithm next year.
    let mut reject = StandardPolicy::new();
    reject.reject_hash_at(
        algo,
        Some(now_secs() + SECS_IN_YEAR),
        Some(now_secs() + SECS_IN_YEAR),
    );
    assert!(reject.signature(&binding).is_ok());
    assert!(reject.signature(&revocation).is_ok());

    // Reject the hash algorithm last year.
    let mut reject = StandardPolicy::new();
    reject.reject_hash_at(
        algo,
        Some(now_secs() - SECS_IN_YEAR),
        Some(now_secs() - SECS_IN_YEAR),
    );
    assert!(reject.signature(&binding).is_err());
    assert!(reject.signature(&revocation).is_err());

    // Reject the hash algorithm for normal signatures last year, and
    // revocations next year.
    let mut reject = StandardPolicy::new();
    reject.reject_hash_at(
        algo,
        Some(now_secs() - SECS_IN_YEAR),
        Some(now_secs() + SECS_IN_YEAR),
    );
    assert!(reject.signature(&binding).is_err());
    assert!(reject.signature(&revocation).is_ok());

    // Accept algo, but reject the algos with id - 1 and id + 1.
    let mut reject = StandardPolicy::new();
    let algo_u8: u8 = algo.to_u8();
    assert!(algo_u8 != 0u8);
    reject.reject_hash_at(
        HashAlgorithm::from_u8(algo_u8 - 1),
        Some(now_secs() - SECS_IN_YEAR),
        Some(now_secs() - SECS_IN_YEAR),
    );
    reject.reject_hash_at(
        HashAlgorithm::from_u8(algo_u8 + 1),
        Some(now_secs() - SECS_IN_YEAR),
        Some(now_secs() - SECS_IN_YEAR),
    );
    assert!(reject.signature(&binding).is_ok());
    assert!(reject.signature(&revocation).is_ok());

    // Reject the hash algorithm since before the Unix epoch: this rejects
    // everything.
    let mut reject = StandardPolicy::new();
    reject.reject_hash_at(algo, Some(-SECS_IN_YEAR), Some(-SECS_IN_YEAR));
    assert!(reject.signature(&binding).is_err());
    assert!(reject.signature(&revocation).is_err());

    // Reject the hash algorithm after the end of representable time: this
    // accepts everything.
    let mut reject = StandardPolicy::new();
    reject.reject_hash_at(algo, Some(500 * SECS_IN_YEAR), Some(500 * SECS_IN_YEAR));
    assert!(reject.signature(&binding).is_ok());
    assert!(reject.signature(&revocation).is_ok());
}

#[test]
fn default_cutoffs() {
    let p = StandardPolicy::new();
    assert_eq!(p.time(), None);
    assert_eq!(
        p.hash_cutoffs(HashAlgorithm::MD5),
        (Some(Y1997 as i64), Some(Y2004 as i64))
    );
    assert_eq!(
        p.hash_cutoffs(HashAlgorithm::SHA1),
        (Some(Y2013 as i64), Some(Y2020 as i64))
    );
    assert_eq!(
        p.hash_cutoffs(HashAlgorithm::RipeMD),
        (Some(Y2013 as i64), Some(Y2020 as i64))
    );
    assert_eq!(p.hash_cutoffs(HashAlgorithm::SHA256), (None, None));
    assert_eq!(p.hash_cutoffs(HashAlgorithm::SHA224), (None, None));
    assert_eq!(p.hash_cutoffs(HashAlgorithm::Unknown(4)), (Some(0), Some(0)));
    assert_eq!(p.hash_cutoffs(HashAlgorithm::Private(100)), (Some(0), Some(0)));
}

#[test]
fn clock_is_read_when_no_reference_time() {
    // MD5 has been rejected for ordinary signatures since 1997: a clock
    // read as the epoch would accept it.
    let p = StandardPolicy::new();
    let s = sig(SignatureType::Binary, HashAlgorithm::MD5);
    match p.signature(&s) {
        Err(PolicyError::HashRejected { hash, cutoff, revocation }) => {
            assert_eq!(hash, HashAlgorithm::MD5);
            assert_eq!(cutoff, Y1997);
            assert!(!revocation);
        }
        other => panic!("unexpected {:?}", other),
    }
}

#[test]
fn reference_time_is_pinned() {
    let p = StandardPolicy::at(Y2013 as i64 - 1);
    assert_eq!(p.time(), Some(Y2013 as i64 - 1));
    let s = sig(SignatureType::Binary, HashAlgorithm::SHA1);
    assert!(p.signature(&s).is_ok());
    let p = StandardPolicy::at(Y2013 as i64);
    assert!(p.signature(&s).is_err());
    // Revocations over SHA-1 stay acceptable until 2020.
    let r = sig(SignatureType::SubkeyRevocation, HashAlgorithm::SHA1);
    assert!(p.signature(&r).is_ok());
    assert!(StandardPolicy::at(Y2020 as i64).signature(&r).is_err());
}

#[test]
fn reference_time_is_clamped() {
    assert_eq!(StandardPolicy::at(-5).time(), Some(0));
    assert_eq!(StandardPolicy::at(1i64 << 40).time(), Some(TIMESTAMP_MAX as i64));
}

#[test]
fn cutoff_conversion() {
    assert_eq!(system_time_cutoff_to_timestamp(-1), Some(0));
    assert_eq!(system_time_cutoff_to_timestamp(0), Some(0));
    assert_eq!(system_time_cutoff_to_timestamp(1234), Some(1234));
    assert_eq!(system_time_cutoff_to_timestamp(0xffff_ffff), Some(0xffff_ffff));
    assert_eq!(system_time_cutoff_to_timestamp(0x1_0000_0000), None);
}

#[test]
fn evaluation_is_idempotent() {
    let p = StandardPolicy::new();
    for algo in [HashAlgorithm::MD5, HashAlgorithm::SHA1, HashAlgorithm::SHA256] {
        let s = sig(SignatureType::Text, algo);
        for t in [0u32, Y2004, Y2020, TIMESTAMP_MAX] {
            assert_eq!(p.signature_at(&s, t).is_ok(), p.signature_at(&s, t).is_ok());
        }
    }
}

#[test]
fn boundary_cutoffs() {
    let mut p = StandardPolicy::new();
    p.reject_hash_at(HashAlgorithm::SHA256, Some(-1), Some(-1));
    for typ in [SignatureType::Binary, SignatureType::KeyRevocation] {
        let s = sig(typ, HashAlgorithm::SHA256);
        for t in [0u32, 1, Y2020, TIMESTAMP_MAX] {
            assert!(p.signature_at(&s, t).is_err());
        }
    }
    let mut p = StandardPolicy::new();
    p.reject_hash_at(HashAlgorithm::MD5, Some(1i64 << 33), Some(1i64 << 33));
    for typ in [SignatureType::Binary, SignatureType::KeyRevocation] {
        let s = sig(typ, HashAlgorithm::MD5);
        for t in [0u32, 1, Y2020, TIMESTAMP_MAX] {
            assert!(p.signature_at(&s, t).is_ok());
        }
    }
}

#[test]
fn accept_and_reject_hash() {
    let mut p = StandardPolicy::new();
    p.accept_hash(HashAlgorithm::MD5);
    assert_eq!(p.hash_cutoffs(HashAlgorithm::MD5), (None, None));
    p.reject_hash(HashAlgorithm::SHA256);
    assert_eq!(p.hash_cutoffs(HashAlgorithm::SHA256), (Some(0), Some(0)));
    // Other algorithms keep their cutoffs.
    assert_eq!(
        p.hash_cutoffs(HashAlgorithm::SHA1),
        (Some(Y2013 as i64), Some(Y2020 as i64))
    );
    // Setting an algorithm past the default table grows it.
    p.accept_hash(HashAlgorithm::Private(105));
    assert_eq!(p.hash_cutoffs(HashAlgorithm::Private(105)), (None, None));
    assert_eq!(p.hash_cutoffs(HashAlgorithm::Private(104)), (Some(0), Some(0)));
}

#[test]
fn identifier_codes() {
    for u in 0..=255u8 {
        assert_eq!(HashAlgorithm::from_u8(u).to_u8(), u);
        assert_eq!(SignatureType::from_u8(u).to_u8(), u);
    }
    assert_eq!(HashAlgorithm::from_u8(10), HashAlgorithm::SHA512);
    assert_eq!(HashAlgorithm::from_u8(110), HashAlgorithm::Private(110));
    assert_eq!(HashAlgorithm::from_u8(12), HashAlgorithm::Unknown(12));
    assert_eq!(SignatureType::from_u8(0x28), SignatureType::SubkeyRevocation);
    assert!(SignatureType::CertificationRevocation.is_revocation());
    assert!(!SignatureType::DirectKey.is_revocation());
}

#[test]
fn default_is_new() {
    let p = StandardPolicy::default();
    assert_eq!(p.time(), None);
    assert_eq!(
        p.hash_cutoffs(HashAlgorithm::SHA1),
        StandardPolicy::new().hash_cutoffs(HashAlgorithm::SHA1)
    );
    let null = openpgp_parse::policy::NullPolicy::new();
    let weak = sig(SignatureType::Binary, HashAlgorithm::MD5);
    assert!(null.signature(&weak).is_ok());
}
