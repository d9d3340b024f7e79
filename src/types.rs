//! Algorithm and signature identifiers, and the signature record that the
//! policy engine judges.
use vstd::prelude::*;

verus! {

/// The hash algorithms that OpenPGP names, by their registry number.
#[derive(PartialEq, Eq, Structural, Clone, Copy, Debug)]
pub enum HashAlgorithm {
    MD5,
    SHA1,
    RipeMD,
    SHA256,
    SHA384,
    SHA512,
    SHA224,
    /// One of the numbers 100 to 110, reserved for private use.
    Private(u8),
    /// Any other number.
    Unknown(u8),
}

/// The registry number of a hash algorithm.
pub open spec fn hash_code(h: HashAlgorithm) -> u8 {
    match h {
        HashAlgorithm::MD5 => 1,
        HashAlgorithm::SHA1 => 2,
        HashAlgorithm::RipeMD => 3,
        HashAlgorithm::SHA256 => 8,
        HashAlgorithm::SHA384 => 9,
        HashAlgorithm::SHA512 => 10,
        HashAlgorithm::SHA224 => 11,
        HashAlgorithm::Private(u) => u,
        HashAlgorithm::Unknown(u) => u,
    }
}

/// The hash algorithm that a registry number denotes.
pub open spec fn hash_of_code(u: u8) -> HashAlgorithm {
    if u == 1 {
        HashAlgorithm::MD5
    } else if u == 2 {
        HashAlgorithm::SHA1
    } else if u == 3 {
        HashAlgorithm::RipeMD
    } else if u == 8 {
        HashAlgorithm::SHA256
    } else if u == 9 {
        HashAlgorithm::SHA384
    } else if u == 10 {
        HashAlgorithm::SHA512
    } else if u == 11 {
        HashAlgorithm::SHA224
    } else if 100 <= u <= 110 {
        HashAlgorithm::Private(u)
    } else {
        HashAlgorithm::Unknown(u)
    }
}

/// A hash algorithm value is canonical when its payload, if any, lies in
/// the range that its variant stands for.
pub open spec fn hash_canonical(h: HashAlgorithm) -> bool {
    match h {
        HashAlgorithm::Private(u) => 100 <= u <= 110,
        HashAlgorithm::Unknown(u) => !(1 <= u <= 3 || 8 <= u <= 11 || 100 <= u <= 110),
        _ => true,
    }
}

impl HashAlgorithm {
    /// Decodes a registry number.
    pub fn from_u8(u: u8) -> (r: HashAlgorithm)
        ensures
            r == hash_of_code(u),
    {
        match u {
            1 => HashAlgorithm::MD5,
            2 => HashAlgorithm::SHA1,
            3 => HashAlgorithm::RipeMD,
            8 => HashAlgorithm::SHA256,
            9 => HashAlgorithm::SHA384,
            10 => HashAlgorithm::SHA512,
            11 => HashAlgorithm::SHA224,
            100u8..=110u8 => HashAlgorithm::Private(u),
            _ => HashAlgorithm::Unknown(u),
        }
    }

    /// Encodes the algorithm as its registry number.
    pub fn to_u8(&self) -> (r: u8)
        ensures
            r == hash_code(*self),
    {
        match *self {
            HashAlgorithm::MD5 => 1,
            HashAlgorithm::SHA1 => 2,
            HashAlgorithm::RipeMD => 3,
            HashAlgorithm::SHA256 => 8,
            HashAlgorithm::SHA384 => 9,
            HashAlgorithm::SHA512 => 10,
            HashAlgorithm::SHA224 => 11,
            HashAlgorithm::Private(u) => u,
            HashAlgorithm::Unknown(u) => u,
        }
    }
}

/// Decoding a registry number and encoding the result gives the number
/// back; encoding a canonical algorithm and decoding the number gives the
/// algorithm back.
pub proof fn hash_code_round_trip(u: u8, h: HashAlgorithm)
    ensures
        hash_code(hash_of_code(u)) == u,
        hash_canonical(hash_of_code(u)),
        hash_canonical(h) ==> hash_of_code(hash_code(h)) == h,
{
}

/// The class of a signature: what it binds or asserts.
#[derive(PartialEq, Eq, Structural, Clone, Copy, Debug)]
pub enum SignatureType {
    Binary,
    Text,
    Standalone,
    GenericCertification,
    PersonaCertification,
    CasualCertification,
    PositiveCertification,
    SubkeyBinding,
    PrimaryKeyBinding,
    DirectKey,
    KeyRevocation,
    SubkeyRevocation,
    CertificationRevocation,
    Timestamp,
    Confirmation,
    /// Any number that names none of the classes above.
    Unknown(u8),
}

/// The number that a signature class is written as.
pub open spec fn sig_type_code(t: SignatureType) -> u8 {
    match t {
        SignatureType::Binary => 0x00,
        SignatureType::Text => 0x01,
        SignatureType::Standalone => 0x02,
        SignatureType::GenericCertification => 0x10,
        SignatureType::PersonaCertification => 0x11,
        SignatureType::CasualCertification => 0x12,
        SignatureType::PositiveCertification => 0x13,
        SignatureType::SubkeyBinding => 0x18,
        SignatureType::PrimaryKeyBinding => 0x19,
        SignatureType::DirectKey => 0x1f,
        SignatureType::KeyRevocation => 0x20,
        SignatureType::SubkeyRevocation => 0x28,
        SignatureType::CertificationRevocation => 0x30,
        SignatureType::Timestamp => 0x40,
        SignatureType::Confirmation => 0x50,
        SignatureType::Unknown(u) => u,
    }
}

/// Whether a signature class revokes something.
pub open spec fn is_revocation(t: SignatureType) -> bool {
    t == SignatureType::KeyRevocation || t == SignatureType::SubkeyRevocation
        || t == SignatureType::CertificationRevocation
}

impl SignatureType {
    /// Decodes a signature class number.
    pub fn from_u8(u: u8) -> (r: SignatureType)
        ensures
            sig_type_code(r) == u,
            (r matches SignatureType::Unknown(_)) ==> forall|t: SignatureType|
                sig_type_code(t) == u ==> t == r,
    {
        let r = match u {
            0x00 => SignatureType::Binary,
            0x01 => SignatureType::Text,
            0x02 => SignatureType::Standalone,
            0x10 => SignatureType::GenericCertification,
            0x11 => SignatureType::PersonaCertification,
            0x12 => SignatureType::CasualCertification,
            0x13 => SignatureType::PositiveCertification,
            0x18 => SignatureType::SubkeyBinding,
            0x19 => SignatureType::PrimaryKeyBinding,
            0x1f => SignatureType::DirectKey,
            0x20 => SignatureType::KeyRevocation,
            0x28 => SignatureType::SubkeyRevocation,
            0x30 => SignatureType::CertificationRevocation,
            0x40 => SignatureType::Timestamp,
            0x50 => SignatureType::Confirmation,
            _ => SignatureType::Unknown(u),
        };
        r
    }

    /// Encodes the class as its number.
    pub fn to_u8(&self) -> (r: u8)
        ensures
            r == sig_type_code(*self),
    {
        match *self {
            SignatureType::Binary => 0x00,
            SignatureType::Text => 0x01,
            SignatureType::Standalone => 0x02,
            SignatureType::GenericCertification => 0x10,
            SignatureType::PersonaCertification => 0x11,
            SignatureType::CasualCertification => 0x12,
            SignatureType::PositiveCertification => 0x13,
            SignatureType::SubkeyBinding => 0x18,
            SignatureType::PrimaryKeyBinding => 0x19,
            SignatureType::DirectKey => 0x1f,
            SignatureType::KeyRevocation => 0x20,
            SignatureType::SubkeyRevocation => 0x28,
            SignatureType::CertificationRevocation => 0x30,
            SignatureType::Timestamp => 0x40,
            SignatureType::Confirmation => 0x50,
            SignatureType::Unknown(u) => u,
        }
    }

    /// Whether this class revokes a key, a subkey or a certification.
    pub fn is_revocation(&self) -> (r: bool)
        ensures
            r == is_revocation(*self),
    {
        match *self {
            SignatureType::KeyRevocation
            | SignatureType::SubkeyRevocation
            | SignatureType::CertificationRevocation => true,
            _ => false,
        }
    }
}

/// The parts of a signature packet that the policy engine and the
/// verification pipeline read.
#[derive(PartialEq, Eq, Structural, Clone, Copy, Debug)]
pub struct Signature {
    /// The signature's class.
    pub typ: SignatureType,
    /// The hash algorithm over which the signature was made.
    pub hash_algo: HashAlgorithm,
    /// The public-key algorithm's registry number.
    pub pk_algo: u8,
    /// The creation time that the signer claims, in seconds since the epoch.
    pub creation_time: Option<u32>,
    /// The issuer's key ID, if the signature names it.
    pub issuer: Option<u64>,
}

impl Signature {
    /// Makes a signature record.
    pub fn new(typ: SignatureType, hash_algo: HashAlgorithm) -> (r: Signature)
        ensures
            r.typ == typ,
            r.hash_algo == hash_algo,
            r.pk_algo == 0,
            r.creation_time is None,
            r.issuer is None,
    {
        Signature { typ, hash_algo, pk_algo: 0, creation_time: None, issuer: None }
    }
}

} // verus!
