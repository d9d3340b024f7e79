//! The policy engine: whether a signature's hash algorithm is still
//! trusted at a reference time.
//!
//! Each hash algorithm has two cutoff times, one for ordinary signatures and
//! a later one for revocations: rejecting a revocation can make something
//! valid again that should stay revoked.  A cutoff of `None` accepts the
//! algorithm at any time; a cutoff `Some(c)` rejects it at every reference
//! time at or after `c`.  The epoch, `Some(0)`, rejects it always.
use vstd::prelude::*;
use crate::types::{HashAlgorithm, Signature, hash_code, is_revocation};

verus! {

/// 1997-01-01 00:00:00 UTC.
pub const Y1997: u32 = 852076800;
/// 2004-01-01 00:00:00 UTC.
pub const Y2004: u32 = 1072915200;
/// 2013-01-01 00:00:00 UTC.
pub const Y2013: u32 = 1356998400;
/// 2020-01-01 00:00:00 UTC.
pub const Y2020: u32 = 1577836800;

/// The latest time that an OpenPGP timestamp can hold.
pub const TIMESTAMP_MAX: u32 = 0xffff_ffff;

/// Why a policy rejected a signature.
#[derive(Debug, Clone)]
pub enum PolicyError {
    /// The signature's hash algorithm is no longer trusted for its class
    /// of signature: the reference time is at or after `cutoff`.
    HashRejected { hash: HashAlgorithm, cutoff: u32, revocation: bool },
    /// A policy of the caller's own rejected the signature.
    Rejected(String),
}

/// A policy for cryptographic operations.
///
/// An implementation must be idempotent: judging the same signature twice
/// gives the same answer.
pub trait Policy {
    /// Returns an error if the signature violates the policy.
    fn signature(&self, sig: &Signature) -> (r: Result<(), PolicyError>) {
        Ok(())
    }
}

/// The cutoff that a requested time becomes: a time before the epoch
/// rejects always (the epoch itself), one past the last representable
/// timestamp accepts always (`None`).
pub open spec fn cutoff_from_time(secs: int) -> Option<u32> {
    if secs < 0 {
        Some(0u32)
    } else if secs > TIMESTAMP_MAX {
        None
    } else {
        Some(secs as u32)
    }
}

/// An optional requested cutoff time as a stored cutoff.
pub open spec fn optional_cutoff(t: Option<i64>) -> Option<u32> {
    match t {
        Some(secs) => cutoff_from_time(secs as int),
        None => None,
    }
}

/// The cutoff that the standard policy starts with for ordinary signatures,
/// by hash algorithm number.
pub open spec fn default_normal_cutoff(u: u8) -> Option<u32> {
    if u == 1 {
        Some(Y1997)
    } else if u == 2 || u == 3 {
        Some(Y2013)
    } else if 8 <= u <= 11 {
        None
    } else {
        Some(0u32)
    }
}

/// The cutoff that the standard policy starts with for revocations, by
/// hash algorithm number.
pub open spec fn default_revocation_cutoff(u: u8) -> Option<u32> {
    if u == 1 {
        Some(Y2004)
    } else if u == 2 || u == 3 {
        Some(Y2020)
    } else if 8 <= u <= 11 {
        None
    } else {
        Some(0u32)
    }
}

/// What a cutoff decides at reference time `t`.
pub open spec fn cutoff_allows(cutoff: Option<u32>, t: u32) -> bool {
    match cutoff {
        Some(c) => t < c,
        None => true,
    }
}

/// Maps a requested time in seconds since the epoch to a cutoff.
pub fn system_time_cutoff_to_timestamp(secs: i64) -> (r: Option<u32>)
    ensures
        r == cutoff_from_time(secs as int),
{
    if secs < 0 {
        Some(0)
    } else if secs > TIMESTAMP_MAX as i64 {
        None
    } else {
        Some(secs as u32)
    }
}

/// Relies on std::time::SystemTime::elapsed, called on the epoch: the time
/// from the epoch to the clock's current reading, or `None` when the clock
/// reads before the epoch.
#[verifier::external_body]
fn clock_since_epoch() -> (r: Option<std::time::Duration>) {
    std::time::UNIX_EPOCH.elapsed().ok()
}

/// Relies on std::time::Duration::as_secs, the whole seconds of a duration.
pub assume_specification[ core::time::Duration::as_secs ](d: &core::time::Duration) -> u64;

/// A table of cutoffs indexed by algorithm number.  Numbers past the end
/// of the table are rejected.
#[derive(Debug, Clone)]
struct CutoffList {
    cutoffs: Vec<Option<u32>>,
}

impl CutoffList {
    spec fn cutoff_spec(&self, i: u8) -> Option<u32> {
        if (i as int) < self.cutoffs@.len() {
            self.cutoffs@[i as int]
        } else {
            Some(0u32)
        }
    }

    fn default_normal() -> (r: CutoffList)
        ensures
            forall|u: u8| r.cutoff_spec(u) == default_normal_cutoff(u),
    {
        let r = CutoffList {
            cutoffs: vec![
                Some(0u32), Some(Y1997), Some(Y2013), Some(Y2013),
                Some(0u32), Some(0u32), Some(0u32), Some(0u32),
                None, None, None, None,
            ],
        };
        assert forall|u: u8| r.cutoff_spec(u) == default_normal_cutoff(u) by {
            if u < 12 {
                assert(r.cutoffs@[u as int] == default_normal_cutoff(u));
            }
        }
        r
    }

    fn default_revocation() -> (r: CutoffList)
        ensures
            forall|u: u8| r.cutoff_spec(u) == default_revocation_cutoff(u),
    {
        let r = CutoffList {
            cutoffs: vec![
                Some(0u32), Some(Y2004), Some(Y2020), Some(Y2020),
                Some(0u32), Some(0u32), Some(0u32), Some(0u32),
                None, None, None, None,
            ],
        };
        assert forall|u: u8| r.cutoff_spec(u) == default_revocation_cutoff(u) by {
            if u < 12 {
                assert(r.cutoffs@[u as int] == default_revocation_cutoff(u));
            }
        }
        r
    }

    fn set(&mut self, i: u8, cutoff: Option<u32>)
        ensures
            forall|j: u8| #[trigger] final(self).cutoff_spec(j)
                == if j == i { cutoff } else { old(self).cutoff_spec(j) },
    {
        let idx = i as usize;
        while self.cutoffs.len() <= idx
            invariant
                forall|j: u8| #[trigger] self.cutoff_spec(j) == old(self).cutoff_spec(j),
            decreases idx + 1 - self.cutoffs.len(),
        {
            let ghost before = *self;
            self.cutoffs.push(Some(0u32));
            assert forall|j: u8| #[trigger] self.cutoff_spec(j) == before.cutoff_spec(j) by {
                if (j as int) < before.cutoffs@.len() {
                    assert(self.cutoffs@[j as int] == before.cutoffs@[j as int]);
                }
            }
        }
        let ghost before = *self;
        self.cutoffs.set(idx, cutoff);
        assert forall|j: u8| #[trigger] self.cutoff_spec(j)
            == if j == i { cutoff } else { before.cutoff_spec(j) } by {
            if j != i && (j as int) < before.cutoffs@.len() {
                assert(self.cutoffs@[j as int] == before.cutoffs@[j as int]);
            }
        }
    }

    fn cutoff(&self, i: u8) -> (r: Option<u32>)
        ensures
            r == self.cutoff_spec(i),
    {
        let idx = i as usize;
        if idx < self.cutoffs.len() {
            self.cutoffs[idx]
        } else {
            Some(0u32)
        }
    }
}

/// The standard policy: a table of cutoff times per hash algorithm, and an
/// optional fixed reference time (`None`: the time of each evaluation).
#[derive(Debug, Clone)]
pub struct StandardPolicy {
    time: Option<u32>,
    hash_algos_normal: CutoffList,
    hash_algos_revocation: CutoffList,
}

impl StandardPolicy {
    /// The fixed reference time, or `None` for the time of evaluation.
    pub closed spec fn reference_time(&self) -> Option<u32> {
        self.time
    }

    /// The cutoff for ordinary signatures over `h`.
    pub closed spec fn normal_cutoff(&self, h: HashAlgorithm) -> Option<u32> {
        self.hash_algos_normal.cutoff_spec(hash_code(h))
    }

    /// The cutoff for revocations over `h`.
    pub closed spec fn revocation_cutoff(&self, h: HashAlgorithm) -> Option<u32> {
        self.hash_algos_revocation.cutoff_spec(hash_code(h))
    }

    /// The cutoff that applies to `sig`.
    pub open spec fn cutoff_for(&self, sig: Signature) -> Option<u32> {
        if is_revocation(sig.typ) {
            self.revocation_cutoff(sig.hash_algo)
        } else {
            self.normal_cutoff(sig.hash_algo)
        }
    }

    /// The verdict on `sig` at reference time `t`.
    pub open spec fn verdict(&self, sig: Signature, t: u32) -> Result<(), PolicyError> {
        match self.cutoff_for(sig) {
            Some(c) => if t >= c {
                Err(
                    PolicyError::HashRejected {
                        hash: sig.hash_algo,
                        cutoff: c,
                        revocation: is_revocation(sig.typ),
                    },
                )
            } else {
                Ok(())
            },
            None => Ok(()),
        }
    }

    /// The cutoffs of two policies agree on `h`.
    pub open spec fn same_cutoffs(&self, other: StandardPolicy, h: HashAlgorithm) -> bool {
        self.normal_cutoff(h) == other.normal_cutoff(h)
            && self.revocation_cutoff(h) == other.revocation_cutoff(h)
    }

    /// A policy with the default cutoffs that judges at the time of each
    /// evaluation.
    pub fn new() -> (r: StandardPolicy)
        ensures
            r.reference_time() is None,
            forall|h: HashAlgorithm| #[trigger] r.normal_cutoff(h) == default_normal_cutoff(hash_code(h)),
            forall|h: HashAlgorithm| #[trigger] r.revocation_cutoff(h) == default_revocation_cutoff(hash_code(h)),
    {
        StandardPolicy {
            time: None,
            hash_algos_normal: CutoffList::default_normal(),
            hash_algos_revocation: CutoffList::default_revocation(),
        }
    }

    /// A policy with the default cutoffs that judges as of `secs` seconds
    /// since the epoch.  A time before the epoch is the epoch; one past the
    /// last representable timestamp is that last timestamp.
    pub fn at(secs: i64) -> (r: StandardPolicy)
        ensures
            r.reference_time() == Some(
                match cutoff_from_time(secs as int) {
                    Some(t) => t,
                    None => TIMESTAMP_MAX,
                },
            ),
            forall|h: HashAlgorithm| #[trigger] r.normal_cutoff(h) == default_normal_cutoff(hash_code(h)),
            forall|h: HashAlgorithm| #[trigger] r.revocation_cutoff(h) == default_revocation_cutoff(hash_code(h)),
    {
        let t = match system_time_cutoff_to_timestamp(secs) {
            Some(t) => t,
            None => TIMESTAMP_MAX,
        };
        StandardPolicy {
            time: Some(t),
            hash_algos_normal: CutoffList::default_normal(),
            hash_algos_revocation: CutoffList::default_revocation(),
        }
    }

    /// The fixed reference time in seconds since the epoch, or `None` when
    /// the policy judges at the time of each evaluation.
    pub fn time(&self) -> (r: Option<i64>)
        ensures
            match self.reference_time() {
                Some(t) => r == Some(t as i64),
                None => r is None,
            },
    {
        match self.time {
            Some(t) => Some(t as i64),
            None => None,
        }
    }

    /// Always considers `h` to be secure.
    pub fn accept_hash(&mut self, h: HashAlgorithm)
        ensures
            final(self).reference_time() == old(self).reference_time(),
            final(self).normal_cutoff(h) is None,
            final(self).revocation_cutoff(h) is None,
            forall|g: HashAlgorithm| hash_code(g) != hash_code(h)
                ==> #[trigger] final(self).same_cutoffs(*old(self), g),
    {
        let u = h.to_u8();
        self.hash_algos_normal.set(u, None);
        self.hash_algos_revocation.set(u, None);
    }

    /// Always considers `h` to be insecure.
    pub fn reject_hash(&mut self, h: HashAlgorithm)
        ensures
            final(self).reference_time() == old(self).reference_time(),
            final(self).normal_cutoff(h) == Some(0u32),
            final(self).revocation_cutoff(h) == Some(0u32),
            forall|g: HashAlgorithm| hash_code(g) != hash_code(h)
                ==> #[trigger] final(self).same_cutoffs(*old(self), g),
    {
        let u = h.to_u8();
        self.hash_algos_normal.set(u, Some(0u32));
        self.hash_algos_revocation.set(u, Some(0u32));
    }

    /// Considers `h` insecure from `normal` on for ordinary signatures and
    /// from `revocation` on for revocations, both in seconds since the
    /// epoch; `None` never rejects it.
    pub fn reject_hash_at(&mut self, h: HashAlgorithm, normal: Option<i64>, revocation: Option<i64>)
        ensures
            final(self).reference_time() == old(self).reference_time(),
            final(self).normal_cutoff(h) == optional_cutoff(normal),
            final(self).revocation_cutoff(h) == optional_cutoff(revocation),
            forall|g: HashAlgorithm| hash_code(g) != hash_code(h)
                ==> #[trigger] final(self).same_cutoffs(*old(self), g),
    {
        let u = h.to_u8();
        let n = match normal {
            Some(t) => system_time_cutoff_to_timestamp(t),
            None => None,
        };
        let r = match revocation {
            Some(t) => system_time_cutoff_to_timestamp(t),
            None => None,
        };
        self.hash_algos_normal.set(u, n);
        self.hash_algos_revocation.set(u, r);
    }

    /// The cutoff times for `h` in seconds since the epoch: for ordinary
    /// signatures, then for revocations.
    pub fn hash_cutoffs(&self, h: HashAlgorithm) -> (r: (Option<i64>, Option<i64>))
        ensures
            r.0 == match self.normal_cutoff(h) {
                Some(c) => Some(c as i64),
                None => None::<i64>,
            },
            r.1 == match self.revocation_cutoff(h) {
                Some(c) => Some(c as i64),
                None => None::<i64>,
            },
    {
        let u = h.to_u8();
        let n = match self.hash_algos_normal.cutoff(u) {
            Some(c) => Some(c as i64),
            None => None,
        };
        let v = match self.hash_algos_revocation.cutoff(u) {
            Some(c) => Some(c as i64),
            None => None,
        };
        (n, v)
    }

    /// Judges `sig` as of reference time `t`, in seconds since the epoch.
    pub fn signature_at(&self, sig: &Signature, t: u32) -> (r: Result<(), PolicyError>)
        ensures
            r == self.verdict(*sig, t),
            r is Ok <==> cutoff_allows(self.cutoff_for(*sig), t),
    {
        let u = sig.hash_algo.to_u8();
        let revocation = sig.typ.is_revocation();
        let cutoff = if revocation {
            self.hash_algos_revocation.cutoff(u)
        } else {
            self.hash_algos_normal.cutoff(u)
        };
        match cutoff {
            Some(c) => if t >= c {
                Err(PolicyError::HashRejected { hash: sig.hash_algo, cutoff: c, revocation })
            } else {
                Ok(())
            },
            None => Ok(()),
        }
    }

    /// Judges `sig` as of the policy's reference time, or as of the clock
    /// when the policy has none.
    pub fn evaluate(&self, sig: &Signature) -> (r: Result<(), PolicyError>)
        ensures
            self.reference_time() is Some ==> r == self.verdict(*sig, self.reference_time()->0),
            self.reference_time() is None ==> exists|t: u32| r == self.verdict(*sig, t),
    {
        let t = match self.time {
            Some(t) => t,
            None => {
                // A clock set before the epoch reads as the epoch.
                let now = match clock_since_epoch() {
                    Some(d) => d.as_secs(),
                    None => 0,
                };
                if now > TIMESTAMP_MAX as u64 {
                    TIMESTAMP_MAX
                } else {
                    now as u32
                }
            },
        };
        self.signature_at(sig, t)
    }
}

impl Default for StandardPolicy {
    /// The policy that `new` makes.
    fn default() -> (r: StandardPolicy)
        ensures
            r.reference_time() is None,
            forall|h: HashAlgorithm| #[trigger] r.normal_cutoff(h) == default_normal_cutoff(hash_code(h)),
            forall|h: HashAlgorithm| #[trigger] r.revocation_cutoff(h) == default_revocation_cutoff(hash_code(h)),
    {
        StandardPolicy::new()
    }
}

impl Policy for StandardPolicy {
    fn signature(&self, sig: &Signature) -> (r: Result<(), PolicyError>)
        ensures
            self.reference_time() is Some ==> r == self.verdict(*sig, self.reference_time()->0),
            self.reference_time() is None ==> exists|t: u32| r == self.verdict(*sig, t),
    {
        self.evaluate(sig)
    }
}

/// A policy that accepts every signature, for callers who really know
/// that they need no policy.
pub struct NullPolicy {}

impl NullPolicy {
    /// The policy that accepts everything.
    pub fn new() -> (r: NullPolicy) {
        NullPolicy {}
    }
}

impl Policy for NullPolicy {
}

/// Judging the same signature twice at the same reference time gives the
/// same answer: any two results that `signature_at` may return for it
/// agree, and so do two evaluations under a fixed reference time.
pub proof fn evaluation_is_idempotent(
    p: StandardPolicy,
    sig: Signature,
    t: u32,
    first: Result<(), PolicyError>,
    second: Result<(), PolicyError>,
)
    requires
        first == p.verdict(sig, t),
        second == p.verdict(sig, t),
    ensures
        first == second,
{
}

/// The verdict depends on the signature's class and hash algorithm alone,
/// never on what the signer claims, such as its creation time or issuer.
pub proof fn verdict_ignores_claimed_fields(p: StandardPolicy, a: Signature, b: Signature, t: u32)
    requires
        a.typ == b.typ,
        a.hash_algo == b.hash_algo,
    ensures
        p.verdict(a, t) == p.verdict(b, t),
{
}

/// A cutoff requested before the epoch rejects every signature over that
/// algorithm at every reference time; one requested past the last
/// representable timestamp accepts every such signature.
pub proof fn cutoff_clamping(p: StandardPolicy, sig: Signature, normal: i64, revocation: i64, t: u32)
    requires
        p.normal_cutoff(sig.hash_algo) == optional_cutoff(Some(normal)),
        p.revocation_cutoff(sig.hash_algo) == optional_cutoff(Some(revocation)),
    ensures
        normal < 0 && revocation < 0 ==> p.verdict(sig, t) is Err,
        normal > TIMESTAMP_MAX && revocation > TIMESTAMP_MAX ==> p.verdict(sig, t) is Ok,
{
}

} // verus!
