//! Signature outcomes, grouped by verification level.
//!
//! Level 0 holds the signatures made directly over the content; level `n`
//! the signatures that notarize a message signed at level `n - 1`.  Each
//! group of one-pass signature packets opens a level, the outermost group
//! the highest, and each trailing signature packet closes the innermost
//! open one-pass signature.
use vstd::prelude::*;
use crate::parser::{Packet, Tag};
use crate::pile::PacketPile;
use crate::policy::StandardPolicy;
use crate::types::{HashAlgorithm, Signature, SignatureType, hash_of_code};

verus! {

/// The length of the subpacket at `i` of `area` (type byte included) and
/// the size of its length field.
pub open spec fn subpacket_len_at(area: Seq<u8>, i: int) -> Option<(int, int)> {
    if i < 0 || i >= area.len() {
        None
    } else if area[i] < 192 {
        Some((area[i] as int, 1))
    } else if area[i] < 255 {
        if i + 1 >= area.len() {
            None
        } else {
            Some(((area[i] - 192) * 256 + area[i + 1] + 192, 2))
        }
    } else if i + 4 >= area.len() {
        None
    } else {
        Some((be32(area, i + 1) as int, 5))
    }
}

/// The value of the first subpacket of type `want` at or after `i` in a
/// subpacket area; the critical bit of the type is ignored.  The search
/// stops at a malformed subpacket.
pub open spec fn find_subpacket(area: Seq<u8>, i: int, want: u8) -> Option<Seq<u8>>
    decreases area.len() - i,
{
    if i < 0 || i >= area.len() {
        None
    } else {
        match subpacket_len_at(area, i) {
            None => None,
            Some((len, n)) => if len == 0 || i + n + len > area.len() {
                None
            } else if area[i + n] % 128 == want {
                Some(area.subrange(i + n + 1, i + n + len))
            } else {
                find_subpacket(area, i + n + len, want)
            },
        }
    }
}

/// A four-byte subpacket value as a number.
pub open spec fn subpacket_u32(v: Option<Seq<u8>>) -> Option<u32> {
    match v {
        Some(b) => if b.len() == 4 {
            Some(be32(b, 0))
        } else {
            None
        },
        None => None,
    }
}

/// An eight-byte subpacket value as a number.
pub open spec fn subpacket_u64(v: Option<Seq<u8>>) -> Option<u64> {
    match v {
        Some(b) => if b.len() == 8 {
            Some(be64(b, 0))
        } else {
            None
        },
        None => None,
    }
}

/// The signature that the version 4 or version 3 body `b` of a signature
/// packet describes.  A version 4 body holds its creation time in the
/// hashed subpacket area (type 2) and its issuer in either area (type 16,
/// the hashed area first).
pub open spec fn signature_of(b: Seq<u8>) -> Option<Signature> {
    if b.len() >= 6 && b[0] == 4 {
        let hl = b[4] * 256 + b[5];
        let ul_at = 6 + hl;
        if ul_at + 2 > b.len() {
            None
        } else {
            let ul = b[ul_at] * 256 + b[ul_at + 1];
            if ul_at + 2 + ul > b.len() {
                None
            } else {
                let hashed = b.subrange(6, ul_at);
                let unhashed = b.subrange(ul_at + 2, ul_at + 2 + ul);
                let issuer = match subpacket_u64(find_subpacket(hashed, 0, 16)) {
                    Some(k) => Some(k),
                    None => subpacket_u64(find_subpacket(unhashed, 0, 16)),
                };
                Some(
                    Signature {
                        typ: sig_type_of(b[1]),
                        hash_algo: hash_of_code(b[3]),
                        pk_algo: b[2],
                        creation_time: subpacket_u32(find_subpacket(hashed, 0, 2)),
                        issuer,
                    },
                )
            }
        }
    } else if b.len() >= 17 && b[0] == 3 && b[1] == 5 {
        Some(
            Signature {
                typ: sig_type_of(b[2]),
                hash_algo: hash_of_code(b[16]),
                pk_algo: b[15],
                creation_time: Some(be32(b, 3)),
                issuer: Some(be64(b, 7)),
            },
        )
    } else {
        None
    }
}

/// The big-endian number in the four bytes at `i`.
pub open spec fn be32(b: Seq<u8>, i: int) -> u32 {
    (b[i] * 0x100_0000 + b[i + 1] * 0x1_0000 + b[i + 2] * 0x100 + b[i + 3]) as u32
}

/// The big-endian number in the eight bytes at `i`.
pub open spec fn be64(b: Seq<u8>, i: int) -> u64 {
    (be32(b, i) * 0x1_0000_0000 + be32(b, i + 4)) as u64
}

/// The signature class that a number denotes.
pub open spec fn sig_type_of(u: u8) -> SignatureType {
    choose|t: SignatureType| crate::types::sig_type_code(t) == u && (
        (t matches SignatureType::Unknown(_)) ==> forall|s: SignatureType|
            crate::types::sig_type_code(s) == u ==> s == t)
}

fn be32_at(b: &Vec<u8>, i: usize) -> (r: u32)
    requires
        i + 4 <= b@.len(),
    ensures
        r == be32(b@, i as int),
{
    let _n = b.len();
    (b[i] as u32) * 0x100_0000 + (b[i + 1] as u32) * 0x1_0000 + (b[i + 2] as u32) * 0x100 + (b[i + 3] as u32)
}

/// The value of the first subpacket of type `want` in `b[start..end]`.
fn find_subpacket_in(b: &Vec<u8>, start: usize, end: usize, want: u8) -> (r: Option<(usize, usize)>)
    requires
        start <= end <= b@.len(),
    ensures
        match r {
            Some((from, to)) => start <= from <= to <= end && find_subpacket(
                b@.subrange(start as int, end as int),
                0,
                want,
            ) == Some(b@.subrange(from as int, to as int)),
            None => find_subpacket(b@.subrange(start as int, end as int), 0, want) is None,
        },
{
    let ghost area = b@.subrange(start as int, end as int);
    let mut i: usize = start;
    while i < end
        invariant
            start <= i <= end <= b@.len(),
            area == b@.subrange(start as int, end as int),
            find_subpacket(area, 0, want) == find_subpacket(area, i - start, want),
        decreases end - i,
    {
        let ghost k = i - start;
        let o = b[i];
        let (len, n): (usize, usize) = if o < 192 {
            (o as usize, 1)
        } else if o < 255 {
            if end - i <= 1 {
                return None;
            }
            ((o as usize - 192) * 256 + b[i + 1] as usize + 192, 2)
        } else {
            if end - i <= 4 {
                return None;
            }
            (be32_at(b, i + 1) as usize, 5)
        };
        proof {
            assert(area[k] == b@[i as int]);
            if o >= 192 {
                assert(area[k + 1] == b@[i + 1]);
            }
            if o == 255 {
                assert(be32(area, k + 1) == be32(b@, i + 1)) by {
                    assert(area[k + 1] == b@[i + 1]);
                    assert(area[k + 2] == b@[i + 2]);
                    assert(area[k + 3] == b@[i + 3]);
                    assert(area[k + 4] == b@[i + 4]);
                }
            }
        }
        if len == 0 || len > end - i - n {
            return None;
        }
        let t = b[i + n];
        proof {
            assert(area[k + n] == b@[i + n]);
        }
        if t % 128 == want {
            proof {
                assert(area.subrange(k + n + 1, k + n + len) =~= b@.subrange(i + n + 1, i + n + len));
            }
            return Some((i + n + 1, i + n + len));
        }
        i = i + n + len;
    }
    None
}

/// The number in a subpacket value of four bytes.
fn value_u32(b: &Vec<u8>, v: Option<(usize, usize)>) -> (r: Option<u32>)
    requires
        v matches Some((from, to)) ==> from <= to <= b@.len(),
    ensures
        r == subpacket_u32(
            match v {
                Some((from, to)) => Some(b@.subrange(from as int, to as int)),
                None => None,
            },
        ),
{
    match v {
        Some((from, to)) => {
            if to - from == 4 {
                let x = be32_at(b, from);
                proof {
                    let s = b@.subrange(from as int, to as int);
                    assert(be32(s, 0) == be32(b@, from as int)) by {
                        assert(s[0] == b@[from as int]);
                        assert(s[1] == b@[from + 1]);
                        assert(s[2] == b@[from + 2]);
                        assert(s[3] == b@[from + 3]);
                    }
                }
                Some(x)
            } else {
                None
            }
        },
        None => None,
    }
}

/// The number in a subpacket value of eight bytes.
fn value_u64(b: &Vec<u8>, v: Option<(usize, usize)>) -> (r: Option<u64>)
    requires
        v matches Some((from, to)) ==> from <= to <= b@.len(),
    ensures
        r == subpacket_u64(
            match v {
                Some((from, to)) => Some(b@.subrange(from as int, to as int)),
                None => None,
            },
        ),
{
    match v {
        Some((from, to)) => {
            if to - from == 8 {
                let hi = be32_at(b, from);
                let lo = be32_at(b, from + 4);
                proof {
                    let s = b@.subrange(from as int, to as int);
                    assert(be32(s, 0) == be32(b@, from as int)) by {
                        assert(s[0] == b@[from as int]);
                        assert(s[1] == b@[from + 1]);
                        assert(s[2] == b@[from + 2]);
                        assert(s[3] == b@[from + 3]);
                    }
                    assert(be32(s, 4) == be32(b@, from + 4)) by {
                        assert(s[4] == b@[from + 4]);
                        assert(s[5] == b@[from + 5]);
                        assert(s[6] == b@[from + 6]);
                        assert(s[7] == b@[from + 7]);
                    }
                }
                Some((hi as u64) * 0x1_0000_0000 + (lo as u64))
            } else {
                None
            }
        },
        None => None,
    }
}

/// Reads the fields of a signature packet's body.
pub fn parse_signature(b: &Vec<u8>) -> (r: Option<Signature>)
    ensures
        r == signature_of(b@),
{
    if b.len() >= 6 && b[0] == 4 {
        let typ = SignatureType::from_u8(b[1]);
        proof {
            lemma_sig_type_of(b[1], typ);
        }
        let hl = (b[4] as usize) * 256 + (b[5] as usize);
        if hl > b.len() - 6 || b.len() - 6 - hl < 2 {
            return None;
        }
        let ul_at = 6 + hl;
        let ul = (b[ul_at] as usize) * 256 + (b[ul_at + 1] as usize);
        if ul > b.len() - ul_at - 2 {
            return None;
        }
        let end = ul_at + 2 + ul;
        let creation_time = value_u32(b, find_subpacket_in(b, 6, ul_at, 2));
        let hashed_issuer = value_u64(b, find_subpacket_in(b, 6, ul_at, 16));
        let issuer = match hashed_issuer {
            Some(k) => Some(k),
            None => value_u64(b, find_subpacket_in(b, ul_at + 2, end, 16)),
        };
        Some(Signature {
            typ,
            hash_algo: HashAlgorithm::from_u8(b[3]),
            pk_algo: b[2],
            creation_time,
            issuer,
        })
    } else if b.len() >= 17 && b[0] == 3 && b[1] == 5 {
        let typ = SignatureType::from_u8(b[2]);
        proof {
            lemma_sig_type_of(b[2], typ);
        }
        let t = be32_at(b, 3);
        let hi = be32_at(b, 7);
        let lo = be32_at(b, 11);
        Some(Signature {
            typ,
            hash_algo: HashAlgorithm::from_u8(b[16]),
            pk_algo: b[15],
            creation_time: Some(t),
            issuer: Some((hi as u64) * 0x1_0000_0000 + (lo as u64)),
        })
    } else {
        None
    }
}

proof fn lemma_sig_type_of(u: u8, t: SignatureType)
    requires
        crate::types::sig_type_code(t) == u,
        (t matches SignatureType::Unknown(_)) ==> forall|s: SignatureType|
            crate::types::sig_type_code(s) == u ==> s == t,
    ensures
        sig_type_of(u) == t,
{
    let c = sig_type_of(u);
    assert(crate::types::sig_type_code(c) == u);
    if !(t matches SignatureType::Unknown(_)) && (c matches SignatureType::Unknown(_)) {
        assert(t == c);
    }
}

/// What the caller's key lookup and signature check found for one
/// signature.
#[derive(PartialEq, Eq, Structural, Clone, Copy, Debug)]
pub struct CheckOutcome {
    /// A certificate of the issuer was found.
    pub key_found: bool,
    /// The signature is cryptographically valid under that certificate.
    pub checksum_ok: bool,
}

/// The outcome of checking one signature.
#[derive(PartialEq, Eq, Structural, Clone, Copy, Debug)]
pub enum VerificationResult {
    /// Valid, and its algorithms are trusted by the policy.
    GoodChecksum(Signature),
    /// No certificate of the issuer is known.
    MissingKey(Signature),
    /// Not valid under the issuer's certificate.
    BadChecksum(Signature),
    /// Valid, but it uses an algorithm that the policy no longer trusts.
    PolicyRejected(Signature),
}

/// The verdict on a signature from what the check found and what the
/// policy says at reference time `t`.
pub open spec fn classify_spec(sig: Signature, o: CheckOutcome, p: StandardPolicy, t: u32) -> VerificationResult {
    if !o.key_found {
        VerificationResult::MissingKey(sig)
    } else if !o.checksum_ok {
        VerificationResult::BadChecksum(sig)
    } else if p.verdict(sig, t) is Err {
        VerificationResult::PolicyRejected(sig)
    } else {
        VerificationResult::GoodChecksum(sig)
    }
}

/// Judges one signature: a valid one counts as good only where the policy
/// accepts it.
pub fn classify(sig: &Signature, o: CheckOutcome, p: &StandardPolicy, t: u32) -> (r: VerificationResult)
    ensures
        r == classify_spec(*sig, o, *p, t),
{
    if !o.key_found {
        VerificationResult::MissingKey(*sig)
    } else if !o.checksum_ok {
        VerificationResult::BadChecksum(*sig)
    } else {
        match p.signature_at(sig, t) {
            Err(_) => VerificationResult::PolicyRejected(*sig),
            Ok(()) => VerificationResult::GoodChecksum(*sig),
        }
    }
}

/// The signature that a result is about.
pub open spec fn result_signature(r: VerificationResult) -> Signature {
    match r {
        VerificationResult::GoodChecksum(s) => s,
        VerificationResult::MissingKey(s) => s,
        VerificationResult::BadChecksum(s) => s,
        VerificationResult::PolicyRejected(s) => s,
    }
}

/// The signature that a result is about.
pub fn sq_verification_result_signature(result: &VerificationResult) -> (r: &Signature)
    ensures
        *r == result_signature(*result),
{
    match result {
        VerificationResult::GoodChecksum(sig) => sig,
        VerificationResult::MissingKey(sig) => sig,
        VerificationResult::BadChecksum(sig) => sig,
        VerificationResult::PolicyRejected(sig) => sig,
    }
}

/// The results of level `l`, in order, among `entries` of levels and
/// results.
pub open spec fn at_level(entries: Seq<(usize, VerificationResult)>, l: int) -> Seq<VerificationResult>
    decreases entries.len(),
{
    if entries.len() == 0 {
        Seq::empty()
    } else if entries.last().0 == l {
        at_level(entries.drop_last(), l).push(entries.last().1)
    } else {
        at_level(entries.drop_last(), l)
    }
}

/// One more than the highest level among `entries`, or 0 where there are
/// none.
pub open spec fn level_count(entries: Seq<(usize, VerificationResult)>) -> int
    decreases entries.len(),
{
    if entries.len() == 0 {
        0
    } else {
        let rest = level_count(entries.drop_last());
        if entries.last().0 + 1 > rest {
            entries.last().0 + 1
        } else {
            rest
        }
    }
}

/// A message's verification results, by level.
pub struct VerificationResults {
    results: Vec<Vec<VerificationResult>>,
}

impl VerificationResults {
    /// The results at each level.
    pub closed spec fn levels_spec(&self) -> Seq<Seq<VerificationResult>> {
        Seq::new(self.results@.len(), |i: int| self.results@[i]@)
    }

    /// Groups results by level, keeping their order within each level.
    pub fn from_entries(entries: &Vec<(usize, VerificationResult)>) -> (r: VerificationResults)
        requires
            entries@.len() < usize::MAX,
            forall|i: int| 0 <= i < entries@.len() ==> (#[trigger] entries@[i]).0 < usize::MAX,
        ensures
            r.levels_spec().len() == level_count(entries@),
            forall|l: int| 0 <= l < r.levels_spec().len() ==> #[trigger] r.levels_spec()[l] == at_level(entries@, l),
    {
        let mut n: usize = 0;
        let mut j: usize = 0;
        while j < entries.len()
            invariant
                j <= entries@.len(),
                forall|i: int| 0 <= i < entries@.len() ==> (#[trigger] entries@[i]).0 < usize::MAX,
                n == level_count(entries@.subrange(0, j as int)),
            decreases entries@.len() - j,
        {
            proof {
                assert(entries@.subrange(0, j + 1).drop_last() =~= entries@.subrange(0, j as int));
            }
            if entries[j].0 + 1 > n {
                n = entries[j].0 + 1;
            }
            j = j + 1;
        }
        proof {
            assert(entries@.subrange(0, entries@.len() as int) =~= entries@);
        }
        let mut results: Vec<Vec<VerificationResult>> = Vec::new();
        let mut l: usize = 0;
        while l < n
            invariant
                l <= n,
                n == level_count(entries@),
                results@.len() == l,
                forall|k: int| 0 <= k < l ==> #[trigger] results@[k]@ == at_level(entries@, k),
            decreases n - l,
        {
            let mut cur: Vec<VerificationResult> = Vec::new();
            let mut i: usize = 0;
            while i < entries.len()
                invariant
                    i <= entries@.len(),
                    cur@ == at_level(entries@.subrange(0, i as int), l as int),
                decreases entries@.len() - i,
            {
                proof {
                    assert(entries@.subrange(0, i + 1).drop_last() =~= entries@.subrange(0, i as int));
                }
                if entries[i].0 == l {
                    cur.push(entries[i].1);
                }
                i = i + 1;
            }
            proof {
                assert(entries@.subrange(0, entries@.len() as int) =~= entries@);
            }
            results.push(cur);
            l = l + 1;
        }
        let r = VerificationResults { results };
        proof {
            assert forall|k: int| 0 <= k < r.levels_spec().len() implies #[trigger] r.levels_spec()[k]
                == at_level(entries@, k) by {
                assert(r.levels_spec()[k] == results@[k]@);
            }
        }
        r
    }

    /// The number of levels.
    pub fn levels(&self) -> (r: usize)
        ensures
            r == self.levels_spec().len(),
    {
        self.results.len()
    }

    /// The results at `level`.
    pub fn results_at_level(&self, level: usize) -> (r: &Vec<VerificationResult>)
        requires
            level < self.levels_spec().len(),
        ensures
            r@ == self.levels_spec()[level as int],
    {
        &self.results[level]
    }
}

/// Whether a packet is a one-pass signature packet.
pub open spec fn is_ops(p: Packet) -> bool {
    p.tag == Tag::OnePassSig
}

/// How many groups of consecutive one-pass signature packets `ps` holds.
pub open spec fn group_count(ps: Seq<Packet>) -> int
    decreases ps.len(),
{
    if ps.len() == 0 {
        0
    } else {
        group_count(ps.drop_last()) + if is_ops(ps.last()) && (ps.len() == 1 || !is_ops(
            ps[ps.len() - 2],
        )) {
            1int
        } else {
            0int
        }
    }
}

/// Walks `ps` in a message with `g` groups of one-pass signatures: each
/// one-pass signature packet opens a signature of its group, and each
/// readable signature packet closes the last one opened, at level `g - 1`
/// minus the group's index; one that closes nothing is at level 0.  Gives
/// the open groups and the signatures met, with their levels.
pub open spec fn assign_levels(ps: Seq<Packet>, g: int) -> (Seq<int>, Seq<(usize, Signature)>)
    decreases ps.len(),
{
    if ps.len() == 0 {
        (Seq::empty(), Seq::empty())
    } else {
        let (open, out) = assign_levels(ps.drop_last(), g);
        let p = ps.last();
        if is_ops(p) {
            (open.push(group_count(ps) - 1), out)
        } else if p.tag == Tag::Signature && signature_of(p.body@) is Some {
            let sig = signature_of(p.body@)->0;
            if open.len() > 0 {
                (open.drop_last(), out.push(((g - 1 - open.last()) as usize, sig)))
            } else {
                (open, out.push((0usize, sig)))
            }
        } else {
            (open, out)
        }
    }
}

proof fn lemma_group_count_grows(ps: Seq<Packet>, i: int)
    requires
        0 <= i <= ps.len(),
    ensures
        0 <= group_count(ps.subrange(0, i)) <= group_count(ps),
    decreases ps.len() - i,
{
    if i < ps.len() {
        lemma_group_count_grows(ps, i + 1);
        assert(ps.subrange(0, i + 1).drop_last() =~= ps.subrange(0, i));
    } else {
        assert(ps.subrange(0, i) =~= ps);
    }
    lemma_group_count_nonneg(ps.subrange(0, i));
}

proof fn lemma_group_count_nonneg(ps: Seq<Packet>)
    ensures
        group_count(ps) >= 0,
    decreases ps.len(),
{
    if ps.len() > 0 {
        lemma_group_count_nonneg(ps.drop_last());
    }
}

proof fn lemma_group_count_le_len(ps: Seq<Packet>)
    ensures
        group_count(ps) <= ps.len(),
    decreases ps.len(),
{
    if ps.len() > 0 {
        lemma_group_count_le_len(ps.drop_last());
    }
}

proof fn lemma_ops_last_counted(ps: Seq<Packet>)
    requires
        ps.len() > 0,
        is_ops(ps.last()),
    ensures
        group_count(ps) >= 1,
    decreases ps.len(),
{
    lemma_group_count_nonneg(ps.drop_last());
    if ps.len() > 1 && is_ops(ps[ps.len() - 2]) {
        let q = ps.drop_last();
        assert(q.last() == ps[ps.len() - 2]);
        lemma_ops_last_counted(q);
    }
}

proof fn lemma_open_below_count(ps: Seq<Packet>, g: int)
    ensures
        forall|k: int| 0 <= k < assign_levels(ps, g).0.len() ==> 0 <= #[trigger] assign_levels(ps, g).0[k]
            < group_count(ps),
    decreases ps.len(),
{
    if ps.len() > 0 {
        let q = ps.drop_last();
        lemma_open_below_count(q, g);
        lemma_group_count_nonneg(q);
        lemma_group_count_nonneg(ps);
        assert(group_count(q) <= group_count(ps));
        if is_ops(ps.last()) {
            lemma_ops_last_counted(ps);
        }
        let a = assign_levels(ps, g).0;
        let b = assign_levels(q, g).0;
        assert forall|k: int| 0 <= k < a.len() implies 0 <= #[trigger] a[k] < group_count(ps) by {
            if k < b.len() {
                assert(a[k] == b[k]);
            }
        }
    }
}

/// The levels of the signatures in a packet pile, in the order the
/// signature packets appear.
pub fn signature_levels(pile: &PacketPile) -> (r: Vec<(usize, Signature)>)
    requires
        pile.wf(),
    ensures
        r@ == assign_levels(pile.packets_spec(), group_count(pile.packets_spec())).1,
{
    let ghost ps = pile.packets_spec();
    let n = pile.len();
    let mut g: usize = 0;
    let mut i: usize = 0;
    while i < n
        invariant
            n == ps.len(),
            ps == pile.packets_spec(),
            i <= n,
            g == group_count(ps.subrange(0, i as int)),
        decreases n - i,
    {
        proof {
            assert(ps.subrange(0, i + 1).drop_last() =~= ps.subrange(0, i as int));
            lemma_group_count_grows(ps, i + 1);
            lemma_group_count_grows(ps, i as int);
            lemma_group_count_le_len(ps.subrange(0, i as int));
            assert(g <= i);
        }
        let p = pile.packet(i);
        if p.tag == Tag::OnePassSig && (i == 0 || pile.packet(i - 1).tag != Tag::OnePassSig) {
            g = g + 1;
        }
        i = i + 1;
    }
    assert(ps.subrange(0, n as int) =~= ps);
    let ghost gg = g as int;
    let mut open: Vec<usize> = Vec::new();
    let mut out: Vec<(usize, Signature)> = Vec::new();
    let mut seen: usize = 0;
    i = 0;
    while i < n
        invariant
            n == ps.len(),
            ps == pile.packets_spec(),
            gg == group_count(ps),
            g == gg,
            i <= n,
            seen == group_count(ps.subrange(0, i as int)),
            open@.len() == assign_levels(ps.subrange(0, i as int), gg).0.len(),
            forall|k: int| 0 <= k < open@.len() ==> open@[k] as int == #[trigger] assign_levels(
                ps.subrange(0, i as int),
                gg,
            ).0[k],
            out@ == assign_levels(ps.subrange(0, i as int), gg).1,
        decreases n - i,
    {
        let ghost pre = ps.subrange(0, i as int);
        let ghost cur = ps.subrange(0, i + 1);
        proof {
            assert(cur.drop_last() =~= pre);
            assert(cur.last() == ps[i as int]);
            lemma_group_count_grows(ps, i + 1);
            lemma_group_count_nonneg(pre);
            lemma_open_below_count(pre, gg);
            if i > 0 {
                assert(cur[cur.len() - 2] == ps[i - 1]);
            }
        }
        let p = pile.packet(i);
        if p.tag == Tag::OnePassSig {
            if i == 0 || pile.packet(i - 1).tag != Tag::OnePassSig {
                seen = seen + 1;
            }
            proof {
                lemma_ops_last_counted(cur);
                assert(seen == group_count(cur));
            }
            open.push(seen - 1);
        } else if p.tag == Tag::Signature {
            match parse_signature(&p.body) {
                Option::Some(sig) => {
                    let ghost op = open@;
                    proof {
                        if op.len() > 0 {
                            let a = assign_levels(pre, gg).0;
                            assert(op[op.len() - 1] as int == a[op.len() - 1]);
                            assert(a[op.len() - 1] < group_count(pre));
                        }
                    }
                    match open.pop() {
                        Option::Some(k) => {
                            proof {
                                assert(k < group_count(pre));
                            }
                            out.push((g - 1 - k, sig));
                        },
                        Option::None => {
                            out.push((0, sig));
                        },
                    }
                },
                Option::None => {},
            }
        }
        proof {
            let a = assign_levels(cur, gg).0;
            assert(open@.len() == a.len());
            assert forall|k: int| 0 <= k < open@.len() implies open@[k] as int == #[trigger] a[k] by {
                let b = assign_levels(pre, gg).0;
                if k < b.len() {
                    assert(b[k] == a[k] || is_ops(ps[i as int]));
                }
            }
        }
        i = i + 1;
    }
    assert(ps.subrange(0, n as int) =~= ps);
    out
}

/// Judges each signature with the caller's check outcome, in order, and
/// groups the verdicts by level.
pub fn results_for(
    levels: &Vec<(usize, Signature)>,
    outcomes: &Vec<CheckOutcome>,
    policy: &StandardPolicy,
    t: u32,
) -> (r: VerificationResults)
    requires
        outcomes@.len() == levels@.len(),
        levels@.len() < usize::MAX,
        forall|i: int| 0 <= i < levels@.len() ==> (#[trigger] levels@[i]).0 < usize::MAX,
    ensures
        ({
            let entries = Seq::new(
                levels@.len(),
                |i: int| (levels@[i].0, classify_spec(levels@[i].1, outcomes@[i], *policy, t)),
            );
            &&& r.levels_spec().len() == level_count(entries)
            &&& forall|l: int| 0 <= l < r.levels_spec().len() ==> #[trigger] r.levels_spec()[l] == at_level(entries, l)
        }),
{
    let ghost entries = Seq::new(
        levels@.len(),
        |i: int| (levels@[i].0, classify_spec(levels@[i].1, outcomes@[i], *policy, t)),
    );
    let mut v: Vec<(usize, VerificationResult)> = Vec::new();
    let mut i: usize = 0;
    while i < levels.len()
        invariant
            i <= levels@.len(),
            entries.len() == levels@.len(),
            outcomes@.len() == levels@.len(),
            entries == Seq::new(
                levels@.len(),
                |i: int| (levels@[i].0, classify_spec(levels@[i].1, outcomes@[i], *policy, t)),
            ),
            v@ == entries.subrange(0, i as int),
        decreases levels@.len() - i,
    {
        let (l, sig) = levels[i];
        let res = classify(&sig, outcomes[i], policy, t);
        v.push((l, res));
        proof {
            assert(v@ =~= entries.subrange(0, i + 1));
        }
        i = i + 1;
    }
    proof {
        assert(v@ =~= entries);
    }
    VerificationResults::from_entries(&v)
}

/// Why verification failed at the end of a message.
#[derive(PartialEq, Eq, Structural, Clone, Copy, Debug)]
pub enum VerifyError {
    /// The caller's check rejected the verification results.
    Rejected,
    /// The end of the message was reported a second time.
    AlreadyChecked,
}

/// Where a message's verification stands: whether the caller's check of
/// the results was asked for.
pub struct CheckState {
    checked: bool,
}

impl CheckState {
    /// Whether the caller's check was asked for.
    pub closed spec fn checked_spec(&self) -> bool {
        self.checked
    }

    /// The state while the message is read.
    pub fn new() -> (r: CheckState)
        ensures
            !r.checked_spec(),
    {
        CheckState { checked: false }
    }

    /// At the end of the message: the caller's check is to run now, exactly
    /// once; a second end fails.
    pub fn end_of_message(&mut self) -> (r: Result<(), VerifyError>)
        ensures
            r is Ok <==> !old(self).checked_spec(),
            r is Err ==> r == Err::<(), VerifyError>(VerifyError::AlreadyChecked),
            final(self).checked_spec(),
    {
        if self.checked {
            return Err(VerifyError::AlreadyChecked);
        }
        self.checked = true;
        Ok(())
    }

    /// The outcome of the whole operation from the caller's judgment of the
    /// results: a rejection fails it, even where plaintext was already
    /// handed out.
    pub fn judgment(&self, accepted: bool) -> (r: Result<(), VerifyError>)
        requires
            self.checked_spec(),
        ensures
            r is Ok <==> accepted,
            r is Err ==> r == Err::<(), VerifyError>(VerifyError::Rejected),
    {
        if accepted {
            Ok(())
        } else {
            Err(VerifyError::Rejected)
        }
    }
}

/// Passed to the caller's callbacks during verification and decryption:
/// state of the caller's own, opaque to this crate.
pub struct HelperCookie {}

} // verus!
