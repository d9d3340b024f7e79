//! The decisions of the decryption pipeline.
//!
//! Session-key packets are collected as the parser meets them.  At the
//! encrypted container the caller's recovery capability is asked for the
//! session key; what it hands back decides whether decryption goes on.
//! The cipher itself runs outside this crate.
use vstd::prelude::*;
use crate::parser::{ParseError, Tag};

verus! {

/// A session key: the symmetric algorithm's number and the key.
pub enum Secret {
    Cached { algo: u8, session_key: Vec<u8> },
}

/// A session key that the caller recovered.
pub fn sq_secret_cached(algo: u8, session_key: Vec<u8>) -> (r: Secret)
    ensures
        r matches Secret::Cached { algo: a, session_key: k } && a == algo && k@ == session_key@,
{
    Secret::Cached { algo, session_key }
}

/// What the caller's session-key recovery handed back.
pub enum Recovery {
    /// The capability itself failed, for instance a remote key store did
    /// not answer.
    Failed,
    /// The capability ran but produced no session key.
    NoKey,
    /// The session key.
    Key(Secret),
}

/// Why decryption failed.
#[derive(PartialEq, Eq, Structural, Clone, Copy, Debug)]
pub enum DecryptError {
    /// The recovery capability failed.
    RecoveryFailed,
    /// No session key could be produced.
    MissingSessionKey,
    /// The message is malformed.
    Parse(ParseError),
}

/// The session key to decrypt with, from what the recovery capability
/// handed back: a failing capability and a missing key are told apart.
pub fn get_secret(recovery: Recovery) -> (r: Result<Secret, DecryptError>)
    ensures
        match recovery {
            Recovery::Failed => r == Err::<Secret, DecryptError>(DecryptError::RecoveryFailed),
            Recovery::NoKey => r == Err::<Secret, DecryptError>(DecryptError::MissingSessionKey),
            Recovery::Key(s) => r == Ok::<Secret, DecryptError>(s),
        },
{
    match recovery {
        Recovery::Failed => Err(DecryptError::RecoveryFailed),
        Recovery::NoKey => Err(DecryptError::MissingSessionKey),
        Recovery::Key(s) => Ok(s),
    }
}

/// What the driver does after the parser met a packet.
#[derive(PartialEq, Eq, Structural, Clone, Copy, Debug)]
pub enum Action {
    /// Go on to the next packet.
    Continue,
    /// Ask for the session key for the collected session-key packets, then
    /// decrypt the current container.
    RecoverSessionKey,
}

/// The session-key packets met so far, by position in the stream.
pub struct DecryptionState {
    pkesks: Vec<usize>,
    skesks: Vec<usize>,
    seen: usize,
}

/// The next action at a packet of type `tag`.
pub open spec fn action_for(tag: Tag) -> Action {
    if tag == Tag::SED || tag == Tag::SEIP || tag == Tag::AED {
        Action::RecoverSessionKey
    } else {
        Action::Continue
    }
}

impl DecryptionState {
    /// The positions of the public-key session-key packets met so far.
    pub closed spec fn pkesks_spec(&self) -> Seq<usize> {
        self.pkesks@
    }

    /// The positions of the passphrase session-key packets met so far.
    pub closed spec fn skesks_spec(&self) -> Seq<usize> {
        self.skesks@
    }

    /// How many packets were met.
    pub closed spec fn seen_spec(&self) -> int {
        self.seen as int
    }

    /// The state before the first packet.
    pub fn new() -> (r: DecryptionState)
        ensures
            r.pkesks_spec().len() == 0,
            r.skesks_spec().len() == 0,
            r.seen_spec() == 0,
    {
        DecryptionState { pkesks: Vec::new(), skesks: Vec::new(), seen: 0 }
    }

    /// Records a packet of type `tag` and says what to do next: collect a
    /// session-key packet, or ask for the session key at an encrypted
    /// container.
    pub fn step(&mut self, tag: Tag) -> (r: Action)
        requires
            old(self).seen_spec() < usize::MAX,
        ensures
            r == action_for(tag),
            final(self).seen_spec() == old(self).seen_spec() + 1,
            final(self).pkesks_spec() == if tag == Tag::PKESK {
                old(self).pkesks_spec().push(old(self).seen_spec() as usize)
            } else {
                old(self).pkesks_spec()
            },
            final(self).skesks_spec() == if tag == Tag::SKESK {
                old(self).skesks_spec().push(old(self).seen_spec() as usize)
            } else {
                old(self).skesks_spec()
            },
    {
        let at = self.seen;
        self.seen = self.seen + 1;
        if tag == Tag::PKESK {
            self.pkesks.push(at);
            Action::Continue
        } else if tag == Tag::SKESK {
            self.skesks.push(at);
            Action::Continue
        } else if tag == Tag::SED || tag == Tag::SEIP || tag == Tag::AED {
            Action::RecoverSessionKey
        } else {
            Action::Continue
        }
    }

    /// The number of session-key packets collected.
    pub fn key_packets(&self) -> (r: (usize, usize))
        ensures
            r.0 == self.pkesks_spec().len(),
            r.1 == self.skesks_spec().len(),
    {
        (self.pkesks.len(), self.skesks.len())
    }
}

} // verus!
