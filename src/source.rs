//! The byte stream under the packet parser, with its hashing switch.
//!
//! Bytes are hashed when they are consumed, while hashing is on.  Readers
//! higher up turn hashing off around bytes that belong to the framing
//! rather than to a packet's body.
use vstd::prelude::*;

verus! {

/// Why a read failed.
#[derive(PartialEq, Eq, Structural, Clone, Copy, Debug)]
pub enum ReadError {
    /// The data ended where the format requires more.
    UnexpectedEof,
    /// A header is malformed.
    MalformedEncoding,
}

/// Per-reader settings: the hashing level that the reader belongs to, if
/// any.
#[derive(PartialEq, Eq, Structural, Clone, Copy, Debug)]
pub struct Cookie {
    pub level: Option<u8>,
}

/// A stream of bytes read front to back, recording the bytes that were
/// consumed while hashing was on.
pub struct ByteSource {
    data: Vec<u8>,
    pos: usize,
    hashing: bool,
    hashed: Vec<u8>,
    cookie: Cookie,
}

impl ByteSource {
    /// All bytes of the stream, read or not.
    pub closed spec fn data_spec(&self) -> Seq<u8> {
        self.data@
    }

    /// How many bytes were consumed.
    pub closed spec fn pos_spec(&self) -> int {
        self.pos as int
    }

    /// Whether consumed bytes are hashed.
    pub closed spec fn hashing_spec(&self) -> bool {
        self.hashing
    }

    /// The bytes consumed while hashing was on, in order.
    pub closed spec fn hashed_spec(&self) -> Seq<u8> {
        self.hashed@
    }

    /// The reader's settings.
    pub closed spec fn cookie_spec(&self) -> Cookie {
        self.cookie
    }

    pub closed spec fn wf(&self) -> bool {
        self.pos <= self.data@.len()
    }

    /// A well-formed stream's read position lies within its data.
    pub proof fn wf_bounds(&self)
        requires
            self.wf(),
        ensures
            0 <= self.pos_spec() <= self.data_spec().len(),
    {
    }

    /// The bytes not consumed yet.
    pub open spec fn unread(&self) -> Seq<u8> {
        self.data_spec().subrange(self.pos_spec(), self.data_spec().len() as int)
    }

    /// A stream over `data`, hashing on, with the given settings.
    pub fn new(data: Vec<u8>, cookie: Cookie) -> (r: ByteSource)
        ensures
            r.wf(),
            r.data_spec() == data@,
            r.pos_spec() == 0,
            r.hashing_spec(),
            r.hashed_spec() == Seq::<u8>::empty(),
            r.cookie_spec() == cookie,
    {
        ByteSource { data, pos: 0, hashing: true, hashed: Vec::new(), cookie }
    }

    /// The number of bytes not consumed yet.
    pub fn available(&self) -> (r: usize)
        requires
            self.wf(),
        ensures
            r == self.data_spec().len() - self.pos_spec(),
            0 <= self.pos_spec() <= self.data_spec().len(),
    {
        self.data.len() - self.pos
    }

    /// The byte `i` places past the read position.
    pub fn peek_at(&self, i: usize) -> (r: u8)
        requires
            self.wf(),
            i < self.data_spec().len() - self.pos_spec(),
        ensures
            r == self.data_spec()[self.pos_spec() + i],
    {
        let _len = self.data.len();
        self.data[self.pos + i]
    }

    /// The reader's settings.
    pub fn cookie_ref(&self) -> (r: &Cookie)
        ensures
            *r == self.cookie_spec(),
    {
        &self.cookie
    }

    /// Turns hashing of consumed bytes on or off.
    pub fn set_hashing(&mut self, on: bool)
        ensures
            final(self).hashing_spec() == on,
            final(self).data_spec() == old(self).data_spec(),
            final(self).pos_spec() == old(self).pos_spec(),
            final(self).hashed_spec() == old(self).hashed_spec(),
            final(self).cookie_spec() == old(self).cookie_spec(),
            final(self).wf() == old(self).wf(),
    {
        self.hashing = on;
    }

    /// The bytes consumed while hashing was on.
    pub fn hashed(&self) -> (r: &Vec<u8>)
        ensures
            r@ == self.hashed_spec(),
    {
        &self.hashed
    }

    /// Consumes `n` bytes, appending them to `out`.
    pub fn consume_into(&mut self, out: &mut Vec<u8>, n: usize)
        requires
            old(self).wf(),
            n <= old(self).data_spec().len() - old(self).pos_spec(),
        ensures
            final(self).wf(),
            final(out)@ == old(out)@ + old(self).data_spec().subrange(
                old(self).pos_spec(),
                old(self).pos_spec() + n,
            ),
            final(self).data_spec() == old(self).data_spec(),
            final(self).pos_spec() == old(self).pos_spec() + n,
            final(self).hashing_spec() == old(self).hashing_spec(),
            final(self).cookie_spec() == old(self).cookie_spec(),
            final(self).hashed_spec() == if old(self).hashing_spec() {
                old(self).hashed_spec() + old(self).data_spec().subrange(
                    old(self).pos_spec(),
                    old(self).pos_spec() + n,
                )
            } else {
                old(self).hashed_spec()
            },
    {
        let _len = self.data.len();
        let start = self.pos;
        let ghost out0 = out@;
        let ghost hashed0 = self.hashed@;
        let mut i: usize = 0;
        while i < n
            invariant
                self.wf(),
                self.pos == start,
                start + n <= self.data@.len(),
                self.data@.len() <= usize::MAX,
                i <= n,
                self.data@ == old(self).data@,
                self.hashing == old(self).hashing,
                self.cookie == old(self).cookie,
                out@ == out0 + self.data@.subrange(start as int, start + i),
                self.hashed@ == if self.hashing {
                    hashed0 + self.data@.subrange(start as int, start + i)
                } else {
                    hashed0
                },
            decreases n - i,
        {
            let b = self.data[start + i];
            out.push(b);
            if self.hashing {
                self.hashed.push(b);
            }
            proof {
                assert(self.data@.subrange(start as int, start + i + 1)
                    == self.data@.subrange(start as int, start + i).push(b));
            }
            i = i + 1;
        }
        self.pos = start + n;
    }

    /// Copies the next `n` bytes without consuming them.
    pub fn copy_ahead(&self, n: usize) -> (r: Vec<u8>)
        requires
            self.wf(),
            n <= self.data_spec().len() - self.pos_spec(),
        ensures
            r@ == self.data_spec().subrange(self.pos_spec(), self.pos_spec() + n),
    {
        let _len = self.data.len();
        let mut r: Vec<u8> = Vec::new();
        let mut i: usize = 0;
        while i < n
            invariant
                self.wf(),
                i <= n,
                self.pos + n <= self.data@.len(),
                self.data@.len() <= usize::MAX,
                r@ == self.data@.subrange(self.pos as int, self.pos + i),
            decreases n - i,
        {
            r.push(self.data[self.pos + i]);
            proof {
                assert(self.data@.subrange(self.pos as int, self.pos + i + 1)
                    =~= self.data@.subrange(self.pos as int, self.pos + i).push(self.data@[self.pos + i]));
            }
            i = i + 1;
        }
        r
    }

    /// Consumes one byte and returns it.
    pub fn next_byte(&mut self) -> (r: u8)
        requires
            old(self).wf(),
            old(self).pos_spec() < old(self).data_spec().len(),
        ensures
            final(self).wf(),
            r == old(self).data_spec()[old(self).pos_spec()],
            final(self).data_spec() == old(self).data_spec(),
            final(self).pos_spec() == old(self).pos_spec() + 1,
            final(self).hashing_spec() == old(self).hashing_spec(),
            final(self).cookie_spec() == old(self).cookie_spec(),
            final(self).hashed_spec() == if old(self).hashing_spec() {
                old(self).hashed_spec().push(r)
            } else {
                old(self).hashed_spec()
            },
    {
        let _len = self.data.len();
        let b = self.data[self.pos];
        self.pos = self.pos + 1;
        if self.hashing {
            self.hashed.push(b);
        }
        b
    }
}

} // verus!
