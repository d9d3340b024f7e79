//! A reader that hides the partial body length encoding: a packet body
//! split into chunks, each but the last introduced by a length header,
//! read as one contiguous body.
use vstd::prelude::*;
use crate::packet::{BodyLength, new_length_at, parse_new_format};
use crate::source::{ByteSource, Cookie, ReadError};

verus! {

/// The logical body that starts at `pos` in `data`, where the current
/// chunk has `remaining` unread bytes and `last` tells whether it is the
/// final one; and whether the data ends inside a chunk length header after
/// those bytes.  A chunk cut short by the end of the data ends the body.
pub open spec fn chunked_rest(data: Seq<u8>, pos: int, remaining: int, last: bool) -> (Seq<u8>, bool)
    decreases data.len() - pos,
{
    if pos < 0 || pos > data.len() || remaining < 0 {
        (Seq::empty(), false)
    } else if data.len() - pos < remaining {
        (data.subrange(pos, data.len() as int), false)
    } else {
        let next = pos + remaining;
        let chunk = data.subrange(pos, next);
        if last {
            (chunk, false)
        } else {
            match new_length_at(data, next) {
                None => (chunk, true),
                Some((len, n)) => {
                    let following = match len {
                        BodyLength::Full(l) => chunked_rest(data, next + n, l as int, true),
                        BodyLength::Partial(l) => chunked_rest(data, next + n, l as int, false),
                        BodyLength::Indeterminate => (Seq::empty(), false),
                    };
                    (chunk + following.0, following.1)
                },
            }
        }
    }
}

/// Where the body described as in `chunked_rest` ends in `data`: after its
/// last chunk, or at the end of the data where a chunk is cut short, or at
/// a length header that the data cuts off.
pub open spec fn chunked_end(data: Seq<u8>, pos: int, remaining: int, last: bool) -> int
    decreases data.len() - pos,
{
    if pos < 0 || pos > data.len() || remaining < 0 {
        pos
    } else if data.len() - pos < remaining {
        data.len() as int
    } else {
        let next = pos + remaining;
        if last {
            next
        } else {
            match new_length_at(data, next) {
                None => next,
                Some((len, n)) => match len {
                    BodyLength::Full(l) => chunked_end(data, next + n, l as int, true),
                    BodyLength::Partial(l) => chunked_end(data, next + n, l as int, false),
                    BodyLength::Indeterminate => next,
                },
            }
        }
    }
}

/// Whether the body described as in `chunked_rest` is cut short: the data
/// ends inside one of its chunks.
pub open spec fn chunked_truncated(data: Seq<u8>, pos: int, remaining: int, last: bool) -> bool
    decreases data.len() - pos,
{
    if pos < 0 || pos > data.len() || remaining < 0 {
        false
    } else if data.len() - pos < remaining {
        true
    } else {
        let next = pos + remaining;
        if last {
            false
        } else {
            match new_length_at(data, next) {
                None => false,
                Some((len, n)) => match len {
                    BodyLength::Full(l) => chunked_truncated(data, next + n, l as int, true),
                    BodyLength::Partial(l) => chunked_truncated(data, next + n, l as int, false),
                    BodyLength::Indeterminate => false,
                },
            }
        }
    }
}

/// A chunked body ends at or after where it starts, within the data.
pub proof fn lemma_chunked_end_after(data: Seq<u8>, pos: int, remaining: int, last: bool)
    requires
        0 <= pos <= data.len(),
        0 <= remaining,
    ensures
        pos <= chunked_end(data, pos, remaining, last) <= data.len(),
    decreases data.len() - pos,
{
    if data.len() - pos >= remaining && !last {
        let next = pos + remaining;
        match new_length_at(data, next) {
            None => {},
            Some((len, n)) => match len {
                BodyLength::Full(l) => lemma_chunked_end_after(data, next + n, l as int, true),
                BodyLength::Partial(l) => lemma_chunked_end_after(data, next + n, l as int, false),
                BodyLength::Indeterminate => {},
            },
        }
    }
}

/// A chunked body is no longer than the bytes it spans.
pub proof fn lemma_chunked_rest_len(data: Seq<u8>, pos: int, remaining: int, last: bool)
    requires
        0 <= pos <= data.len(),
        0 <= remaining,
    ensures
        chunked_rest(data, pos, remaining, last).0.len() <= chunked_end(data, pos, remaining, last) - pos,
    decreases data.len() - pos,
{
    if data.len() - pos >= remaining && !last {
        let next = pos + remaining;
        match new_length_at(data, next) {
            None => {},
            Some((len, n)) => match len {
                BodyLength::Full(l) => lemma_chunked_rest_len(data, next + n, l as int, true),
                BodyLength::Partial(l) => lemma_chunked_rest_len(data, next + n, l as int, false),
                BodyLength::Indeterminate => {},
            },
        }
    }
}

/// Taking `k` bytes of the current chunk off the front leaves the rest of
/// the body.
proof fn lemma_chunked_rest_split(data: Seq<u8>, pos: int, remaining: int, last: bool, k: int)
    requires
        0 <= pos <= data.len(),
        0 <= k <= remaining,
        k <= data.len() - pos,
    ensures
        chunked_rest(data, pos, remaining, last).0 == data.subrange(pos, pos + k) + chunked_rest(
            data,
            pos + k,
            remaining - k,
            last,
        ).0,
        chunked_rest(data, pos, remaining, last).1 == chunked_rest(data, pos + k, remaining - k, last).1,
        chunked_end(data, pos, remaining, last) == chunked_end(data, pos + k, remaining - k, last),
        chunked_truncated(data, pos, remaining, last) == chunked_truncated(data, pos + k, remaining - k, last),
{
    let a = chunked_rest(data, pos, remaining, last);
    let b = chunked_rest(data, pos + k, remaining - k, last);
    if data.len() - pos < remaining {
        assert(data.subrange(pos, data.len() as int) =~= data.subrange(pos, pos + k)
            + data.subrange(pos + k, data.len() as int));
    } else {
        let next = pos + remaining;
        assert(data.subrange(pos, next) =~= data.subrange(pos, pos + k) + data.subrange(pos + k, next));
        if !last {
            match new_length_at(data, next) {
                None => {},
                Some((len, n)) => {
                    assert(a.0 =~= data.subrange(pos, pos + k) + b.0);
                },
            }
        }
    }
}

/// At a chunk boundary, what follows is what the next length header
/// introduces.
proof fn lemma_chunked_rest_at_header(data: Seq<u8>, pos: int)
    requires
        0 <= pos <= data.len(),
    ensures
        match new_length_at(data, pos) {
            None => chunked_rest(data, pos, 0, false) == (Seq::<u8>::empty(), true),
            Some((BodyLength::Full(l), n)) => chunked_rest(data, pos, 0, false) == chunked_rest(
                data,
                pos + n,
                l as int,
                true,
            ),
            Some((BodyLength::Partial(l), n)) => chunked_rest(data, pos, 0, false) == chunked_rest(
                data,
                pos + n,
                l as int,
                false,
            ),
            Some((BodyLength::Indeterminate, _)) => false,
        },
        match new_length_at(data, pos) {
            None => !chunked_truncated(data, pos, 0, false),
            Some((BodyLength::Full(l), n)) => chunked_truncated(data, pos, 0, false) == chunked_truncated(
                data,
                pos + n,
                l as int,
                true,
            ),
            Some((BodyLength::Partial(l), n)) => chunked_truncated(data, pos, 0, false)
                == chunked_truncated(data, pos + n, l as int, false),
            Some((BodyLength::Indeterminate, _)) => false,
        },
        match new_length_at(data, pos) {
            None => chunked_end(data, pos, 0, false) == pos,
            Some((BodyLength::Full(l), n)) => chunked_end(data, pos, 0, false) == chunked_end(
                data,
                pos + n,
                l as int,
                true,
            ),
            Some((BodyLength::Partial(l), n)) => chunked_end(data, pos, 0, false) == chunked_end(
                data,
                pos + n,
                l as int,
                false,
            ),
            Some((BodyLength::Indeterminate, _)) => false,
        },
{
    assert(data.subrange(pos, pos) =~= Seq::<u8>::empty());
    match new_length_at(data, pos) {
        None => {},
        Some((BodyLength::Full(l), n)) => {
            let f = chunked_rest(data, pos + n, l as int, true);
            assert(Seq::<u8>::empty() + f.0 =~= f.0);
        },
        Some((BodyLength::Partial(l), n)) => {
            let f = chunked_rest(data, pos + n, l as int, false);
            assert(Seq::<u8>::empty() + f.0 =~= f.0);
        },
        Some((BodyLength::Indeterminate, _)) => {},
    }
}

/// A body ends where its last chunk is used up, and where the data runs
/// out inside a chunk.
proof fn lemma_chunked_rest_end(data: Seq<u8>, pos: int, remaining: int, last: bool)
    requires
        0 <= pos <= data.len(),
        0 <= remaining,
        (remaining == 0 && last) || (pos == data.len() && remaining > 0),
    ensures
        chunked_rest(data, pos, remaining, last) == (Seq::<u8>::empty(), false),
        chunked_end(data, pos, remaining, last) == pos,
        chunked_truncated(data, pos, remaining, last) == (remaining > 0),
{
    assert(data.subrange(pos, pos) =~= Seq::<u8>::empty());
}

/// The least of two sizes.
fn min_usize(a: usize, b: usize) -> (r: usize)
    ensures
        r == if a <= b { a } else { b },
{
    if a <= b {
        a
    } else {
        b
    }
}

/// Copies `len` bytes of `v` from `start` on.
pub(crate) fn copy_range(v: &Vec<u8>, start: usize, len: usize) -> (r: Vec<u8>)
    requires
        start + len <= v@.len(),
    ensures
        r@ == v@.subrange(start as int, start + len),
{
    let _n = v.len();
    let mut r: Vec<u8> = Vec::new();
    let mut i: usize = 0;
    while i < len
        invariant
            start + len <= v@.len(),
            v@.len() <= usize::MAX,
            i <= len,
            r@ == v@.subrange(start as int, start + i),
        decreases len - i,
    {
        r.push(v[start + i]);
        proof {
            assert(v@.subrange(start as int, start + i + 1) =~= v@.subrange(start as int, start + i).push(
                v@[start + i],
            ));
        }
        i = i + 1;
    }
    r
}

/// What a read of `amount` bytes does to a body whose rest is `s`, and
/// which ends in a cut-off header when `e` holds: `r` is the result and
/// `s2` the rest afterwards.  A read that wants more than is left fails
/// when it must be complete (`hard`) or when the body ends in a cut-off
/// header, and leaves the rest as it was; otherwise it returns the first
/// `amount` bytes, or all that are left, and consumes them when asked to.
pub open spec fn read_outcome(
    s: Seq<u8>,
    e: bool,
    amount: int,
    hard: bool,
    and_consume: bool,
    r: Result<Vec<u8>, ReadError>,
    s2: Seq<u8>,
) -> bool {
    if amount > s.len() && (hard || e) {
        r == Err::<Vec<u8>, ReadError>(ReadError::UnexpectedEof) && s2 == s
    } else {
        let m = if amount <= s.len() {
            amount
        } else {
            s.len() as int
        };
        &&& r is Ok
        &&& r->Ok_0@ == s.subrange(0, m)
        &&& s2 == if and_consume {
            s.subrange(m, s.len() as int)
        } else {
            s
        }
    }
}

/// Chunk boundaries are invisible: where a body does not end in a cut-off
/// length header, reading it byte by byte (what `read_bytewise` returns,
/// `bytewise`) yields exactly what one read of its whole length returns
/// (`data_consume` of `rest.len()` bytes, `once`), and that read leaves
/// nothing behind.
pub proof fn chunk_boundary_transparency(
    rest: Seq<u8>,
    bytewise: Result<Vec<u8>, ReadError>,
    once: Result<Vec<u8>, ReadError>,
    after: Seq<u8>,
)
    requires
        bytewise is Ok && bytewise->Ok_0@ == rest,
        read_outcome(rest, false, rest.len() as int, false, true, once, after),
    ensures
        once is Ok,
        once->Ok_0@ == bytewise->Ok_0@,
        after.len() == 0,
{
    assert(rest.subrange(0, rest.len() as int) =~= rest);
}

/// The consumed body bytes after a read that returned `r`: a successful
/// consuming read adds what it returned.
pub open spec fn consumed_after(before: Seq<u8>, and_consume: bool, r: Result<Vec<u8>, ReadError>) -> Seq<u8> {
    if and_consume && r is Ok {
        before + r->Ok_0@
    } else {
        before
    }
}

/// A reader over a chunked packet body.
pub struct BufferedReaderPartialBodyFilter {
    // The underlying stream, positioned after what was read of the body.
    reader: ByteSource,
    // The unread bytes of the current chunk still in `reader`.
    partial_body_length: u32,
    // Whether the current chunk is the last one.
    last: bool,
    // Bytes copied out of `reader` when a request crossed a chunk
    // boundary; once set, reads go through it.
    buffer: Option<Vec<u8>>,
    // The read position within `buffer`.
    cursor: usize,
    // Whether to hash chunk length headers along with the body.
    hash_headers: bool,
    // A chunk length header was cut off: nothing follows `buffer`.
    failed: bool,
    // The reader's own settings.
    cookie: Cookie,
    // Whether the stream's hash is known to cover exactly the body bytes
    // pulled from it: headers are kept out of it and it was on from the
    // start.
    tracking: Ghost<bool>,
    // What the stream had hashed when this reader was made.
    hash_base: Ghost<Seq<u8>>,
    // The body bytes consumed so far.
    consumed: Ghost<Seq<u8>>,
}

impl BufferedReaderPartialBodyFilter {
    pub closed spec fn wf(&self) -> bool {
        &&& self.reader.wf()
        &&& match self.buffer {
            Some(b) => self.cursor <= b@.len(),
            None => self.cursor == 0 && !self.failed,
        }
        &&& self.tracking@ ==> {
            &&& !self.hash_headers
            &&& self.reader.cookie_spec().level is Some
            &&& self.reader.hashing_spec()
            &&& self.reader.hashed_spec() == self.hash_base@ + self.consumed@ + self.pending()
        }
    }

    /// Where the body ends in the underlying stream.
    pub closed spec fn body_end(&self) -> int {
        chunked_end(
            self.reader.data_spec(),
            self.reader.pos_spec(),
            self.partial_body_length as int,
            self.last,
        )
    }

    /// Whether the body is cut short by the end of the data.
    pub closed spec fn body_truncated(&self) -> bool {
        chunked_truncated(
            self.reader.data_spec(),
            self.reader.pos_spec(),
            self.partial_body_length as int,
            self.last,
        )
    }

    /// Whether reading stopped where the body ends: its last chunk is used
    /// up, or the data ran out inside a chunk.
    pub closed spec fn stopped(&self) -> bool {
        &&& !self.failed
        &&& (self.partial_body_length == 0 && self.last) || (self.reader.pos_spec()
            == self.reader.data_spec().len() && self.partial_body_length > 0)
    }

    /// A well-formed reader never stands past the end of its body in the
    /// underlying stream.
    pub proof fn position_within_body(&self)
        requires
            self.wf(),
        ensures
            self.source().pos_spec() <= self.body_end(),
    {
        self.reader.wf_bounds();
        lemma_chunked_end_after(
            self.reader.data_spec(),
            self.reader.pos_spec(),
            self.partial_body_length as int,
            self.last,
        );
    }

    /// Whether the underlying stream stands at the end of the body.
    pub open spec fn at_body_end(&self) -> bool {
        self.source().pos_spec() == self.body_end()
    }

    /// Whether the stream's hash is kept to the body: header hashing is
    /// off, the stream belongs to a hashing level, and hashing was on when
    /// the reader was made.
    pub closed spec fn tracks_hash(&self) -> bool {
        self.tracking@
    }

    /// What the stream had hashed when the reader was made.
    pub closed spec fn hash_base(&self) -> Seq<u8> {
        self.hash_base@
    }

    /// The body bytes consumed so far.
    pub closed spec fn consumed_spec(&self) -> Seq<u8> {
        self.consumed@
    }

    /// Where the reader keeps the hash to the body, the stream has hashed,
    /// after what it had hashed before, exactly the body bytes pulled from
    /// it: those consumed, then those buffered.  No chunk length header is
    /// hashed, however the body is split into chunks.
    pub proof fn hash_covers_body(&self)
        requires
            self.wf(),
        ensures
            self.tracks_hash() ==> self.source().hashed_spec() == self.hash_base() + self.consumed_spec()
                + self.pending(),
    {
    }

    /// The body bytes read from the stream but not yet consumed.
    pub closed spec fn pending(&self) -> Seq<u8> {
        match self.buffer {
            Some(b) => b@.subrange(self.cursor as int, b@.len() as int),
            None => Seq::empty(),
        }
    }

    closed spec fn tail(&self) -> (Seq<u8>, bool) {
        if self.failed {
            (Seq::empty(), true)
        } else {
            chunked_rest(
                self.reader.data_spec(),
                self.reader.pos_spec(),
                self.partial_body_length as int,
                self.last,
            )
        }
    }

    /// The unconsumed rest of the logical body.
    pub closed spec fn rest(&self) -> Seq<u8> {
        self.pending() + self.tail().0
    }

    /// Whether the data ends inside a chunk length header after the rest of
    /// the body, so that reading past it fails.
    pub closed spec fn ends_in_error(&self) -> bool {
        self.tail().1
    }

    /// The underlying stream.
    pub closed spec fn source(&self) -> ByteSource {
        self.reader
    }

    /// The reader's own settings.
    pub closed spec fn cookie_spec(&self) -> Cookie {
        self.cookie
    }

    /// A reader over the body whose first chunk holds
    /// `partial_body_length` bytes and starts at the stream's position.
    pub fn with_cookie(reader: ByteSource, partial_body_length: u32, hash_headers: bool, cookie: Cookie) -> (r: Self)
        requires
            reader.wf(),
        ensures
            r.wf(),
            (r.rest(), r.ends_in_error()) == chunked_rest(
                reader.data_spec(),
                reader.pos_spec(),
                partial_body_length as int,
                false,
            ),
            r.cookie_spec() == cookie,
            r.source() == reader,
            r.tracks_hash() == (!hash_headers && reader.cookie_spec().level is Some && reader.hashing_spec()),
            r.hash_base() == reader.hashed_spec(),
            r.consumed_spec() == Seq::<u8>::empty(),
            r.body_end() == chunked_end(reader.data_spec(), reader.pos_spec(), partial_body_length as int, false),
            r.body_truncated() == chunked_truncated(
                reader.data_spec(),
                reader.pos_spec(),
                partial_body_length as int,
                false,
            ),
    {
        let ghost tracking = !hash_headers && reader.cookie_spec().level is Some && reader.hashing_spec();
        let ghost base = reader.hashed_spec();
        let r = BufferedReaderPartialBodyFilter {
            reader,
            partial_body_length,
            last: false,
            buffer: None,
            cursor: 0,
            hash_headers,
            failed: false,
            cookie,
            tracking: Ghost(tracking),
            hash_base: Ghost(base),
            consumed: Ghost(Seq::empty()),
        };
        assert(r.rest() =~= r.tail().0);
        assert(base + Seq::<u8>::empty() + Seq::<u8>::empty() =~= base);
        r
    }

    // Reads the next chunk's length header, outside the hash unless
    // headers are to be hashed.  A header cut off by the end of the data
    // marks the reader as failed.
    fn next_chunk(&mut self) -> (r: Result<(), ReadError>)
        requires
            old(self).reader.wf(),
            !old(self).failed,
            old(self).partial_body_length == 0,
            !old(self).last,
            old(self).tracking@ ==> !old(self).hash_headers && old(self).reader.cookie_spec().level is Some
                && old(self).reader.hashing_spec(),
        ensures
            final(self).reader.wf(),
            final(self).reader.data_spec() == old(self).reader.data_spec(),
            final(self).reader.cookie_spec() == old(self).reader.cookie_spec(),
            final(self).tail() == old(self).tail(),
            final(self).body_end() == old(self).body_end(),
            final(self).body_truncated() == old(self).body_truncated(),
            final(self).failed == (r is Err),
            r is Err ==> r == Err::<(), ReadError>(ReadError::UnexpectedEof),
            r is Ok ==> final(self).reader.pos_spec() > old(self).reader.pos_spec(),
            final(self).buffer == old(self).buffer,
            final(self).cursor == old(self).cursor,
            final(self).cookie == old(self).cookie,
            final(self).hash_headers == old(self).hash_headers,
            final(self).tracking == old(self).tracking,
            final(self).hash_base == old(self).hash_base,
            final(self).consumed == old(self).consumed,
            old(self).tracking@ ==> final(self).reader.hashing_spec() && final(self).reader.hashed_spec()
                == old(self).reader.hashed_spec(),
    {
        let ghost data = self.reader.data_spec();
        let ghost pos1 = self.reader.pos_spec();
        proof {
            self.reader.wf_bounds();
            lemma_chunked_rest_at_header(data, pos1);
        }
        let level = self.reader.cookie_ref().level;
        if !self.hash_headers && level.is_some() {
            self.reader.set_hashing(false);
        }
        let body_length = parse_new_format(&mut self.reader);
        if !self.hash_headers && level.is_some() {
            self.reader.set_hashing(true);
        }
        match body_length {
            Ok(BodyLength::Full(len)) => {
                self.last = true;
                self.partial_body_length = len;
                Ok(())
            },
            Ok(BodyLength::Partial(len)) => {
                self.partial_body_length = len;
                Ok(())
            },
            Ok(BodyLength::Indeterminate) => {
                proof {
                    assert(false);
                }
                Ok(())
            },
            Err(_) => {
                self.failed = true;
                Err(ReadError::UnexpectedEof)
            },
        }
    }

    // Makes the local buffer hold the next `amount` bytes of the body, or
    // all of them where fewer are left.
    #[verifier::rlimit(60)]
    fn do_fill_buffer(&mut self, amount: usize) -> (r: Result<(), ReadError>)
        requires
            old(self).wf(),
            amount > old(self).pending().len(),
        ensures
            final(self).wf(),
            final(self).rest() == old(self).rest(),
            final(self).ends_in_error() == old(self).ends_in_error(),
            final(self).source().data_spec() == old(self).source().data_spec(),
            final(self).tracks_hash() == old(self).tracks_hash(),
            final(self).hash_base() == old(self).hash_base(),
            final(self).body_end() == old(self).body_end(),
            final(self).body_truncated() == old(self).body_truncated(),
            final(self).consumed_spec() == old(self).consumed_spec(),
            final(self).cookie_spec() == old(self).cookie_spec(),
            final(self).buffer is Some,
            final(self).pending() == if amount <= old(self).rest().len() {
                old(self).rest().subrange(0, amount as int)
            } else {
                old(self).rest()
            },
            r is Err <==> (amount > old(self).rest().len() && old(self).ends_in_error()),
            r is Err ==> r == Err::<(), ReadError>(ReadError::UnexpectedEof),
            r is Ok && final(self).pending().len() < amount ==> final(self).at_body_end() && final(self).stopped(),
    {
        let ghost whole = self.rest();
        let ghost err_after = self.ends_in_error();
        let mut buffer: Vec<u8> = Vec::new();
        match &self.buffer {
            Some(old_buffer) => {
                let mut i: usize = self.cursor;
                while i < old_buffer.len()
                    invariant
                        self.cursor <= i <= old_buffer@.len(),
                        buffer@ == old_buffer@.subrange(self.cursor as int, i as int),
                    decreases old_buffer@.len() - i,
                {
                    buffer.push(old_buffer[i]);
                    proof {
                        assert(old_buffer@.subrange(self.cursor as int, i + 1)
                            =~= old_buffer@.subrange(self.cursor as int, i as int).push(old_buffer@[i as int]));
                    }
                    i = i + 1;
                }
            },
            None => {},
        }
        assert(buffer@ == self.pending());
        let mut err: Option<ReadError> = None;
        if self.failed {
            err = Some(ReadError::UnexpectedEof);
            assert(buffer@ + self.tail().0 =~= buffer@);
            assert(buffer@.len() < amount);
        } else {
            loop
                invariant_except_break
                    !self.failed,
                    buffer@.len() < amount,
                invariant
                    self.reader.wf(),
                    buffer@.len() <= amount,
                    self.cookie == old(self).cookie,
                    self.reader.data_spec() == old(self).reader.data_spec(),
                    self.failed ==> err == Some(ReadError::UnexpectedEof),
                    !self.failed ==> err is None,
                    buffer@ + self.tail().0 == whole,
                    self.tail().1 == err_after,
                    self.tracking == old(self).tracking,
                    self.hash_base == old(self).hash_base,
                    self.consumed == old(self).consumed,
                    self.hash_headers == old(self).hash_headers,
                    self.reader.cookie_spec() == old(self).reader.cookie_spec(),
                    self.tracking@ ==> self.reader.hashing_spec() && self.reader.hashed_spec()
                        == self.hash_base@ + self.consumed@ + buffer@,
                    self.tracking@ ==> !self.hash_headers && self.reader.cookie_spec().level is Some,
                    self.body_end() == old(self).body_end(),
                self.body_truncated() == old(self).body_truncated(),
                    self.body_truncated() == old(self).body_truncated(),
                ensures
                    self.reader.wf(),
                    buffer@.len() <= amount,
                    self.cookie == old(self).cookie,
                    self.failed ==> err == Some(ReadError::UnexpectedEof),
                    !self.failed ==> err is None,
                    buffer@ + self.tail().0 == whole,
                    self.tail().1 == err_after,
                    buffer@.len() < amount ==> self.tail() == (Seq::<u8>::empty(), self.failed),
                    self.failed ==> buffer@.len() < amount,
                    self.tracking == old(self).tracking,
                    self.hash_base == old(self).hash_base,
                    self.consumed == old(self).consumed,
                    self.hash_headers == old(self).hash_headers,
                    self.reader.cookie_spec() == old(self).reader.cookie_spec(),
                    self.tracking@ ==> self.reader.hashing_spec() && self.reader.hashed_spec()
                        == self.hash_base@ + self.consumed@ + buffer@,
                    self.tracking@ ==> !self.hash_headers && self.reader.cookie_spec().level is Some,
                    self.body_end() == old(self).body_end(),
                self.body_truncated() == old(self).body_truncated(),
                    self.body_truncated() == old(self).body_truncated(),
                    buffer@.len() < amount && !self.failed ==> self.reader.pos_spec() == self.body_end()
                        && ((self.partial_body_length == 0 && self.last) || (self.reader.pos_spec()
                        == self.reader.data_spec().len() && self.partial_body_length > 0)),
                decreases self.reader.data_spec().len() - self.reader.pos_spec(),
            {
                let ghost data = self.reader.data_spec();
                proof {
                    self.reader.wf_bounds();
                }
                let space = amount - buffer.len();
                let to_read = min_usize(self.partial_body_length as usize, space);
                if to_read > 0 {
                    let avail = self.reader.available();
                    let k = min_usize(to_read, avail);
                    let ghost pos0 = self.reader.pos_spec();
                    proof {
                        lemma_chunked_rest_split(data, pos0, self.partial_body_length as int, self.last, k as int);
                    }
                    let ghost buf0 = buffer@;
                    let ghost hashed0 = self.reader.hashed_spec();
                    self.reader.consume_into(&mut buffer, k);
                    proof {
                        if self.tracking@ {
                            assert(hashed0 + data.subrange(pos0, pos0 + k) =~= self.hash_base@ + self.consumed@
                                + buffer@);
                        }
                    }
                    self.partial_body_length = self.partial_body_length - k as u32;
                    proof {
                        assert(buf0 + data.subrange(pos0, pos0 + k) + self.tail().0 =~= buf0 + (
                        data.subrange(pos0, pos0 + k) + self.tail().0));
                    }
                    if k < to_read {
                        proof {
                            lemma_chunked_rest_end(data, pos0 + k, self.partial_body_length as int, self.last);
                            assert(buffer@ + Seq::<u8>::empty() =~= buffer@);
                        }
                        break;
                    }
                }
                if buffer.len() == amount || self.last {
                    proof {
                        if buffer.len() != amount {
                            lemma_chunked_rest_end(data, self.reader.pos_spec(), 0, true);
                            assert(buffer@ + Seq::<u8>::empty() =~= buffer@);
                        }
                    }
                    break;
                }
                match self.next_chunk() {
                    Ok(()) => {
                        proof {
                            self.reader.wf_bounds();
                        }
                    },
                    Err(e) => {
                        err = Some(e);
                        proof {
                            assert(buffer@ + Seq::<u8>::empty() =~= buffer@);
                        }
                        break;
                    },
                }
            }
        }
        self.buffer = Some(buffer);
        self.cursor = 0;
        proof {
            let b = self.buffer->0;
            assert(b@.subrange(0, b@.len() as int) =~= b@);
            if err is Some {
                assert(self.failed);
                assert(b@ =~= whole);
            }
            if amount <= whole.len() {
                assert(b@ =~= whole.subrange(0, amount as int));
            } else {
                assert(b@ =~= whole);
            }
        }
        match err {
            Some(e) => Err(e),
            None => Ok(()),
        }
    }

    // Serves a read that ends within the current chunk, or where the body
    // does, straight from the underlying stream.
    fn direct_read(&mut self, amount: usize, hard: bool, and_consume: bool) -> (r: Result<Vec<u8>, ReadError>)
        requires
            old(self).wf(),
            old(self).buffer is None,
            amount <= old(self).partial_body_length || old(self).last,
        ensures
            final(self).wf(),
            final(self).cookie_spec() == old(self).cookie_spec(),
            final(self).ends_in_error() == old(self).ends_in_error(),
            final(self).source().data_spec() == old(self).source().data_spec(),
            final(self).tracks_hash() == old(self).tracks_hash(),
            final(self).hash_base() == old(self).hash_base(),
            final(self).body_end() == old(self).body_end(),
            final(self).body_truncated() == old(self).body_truncated(),
            and_consume && r is Ok && r->Ok_0@.len() < amount ==> final(self).at_body_end() && final(self).stopped(),
            final(self).consumed_spec() == consumed_after(old(self).consumed_spec(), and_consume, r),
            read_outcome(
                old(self).rest(),
                old(self).ends_in_error(),
                amount as int,
                hard,
                and_consume,
                r,
                final(self).rest(),
            ),
    {
        let ghost whole = self.rest();
        let ghost data = self.reader.data_spec();
        let ghost pos = self.reader.pos_spec();
        let ghost pbl = self.partial_body_length as int;
        proof {
            self.reader.wf_bounds();
            assert(whole =~= self.tail().0);
        }
        let avail = self.reader.available();
        let k = min_usize(min_usize(amount, self.partial_body_length as usize), avail);
        proof {
            lemma_chunked_rest_split(data, pos, pbl, self.last, k as int);
            if k < amount {
                if k == avail {
                    lemma_chunked_rest_end(data, pos + k, pbl - k, self.last);
                } else {
                    lemma_chunked_rest_end(data, pos + k, 0, true);
                }
                assert(whole =~= data.subrange(pos, pos + k));
            }
            assert(whole.subrange(0, k as int) =~= data.subrange(pos, pos + k));
            assert(whole.subrange(k as int, whole.len() as int) =~= chunked_rest(
                data,
                pos + k,
                pbl - k,
                self.last,
            ).0);
        }
        if hard && k < amount {
            return Err(ReadError::UnexpectedEof);
        }
        if and_consume {
            let mut out: Vec<u8> = Vec::new();
            let ghost hashed0 = self.reader.hashed_spec();
            self.reader.consume_into(&mut out, k);
            self.partial_body_length = self.partial_body_length - k as u32;
            let ghost consumed0 = self.consumed@;
            self.consumed = Ghost(self.consumed@ + out@);
            proof {
                assert(out@ =~= data.subrange(pos, pos + k));
                assert(self.rest() =~= self.tail().0);
                if self.tracking@ {
                    assert(self.pending() =~= Seq::<u8>::empty());
                    assert(hashed0 + out@ =~= self.hash_base@ + (consumed0 + out@) + Seq::<u8>::empty());
                }
            }
            Ok(out)
        } else {
            let out = self.reader.copy_ahead(k);
            Ok(out)
        }
    }

    // Serves a read from the local buffer, filling it first where it holds
    // less than `amount` bytes.
    fn buffered_read(&mut self, amount: usize, hard: bool, and_consume: bool) -> (r: Result<Vec<u8>, ReadError>)
        requires
            old(self).wf(),
            old(self).buffer is Some || amount > old(self).pending().len(),
        ensures
            final(self).wf(),
            final(self).cookie_spec() == old(self).cookie_spec(),
            final(self).ends_in_error() == old(self).ends_in_error(),
            final(self).source().data_spec() == old(self).source().data_spec(),
            final(self).tracks_hash() == old(self).tracks_hash(),
            final(self).hash_base() == old(self).hash_base(),
            final(self).body_end() == old(self).body_end(),
            final(self).body_truncated() == old(self).body_truncated(),
            and_consume && r is Ok && r->Ok_0@.len() < amount ==> final(self).at_body_end() && final(self).stopped(),
            final(self).consumed_spec() == consumed_after(old(self).consumed_spec(), and_consume, r),
            read_outcome(
                old(self).rest(),
                old(self).ends_in_error(),
                amount as int,
                hard,
                and_consume,
                r,
                final(self).rest(),
            ),
    {
        let ghost whole = self.rest();
        let need_fill = match &self.buffer {
            Some(b) => amount > b.len() - self.cursor,
            None => true,
        };
        if need_fill {
            let filled = self.do_fill_buffer(amount);
            if let Err(e) = filled {
                return Err(e);
            }
        }
        let ghost pend = self.pending();
        let ghost tl = self.tail().0;
        let ghost filled_state = *self;
        assert(self.rest() == pend + tl);
        proof {
            if need_fill {
                if amount > whole.len() {
                    assert(pend =~= whole);
                    assert(tl.len() == 0);
                } else {
                    assert(pend =~= whole.subrange(0, amount as int));
                }
            }
        }
        let r = self.take_from_buffer(amount, hard, and_consume);
        proof {
            assert(self.tail() == filled_state.tail());
            if r is Ok {
                let m = r->Ok_0@.len() as int;
                assert(r->Ok_0@ =~= whole.subrange(0, m));
                if and_consume {
                    assert(self.rest() =~= whole.subrange(m, whole.len() as int));
                }
            }
        }
        r
    }

    // Serves a read from the local buffer alone.
    fn take_from_buffer(&mut self, amount: usize, hard: bool, and_consume: bool) -> (r: Result<Vec<u8>, ReadError>)
        requires
            old(self).wf(),
            old(self).buffer is Some,
        ensures
            final(self).wf(),
            final(self).reader == old(self).reader,
            final(self).partial_body_length == old(self).partial_body_length,
            final(self).last == old(self).last,
            final(self).failed == old(self).failed,
            final(self).cookie == old(self).cookie,
            final(self).tracking == old(self).tracking,
            final(self).hash_base == old(self).hash_base,
            final(self).hash_headers == old(self).hash_headers,
            final(self).buffer is Some,
            final(self).consumed@ == consumed_after(old(self).consumed@, and_consume, r),
            ({
                let p = old(self).pending();
                if hard && amount > p.len() {
                    r == Err::<Vec<u8>, ReadError>(ReadError::UnexpectedEof) && final(self).pending() == p
                } else {
                    let m = if amount <= p.len() {
                        amount as int
                    } else {
                        p.len() as int
                    };
                    &&& r is Ok
                    &&& r->Ok_0@ == p.subrange(0, m)
                    &&& final(self).pending() == if and_consume {
                        p.subrange(m, p.len() as int)
                    } else {
                        p
                    }
                }
            }),
    {
        let ghost pend = self.pending();
        let (out, taken) = match &self.buffer {
            Some(b) => {
                let avail_b = b.len() - self.cursor;
                if hard && avail_b < amount {
                    return Err(ReadError::UnexpectedEof);
                }
                let m = min_usize(amount, avail_b);
                let out = copy_range(b, self.cursor, m);
                proof {
                    assert(out@ =~= pend.subrange(0, m as int));
                }
                (out, m)
            },
            None => {
                proof {
                    assert(false);
                }
                (Vec::new(), 0)
            },
        };
        if and_consume {
            self.cursor = self.cursor + taken;
            let ghost consumed0 = self.consumed@;
            self.consumed = Ghost(self.consumed@ + out@);
            proof {
                assert(self.pending() =~= pend.subrange(taken as int, pend.len() as int));
                if self.tracking@ {
                    assert(self.hash_base@ + consumed0 + pend =~= self.hash_base@ + (consumed0 + out@)
                        + pend.subrange(taken as int, pend.len() as int));
                }
            }
        }
        Ok(out)
    }

    fn data_helper(&mut self, amount: usize, hard: bool, and_consume: bool) -> (r: Result<Vec<u8>, ReadError>)
        requires
            old(self).wf(),
        ensures
            final(self).wf(),
            final(self).cookie_spec() == old(self).cookie_spec(),
            final(self).ends_in_error() == old(self).ends_in_error(),
            final(self).source().data_spec() == old(self).source().data_spec(),
            final(self).tracks_hash() == old(self).tracks_hash(),
            final(self).hash_base() == old(self).hash_base(),
            final(self).body_end() == old(self).body_end(),
            final(self).body_truncated() == old(self).body_truncated(),
            and_consume && r is Ok && r->Ok_0@.len() < amount ==> final(self).at_body_end() && final(self).stopped(),
            final(self).consumed_spec() == consumed_after(old(self).consumed_spec(), and_consume, r),
            read_outcome(
                old(self).rest(),
                old(self).ends_in_error(),
                amount as int,
                hard,
                and_consume,
                r,
                final(self).rest(),
            ),
    {
        if self.buffer.is_none() && (amount <= self.partial_body_length as usize || self.last) {
            self.direct_read(amount, hard, and_consume)
        } else {
            // The request crosses a chunk boundary, or the local buffer
            // is in use.
            self.buffered_read(amount, hard, and_consume)
        }
    }

    /// Returns the next `amount` bytes without consuming them, or all that
    /// are left where fewer are.  Fails where more are asked for than are
    /// left and the data ends inside a chunk length header.
    pub fn data(&mut self, amount: usize) -> (r: Result<Vec<u8>, ReadError>)
        requires
            old(self).wf(),
        ensures
            final(self).wf(),
            final(self).cookie_spec() == old(self).cookie_spec(),
            final(self).ends_in_error() == old(self).ends_in_error(),
            final(self).source().data_spec() == old(self).source().data_spec(),
            final(self).tracks_hash() == old(self).tracks_hash(),
            final(self).hash_base() == old(self).hash_base(),
            final(self).body_end() == old(self).body_end(),
            final(self).body_truncated() == old(self).body_truncated(),
            final(self).consumed_spec() == consumed_after(old(self).consumed_spec(), false, r),
            read_outcome(old(self).rest(), old(self).ends_in_error(), amount as int, false, false, r, final(self).rest()),
            final(self).source().pos_spec() <= final(self).body_end(),
    {
        let r = self.data_helper(amount, false, false);
        proof {
            self.position_within_body();
        }
        r
    }

    /// Returns the next `amount` bytes without consuming them; fails with
    /// `UnexpectedEof` where fewer are left.
    pub fn data_hard(&mut self, amount: usize) -> (r: Result<Vec<u8>, ReadError>)
        requires
            old(self).wf(),
        ensures
            final(self).wf(),
            final(self).cookie_spec() == old(self).cookie_spec(),
            final(self).ends_in_error() == old(self).ends_in_error(),
            final(self).source().data_spec() == old(self).source().data_spec(),
            final(self).tracks_hash() == old(self).tracks_hash(),
            final(self).hash_base() == old(self).hash_base(),
            final(self).body_end() == old(self).body_end(),
            final(self).body_truncated() == old(self).body_truncated(),
            final(self).consumed_spec() == consumed_after(old(self).consumed_spec(), false, r),
            read_outcome(old(self).rest(), old(self).ends_in_error(), amount as int, true, false, r, final(self).rest()),
            final(self).source().pos_spec() <= final(self).body_end(),
    {
        let r = self.data_helper(amount, true, false);
        proof {
            self.position_within_body();
        }
        r
    }

    /// Returns and consumes the next `amount` bytes, or all that are left
    /// where fewer are.
    pub fn data_consume(&mut self, amount: usize) -> (r: Result<Vec<u8>, ReadError>)
        requires
            old(self).wf(),
        ensures
            final(self).wf(),
            final(self).cookie_spec() == old(self).cookie_spec(),
            final(self).ends_in_error() == old(self).ends_in_error(),
            final(self).source().data_spec() == old(self).source().data_spec(),
            final(self).tracks_hash() == old(self).tracks_hash(),
            final(self).hash_base() == old(self).hash_base(),
            final(self).body_end() == old(self).body_end(),
            final(self).body_truncated() == old(self).body_truncated(),
            r is Ok && r->Ok_0@.len() < amount ==> final(self).at_body_end() && final(self).stopped(),
            final(self).consumed_spec() == consumed_after(old(self).consumed_spec(), true, r),
            read_outcome(old(self).rest(), old(self).ends_in_error(), amount as int, false, true, r, final(self).rest()),
            final(self).source().pos_spec() <= final(self).body_end(),
    {
        let r = self.data_helper(amount, false, true);
        proof {
            self.position_within_body();
        }
        r
    }

    /// Returns and consumes the next `amount` bytes; fails with
    /// `UnexpectedEof`, consuming nothing, where fewer are left.
    pub fn data_consume_hard(&mut self, amount: usize) -> (r: Result<Vec<u8>, ReadError>)
        requires
            old(self).wf(),
        ensures
            final(self).wf(),
            final(self).cookie_spec() == old(self).cookie_spec(),
            final(self).ends_in_error() == old(self).ends_in_error(),
            final(self).source().data_spec() == old(self).source().data_spec(),
            final(self).tracks_hash() == old(self).tracks_hash(),
            final(self).hash_base() == old(self).hash_base(),
            final(self).body_end() == old(self).body_end(),
            final(self).body_truncated() == old(self).body_truncated(),
            final(self).consumed_spec() == consumed_after(old(self).consumed_spec(), true, r),
            read_outcome(old(self).rest(), old(self).ends_in_error(), amount as int, true, true, r, final(self).rest()),
            final(self).source().pos_spec() <= final(self).body_end(),
    {
        let r = self.data_helper(amount, true, true);
        proof {
            self.position_within_body();
        }
        r
    }

    /// Consumes `amount` bytes, which must not exceed what is left, and
    /// returns them.
    pub fn consume(&mut self, amount: usize) -> (r: Vec<u8>)
        requires
            old(self).wf(),
            amount <= old(self).rest().len(),
        ensures
            final(self).wf(),
            final(self).cookie_spec() == old(self).cookie_spec(),
            final(self).ends_in_error() == old(self).ends_in_error(),
            final(self).source().data_spec() == old(self).source().data_spec(),
            final(self).tracks_hash() == old(self).tracks_hash(),
            final(self).hash_base() == old(self).hash_base(),
            final(self).body_end() == old(self).body_end(),
            final(self).body_truncated() == old(self).body_truncated(),
            final(self).consumed_spec() == old(self).consumed_spec() + r@,
            r@ == old(self).rest().subrange(0, amount as int),
            final(self).rest() == old(self).rest().subrange(amount as int, old(self).rest().len() as int),
    {
        match self.data_helper(amount, false, true) {
            Ok(v) => v,
            Err(_) => {
                proof {
                    assert(false);
                }
                Vec::new()
            },
        }
    }

    /// Reads the rest of the body one byte at a time.  Where the body is
    /// well formed this yields exactly the bytes that one read of its whole
    /// length yields; where the data ends inside a chunk length header it
    /// fails after consuming the bytes before that header.
    pub fn read_bytewise(&mut self) -> (r: Result<Vec<u8>, ReadError>)
        requires
            old(self).wf(),
        ensures
            final(self).wf(),
            final(self).rest().len() == 0,
            final(self).source().data_spec() == old(self).source().data_spec(),
            final(self).tracks_hash() == old(self).tracks_hash(),
            final(self).hash_base() == old(self).hash_base(),
            final(self).body_end() == old(self).body_end(),
            final(self).body_truncated() == old(self).body_truncated(),
            r is Ok ==> final(self).at_body_end() && final(self).stopped(),
            final(self).consumed_spec() == old(self).consumed_spec() + old(self).rest(),
            !old(self).ends_in_error() ==> r is Ok && r->Ok_0@ == old(self).rest(),
            old(self).ends_in_error() ==> r == Err::<Vec<u8>, ReadError>(ReadError::UnexpectedEof),
    {
        let ghost whole = self.rest();
        let ghost e = self.ends_in_error();
        let mut out: Vec<u8> = Vec::new();
        loop
            invariant
                self.wf(),
                whole == old(self).rest(),
                e == old(self).ends_in_error(),
                self.source().data_spec() == old(self).source().data_spec(),
                self.tracks_hash() == old(self).tracks_hash(),
                self.hash_base() == old(self).hash_base(),
                self.consumed_spec() == old(self).consumed_spec() + out@,
                self.body_end() == old(self).body_end(),
                self.body_truncated() == old(self).body_truncated(),
                out@ + self.rest() == whole,
                self.ends_in_error() == e,
            decreases self.rest().len(),
        {
            let ghost before = self.rest();
            match self.data_consume(1) {
                Ok(v) => {
                    if v.len() == 0 {
                        proof {
                            assert(before.len() == 0);
                            assert(!e);
                            assert(out@ =~= whole);
                        }
                        return Ok(out);
                    }
                    let ghost out0 = out@;
                    out.push(v[0]);
                    proof {
                        assert(v@ =~= before.subrange(0, 1));
                        assert(out@ + self.rest() =~= out0 + before);
                    }
                },
                Err(err) => {
                    return Err(err);
                },
            }
        }
    }

    /// Whether the body was cut short by the end of the data: once reading
    /// has stopped, the last chunk read still wants bytes.
    pub fn ended_short(&self) -> (r: bool)
        requires
            self.wf(),
            self.stopped(),
        ensures
            r == self.body_truncated(),
    {
        proof {
            self.reader.wf_bounds();
            lemma_chunked_rest_end(
                self.reader.data_spec(),
                self.reader.pos_spec(),
                self.partial_body_length as int,
                self.last,
            );
        }
        self.partial_body_length > 0
    }

    /// The underlying stream.
    pub fn get_ref(&self) -> (r: &ByteSource)
        ensures
            *r == self.source(),
    {
        &self.reader
    }

    /// The reader's own settings.
    pub fn cookie_ref(&self) -> (r: &Cookie)
        ensures
            *r == self.cookie_spec(),
    {
        &self.cookie
    }

    /// Replaces the reader's settings, returning the old ones.
    pub fn cookie_set(&mut self, cookie: Cookie) -> (r: Cookie)
        ensures
            r == old(self).cookie_spec(),
            final(self).cookie_spec() == cookie,
            final(self).rest() == old(self).rest(),
            final(self).ends_in_error() == old(self).ends_in_error(),
            final(self).wf() == old(self).wf(),
            final(self).source() == old(self).source(),
            final(self).tracks_hash() == old(self).tracks_hash(),
            final(self).hash_base() == old(self).hash_base(),
            final(self).body_end() == old(self).body_end(),
            final(self).body_truncated() == old(self).body_truncated(),
            final(self).consumed_spec() == old(self).consumed_spec(),
    {
        let r = self.cookie;
        self.cookie = cookie;
        r
    }

    /// Gives back the underlying stream.
    pub fn into_inner(self) -> (r: ByteSource)
        ensures
            r == self.source(),
            self.wf() ==> r.wf(),
    {
        self.reader
    }
}

} // verus!
