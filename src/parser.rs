//! The recursive packet parser: packets in depth-first order, descending
//! into containers on request.
//!
//! A parser stands at one packet.  Advancing consumes the parser and hands
//! back one for the following packet, so that no stale position can be
//! used.  `next` never descends, so the depth never grows; `recurse`
//! descends into a container whose content is at hand, by one level.
use vstd::prelude::*;
use crate::packet::{BodyLength, new_length_at, parse_new_format};
use crate::partial_body::{
    BufferedReaderPartialBodyFilter, chunked_end, chunked_rest, chunked_truncated, copy_range,
    lemma_chunked_end_after, lemma_chunked_rest_len,
};
use crate::source::{ByteSource, Cookie, ReadError};

verus! {

/// Why parsing failed.
#[derive(PartialEq, Eq, Structural, Clone, Copy, Debug)]
pub enum ParseError {
    /// The data ended inside a header or a body.
    UnexpectedEof,
    /// A packet header is malformed.
    MalformedEncoding,
    /// The operation does not apply to the current packet.
    InvalidOperation,
}

/// The packet types, by tag number.
#[derive(PartialEq, Eq, Structural, Clone, Copy, Debug)]
pub enum Tag {
    Reserved,
    PKESK,
    Signature,
    SKESK,
    OnePassSig,
    SecretKey,
    PublicKey,
    SecretSubkey,
    CompressedData,
    SED,
    Marker,
    Literal,
    Trust,
    UserID,
    PublicSubkey,
    UserAttribute,
    SEIP,
    MDC,
    AED,
    /// One of the tags 60 to 63, reserved for private use.
    Private(u8),
    /// Any other tag.
    Unknown(u8),
}

/// The packet type that a tag number denotes.
pub open spec fn tag_of(u: u8) -> Tag {
    if u == 0 { Tag::Reserved }
    else if u == 1 { Tag::PKESK }
    else if u == 2 { Tag::Signature }
    else if u == 3 { Tag::SKESK }
    else if u == 4 { Tag::OnePassSig }
    else if u == 5 { Tag::SecretKey }
    else if u == 6 { Tag::PublicKey }
    else if u == 7 { Tag::SecretSubkey }
    else if u == 8 { Tag::CompressedData }
    else if u == 9 { Tag::SED }
    else if u == 10 { Tag::Marker }
    else if u == 11 { Tag::Literal }
    else if u == 12 { Tag::Trust }
    else if u == 13 { Tag::UserID }
    else if u == 14 { Tag::PublicSubkey }
    else if u == 17 { Tag::UserAttribute }
    else if u == 18 { Tag::SEIP }
    else if u == 19 { Tag::MDC }
    else if u == 20 { Tag::AED }
    else if 60 <= u <= 63 { Tag::Private(u) }
    else { Tag::Unknown(u) }
}

/// The number of a packet type.
pub open spec fn tag_code(t: Tag) -> u8 {
    match t {
        Tag::Reserved => 0,
        Tag::PKESK => 1,
        Tag::Signature => 2,
        Tag::SKESK => 3,
        Tag::OnePassSig => 4,
        Tag::SecretKey => 5,
        Tag::PublicKey => 6,
        Tag::SecretSubkey => 7,
        Tag::CompressedData => 8,
        Tag::SED => 9,
        Tag::Marker => 10,
        Tag::Literal => 11,
        Tag::Trust => 12,
        Tag::UserID => 13,
        Tag::PublicSubkey => 14,
        Tag::UserAttribute => 17,
        Tag::SEIP => 18,
        Tag::MDC => 19,
        Tag::AED => 20,
        Tag::Private(u) => u,
        Tag::Unknown(u) => u,
    }
}

/// Whether packets of this type hold encrypted packets.
pub open spec fn is_encrypted_container(t: Tag) -> bool {
    t == Tag::SED || t == Tag::SEIP || t == Tag::AED
}

impl Tag {
    /// Decodes a tag number.
    pub fn from_u8(u: u8) -> (r: Tag)
        ensures
            r == tag_of(u),
    {
        match u {
            0 => Tag::Reserved,
            1 => Tag::PKESK,
            2 => Tag::Signature,
            3 => Tag::SKESK,
            4 => Tag::OnePassSig,
            5 => Tag::SecretKey,
            6 => Tag::PublicKey,
            7 => Tag::SecretSubkey,
            8 => Tag::CompressedData,
            9 => Tag::SED,
            10 => Tag::Marker,
            11 => Tag::Literal,
            12 => Tag::Trust,
            13 => Tag::UserID,
            14 => Tag::PublicSubkey,
            17 => Tag::UserAttribute,
            18 => Tag::SEIP,
            19 => Tag::MDC,
            20 => Tag::AED,
            60u8..=63u8 => Tag::Private(u),
            _ => Tag::Unknown(u),
        }
    }

    /// Encodes the packet type as its number.
    pub fn to_u8(&self) -> (r: u8)
        ensures
            r == tag_code(*self),
    {
        match *self {
            Tag::Reserved => 0,
            Tag::PKESK => 1,
            Tag::Signature => 2,
            Tag::SKESK => 3,
            Tag::OnePassSig => 4,
            Tag::SecretKey => 5,
            Tag::PublicKey => 6,
            Tag::SecretSubkey => 7,
            Tag::CompressedData => 8,
            Tag::SED => 9,
            Tag::Marker => 10,
            Tag::Literal => 11,
            Tag::Trust => 12,
            Tag::UserID => 13,
            Tag::PublicSubkey => 14,
            Tag::UserAttribute => 17,
            Tag::SEIP => 18,
            Tag::MDC => 19,
            Tag::AED => 20,
            Tag::Private(u) => u,
            Tag::Unknown(u) => u,
        }
    }
}

/// Decoding a tag number and encoding the result gives the number back.
pub proof fn tag_code_round_trip(u: u8)
    ensures
        tag_code(tag_of(u)) == u,
{
}

/// An old-format length of type `lt` whose bytes start at `i`, and their
/// count.
pub open spec fn old_length_at(data: Seq<u8>, i: int, lt: int) -> Option<(BodyLength, int)> {
    if lt == 3 {
        Some((BodyLength::Indeterminate, 0))
    } else if lt == 0 {
        if i + 1 > data.len() {
            None
        } else {
            Some((BodyLength::Full(data[i] as u32), 1))
        }
    } else if lt == 1 {
        if i + 2 > data.len() {
            None
        } else {
            Some((BodyLength::Full((data[i] * 0x100 + data[i + 1]) as u32), 2))
        }
    } else if i + 4 > data.len() {
        None
    } else {
        Some(
            (
                BodyLength::Full(
                    (data[i] * 0x100_0000 + data[i + 1] * 0x1_0000 + data[i + 2] * 0x100 + data[i
                        + 3]) as u32,
                ),
                4,
            ),
        )
    }
}

/// The packet header at `pos`: the tag number, the body length, and where
/// the body starts.  The first byte has its top bit set; with the next bit
/// set it is a new-format header whose low six bits are the tag, else an
/// old-format one with the tag in bits 2 to 5 and the length type in bits
/// 0 and 1.
pub open spec fn header_at(data: Seq<u8>, pos: int) -> Result<(u8, BodyLength, int), ParseError> {
    if pos < 0 || pos >= data.len() {
        Err(ParseError::UnexpectedEof)
    } else {
        let ctb = data[pos];
        if ctb < 128 {
            Err(ParseError::MalformedEncoding)
        } else if ctb >= 192 {
            match new_length_at(data, pos + 1) {
                None => Err(ParseError::UnexpectedEof),
                Some((len, n)) => Ok(((ctb - 192) as u8, len, pos + 1 + n)),
            }
        } else {
            match old_length_at(data, pos + 1, (ctb % 4) as int) {
                None => Err(ParseError::UnexpectedEof),
                Some((len, n)) => Ok((((ctb - 128) / 4) as u8, len, pos + 1 + n)),
            }
        }
    }
}

/// The body of length `len` that starts at `start`.  A body must be there
/// whole: neither a full-length body nor a chunk may be cut short, nor may
/// a chunk length header.
pub open spec fn body_at(data: Seq<u8>, start: int, len: BodyLength) -> Result<Seq<u8>, ParseError> {
    match len {
        BodyLength::Full(n) => if start + n <= data.len() {
            Ok(data.subrange(start, start + n))
        } else {
            Err(ParseError::UnexpectedEof)
        },
        BodyLength::Indeterminate => Ok(data.subrange(start, data.len() as int)),
        BodyLength::Partial(n) => {
            let (b, e) = chunked_rest(data, start, n as int, false);
            if e || chunked_truncated(data, start, n as int, false) {
                Err(ParseError::UnexpectedEof)
            } else {
                Ok(b)
            }
        },
    }
}

/// One packet: its type and its raw body.
#[derive(Debug, Clone)]
pub struct Packet {
    pub tag: Tag,
    pub body: Vec<u8>,
}

/// The packet that starts at `pos`, as the tag and the body bytes.
pub open spec fn packet_at(data: Seq<u8>, pos: int) -> Result<(Tag, Seq<u8>), ParseError> {
    match header_at(data, pos) {
        Err(e) => Err(e),
        Ok((t, len, start)) => match body_at(data, start, len) {
            Err(e) => Err(e),
            Ok(b) => Ok((tag_of(t), b)),
        },
    }
}

/// Where the packet that starts at `pos` ends.
pub open spec fn packet_end(data: Seq<u8>, pos: int) -> int {
    match header_at(data, pos) {
        Err(_) => pos,
        Ok((_, len, start)) => match len {
            BodyLength::Full(n) => start + n,
            BodyLength::Indeterminate => data.len() as int,
            BodyLength::Partial(n) => chunked_end(data, start, n as int, false),
        },
    }
}

/// A packet that reads ends after where it starts, within the data, and
/// its body is shorter than the bytes it spans.
pub proof fn lemma_packet_end_after(data: Seq<u8>, pos: int)
    requires
        packet_at(data, pos) is Ok,
    ensures
        pos < packet_end(data, pos) <= data.len(),
        packet_at(data, pos)->Ok_0.1.len() < packet_end(data, pos) - pos,
{
    match header_at(data, pos) {
        Err(_) => {},
        Ok((_, len, start)) => {
            assert(pos < start <= data.len());
            match len {
                BodyLength::Partial(n) => {
                    lemma_chunked_end_after(data, start, n as int, false);
                    lemma_chunked_rest_len(data, start, n as int, false);
                },
                _ => {},
            }
        },
    }
}

/// The packets of `data` from `pos` on, one after the other without
/// descending, as tags and bodies; or the first error.
#[verifier::opaque]
pub open spec fn packets_from(data: Seq<u8>, pos: int) -> Result<Seq<(Tag, Seq<u8>)>, ParseError>
    decreases data.len() - pos,
{
    if pos < 0 || pos >= data.len() {
        Ok(Seq::empty())
    } else {
        match packet_at(data, pos) {
            Err(e) => Err(e),
            Ok(p) => {
                let end = packet_end(data, pos);
                if end <= pos || end > data.len() {
                    // A packet always ends after it starts, within the
                    // data.
                    Err(ParseError::MalformedEncoding)
                } else {
                    match packets_from(data, end) {
                        Err(e) => Err(e),
                        Ok(rest) => Ok(seq![p] + rest),
                    }
                }
            },
        }
    }
}

/// What reading a packet returned agrees with `packet_at`.
pub open spec fn packet_matches(r: Result<Packet, ParseError>, expected: Result<(Tag, Seq<u8>), ParseError>) -> bool {
    match expected {
        Err(e) => r == Err::<Packet, ParseError>(e),
        Ok((t, b)) => r is Ok && r->Ok_0.tag == t && r->Ok_0.body@ == b,
    }
}

fn read_old_length(src: &mut ByteSource, lt: u8) -> (r: Option<BodyLength>)
    requires
        old(src).wf(),
        lt < 4,
    ensures
        final(src).wf(),
        final(src).data_spec() == old(src).data_spec(),
        final(src).cookie_spec() == old(src).cookie_spec(),
        match old_length_at(old(src).data_spec(), old(src).pos_spec(), lt as int) {
            None => r is None,
            Some((len, n)) => r == Some(len) && final(src).pos_spec() == old(src).pos_spec() + n,
        },
{
    let avail = src.available();
    let mut tmp: Vec<u8> = Vec::new();
    if lt == 3 {
        Some(BodyLength::Indeterminate)
    } else if lt == 0 {
        if avail < 1 {
            return None;
        }
        let b = src.next_byte();
        Some(BodyLength::Full(b as u32))
    } else if lt == 1 {
        if avail < 2 {
            return None;
        }
        let b1 = src.peek_at(0);
        let b2 = src.peek_at(1);
        src.consume_into(&mut tmp, 2);
        Some(BodyLength::Full((b1 as u32) * 0x100 + (b2 as u32)))
    } else {
        if avail < 4 {
            return None;
        }
        let b1 = src.peek_at(0);
        let b2 = src.peek_at(1);
        let b3 = src.peek_at(2);
        let b4 = src.peek_at(3);
        src.consume_into(&mut tmp, 4);
        Some(BodyLength::Full((b1 as u32) * 0x100_0000 + (b2 as u32) * 0x1_0000 + (b3 as u32) * 0x100 + (b4 as u32)))
    }
}

/// Reads a packet header: the tag number and the body length.
pub fn read_header(src: &mut ByteSource) -> (r: Result<(u8, BodyLength), ParseError>)
    requires
        old(src).wf(),
    ensures
        final(src).wf(),
        final(src).data_spec() == old(src).data_spec(),
        final(src).cookie_spec() == old(src).cookie_spec(),
        match header_at(old(src).data_spec(), old(src).pos_spec()) {
            Err(e) => r == Err::<(u8, BodyLength), ParseError>(e),
            Ok((t, len, start)) => r == Ok::<(u8, BodyLength), ParseError>((t, len))
                && final(src).pos_spec() == start,
        },
{
    let avail = src.available();
    if avail == 0 {
        return Err(ParseError::UnexpectedEof);
    }
    let ctb = src.next_byte();
    if ctb < 128 {
        return Err(ParseError::MalformedEncoding);
    }
    if ctb >= 192 {
        match parse_new_format(src) {
            Ok(len) => Ok((ctb - 192, len)),
            Err(_) => Err(ParseError::UnexpectedEof),
        }
    } else {
        match read_old_length(src, ctb % 4) {
            Some(len) => Ok(((ctb - 128) / 4, len)),
            None => Err(ParseError::UnexpectedEof),
        }
    }
}

/// Reads the packet at the stream's position, header and body.
pub fn read_packet(src: ByteSource) -> (r: (ByteSource, Result<Packet, ParseError>))
    requires
        src.wf(),
    ensures
        r.0.wf(),
        r.0.data_spec() == src.data_spec(),
        packet_matches(r.1, packet_at(src.data_spec(), src.pos_spec())),
        r.1 is Ok ==> r.0.pos_spec() == packet_end(src.data_spec(), src.pos_spec()),
{
    let mut src = src;
    let cookie = *src.cookie_ref();
    match read_header(&mut src) {
        Err(e) => (src, Err(e)),
        Ok((t, len)) => {
            let tag = Tag::from_u8(t);
            proof {
                src.wf_bounds();
            }
            match len {
                BodyLength::Full(n) => {
                    let avail = src.available();
                    if (n as usize) > avail {
                        (src, Err(ParseError::UnexpectedEof))
                    } else {
                        let mut body: Vec<u8> = Vec::new();
                        src.consume_into(&mut body, n as usize);
                        (src, Ok(Packet { tag, body }))
                    }
                },
                BodyLength::Indeterminate => {
                    let avail = src.available();
                    let mut body: Vec<u8> = Vec::new();
                    src.consume_into(&mut body, avail);
                    (src, Ok(Packet { tag, body }))
                },
                BodyLength::Partial(n) => {
                    let mut filter = BufferedReaderPartialBodyFilter::with_cookie(src, n, false, cookie);
                    let body = filter.read_bytewise();
                    let short = match body {
                        Ok(_) => filter.ended_short(),
                        Err(_) => true,
                    };
                    let src = filter.into_inner();
                    match body {
                        Ok(body) => if short {
                            (src, Err(ParseError::UnexpectedEof))
                        } else {
                            (src, Ok(Packet { tag, body }))
                        },
                        Err(_) => (src, Err(ParseError::UnexpectedEof)),
                    }
                },
            }
        },
    }
}

/// How deep the parser descends into containers unless told otherwise.
pub const DEFAULT_MAX_RECURSION_DEPTH: usize = 16;

/// Whether a stream has bytes left.
pub open spec fn live(s: ByteSource) -> bool {
    s.pos_spec() < s.data_spec().len()
}

/// The deepest level of a stack of streams that has bytes left, or -1
/// where none has.
pub open spec fn top_live(levels: Seq<ByteSource>) -> int
    decreases levels.len(),
{
    if levels.len() == 0 {
        -1
    } else if live(levels.last()) {
        levels.len() - 1
    } else {
        top_live(levels.drop_last())
    }
}

proof fn lemma_top_live_bounds(levels: Seq<ByteSource>)
    ensures
        -1 <= top_live(levels) < levels.len(),
        top_live(levels) >= 0 ==> live(levels[top_live(levels)]),
    decreases levels.len(),
{
    if levels.len() > 0 && !live(levels.last()) {
        lemma_top_live_bounds(levels.drop_last());
    }
}

/// `after` is the stack of streams `before` once the packet at level `d` has
/// been read: the levels above `d` are dropped, those below are as they
/// were, and the stream at `d` stands at the end of that packet.
pub open spec fn advanced(before: Seq<ByteSource>, after: Seq<ByteSource>, d: int) -> bool {
    &&& 0 <= d < before.len()
    &&& after.len() == d + 1
    &&& forall|i: int| 0 <= i < d ==> #[trigger] after[i] == before[i]
    &&& after[d].data_spec() == before[d].data_spec()
    &&& after[d].pos_spec() == packet_end(before[d].data_spec(), before[d].pos_spec())
}

/// A stream seen as its bytes and its read position.
pub open spec fn views(levels: Seq<ByteSource>) -> Seq<(Seq<u8>, int)> {
    Seq::new(levels.len(), |i: int| (levels[i].data_spec(), levels[i].pos_spec()))
}

/// Whether a stream, seen as bytes and position, has bytes left.
pub open spec fn live_view(v: (Seq<u8>, int)) -> bool {
    v.1 < v.0.len()
}

/// The deepest level of a stack of streams that has bytes left, or -1
/// where none has.
pub open spec fn top_live_view(s: Seq<(Seq<u8>, int)>) -> int
    decreases s.len(),
{
    if s.len() == 0 {
        -1
    } else if live_view(s.last()) {
        s.len() - 1
    } else {
        top_live_view(s.drop_last())
    }
}

proof fn lemma_top_live_views(levels: Seq<ByteSource>)
    ensures
        top_live(levels) == top_live_view(views(levels)),
    decreases levels.len(),
{
    if levels.len() > 0 {
        assert(views(levels).drop_last() =~= views(levels.drop_last()));
        assert(views(levels).last() == (levels.last().data_spec(), levels.last().pos_spec()));
        lemma_top_live_views(levels.drop_last());
    }
}

/// The deepest live level has bytes left, and none deeper has.
pub proof fn lemma_top_live_view_facts(s: Seq<(Seq<u8>, int)>)
    ensures
        -1 <= top_live_view(s) < s.len(),
        top_live_view(s) >= 0 ==> live_view(s[top_live_view(s)]),
        forall|i: int| top_live_view(s) < i < s.len() ==> !live_view(#[trigger] s[i]),
    decreases s.len(),
{
    if s.len() > 0 && !live_view(s.last()) {
        lemma_top_live_view_facts(s.drop_last());
        assert forall|i: int| top_live_view(s) < i < s.len() implies !live_view(#[trigger] s[i]) by {
            if i < s.len() - 1 {
                assert(s[i] == s.drop_last()[i]);
            }
        }
    }
}

/// `pp` is the parser that reading the next packet of the stack `s`
/// gives: the packet at the deepest level with bytes left, which then
/// stands after that packet, the levels above it dropped; its content is
/// what the packet holds in plain, unread and not decrypted.
pub open spec fn stepped_to(s: Seq<(Seq<u8>, int)>, pp: PacketParser, max: int) -> bool {
    let d = top_live_view(s);
    &&& 0 <= d < s.len()
    &&& pp.wf()
    &&& pp.depth() == d
    &&& pp.max_depth() == max
    &&& packet_matches(Ok(pp.packet_spec()), packet_at(s[d].0, s[d].1))
    &&& views(pp.levels_spec()) == s.subrange(0, d).push((s[d].0, packet_end(s[d].0, s[d].1)))
    &&& pp.content_spec() == plain_content(pp.packet_spec().tag, pp.packet_spec().body@)
    &&& !pp.content_read_spec()
    &&& !pp.decrypted_spec()
}

/// What reading the next packet of the stack `s` gives: a parser at it,
/// the end where no level has bytes left, or the error of that packet.
pub open spec fn step_outcome(s: Seq<(Seq<u8>, int)>, r: Result<PacketParserResult, ParseError>, max: int) -> bool {
    match r {
        Ok(PacketParserResult::Parser(pp)) => stepped_to(s, pp, max),
        Ok(PacketParserResult::Eof(_)) => top_live_view(s) == -1,
        Err(e) => {
            let d = top_live_view(s);
            &&& 0 <= d < s.len()
            &&& packet_at(s[d].0, s[d].1) == Err::<(Tag, Seq<u8>), ParseError>(e)
        },
    }
}

/// What `next` or `recurse` returned, without the finished packet.
pub open spec fn following(r: Result<(Packet, PacketParserResult), ParseError>) -> Result<PacketParserResult, ParseError> {
    match r {
        Ok((_, res)) => Ok(res),
        Err(e) => Err(e),
    }
}

/// The packet stream that a container holds, where it is at hand without
/// decryption: the content of a compressed data packet stored without
/// compression (algorithm 0).
pub open spec fn plain_content(tag: Tag, body: Seq<u8>) -> Option<Seq<u8>> {
    if tag == Tag::CompressedData && body.len() >= 1 && body[0] == 0 {
        Some(body.subrange(1, body.len() as int))
    } else {
        None
    }
}

/// The end of a packet stream.
pub struct PacketParserEOF {
    last_recursion_depth: usize,
}

impl PacketParserEOF {
    pub closed spec fn last_depth(&self) -> int {
        self.last_recursion_depth as int
    }

    /// The depth of the last packet before the end.
    pub fn last_recursion_depth(&self) -> (r: usize)
        ensures
            r == self.last_depth(),
    {
        self.last_recursion_depth
    }
}

/// A parser standing at a packet, or the end of the stream.
pub enum PacketParserResult {
    Parser(PacketParser),
    Eof(PacketParserEOF),
}

/// A parser standing at one packet of a stream.
pub struct PacketParser {
    // The streams being read, outermost first; the current packet was read
    // from the last one.
    levels: Vec<ByteSource>,
    // The current packet.
    packet: Packet,
    // The packets inside the current packet, where they are at hand.
    content: Option<Vec<u8>>,
    // Whether the current packet's content was taken or finished.
    content_read: bool,
    // Whether the current packet was decrypted.
    decrypted: bool,
    // How deep the parser may descend.
    max_recursion_depth: usize,
}

impl PacketParser {
    pub closed spec fn wf(&self) -> bool {
        &&& self.levels@.len() >= 1
        &&& forall|i: int| 0 <= i < self.levels@.len() ==> (#[trigger] self.levels@[i]).wf()
    }

    /// The streams being read, outermost first.
    pub closed spec fn levels_spec(&self) -> Seq<ByteSource> {
        self.levels@
    }

    /// The current packet's depth: 0 at the top level, one more inside
    /// each enclosing container.
    pub closed spec fn depth(&self) -> int {
        self.levels@.len() - 1
    }

    /// The current packet.
    pub closed spec fn packet_spec(&self) -> Packet {
        self.packet
    }

    /// The packets inside the current packet, where they are at hand.
    pub closed spec fn content_spec(&self) -> Option<Seq<u8>> {
        match self.content {
            Some(c) => Some(c@),
            None => None,
        }
    }

    /// Whether the current packet's content was taken or finished.
    pub closed spec fn content_read_spec(&self) -> bool {
        self.content_read
    }

    /// Whether the current packet was decrypted.
    pub closed spec fn decrypted_spec(&self) -> bool {
        self.decrypted
    }

    /// How deep the parser may descend.
    pub closed spec fn max_depth(&self) -> int {
        self.max_recursion_depth as int
    }

    // Reads the next packet from the deepest stream that has bytes left,
    // dropping the exhausted streams above it.
    fn advance(stack: Vec<ByteSource>, max_recursion_depth: usize) -> (r: Result<PacketParserResult, ParseError>)
        requires
            forall|i: int| 0 <= i < stack@.len() ==> (#[trigger] stack@[i]).wf(),
        ensures
            ({
                let d = top_live(stack@);
                match r {
                    Ok(PacketParserResult::Parser(pp)) => {
                        &&& d >= 0
                        &&& pp.wf()
                        &&& pp.depth() == d
                        &&& pp.max_depth() == max_recursion_depth
                        &&& !pp.content_read_spec()
                        &&& !pp.decrypted_spec()
                        &&& packet_matches(Ok(pp.packet_spec()), packet_at(stack@[d].data_spec(), stack@[d].pos_spec()))
                        &&& pp.content_spec() == plain_content(pp.packet_spec().tag, pp.packet_spec().body@)
                        &&& advanced(stack@, pp.levels_spec(), d)
                    },
                    Ok(PacketParserResult::Eof(e)) => d == -1 && e.last_depth() == 0,
                    Err(e) => d >= 0 && packet_at(stack@[d].data_spec(), stack@[d].pos_spec()) == Err::<(Tag, Seq<u8>), ParseError>(e),
                }
            }),
            step_outcome(views(stack@), r, max_recursion_depth as int),
    {
        proof {
            lemma_top_live_views(stack@);
            lemma_top_live_bounds(stack@);
        }
        let ghost orig = stack@;
        let mut levels = stack;
        while levels.len() > 0
            invariant
                stack@ == orig,
                top_live(orig) == top_live_view(views(orig)),
                levels@.len() <= orig.len(),
                levels@ == orig.subrange(0, levels@.len() as int),
                top_live(levels@) == top_live(orig),
                forall|i: int| 0 <= i < levels@.len() ==> (#[trigger] levels@[i]).wf(),
            decreases levels@.len(),
        {
            let ghost before = levels@;
            let top = match levels.pop() {
                Option::Some(t) => t,
                Option::None => {
                    proof {
                        assert(false);
                    }
                    return Err(ParseError::InvalidOperation);
                },
            };
            proof {
                assert(before.last() == top);
                assert(levels@ == before.drop_last());
                assert(top.wf());
            }
            if top.available() > 0 {
                let ghost d = levels@.len() as int;
                assert(top_live(before) == d);
                assert(orig[d] == top);
                let (src, res) = read_packet(top);
                levels.push(src);
                match res {
                    Ok(packet) => {
                        let content = container_content(&packet);
                        let pp = PacketParser {
                            levels,
                            packet,
                            content,
                            content_read: false,
                            decrypted: false,
                            max_recursion_depth,
                        };
                        proof {
                            assert(views(pp.levels@) =~= views(orig).subrange(0, d).push(
                                (orig[d].data_spec(), packet_end(orig[d].data_spec(), orig[d].pos_spec())),
                            ));
                        }
                        return Ok(PacketParserResult::Parser(pp));
                    },
                    Err(e) => {
                        return Err(e);
                    },
                }
            }
            proof {
                assert(levels@ =~= orig.subrange(0, levels@.len() as int));
            }
        }
        proof {
            assert(levels@.len() == 0);
        }
        Ok(PacketParserResult::Eof(PacketParserEOF { last_recursion_depth: 0 }))
    }

    /// Starts parsing `data`, descending at most `max_recursion_depth`
    /// levels.  Empty data is at its end at once.
    pub fn from_bytes_with_depth(data: Vec<u8>, max_recursion_depth: usize) -> (r: Result<PacketParserResult, ParseError>)
        ensures
            match r {
                Ok(PacketParserResult::Parser(pp)) => {
                    &&& data@.len() > 0
                    &&& pp.wf()
                    &&& pp.depth() == 0
                    &&& pp.max_depth() == max_recursion_depth
                    &&& packet_matches(Ok(pp.packet_spec()), packet_at(data@, 0))
                    &&& pp.levels_spec().len() == 1
                    &&& pp.levels_spec()[0].data_spec() == data@
                    &&& pp.levels_spec()[0].pos_spec() == packet_end(data@, 0)
                },
                Ok(PacketParserResult::Eof(e)) => data@.len() == 0 && e.last_depth() == 0,
                Err(e) => data@.len() > 0 && packet_at(data@, 0) == Err::<(Tag, Seq<u8>), ParseError>(e),
            },
            step_outcome(seq![(data@, 0int)], r, max_recursion_depth as int),
    {
        let ghost bytes = data@;
        let src = ByteSource::new(data, Cookie { level: Option::None });
        let mut stack: Vec<ByteSource> = Vec::new();
        stack.push(src);
        proof {
            assert(stack@.len() == 1 && stack@[0] == src && stack@.last() == src);
            assert(stack@.drop_last() =~= Seq::<ByteSource>::empty());
            assert(top_live(Seq::<ByteSource>::empty()) == -1);
            assert(top_live(stack@) == if bytes.len() > 0 { 0int } else { -1int });
            assert(views(stack@) =~= seq![(bytes, 0int)]);
        }
        Self::advance(stack, max_recursion_depth)
    }

    /// Starts parsing `data` with the default recursion limit.
    pub fn from_bytes(data: Vec<u8>) -> (r: Result<PacketParserResult, ParseError>)
        ensures
            match r {
                Ok(PacketParserResult::Parser(pp)) => {
                    &&& data@.len() > 0
                    &&& pp.wf()
                    &&& pp.depth() == 0
                    &&& pp.max_depth() == DEFAULT_MAX_RECURSION_DEPTH
                    &&& packet_matches(Ok(pp.packet_spec()), packet_at(data@, 0))
                    &&& pp.levels_spec().len() == 1
                    &&& pp.levels_spec()[0].data_spec() == data@
                    &&& pp.levels_spec()[0].pos_spec() == packet_end(data@, 0)
                },
                Ok(PacketParserResult::Eof(e)) => data@.len() == 0 && e.last_depth() == 0,
                Err(e) => data@.len() > 0 && packet_at(data@, 0) == Err::<(Tag, Seq<u8>), ParseError>(e),
            },
            step_outcome(seq![(data@, 0int)], r, DEFAULT_MAX_RECURSION_DEPTH as int),
    {
        Self::from_bytes_with_depth(data, DEFAULT_MAX_RECURSION_DEPTH)
    }

    /// The current packet's depth.
    pub fn recursion_depth(&self) -> (r: usize)
        requires
            self.wf(),
        ensures
            r == self.depth(),
    {
        self.levels.len() - 1
    }

    /// The current packet.
    pub fn packet(&self) -> (r: &Packet)
        ensures
            *r == self.packet_spec(),
    {
        &self.packet
    }

    /// Finishes the current packet, dropping any content not yet read, so
    /// that the parser no longer descends into it; returns the packet.
    pub fn finish(&mut self) -> (r: &Packet)
        ensures
            *r == old(self).packet_spec(),
            final(self).packet_spec() == old(self).packet_spec(),
            final(self).levels_spec() == old(self).levels_spec(),
            final(self).content_spec() == old(self).content_spec(),
            final(self).decrypted_spec() == old(self).decrypted_spec(),
            final(self).max_depth() == old(self).max_depth(),
            final(self).content_read_spec(),
    {
        self.content_read = true;
        &self.packet
    }

    /// Takes the current packet's body into memory and returns it.  The
    /// parser no longer descends into the packet afterwards.
    pub fn buffer_unread_content(&mut self) -> (r: Vec<u8>)
        ensures
            r@ == old(self).packet_spec().body@,
            final(self).packet_spec() == old(self).packet_spec(),
            final(self).levels_spec() == old(self).levels_spec(),
            final(self).content_spec() == old(self).content_spec(),
            final(self).decrypted_spec() == old(self).decrypted_spec(),
            final(self).max_depth() == old(self).max_depth(),
            final(self).content_read_spec(),
    {
        self.content_read = true;
        copy_range(&self.packet.body, 0, self.packet.body.len())
    }

    /// Decrypts the current packet: `plaintext` is its content as the
    /// session key deciphers it, the packets that it encrypts.  Applies
    /// only to an encrypted container that was neither decrypted nor read;
    /// else fails with `InvalidOperation` and changes nothing.
    pub fn decrypt(&mut self, plaintext: Vec<u8>) -> (r: Result<(), ParseError>)
        ensures
            final(self).packet_spec() == old(self).packet_spec(),
            final(self).levels_spec() == old(self).levels_spec(),
            final(self).max_depth() == old(self).max_depth(),
            final(self).content_read_spec() == old(self).content_read_spec(),
            (r is Ok) == (is_encrypted_container(old(self).packet_spec().tag)
                && !old(self).content_read_spec() && !old(self).decrypted_spec()),
            r is Ok ==> final(self).content_spec() == Some(plaintext@) && final(self).decrypted_spec(),
            r is Err ==> r == Err::<(), ParseError>(ParseError::InvalidOperation)
                && final(self).content_spec() == old(self).content_spec()
                && final(self).decrypted_spec() == old(self).decrypted_spec(),
    {
        let t = self.packet.tag;
        let encrypted = t == Tag::SED || t == Tag::SEIP || t == Tag::AED;
        if !encrypted || self.content_read || self.decrypted {
            return Err(ParseError::InvalidOperation);
        }
        self.content = Some(plaintext);
        self.decrypted = true;
        Ok(())
    }

    /// Hands the parser the content of the current compressed data packet,
    /// `content`, as a compression algorithm's decoder gives it: the
    /// packets that it compresses.  Applies only to a compressed data packet
    /// whose content is not at hand already (it is not stored uncompressed)
    /// and was not read; else fails with `InvalidOperation` and changes
    /// nothing.
    pub fn decompress(&mut self, content: Vec<u8>) -> (r: Result<(), ParseError>)
        ensures
            final(self).packet_spec() == old(self).packet_spec(),
            final(self).levels_spec() == old(self).levels_spec(),
            final(self).max_depth() == old(self).max_depth(),
            final(self).content_read_spec() == old(self).content_read_spec(),
            final(self).decrypted_spec() == old(self).decrypted_spec(),
            (r is Ok) == (old(self).packet_spec().tag == Tag::CompressedData && !old(self).content_read_spec()
                && old(self).content_spec() is None),
            r is Ok ==> final(self).content_spec() == Some(content@),
            r is Err ==> r == Err::<(), ParseError>(ParseError::InvalidOperation) && final(self).content_spec()
                == old(self).content_spec(),
    {
        if self.packet.tag != Tag::CompressedData || self.content_read || self.content.is_some() {
            return Err(ParseError::InvalidOperation);
        }
        self.content = Some(content);
        Ok(())
    }

    /// Finishes the current packet and moves to the following one without
    /// descending into the current packet.  Exhausted containers are left
    /// behind, so the depth never grows.
    pub fn next(self) -> (r: Result<(Packet, PacketParserResult), ParseError>)
        requires
            self.wf(),
        ensures
            ({
                let d = top_live(self.levels_spec());
                match r {
                    Ok((p, PacketParserResult::Parser(pp))) => {
                        &&& p == self.packet_spec()
                        &&& pp.wf()
                        &&& 0 <= pp.depth() <= self.depth()
                        &&& pp.depth() == d
                        &&& pp.max_depth() == self.max_depth()
                        &&& packet_matches(
                            Ok(pp.packet_spec()),
                            packet_at(self.levels_spec()[d].data_spec(), self.levels_spec()[d].pos_spec()),
                        )
                        &&& advanced(self.levels_spec(), pp.levels_spec(), d)
                    },
                    Ok((p, PacketParserResult::Eof(e))) => {
                        &&& p == self.packet_spec()
                        &&& d == -1
                        &&& e.last_depth() == self.depth()
                    },
                    Err(e) => d >= 0 && packet_at(
                        self.levels_spec()[d].data_spec(),
                        self.levels_spec()[d].pos_spec(),
                    ) == Err::<(Tag, Seq<u8>), ParseError>(e),
                }
            }),
            step_outcome(views(self.levels_spec()), following(r), self.max_depth()),
    {
        proof {
            lemma_top_live_bounds(self.levels@);
        }
        let depth = self.levels.len() - 1;
        let PacketParser { levels, packet, content, content_read, decrypted, max_recursion_depth } = self;
        match Self::advance(levels, max_recursion_depth) {
            Ok(PacketParserResult::Parser(pp)) => Ok((packet, PacketParserResult::Parser(pp))),
            Ok(PacketParserResult::Eof(_)) => Ok(
                (packet, PacketParserResult::Eof(PacketParserEOF { last_recursion_depth: depth })),
            ),
            Err(e) => Err(e),
        }
    }

    /// Whether `recurse` descends into the current packet: its content is
    /// at hand and unread, and the recursion limit allows one more level.
    pub open spec fn descends(&self) -> bool {
        &&& self.depth() < self.max_depth()
        &&& !self.content_read_spec()
        &&& self.content_spec() is Some
    }

    /// The stack of streams that the parser goes on from: its streams,
    /// and the current packet's content where `recurse` descends into it.
    pub open spec fn next_stack(&self) -> Seq<(Seq<u8>, int)> {
        if self.descends() {
            views(self.levels_spec()).push((self.content_spec()->0, 0int))
        } else {
            views(self.levels_spec())
        }
    }

    /// Like `next`, but descends into the current packet where `descends`
    /// holds: the following packet is then the container's first child,
    /// one level deeper.  The depth grows by one at most.
    pub fn recurse(self) -> (r: Result<(Packet, PacketParserResult), ParseError>)
        requires
            self.wf(),
        ensures
            match r {
                Ok((p, PacketParserResult::Parser(pp))) => {
                    &&& p == self.packet_spec()
                    &&& pp.wf()
                    &&& 0 <= pp.depth() <= self.depth() + 1
                    &&& pp.max_depth() == self.max_depth()
                    &&& (self.descends() && self.content_spec()->0.len() > 0) ==> {
                        let c = self.content_spec()->0;
                        let d = self.depth() + 1;
                        &&& pp.depth() == d
                        &&& packet_matches(Ok(pp.packet_spec()), packet_at(c, 0))
                        &&& pp.levels_spec().len() == d + 1
                        &&& forall|i: int| 0 <= i < d ==> #[trigger] pp.levels_spec()[i] == self.levels_spec()[i]
                        &&& pp.levels_spec()[d].data_spec() == c
                        &&& pp.levels_spec()[d].pos_spec() == packet_end(c, 0)
                    }
                    &&& !self.descends() ==> {
                        let d = top_live(self.levels_spec());
                        &&& pp.depth() == d
                        &&& packet_matches(
                            Ok(pp.packet_spec()),
                            packet_at(self.levels_spec()[d].data_spec(), self.levels_spec()[d].pos_spec()),
                        )
                        &&& advanced(self.levels_spec(), pp.levels_spec(), d)
                    }
                },
                Ok((p, PacketParserResult::Eof(e))) => {
                    &&& p == self.packet_spec()
                    &&& e.last_depth() == self.depth()
                    &&& !(self.descends() && self.content_spec()->0.len() > 0)
                },
                Err(e) => (self.descends() && self.content_spec()->0.len() > 0) ==> packet_at(
                    self.content_spec()->0,
                    0,
                ) == Err::<(Tag, Seq<u8>), ParseError>(e),
            },
            step_outcome(self.next_stack(), following(r), self.max_depth()),
    {
        let depth = self.levels.len() - 1;
        let can_descend = depth < self.max_recursion_depth && !self.content_read && self.content.is_some();
        if !can_descend {
            return self.next();
        }
        proof {
            lemma_top_live_bounds(self.levels@);
        }
        let PacketParser { levels, packet, content, content_read, decrypted, max_recursion_depth } = self;
        let mut stack = levels;
        let inner = match content {
            Option::Some(c) => c,
            Option::None => Vec::new(),
        };
        let ghost before = stack@;
        stack.push(ByteSource::new(inner, Cookie { level: Option::None }));
        proof {
            assert(stack@.drop_last() =~= before);
            lemma_top_live_bounds(before);
            assert(views(stack@) =~= views(before).push((inner@, 0int)));
        }
        match Self::advance(stack, max_recursion_depth) {
            Ok(PacketParserResult::Parser(pp)) => Ok((packet, PacketParserResult::Parser(pp))),
            Ok(PacketParserResult::Eof(_)) => Ok(
                (packet, PacketParserResult::Eof(PacketParserEOF { last_recursion_depth: depth })),
            ),
            Err(e) => Err(e),
        }
    }
}

/// The packet stream inside a container, where it is at hand.
fn container_content(packet: &Packet) -> (r: Option<Vec<u8>>)
    ensures
        match r {
            Some(c) => plain_content(packet.tag, packet.body@) == Some(c@),
            None => plain_content(packet.tag, packet.body@) is None,
        },
{
    if packet.tag == Tag::CompressedData && packet.body.len() >= 1 && packet.body[0] == 0 {
        Some(copy_range(&packet.body, 1, packet.body.len() - 1))
    } else {
        None
    }
}

} // verus!
