//! A whole packet stream held in memory, in depth-first order.
use vstd::prelude::*;
use crate::parser::{
    DEFAULT_MAX_RECURSION_DEPTH, PacketParser, PacketParserResult, Packet, ParseError, Tag,
    lemma_packet_end_after, lemma_top_live_view_facts, live_view, packet_at, packet_end,
    packets_from, plain_content, stepped_to, top_live_view,
};

verus! {

/// The packets of a stream in the order the parser met them, each with its
/// depth.
pub struct PacketPile {
    packets: Vec<Packet>,
    depths: Vec<usize>,
}

/// Each depth is at most one more than the one before, and the first is 0.
pub open spec fn steps_descend_by_one_at_most(d: Seq<usize>) -> bool {
    &&& d.len() > 0 ==> d[0] == 0
    &&& forall|i: int| 0 <= i < d.len() - 1 ==> #[trigger] d[i + 1] <= d[i] + 1
}

/// The packets agree with `ps`, tag and body, one for one.
pub open spec fn pile_matches(packets: Seq<Packet>, ps: Seq<(Tag, Seq<u8>)>) -> bool {
    &&& packets.len() == ps.len()
    &&& forall|i: int| 0 <= i < ps.len() ==> (#[trigger] packets[i]).tag == ps[i].0 && packets[i].body@ == ps[i].1
}

/// `done` followed by the packets that `rest` lists, or the error in
/// `rest`.
pub open spec fn after_done(
    done: Seq<(Tag, Seq<u8>)>,
    rest: Result<Seq<(Tag, Seq<u8>)>, ParseError>,
) -> Result<Seq<(Tag, Seq<u8>)>, ParseError> {
    match rest {
        Ok(ps) => Ok(done + ps),
        Err(e) => Err(e),
    }
}

/// No depth is greater than the one before.
pub open spec fn never_deeper(d: Seq<usize>) -> bool {
    forall|i: int| 0 <= i < d.len() - 1 ==> #[trigger] d[i + 1] <= d[i]
}

impl PacketPile {
    pub closed spec fn depths_spec(&self) -> Seq<usize> {
        self.depths@
    }

    pub closed spec fn packets_spec(&self) -> Seq<Packet> {
        self.packets@
    }

    pub closed spec fn len_spec(&self) -> int {
        self.packets@.len() as int
    }

    pub closed spec fn wf(&self) -> bool {
        self.packets@.len() == self.depths@.len()
    }

    /// Parses a whole stream depth first, descending into every container
    /// whose content is at hand, down to the default recursion limit: the
    /// packets that `walk` lists, each with its depth, or the first error.
    /// Along the result each packet is at most one level deeper than the
    /// one before it, and the first is at the top.
    pub fn from_bytes(data: Vec<u8>) -> (r: Result<PacketPile, ParseError>)
        ensures
            match walk(data@, DEFAULT_MAX_RECURSION_DEPTH as int) {
                Ok(ps) => {
                    &&& r is Ok
                    &&& r->Ok_0.wf()
                    &&& entries_match(r->Ok_0.packets_spec(), r->Ok_0.depths_spec(), ps)
                    &&& steps_descend_by_one_at_most(r->Ok_0.depths_spec())
                },
                Err(e) => r == Err::<PacketPile, ParseError>(e),
            },
    {
        let ghost max = DEFAULT_MAX_RECURSION_DEPTH as int;
        let ghost total = walk(data@, max);
        let ghost s0 = seq![(data@, 0int)];
        let mut packets: Vec<Packet> = Vec::new();
        let mut depths: Vec<usize> = Vec::new();
        let ghost mut done: Seq<(int, Tag, Seq<u8>)> = Seq::empty();
        let mut ppr = match PacketParser::from_bytes(data) {
            Ok(r) => r,
            Err(e) => {
                proof {
                    lemma_walk_error(s0, e, max);
                }
                return Err(e);
            },
        };
        proof {
            if ppr is Parser {
                let pp = ppr->Parser_0;
                lemma_walk_step(s0, pp, max);
                lemma_after_entries_empty(walk_stack(s0, max));
            } else {
                lemma_walk_end(s0, max);
            }
        }
        loop
            invariant
                s0 == seq![(data@, 0int)],
                total == walk_stack(s0, max),
                max == DEFAULT_MAX_RECURSION_DEPTH as int,
                packets@.len() == done.len(),
                depths@.len() == done.len(),
                entries_match(packets@, depths@, done),
                steps_descend_by_one_at_most(depths@),
                match ppr {
                    PacketParserResult::Parser(pp) => {
                        &&& pp.wf()
                        &&& pp.max_depth() == max
                        &&& pp.content_spec() == plain_content(pp.packet_spec().tag, pp.packet_spec().body@)
                        &&& !pp.content_read_spec()
                        &&& !pp.decrypted_spec()
                        &&& done.len() == 0 ==> pp.depth() == 0
                        &&& done.len() > 0 ==> pp.depth() <= depths@[done.len() - 1] + 1
                        &&& total == after_entries(done.push(entry_of(pp)), walk_stack(pp.next_stack(), max))
                    },
                    PacketParserResult::Eof(_) => total == Ok::<Seq<(int, Tag, Seq<u8>)>, ParseError>(done),
                },
            decreases
                match ppr {
                    PacketParserResult::Parser(pp) => stack_measure(pp.next_stack()) + 1,
                    PacketParserResult::Eof(_) => 0,
                },
        {
            match ppr {
                PacketParserResult::Eof(_) => {
                    return Ok(PacketPile { packets, depths });
                },
                PacketParserResult::Parser(pp) => {
                    let d = pp.recursion_depth();
                    let ghost stack = pp.next_stack();
                    let ghost e0 = entry_of(pp);
                    let ghost before = depths@;
                    match pp.recurse() {
                        Ok((packet, rest)) => {
                            packets.push(packet);
                            depths.push(d);
                            proof {
                                let old_done = done;
                                done = done.push(e0);
                                assert forall|i: int| 0 <= i < depths@.len() - 1 implies #[trigger] depths@[i + 1]
                                    <= depths@[i] + 1 by {
                                    if i + 1 < before.len() {
                                        assert(depths@[i + 1] == before[i + 1]);
                                        assert(depths@[i] == before[i]);
                                    }
                                }
                                assert forall|i: int| 0 <= i < done.len() implies #[trigger] entry_matches(
                                    packets@[i],
                                    depths@[i],
                                    done[i],
                                ) by {
                                    if i < old_done.len() {
                                        assert(entry_matches(packets@[i], depths@[i], old_done[i]));
                                    }
                                }
                                if rest is Parser {
                                    let pp2 = rest->Parser_0;
                                    lemma_walk_step(stack, pp2, max);
                                    lemma_after_entries_assoc(
                                        done,
                                        seq![entry_of(pp2)],
                                        walk_stack(pp2.next_stack(), max),
                                    );
                                    assert(done + seq![entry_of(pp2)] =~= done.push(entry_of(pp2)));
                                } else {
                                    lemma_walk_end(stack, max);
                                    assert(done + Seq::<(int, Tag, Seq<u8>)>::empty() =~= done);
                                }
                            }
                            ppr = rest;
                        },
                        Err(e) => {
                            proof {
                                lemma_walk_error(stack, e, max);
                            }
                            return Err(e);
                        },
                    }
                },
            }
        }
    }

    /// Parses the top level of a stream, never descending: the packets
    /// one after the other, each at depth 0.  Fails with the first packet
    /// that does not read.
    pub fn top_level_from_bytes(data: Vec<u8>) -> (r: Result<PacketPile, ParseError>)
        ensures
            match packets_from(data@, 0) {
                Ok(ps) => {
                    &&& r is Ok
                    &&& r->Ok_0.wf()
                    &&& pile_matches(r->Ok_0.packets_spec(), ps)
                    &&& forall|i: int| 0 <= i < ps.len() ==> #[trigger] r->Ok_0.depths_spec()[i] == 0
                    &&& never_deeper(r->Ok_0.depths_spec())
                },
                Err(e) => r == Err::<PacketPile, ParseError>(e),
            },
    {
        let ghost d = data@;
        let mut packets: Vec<Packet> = Vec::new();
        let mut depths: Vec<usize> = Vec::new();
        let ghost mut done: Seq<(Tag, Seq<u8>)> = Seq::empty();
        let ghost mut cur: int = 0;
        let mut ppr = match PacketParser::from_bytes(data) {
            Ok(r) => r,
            Err(e) => {
                proof {
                    lemma_packets_from_first_error(d, 0);
                }
                return Err(e);
            },
        };
        proof {
            let r0 = packets_from(d, 0);
            if r0 is Ok {
                assert(Seq::<(Tag, Seq<u8>)>::empty() + r0->Ok_0 =~= r0->Ok_0);
            }
            assert(after_done(done, r0) == r0);
            lemma_packets_from_end(d);
        }
        loop
            invariant
                d == data@,
                pile_matches(packets@, done),
                depths@.len() == packets@.len(),
                forall|i: int| 0 <= i < depths@.len() ==> #[trigger] depths@[i] == 0,
                match ppr {
                    PacketParserResult::Parser(pp) => {
                        &&& pp.wf()
                        &&& pp.levels_spec().len() == 1
                        &&& pp.levels_spec()[0].data_spec() == d
                        &&& 0 <= cur < d.len()
                        &&& packet_matches_at(pp.packet_spec(), d, cur)
                        &&& pp.levels_spec()[0].pos_spec() == packet_end(d, cur)
                        &&& packets_from(d, 0) == after_done(done, packets_from(d, cur))
                    },
                    PacketParserResult::Eof(_) => packets_from(d, 0) == Ok::<Seq<(Tag, Seq<u8>)>, ParseError>(done),
                },
            decreases d.len() - cur,
        {
            match ppr {
                PacketParserResult::Eof(_) => {
                    proof {
                        assert forall|i: int| 0 <= i < depths@.len() - 1 implies #[trigger] depths@[i + 1]
                            <= depths@[i] by {
                            assert(depths@[i + 1] == 0);
                        }
                    }
                    return Ok(PacketPile { packets, depths });
                },
                PacketParserResult::Parser(pp) => {
                    let ghost levels = pp.levels_spec();
                    let ghost cur_packet = pp.packet_spec();
                    proof {
                        lemma_packet_end_after(d, cur);
                        lemma_top_live_single(levels);
                    }
                    let step = pp.next();
                    match step {
                        Ok((packet, rest)) => {
                            let ghost next_pos = packet_end(d, cur);
                            let ghost entry = (packet.tag, packet.body@);
                            proof {
                                lemma_packets_from_step(d, cur);
                                assert(entry == packet_at(d, cur)->Ok_0);
                                lemma_after_done_assoc(done, seq![entry], packets_from(d, next_pos));
                                assert(done + seq![entry] =~= done.push(entry));
                            }
                            packets.push(packet);
                            depths.push(0);
                            proof {
                                done = done.push(entry);
                                if rest is Eof {
                                    assert(next_pos == d.len());
                                    lemma_packets_from_end(d);
                                    assert(done + Seq::<(Tag, Seq<u8>)>::empty() =~= done);
                                }
                                cur = next_pos;
                            }
                            ppr = rest;
                        },
                        Err(e) => {
                            proof {
                                let next_pos = packet_end(d, cur);
                                assert(levels[0].pos_spec() == next_pos);
                                lemma_packets_from_first_error(d, next_pos);
                                lemma_packets_from_step(d, cur);
                            }
                            return Err(e);
                        },
                    }
                },
            }
        }
    }

    /// The number of packets.
    pub fn len(&self) -> (r: usize)
        ensures
            r == self.len_spec(),
            r == self.packets_spec().len(),
    {
        self.packets.len()
    }

    /// The packet at `i`.
    pub fn packet(&self, i: usize) -> (r: &Packet)
        requires
            i < self.packets_spec().len(),
        ensures
            *r == self.packets_spec()[i as int],
    {
        &self.packets[i]
    }

    /// The depth of the packet at `i`.
    pub fn depth(&self, i: usize) -> (r: usize)
        requires
            self.wf(),
            i < self.len_spec(),
        ensures
            r == self.depths_spec()[i as int],
    {
        self.depths[i]
    }
}

/// The packet read agrees with the one at `pos` of `data`.
pub open spec fn packet_matches_at(p: Packet, data: Seq<u8>, pos: int) -> bool {
    packet_at(data, pos) is Ok && p.tag == packet_at(data, pos)->Ok_0.0 && p.body@ == packet_at(data, pos)->Ok_0.1
}

proof fn lemma_top_live_single(levels: Seq<crate::source::ByteSource>)
    requires
        levels.len() == 1,
    ensures
        crate::parser::top_live(levels) == if crate::parser::live(levels[0]) { 0int } else { -1int },
{
    assert(levels.drop_last() =~= Seq::<crate::source::ByteSource>::empty());
    assert(crate::parser::top_live(Seq::<crate::source::ByteSource>::empty()) == -1);
}

proof fn lemma_packets_from_first_error(data: Seq<u8>, pos: int)
    requires
        0 <= pos < data.len(),
        packet_at(data, pos) is Err,
    ensures
        packets_from(data, pos) == Err::<Seq<(Tag, Seq<u8>)>, ParseError>(packet_at(data, pos)->Err_0),
{
    reveal(packets_from);
}

proof fn lemma_packets_from_end(data: Seq<u8>)
    ensures
        packets_from(data, data.len() as int) == Ok::<Seq<(Tag, Seq<u8>)>, ParseError>(Seq::empty()),
{
    reveal(packets_from);
}

proof fn lemma_packets_from_step(data: Seq<u8>, pos: int)
    requires
        0 <= pos < data.len(),
        packet_at(data, pos) is Ok,
    ensures
        packets_from(data, pos) == after_done(
            seq![packet_at(data, pos)->Ok_0],
            packets_from(data, packet_end(data, pos)),
        ),
{
    reveal(packets_from);
    lemma_packet_end_after(data, pos);
}

proof fn lemma_after_done_assoc(
    a: Seq<(Tag, Seq<u8>)>,
    b: Seq<(Tag, Seq<u8>)>,
    r: Result<Seq<(Tag, Seq<u8>)>, ParseError>,
)
    ensures
        after_done(a, after_done(b, r)) == after_done(a + b, r),
{
    if r is Ok {
        assert(a + (b + r->Ok_0) =~= (a + b) + r->Ok_0);
    }
}

/// A packet of a walk: its depth, tag and body.
pub open spec fn entry_of(pp: PacketParser) -> (int, Tag, Seq<u8>) {
    (pp.depth(), pp.packet_spec().tag, pp.packet_spec().body@)
}

/// A packet and its depth agree with an entry of a walk.
pub open spec fn entry_matches(p: Packet, depth: usize, e: (int, Tag, Seq<u8>)) -> bool {
    depth as int == e.0 && p.tag == e.1 && p.body@ == e.2
}

/// The packets and depths agree with the entries `es`, one for one.
pub open spec fn entries_match(packets: Seq<Packet>, depths: Seq<usize>, es: Seq<(int, Tag, Seq<u8>)>) -> bool {
    &&& packets.len() == es.len()
    &&& depths.len() == es.len()
    &&& forall|i: int| 0 <= i < es.len() ==> #[trigger] entry_matches(packets[i], depths[i], es[i])
}

/// `done` followed by the entries that `rest` lists, or the error in `rest`.
pub open spec fn after_entries(
    done: Seq<(int, Tag, Seq<u8>)>,
    rest: Result<Seq<(int, Tag, Seq<u8>)>, ParseError>,
) -> Result<Seq<(int, Tag, Seq<u8>)>, ParseError> {
    match rest {
        Ok(es) => Ok(done + es),
        Err(e) => Err(e),
    }
}

/// The bytes that a stream, seen as bytes and position, has left.
pub open spec fn left(v: (Seq<u8>, int)) -> nat {
    if 0 <= v.1 < v.0.len() {
        (v.0.len() - v.1) as nat
    } else {
        0
    }
}

/// The bytes left in all streams of a stack.
pub open spec fn stack_measure(s: Seq<(Seq<u8>, int)>) -> nat
    decreases s.len(),
{
    if s.len() == 0 {
        0
    } else {
        stack_measure(s.drop_last()) + left(s.last())
    }
}

/// The stack after reading the packet `(t, b)` at level `d` of `s`: the
/// levels above `d` dropped, level `d` after the packet, and the packet's
/// content pushed where it is at hand and the limit `max` allows.
pub open spec fn after_step(s: Seq<(Seq<u8>, int)>, d: int, t: Tag, b: Seq<u8>, max: int) -> Seq<(Seq<u8>, int)> {
    let base = s.subrange(0, d).push((s[d].0, packet_end(s[d].0, s[d].1)));
    if d < max && plain_content(t, b) is Some {
        base.push((plain_content(t, b)->0, 0int))
    } else {
        base
    }
}

/// The packets of a stack of streams in depth-first order, each with its
/// depth: the packet at the deepest level with bytes left, then those that
/// follow from the stack after it; or the first error.
#[verifier::opaque]
pub open spec fn walk_stack(s: Seq<(Seq<u8>, int)>, max: int) -> Result<Seq<(int, Tag, Seq<u8>)>, ParseError>
    decreases stack_measure(s),
{
    let d = top_live_view(s);
    if d < 0 || d >= s.len() {
        Ok(Seq::empty())
    } else {
        match packet_at(s[d].0, s[d].1) {
            Err(e) => Err(e),
            Ok((t, b)) => {
                let n = after_step(s, d, t, b, max);
                if stack_measure(n) >= stack_measure(s) {
                    // Each step reads at least one byte more than it
                    // pushes.
                    Err(ParseError::MalformedEncoding)
                } else {
                    match walk_stack(n, max) {
                        Err(e) => Err(e),
                        Ok(rest) => Ok(seq![(d, t, b)] + rest),
                    }
                }
            },
        }
    }
}

/// The packets of `data` in depth-first order, each with its depth,
/// entering every container whose content is at hand while the depth is
/// below `max`; or the first error.
pub open spec fn walk(data: Seq<u8>, max: int) -> Result<Seq<(int, Tag, Seq<u8>)>, ParseError> {
    walk_stack(seq![(data, 0int)], max)
}

proof fn lemma_after_entries_empty(r: Result<Seq<(int, Tag, Seq<u8>)>, ParseError>)
    ensures
        after_entries(Seq::empty(), r) == r,
{
    if r is Ok {
        assert(Seq::<(int, Tag, Seq<u8>)>::empty() + r->Ok_0 =~= r->Ok_0);
    }
}

proof fn lemma_after_entries_assoc(
    a: Seq<(int, Tag, Seq<u8>)>,
    b: Seq<(int, Tag, Seq<u8>)>,
    r: Result<Seq<(int, Tag, Seq<u8>)>, ParseError>,
)
    ensures
        after_entries(a, after_entries(b, r)) == after_entries(a + b, r),
{
    if r is Ok {
        assert(a + (b + r->Ok_0) =~= (a + b) + r->Ok_0);
    }
}

proof fn lemma_measure_dead_tail(s: Seq<(Seq<u8>, int)>, k: int)
    requires
        0 <= k <= s.len(),
        forall|i: int| k <= i < s.len() ==> left(#[trigger] s[i]) == 0,
    ensures
        stack_measure(s) == stack_measure(s.subrange(0, k)),
    decreases s.len(),
{
    if s.len() > k {
        let t = s.drop_last();
        assert forall|i: int| k <= i < t.len() implies left(#[trigger] t[i]) == 0 by {
            assert(t[i] == s[i]);
        }
        lemma_measure_dead_tail(t, k);
        assert(t.subrange(0, k) =~= s.subrange(0, k));
    } else {
        assert(s.subrange(0, k) =~= s);
    }
}

proof fn lemma_step_measure(s: Seq<(Seq<u8>, int)>, max: int)
    requires
        0 <= top_live_view(s) < s.len(),
        packet_at(s[top_live_view(s)].0, s[top_live_view(s)].1) is Ok,
    ensures
        ({
            let d = top_live_view(s);
            let (t, b) = packet_at(s[d].0, s[d].1)->Ok_0;
            stack_measure(after_step(s, d, t, b, max)) < stack_measure(s)
        }),
{
    let d = top_live_view(s);
    let (t, b) = packet_at(s[d].0, s[d].1)->Ok_0;
    lemma_top_live_view_facts(s);
    lemma_packet_end_after(s[d].0, s[d].1);
    let end = packet_end(s[d].0, s[d].1);
    assert forall|i: int| d + 1 <= i < s.len() implies left(#[trigger] s[i]) == 0 by {
        assert(!live_view(s[i]));
    }
    lemma_measure_dead_tail(s, d + 1);
    let pre = s.subrange(0, d + 1);
    assert(pre.drop_last() =~= s.subrange(0, d));
    assert(pre.last() == s[d]);
    assert(0 <= s[d].1);
    assert(left(s[d]) == s[d].0.len() - s[d].1);
    assert(stack_measure(s) == stack_measure(s.subrange(0, d)) + s[d].0.len() - s[d].1);
    let base = s.subrange(0, d).push((s[d].0, end));
    assert(base.drop_last() =~= s.subrange(0, d));
    assert(left((s[d].0, end)) == s[d].0.len() - end);
    assert(stack_measure(base) == stack_measure(s.subrange(0, d)) + s[d].0.len() - end);
    if d < max && plain_content(t, b) is Some {
        let c = plain_content(t, b)->0;
        assert(c.len() == b.len() - 1);
        let n = base.push((c, 0int));
        assert(n.drop_last() =~= base);
        assert(left((c, 0int)) <= c.len());
        assert(stack_measure(n) == stack_measure(base) + left((c, 0int)));
    }
}

proof fn lemma_walk_end(s: Seq<(Seq<u8>, int)>, max: int)
    requires
        top_live_view(s) == -1,
    ensures
        walk_stack(s, max) == Ok::<Seq<(int, Tag, Seq<u8>)>, ParseError>(Seq::empty()),
{
    reveal(walk_stack);
}

proof fn lemma_walk_error(s: Seq<(Seq<u8>, int)>, e: ParseError, max: int)
    requires
        0 <= top_live_view(s) < s.len(),
        packet_at(s[top_live_view(s)].0, s[top_live_view(s)].1) == Err::<(Tag, Seq<u8>), ParseError>(e),
    ensures
        walk_stack(s, max) == Err::<Seq<(int, Tag, Seq<u8>)>, ParseError>(e),
{
    reveal(walk_stack);
}

proof fn lemma_walk_step(s: Seq<(Seq<u8>, int)>, pp: PacketParser, max: int)
    requires
        stepped_to(s, pp, max),
    ensures
        walk_stack(s, max) == after_entries(seq![entry_of(pp)], walk_stack(pp.next_stack(), max)),
        stack_measure(pp.next_stack()) < stack_measure(s),
{
    let d = top_live_view(s);
    let (t, b) = packet_at(s[d].0, s[d].1)->Ok_0;
    assert(t == pp.packet_spec().tag && b == pp.packet_spec().body@);
    assert(pp.next_stack() == after_step(s, d, t, b, max));
    lemma_step_measure(s, max);
    reveal(walk_stack);
}

} // verus!
