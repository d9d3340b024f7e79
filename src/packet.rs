//! Packet framing: tags, and the two length encodings.
use vstd::prelude::*;
use crate::source::{ByteSource, ReadError};

verus! {

/// How long a packet body is.
#[derive(PartialEq, Eq, Structural, Clone, Copy, Debug)]
pub enum BodyLength {
    /// The body has exactly this many bytes.
    Full(u32),
    /// The body starts with a chunk of this many bytes; a further length
    /// header follows it.
    Partial(u32),
    /// The body runs to the end of the enclosing data.
    Indeterminate,
}

/// The new-format length header at `i` in `data` and its size in bytes,
/// or `None` where the data ends inside it.
pub open spec fn new_length_at(data: Seq<u8>, i: int) -> Option<(BodyLength, int)> {
    if i < 0 || i >= data.len() {
        None
    } else {
        let o = data[i];
        if o < 192 {
            Some((BodyLength::Full(o as u32), 1))
        } else if o < 224 {
            if i + 1 >= data.len() {
                None
            } else {
                Some(
                    (
                        BodyLength::Full(((o - 192) * 256 + data[i + 1] + 192) as u32),
                        2,
                    ),
                )
            }
        } else if o < 255 {
            Some((BodyLength::Partial(1u32 << ((o - 224) as u32)), 1))
        } else if i + 4 >= data.len() {
            None
        } else {
            Some(
                (
                    BodyLength::Full(
                        (data[i + 1] * 0x100_0000 + data[i + 2] * 0x1_0000 + data[i + 3] * 0x100
                            + data[i + 4]) as u32,
                    ),
                    5,
                ),
            )
        }
    }
}

/// Reads a new-format length header.
///
/// On success the header's bytes are consumed; on failure the data ended
/// inside the header.
pub fn parse_new_format(src: &mut ByteSource) -> (r: Result<BodyLength, ReadError>)
    requires
        old(src).wf(),
    ensures
        final(src).wf(),
        final(src).data_spec() == old(src).data_spec(),
        final(src).hashing_spec() == old(src).hashing_spec(),
        final(src).cookie_spec() == old(src).cookie_spec(),
        match new_length_at(old(src).data_spec(), old(src).pos_spec()) {
            Some((len, n)) => r == Ok::<BodyLength, ReadError>(len)
                && final(src).pos_spec() == old(src).pos_spec() + n
                && final(src).hashed_spec() == (if old(src).hashing_spec() {
                    old(src).hashed_spec() + old(src).data_spec().subrange(
                        old(src).pos_spec(),
                        old(src).pos_spec() + n,
                    )
                } else {
                    old(src).hashed_spec()
                }),
            None => r == Err::<BodyLength, ReadError>(ReadError::UnexpectedEof)
                && final(src).pos_spec() == old(src).pos_spec()
                && final(src).hashed_spec() == old(src).hashed_spec(),
        },
{
    let avail = src.available();
    if avail == 0 {
        return Err(ReadError::UnexpectedEof);
    }
    let o = src.peek_at(0);
    let ghost d = src.data_spec();
    let ghost p = src.pos_spec();
    let ghost h = src.hashed_spec();
    if o < 192 {
        let _ = src.next_byte();
        proof {
            assert(d.subrange(p, p + 1) =~= seq![o]);
        }
        Ok(BodyLength::Full(o as u32))
    } else if o < 224 {
        if avail < 2 {
            return Err(ReadError::UnexpectedEof);
        }
        let o2 = src.peek_at(1);
        let _ = src.next_byte();
        let _ = src.next_byte();
        proof {
            assert(d.subrange(p, p + 2) =~= seq![o, o2]);
            assert(h.push(o).push(o2) =~= h + seq![o, o2]);
        }
        Ok(BodyLength::Full(((o as u32) - 192) * 256 + (o2 as u32) + 192))
    } else if o < 255 {
        let _ = src.next_byte();
        proof {
            assert(d.subrange(p, p + 1) =~= seq![o]);
        }
        Ok(BodyLength::Partial(1u32 << ((o - 224) as u32)))
    } else {
        if avail < 5 {
            return Err(ReadError::UnexpectedEof);
        }
        let b1 = src.peek_at(1);
        let b2 = src.peek_at(2);
        let b3 = src.peek_at(3);
        let b4 = src.peek_at(4);
        let mut tmp: Vec<u8> = Vec::new();
        src.consume_into(&mut tmp, 5);
        proof {
            assert(d.subrange(p, p + 5) =~= seq![o, b1, b2, b3, b4]);
        }
        Ok(BodyLength::Full(
            (b1 as u32) * 0x100_0000 + (b2 as u32) * 0x1_0000 + (b3 as u32) * 0x100 + (b4 as u32),
        ))
    }
}

} // verus!
