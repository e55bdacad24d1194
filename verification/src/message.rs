//! The framed messages of the peer wire protocol.
//!
//! A frame is a four-byte big-endian length followed by that many payload
//! bytes; the first payload byte names the message.
use crate::bits::{bitfield_bytes, max_bits, msb0_bits, Bitfield};
use crate::error::Error;
use vstd::prelude::*;

verus! {

/// A message of the peer wire protocol.
#[derive(Debug)]
pub enum Msg {
    /// choke: `<len=0001><id=0>`
    Choke,
    /// unchoke: `<len=0001><id=1>`
    Unchoke,
    /// interested: `<len=0001><id=2>`
    Interested,
    /// not interested: `<len=0001><id=3>`
    NotInterested,
    /// have: `<len=0005><id=4><piece index>`
    Have(u32),
    /// bitfield: `<len=0001+X><id=5><bitfield>`
    Bitfield(Bitfield),
    /// request: `<len=0013><id=6><index><begin><length>`
    Request { index: u32, begin: u32, length: u32 },
    /// piece: `<len=0009+X><id=7><index><begin><block>`
    Piece { index: u32, begin: u32, block: Vec<u8> },
    /// cancel: `<len=0013><id=8><index><begin><length>`
    Cancel { index: u32, begin: u32, length: u32 },
}

/// A message as a mathematical value. A bitfield is both the bits it holds
/// and the bytes that back them: the bits are what the picker reads, the
/// bytes are what goes on the wire.
pub enum MsgView {
    Choke,
    Unchoke,
    Interested,
    NotInterested,
    Have(u32),
    Bitfield { bits: Seq<bool>, bytes: Seq<u8> },
    Request { index: u32, begin: u32, length: u32 },
    Piece { index: u32, begin: u32, block: Seq<u8> },
    Cancel { index: u32, begin: u32, length: u32 },
}

impl View for Msg {
    type V = MsgView;

    open spec fn view(&self) -> MsgView {
        match *self {
            Msg::Choke => MsgView::Choke,
            Msg::Unchoke => MsgView::Unchoke,
            Msg::Interested => MsgView::Interested,
            Msg::NotInterested => MsgView::NotInterested,
            Msg::Have(index) => MsgView::Have(index),
            Msg::Bitfield(b) => MsgView::Bitfield { bits: b@, bytes: bitfield_bytes(b) },
            Msg::Request { index, begin, length } => MsgView::Request { index, begin, length },
            Msg::Piece { index, begin, block } => MsgView::Piece { index, begin, block: block@ },
            Msg::Cancel { index, begin, length } => MsgView::Cancel { index, begin, length },
        }
    }
}

/// The four bytes of `x`, most significant first.
pub open spec fn be32(x: u32) -> Seq<u8> {
    seq![
        (x / 0x100_0000) as u8,
        (x / 0x1_0000 % 256) as u8,
        (x / 0x100 % 256) as u8,
        (x % 256) as u8,
    ]
}

/// The number whose big-endian bytes are `b0 b1 b2 b3`.
pub open spec fn from_be32(b0: u8, b1: u8, b2: u8, b3: u8) -> u32 {
    (b0 as int * 0x100_0000 + b1 as int * 0x1_0000 + b2 as int * 0x100 + b3 as int) as u32
}

/// The big-endian number in the four bytes of `s` that start at `at`.
pub open spec fn be32_at(s: Seq<u8>, at: int) -> u32 {
    from_be32(s[at], s[at + 1], s[at + 2], s[at + 3])
}

impl MsgView {
    /// The message's identifier byte.
    pub open spec fn id(self) -> u8 {
        match self {
            MsgView::Choke => 0,
            MsgView::Unchoke => 1,
            MsgView::Interested => 2,
            MsgView::NotInterested => 3,
            MsgView::Have(_) => 4,
            MsgView::Bitfield { .. } => 5,
            MsgView::Request { .. } => 6,
            MsgView::Piece { .. } => 7,
            MsgView::Cancel { .. } => 8,
        }
    }

    /// What follows the identifier in the payload.
    pub open spec fn body(self) -> Seq<u8> {
        match self {
            MsgView::Have(index) => be32(index),
            MsgView::Bitfield { bits, bytes } => bytes,
            MsgView::Request { index, begin, length } => be32(index) + be32(begin) + be32(length),
            MsgView::Piece { index, begin, block } => be32(index) + be32(begin) + block,
            MsgView::Cancel { index, begin, length } => be32(index) + be32(begin) + be32(length),
            _ => Seq::<u8>::empty(),
        }
    }

    /// The payload: the identifier, then the body.
    pub open spec fn payload(self) -> Seq<u8> {
        seq![self.id()] + self.body()
    }

    /// Whether the payload's length can be written in the four-byte prefix.
    pub open spec fn fits_frame(self) -> bool {
        self.payload().len() <= u32::MAX
    }

    /// The whole frame: the payload's length, big-endian, then the payload.
    pub open spec fn frame(self) -> Seq<u8> {
        be32(self.payload().len() as u32) + self.payload()
    }

    /// Whether a bitfield is as one that came off the wire: its bits are
    /// exactly those of its bytes, and its bytes are few enough for a bit
    /// vector. It fails, for one, of a bitfield whose bit count is no
    /// multiple of eight. Every other message is in wire form.
    pub open spec fn wire_form(self) -> bool {
        match self {
            MsgView::Bitfield { bits, bytes } => {
                &&& bits == msb0_bits(bytes)
                &&& bytes.len() * 8 <= max_bits()
            },
            _ => true,
        }
    }

    /// A bitfield with its bits read again from its bytes; any other message
    /// as it is.
    pub open spec fn normalized(self) -> MsgView {
        match self {
            MsgView::Bitfield { bits, bytes } => MsgView::Bitfield { bits: msb0_bits(bytes), bytes },
            _ => self,
        }
    }
}

/// What a payload decodes to.
///
/// The empty payload and a payload that ends inside an integer field are
/// truncated; a first byte above 8 is an invalid identifier. Bytes after the
/// last field of a fixed-size message are ignored.
pub open spec fn parse_spec(p: Seq<u8>) -> Result<MsgView, Error> {
    if p.len() == 0 {
        Err(Error::TruncatedMessage)
    } else if p[0] == 0 {
        Ok(MsgView::Choke)
    } else if p[0] == 1 {
        Ok(MsgView::Unchoke)
    } else if p[0] == 2 {
        Ok(MsgView::Interested)
    } else if p[0] == 3 {
        Ok(MsgView::NotInterested)
    } else if p[0] == 4 {
        if p.len() < 5 {
            Err(Error::TruncatedMessage)
        } else {
            Ok(MsgView::Have(be32_at(p, 1)))
        }
    } else if p[0] == 5 {
        if (p.len() - 1) * 8 > max_bits() {
            Err(Error::OversizedBitfield)
        } else {
            Ok(MsgView::Bitfield { bits: msb0_bits(p.skip(1)), bytes: p.skip(1) })
        }
    } else if p[0] == 6 {
        if p.len() < 13 {
            Err(Error::TruncatedMessage)
        } else {
            Ok(
                MsgView::Request {
                    index: be32_at(p, 1),
                    begin: be32_at(p, 5),
                    length: be32_at(p, 9),
                },
            )
        }
    } else if p[0] == 7 {
        if p.len() < 9 {
            Err(Error::TruncatedMessage)
        } else {
            Ok(MsgView::Piece { index: be32_at(p, 1), begin: be32_at(p, 5), block: p.skip(9) })
        }
    } else if p[0] == 8 {
        if p.len() < 13 {
            Err(Error::TruncatedMessage)
        } else {
            Ok(
                MsgView::Cancel {
                    index: be32_at(p, 1),
                    begin: be32_at(p, 5),
                    length: be32_at(p, 9),
                },
            )
        }
    } else {
        Err(Error::InvalidMessageId)
    }
}

/// Reads the big-endian number at `at`.
pub fn read_be32(p: &[u8], at: usize) -> (x: u32)
    requires
        at + 4 <= p@.len(),
    ensures
        x == be32_at(p@, at as int),
{
    let _n: usize = p.len();
    let b0: u32 = p[at] as u32;
    let b1: u32 = p[at + 1] as u32;
    let b2: u32 = p[at + 2] as u32;
    let b3: u32 = p[at + 3] as u32;
    b0 * 0x100_0000 + b1 * 0x1_0000 + b2 * 0x100 + b3
}

/// Appends the big-endian bytes of `x`.
fn push_be32(buf: &mut Vec<u8>, x: u32)
    ensures
        final(buf)@ == old(buf)@ + be32(x),
{
    buf.push((x / 0x100_0000) as u8);
    buf.push((x / 0x1_0000 % 256) as u8);
    buf.push((x / 0x100 % 256) as u8);
    buf.push((x % 256) as u8);
    assert(buf@ =~= old(buf)@ + be32(x));
}

/// The bytes of `p` from `start` on.
fn tail_of(p: &Vec<u8>, start: usize) -> (t: Vec<u8>)
    requires
        start <= p@.len(),
    ensures
        t@ == p@.skip(start as int),
{
    let mut t: Vec<u8> = Vec::new();
    let mut i: usize = start;
    while i < p.len()
        invariant
            start <= i <= p@.len(),
            t@ == p@.subrange(start as int, i as int),
        decreases p@.len() - i,
    {
        t.push(p[i]);
        i += 1;
        assert(t@ =~= p@.subrange(start as int, i as int));
    }
    assert(t@ =~= p@.skip(start as int));
    t
}

impl Msg {
    /// Decodes the payload of one frame (the bytes after the length prefix).
    pub fn parse(payload: Vec<u8>) -> (r: Result<Msg, Error>)
        ensures
            match r {
                Ok(m) => parse_spec(payload@) == Ok::<MsgView, Error>(m@),
                Err(e) => parse_spec(payload@) == Err::<MsgView, Error>(e),
            },
    {
        if payload.len() == 0 {
            return Err(Error::TruncatedMessage);
        }
        let id: u8 = payload[0];
        if id == 0 {
            Ok(Msg::Choke)
        } else if id == 1 {
            Ok(Msg::Unchoke)
        } else if id == 2 {
            Ok(Msg::Interested)
        } else if id == 3 {
            Ok(Msg::NotInterested)
        } else if id == 4 {
            if payload.len() < 5 {
                return Err(Error::TruncatedMessage);
            }
            Ok(Msg::Have(read_be32(payload.as_slice(), 1)))
        } else if id == 5 {
            let bytes = tail_of(&payload, 1);
            match Bitfield::from_bytes(bytes) {
                Some(b) => Ok(Msg::Bitfield(b)),
                None => Err(Error::OversizedBitfield),
            }
        } else if id == 6 {
            if payload.len() < 13 {
                return Err(Error::TruncatedMessage);
            }
            Ok(
                Msg::Request {
                    index: read_be32(payload.as_slice(), 1),
                    begin: read_be32(payload.as_slice(), 5),
                    length: read_be32(payload.as_slice(), 9),
                },
            )
        } else if id == 7 {
            if payload.len() < 9 {
                return Err(Error::TruncatedMessage);
            }
            Ok(
                Msg::Piece {
                    index: read_be32(payload.as_slice(), 1),
                    begin: read_be32(payload.as_slice(), 5),
                    block: tail_of(&payload, 9),
                },
            )
        } else if id == 8 {
            if payload.len() < 13 {
                return Err(Error::TruncatedMessage);
            }
            Ok(
                Msg::Cancel {
                    index: read_be32(payload.as_slice(), 1),
                    begin: read_be32(payload.as_slice(), 5),
                    length: read_be32(payload.as_slice(), 9),
                },
            )
        } else {
            Err(Error::InvalidMessageId)
        }
    }

    /// Consumes the message and returns its frame; `None` for a message
    /// whose payload is too long for the four-byte length prefix.
    pub fn encode(self) -> (r: Option<Vec<u8>>)
        ensures
            r is Some <==> self@.fits_frame(),
            r is Some ==> r->0@ == self@.frame(),
    {
        let ghost view = self@;
        let mut buf: Vec<u8> = Vec::new();
        match self {
            Msg::Choke => {
                push_be32(&mut buf, 1);
                buf.push(0);
            },
            Msg::Unchoke => {
                push_be32(&mut buf, 1);
                buf.push(1);
            },
            Msg::Interested => {
                push_be32(&mut buf, 1);
                buf.push(2);
            },
            Msg::NotInterested => {
                push_be32(&mut buf, 1);
                buf.push(3);
            },
            Msg::Have(index) => {
                assert(view.payload().len() == 5);
                push_be32(&mut buf, 5);
                buf.push(4);
                push_be32(&mut buf, index);
            },
            Msg::Bitfield(bitfield) => {
                let bytes = bitfield.into_bytes();
                assert(view.payload().len() == 1 + bytes@.len());
                if bytes.len() > 0xffff_fffe {
                    return None;
                }
                let len: u32 = 1 + bytes.len() as u32;
                push_be32(&mut buf, len);
                buf.push(5);
                buf.extend_from_slice(bytes.as_slice());
            },
            Msg::Request { index, begin, length } => {
                assert(view.payload().len() == 13);
                push_be32(&mut buf, 13);
                buf.push(6);
                push_be32(&mut buf, index);
                push_be32(&mut buf, begin);
                push_be32(&mut buf, length);
            },
            Msg::Piece { index, begin, block } => {
                assert(view.payload().len() == 9 + block@.len());
                if block.len() > 0xffff_fff6 {
                    return None;
                }
                let len: u32 = 9 + block.len() as u32;
                push_be32(&mut buf, len);
                buf.push(7);
                push_be32(&mut buf, index);
                push_be32(&mut buf, begin);
                buf.extend_from_slice(block.as_slice());
            },
            Msg::Cancel { index, begin, length } => {
                assert(view.payload().len() == 13);
                push_be32(&mut buf, 13);
                buf.push(8);
                push_be32(&mut buf, index);
                push_be32(&mut buf, begin);
                push_be32(&mut buf, length);
            },
        }
        assert(buf@ =~= view.frame());
        Some(buf)
    }

    /// Consumes the message and returns its frame.
    ///
    /// A frame's length prefix has four bytes, so the payload must fit in a
    /// `u32`.
    pub fn get_message(self) -> (frame: Vec<u8>)
        requires
            self@.fits_frame(),
        ensures
            frame@ == self@.frame(),
    {
        self.encode().unwrap()
    }
}

/// Four big-endian bytes decode to the number they encode.
pub proof fn lemma_be32_round_trip(x: u32)
    ensures
        be32(x).len() == 4,
        be32_at(be32(x), 0) == x,
{
}

/// Reading a number at `at` sees only the four bytes there.
proof fn lemma_be32_at(s: Seq<u8>, at: int, x: u32)
    requires
        0 <= at,
        at + 4 <= s.len(),
        s.subrange(at, at + 4) == be32(x),
    ensures
        be32_at(s, at) == x,
{
    let t = s.subrange(at, at + 4);
    assert(s[at] == t[0]);
    assert(s[at + 1] == t[1]);
    assert(s[at + 2] == t[2]);
    assert(s[at + 3] == t[3]);
    lemma_be32_round_trip(x);
}

/// The payload of a message of one number: the identifier, then the number.
proof fn lemma_one_field(id: u8, a: u32)
    ensures
        (seq![id] + be32(a)).len() == 5,
        (seq![id] + be32(a))[0] == id,
        be32_at(seq![id] + be32(a), 1) == a,
{
    let p = seq![id] + be32(a);
    assert(p.subrange(1, 5) =~= be32(a));
    lemma_be32_at(p, 1, a);
}

/// The payload of a message of two numbers and a byte string.
proof fn lemma_two_fields(id: u8, a: u32, b: u32, rest: Seq<u8>)
    ensures
        (seq![id] + be32(a) + be32(b) + rest).len() == 9 + rest.len(),
        (seq![id] + be32(a) + be32(b) + rest)[0] == id,
        be32_at(seq![id] + be32(a) + be32(b) + rest, 1) == a,
        be32_at(seq![id] + be32(a) + be32(b) + rest, 5) == b,
        (seq![id] + be32(a) + be32(b) + rest).skip(9) == rest,
{
    let p = seq![id] + be32(a) + be32(b) + rest;
    assert(p.subrange(1, 5) =~= be32(a));
    assert(p.subrange(5, 9) =~= be32(b));
    assert(p.skip(9) =~= rest);
    lemma_be32_at(p, 1, a);
    lemma_be32_at(p, 5, b);
}

/// The payload of a message of three numbers.
proof fn lemma_three_fields(id: u8, a: u32, b: u32, c: u32)
    ensures
        (seq![id] + (be32(a) + be32(b) + be32(c))).len() == 13,
        (seq![id] + (be32(a) + be32(b) + be32(c)))[0] == id,
        be32_at(seq![id] + (be32(a) + be32(b) + be32(c)), 1) == a,
        be32_at(seq![id] + (be32(a) + be32(b) + be32(c)), 5) == b,
        be32_at(seq![id] + (be32(a) + be32(b) + be32(c)), 9) == c,
{
    let p = seq![id] + (be32(a) + be32(b) + be32(c));
    assert(p.subrange(1, 5) =~= be32(a));
    assert(p.subrange(5, 9) =~= be32(b));
    assert(p.subrange(9, 13) =~= be32(c));
    lemma_be32_at(p, 1, a);
    lemma_be32_at(p, 5, b);
    lemma_be32_at(p, 9, c);
}

/// A frame is the payload's length and then the payload.
pub proof fn lemma_frame_shape(m: MsgView)
    requires
        m.fits_frame(),
    ensures
        m.frame().len() == 4 + m.payload().len(),
        be32_at(m.frame(), 0) as int == m.payload().len(),
        m.frame().skip(4) == m.payload(),
        m.payload().len() >= 1,
        m.payload()[0] == m.id(),
{
    let n = m.payload().len() as u32;
    assert(m.frame().subrange(0, 4) =~= be32(n));
    lemma_be32_at(m.frame(), 0, n);
    assert(m.frame().skip(4) =~= m.payload());
}

/// Decoding inverts encoding: the payload of a message in wire form decodes
/// to that message.
pub proof fn lemma_parse_inverts_encode(m: MsgView)
    requires
        m.wire_form(),
    ensures
        parse_spec(m.payload()) == Ok::<MsgView, Error>(m),
{
    match m {
        MsgView::Have(index) => {
            lemma_one_field(4, index);
        },
        MsgView::Bitfield { bits, bytes } => {
            assert(m.payload().skip(1) =~= bytes);
        },
        MsgView::Request { index, begin, length } => {
            lemma_three_fields(6, index, begin, length);
        },
        MsgView::Piece { index, begin, block } => {
            lemma_two_fields(7, index, begin, block);
            assert(m.payload() =~= seq![7u8] + be32(index) + be32(begin) + block);
        },
        MsgView::Cancel { index, begin, length } => {
            lemma_three_fields(8, index, begin, length);
        },
        _ => {},
    }
}

/// Decoding the payload of any message's frame gives the message with its
/// bitfield, if it is one, read again from its bytes.
pub proof fn lemma_parse_of_frame(m: MsgView)
    requires
        m.fits_frame(),
        m.normalized().wire_form(),
    ensures
        parse_spec(m.frame().skip(4)) == Ok::<MsgView, Error>(m.normalized()),
{
    lemma_frame_shape(m);
    lemma_parse_inverts_encode(m.normalized());
    assert(m.normalized().payload() == m.payload());
}

/// Encoding inverts decoding on every frame that encoding produces: decode
/// the payload of `m`'s frame, encode the result, and the same frame comes
/// out.
pub proof fn lemma_encode_inverts_parse(m: MsgView)
    requires
        m.fits_frame(),
        m.normalized().wire_form(),
    ensures
        parse_spec(m.frame().skip(4)) is Ok,
        parse_spec(m.frame().skip(4))->Ok_0.frame() == m.frame(),
{
    lemma_parse_of_frame(m);
    assert(m.normalized().payload() == m.payload());
}

} // verus!
