//! Codecs map typed messages to the byte buffers and tags that travel, and
//! size the buffer of each incoming message.

use vstd::prelude::*;
use crate::convert::element_count;

verus! {

/// Turns a message into the buffer and the 16-bit tag that carry it.
pub trait Encoder {
    /// The messages that this codec sends.
    type Message;

    /// The element type of the buffers that carry them.
    type Elem;

    /// The buffer contents and tag that carry `msg`.
    spec fn encoding(msg: Self::Message) -> (Seq<Self::Elem>, u16);

    /// The buffer and tag that carry `msg`.
    fn encode(self, msg: Self::Message) -> (r: (Vec<Self::Elem>, u16))
        ensures
            (r.0@, r.1) == Self::encoding(msg),
    ;
}

/// Sizes the buffer of an incoming message and reads the message out of it
/// once it is filled.
pub trait Decoder {
    /// The messages that this codec receives.
    type Message;

    /// The element type of the buffers that messages arrive in.
    type Elem;

    /// The buffer to receive a message of `count` elements into, or `None`
    /// when no buffer fits that count.
    spec fn sized(count: i32) -> Option<Seq<Self::Elem>>;

    /// `msg` is the message that a buffer holding `buf` carries.
    spec fn decodes(buf: Seq<Self::Elem>, msg: Self::Message) -> bool;

    /// The buffer to receive a message of `count` elements into.
    fn recv_buffer(&mut self, count: i32) -> (r: Option<Vec<Self::Elem>>)
        ensures
            r is None <==> Self::sized(count) is None,
            r matches Some(b) ==> Self::sized(count) == Some(b@),
    ;

    /// The message that a filled buffer holds.
    fn decode(&mut self, buf: Vec<Self::Elem>) -> (r: Self::Message)
        ensures
            Self::decodes(buf@, r),
    ;
}

/// The receive buffer of the byte codec for `count` elements: that many
/// zero bytes, or none for a negative (undefined) count.
pub open spec fn u8_sized(count: i32) -> Option<Seq<u8>> {
    if count >= 0 {
        Some(Seq::new(count as nat, |i: int| 0u8))
    } else {
        None
    }
}

/// The tag under which the byte codec sends.
pub const U8_TAG: u16 = 0;

/// The buffer and tag that carry a byte message: the bytes themselves, under
/// tag zero.
pub open spec fn u8_encoded(msg: Seq<u8>) -> (Seq<u8>, u16) {
    (msg, U8_TAG)
}

/// The byte message that a filled buffer holds: its bytes.
pub open spec fn u8_decoded(buf: Seq<u8>) -> Seq<u8> {
    buf
}

/// Treats every message as a vector of octets, always under tag zero.
#[derive(Clone, Copy, Debug, Default, PartialEq, Eq, Hash, PartialOrd, Ord)]
pub struct U8Codec;

impl U8Codec {
    /// The buffer and tag that carry `msg`.
    pub fn encode_bytes(self, msg: Vec<u8>) -> (r: (Vec<u8>, u16))
        ensures
            (r.0@, r.1) == u8_encoded(msg@),
    {
        (msg, U8_TAG)
    }

    /// A zeroed buffer of exactly `count` bytes, or `None` when `count` is
    /// negative (undefined).
    pub fn buffer_for(&self, count: i32) -> (r: Option<Vec<u8>>)
        ensures
            count < 0 ==> r is None,
            count >= 0 ==> (r matches Some(b) && b@ == Seq::new(count as nat, |i: int| 0u8)),
            r is None <==> u8_sized(count) is None,
            r matches Some(b) ==> u8_sized(count) == Some(b@),
    {
        match element_count(count) {
            None => None,
            Some(len) => {
                let b: Vec<u8> = vec![0u8; len];
                assert(b@ =~= Seq::new(count as nat, |i: int| 0u8));
                Some(b)
            },
        }
    }

    /// The message that a filled buffer holds.
    pub fn decode_bytes(&self, buf: Vec<u8>) -> (r: Vec<u8>)
        ensures
            r@ == u8_decoded(buf@),
    {
        buf
    }
}

impl Encoder for U8Codec {
    type Message = Vec<u8>;

    type Elem = u8;

    open spec fn encoding(msg: Vec<u8>) -> (Seq<u8>, u16) {
        u8_encoded(msg@)
    }

    fn encode(self, msg: Vec<u8>) -> (r: (Vec<u8>, u16)) {
        self.encode_bytes(msg)
    }
}

impl Decoder for U8Codec {
    type Message = Vec<u8>;

    type Elem = u8;

    open spec fn sized(count: i32) -> Option<Seq<u8>> {
        u8_sized(count)
    }

    open spec fn decodes(buf: Seq<u8>, msg: Vec<u8>) -> bool {
        msg@ == u8_decoded(buf)
    }

    fn recv_buffer(&mut self, count: i32) -> (r: Option<Vec<u8>>) {
        self.buffer_for(count)
    }

    fn decode(&mut self, buf: Vec<u8>) -> (r: Vec<u8>) {
        self.decode_bytes(buf)
    }
}

/// Encoding a byte message and decoding the buffer that carried it gives the
/// message back, and the message travels under tag zero: a receive buffer
/// sized for the encoded length has that length, and a message that the
/// filled buffer decodes to has the bytes that were sent.
pub proof fn lemma_u8_round_trip(msg: Vec<u8>, received: Vec<u8>)
    requires
        msg@.len() <= i32::MAX,
    ensures
        <U8Codec as Encoder>::encoding(msg).1 == 0,
        <U8Codec as Decoder>::sized(<U8Codec as Encoder>::encoding(msg).0.len() as i32) matches Some(
            b,
        ) && b.len() == msg@.len(),
        <U8Codec as Decoder>::decodes(<U8Codec as Encoder>::encoding(msg).0, received)
            ==> received@ == msg@,
{
}

} // verus!
