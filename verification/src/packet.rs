//! The RPC packet and its envelope on the wire.
//!
//! A packet is either a call carrying arguments or a return carrying a result,
//! both tagged with the request id that pairs them. On the wire a packet is a
//! binary WebSocket message laid out as the postcard encoding of
//! `Packet<A, B>`: the variant index as a varint (`0` for a call, `1` for a
//! return), the request id as one byte, then the encoded payload.

use vstd::prelude::*;

verus! {

/// The request id that pairs a call with its return.
pub type ReqId = u8;

/// A call of a remote function, or what it returned.
#[derive(Debug, PartialEq, Eq)]
pub enum Packet<A, B> {
    Call(ReqId, A),
    Ret(ReqId, B),
}

/// A WebSocket message.
#[derive(Debug, Clone, PartialEq, Eq)]
pub enum WsMessage {
    Text(String),
    Binary(Vec<u8>),
    Ping(Vec<u8>),
    Pong(Vec<u8>),
    /// A close message, with its code and reason when it carried one.
    Close(Option<(u16, String)>),
    /// A raw frame.
    Frame(Vec<u8>),
}

/// Why a message is not a packet.
#[derive(Debug, Clone, Copy, PartialEq, Eq)]
pub enum PacketError {
    /// Only binary messages carry packets.
    Unsupported,
    /// The variant index is not a well-formed varint.
    BadVarint,
    /// The variant index names neither a call nor a return.
    BadVariant,
    /// The message ends before the request id.
    UnexpectedEnd,
}

/// Why a remote call did not give a result.
#[derive(Debug, Clone, Copy, PartialEq, Eq)]
pub enum CallError {
    /// The return carries another request id than the call.
    IdMismatch { received: ReqId, expected: ReqId },
    /// A call came back where a return was expected.
    NotAReturn,
}

/// The value of the little-endian base-128 digits `b` (continuation bits dropped).
pub open spec fn varint_digits(b: Seq<u8>) -> nat
    decreases b.len(),
{
    if b.len() == 0 {
        0
    } else {
        (b[0] % 128) as nat + 128 * varint_digits(b.drop_first())
    }
}

/// The number of bytes of the varint (of at most five bytes) at the front of
/// `b`: the first byte without the continuation bit ends it.
pub open spec fn varint_len(b: Seq<u8>) -> Option<nat> {
    if exists|k: int| 0 <= k < 5 && k < b.len() && b[k] < 128 {
        let k = choose|k: int|
            0 <= k < 5 && k < b.len() && b[k] < 128 && forall|j: int| 0 <= j < k ==> b[j] >= 128;
        Some((k + 1) as nat)
    } else {
        None
    }
}

/// Decodes the variant index of a packet: a varint of at most five bytes whose
/// fifth byte, if it has one, is at most `0x0f`. Gives the index and its length.
pub open spec fn tag_of(b: Seq<u8>) -> Option<(nat, nat)> {
    match varint_len(b) {
        Some(k) => if k == 5 && b[4] > 0x0f {
            None
        } else {
            Some((varint_digits(b.take(k as int)), k))
        },
        None => None,
    }
}

/// The packet that the bytes of a binary message hold, if any.
pub open spec fn decode_packet(b: Seq<u8>) -> Result<Packet<Seq<u8>, Seq<u8>>, PacketError> {
    match tag_of(b) {
        Some((tag, k)) => if tag > 1 {
            Err(PacketError::BadVariant)
        } else if b.len() <= k {
            Err(PacketError::UnexpectedEnd)
        } else if tag == 0 {
            Ok(Packet::Call(b[k as int], b.skip((k + 1) as int)))
        } else {
            Ok(Packet::Ret(b[k as int], b.skip((k + 1) as int)))
        },
        None => if (exists|k: int| 0 <= k < 5 && k < b.len() && b[k] < 128) || b.len() >= 5 {
            Err(PacketError::BadVarint)
        } else {
            Err(PacketError::UnexpectedEnd)
        },
    }
}

/// The bytes of a packet whose payload is already encoded.
pub open spec fn encode_packet(p: Packet<Seq<u8>, Seq<u8>>) -> Seq<u8> {
    match p {
        Packet::Call(id, a) => seq![0u8, id] + a,
        Packet::Ret(id, b) => seq![1u8, id] + b,
    }
}

/// The packet of a message: only binary messages carry one.
pub open spec fn packet_of(m: WsMessage) -> Result<Packet<Seq<u8>, Seq<u8>>, PacketError> {
    match m {
        WsMessage::Binary(bytes) => decode_packet(bytes@),
        _ => Err(PacketError::Unsupported),
    }
}

/// The view of a packet whose payloads are byte vectors.
pub open spec fn packet_view(p: Packet<Vec<u8>, Vec<u8>>) -> Packet<Seq<u8>, Seq<u8>> {
    match p {
        Packet::Call(id, a) => Packet::Call(id, a@),
        Packet::Ret(id, b) => Packet::Ret(id, b@),
    }
}

/// Reads the varint at the front of `b`, of at most five bytes.
fn read_tag(b: &[u8]) -> (r: Option<(u32, usize)>)
    ensures
        match tag_of(b@) {
            Some((tag, k)) => r matches Some((t, n)) && t == tag && n == k,
            None => r is None,
        },
{
    let mut i: usize = 0;
    let mut value: u32 = 0;
    let mut scale: u32 = 1;
    while i < 5 && i < b.len()
        invariant
            i <= 5,
            forall|j: int| 0 <= j < i ==> b@[j] >= 128,
            i < 5 ==> value as nat == varint_digits(b@.take(i as int)),
            i < 5 ==> scale as nat == pow128(i as nat),
            i < 5 ==> value < scale,
        decreases 5 - i,
    {
        let byte = b[i];
        if byte < 128 {
            if i == 4 && byte > 0x0f {
                proof {
                    assert(varint_len(b@) == Some(5nat)) by {
                        assert(b@[4] < 128);
                        let k = choose|k: int|
                            0 <= k < 5 && k < b@.len() && b@[k] < 128 && forall|j: int|
                                0 <= j < k ==> b@[j] >= 128;
                        if k < 4 {
                        }
                    }
                }
                return None;
            }
            proof {
                lemma_varint_digits_push(b@.take(i as int), byte);
                assert(b@.take(i + 1) =~= b@.take(i as int).push(byte));
                lemma_pow128_bound(i as nat);
                assert(value + (byte as nat) * scale < 0x1_0000_0000) by (nonlinear_arith)
                    requires
                        value < scale,
                        scale <= 0x1000_0000,
                        byte < 128,
                        i == 4 ==> byte <= 0x0f,
                        i < 4 ==> scale <= 0x20_0000,
                        i <= 4,
                {
                }
                assert(varint_len(b@) == Some((i + 1) as nat)) by {
                    assert(b@[i as int] < 128);
                    let k = choose|k: int|
                        0 <= k < 5 && k < b@.len() && b@[k] < 128 && forall|j: int|
                            0 <= j < k ==> b@[j] >= 128;
                    if k < i {
                    } else if k > i {
                    }
                }
            }
            return Some((value + (byte as u32) * scale, i + 1));
        }
        if i < 4 {
            proof {
                lemma_varint_digits_push(b@.take(i as int), byte);
                assert(b@.take(i + 1) =~= b@.take(i as int).push(byte));
                reveal_with_fuel(pow128, 5);
                lemma_pow128_bound(i as nat);
                assert(value + ((byte - 128) as nat) * scale < scale * 128) by (nonlinear_arith)
                    requires
                        value < scale,
                        byte >= 128,
                {
                }
            }
            value = value + ((byte - 128) as u32) * scale;
            scale = scale * 128;
        }
        i = i + 1;
    }
    proof {
        assert forall|k: int| 0 <= k < 5 && k < b@.len() implies b@[k] >= 128 by {}
    }
    None
}

/// `128` raised to the power `i`.
pub open spec fn pow128(i: nat) -> nat
    decreases i,
{
    if i == 0 {
        1
    } else {
        128 * pow128((i - 1) as nat)
    }
}

proof fn lemma_pow128_bound(i: nat)
    requires
        i <= 4,
    ensures
        pow128(i) <= 0x1000_0000,
        i < 4 ==> pow128(i) <= 0x20_0000,
{
    reveal_with_fuel(pow128, 5);
}

proof fn lemma_varint_digits_push(b: Seq<u8>, x: u8)
    ensures
        varint_digits(b.push(x)) == varint_digits(b) + (x % 128) as nat * pow128(b.len()),
    decreases b.len(),
{
    if b.len() == 0 {
        assert(b.push(x).drop_first() =~= Seq::<u8>::empty());
        assert(varint_digits(Seq::<u8>::empty()) == 0);
        assert(varint_digits(b.push(x)) == (x % 128) as nat);
    } else {
        assert(b.push(x).drop_first() =~= b.drop_first().push(x));
        assert(b.push(x)[0] == b[0]);
        lemma_varint_digits_push(b.drop_first(), x);
        let p = pow128(b.drop_first().len());
        assert(pow128(b.len()) == 128 * p);
        let c = (x % 128) as nat;
        assert(128 * (varint_digits(b.drop_first()) + c * p) == 128 * varint_digits(
            b.drop_first(),
        ) + c * (128 * p)) by (nonlinear_arith);
    }
}

impl Packet<Vec<u8>, Vec<u8>> {
    /// Reads the packet carried by a message; the payload stays encoded.
    ///
    /// # Errors
    /// Only binary messages carry packets ([`PacketError::Unsupported`]); the
    /// bytes must start with the variant index of a call or a return followed by
    /// the request id.
    pub fn from_message(message: &WsMessage) -> (r: Result<Self, PacketError>)
        ensures
            match packet_of(*message) {
                Ok(p) => r matches Ok(q) && packet_view(q) == p,
                Err(e) => r == Err::<Self, PacketError>(e),
            },
    {
        match message {
            WsMessage::Binary(bytes) => {
                let b = bytes.as_slice();
                match read_tag(b) {
                    Some((tag, k)) => {
                        if tag > 1 {
                            Err(PacketError::BadVariant)
                        } else if b.len() <= k {
                            Err(PacketError::UnexpectedEnd)
                        } else {
                            let id = b[k];
                            let mut payload = Vec::new();
                            payload.extend_from_slice(slice_skip(b, k + 1));
                            assert(payload@ =~= b@.skip(k + 1));
                            if tag == 0 {
                                Ok(Packet::Call(id, payload))
                            } else {
                                Ok(Packet::Ret(id, payload))
                            }
                        }
                    },
                    None => {
                        if has_terminator(b) || b.len() >= 5 {
                            Err(PacketError::BadVarint)
                        } else {
                            Err(PacketError::UnexpectedEnd)
                        }
                    },
                }
            },
            _ => Err(PacketError::Unsupported),
        }
    }

    /// The message that returns `data` (already encoded) for request `id`.
    pub fn make_ret_message(id: ReqId, data: Vec<u8>) -> (r: WsMessage)
        ensures
            r matches WsMessage::Binary(bytes) && bytes@ == encode_packet(
                Packet::Ret(id, data@),
            ),
    {
        let mut bytes = vec![1u8, id];
        bytes.extend_from_slice(data.as_slice());
        assert(bytes@ =~= encode_packet(Packet::Ret(id, data@)));
        WsMessage::Binary(bytes)
    }

    /// The message that calls with arguments `data` (already encoded) as request `id`.
    pub fn make_call_message(id: ReqId, data: Vec<u8>) -> (r: WsMessage)
        ensures
            r matches WsMessage::Binary(bytes) && bytes@ == encode_packet(
                Packet::Call(id, data@),
            ),
    {
        let mut bytes = vec![0u8, id];
        bytes.extend_from_slice(data.as_slice());
        assert(bytes@ =~= encode_packet(Packet::Call(id, data@)));
        WsMessage::Binary(bytes)
    }
}

/// Whether one of the first five bytes lacks the continuation bit.
fn has_terminator(b: &[u8]) -> (r: bool)
    ensures
        r == exists|k: int| 0 <= k < 5 && k < b@.len() && b@[k] < 128,
{
    let mut i: usize = 0;
    while i < 5 && i < b.len()
        invariant
            i <= 5,
            forall|j: int| 0 <= j < i && j < b@.len() ==> b@[j] >= 128,
        decreases 5 - i,
    {
        if b[i] < 128 {
            return true;
        }
        i = i + 1;
    }
    false
}

/// The bytes of `b` from `n` on.
fn slice_skip(b: &[u8], n: usize) -> (r: &[u8])
    requires
        n <= b@.len(),
    ensures
        r@ == b@.skip(n as int),
{
    let r = vstd::slice::slice_subrange(b, n, b.len());
    assert(r@ =~= b@.skip(n as int));
    r
}

/// The result a remote call gets from the packet that came back for request
/// `req_id`: the returned value when the packet is the return of that request.
pub fn check_return<A, B>(packet: Packet<A, B>, req_id: ReqId) -> (r: Result<B, CallError>)
    ensures
        match packet {
            Packet::Ret(id, b) => if id == req_id {
                r == Ok::<B, CallError>(b)
            } else {
                r == Err::<B, CallError>(CallError::IdMismatch { received: id, expected: req_id })
            },
            Packet::Call(..) => r == Err::<B, CallError>(CallError::NotAReturn),
        },
{
    match packet {
        Packet::Ret(id, ret) => {
            if id != req_id {
                Err(CallError::IdMismatch { received: id, expected: req_id })
            } else {
                Ok(ret)
            }
        },
        Packet::Call(..) => Err(CallError::NotAReturn),
    }
}

/// The request id that follows `id`: one more, wrapping from 255 to 0.
pub fn next_req_id(id: ReqId) -> (r: ReqId)
    ensures
        r == (id + 1) % 256,
{
    if id == 255 {
        0
    } else {
        id + 1
    }
}

/// The id given out `i` allocations after `start`, each allocation taking
/// [`next_req_id`] of the one before.
pub open spec fn req_id_after(start: ReqId, i: nat) -> ReqId
    decreases i,
{
    if i == 0 {
        start
    } else {
        ((req_id_after(start, (i - 1) as nat) + 1) % 256) as ReqId
    }
}

/// The id given out `i` allocations after `start` is `start + i` modulo 256.
pub proof fn lemma_req_id_after(start: ReqId, i: nat)
    ensures
        req_id_after(start, i) == (start + i) % 256,
    decreases i,
{
    if i > 0 {
        lemma_req_id_after(start, (i - 1) as nat);
        let a = start + i - 1;
        assert((a % 256 + 1) % 256 == (a + 1) % 256) by {
            vstd::arithmetic::div_mod::lemma_add_mod_noop(a, 1, 256);
        }
    }
}

/// Up to 256 calls can be in flight at once with distinct request ids: ids
/// given out one after the other repeat only after 256 allocations.
pub proof fn lemma_req_ids_distinct(start: ReqId, i: nat, j: nat)
    requires
        i < j < 256,
    ensures
        req_id_after(start, i) != req_id_after(start, j),
{
    lemma_req_id_after(start, i);
    lemma_req_id_after(start, j);
}

/// Reading back the message made for a packet gives that packet: what a call
/// or return carries survives the trip over the wire.
pub proof fn lemma_packet_roundtrip(p: Packet<Seq<u8>, Seq<u8>>)
    ensures
        decode_packet(encode_packet(p)) == Ok::<Packet<Seq<u8>, Seq<u8>>, PacketError>(p),
{
    let b = encode_packet(p);
    assert(b[0] < 128);
    assert(varint_len(b) == Some(1nat)) by {
        let k = choose|k: int|
            0 <= k < 5 && k < b.len() && b[k] < 128 && forall|j: int| 0 <= j < k ==> b[j] >= 128;
        if k > 0 {
            assert(b[0] >= 128);
        }
    }
    assert(b.take(1).drop_first() =~= Seq::<u8>::empty());
    assert(varint_digits(Seq::<u8>::empty()) == 0);
    assert(varint_digits(b.take(1)) == b[0] as nat);
    assert(tag_of(b) == Some((b[0] as nat, 1nat)));
    match p {
        Packet::Call(id, a) => {
            assert(b.skip(2) =~= a);
        },
        Packet::Ret(id, r) => {
            assert(b.skip(2) =~= r);
        },
    }
}

} // verus!
