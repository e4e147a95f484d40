//! The packets of the pool's protocol.
//!
//! A packet is the size of its header in four bytes, the highest first; the
//! header, which holds the size of the payload; and the payload.

use crate::bytes::{
    be_bytes, be_value, law_bytes_of_numbers, law_four_bytes, le_bytes, le_value,
    lemma_be_round_trip, lemma_le_round_trip, pow256, u32_be, u32_from_be,
};
use vstd::prelude::*;

verus! {

/// `bincode::serialize` on the one number that a header holds: its four bytes,
/// the lowest first. It never fails on a number.
#[verifier::external_body]
fn header_of(payload_size: u32) -> (out: Vec<u8>)
    ensures
        out@ == le_bytes(payload_size as nat, 4),
{
    bincode::serialize(&payload_size).unwrap()
}

/// `bincode::deserialize` for the one number that a header holds: it is read
/// from the first four bytes, the lowest first, and bytes after those are left
/// alone. It fails where there are fewer.
#[verifier::external_body]
fn payload_size_of(header: &[u8]) -> (out: Option<u32>)
    ensures
        match out {
            Some(size) => header@.len() >= 4 && size as nat == le_value(header@.take(4)),
            None => header@.len() < 4,
        },
{
    bincode::deserialize::<u32>(header).ok()
}

/// The packet that carries `payload`. The header has room for a size of up to
/// four bytes, and holds the size of a longer payload modulo 2^32.
pub open spec fn packet(payload: Seq<u8>) -> Seq<u8> {
    be_bytes(4, 4) + le_bytes(payload.len() % 0x1_0000_0000, 4) + payload
}

/// The packet that carries `payload`.
pub fn send_message(payload: &[u8]) -> (out: Vec<u8>)
    ensures
        out@ == packet(payload@),
{
    let size: u32 = (payload.len() as u64 % 0x1_0000_0000) as u32;
    let header = header_of(size);
    proof {
        lemma_le_round_trip(size as nat, 4);
    }
    let header_size = u32_be(header.len() as u32);
    let mut out: Vec<u8> = Vec::new();
    out.extend_from_slice(&header_size);
    out.extend_from_slice(header.as_slice());
    out.extend_from_slice(payload);
    assert(out@ =~= packet(payload@));
    out
}

/// What is to be read next of a packet.
#[derive(Clone, Copy, Debug, PartialEq, Eq, Structural)]
pub enum Receiver {
    HeaderSize,
    Header { size: u32 },
    Payload { size: u32 },
}

/// What came of reading a part of a packet: another part is to be read, the
/// payload is complete, or the header holds no size.
#[derive(Debug)]
pub enum Received {
    More(Receiver),
    Message(Vec<u8>),
    BadHeader,
}

/// `Received`, with the payload as a sequence.
pub enum ReceivedView {
    More(Receiver),
    Message(Seq<u8>),
    BadHeader,
}

impl View for Received {
    type V = ReceivedView;

    open spec fn view(&self) -> ReceivedView {
        match self {
            Received::More(next) => ReceivedView::More(*next),
            Received::Message(payload) => ReceivedView::Message(payload@),
            Received::BadHeader => ReceivedView::BadHeader,
        }
    }
}

impl Receiver {
    /// How many bytes are to be read next.
    pub open spec fn wants(self) -> nat {
        match self {
            Receiver::HeaderSize => 4,
            Receiver::Header { size } => size as nat,
            Receiver::Payload { size } => size as nat,
        }
    }

    /// What comes of reading `chunk`.
    pub open spec fn after(self, chunk: Seq<u8>) -> ReceivedView {
        match self {
            Receiver::HeaderSize => ReceivedView::More(
                Receiver::Header { size: be_value(chunk) as u32 },
            ),
            Receiver::Header { size } => if chunk.len() >= 4 {
                ReceivedView::More(Receiver::Payload { size: le_value(chunk.take(4)) as u32 })
            } else {
                ReceivedView::BadHeader
            },
            Receiver::Payload { size } => ReceivedView::Message(chunk),
        }
    }

    /// How many parts of the packet are still to be read.
    pub open spec fn parts(self) -> nat {
        match self {
            Receiver::HeaderSize => 3,
            Receiver::Header { .. } => 2,
            Receiver::Payload { .. } => 1,
        }
    }

    /// The beginning of a packet.
    pub fn new() -> (out: Receiver)
        ensures
            out == Receiver::HeaderSize,
    {
        Receiver::HeaderSize
    }

    /// How many bytes are to be read next.
    pub fn wanted(&self) -> (out: usize)
        ensures
            out == self.wants(),
    {
        match self {
            Receiver::HeaderSize => 4,
            Receiver::Header { size } => *size as usize,
            Receiver::Payload { size } => *size as usize,
        }
    }

    /// Takes the bytes that were read.
    pub fn receive_message(self, chunk: Vec<u8>) -> (out: Received)
        requires
            chunk@.len() == self.wants(),
        ensures
            out@ == self.after(chunk@),
    {
        match self {
            Receiver::HeaderSize => Received::More(
                Receiver::Header { size: u32_from_be(chunk.as_slice()) },
            ),
            Receiver::Header { .. } => match payload_size_of(chunk.as_slice()) {
                Some(size) => Received::More(Receiver::Payload { size }),
                None => Received::BadHeader,
            },
            Receiver::Payload { .. } => Received::Message(chunk),
        }
    }
}

/// What is read of `stream`, from `receiver` on: the payload, and what is left
/// of the stream; nothing where the stream ends early or the header holds no
/// size.
pub open spec fn read_stream(receiver: Receiver, stream: Seq<u8>) -> Option<(Seq<u8>, Seq<u8>)>
    decreases receiver.parts(),
{
    let want = receiver.wants() as int;
    if stream.len() < want {
        None
    } else {
        let rest = stream.skip(want);
        match receiver.after(stream.take(want)) {
            ReceivedView::More(next) => if next.parts() < receiver.parts() {
                read_stream(next, rest)
            } else {
                None
            },
            ReceivedView::Message(payload) => Some((payload, rest)),
            ReceivedView::BadHeader => None,
        }
    }
}

/// The payloads that `count` packets at the front of `stream` carry.
pub open spec fn read_messages(stream: Seq<u8>, count: nat) -> Option<Seq<Seq<u8>>>
    decreases count,
{
    if count == 0 {
        Some(Seq::empty())
    } else {
        match read_stream(Receiver::HeaderSize, stream) {
            Some((payload, rest)) => match read_messages(rest, (count - 1) as nat) {
                Some(payloads) => Some(seq![payload] + payloads),
                None => None,
            },
            None => None,
        }
    }
}

/// The packets of `payloads`, one after the other.
pub open spec fn packets(payloads: Seq<Seq<u8>>) -> Seq<u8>
    decreases payloads.len(),
{
    if payloads.len() == 0 {
        Seq::empty()
    } else {
        packet(payloads[0]) + packets(payloads.skip(1))
    }
}

/// What is received is what was sent: the packet of a payload reads back as that
/// payload, and what follows the packet is left in the stream.
pub proof fn law_receive_what_was_sent(payload: Seq<u8>, rest: Seq<u8>)
    requires
        payload.len() <= u32::MAX,
    ensures
        read_stream(Receiver::HeaderSize, packet(payload) + rest) == Some((payload, rest)),
{
    let size = payload.len();
    lemma_be_round_trip(4, 4);
    lemma_le_round_trip(size, 4);
    assert(pow256(4) == 0x1_0000_0000) by {
        reveal_with_fuel(pow256, 5);
    }
    let stream = packet(payload) + rest;
    let head = Receiver::Header { size: 4 };
    let body = Receiver::Payload { size: size as u32 };
    let after_size = stream.skip(4);
    let after_header = after_size.skip(4);
    assert(stream.take(4) =~= be_bytes(4, 4));
    assert(after_size.take(4) =~= le_bytes(size, 4));
    assert(after_size.take(4).take(4) =~= le_bytes(size, 4));
    assert(after_header =~= payload + rest);
    assert(after_header.take(size as int) =~= payload);
    assert(after_header.skip(size as int) =~= rest);
    assert(Receiver::HeaderSize.after(stream.take(4)) == ReceivedView::More(head));
    assert(head.after(after_size.take(4)) == ReceivedView::More(body));
    assert(read_stream(body, after_header) == Some((payload, rest)));
    assert(read_stream(head, after_size) == Some((payload, rest)));
}

/// A packet is read in at most three parts: after each of them fewer are left.
pub proof fn law_parts_run_out(receiver: Receiver, chunk: Seq<u8>)
    ensures
        receiver.parts() <= 3,
        receiver.after(chunk) matches ReceivedView::More(next) ==> next.parts() < receiver.parts(),
{
}

/// The messages of a connection arrive as they were sent, in the same order.
pub proof fn law_messages_in_order(payloads: Seq<Seq<u8>>)
    requires
        forall|i: int| 0 <= i < payloads.len() ==> (#[trigger] payloads[i]).len() <= u32::MAX,
    ensures
        read_messages(packets(payloads), payloads.len()) == Some(payloads),
    decreases payloads.len(),
{
    if payloads.len() > 0 {
        let tail = payloads.skip(1);
        law_receive_what_was_sent(payloads[0], packets(tail));
        assert(forall|i: int| 0 <= i < tail.len() ==> #[trigger] tail[i] == payloads[i + 1]);
        law_messages_in_order(tail);
        assert(seq![payloads[0]] + tail =~= payloads);
    } else {
        assert(payloads =~= Seq::empty());
    }
}

/// A packet is four bytes that say that the header has four, the highest first; the header,
/// which says how long the payload is, the lowest byte first; and the payload as it is.
pub proof fn law_packet_layout(payload: Seq<u8>)
    ensures
        ({
            let p = packet(payload);
            &&& p.len() == 8 + payload.len()
            &&& p[0] == 0 && p[1] == 0 && p[2] == 0 && p[3] == 4
            &&& p[4] + 0x100 * p[5] + 0x1_0000 * p[6] + 0x100_0000 * p[7] == payload.len()
                % 0x1_0000_0000
            &&& p.skip(8) == payload
        }),
{
    let p = packet(payload);
    let size = (payload.len() % 0x1_0000_0000) as u32;
    law_bytes_of_numbers(0, 4);
    law_bytes_of_numbers(0, size);
    let head = be_bytes(4, 4);
    let header = le_bytes(size as nat, 4);
    assert(p.take(4) =~= head);
    assert(p.subrange(4, 8) =~= header);
    assert(p[0] == head[0] && p[1] == head[1] && p[2] == head[2] && p[3] == head[3]);
    assert(p[4] == header[0] && p[5] == header[1] && p[6] == header[2] && p[7] == header[3]);
    assert(p.skip(8) =~= payload);
}

/// A receiver reads four bytes for the size of the header, the highest first; then as many
/// as that, of which the first four are the size of the payload, the lowest first; then as
/// many as that, which are the payload. A header of fewer than four bytes is bad.
pub proof fn law_receiver_reads_sizes(chunk: Seq<u8>, size: u32)
    ensures
        Receiver::HeaderSize.wants() == 4,
        (Receiver::Header { size }).wants() == size,
        (Receiver::Payload { size }).wants() == size,
        chunk.len() == 4 ==> (Receiver::HeaderSize.after(chunk) matches ReceivedView::More(
            Receiver::Header { size: next },
        ) && next == chunk[3] + 0x100 * chunk[2] + 0x1_0000 * chunk[1] + 0x100_0000 * chunk[0]),
        chunk.len() >= 4 ==> ((Receiver::Header { size }).after(chunk) matches ReceivedView::More(
            Receiver::Payload { size: next },
        ) && next == chunk[0] + 0x100 * chunk[1] + 0x1_0000 * chunk[2] + 0x100_0000 * chunk[3]),
        chunk.len() < 4 ==> (Receiver::Header { size }).after(chunk) == ReceivedView::BadHeader,
        (Receiver::Payload { size }).after(chunk) == ReceivedView::Message(chunk),
{
    if chunk.len() == 4 {
        law_four_bytes(chunk);
    }
    if chunk.len() >= 4 {
        law_four_bytes(chunk.take(4));
    }
}

/// What is received is shown as it is.
pub proof fn law_received_is_faithful(received: Received)
    ensures
        match received {
            Received::More(next) => received@ == ReceivedView::More(next),
            Received::Message(payload) => received@ == ReceivedView::Message(payload@),
            Received::BadHeader => received@ == ReceivedView::BadHeader,
        },
{
}

} // verus!
