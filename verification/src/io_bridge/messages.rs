//! Messages that reach the bridge: pings, the feedback stream and the packets
//! of the tailnet.
use crate::client_caps::{ClientCapabilities, HelloMsg, HELLO_MSG_TYPE, HELLO_SIZE};
use crate::decode_error::{DecodeErrorMsg, DECODE_ERROR_MSG_TYPE, DECODE_ERROR_SIZE};
use crate::protocol::{PING_PAYLOAD, PONG_PAYLOAD};
use crate::wire;
use crate::wire::{copy_range, read_be32};
use vstd::prelude::*;
use vstd::slice::slice_subrange;

verus! {

broadcast use vstd::slice::group_slice_axioms;

/// The answer to a datagram that is a ping; nothing for any other.
pub fn handle_datagram_payload(payload: &[u8]) -> (r: Option<Vec<u8>>)
    ensures
        match r {
            Some(answer) => payload@ == PING_PAYLOAD@ && answer@ == PONG_PAYLOAD@,
            None => payload@ != PING_PAYLOAD@,
        },
{
    if payload.len() == 4 && payload[0] == PING_PAYLOAD[0] && payload[1] == PING_PAYLOAD[1]
        && payload[2] == PING_PAYLOAD[2] && payload[3] == PING_PAYLOAD[3] {
        assert(payload@ =~= PING_PAYLOAD@);
        let answer: Vec<u8> = vec![
            PONG_PAYLOAD[0],
            PONG_PAYLOAD[1],
            PONG_PAYLOAD[2],
            PONG_PAYLOAD[3],
        ];
        assert(answer@ =~= PONG_PAYLOAD@);
        Some(answer)
    } else {
        None
    }
}

/// The datagrams that are not pings, in order.
pub open spec fn not_pings(payloads: Seq<Seq<u8>>) -> Seq<Seq<u8>>
    decreases payloads.len(),
{
    if payloads.len() == 0 {
        Seq::empty()
    } else if payloads.last() == PING_PAYLOAD@ {
        not_pings(payloads.drop_last())
    } else {
        not_pings(payloads.drop_last()).push(payloads.last())
    }
}

/// The contents of buffers.
pub open spec fn contents(list: Seq<Vec<u8>>) -> Seq<Seq<u8>> {
    list.map_values(|b: Vec<u8>| b@)
}

/// Sorts the datagrams that came in at once: how many pings are to be
/// answered, and what else there is, in order.
pub fn sort_received(payloads: Vec<Vec<u8>>) -> (r: (usize, Vec<Vec<u8>>))
    ensures
        contents(r.1@) == not_pings(contents(payloads@)),
        r.0 + r.1@.len() == payloads@.len(),
{
    let ghost all = contents(payloads@);
    let n: usize = payloads.len();
    let mut pings: usize = 0;
    let mut rest: Vec<Vec<u8>> = Vec::new();
    let mut i: usize = 0;
    assert(all.take(0) =~= Seq::empty());
    assert(contents(rest@) =~= Seq::empty());
    while i < n
        invariant
            i <= n,
            n == payloads@.len(),
            all == contents(payloads@),
            pings + rest@.len() == i,
            contents(rest@) == not_pings(all.take(i as int)),
        decreases n - i,
    {
        let payload = &payloads[i];
        proof {
            assert(all.take(i + 1).drop_last() =~= all.take(i as int));
            assert(all.take(i + 1).last() == payload@);
        }
        match handle_datagram_payload(payload.as_slice()) {
            Some(_) => {
                pings = pings + 1;
            },
            None => {
                let ghost before = contents(rest@);
                let copy: Vec<u8> = copy_range(payload.as_slice(), 0, payload.len());
                assert(copy@ =~= payload@);
                rest.push(copy);
                assert(contents(rest@) =~= before.push(payload@));
            },
        }
        i = i + 1;
    }
    assert(all.take(n as int) =~= all);
    (pings, rest)
}

/// Type of a receiver report.
pub const FEEDBACK_MSG_TYPE: u8 = 0x01;

/// Its length.
pub const FEEDBACK_SIZE: usize = 22;

/// A message on the feedback stream.
#[derive(Debug)]
pub enum FeedbackMsg {
    /// A receiver report, as it came.
    Receiver(Vec<u8>),
    Hello(HelloMsg),
    DecodeError(DecodeErrorMsg),
}

/// A message on the feedback stream, by its contents.
pub enum FeedbackView {
    Receiver(Seq<u8>),
    Hello(HelloMsg),
    DecodeError(DecodeErrorMsg),
}

impl View for FeedbackMsg {
    type V = FeedbackView;

    open spec fn view(&self) -> FeedbackView {
        match *self {
            FeedbackMsg::Receiver(b) => FeedbackView::Receiver(b@),
            FeedbackMsg::Hello(m) => FeedbackView::Hello(m),
            FeedbackMsg::DecodeError(m) => FeedbackView::DecodeError(m),
        }
    }
}

/// The message at the start of a stream and its length; nothing if its type is
/// not known or it is cut short.
pub open spec fn first_message(s: Seq<u8>) -> Option<(FeedbackView, nat)> {
    if s.len() == 0 {
        None
    } else if s[0] == FEEDBACK_MSG_TYPE && s.len() >= FEEDBACK_SIZE {
        Some((FeedbackView::Receiver(s.take(FEEDBACK_SIZE as int)), FEEDBACK_SIZE as nat))
    } else if s[0] == HELLO_MSG_TYPE && s.len() >= HELLO_SIZE {
        Some(
            (
                FeedbackView::Hello(HelloMsg { caps: ClientCapabilities::of_byte(s[1]) }),
                HELLO_SIZE as nat,
            ),
        )
    } else if s[0] == DECODE_ERROR_MSG_TYPE && s.len() >= DECODE_ERROR_SIZE {
        Some(
            (
                FeedbackView::DecodeError(
                    DecodeErrorMsg { codec: s[1], tile_x: s[2], tile_y: s[3], error_code: s[4] },
                ),
                DECODE_ERROR_SIZE as nat,
            ),
        )
    } else {
        None
    }
}

/// The messages of a stream, up to the first that cannot be read: what follows
/// it cannot be told apart from it.
pub open spec fn messages(s: Seq<u8>) -> Seq<FeedbackView>
    decreases s.len(),
{
    match first_message(s) {
        Some((m, n)) => if 0 < n <= s.len() {
            seq![m] + messages(s.skip(n as int))
        } else {
            Seq::empty()
        },
        None => Seq::empty(),
    }
}

/// The contents of messages.
pub open spec fn message_views(list: Seq<FeedbackMsg>) -> Seq<FeedbackView> {
    list.map_values(|m: FeedbackMsg| m@)
}

/// Takes the messages of the feedback stream apart.
pub fn parse_feedback(data: &[u8]) -> (out: Vec<FeedbackMsg>)
    ensures
        message_views(out@) == messages(data@),
{
    let n: usize = data.len();
    let mut out: Vec<FeedbackMsg> = Vec::new();
    let mut offset: usize = 0;
    assert(data@.skip(0) =~= data@);
    assert(message_views(out@) + messages(data@) =~= messages(data@));
    while offset < n
        invariant
            offset <= n,
            n == data@.len(),
            message_views(out@) + messages(data@.skip(offset as int)) == messages(data@),
        decreases n - offset,
    {
        let ghost rest = data@.skip(offset as int);
        let ghost before = message_views(out@);
        let msg_type: u8 = data[offset];
        assert(rest[0] == msg_type);
        let left: usize = n - offset;
        let size: usize = if msg_type == FEEDBACK_MSG_TYPE {
            FEEDBACK_SIZE
        } else if msg_type == HELLO_MSG_TYPE {
            HELLO_SIZE
        } else if msg_type == DECODE_ERROR_MSG_TYPE {
            DECODE_ERROR_SIZE
        } else {
            assert(before + messages(rest) =~= before);
            return out;
        };
        if size > left {
            assert(before + messages(rest) =~= before);
            return out;
        }
        let msg: FeedbackMsg = if msg_type == FEEDBACK_MSG_TYPE {
            let report: Vec<u8> = copy_range(data, offset, offset + FEEDBACK_SIZE);
            assert(report@ =~= rest.take(FEEDBACK_SIZE as int));
            FeedbackMsg::Receiver(report)
        } else if msg_type == HELLO_MSG_TYPE {
            let part = slice_subrange(data, offset, n);
            assert(part@ =~= rest);
            match HelloMsg::decode(part) {
                Some(m) => FeedbackMsg::Hello(m),
                None => {
                    return out;
                },
            }
        } else {
            let part = slice_subrange(data, offset, n);
            assert(part@ =~= rest);
            match DecodeErrorMsg::decode(part) {
                Some(m) => FeedbackMsg::DecodeError(m),
                None => {
                    return out;
                },
            }
        };
        let ghost m = msg@;
        assert(first_message(rest) == Some((m, size as nat)));
        out.push(msg);
        proof {
            let next = data@.skip(offset + size);
            assert(rest.skip(size as int) =~= next);
            assert(messages(rest) == seq![m] + messages(next));
            assert(message_views(out@) =~= before.push(m));
            assert(before.push(m) + messages(next) =~= before + (seq![m] + messages(next)));
        }
        offset = offset + size;
    }
    assert(data@.skip(n as int) =~= Seq::empty());
    assert(messages(data@.skip(n as int)) =~= Seq::empty());
    assert(message_views(out@) + messages(data@.skip(n as int)) =~= message_views(out@));
    out
}

/// Messages written one after the other are all read, in order.
pub proof fn messages_follow_each_other(first: FeedbackView, n: nat, s: Seq<u8>, rest: Seq<u8>)
    requires
        first_message(s) == Some((first, n)),
        n == s.len(),
    ensures
        messages(s + rest) == seq![first] + messages(rest),
{
    let all = s + rest;
    assert(all.skip(n as int) =~= rest);
    assert(all.take(FEEDBACK_SIZE as int) =~= s.take(FEEDBACK_SIZE as int) || n != FEEDBACK_SIZE);
    assert(all[0] == s[0]);
    if s[0] == HELLO_MSG_TYPE {
        assert(all[1] == s[1]);
    } else if s[0] == DECODE_ERROR_MSG_TYPE {
        assert(all[1] == s[1] && all[2] == s[2] && all[3] == s[3] && all[4] == s[4]);
    }
    assert(first_message(all) == Some((first, n)));
}

/// Parity group size while parity is on.
pub const FEC_GROUP: usize = 4;

/// More than five in a thousand are lost.
pub open spec fn much_is_lost(received: u32, lost: u32) -> bool {
    1000 * lost > 5 * (received + lost)
}

/// Less than two in a thousand are lost.
pub open spec fn little_is_lost(received: u32, lost: u32) -> bool {
    lost == 0 || 1000 * lost < 2 * (received + lost)
}

/// The parity group size after a receiver report: parity is switched on when
/// much is lost and off when little is.
pub fn update_fec(fec_k: usize, received: u32, lost: u32) -> (k: usize)
    ensures
        k == (if fec_k == 0 && much_is_lost(received, lost) {
            FEC_GROUP
        } else if fec_k > 0 && little_is_lost(received, lost) {
            0
        } else {
            fec_k
        }),
{
    let total: u64 = received as u64 + lost as u64;
    let scaled: u64 = 1000 * (lost as u64);
    if fec_k == 0 && scaled > 5 * total {
        FEC_GROUP
    } else if fec_k > 0 && (lost == 0 || scaled < 2 * total) {
        0
    } else {
        fec_k
    }
}

/// Parity does not flap: no report switches it both on and off.
pub proof fn fec_has_hysteresis(received: u32, lost: u32)
    ensures
        !(much_is_lost(received, lost) && little_is_lost(received, lost)),
{
}

/// Length of the header of a packet of the tailnet.
pub const PACKET_HEADER_SIZE: usize = 8;

/// A packet that is too short for what its header says.
#[derive(Debug, Clone, Copy, PartialEq, Eq, Structural)]
pub struct PacketTooShort;

/// What is to be read behind a packet's header.
#[derive(Debug, Clone, Copy, PartialEq, Eq, Structural)]
pub struct PacketLengths {
    /// Bytes behind the header.
    pub rest: usize,
    /// Bytes of payload among them.
    pub payload: usize,
}

/// Reads a packet's header: the length of the packet and that of its payload.
/// Behind the payload there is room for a port and the end of an address.
pub fn packet_lengths(header: &[u8]) -> (r: Result<PacketLengths, PacketTooShort>)
    requires
        header@.len() == PACKET_HEADER_SIZE,
    ensures
        ({
            let total = wire::be32_at(header@, 0);
            let payload = wire::be32_at(header@, 4);
            if total < 8 + payload + 3 {
                r == Err::<PacketLengths, PacketTooShort>(PacketTooShort)
            } else {
                r == Ok::<PacketLengths, PacketTooShort>(
                    PacketLengths { rest: (total - 8) as usize, payload: payload as usize },
                )
            }
        }),
{
    let total: u64 = read_be32(header, 0) as u64;
    let payload: u64 = read_be32(header, 4) as u64;
    if total < 8 + payload + 3 {
        Err(PacketTooShort)
    } else {
        Ok(PacketLengths { rest: (total - 8) as usize, payload: payload as usize })
    }
}

} // verus!
