//! The HTTP/3 and WebTransport handshake of one QUIC connection.
//!
//! [`WebTransportServer`] owns no QUIC state: it is told what arrived on which
//! stream and says what to write.
//!
//! ```text
//! new() --> [idle]
//!   on_new_connection:        SETTINGS for our control stream  -> [settings_sent]
//!   on_stream_readable (uni): buffer and decode the peer's SETTINGS
//!       -> peer_settings_received
//!   on_stream_readable (bi):  buffer and decode CONNECT, answer 200
//!       -> connected, session_stream
//! ```
//!
//! A WebTransport datagram starts with the quarter stream id: the session
//! stream's number divided by four, as a variable-length integer.
pub mod varint;

use crate::maps::key_list;
use crate::webtransport::varint::{decode_varint, encode_varint};
use crate::wire::{copy_range, push_bytes};
use std::collections::HashMap;
use vstd::prelude::*;
use web_transport_proto::{ConnectError, ConnectRequest, ConnectResponse, Settings, SettingsError};

verus! {

broadcast use {vstd::slice::group_slice_axioms, vstd::std_specs::hash::group_hash_axioms};

/// Sessions that our SETTINGS offer.
pub const MAX_SESSIONS: u32 = 1;

/// Bytes in the 200 response.
pub const RESPONSE_LEN: usize = 43;

/// Which way a stream runs.
#[derive(Debug, Clone, Copy, PartialEq, Eq, Structural)]
pub enum StreamDir {
    Bi,
    Uni,
}

/// What the bytes of a unidirectional stream are, read as SETTINGS.
#[derive(Debug, Clone, Copy, PartialEq, Eq, Structural)]
pub enum SettingsReply {
    /// SETTINGS that allow so many WebTransport sessions.
    Sessions(u64),
    /// The start of something longer.
    Incomplete,
    /// A stream of another type.
    OtherStream,
    /// A control stream that holds something else.
    Malformed,
}

/// What the bytes of a bidirectional stream are, read as a CONNECT request.
#[derive(Debug, Clone, Copy, PartialEq, Eq, Structural)]
pub enum ConnectReply {
    /// A WebTransport CONNECT request.
    Request,
    /// The start of something longer.
    Incomplete,
    /// Something else.
    Malformed,
}

/// What `Settings::decode` makes of these bytes.
pub uninterp spec fn settings_reply(data: Seq<u8>) -> SettingsReply;

/// What `ConnectRequest::decode` makes of these bytes.
pub uninterp spec fn connect_reply(data: Seq<u8>) -> ConnectReply;

/// The header field `sec-webtransport-http3-draft: draft02` as a literal.
pub open spec fn draft_field() -> Seq<u8> {
    seq![
        0x27u8, 0x15, 0x73, 0x65, 0x63, 0x2d, 0x77, 0x65, 0x62, 0x74, 0x72, 0x61, 0x6e, 0x73,
        0x70, 0x6f, 0x72, 0x74, 0x2d, 0x68, 0x74, 0x74, 0x70, 0x33, 0x2d, 0x64, 0x72, 0x61, 0x66,
        0x74, 0x07, 0x64, 0x72, 0x61, 0x66, 0x74, 0x30, 0x32,
    ]
}

/// The 200 response: a HEADERS frame with the status and the draft field.
pub open spec fn ok_response() -> Seq<u8> {
    seq![0x01u8, 0x29, 0x00, 0x00, 0xd9] + draft_field()
}

/// Calls `Settings::default`, `enable_webtransport` and `Settings::encode`.
///
/// Claimed: the bytes start with the control stream's type and decode to
/// SETTINGS for that many sessions. The order of the fields is not said: it
/// differs from call to call.
#[verifier::external_body]
fn encode_settings(max_sessions: u32) -> (out: Vec<u8>)
    ensures
        out@.len() > 0,
        out@[0] == 0,
        settings_reply(out@) == SettingsReply::Sessions(max_sessions as u64),
{
    let mut settings = Settings::default();
    settings.enable_webtransport(max_sessions);
    let mut buf: Vec<u8> = Vec::new();
    settings.encode(&mut buf);
    buf
}

/// Calls `Settings::decode` and, on what it gives, `supports_webtransport`.
///
/// Claimed: the outcome depends on the bytes alone; no bytes are incomplete;
/// a first byte of 1 to 63 is the type of another stream.
#[verifier::external_body]
fn decode_settings(data: &[u8]) -> (r: SettingsReply)
    ensures
        r == settings_reply(data@),
        data@.len() == 0 ==> r == SettingsReply::Incomplete,
        data@.len() > 0 && 0 < data@[0] < 0x40 ==> r == SettingsReply::OtherStream,
{
    let mut rest: &[u8] = data;
    match Settings::decode(&mut rest) {
        Ok(settings) => SettingsReply::Sessions(settings.supports_webtransport()),
        Err(SettingsError::UnexpectedEnd) => SettingsReply::Incomplete,
        Err(SettingsError::UnexpectedStreamType(_)) => SettingsReply::OtherStream,
        Err(_) => SettingsReply::Malformed,
    }
}

/// Calls `ConnectRequest::decode`.
///
/// Claimed: whether the bytes are a request, the start of one or neither
/// depends on the bytes alone; no bytes are incomplete.
#[verifier::external_body]
fn decode_connect(data: &[u8]) -> (r: ConnectReply)
    ensures
        r == connect_reply(data@),
        data@.len() == 0 ==> r == ConnectReply::Incomplete,
{
    let mut rest: &[u8] = data;
    match ConnectRequest::decode(&mut rest) {
        Ok(_) => ConnectReply::Request,
        Err(ConnectError::UnexpectedEnd) => ConnectReply::Incomplete,
        Err(_) => ConnectReply::Malformed,
    }
}

/// Calls `ConnectResponse::encode` on `ConnectResponse::OK`.
///
/// Claimed: it succeeds and writes exactly [`ok_response`].
#[verifier::external_body]
fn encode_response() -> (r: Option<Vec<u8>>)
    ensures
        r is Some,
        r->0@ == ok_response(),
{
    let mut buf: Vec<u8> = Vec::new();
    match ConnectResponse::OK.encode(&mut buf) {
        Ok(()) => Some(buf),
        Err(_) => None,
    }
}

/// A stream number with its second bit clear runs both ways.
pub open spec fn runs_both_ways(sid: u64) -> bool {
    sid / 2 % 2 == 0
}

/// An optional stream as a sequence of none or one.
pub open spec fn listed(stream: Option<u64>) -> Seq<u64> {
    match stream {
        Some(s) => seq![s],
        None => Seq::empty(),
    }
}

/// Whether a stream is another one than `sid`.
pub open spec fn other_than(sid: u64) -> spec_fn(u64) -> bool {
    |s: u64| s != sid
}

/// The streams of `pending` other than `sid`.
pub open spec fn without(pending: Seq<u64>, sid: u64) -> Seq<u64> {
    pending.filter(other_than(sid))
}

/// The handshake as mathematics.
#[verifier::ext_equal]
pub struct HandshakeView {
    pub settings_sent: bool,
    pub peer_settings_received: bool,
    pub our_control_stream: Option<u64>,
    pub peer_control_stream: Option<u64>,
    pub session_stream: Option<u64>,
    pub connected: bool,
    /// Bytes received and not yet understood, by stream.
    pub bufs: Map<u64, Seq<u8>>,
    /// Bidirectional streams accepted and not yet understood.
    pub pending: Seq<u64>,
    /// What arrived on streams beside the session, oldest first.
    pub feedback: Seq<Seq<u8>>,
}

impl HandshakeView {
    /// A fresh connection.
    pub open spec fn idle() -> HandshakeView {
        HandshakeView {
            settings_sent: false,
            peer_settings_received: false,
            our_control_stream: None,
            peer_control_stream: None,
            session_stream: None,
            connected: false,
            bufs: Map::empty(),
            pending: Seq::empty(),
            feedback: Seq::empty(),
        }
    }

    /// A live session has a stream.
    pub open spec fn wf(self) -> bool {
        self.connected ==> self.session_stream is Some
    }

    /// The SETTINGS were written on `sid`.
    pub open spec fn settings_written(self, sid: u64) -> HandshakeView {
        HandshakeView { our_control_stream: Some(sid), settings_sent: true, ..self }
    }

    /// A stream was accepted.
    pub open spec fn opened(self, sid: u64, dir: StreamDir) -> HandshakeView {
        if dir == StreamDir::Bi {
            HandshakeView { pending: self.pending.push(sid), ..self }
        } else {
            self
        }
    }

    /// The bytes kept for `sid`.
    pub open spec fn kept(self, sid: u64) -> Seq<u8> {
        if self.bufs.contains_key(sid) {
            self.bufs[sid]
        } else {
            Seq::empty()
        }
    }

    /// `bytes` were kept behind what `sid` held.
    pub open spec fn buffered(self, sid: u64, bytes: Seq<u8>) -> HandshakeView {
        HandshakeView { bufs: self.bufs.insert(sid, self.kept(sid) + bytes), ..self }
    }

    /// Nothing is kept for `sid` any more.
    pub open spec fn unbuffered(self, sid: u64) -> HandshakeView {
        HandshakeView { bufs: self.bufs.remove(sid), ..self }
    }

    /// `sid` is no candidate for the session any more.
    pub open spec fn settled(self, sid: u64) -> HandshakeView {
        HandshakeView { pending: without(self.pending, sid), ..self.unbuffered(sid) }
    }

    /// What `sid` held, read as SETTINGS, came out as `reply`.
    pub open spec fn settings_seen(self, sid: u64, reply: SettingsReply) -> HandshakeView {
        match reply {
            SettingsReply::Sessions(_) => HandshakeView {
                peer_control_stream: Some(sid),
                peer_settings_received: true,
                ..self.unbuffered(sid)
            },
            SettingsReply::Incomplete => self,
            _ => self.unbuffered(sid),
        }
    }

    /// What `sid` held, read as a request, came out as `reply`.
    pub open spec fn connect_seen(self, sid: u64, reply: ConnectReply) -> HandshakeView {
        match reply {
            ConnectReply::Malformed => self.settled(sid),
            _ => self,
        }
    }

    /// What `sid` held became feedback.
    pub open spec fn fed_back(self, sid: u64) -> HandshakeView {
        HandshakeView {
            feedback: if self.kept(sid).len() == 0 {
                self.feedback
            } else {
                self.feedback.push(self.kept(sid))
            },
            ..self.settled(sid)
        }
    }

    /// Whether data on `sid` is looked at.
    pub open spec fn listens_to(self, sid: u64) -> bool {
        self.peer_control_stream != Some(sid) && self.session_stream != Some(sid)
    }

    /// Whether `sid` may carry a request.
    pub open spec fn is_candidate(self, sid: u64) -> bool {
        self.pending.contains(sid) || runs_both_ways(sid)
    }

    /// `bytes` arrived on `sid`, where the two readings of what `sid` then
    /// holds come out as `settings` and `connect`.
    pub open spec fn received(
        self,
        sid: u64,
        bytes: Seq<u8>,
        settings: SettingsReply,
        connect: ConnectReply,
    ) -> HandshakeView {
        if bytes.len() == 0 || !self.listens_to(sid) {
            self
        } else if !self.is_candidate(sid) {
            self.buffered(sid, bytes).settings_seen(sid, settings)
        } else if self.connected {
            self.buffered(sid, bytes).fed_back(sid)
        } else {
            self.buffered(sid, bytes).connect_seen(sid, connect)
        }
    }

    /// Whether `bytes` on `sid` call for the 200 response.
    pub open spec fn answers(self, sid: u64, bytes: Seq<u8>, connect: ConnectReply) -> bool {
        bytes.len() > 0 && self.listens_to(sid) && self.is_candidate(sid) && !self.connected
            && connect == ConnectReply::Request
    }

    /// The response was written on `sid`, `written` bytes of it; `None` where
    /// the write failed.
    pub open spec fn answered(self, sid: u64, written: Option<usize>) -> HandshakeView {
        if !self.connected && written == Some(RESPONSE_LEN) {
            HandshakeView { session_stream: Some(sid), connected: true, ..self.settled(sid) }
        } else {
            self
        }
    }
}

/// Handshake state of one QUIC connection.
pub struct WebTransportServer {
    /// Our SETTINGS were sent on our control stream.
    pub settings_sent: bool,
    /// The peer's SETTINGS were received and decoded.
    pub peer_settings_received: bool,
    pub our_control_stream: Option<u64>,
    /// The peer's control stream: the one that carried SETTINGS.
    pub peer_control_stream: Option<u64>,
    /// The bidirectional stream of the accepted CONNECT request.
    pub session_stream: Option<u64>,
    connected: bool,
    stream_bufs: HashMap<u64, Vec<u8>>,
    pending_bidi_streams: Vec<u64>,
    feedback_queue: Vec<Vec<u8>>,
}

impl View for WebTransportServer {
    type V = HandshakeView;

    closed spec fn view(&self) -> HandshakeView {
        HandshakeView {
            settings_sent: self.settings_sent,
            peer_settings_received: self.peer_settings_received,
            our_control_stream: self.our_control_stream,
            peer_control_stream: self.peer_control_stream,
            session_stream: self.session_stream,
            connected: self.connected,
            bufs: self.stream_bufs@.map_values(|b: Vec<u8>| b@),
            pending: self.pending_bidi_streams@,
            feedback: self.feedback_queue@.map_values(|b: Vec<u8>| b@),
        }
    }
}

impl WebTransportServer {
    /// A fresh handler without a session.
    pub fn new() -> (wt: Self)
        ensures
            wt@ == HandshakeView::idle(),
            wt@.wf(),
    {
        let wt = WebTransportServer {
            settings_sent: false,
            peer_settings_received: false,
            our_control_stream: None,
            peer_control_stream: None,
            session_stream: None,
            connected: false,
            stream_bufs: HashMap::new(),
            pending_bidi_streams: Vec::new(),
            feedback_queue: Vec::new(),
        };
        assert(wt@ =~= HandshakeView::idle());
        wt
    }

    /// Whether the session is live.
    pub fn is_connected(&self) -> (yes: bool)
        ensures
            yes == self@.connected,
    {
        self.connected
    }

    /// Every stream known here: those with bytes kept, in any order, those
    /// pending, the peer's control stream and the session.
    pub fn all_known_stream_ids(&self) -> (ids: Vec<u64>)
        ensures
            exists|keys: Seq<u64>|
                #![auto]
                keys.no_duplicates() && keys.to_set() == self@.bufs.dom() && ids@ == keys
                    + self@.pending + listed(self@.peer_control_stream) + listed(
                    self@.session_stream,
                ),
    {
        let keys = key_list(&self.stream_bufs);
        let ghost held = keys@;
        let mut ids = keys;
        let n: usize = self.pending_bidi_streams.len();
        let mut i: usize = 0;
        while i < n
            invariant
                i <= n == self.pending_bidi_streams@.len(),
                ids@ == held + self.pending_bidi_streams@.take(i as int),
            decreases n - i,
        {
            ids.push(self.pending_bidi_streams[i]);
            i = i + 1;
            assert(ids@ =~= held + self.pending_bidi_streams@.take(i as int));
        }
        if let Some(s) = self.peer_control_stream {
            ids.push(s);
        }
        if let Some(s) = self.session_stream {
            ids.push(s);
        }
        assert(held.to_set() =~= self@.bufs.dom());
        assert(ids@ =~= held + self@.pending + listed(self@.peer_control_stream) + listed(
            self@.session_stream,
        ));
        ids
    }

    /// The SETTINGS to write on a fresh control stream, unless they were sent.
    ///
    /// Once they are written, [`Self::on_settings_written`] records it.
    pub fn on_new_connection(&self) -> (settings: Option<Vec<u8>>)
        ensures
            settings is Some <==> !self@.settings_sent,
            settings is Some ==> settings_reply(settings->0@) == SettingsReply::Sessions(
                MAX_SESSIONS as u64,
            ),
    {
        if self.settings_sent {
            None
        } else {
            Some(encode_settings(MAX_SESSIONS))
        }
    }

    /// The SETTINGS were written on `sid`, in whole or in part: what is left
    /// over stands in the stream's own buffer.
    pub fn on_settings_written(&mut self, sid: u64)
        requires
            old(self)@.wf(),
        ensures
            final(self)@ == old(self)@.settings_written(sid),
            final(self)@.wf(),
    {
        self.our_control_stream = Some(sid);
        self.settings_sent = true;
        assert(self@ =~= old(self)@.settings_written(sid));
    }

    /// The peer opened `sid` and it was accepted.
    pub fn on_stream_opened(&mut self, sid: u64, dir: StreamDir)
        requires
            old(self)@.wf(),
        ensures
            final(self)@ == old(self)@.opened(sid, dir),
            final(self)@.wf(),
    {
        if dir == StreamDir::Bi {
            self.pending_bidi_streams.push(sid);
        }
        assert(self@ =~= old(self)@.opened(sid, dir));
    }

    /// `bytes` arrived on `sid`. Gives the response to write on `sid`, if one
    /// is due; [`Self::on_response_written`] then says how that went.
    pub fn on_stream_readable(&mut self, sid: u64, bytes: &[u8]) -> (response: Option<Vec<u8>>)
        requires
            old(self)@.wf(),
        ensures
            ({
                let held = old(self)@.kept(sid) + bytes@;
                &&& final(self)@ == old(self)@.received(
                    sid,
                    bytes@,
                    settings_reply(held),
                    connect_reply(held),
                )
                &&& response is Some <==> old(self)@.answers(sid, bytes@, connect_reply(held))
                &&& response is Some ==> response->0@ == ok_response()
            }),
            final(self)@.wf(),
    {
        if bytes.len() == 0 {
            return None;
        }
        if let Some(control) = self.peer_control_stream {
            if control == sid {
                return None;
            }
        }
        if let Some(session) = self.session_stream {
            if session == sid {
                return None;
            }
        }
        let candidate = self.is_pending(sid) || sid / 2 % 2 == 0;
        let held = self.buffer(sid, bytes);
        if !candidate {
            let reply = decode_settings(held.as_slice());
            self.absorb_settings(sid, reply);
            None
        } else if self.connected {
            self.feed_back(sid);
            None
        } else {
            let reply = decode_connect(held.as_slice());
            if self.absorb_connect(sid, reply) {
                encode_response()
            } else {
                None
            }
        }
    }

    /// The write of the response on `sid` took `written` bytes, or failed.
    /// Only a whole response opens the session.
    pub fn on_response_written(&mut self, sid: u64, written: Option<usize>)
        requires
            old(self)@.wf(),
        ensures
            final(self)@ == old(self)@.answered(sid, written),
            final(self)@.wf(),
    {
        if let Some(n) = written {
            if n == RESPONSE_LEN && !self.connected {
                self.session_stream = Some(sid);
                self.connected = true;
                self.settle(sid);
            }
        }
        assert(self@ =~= old(self)@.answered(sid, written));
    }

    /// What a received datagram carries behind its quarter stream id; `None`
    /// without a session or where the id is cut short.
    pub fn recv_datagram(&self, raw: &[u8]) -> (payload: Option<Vec<u8>>)
        ensures
            match (payload, varint::varint_at(raw@)) {
                (Some(p), Some((_, n))) => self@.connected && p@ == raw@.skip(n as int),
                (None, Some(_)) => !self@.connected,
                (Some(_), None) => false,
                (None, None) => true,
            },
    {
        if !self.connected {
            return None;
        }
        match decode_varint(raw) {
            Some((_, rest)) => {
                let payload = copy_range(rest, 0, rest.len());
                assert(payload@ =~= rest@);
                Some(payload)
            },
            None => None,
        }
    }

    /// The datagram that carries `payload`; `None` without a session.
    pub fn send_datagram(&self, payload: &[u8]) -> (datagram: Option<Vec<u8>>)
        requires
            self@.wf(),
        ensures
            datagram is Some <==> self@.connected,
            datagram is Some ==> datagram->0@ == varint::varint_bytes(
                (self@.session_stream->0 / 4) as u64,
            ) + payload@,
    {
        if !self.connected {
            return None;
        }
        match self.session_stream {
            Some(session) => {
                let mut datagram = encode_varint(session / 4);
                push_bytes(&mut datagram, payload);
                Some(datagram)
            },
            None => None,
        }
    }

    /// Hands out everything that arrived beside the session.
    pub fn drain_feedback(&mut self) -> (queue: Vec<Vec<u8>>)
        requires
            old(self)@.wf(),
        ensures
            queue@.map_values(|b: Vec<u8>| b@) == old(self)@.feedback,
            final(self)@ == (HandshakeView { feedback: Seq::empty(), ..old(self)@ }),
            final(self)@.wf(),
    {
        let mut queue: Vec<Vec<u8>> = Vec::new();
        std::mem::swap(&mut queue, &mut self.feedback_queue);
        assert(self@ =~= HandshakeView { feedback: Seq::empty(), ..old(self)@ });
        queue
    }

    fn is_pending(&self, sid: u64) -> (yes: bool)
        ensures
            yes == self@.pending.contains(sid),
    {
        let n: usize = self.pending_bidi_streams.len();
        let mut i: usize = 0;
        while i < n
            invariant
                i <= n == self.pending_bidi_streams@.len(),
                !self.pending_bidi_streams@.take(i as int).contains(sid),
            decreases n - i,
        {
            if self.pending_bidi_streams[i] == sid {
                return true;
            }
            i = i + 1;
            assert(self.pending_bidi_streams@.take(i as int).drop_last()
                =~= self.pending_bidi_streams@.take(i - 1));
            assert forall|j: int| 0 <= j < i implies self.pending_bidi_streams@.take(i as int)[j]
                != sid by {
                if j < i - 1 {
                    assert(self.pending_bidi_streams@.take(i - 1)[j] != sid);
                }
            }
        }
        assert(self.pending_bidi_streams@.take(n as int) =~= self.pending_bidi_streams@);
        false
    }

    /// Keeps `bytes` for `sid` and gives all that is kept for it.
    fn buffer(&mut self, sid: u64, bytes: &[u8]) -> (held: Vec<u8>)
        ensures
            final(self)@ == old(self)@.buffered(sid, bytes@),
            held@ == old(self)@.kept(sid) + bytes@,
    {
        let mut buf: Vec<u8> = match self.stream_bufs.remove(&sid) {
            Some(b) => b,
            None => Vec::new(),
        };
        assert(buf@ =~= old(self)@.kept(sid));
        push_bytes(&mut buf, bytes);
        let held = copy_range(buf.as_slice(), 0, buf.len());
        assert(held@ =~= buf@);
        self.stream_bufs.insert(sid, buf);
        assert(self@.bufs =~= old(self)@.buffered(sid, bytes@).bufs);
        assert(self@ =~= old(self)@.buffered(sid, bytes@));
        held
    }

    /// Records what the bytes kept for `sid` are, read as SETTINGS.
    pub fn absorb_settings(&mut self, sid: u64, reply: SettingsReply)
        requires
            old(self)@.wf(),
        ensures
            final(self)@ == old(self)@.settings_seen(sid, reply),
            final(self)@.wf(),
    {
        match reply {
            SettingsReply::Sessions(_) => {
                self.peer_control_stream = Some(sid);
                self.peer_settings_received = true;
                self.stream_bufs.remove(&sid);
            },
            SettingsReply::Incomplete => {},
            _ => {
                self.stream_bufs.remove(&sid);
            },
        }
        assert(self@.bufs =~= old(self)@.settings_seen(sid, reply).bufs);
        assert(self@ =~= old(self)@.settings_seen(sid, reply));
    }

    /// Records what the bytes kept for `sid` are, read as a request; says
    /// whether they are one.
    pub fn absorb_connect(&mut self, sid: u64, reply: ConnectReply) -> (answer: bool)
        requires
            old(self)@.wf(),
        ensures
            final(self)@ == old(self)@.connect_seen(sid, reply),
            answer == (reply == ConnectReply::Request),
            final(self)@.wf(),
    {
        match reply {
            ConnectReply::Request => true,
            ConnectReply::Incomplete => false,
            ConnectReply::Malformed => {
                self.settle(sid);
                false
            },
        }
    }

    /// Moves the bytes kept for `sid` to the feedback queue.
    fn feed_back(&mut self, sid: u64)
        ensures
            final(self)@ == old(self)@.fed_back(sid),
    {
        if let Some(data) = self.stream_bufs.remove(&sid) {
            if data.len() > 0 {
                self.feedback_queue.push(data);
            }
        }
        assert(self@.feedback =~= old(self)@.fed_back(sid).feedback);
        assert(self@.bufs =~= old(self)@.bufs.remove(sid));
        self.settle(sid);
        assert(self@.bufs =~= old(self)@.bufs.remove(sid));
        assert(self@ =~= old(self)@.fed_back(sid));
    }

    /// Forgets what is kept for `sid`, and that it is pending.
    fn settle(&mut self, sid: u64)
        ensures
            final(self)@ == old(self)@.settled(sid),
    {
        self.stream_bufs.remove(&sid);
        let ghost keep = other_than(sid);
        let ghost all = self.pending_bidi_streams@;
        let mut left: Vec<u64> = Vec::new();
        let n: usize = self.pending_bidi_streams.len();
        let mut i: usize = 0;
        assert(all.take(0).filter(keep) =~= Seq::empty()) by {
            reveal(Seq::filter);
        }
        while i < n
            invariant
                i <= n == all.len(),
                all == self.pending_bidi_streams@,
                keep == other_than(sid),
                left@ == all.take(i as int).filter(keep),
            decreases n - i,
        {
            let s: u64 = self.pending_bidi_streams[i];
            proof {
                reveal(Seq::filter);
                assert(all.take(i + 1).drop_last() =~= all.take(i as int));
                assert(all.take(i + 1).last() == s);
            }
            if s != sid {
                left.push(s);
            }
            i = i + 1;
        }
        assert(all.take(n as int) =~= all);
        self.pending_bidi_streams = left;
        assert(self@.bufs =~= old(self)@.bufs.remove(sid));
        assert(self@ =~= old(self)@.settled(sid));
    }
}

/// A request whose response was written in whole opens the session on its
/// stream, and nothing of that stream is left waiting.
pub proof fn handshake_completes(v: HandshakeView, sid: u64, bytes: Seq<u8>, settings: SettingsReply)
    requires
        v.wf(),
        v.answers(sid, bytes, ConnectReply::Request),
    ensures
        ({
            let done = v.received(sid, bytes, settings, ConnectReply::Request).answered(
                sid,
                Some(RESPONSE_LEN),
            );
            &&& done.wf()
            &&& done.connected
            &&& done.session_stream == Some(sid)
            &&& !done.pending.contains(sid)
            &&& !done.bufs.contains_key(sid)
        }),
{
    let pending = v.pending;
    let keep = other_than(sid);
    assert forall|i: int| 0 <= i < pending.filter(keep).len() implies pending.filter(keep)[i]
        != sid by {
        pending.lemma_filter_pred(keep, i);
    }
}

/// A short or failed write of the response changes nothing: the request is
/// still held, and the next bytes have it read again.
pub proof fn short_response_changes_nothing(v: HandshakeView, sid: u64, written: Option<usize>)
    requires
        v.wf(),
        written != Some(RESPONSE_LEN),
    ensures
        v.answered(sid, written) == v,
{
}

/// A request that arrives in two pieces is read as one that arrives at once.
pub proof fn pieces_add_up(
    v: HandshakeView,
    sid: u64,
    first: Seq<u8>,
    second: Seq<u8>,
    settings: SettingsReply,
    connect: ConnectReply,
)
    requires
        v.wf(),
        !v.connected,
        first.len() > 0,
        second.len() > 0,
    ensures
        v.received(sid, first, SettingsReply::Incomplete, ConnectReply::Incomplete).received(
            sid,
            second,
            settings,
            connect,
        ) == v.received(sid, first + second, settings, connect),
{
    let whole = v.received(sid, first + second, settings, connect);
    let half = v.received(sid, first, SettingsReply::Incomplete, ConnectReply::Incomplete);
    let both = half.received(sid, second, settings, connect);
    assert(v.kept(sid) + first + second =~= v.kept(sid) + (first + second));
    if v.listens_to(sid) {
        assert(half.kept(sid) + second == v.kept(sid) + (first + second));
        assert(half.buffered(sid, second).bufs =~= v.buffered(sid, first + second).bufs);
        assert(half.buffered(sid, second) =~= v.buffered(sid, first + second));
    }
}

/// Once a session is live, nothing replaces or ends it.
pub proof fn session_stays(
    v: HandshakeView,
    sid: u64,
    bytes: Seq<u8>,
    settings: SettingsReply,
    connect: ConnectReply,
    written: Option<usize>,
    dir: StreamDir,
)
    requires
        v.wf(),
        v.connected,
    ensures
        v.received(sid, bytes, settings, connect).connected,
        v.received(sid, bytes, settings, connect).session_stream == v.session_stream,
        v.answered(sid, written) == v,
        v.settings_written(sid).connected,
        v.settings_written(sid).session_stream == v.session_stream,
        v.opened(sid, dir).connected,
        v.opened(sid, dir).session_stream == v.session_stream,
        !v.answers(sid, bytes, connect),
{
}

/// Beside a live session, what arrives on a bidirectional stream joins the
/// feedback whole and in order.
pub proof fn feedback_keeps_order(
    v: HandshakeView,
    sid: u64,
    bytes: Seq<u8>,
    settings: SettingsReply,
    connect: ConnectReply,
)
    requires
        v.wf(),
        v.connected,
        v.listens_to(sid),
        v.is_candidate(sid),
        bytes.len() > 0,
    ensures
        v.received(sid, bytes, settings, connect).feedback == v.feedback.push(
            v.kept(sid) + bytes,
        ),
        !v.received(sid, bytes, settings, connect).bufs.contains_key(sid),
{
}

/// What one side of a session sends, the other side reads: the payload comes
/// back out from behind the quarter stream id.
pub proof fn datagram_round_trip(session: u64, payload: Seq<u8>)
    ensures
        ({
            let datagram = varint::varint_bytes((session / 4) as u64) + payload;
            match varint::varint_at(datagram) {
                Some((id, n)) => id == session / 4 && datagram.skip(n as int) == payload,
                None => false,
            }
        }),
{
    let id = (session / 4) as u64;
    varint::varint_round_trip(id, payload);
    assert((varint::varint_bytes(id) + payload).skip(varint::varint_len(id) as int) =~= payload);
}

impl Default for WebTransportServer {
    fn default() -> (wt: Self)
        ensures
            wt@ == HandshakeView::idle(),
            wt@.wf(),
    {
        WebTransportServer::new()
    }
}

/// Two states that agree in everything but what stream `sid` holds.
pub open spec fn same_but_stream(a: HandshakeView, b: HandshakeView, sid: u64) -> bool {
    &&& a.settings_sent == b.settings_sent
    &&& a.our_control_stream == b.our_control_stream
    &&& forall|s: u64|
        s != sid ==> #[trigger] a.bufs.contains_key(s) == b.bufs.contains_key(s) && (
        b.bufs.contains_key(s) ==> a.bufs[s] == b.bufs[s])
    &&& forall|s: u64| s != sid ==> #[trigger] a.pending.contains(s) == b.pending.contains(s)
}

/// What a stream brings: nothing new on the control stream and on the session
/// stream; settings on a stream that runs one way; feedback on one that runs
/// both ways once there is a session, and before that the wish for one.  What
/// is not yet complete is kept, and other streams are left alone.
pub proof fn a_stream_brings_one_thing(
    v: HandshakeView,
    sid: u64,
    bytes: Seq<u8>,
    settings: SettingsReply,
    connect: ConnectReply,
)
    requires
        bytes.len() > 0,
    ensures
        ({
            let a = v.received(sid, bytes, settings, connect);
            let held = if v.bufs.contains_key(sid) {
                v.bufs[sid] + bytes
            } else {
                bytes
            };
            let own = v.peer_control_stream == Some(sid) || v.session_stream == Some(sid);
            let both_ways = v.pending.contains(sid) || sid % 4 < 2;
            &&& own ==> a == v
            &&& same_but_stream(a, v, sid)
            &&& a.connected == v.connected && a.session_stream == v.session_stream
            &&& !own && !both_ways ==> {
                &&& a.feedback == v.feedback && a.pending == v.pending
                &&& settings is Sessions ==> a.peer_settings_received && a.peer_control_stream
                    == Some(sid) && !a.bufs.contains_key(sid)
                &&& settings !is Sessions ==> a.peer_settings_received == v.peer_settings_received
                    && a.peer_control_stream == v.peer_control_stream
                &&& settings is Incomplete ==> a.bufs.contains_key(sid) && a.bufs[sid] == held
                &&& settings is OtherStream || settings is Malformed ==> !a.bufs.contains_key(sid)
            }
            &&& !own && both_ways ==> a.peer_settings_received == v.peer_settings_received
                && a.peer_control_stream == v.peer_control_stream
            &&& !own && both_ways && v.connected ==> {
                &&& a.feedback == v.feedback.push(held)
                &&& !a.bufs.contains_key(sid)
                &&& !a.pending.contains(sid)
            }
            &&& !own && both_ways && !v.connected ==> {
                &&& a.feedback == v.feedback
                &&& connect is Malformed ==> !a.bufs.contains_key(sid) && !a.pending.contains(sid)
                &&& connect !is Malformed ==> a.bufs.contains_key(sid) && a.bufs[sid] == held
                    && a.pending == v.pending
            }
        }),
{
    let held = v.buffered(sid, bytes);
    assert(Seq::<u8>::empty() + bytes =~= bytes);
    assert(runs_both_ways(sid) <==> sid % 4 < 2);
    other_streams_wait(v.pending, sid);
}

proof fn other_streams_wait(pending: Seq<u64>, sid: u64)
    ensures
        !without(pending, sid).contains(sid),
        forall|s: u64| s != sid ==> #[trigger] without(pending, sid).contains(s) == pending.contains(
            s,
        ),
{
    let rest = without(pending, sid);
    if rest.contains(sid) {
        let i = choose|i: int| 0 <= i < rest.len() && rest[i] == sid;
        crate::seqs::filter_member(pending, other_than(sid), i);
    }
    assert forall|s: u64| s != sid implies #[trigger] rest.contains(s) == pending.contains(s) by {
        if rest.contains(s) {
            let i = choose|i: int| 0 <= i < rest.len() && rest[i] == s;
            crate::seqs::filter_member(pending, other_than(sid), i);
        }
        if pending.contains(s) {
            let i = choose|i: int| 0 <= i < pending.len() && pending[i] == s;
            crate::seqs::filter_keeps(pending, other_than(sid), i);
        }
    }
}

/// Bytes that end nothing change nothing.
pub proof fn no_bytes_bring_nothing(
    v: HandshakeView,
    sid: u64,
    settings: SettingsReply,
    connect: ConnectReply,
)
    ensures
        v.received(sid, Seq::empty(), settings, connect) == v,
        !v.answers(sid, Seq::empty(), connect),
{
}

/// A wish for a session is answered when it is complete, on a stream that runs
/// both ways, and only while there is no session; the session begins once the
/// whole answer is written.
pub proof fn a_session_begins_with_a_whole_answer(
    v: HandshakeView,
    sid: u64,
    bytes: Seq<u8>,
    connect: ConnectReply,
    written: usize,
)
    requires
        bytes.len() > 0,
        v.peer_control_stream != Some(sid),
        v.session_stream != Some(sid),
    ensures
        v.answers(sid, bytes, connect) <==> !v.connected && connect is Request && (
        v.pending.contains(sid) || sid % 4 < 2),
        !v.connected && written == 43 ==> {
            let a = v.answered(sid, Some(written));
            &&& a.connected && a.session_stream == Some(sid)
            &&& a.feedback == v.feedback
            &&& a.peer_control_stream == v.peer_control_stream
            &&& a.peer_settings_received == v.peer_settings_received
            &&& same_but_stream(a, v, sid)
        },
        v.connected || written != 43 ==> v.answered(sid, Some(written)) == v,
        v.answered(sid, None) == v,
{
    assert(runs_both_ways(sid) <==> sid % 4 < 2);
    other_streams_wait(v.pending, sid);
}

/// A stream that the peer opens both ways is awaited; one way, it is not.
pub proof fn opened_streams_are_awaited(v: HandshakeView, sid: u64)
    ensures
        v.opened(sid, StreamDir::Bi).pending == v.pending.push(sid),
        v.opened(sid, StreamDir::Bi).bufs == v.bufs,
        v.opened(sid, StreamDir::Uni) == v,
        v.settings_written(sid).settings_sent,
        v.settings_written(sid).our_control_stream == Some(sid),
        v.settings_written(sid).bufs == v.bufs && v.settings_written(sid).pending == v.pending,
{
}

/// A new server has sent and received nothing.
pub proof fn a_new_server_is_idle(sid: u64)
    ensures
        ({
            let v = HandshakeView::idle();
            &&& !v.settings_sent && !v.peer_settings_received && !v.connected
            &&& v.our_control_stream is None && v.peer_control_stream is None
            &&& v.session_stream is None
            &&& !v.bufs.contains_key(sid)
            &&& v.pending.len() == 0 && v.feedback.len() == 0
        }),
{
}

} // verus!
