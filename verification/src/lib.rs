//! The transport of a remote screen: tiles and video frames go to a browser in
//! datagrams of a WebTransport session, and come again until they are
//! acknowledged.
//!
//! Everything here works on plain values and on times that are handed in.
//! Sockets, the QUIC endpoint, the graphics processor and the encoders are
//! outside; they hand in what happened and are told what to do.
//!
//! - [`protocol`], [`ack`], [`client_caps`], [`decode_error`], [`display`] and
//!   [`input_inject`] are the messages on the wire; [`wire_layout`] tells where
//!   their bytes lie.
//! - [`scheduler`] decides which tile work is sent when, and [`io_bridge`] leads
//!   a frame from its capture to its datagrams.
//! - [`reliable_emitter`], [`fragment_coverage`] and [`transmission_ledger`]
//!   keep what is in flight; [`fec`] adds parity.
//! - [`bwe`] estimates the bandwidth from acknowledgements, and [`ack_latency`]
//!   measures how long they take.
//! - [`webtransport`] and [`quic`] are the handshake and its rules.
//! - [`drop_plan`], [`loss_injection`] and [`bandwidth_cap`] spoil the path for
//!   tests.
pub mod ack;
pub mod ack_latency;
pub mod bandwidth_cap;
pub mod bits;
pub mod bwe;
pub mod client_caps;
pub mod decode_error;
pub mod display;
pub mod drop_plan;
pub mod fec;
pub mod fragment_coverage;
pub mod ghostbridge;
pub mod input_inject;
pub mod io_bridge;
pub mod loss_injection;
pub mod maps;
pub mod protocol;
pub mod quic;
pub mod reliable_emitter;
pub mod scheduler;
pub mod seqs;
pub mod time;
pub mod transmission_ledger;
pub mod webtransport;
pub mod wire;
pub mod wire_layout;
pub mod xor;
