# ghostframe_transport

The transport layer of a remote screen. A server captures a screen, cuts it
into tiles, encodes them and sends them to a browser over WebTransport
datagrams. What is lost is sent again, what is superseded is dropped, and the
rate follows what the path delivers.

## Layout

- `src/` is the library. Every function in it carries a contract that Verus
  proves; what is asked of other crates stands behind functions whose contracts
  are believed, each with a comment that says what it claims.
- `tests/` runs the library on concrete values.
- `app/` is ordinary Rust around the library: the QUIC endpoint, the event loop,
  the settings from the environment. The parts that deal with pictures (capture,
  graphics processor, encoders) are a trait there, `Pipeline`, and so is the
  tailnet node, `Tailnet`.

## How the library is specified

Each type with state has a view, a plain mathematical value, and each operation
is a function from views to views. `ensures` clauses equate what the code did
with what that function says. Public proof functions state what holds across
operations: messages survive a round trip, a lost fragment is recovered from
parity, every transmission is classified exactly once, work that was superseded
is not sent, and so on.

Times are numbers of nanoseconds that the caller hands in, so that nothing in
the library depends on a clock. Shares and probabilities are whole numbers of
thousandths or of a fixed unit.
