//! Reliable tile emission: retransmission, parity and acknowledgement.
pub mod cache;
pub mod emission_queue;
pub mod emitter;
pub mod guarantees;
pub mod lists;
pub mod parity;
pub mod repetition;
pub mod rto;
pub mod traits;
pub mod wire_seq;

pub use crate::reliable_emitter::emitter::ReliableTileEmitter;

use vstd::prelude::*;

verus! {

/// Identity of a tile-pass: what is acknowledged, retransmitted and cancelled.
#[derive(Debug, Clone, Copy, PartialEq, Eq, Structural, Hash)]
pub struct EmitKey {
    pub frame_seq: u32,
    pub tile_x: u8,
    pub tile_y: u8,
    pub pass_idx: u8,
}

impl EmitKey {
    pub fn new(frame_seq: u32, tile_x: u8, tile_y: u8, pass_idx: u8) -> (k: Self)
        ensures
            k == (EmitKey { frame_seq, tile_x, tile_y, pass_idx }),
    {
        EmitKey { frame_seq, tile_x, tile_y, pass_idx }
    }

    pub open spec fn is_tile(self, tile_x: u8, tile_y: u8) -> bool {
        self.tile_x == tile_x && self.tile_y == tile_y
    }

    /// The key as one number.
    pub open spec fn packed(self) -> u64 {
        (self.tile_x + 0x100 * (self.tile_y + 0x100 * (self.pass_idx + 0x100
            * self.frame_seq))) as u64
    }

    /// The key that a number stands for.
    pub open spec fn unpacked(n: u64) -> EmitKey {
        EmitKey {
            tile_x: (n % 0x100) as u8,
            tile_y: (n / 0x100 % 0x100) as u8,
            pass_idx: (n / 0x100 / 0x100 % 0x100) as u8,
            frame_seq: (n / 0x100 / 0x100 / 0x100 % 0x1_0000_0000) as u32,
        }
    }

    /// Computes `packed`.
    pub fn pack(&self) -> (n: u64)
        ensures
            n == self.packed(),
            n < 0x100_0000_0000_0000,
    {
        self.tile_x as u64 + 0x100 * (self.tile_y as u64 + 0x100 * (self.pass_idx as u64 + 0x100
            * self.frame_seq as u64))
    }

    /// Computes `unpacked`.
    pub fn unpack(n: u64) -> (k: EmitKey)
        ensures
            k == EmitKey::unpacked(n),
    {
        EmitKey {
            tile_x: (n % 0x100) as u8,
            tile_y: (n / 0x100 % 0x100) as u8,
            pass_idx: (n / 0x100 / 0x100 % 0x100) as u8,
            frame_seq: (n / 0x100 / 0x100 / 0x100 % 0x1_0000_0000) as u32,
        }
    }
}

/// A key and its number determine each other.
pub proof fn key_packing_round_trip(k: EmitKey, n: u64)
    ensures
        EmitKey::unpacked(k.packed()) == k,
        n < 0x100_0000_0000_0000 ==> EmitKey::unpacked(n).packed() == n,
{
    let p = k.packed();
    assert(p % 0x100 == k.tile_x);
    assert(p / 0x100 == k.tile_y + 0x100 * (k.pass_idx + 0x100 * k.frame_seq));
    assert(p / 0x100 / 0x100 == k.pass_idx + 0x100 * k.frame_seq);
    assert(p / 0x100 / 0x100 / 0x100 == k.frame_seq);
    let a = n / 0x100;
    let b = a / 0x100;
    let c = b / 0x100;
    assert(n == n % 0x100 + 0x100 * a);
    assert(a == a % 0x100 + 0x100 * b);
    assert(b == b % 0x100 + 0x100 * c);
}

/// Sources per parity group.
pub const FEC_GROUP_SIZE_K: usize = 10;

/// Parities per group.
pub const FEC_PARITY_PER_GROUP_R: usize = 1;

/// How far behind its group's first source a parity is sent.
pub const PARITY_INTERLEAVE_OFFSET: u32 = 20;

/// Idle time after which pending parity is flushed, in milliseconds.
pub const END_OF_STREAM_PARITY_FLUSH_MS: u64 = 5;

pub const RTO_BACKOFF_FACTOR: u32 = 2;

/// Entries tracked by recency of use: enough for the first paint of a
/// 1920x1080 screen.
pub const CACHE_CAPACITY: usize = 32768;

} // verus!
