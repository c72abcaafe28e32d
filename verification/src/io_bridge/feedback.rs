//! What the feedback stream does to the bridge.
use crate::client_caps::ClientCapabilities;
use crate::decode_error::{DecodeErrorMsg, ERR_THIN_UNCACHED_PALETTE};
use crate::io_bridge::dispatch::Emission;
use crate::io_bridge::frames::IoBridge;
use crate::io_bridge::messages;
use crate::io_bridge::messages::{parse_feedback, FeedbackMsg, FeedbackView};
use crate::io_bridge::palettes::DeliveryView;
use crate::io_bridge::tiles::{CodecState, TileTable};
use crate::io_bridge::full_frame;
use vstd::prelude::*;

verus! {

/// What is to be done outside after feedback came in.
#[derive(Debug)]
pub struct FeedbackOutcome {
    /// Receiver reports, as they came.
    pub reports: Vec<Vec<u8>>,
    /// Palettes that the next payload is to carry again.
    pub rebundled: Vec<u8>,
}

/// What feedback changes.
#[verifier::ext_equal]
pub struct FeedbackState {
    pub caps: ClientCapabilities,
    pub palettes: DeliveryView,
    pub reports: Seq<Seq<u8>>,
    pub rebundled: Seq<u8>,
}

/// The palette that a report says the client lacks: that of the tile's last
/// payload.  A report about a tile off the grid says nothing.
pub open spec fn lacking(tiles: TileTable, msg: DecodeErrorMsg) -> Option<u8> {
    if msg.error_code == ERR_THIN_UNCACHED_PALETTE && tiles.on_grid(
        msg.tile_x as u32,
        msg.tile_y as u32,
    ) {
        match tiles.at(msg.tile_x as u32, msg.tile_y as u32).codec_state {
            CodecState::PalRle { palette_id } => Some(palette_id),
            _ => None,
        }
    } else {
        None
    }
}

impl FeedbackState {
    /// One message came in.
    pub open spec fn after(self, m: FeedbackView, tiles: TileTable) -> FeedbackState {
        match m {
            FeedbackView::Receiver(b) => FeedbackState { reports: self.reports.push(b), ..self },
            FeedbackView::Hello(h) => FeedbackState { caps: h.caps, ..self },
            FeedbackView::DecodeError(e) => match lacking(tiles, e) {
                Some(id) => FeedbackState {
                    palettes: self.palettes.rebundled(id),
                    rebundled: self.rebundled.push(id),
                    ..self
                },
                None => self,
            },
        }
    }

    /// Several messages came in, in order.
    pub open spec fn after_all(self, list: Seq<FeedbackView>, tiles: TileTable) -> FeedbackState
        decreases list.len(),
    {
        if list.len() == 0 {
            self
        } else {
            self.after_all(list.drop_last(), tiles).after(list.last(), tiles)
        }
    }
}

impl IoBridge {
    pub open spec fn feedback_state(
        &self,
        reports: Seq<Seq<u8>>,
        rebundled: Seq<u8>,
    ) -> FeedbackState {
        FeedbackState {
            caps: self.client_caps,
            palettes: self.emission.palettes@,
            reports,
            rebundled,
        }
    }

    /// Takes in bytes of the feedback stream, message by message.
    pub fn dispatch_feedback_bytes(&mut self, data: &[u8]) -> (out: FeedbackOutcome)
        requires
            old(self).wf(),
        ensures
            final(self).wf(),
            final(self).feedback_state(full_frame::contents(out.reports@), out.rebundled@)
                == old(self).feedback_state(Seq::empty(), Seq::empty()).after_all(
                messages::messages(data@),
                old(self).emission.tiles,
            ),
            *final(self) == (IoBridge {
                client_caps: final(self).client_caps,
                emission: Emission {
                    palettes: final(self).emission.palettes,
                    ..old(self).emission
                },
                ..*old(self)
            }),
    {
        let list: Vec<FeedbackMsg> = parse_feedback(data);
        let ghost views = messages::message_views(list@);
        let ghost tiles = self.emission.tiles;
        let ghost start = self.feedback_state(Seq::empty(), Seq::empty());
        let mut reports: Vec<Vec<u8>> = Vec::new();
        let mut rebundled: Vec<u8> = Vec::new();
        let n: usize = list.len();
        let mut i: usize = 0;
        assert(views.take(0) =~= Seq::empty());
        assert(full_frame::contents(reports@) =~= Seq::empty());
        assert(self.feedback_state(full_frame::contents(reports@), rebundled@) =~= start);
        while i < n
            invariant
                i <= n,
                n == list@.len(),
                views == messages::message_views(list@),
                self.wf(),
                tiles == old(self).emission.tiles,
                self.emission.tiles == tiles,
                self.feedback_state(full_frame::contents(reports@), rebundled@)
                    == start.after_all(views.take(i as int), tiles),
                *self == (IoBridge {
                    client_caps: self.client_caps,
                    emission: Emission {
                        palettes: self.emission.palettes,
                        ..old(self).emission
                    },
                    ..*old(self)
                }),
            decreases n - i,
        {
            let ghost before = self.feedback_state(full_frame::contents(reports@), rebundled@);
            proof {
                assert(views.take(i + 1).drop_last() =~= views.take(i as int));
                assert(views.take(i + 1).last() == list@[i as int]@);
            }
            match &list[i] {
                FeedbackMsg::Receiver(b) => {
                    let copy: Vec<u8> = crate::wire::copy_range(b.as_slice(), 0, b.len());
                    assert(copy@ =~= b@);
                    let ghost old_reports = full_frame::contents(reports@);
                    reports.push(copy);
                    assert(full_frame::contents(reports@) =~= old_reports.push(b@));
                },
                FeedbackMsg::Hello(h) => {
                    self.apply_hello(*h);
                },
                FeedbackMsg::DecodeError(e) => {
                    if (e.tile_x as u32) < self.emission.tiles.cols && (e.tile_y as u32)
                        < self.emission.tiles.rows {
                        if let Some(id) = self.handle_decode_error(*e) {
                            rebundled.push(id);
                        }
                    }
                },
            }
            assert(self.feedback_state(full_frame::contents(reports@), rebundled@)
                =~= before.after(list@[i as int]@, tiles));
            i = i + 1;
        }
        assert(views.take(n as int) =~= views);
        FeedbackOutcome { reports, rebundled }
    }
}

} // verus!
