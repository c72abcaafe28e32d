use ghostframe_transport::ack::{AckBatch, AckEntry};
use ghostframe_transport::client_caps::{ClientCapabilities, HelloMsg};
use ghostframe_transport::decode_error::{
    DecodeErrorMsg, ERR_INDEX_OOB, ERR_THIN_UNCACHED_PALETTE,
};
use ghostframe_transport::fragment_coverage::{CoverageList, FragmentCoverage};
use ghostframe_transport::io_bridge::config::{
    choose_bind_address, fec_group_setting, flag_is_set, flag_is_set_any_case, loss_injector,
    oob_injector, parse_listen_port, parse_number, DropKind, InvalidListenAddress, LossSettings,
};
use ghostframe_transport::io_bridge::dispatch::{smallest_rtt, DirtyTile, SchedulerEmissionPolicy};
use ghostframe_transport::io_bridge::frames::{
    emission_for, encoder_needs_init, grid_for, pixel_source, scan_for, tile_coordinates, uses_gpu,
    BridgeSettings, DirtyScan, GpuEmission, PixelSource, SLOW_START_FRAMES,
};
use ghostframe_transport::io_bridge::full_frame::{emit_full_frame, RecentFragments};
use ghostframe_transport::io_bridge::messages::{
    handle_datagram_payload, packet_lengths, parse_feedback, sort_received, update_fec,
    FeedbackMsg, PacketTooShort, FEEDBACK_MSG_TYPE, FEEDBACK_SIZE,
};
use ghostframe_transport::io_bridge::gpu::{GpuPlan, Surroundings};
use ghostframe_transport::io_bridge::palette_run::{PaletteFrame, PaletteRun};
use ghostframe_transport::io_bridge::palettes::{PaletteDelivery, PALETTE_SLOTS};
use ghostframe_transport::io_bridge::phases::{
    choose_payload, injection_after, payload_form, Color, FramePaletteEntry, PalRleTileWorkPrep,
    PaletteEntry, PayloadForm, PALETTE_OVERFLOW, TILE_INDEX_BYTES,
};
use ghostframe_transport::io_bridge::session::{
    compute_max_datagram_size, compute_max_fragment, DimensionsAnnouncer,
    FRAME_DIMENSIONS_RETRANSMITS,
};
use ghostframe_transport::io_bridge::tiles::{
    gate_codec_state, populate_gpu_metrics, CodecState, FrameMode, TileAnalysis, TileTable,
};
use ghostframe_transport::io_bridge::IoBridge;
use ghostframe_transport::loss_injection::{LossInjector, PROBABILITY_ONE};
use ghostframe_transport::protocol::{
    decode_frame_datagram, decode_tile_datagram, Codec, NackMessage, PONG_PAYLOAD,
};
use ghostframe_transport::scheduler::{TileWork, WorkState};
use ghostframe_transport::time::{Duration, Instant};
use std::collections::VecDeque;

fn clock_start() -> Instant {
    Instant::from_nanos(1_000_000_000_000)
}

fn make_bridge_for_test() -> IoBridge {
    IoBridge::new(BridgeSettings {
        cdf53_enabled: true,
        fec_k: 0,
        oob_inject_at: None,
        skip_palette_session_reset: false,
    })
}

fn set_state(bridge: &mut IoBridge, x: u32, y: u32, codec_state: CodecState) {
    let mut tile = bridge.emission.tiles.get(x, y);
    tile.codec_state = codec_state;
    bridge.emission.tiles.set(x, y, tile);
}

fn dirty_tile(x: u32, y: u32) -> DirtyTile {
    DirtyTile {
        tile_x: x,
        tile_y: y,
        raw: vec![0xAA; 32 * 32 * 4],
        solid: vec![0xBB; 4],
        palrle: None,
    }
}

fn deliver(palettes: &mut PaletteDelivery, id: u8) {
    palettes.on_sent(id);
    palettes.on_acked(id);
}

#[test]
fn caps_default_to_disabled_until_hello() {
    let bridge = make_bridge_for_test();
    assert_eq!(bridge.current_client_caps(), ClientCapabilities::default());
    assert!(!bridge.current_client_caps().indices_raw_enabled);
}

#[test]
fn apply_hello_enables_indices_raw() {
    let mut bridge = make_bridge_for_test();
    let msg = HelloMsg {
        caps: ClientCapabilities {
            indices_raw_enabled: true,
            ..Default::default()
        },
    };
    bridge.apply_hello(msg);
    assert!(bridge.current_client_caps().indices_raw_enabled);
}

#[test]
fn ping_produces_pong() {
    assert_eq!(handle_datagram_payload(b"ping"), Some(b"pong".to_vec()));
    assert_eq!(handle_datagram_payload(b"not ping"), None);
    assert_eq!(handle_datagram_payload(b""), None);
    assert_eq!(&PONG_PAYLOAD, b"pong");
}

#[test]
fn parse_listen_port_accepts_bare_port() {
    assert_eq!(parse_listen_port(":4443").unwrap(), 4443);
    assert_eq!(parse_listen_port("0.0.0.0:4443").unwrap(), 4443);
    assert_eq!(parse_listen_port("[::]:4443").unwrap(), 4443);
}

#[test]
fn parse_listen_port_rejects_garbage() {
    assert!(parse_listen_port("nope").is_err());
    assert!(parse_listen_port(":abc").is_err());
    assert_eq!(parse_listen_port(":65536"), Err(InvalidListenAddress));
    assert_eq!(parse_listen_port(":65535"), Ok(65535));
    assert_eq!(parse_listen_port(":"), Err(InvalidListenAddress));
}

#[test]
fn process_frame_produces_no_panic() {
    let mut bridge = make_bridge_for_test();
    assert!(bridge.begin_cpu_frame(&[], 1000, 64, 64).is_none());
}

#[test]
fn fec_toggle_from_feedback() {
    let mut bridge = make_bridge_for_test();
    assert_eq!(bridge.fec_k, 0, "FEC starts disabled");

    bridge.update_fec_from_feedback(95, 5);
    assert_eq!(bridge.fec_k, 4, "FEC should be enabled at 5% loss");

    bridge.update_fec_from_feedback(95, 5);
    assert_eq!(bridge.fec_k, 4);

    bridge.update_fec_from_feedback(1000, 1);
    assert_eq!(bridge.fec_k, 0, "FEC should be disabled at 0.1% loss");
}

#[test]
fn fec_waits_between_its_two_thresholds() {
    for k in [0, 4] {
        assert_eq!(update_fec(k, 997, 3), k, "0.3% changes nothing");
    }
    assert_eq!(update_fec(0, 995, 5), 0, "0.5% does not yet switch it on");
    assert_eq!(update_fec(0, 994, 6), 4, "more than 0.5% switches it on");
    assert_eq!(update_fec(4, 998, 2), 4, "0.2% does not yet switch it off");
    assert_eq!(update_fec(4, 0, 0), 0);
}

#[test]
fn process_frame_increments_frame_seq() {
    let mut bridge = make_bridge_for_test();
    assert_eq!(bridge.frame_seq, 0);
    bridge.begin_cpu_frame(&[], 0, 32, 32);
    assert_eq!(bridge.frame_seq, 1);
    bridge.begin_cpu_frame(&[], 0, 32, 32);
    assert_eq!(bridge.frame_seq, 2);
}

#[test]
fn process_frame_no_panic_on_empty_pixels_no_dmabuf_no_session() {
    let mut bridge = make_bridge_for_test();
    bridge.frame_mode = FrameMode::TileCodec;
    assert!(!uses_gpu(false, false));
    bridge.begin_cpu_frame(&[], 0, 64, 64);
    assert!(bridge.frame_seq > 0, "frame_seq must advance");
}

#[test]
fn iobridge_holds_scheduler_zero_sized_on_construction() {
    let bridge = make_bridge_for_test();
    assert_eq!(bridge.emission.scheduler.cols(), 0);
    assert_eq!(bridge.emission.scheduler.rows(), 0);
    assert_eq!(bridge.emission.scheduler.queue_len(), 0);
}

#[test]
fn session_reconnect_requests_keyframe_on_existing_encoder() {
    let mut bridge = make_bridge_for_test();
    bridge.frame_mode = FrameMode::TileCodec;
    let change = bridge.change_mode(FrameMode::H264);
    assert!(
        change.request_keyframe,
        "encoder must have keyframe_pending after session reconnect"
    );
}

#[test]
fn dispatch_ack_datagram_clears_in_flight_work() {
    let mut bridge = make_bridge_for_test();
    let now = clock_start();
    bridge.emission.scheduler.resize(4, 4);
    bridge
        .emission
        .scheduler
        .enqueue(TileWork::raw_for_test(1, 2, 0, vec![1, 2, 3], now), now);
    let _ = bridge.emission.scheduler.tick(usize::MAX, now);
    bridge.emission.coverage.record(
        (9, 1, 2, 0),
        CoverageList::of(vec![FragmentCoverage {
            tile_x: 1,
            tile_y: 2,
            generation: 0,
            pass_idx: 0,
            codec: Codec::Raw,
            palette_id: None,
        }]),
    );

    let batch = AckBatch {
        entries: vec![AckEntry {
            frame_seq: 9,
            tile_x: 1,
            tile_y: 2,
            pass_idx: 0,
            arrival_time_ms_lo16: 0,
        }],
    };
    bridge.emission.dispatch_ack_datagram(&batch.encode());

    let out = bridge.emission.scheduler.tick(usize::MAX, now);
    assert!(out.is_empty());
    assert_eq!(bridge.emission.scheduler.queue_len(), 0);
}

#[test]
fn dispatch_ack_datagram_ignores_unknown_msg_types() {
    let mut bridge = make_bridge_for_test();
    assert!(bridge.emission.dispatch_ack_datagram(&[]).is_empty());
    assert!(bridge
        .emission
        .dispatch_ack_datagram(&[0xFF, 0x00, 0x00])
        .is_empty());
    assert!(bridge
        .emission
        .dispatch_ack_datagram(&[0x01, 0, 0])
        .is_empty());
}

#[test]
fn dispatch_via_scheduler_cpu_policy_enqueues_raw_tiles() {
    let mut bridge = make_bridge_for_test();
    let dirty = vec![dirty_tile(0, 0), dirty_tile(1, 1)];

    let out = bridge.emission.dispatch_dirty_tiles_via_scheduler(
        &dirty,
        2,
        2,
        &[],
        1,
        0,
        1200,
        SchedulerEmissionPolicy::CpuRawOnly,
        clock_start(),
    );

    let queued = bridge.emission.scheduler.peek_for_test();
    assert_eq!(queued.len(), 2, "scheduler must hold both dirty tiles");
    for w in &queued {
        assert_eq!(w.state, WorkState::InFlight, "tick should have promoted");
        assert_eq!(w.codec, Codec::Raw, "CPU policy emits Raw only");
        assert_eq!(w.pass_idx, 0);
    }
    assert_eq!(out.datagrams.len(), 2 * 4, "4096 bytes in fragments of 1200");
    let (_, header, payload) = decode_tile_datagram(&out.datagrams[0]).unwrap();
    assert_eq!((header.tile_x, header.tile_y), (0, 0));
    assert_eq!(payload.len(), 1200);
}

#[test]
fn an_acknowledged_dispatch_is_not_sent_again() {
    let mut bridge = make_bridge_for_test();
    let now = clock_start();
    let out = bridge.emission.dispatch_dirty_tiles_via_scheduler(
        &[dirty_tile(1, 0)],
        2,
        2,
        &[],
        7,
        0,
        1200,
        SchedulerEmissionPolicy::CpuRawOnly,
        now,
    );
    assert!(!out.datagrams.is_empty());
    let ack = AckBatch {
        entries: vec![AckEntry {
            frame_seq: 7,
            tile_x: 1,
            tile_y: 0,
            pass_idx: 0,
            arrival_time_ms_lo16: 0,
        }],
    };
    bridge.emission.dispatch_ack_datagram(&ack.encode());
    let later = now.plus(Duration::from_secs(10));
    assert!(bridge.emission.scheduler.tick(usize::MAX, later).is_empty());
}

fn injector(settings: &LossSettings) -> LossInjector<impl Fn(&[u8]) -> bool> {
    let kind = settings.kind;
    LossInjector::new(
        settings.probability,
        move |dg: &[u8]| kind.picks(dg),
        settings.seed,
    )
}

#[test]
fn loss_injector_from_env_parses_probability_and_predicate() {
    let half = (0.5 * PROBABILITY_ONE as f64) as u32;
    let settings =
        loss_injector(half, Some("tile"), Some("42")).expect("probability > 0 must yield Some");
    assert_eq!(
        settings,
        LossSettings {
            probability: half,
            kind: DropKind::Tile,
            seed: 42,
        }
    );
    let mut inj2 = injector(&settings);
    let mut inj_copy = injector(&settings);
    let tile_dg = [0x80u8, 0, 0, 1];
    let ack_dg = [0x02u8, 0, 0, 0];
    assert!(
        !inj_copy.should_drop(&ack_dg),
        "tile predicate filters ack out"
    );
    assert!(!inj2.should_drop(&ack_dg));
    assert_eq!(inj_copy.should_drop(&tile_dg), inj2.should_drop(&tile_dg));
}

#[test]
fn loss_injector_from_env_returns_none_when_unset() {
    assert!(loss_injector(0, None, None).is_none());
}

#[test]
fn oob_injector_from_env_parses() {
    assert_eq!(oob_injector(Some("5,7")), Some((5u32, 7u32)));
    assert_eq!(oob_injector(None), None);
    for bad in ["", "5", "5,", ",7", "5;7", "5,x", "4294967296,0"] {
        assert_eq!(oob_injector(Some(bad)), None, "{bad:?}");
    }
}

#[test]
fn maybe_fire_session_reset_skips_first_connect_fires_on_reconnect() {
    let mut bridge = make_bridge_for_test();
    deliver(&mut bridge.emission.palettes, 7);

    assert!(bridge.maybe_fire_session_reset(0, false).is_none());
    assert!(
        bridge.emission.palettes.is_delivered(7),
        "not-yet-connected: no fire"
    );

    assert!(bridge.maybe_fire_session_reset(0, true).is_none());
    assert!(
        bridge.emission.palettes.is_delivered(7),
        "first connect: reset body skipped (has_seen_prior_session was false)"
    );
    assert!(
        bridge.sessions.has_seen_prior_session(),
        "first connect: has_seen_prior_session must now be true"
    );

    bridge.sessions.connection_lost(0);

    let reset = bridge
        .maybe_fire_session_reset(1, true)
        .expect("a reconnect resets");
    assert_eq!(reset.invalidate_frames, SLOW_START_FRAMES);
    assert!(
        !bridge.emission.palettes.is_delivered(7),
        "reconnect: reset body MUST fire (delivered cleared)"
    );

    deliver(&mut bridge.emission.palettes, 7);
    assert!(bridge.maybe_fire_session_reset(1, true).is_none());
    assert!(
        bridge.emission.palettes.is_delivered(7),
        "second call on same handle: must not re-fire"
    );
}

#[test]
fn skip_palette_session_reset_from_env_parses() {
    assert!(flag_is_set(Some("1")), "env=1 must yield true");
    assert!(!flag_is_set(None), "unset must yield false");

    let mut bridge = IoBridge::new(BridgeSettings {
        cdf53_enabled: false,
        fec_k: 0,
        oob_inject_at: None,
        skip_palette_session_reset: true,
    });
    deliver(&mut bridge.emission.palettes, 7);
    bridge.maybe_fire_session_reset(0, true);
    assert!(bridge.maybe_fire_session_reset(1, true).is_some());
    assert!(bridge.emission.palettes.is_delivered(7));
}

#[test]
fn diagnose_tiles_env_var_parses() {
    let on = flag_is_set(Some("1"));
    assert!(on);

    let off = flag_is_set(None);
    assert!(!off);
    assert!(flag_is_set(Some("true")));
    assert!(!flag_is_set(Some("TRUE")));
    assert!(flag_is_set_any_case(Some("TRUE")));
    assert!(!flag_is_set_any_case(Some("yes")));
}

#[test]
fn dispatch_via_scheduler_gpu_policy_emits_solid_for_solid_state() {
    let mut bridge = make_bridge_for_test();
    bridge.sync_grid(2, 2);
    bridge.sync_tiles(2, 2);
    set_state(&mut bridge, 0, 0, CodecState::Solid);

    bridge.emission.dispatch_dirty_tiles_via_scheduler(
        &[dirty_tile(0, 0)],
        2,
        2,
        &[],
        1,
        0,
        1200,
        SchedulerEmissionPolicy::GpuClassifierDriven,
        clock_start(),
    );

    let queued = bridge.emission.scheduler.peek_for_test();
    assert_eq!(queued.len(), 1);
    assert_eq!(queued[0].codec, Codec::Solid);
    assert_eq!(queued[0].payload.len(), 4, "Solid is 4 bytes BGRA");
    assert_eq!(queued[0].state, WorkState::InFlight);
}

#[test]
fn populate_gpu_metrics_writes_unique_colors_and_edge_density() {
    let mut tracker = TileTable::new(2, 1);
    let analysis = vec![
        TileAnalysis {
            count: 1,
            edge_density_thou: 0,
        },
        TileAnalysis {
            count: 17,
            edge_density_thou: 850,
        },
    ];
    let dirty: Vec<(u32, u32)> = vec![(0, 0), (1, 0)];

    populate_gpu_metrics(&mut tracker, &dirty, 2, &analysis);

    assert_eq!(tracker.get(0, 0).unique_colors, 1);
    assert_eq!(tracker.get(0, 0).edge_density_thou, 0);

    assert_eq!(tracker.get(1, 0).unique_colors, 17);
    assert_eq!(tracker.get(1, 0).edge_density_thou, 850);
}

#[test]
fn populate_gpu_metrics_skips_non_dirty_tiles() {
    let mut tracker = TileTable::new(2, 1);
    let mut seeded = tracker.get(1, 0);
    seeded.unique_colors = u16::MAX;
    seeded.edge_density_thou = 4321;
    tracker.set(1, 0, seeded);

    let analysis = vec![
        TileAnalysis {
            count: 5,
            edge_density_thou: 100,
        },
        TileAnalysis {
            count: 9,
            edge_density_thou: 200,
        },
    ];
    let dirty: Vec<(u32, u32)> = vec![(0, 0)];
    populate_gpu_metrics(&mut tracker, &dirty, 2, &analysis);

    assert_eq!(tracker.get(0, 0).unique_colors, 5);
    assert_eq!(
        tracker.get(1, 0).unique_colors,
        u16::MAX,
        "non-dirty tile untouched"
    );
    assert_eq!(
        tracker.get(1, 0).edge_density_thou,
        4321,
        "non-dirty tile untouched"
    );
}

#[test]
fn io_bridge_constructs_with_empty_palette_table() {
    let bridge = make_bridge_for_test();
    for id in 0..PALETTE_SLOTS {
        assert!(
            !bridge.emission.palettes.is_delivered(id as u8),
            "slot {id} must start undelivered"
        );
        assert_eq!(
            bridge.emission.palettes.in_flight_carrying(id as u8),
            0,
            "slot {id} must start with nothing in flight"
        );
    }
    assert!(
        !bridge.emission.palettes.is_delivered(0),
        "delivered[0] must start false"
    );
    assert!(
        !bridge.emission.palettes.is_delivered(255),
        "delivered[255] must start false"
    );
}

fn palette_tables() -> (Vec<u32>, Vec<FramePaletteEntry>) {
    let folded_into = vec![(255u32 - 1) << 8; 256];
    let mut set: Vec<FramePaletteEntry> = (0..256)
        .map(|_| FramePaletteEntry {
            count: 0,
            colors: vec![0; 16],
        })
        .collect();
    set[0].count = 1;
    set[0].colors[0] = 10 | (20 << 8) | (30 << 16) | (255 << 24);
    (folded_into, set)
}

fn palette_prep(
    bridge: &mut IoBridge,
    cols: u32,
    answer: Option<u8>,
) -> Option<PalRleTileWorkPrep> {
    let (folded_into, set) = palette_tables();
    let frame = PaletteFrame {
        cols,
        compact_list: &[0],
        local_ids: &[0],
        folded_into: &folded_into,
        palette_set: &set,
        index_buffer: &[0u8; 512],
    };
    let mut run = PaletteRun::new();
    let palette = bridge
        .emission
        .phase_a_palette_allocation(&mut run, &frame)
        .expect("a palette");
    bridge
        .emission
        .phase_a_answer(&mut run, &frame, palette, answer);
    assert!(bridge
        .emission
        .phase_a_palette_allocation(&mut run, &frame)
        .is_none());
    run.preps.pop()
}

#[test]
fn phase_a_allocates_and_marks_bundled_for_first_emission() {
    let mut bridge = make_bridge_for_test();
    let cols = 4;
    bridge.sync_tiles(cols, 2);
    set_state(&mut bridge, 0, 0, CodecState::PalRle { palette_id: 0 });

    let prep = palette_prep(&mut bridge, cols, Some(0)).expect("a prepared tile");

    assert_eq!(prep.tile_xy, (0, 0));
    assert_eq!(
        prep.palette.colors,
        vec![Color {
            b: 10,
            g: 20,
            r: 30,
            a: 255
        }]
    );
    assert_eq!(prep.indices.len(), TILE_INDEX_BYTES);
    assert!(prep.bundled, "first emission must bundle");
    assert_eq!(prep.palette_id, 0);
    assert_eq!(bridge.emission.palettes.in_flight_carrying(0), 1);
    assert!(!bridge.emission.palettes.is_delivered(0));
}

#[test]
fn phase_a_marks_thin_when_delivered_already_set() {
    let mut bridge = make_bridge_for_test();
    let cols = 4;
    bridge.sync_tiles(cols, 2);
    set_state(&mut bridge, 0, 0, CodecState::PalRle { palette_id: 0 });
    deliver(&mut bridge.emission.palettes, 3);

    let prep = palette_prep(&mut bridge, cols, Some(3)).expect("a prepared tile");

    assert_eq!(prep.palette_id, 3, "find_matching should hit slot 3");
    assert!(!prep.bundled, "delivered=true → thin payload");
    assert_eq!(bridge.emission.palettes.in_flight_carrying(3), 0);
}

#[test]
fn phase_a_falls_back_to_raw_on_sentinel() {
    let mut bridge = make_bridge_for_test();
    let cols = 4;
    bridge.sync_tiles(cols, 2);
    set_state(&mut bridge, 0, 0, CodecState::PalRle { palette_id: 0 });

    let frame = PaletteFrame {
        cols,
        compact_list: &[0],
        local_ids: &[PALETTE_OVERFLOW],
        folded_into: &[0; 256],
        palette_set: &[],
        index_buffer: &[0u8; 512],
    };
    let mut run = PaletteRun::new();
    let palette = bridge
        .emission
        .phase_a_palette_allocation(&mut run, &frame);

    assert!(palette.is_none());
    assert!(run.preps.is_empty());
    assert_eq!(bridge.emission.tiles.get(0, 0).codec_state, CodecState::Skip);
    assert_eq!(run.stats.fell_back_to_raw, 1);
}

#[test]
fn a_full_palette_table_falls_back_to_raw() {
    let mut bridge = make_bridge_for_test();
    bridge.sync_tiles(4, 2);
    set_state(&mut bridge, 0, 0, CodecState::PalRle { palette_id: 0 });
    assert!(palette_prep(&mut bridge, 4, None).is_none());
    assert_eq!(bridge.emission.tiles.get(0, 0).codec_state, CodecState::Skip);
}

fn acknowledged_palette(id: u8) -> (IoBridge, Vec<u8>) {
    let mut bridge = make_bridge_for_test();
    let now = clock_start();
    bridge.emission.scheduler.resize(1, 1);
    bridge.emission.palettes.on_sent(id);
    bridge.emission.scheduler.enqueue(
        TileWork {
            tile_x: 0,
            tile_y: 0,
            generation: 0,
            pass_idx: 0,
            total_passes: 1,
            codec: Codec::PalRle,
            payload: vec![0x01u8, id, 1, 1, 2, 3, 255, 0xF0],
            queued_at: now,
            last_sent_at: None,
            state: WorkState::Pending,
        },
        now,
    );
    let _ = bridge.emission.scheduler.tick(usize::MAX, now);
    bridge.emission.coverage.record(
        (4, 0, 0, 0),
        CoverageList::of(vec![FragmentCoverage {
            tile_x: 0,
            tile_y: 0,
            generation: 0,
            pass_idx: 0,
            codec: Codec::PalRle,
            palette_id: Some(id),
        }]),
    );
    let wire = AckBatch {
        entries: vec![AckEntry {
            frame_seq: 4,
            tile_x: 0,
            tile_y: 0,
            pass_idx: 0,
            arrival_time_ms_lo16: 0,
        }],
    }
    .encode();
    let released = bridge.emission.dispatch_ack_datagram(&wire);
    (bridge, released)
}

#[test]
fn ack_for_palrle_tile_sets_delivered_and_decrements_in_flight() {
    let (bridge, _) = acknowledged_palette(7);
    assert!(bridge.emission.palettes.is_delivered(7));
    assert_eq!(bridge.emission.palettes.in_flight_carrying(7), 0);
}

#[test]
fn ack_for_palrle_tile_releases_ref_count() {
    let (_, released) = acknowledged_palette(5);
    assert_eq!(released, vec![5], "ACK must release the Phase A acquire");
}

fn palrle_wire(flags: u8) -> Vec<u8> {
    let mut wire = vec![0u8; 21];
    wire[0] = 0x80;
    wire[14] = Codec::PalRle.to_u8() << 1;
    wire[20] = flags;
    wire
}

#[test]
fn palrle_bundled_predicate_matches_bundled_datagram() {
    let settings = loss_injector(PROBABILITY_ONE, Some("palrle_bundled"), Some("1")).unwrap();
    assert!(injector(&settings).should_drop(&palrle_wire(0x01)));
}

#[test]
fn palrle_bundled_predicate_rejects_thin_datagram() {
    let settings = loss_injector(PROBABILITY_ONE, Some("palrle_bundled"), Some("1")).unwrap();
    assert!(!injector(&settings).should_drop(&palrle_wire(0x00)));
}

#[test]
fn palrle_thin_predicate_matches_thin_only() {
    let settings = loss_injector(PROBABILITY_ONE, Some("palrle_thin"), Some("1")).unwrap();
    assert!(injector(&settings).should_drop(&palrle_wire(0x00)));
    assert!(!injector(&settings).should_drop(&palrle_wire(0x01)));
}

fn caps(indices_raw_enabled: bool) -> ClientCapabilities {
    ClientCapabilities {
        indices_raw_enabled,
        ..Default::default()
    }
}

#[test]
fn phase_b_emits_indices_raw_when_caps_enabled_and_thin() {
    assert_eq!(payload_form(false, &caps(true)), PayloadForm::IndicesRaw);
}

#[test]
fn phase_b_emits_thin_rle_when_caps_disabled() {
    assert_eq!(payload_form(false, &caps(false)), PayloadForm::RunLength);
}

#[test]
fn phase_b_emits_bundled_when_bundled_regardless_of_caps() {
    assert_eq!(payload_form(true, &caps(true)), PayloadForm::RunLength);
    assert_eq!(payload_form(true, &caps(false)), PayloadForm::RunLength);
}

#[test]
fn the_injected_payload_replaces_one_tile_once() {
    let prep = |tile_xy| PalRleTileWorkPrep {
        tile_xy,
        indices: vec![0; TILE_INDEX_BYTES],
        palette: PaletteEntry { colors: vec![] },
        palette_id: 1,
        bundled: false,
    };
    let spoiled = choose_payload((2, 3), Some((2, 3)), vec![1, 2, 3]);
    assert_ne!(spoiled, vec![1, 2, 3]);
    assert_eq!(choose_payload((2, 4), Some((2, 3)), vec![1]), vec![1]);
    assert_eq!(injection_after(Some((2, 3)), &[prep((0, 0))]), Some((2, 3)));
    assert_eq!(injection_after(Some((2, 3)), &[prep((0, 0)), prep((2, 3))]), None);
}

#[test]
fn feedback_stream_parses_hello_then_feedback_then_decode_error() {
    let mut bridge = make_bridge_for_test();
    deliver(&mut bridge.emission.palettes, 7);
    bridge.sync_tiles(8, 8);
    set_state(&mut bridge, 3, 4, CodecState::PalRle { palette_id: 7 });

    let hello = HelloMsg { caps: caps(true) };
    let mut report = vec![0u8; FEEDBACK_SIZE];
    report[0] = FEEDBACK_MSG_TYPE;
    let err = DecodeErrorMsg {
        codec: 2,
        tile_x: 3,
        tile_y: 4,
        error_code: ERR_THIN_UNCACHED_PALETTE,
    };

    let mut buf = Vec::new();
    hello.encode(&mut buf);
    buf.extend_from_slice(&report);
    err.encode(&mut buf);
    assert_eq!(buf.len(), 2 + 22 + 5);

    let out = bridge.dispatch_feedback_bytes(&buf);

    assert!(
        bridge.current_client_caps().indices_raw_enabled,
        "HELLO message must apply caps"
    );
    assert_eq!(out.reports, vec![report]);
    assert_eq!(out.rebundled, vec![7]);
    assert!(
        !bridge.emission.palettes.is_delivered(7),
        "ERR_THIN_UNCACHED_PALETTE must clear delivered bit via force_rebundle"
    );
}

#[test]
fn an_unknown_feedback_message_ends_the_parse() {
    assert!(parse_feedback(&[]).is_empty());
    assert!(parse_feedback(&[0x77, 0x03, 0x01]).is_empty());
    let got = parse_feedback(&[0x03, 0x01, 0x04, 2]);
    assert_eq!(got.len(), 1);
    assert!(matches!(got[0], FeedbackMsg::Hello(_)));
}

#[test]
fn decode_error_3_triggers_force_rebundle() {
    let mut bridge = make_bridge_for_test();
    deliver(&mut bridge.emission.palettes, 5);
    bridge.sync_tiles(8, 8);
    set_state(&mut bridge, 3, 4, CodecState::PalRle { palette_id: 5 });

    let msg = DecodeErrorMsg {
        codec: 2,
        tile_x: 3,
        tile_y: 4,
        error_code: ERR_THIN_UNCACHED_PALETTE,
    };
    assert_eq!(bridge.handle_decode_error(msg), Some(5));

    assert!(
        !bridge.emission.palettes.is_delivered(5),
        "force_rebundle should clear the delivered bit for palette_id=5"
    );
}

#[test]
fn decode_error_other_codes_no_op_on_palette_table() {
    let mut bridge = make_bridge_for_test();
    deliver(&mut bridge.emission.palettes, 5);
    bridge.sync_tiles(8, 8);
    set_state(&mut bridge, 3, 4, CodecState::PalRle { palette_id: 5 });

    let msg = DecodeErrorMsg {
        codec: 2,
        tile_x: 3,
        tile_y: 4,
        error_code: ERR_INDEX_OOB,
    };
    assert_eq!(bridge.handle_decode_error(msg), None);

    assert!(
        bridge.emission.palettes.is_delivered(5),
        "ERR_INDEX_OOB should not clear delivered bit"
    );
}

#[test]
fn idle_tiles_to_refine_are_kept_for_the_frame() {
    let mut bridge = make_bridge_for_test();
    bridge.set_escalation(vec![0u32, 1, 2]);
    assert!(bridge.escalation.is_empty(), "the client does not know them");
    bridge.emission.cdf53_supported = true;
    bridge.set_escalation(vec![0u32, 1, 2]);
    assert_eq!(bridge.escalation, vec![0u32, 1, 2]);
}

#[test]
fn dimensions_are_announced_so_often() {
    let mut a = DimensionsAnnouncer::new();
    for i in 0..=FRAME_DIMENSIONS_RETRANSMITS {
        assert!(a.emit_frame_dimensions(1, 0, 640, 480).is_some(), "{i}");
    }
    assert!(a.emit_frame_dimensions(1, 0, 640, 480).is_none());
    for i in 0..=FRAME_DIMENSIONS_RETRANSMITS {
        assert!(a.emit_frame_dimensions(1, 0, 640, 481).is_some(), "{i}");
    }
    assert!(a.emit_frame_dimensions(1, 0, 640, 481).is_none());
    a.prime();
    for i in 0..FRAME_DIMENSIONS_RETRANSMITS {
        assert!(a.emit_frame_dimensions(1, 0, 640, 481).is_some(), "{i}");
    }
    assert!(a.emit_frame_dimensions(1, 0, 640, 481).is_none());
}

#[test]
fn a_frame_starts_only_for_a_connected_client() {
    let mut bridge = make_bridge_for_test();
    let frame = bridge
        .begin_gpu_frame(&[Some(1200)], 5, 64, 32)
        .expect("a connected client");
    assert_eq!(frame.seq, bridge.frame_seq);
    assert_eq!(frame.max_dg_size, 1198);
    let announced = frame.dimensions.expect("the first frame says its size");
    let (_, _, payload) = decode_tile_datagram(&announced).unwrap();
    assert_eq!(payload, &[0, 0, 0, 64, 0, 0, 0, 32]);
    assert!(bridge.begin_gpu_frame(&[], 5, 64, 32).is_none());
}

#[test]
fn full_frames_are_kept_and_carry_parity() {
    {
        let mut recent = RecentFragments::new();
        let payload: Vec<u8> = (0..100u8).collect();
        let out = emit_full_frame(&mut recent, 3, 9, true, &payload, 14 + 40, 0);
        assert_eq!(out.len(), 3);
        let mut joined = Vec::new();
        for dg in &out {
            let (header, part) = decode_frame_datagram(dg).unwrap();
            assert!(header.is_keyframe());
            joined.extend_from_slice(part);
        }
        assert_eq!(joined, payload);
        let nack = NackMessage {
            frame_seq: 3,
            frag_idx: 1,
        };
        assert_eq!(
            recent.handle_nack(&nack, Duration::from_millis(5)),
            Some(out[1].clone())
        );
        assert_eq!(
            recent.handle_nack(&nack, Duration::from_millis(40)),
            None,
            "too late on a slow path"
        );
        for seq in 4..8 {
            emit_full_frame(&mut recent, seq, 9, false, &payload, 14 + 40, 0);
        }
        assert_eq!(recent.handle_nack(&nack, Duration::from_millis(5)), None);
    }

    {
        let mut recent = RecentFragments::new();
        let payload: Vec<u8> = (0..160u8).collect();
        let out = emit_full_frame(&mut recent, 1, 0, false, &payload, 14 + 43, 4);
        assert_eq!(out.len(), 5);
        let (header, parity) = decode_frame_datagram(&out[4]).unwrap();
        assert!(header.is_parity());
        assert_eq!(parity.len(), 3 + 40);
        let mut joined = Vec::new();
        for dg in &out {
            assert!(dg.len() <= 14 + 43, "no datagram is too large");
            let (header, part) = decode_frame_datagram(dg).unwrap();
            if !header.is_parity() {
                joined.extend_from_slice(part);
            }
        }
        assert_eq!(joined, payload);
        let out = emit_full_frame(&mut recent, 2, 0, false, &payload[..36], 32, 4);
        assert!(out.iter().all(|dg| dg.len() <= 32));
        assert_eq!(out.len(), 4, "three fragments and one parity");
        let out = emit_full_frame(&mut recent, 3, 0, false, &payload[..18], 32, 4);
        assert_eq!(out.len(), 1, "one fragment has no parity and all the room");
    }
}

#[test]
fn small_decisions() {
    {
        assert_eq!(scan_for(true, true, true), DirtyScan::NoCommit);
        assert_eq!(scan_for(false, false, true), DirtyScan::Full);
        assert_eq!(scan_for(false, true, true), DirtyScan::Hinted);
        assert_eq!(scan_for(false, true, false), DirtyScan::Full);
        assert!(uses_gpu(true, true));
        assert!(!uses_gpu(true, false));
        assert_eq!(
            emission_for(FrameMode::H264, false, 1198),
            GpuEmission::FullFrame { max_dg_size: 1198 }
        );
        assert_eq!(
            emission_for(FrameMode::TileCodec, true, 1198),
            GpuEmission::Nothing
        );
        assert!(encoder_needs_init(None, 64, 64));
        assert!(encoder_needs_init(Some((64, 32)), 64, 64));
        assert!(!encoder_needs_init(Some((64, 64)), 64, 64));
        assert_eq!(pixel_source(true, false), PixelSource::Given);
        assert_eq!(pixel_source(false, true), PixelSource::Readback);
        assert_eq!(pixel_source(false, false), PixelSource::Missing);
        assert_eq!(grid_for(65, 64, 32), (3, 2));
        assert_eq!(tile_coordinates(&[0, 5], 4), vec![(0, 0), (1, 1)]);
    }

    {
        let cdf53 = CodecState::Cdf53 {
            passes_sent: 0,
            max_passes: 14,
        };
        assert_eq!(gate_codec_state(cdf53, true, true), cdf53);
        assert_ne!(gate_codec_state(cdf53, false, true), cdf53);
        assert_ne!(gate_codec_state(cdf53, true, false), cdf53);
        assert_eq!(
            gate_codec_state(CodecState::Solid, false, false),
            CodecState::Solid
        );
    }

    {
        assert_eq!(
            smallest_rtt(&[Duration::from_millis(30), Duration::from_millis(12)]),
            Duration::from_millis(12)
        );
        assert_eq!(smallest_rtt(&[]), Duration::from_millis(20));
    }

    {
        assert_eq!(compute_max_datagram_size(&[]), None);
        assert_eq!(
            compute_max_datagram_size(&[Some(1400), Some(1200)]),
            Some(1200 - 2)
        );
        assert_eq!(compute_max_fragment(&[Some(1200)]), Some(1200 - 2 - 24));
    }

    {
        let (pongs, rest) = sort_received(vec![b"ping".to_vec(), vec![1], b"ping".to_vec()]);
        assert_eq!(pongs, 2);
        assert_eq!(rest, vec![vec![1]]);
    }

    {
        assert_eq!(packet_lengths(&[0, 0, 0, 4, 0, 0, 0, 0]), Err(PacketTooShort));
        let lengths = packet_lengths(&[0, 0, 0, 20, 0, 0, 0, 5]).unwrap();
        assert_eq!((lengths.rest, lengths.payload), (12, 5));
    }

    {
        assert_eq!(parse_number("42", u64::MAX), Some(42));
        assert_eq!(parse_number("+7", 10), Some(7));
        assert_eq!(parse_number("11", 10), None);
        assert_eq!(parse_number("-1", u64::MAX), None);
        assert_eq!(parse_number("18446744073709551615", u64::MAX), Some(u64::MAX));
        assert_eq!(parse_number("18446744073709551616", u64::MAX), None);
        assert_eq!(fec_group_setting(None), 0);
        assert_eq!(fec_group_setting(Some("6")), 6);
        assert_eq!(fec_group_setting(Some("many")), 0);
        assert_eq!(choose_bind_address(&[]), None);
        assert_eq!(choose_bind_address(&[false, true, true]), Some(1));
        assert_eq!(choose_bind_address(&[false, false]), Some(0));
    }
}

#[test]
fn an_idle_tile_is_refined_in_all_passes() {
    let mut bridge = make_bridge_for_test();
    bridge.sync_grid(4, 4);
    bridge.sync_tiles(4, 4);
    let passes: Vec<Vec<u8>> = (0..14u8).map(|p| vec![p]).collect();
    bridge
        .emission
        .enqueue_cdf53(4, 5, passes, true, clock_start());
    let queued = bridge.emission.scheduler.refinement_for_test();
    assert_eq!(queued.len(), 14);
    assert!(queued.iter().all(|w| (w.tile_x, w.tile_y) == (1, 1)));
    assert!(bridge.emission.tiles.get(1, 1).already_escalated);
}

#[test]
fn a_mixed_list_of_palette_tiles_is_worked_off_in_order() {
    let mut bridge = make_bridge_for_test();
    bridge.sync_tiles(4, 1);
    set_state(&mut bridge, 0, 0, CodecState::Solid);
    for x in 1..4 {
        set_state(&mut bridge, x, 0, CodecState::PalRle { palette_id: 0 });
    }
    let (mut folded_into, mut set) = palette_tables();
    folded_into[7] = 2;
    set[2].count = 1;
    set[2].colors[0] = 1;
    let index_buffer: Vec<u8> = (0..4u8).flat_map(|c| vec![c; 512]).collect();
    let frame = PaletteFrame {
        cols: 4,
        compact_list: &[0, 1, 2, 3],
        local_ids: &[0, PALETTE_OVERFLOW, 7, 0],
        folded_into: &folded_into,
        palette_set: &set,
        index_buffer: &index_buffer,
    };
    let mut run = PaletteRun::new();
    let e = &mut bridge.emission;
    let first = e.phase_a_palette_allocation(&mut run, &frame).unwrap();
    assert_eq!(run.next, 2);
    assert_eq!(first.colors, vec![Color { b: 1, g: 0, r: 0, a: 0 }]);
    e.phase_a_answer(&mut run, &frame, first, Some(9));
    let second = e.phase_a_palette_allocation(&mut run, &frame).unwrap();
    assert_eq!(run.next, 3);
    e.phase_a_answer(&mut run, &frame, second, None);
    assert!(e.phase_a_palette_allocation(&mut run, &frame).is_none());

    assert_eq!(run.stats.fell_back_to_raw, 2);
    assert_eq!(run.stats.reused_or_allocated, 1);
    assert_eq!(run.preps.len(), 1);
    assert_eq!(run.preps[0].tile_xy, (2, 0));
    assert_eq!(run.preps[0].indices, vec![2u8; 512]);
    assert_eq!(run.preps[0].palette_id, 9);
    assert!(run.preps[0].bundled);
    let states: Vec<CodecState> = (0..4).map(|x| e.tiles.get(x, 0).codec_state).collect();
    assert_eq!(
        states,
        vec![
            CodecState::Solid,
            CodecState::Skip,
            CodecState::PalRle { palette_id: 9 },
            CodecState::Skip,
        ]
    );
}

#[test]
fn an_analysed_frame_goes_from_analysis_to_plan() {
    let mut bridge = make_bridge_for_test();
    let frame = bridge.begin_gpu_frame(&[Some(1200)], 0, 64, 64).unwrap();
    let analysis = [TileAnalysis {
        count: 3,
        edge_density_thou: 17,
    }; 4];
    let dirty = bridge.take_analysis(2, 2, &[3, 0], &analysis);
    assert_eq!(dirty, vec![(1, 1), (0, 0)]);
    assert_eq!(bridge.emission.scheduler.cols(), 2);
    assert_eq!(bridge.emission.tiles.get(1, 1).unique_colors, 3);
    assert_eq!(bridge.emission.tiles.get(1, 0).unique_colors, u16::MAX);

    let around = Surroundings {
        width: 64,
        height: 64,
        encoder_size: None,
        has_pixels: false,
        has_dmabuf: true,
    };
    let states = [CodecState::Solid, CodecState::Bc1];
    let plan = bridge.take_classification(&frame, &dirty, &states, FrameMode::H264, around);
    assert_eq!(
        plan,
        GpuPlan {
            invalidate_baseline: false,
            emission: GpuEmission::FullFrame { max_dg_size: 1198 },
            init_encoder: true,
            request_keyframe: true,
            pixels: PixelSource::Readback,
        }
    );
    assert_eq!(bridge.frame_mode, FrameMode::H264);
    assert_eq!(bridge.emission.tiles.get(1, 1).codec_state, CodecState::Solid);
    assert_eq!(bridge.emission.tiles.get(0, 0).codec_state, CodecState::Bc1);

    let back = bridge.take_classification(&frame, &dirty, &states, FrameMode::TileCodec, around);
    assert!(back.invalidate_baseline && !back.request_keyframe);
    assert_eq!(back.emission, GpuEmission::Tiles { max_frag: 1198 - 24 });
    let idle = bridge.take_classification(&frame, &[], &[], FrameMode::TileCodec, around);
    assert_eq!(idle.emission, GpuEmission::Nothing);
}

#[test]
fn all_that_is_refined_is_queued_in_order() {
    let passes = |n: u8| -> VecDeque<Vec<Vec<u8>>> {
        (0..n).map(|k| (0..14u8).map(|p| vec![k, p]).collect()).collect()
    };
    let mut bridge = make_bridge_for_test();
    bridge.sync_grid(4, 4);
    bridge.escalation = vec![6];
    bridge.enqueue_refinements(4, &[5, 9], passes(2), passes(1), clock_start());
    let tiles = |b: &IoBridge| -> Vec<(u8, u8)> {
        let queued = b.emission.scheduler.refinement_for_test();
        queued.iter().step_by(14).map(|w| (w.tile_x, w.tile_y)).collect()
    };
    assert_eq!(tiles(&bridge), vec![(2, 1)], "the client does not know the codec");
    assert!(bridge.escalation.is_empty());

    bridge.emission.cdf53_supported = true;
    bridge.escalation = vec![6];
    bridge.enqueue_refinements(4, &[5, 9], passes(2), passes(1), clock_start());
    let queued = bridge.emission.scheduler.refinement_for_test();
    let live = queued.iter().filter(|w| w.state == WorkState::Pending);
    assert_eq!(live.count(), 3 * 14, "what was queued before is superseded");
    assert!(!bridge.emission.tiles.get(1, 1).already_escalated);
    assert!(bridge.emission.tiles.get(2, 1).already_escalated);
}

#[test]
fn a_frame_on_this_side_is_sent_raw() {
    let mut bridge = make_bridge_for_test();
    let frame = bridge.begin_cpu_frame(&[Some(1200)], 7, 32, 32).unwrap();
    assert!(!frame.no_commit);
    let none = bridge.emit_cpu_frame(&frame, 7, 1, 1, &[], &[], clock_start());
    assert!(none.datagrams.is_empty());
    assert_eq!(bridge.emission.tiles.cols, 0);
    let tile = DirtyTile {
        tile_x: 0,
        tile_y: 0,
        raw: vec![42; 10],
        solid: vec![1],
        palrle: None,
    };
    let out = bridge.emit_cpu_frame(&frame, 7, 1, 1, &[tile], &[], clock_start());
    assert_eq!(out.datagrams.len(), 1);
    let (_, header, payload) = decode_tile_datagram(&out.datagrams[0]).unwrap();
    assert_eq!(header.codec, Codec::Raw);
    assert_eq!(payload, &[42; 10]);
    assert_eq!(bridge.emission.tiles.cols, 1);
}
