use ghostframe_transport::drop_plan::{
    DropPlan, DropRule, MIN_TILE_LEN, TILE_X_OFFSET, TILE_Y_OFFSET,
};

fn tile_datagram(tile_x: u8, tile_y: u8) -> Vec<u8> {
    let mut v = vec![0u8; 20];
    v[0] = 0x80;
    v[TILE_X_OFFSET] = tile_x;
    v[TILE_Y_OFFSET] = tile_y;
    v
}

#[test]
fn drops_only_the_named_occurrence() {
    let mut plan = DropPlan::new(vec![DropRule {
        tile_x: 2,
        tile_y: 3,
        occurrences: vec![0],
    }]);
    let dg = tile_datagram(2, 3);
    assert!(plan.should_drop(&dg), "first occurrence must drop");
    assert!(!plan.should_drop(&dg), "second occurrence must pass");
    assert!(!plan.should_drop(&dg), "third occurrence must pass");
    assert_eq!(plan.drops(), &[1], "exactly one datagram was dropped");
}

#[test]
fn leaves_other_tiles_alone() {
    let mut plan = DropPlan::new(vec![DropRule {
        tile_x: 2,
        tile_y: 3,
        occurrences: vec![0],
    }]);
    assert!(!plan.should_drop(&tile_datagram(0, 0)));
    assert!(!plan.should_drop(&tile_datagram(2, 4)));
    assert!(plan.should_drop(&tile_datagram(2, 3)));
}

#[test]
fn a_non_tile_datagram_is_never_dropped_however_long_it_is() {
    let mut plan = DropPlan::new(vec![DropRule {
        tile_x: 6,
        tile_y: 0,
        occurrences: vec![0],
    }]);
    let mut ack = vec![0u8; 32];
    ack[0] = 0x06;
    ack[TILE_X_OFFSET] = 6;
    ack[TILE_Y_OFFSET] = 0;
    assert!(
        !plan.should_drop(&ack),
        "a non-tile datagram must never drop"
    );
    assert_eq!(plan.drops(), &[0]);
    assert!(
        plan.should_drop(&tile_datagram(6, 0)),
        "the real first transmission must still be the one that drops"
    );
}

#[test]
fn a_payload_too_short_to_carry_coordinates_is_ignored() {
    let mut plan = DropPlan::new(vec![DropRule {
        tile_x: 0,
        tile_y: 0,
        occurrences: vec![0],
    }]);
    assert!(!plan.should_drop(&[0x80u8, 0, 0]));
}

#[test]
fn reads_coordinates_at_the_exact_length_boundary() {
    let mut plan = DropPlan::new(vec![DropRule {
        tile_x: 9,
        tile_y: 9,
        occurrences: vec![0],
    }]);
    let mut dg = vec![0u8; MIN_TILE_LEN];
    dg[0] = 0x80;
    dg[TILE_X_OFFSET] = 9;
    dg[TILE_Y_OFFSET] = 9;
    assert!(plan.should_drop(&dg), "18 bytes carries both coordinates");
    assert!(
        !plan.should_drop(&dg[..MIN_TILE_LEN - 1]),
        "one byte shorter must be ignored, not indexed"
    );
}

#[test]
fn honours_every_listed_occurrence_not_just_the_first() {
    let mut plan = DropPlan::new(vec![DropRule {
        tile_x: 1,
        tile_y: 1,
        occurrences: vec![1, 3],
    }]);
    let dg = tile_datagram(1, 1);
    let fates: Vec<bool> = (0..5).map(|_| plan.should_drop(&dg)).collect();
    assert_eq!(fates, vec![false, true, false, true, false]);
    assert_eq!(plan.drops(), &[2]);
}

#[test]
fn an_empty_plan_drops_nothing() {
    let mut plan = DropPlan::default();
    assert!(!plan.should_drop(&tile_datagram(1, 1)));
    assert!(plan.drops().is_empty());
}
