use ghostframe_transport::fragment_coverage::{
    CoverageList, FragmentCoverage, FragmentCoverageMap, FRAGMENT_COVERAGE_CAPACITY,
};
use ghostframe_transport::protocol::Codec;

#[test]
fn fragment_coverage_struct_holds_all_fields() {
    let c = FragmentCoverage {
        tile_x: 5,
        tile_y: 7,
        generation: 3,
        pass_idx: 11,
        codec: Codec::Cdf53,
        palette_id: None,
    };
    assert_eq!(c.tile_x, 5);
    assert_eq!(c.tile_y, 7);
    assert_eq!(c.generation, 3);
    assert_eq!(c.pass_idx, 11);
    assert_eq!(c.codec, Codec::Cdf53);
    assert_eq!(c.palette_id, None);
}

#[test]
fn fragment_coverage_palrle_carries_palette_id() {
    let c = FragmentCoverage {
        tile_x: 0,
        tile_y: 0,
        generation: 1,
        pass_idx: 0,
        codec: Codec::PalRle,
        palette_id: Some(42),
    };
    assert_eq!(c.palette_id, Some(42));
}

#[test]
fn map_records_and_takes() {
    let mut m = FragmentCoverageMap::new(16);
    let cov = || CoverageList::of(vec![FragmentCoverage {
        tile_x: 1,
        tile_y: 2,
        generation: 0,
        pass_idx: 0,
        codec: Codec::Solid,
        palette_id: None,
    }]);
    m.record((100, 1, 2, 0), cov());
    let taken = m.take((100, 1, 2, 0)).expect("present");
    assert_eq!(taken.as_slice(), cov().as_slice());
    assert!(m.take((100, 1, 2, 0)).is_none(), "second take returns None");
}

#[test]
fn map_lru_evicts_oldest() {
    let mut m = FragmentCoverageMap::new(3);
    m.record((0, 0, 0, 0), CoverageList::of(vec![]));
    m.record((0, 0, 0, 1), CoverageList::of(vec![]));
    m.record((0, 0, 0, 2), CoverageList::of(vec![]));
    m.record((0, 0, 0, 3), CoverageList::of(vec![]));
    assert!(m.take((0, 0, 0, 0)).is_none(), "oldest entry evicted");
    assert!(m.take((0, 0, 0, 1)).is_some());
    assert!(m.take((0, 0, 0, 2)).is_some());
    assert!(m.take((0, 0, 0, 3)).is_some());
}

#[test]
fn map_take_marks_entry_recent_uses_default_capacity_const() {
    assert!(FRAGMENT_COVERAGE_CAPACITY >= 1000);
    assert!(FRAGMENT_COVERAGE_CAPACITY <= 100_000);
}

#[test]
fn drop_cdf53_for_tile_removes_matching_cdf53_entries_only() {
    let mut m = FragmentCoverageMap::new(16);
    let make_cdf53 = |tile_x: u8, tile_y: u8| -> CoverageList {
        CoverageList::of(vec![FragmentCoverage {
            tile_x,
            tile_y,
            generation: 0,
            pass_idx: 0,
            codec: Codec::Cdf53,
            palette_id: None,
        }])
    };
    m.record((100, 5, 3, 0), make_cdf53(5, 3));
    m.record((100, 5, 3, 1), make_cdf53(5, 3));
    m.record((101, 5, 3, 0), make_cdf53(5, 3));
    m.record((101, 5, 3, 1), make_cdf53(5, 3));
    m.record((100, 6, 3, 0), make_cdf53(6, 3));
    m.record((100, 5, 4, 0), make_cdf53(5, 4));
    assert_eq!(m.len(), 6);

    m.drop_cdf53_for_tile(5, 3);

    assert_eq!(m.len(), 2, "only the (6,3) and (5,4) entries should remain");
    assert!(m.take((100, 5, 3, 0)).is_none());
    assert!(m.take((100, 5, 3, 1)).is_none());
    assert!(m.take((101, 5, 3, 0)).is_none());
    assert!(m.take((101, 5, 3, 1)).is_none());
    assert!(
        m.take((100, 6, 3, 0)).is_some(),
        "neighbor (6,3) unaffected"
    );
    assert!(
        m.take((100, 5, 4, 0)).is_some(),
        "neighbor (5,4) unaffected"
    );
}

#[test]
fn drop_cdf53_for_tile_leaves_non_cdf53_coverage_alone() {
    let mut m = FragmentCoverageMap::new(16);
    let one = |codec: Codec, palette_id: Option<u8>| -> CoverageList {
        CoverageList::of(vec![FragmentCoverage {
            tile_x: 4,
            tile_y: 4,
            generation: 0,
            pass_idx: 0,
            codec,
            palette_id,
        }])
    };
    m.record((10, 4, 4, 0), one(Codec::Solid, None));
    m.record((11, 4, 4, 0), one(Codec::PalRle, Some(7)));
    m.record((13, 4, 4, 0), one(Codec::Raw, None));
    m.record((14, 4, 4, 0), one(Codec::Cdf53, None));
    assert_eq!(m.len(), 4);

    m.drop_cdf53_for_tile(4, 4);

    assert_eq!(m.len(), 3, "only the Cdf53 entry should be removed");
    assert!(m.take((10, 4, 4, 0)).is_some(), "Solid survives");
    assert!(m.take((11, 4, 4, 0)).is_some(), "PalRle survives");
    assert!(m.take((13, 4, 4, 0)).is_some(), "Raw survives");
    assert!(m.take((14, 4, 4, 0)).is_none(), "Cdf53 dropped");
}

#[test]
fn drop_cdf53_for_tile_keeps_order_and_entries_consistent() {
    let mut m = FragmentCoverageMap::new(3);
    let cdf53 = || CoverageList::of(vec![FragmentCoverage {
        tile_x: 0,
        tile_y: 0,
        generation: 0,
        pass_idx: 0,
        codec: Codec::Cdf53,
        palette_id: None,
    }]);
    m.record((0, 1, 1, 0), cdf53());
    m.record((0, 2, 2, 0), cdf53());
    m.record((0, 1, 1, 1), cdf53());
    assert_eq!(m.len(), 3);

    m.drop_cdf53_for_tile(1, 1);
    assert_eq!(m.len(), 1);

    m.record((0, 3, 3, 0), cdf53());
    m.record((0, 4, 4, 0), cdf53());
    assert_eq!(m.len(), 3);
    assert!(m.take((0, 2, 2, 0)).is_some(), "(2,2) survived");
    assert!(m.take((0, 3, 3, 0)).is_some());
    assert!(m.take((0, 4, 4, 0)).is_some());
}

#[test]
fn map_different_passes_same_tile_no_collision() {
    let mut m = FragmentCoverageMap::new(16);
    let make_cov = |pass_idx: u8| -> CoverageList {
        CoverageList::of(vec![FragmentCoverage {
            tile_x: 5,
            tile_y: 3,
            generation: 1,
            pass_idx,
            codec: Codec::Cdf53,
            palette_id: None,
        }])
    };
    for p in 0..14u8 {
        m.record((42, 5, 3, p), make_cov(p));
    }
    assert_eq!(m.len(), 14);
    for p in 0..14u8 {
        let taken = m.take((42, 5, 3, p)).expect("present");
        assert_eq!(taken.as_slice()[0].pass_idx, p);
    }
    assert_eq!(m.len(), 0);
}
