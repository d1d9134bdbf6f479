use pelt::{Error, Pelt, SegmentCostFunction};

#[test]
fn defaults() {
    let pelt = Pelt::new();
    assert_eq!(pelt.segment_cost_function(), SegmentCostFunction::L1);
    assert_eq!(pelt.jump(), 5);
    assert_eq!(pelt.minimum_segment_length(), 2);
    assert!(!pelt.keep_initial_zero());
    let default = Pelt::default();
    assert_eq!(default.jump(), 5);
    assert_eq!(default.minimum_segment_length(), 2);
}

#[test]
fn builders_set_one_field_each() {
    let pelt = Pelt::new()
        .with_segment_cost_function(SegmentCostFunction::L2)
        .with_jump(3)
        .with_minimum_segment_length(4)
        .with_keep_initial_zero(true);
    assert_eq!(pelt.segment_cost_function(), SegmentCostFunction::L2);
    assert_eq!(pelt.jump(), 3);
    assert_eq!(pelt.minimum_segment_length(), 4);
    assert!(pelt.keep_initial_zero());
}

#[test]
fn threading_heuristic() {
    assert!(!SegmentCostFunction::L1.should_use_threading(31));
    assert!(SegmentCostFunction::L1.should_use_threading(32));
    assert!(!SegmentCostFunction::L2.should_use_threading(511));
    assert!(SegmentCostFunction::L2.should_use_threading(512));
}

#[test]
fn error_numbers_round_trip() {
    for error in [Error::NotEnoughPoints, Error::NoSegmentsFound] {
        let number = error.into_error_u8();
        assert_ne!(number, 0);
        assert_eq!(Error::try_from_u8(number), Err(error));
    }
    assert_eq!(Error::NotEnoughPoints.into_error_u8(), 1);
    assert_eq!(Error::NoSegmentsFound.into_error_u8(), 2);
    assert_eq!(Error::try_from_u8(0), Ok(()));
}

#[test]
fn default_model_is_l1() {
    assert_eq!(SegmentCostFunction::default(), SegmentCostFunction::L1);
}
