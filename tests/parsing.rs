use savegame_analysis::replay::{parse_deviation, parse_line, parse_replay, LineKind};

#[test]
fn deviation_field_parsing() {
    assert_eq!(parse_deviation(b"-0.018477"), Some(-18_477));
    assert_eq!(parse_deviation(b"1.000000"), Some(1_000_000));
    assert_eq!(parse_deviation(b"0.919191"), Some(919_191));
    assert_eq!(parse_deviation(b"+0.000001"), Some(1));
    assert_eq!(parse_deviation(b"12.500000"), Some(12_500_000));
}

#[test]
fn deviations_of_any_precision() {
    assert_eq!(parse_deviation(b"0.5"), Some(500_000));
    assert_eq!(parse_deviation(b"0.01847"), Some(18_470));
    assert_eq!(parse_deviation(b"-2"), Some(-2_000_000));
    assert_eq!(parse_deviation(b"0.0000005"), Some(1));
    assert_eq!(parse_deviation(b"0.00000049999"), Some(0));
    assert_eq!(parse_deviation(b"-0.1234567"), Some(-123_457));
    assert_eq!(parse_deviation(b"3."), None);
    assert_eq!(parse_deviation(b"0.5x"), None);
    assert_eq!(parse_deviation(b"0.1.2"), None);
}

#[test]
fn short_fractions_in_a_replay() {
    let data = parse_replay(b"1 0.5 0\n1 0.5 0 4\n");
    assert_eq!(data.ticks, vec![1]);
    assert_eq!(data.deviations, vec![500_000]);
    assert_eq!(data.num_mine_hits, 1);
}

#[test]
fn malformed_deviations_are_rejected() {
    assert_eq!(parse_deviation(b""), None);
    assert_eq!(parse_deviation(b"-.018477"), None);
    assert_eq!(parse_deviation(b"0,018477"), None);
    assert_eq!(parse_deviation(b"0.01a477"), None);
    assert_eq!(parse_deviation(b"99999999999999.000000"), None);
}

#[test]
fn line_kinds() {
    assert_eq!(
        parse_line(b"192 -0.018477 2"),
        LineKind::Note { tick: 192, deviation: -18_477, column: 2 }
    );
    assert_eq!(
        parse_line(b"48 0.004000 0 2"),
        LineKind::Note { tick: 48, deviation: 4_000, column: 0 }
    );
    assert_eq!(parse_line(b"48 0.004000 3 4"), LineKind::MineHit);
    assert_eq!(parse_line(b"48 0.004000 3 5"), LineKind::Skipped);
    assert_eq!(parse_line(b"48 0.004000 3 7"), LineKind::Skipped);
    assert_eq!(parse_line(b"48 0.004000 3 9"), LineKind::Skipped);
    assert_eq!(parse_line(b"H 1 2"), LineKind::HoldDrop);
    assert_eq!(parse_line(b""), LineKind::Skipped);
    assert_eq!(parse_line(b"x 0.004000 3"), LineKind::Skipped);
    assert_eq!(parse_line(b"48 nope 3"), LineKind::Skipped);
    assert_eq!(parse_line(b"48 0.004000"), LineKind::Skipped);
    assert_eq!(parse_line(b"48"), LineKind::Skipped);
}

#[test]
fn whole_replay() {
    let text = b"10 0.010000 0\n5 -0.100000 1 1\nH\n\n7 0.000000 3 4\nbad line here\n20 1.000000 2 2";
    let data = parse_replay(text);
    assert_eq!(data.ticks, vec![10, 5, 20]);
    assert_eq!(data.deviations, vec![10_000, -100_000, 1_000_000]);
    assert_eq!(data.columns, vec![0, 1, 2]);
    assert_eq!(data.num_mine_hits, 1);
    assert_eq!(data.num_hold_drops, 1);
}

#[test]
fn empty_replay() {
    let data = parse_replay(b"");
    assert!(data.ticks.is_empty());
    assert_eq!((data.num_mine_hits, data.num_hold_drops), (0, 0));
    let data = parse_replay(b"\n\n");
    assert!(data.ticks.is_empty());
}
