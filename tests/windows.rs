use savegame_analysis::window::{
    find_fastest_combo_in_score, find_fastest_note_subset, find_fastest_note_subset_wife_pts,
    ComboWindow, Speed,
};

const SECOND: i64 = 1_000_000;

fn micros(seconds: &[f64]) -> Vec<i64> {
    seconds.iter().map(|s| (s * SECOND as f64).round() as i64).collect()
}

fn notes_per_second(speed: &Speed) -> f64 {
    speed.count as f64 / speed.span as f64 * SECOND as f64
}

fn check_both(seconds: &[f64], min: u64, max: u64, expected_length: u64, expected_speed: f64) {
    let times = micros(seconds);
    let plain = find_fastest_note_subset(&times, min, max);
    let ones = vec![1u64; times.len()];
    let weighted = find_fastest_note_subset_wife_pts(&times, min, max, &ones);
    assert_eq!(plain.start_time, weighted.start_time);
    assert_eq!(plain.end_time, weighted.end_time);
    assert_eq!(plain.length, weighted.length);
    assert!((notes_per_second(&plain.speed) - notes_per_second(&weighted.speed)).abs() < 0.00001);
    assert_eq!(plain.length, expected_length);
    assert!((notes_per_second(&plain.speed) - expected_speed).abs() < 0.00001);
}

#[test]
fn test_find_fastest_note_subset() {
    let seconds: &[f64] = &[0.0, 3.0, 5.0, 6.0, 8.0];
    check_both(seconds, 2, 99, 2, 0.66666666666);
    check_both(seconds, 3, 99, 3, 0.6);

    let seconds: &[f64] = &[0.0, 0.0, 1.0, 2.0, 3.0, 4.0, 4.0];
    check_both(seconds, 5, 6, 6, 1.5);
    check_both(seconds, 5, 5, 5, 1.25);
}

#[test]
fn fastest_subset_window_bounds() {
    let times = micros(&[0.0, 3.0, 5.0, 6.0, 8.0]);
    // [3, 6] and [5, 8] are equally fast; the later one wins
    let r = find_fastest_note_subset(&times, 2, 99);
    assert_eq!(r.start_time, 5 * SECOND);
    assert_eq!(r.end_time, 8 * SECOND);
    assert_eq!(r.speed, Speed { count: 2, span: 3 * SECOND as u64 });
    let r = find_fastest_note_subset(&times, 3, 99);
    assert_eq!((r.start_time, r.end_time), (3 * SECOND, 8 * SECOND));
}

#[test]
fn too_few_notes_give_the_empty_window() {
    let times = micros(&[0.0, 1.0, 2.0]);
    assert_eq!(find_fastest_note_subset(&times, 3, 10), ComboWindow::none());
    assert_eq!(find_fastest_note_subset(&[], 0, 10), ComboWindow::none());
    assert_eq!(find_fastest_note_subset_wife_pts(&times, 3, 10, &[1, 1, 1]), ComboWindow::none());
    // a maximum below the minimum leaves no window
    assert_eq!(find_fastest_note_subset(&times, 2, 1), ComboWindow::none());
}

#[test]
fn equal_rates_prefer_the_later_window() {
    let times = micros(&[0.0, 1.0, 2.0, 3.0]);
    let r = find_fastest_note_subset(&times, 1, 1);
    assert_eq!((r.start_time, r.end_time, r.length), (2 * SECOND, 3 * SECOND, 1));
}

#[test]
fn simultaneous_notes_are_unbounded() {
    let times = vec![0, 5, 5, 9];
    let r = find_fastest_note_subset(&times, 1, 1);
    assert_eq!(r.speed, Speed { count: 1, span: 0 });
    assert_eq!((r.start_time, r.end_time), (5, 5));
}

#[test]
fn backwards_windows_are_never_chosen() {
    let times = vec![0, 100, 50, 400];
    let r = find_fastest_note_subset(&times, 1, 1);
    assert_eq!((r.start_time, r.end_time), (0, 100));
}

#[test]
fn weights_change_the_winner() {
    let times = micros(&[0.0, 1.0, 2.0, 3.0]);
    let r = find_fastest_note_subset_wife_pts(&times, 1, 1, &[5, 1, 1, 1]);
    assert_eq!((r.start_time, r.end_time), (0, SECOND));
    assert_eq!(r.speed, Speed { count: 5, span: SECOND as u64 });
    let r = find_fastest_note_subset_wife_pts(&times, 2, 2, &[1, 3, 3, 1]);
    assert_eq!(r.speed, Speed { count: 6, span: 2 * SECOND as u64 });
    assert_eq!(r.start_time, SECOND);
}

#[test]
fn combos_end_at_every_break() {
    // two combos: notes 0..4 and 5..9; the break at index 4 belongs to neither
    let times = micros(&[0.0, 1.0, 2.0, 3.0, 3.1, 10.0, 10.5, 11.0, 11.5, 12.0]);
    let mut cbs = vec![false; 10];
    cbs[4] = true;
    let r = find_fastest_combo_in_score(&times, &cbs, 2, 3, None);
    assert_eq!(r.start_time, 10 * SECOND + SECOND / 2);
    assert_eq!(r.speed, Speed { count: 3, span: 3 * SECOND as u64 / 2 });
    // without the break the window through the break note would be considered
    let r = find_fastest_combo_in_score(&times, &vec![false; 10], 1, 1, None);
    assert_eq!((r.start_time, r.end_time), (3 * SECOND, 3 * SECOND + SECOND / 10));
}

#[test]
fn combo_ties_keep_the_earlier_combo() {
    let times = vec![0, 10, 20, 30, 40, 50, 60];
    let mut cbs = vec![false; 7];
    cbs[3] = true;
    let r = find_fastest_combo_in_score(&times, &cbs, 1, 1, None);
    assert_eq!((r.start_time, r.end_time), (10, 20));
    let r = find_fastest_combo_in_score(&times, &cbs, 1, 1, Some(&[1, 1, 1, 1, 2, 1, 1]));
    assert_eq!((r.start_time, r.end_time), (40, 50));
}
