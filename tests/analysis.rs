use savegame_analysis::batch::{fastest_across_scores, reduce_scores, RatedWindow, ScoreSummary};
use savegame_analysis::replay::parse_replay;
use savegame_analysis::score::{
    accurate_deviations, analyze_replay, analyze_timing, column_tallies, count_out_of_order,
    longest_marvelous_combo,
};
use savegame_analysis::sessions::session_ends;
use savegame_analysis::window::{ComboWindow, Speed};

#[test]
fn tallies_follow_hit_order() {
    let (notes, cbs) = column_tallies(&[0, 1, 1, 3, 4, 2], &[0, 90_001, -90_000, -95_000, 200_000, 1]);
    assert_eq!(notes, vec![1, 2, 1, 1]);
    assert_eq!(cbs, vec![0, 1, 0, 1]);
}

#[test]
fn out_of_order_pairs() {
    assert_eq!(count_out_of_order(&[1, 3, 2, 4, 4, 0]), 2);
    assert_eq!(count_out_of_order(&[]), 0);
    assert_eq!(count_out_of_order(&[7]), 0);
}

#[test]
fn marvelous_runs() {
    assert_eq!(longest_marvelous_combo(&[0, 22_500, -22_500, 22_501, 1, 2]), 3);
    assert_eq!(longest_marvelous_combo(&[]), 0);
    assert_eq!(longest_marvelous_combo(&[50_000]), 0);
}

#[test]
fn mean_parts_leave_out_breaks() {
    assert_eq!(accurate_deviations(&[10, -30, 90_000, 90_001, -90_001]), (89_980, 3));
}

#[test]
fn replay_analysis_sorts_stably_by_tick() {
    let data = parse_replay(b"30 0.010000 0\n10 -0.020000 1\n20 0.100000 2\n10 0.000000 3\n");
    let stats = analyze_replay(&data);
    assert_eq!(stats.num_notes, 4);
    assert_eq!(stats.num_manipulated, 2);
    assert_eq!(stats.order, vec![1, 3, 2, 0]);
    assert_eq!(stats.ticks, vec![10, 10, 20, 30]);
    assert_eq!(stats.deviations, vec![-20_000, 0, 100_000, 10_000]);
    assert_eq!(stats.columns, vec![1, 3, 2, 0]);
    assert_eq!(stats.are_cbs, vec![false, false, true, false]);
    assert_eq!(stats.longest_mcombo, 2);
    assert_eq!((stats.deviation_sum, stats.num_deviation_notes), (-10_000, 3));
    assert_eq!(stats.notes_per_column, vec![1, 1, 1, 1]);
    assert_eq!(stats.cbs_per_column, vec![0, 0, 1, 0]);
    assert_eq!(stats.offset_buckets[160], 1);
    assert_eq!(stats.offset_buckets[280], 1);
}

#[test]
fn timing_windows() {
    // 32 notes in column 0, one every 100 ms, all hit 5 ms late; the rest in column 1
    let mut text = String::new();
    for k in 0..40u64 {
        let column = if k < 32 { 0 } else { 1 };
        text.push_str(&format!("{} 0.005000 {}\n", k, column));
    }
    let data = parse_replay(text.as_bytes());
    let stats = analyze_replay(&data);
    let times: Vec<i64> = (0..40).map(|k| k * 100_000).collect();
    let points = vec![1u64; 40];
    let windows = analyze_timing(&stats, &times, &points);
    // fewer than 101 notes: no combo window
    assert_eq!(windows.fastest_combo, ComboWindow::none());
    assert_eq!(windows.fastest_acc, ComboWindow::none());
    // 30 steps of 100 ms, the last such window in column 0
    assert_eq!(windows.fastest_jack.length, 30);
    assert_eq!(windows.fastest_jack.speed, Speed { count: 30, span: 3_000_000 });
    assert_eq!(windows.fastest_jack.start_time, 105_000);
    assert_eq!(windows.fastest_jack.end_time, 3_105_000);
}

#[test]
fn combo_windows_over_long_combos() {
    let mut text = String::new();
    for k in 0..150u64 {
        text.push_str(&format!("{} 0.000000 {}\n", k, k % 4));
    }
    let stats = analyze_replay(&parse_replay(text.as_bytes()));
    let times: Vec<i64> = (0..150).map(|k| k * 10_000).collect();
    let points = vec![2u64; 150];
    let windows = analyze_timing(&stats, &times, &points);
    assert_eq!(windows.fastest_combo.length, 130);
    assert_eq!(windows.fastest_combo.speed, Speed { count: 130, span: 1_300_000 });
    assert_eq!(windows.fastest_combo.start_time, 190_000);
    assert_eq!(windows.fastest_acc.speed, Speed { count: 260, span: 1_300_000 });
}

fn summary(notes: u64, mcombo: u64, below_93: bool, has_timing: bool) -> ScoreSummary {
    let mut buckets = vec![0u64; 361];
    buckets[180] = notes;
    ScoreSummary {
        num_notes: notes,
        num_manipulated: 1,
        notes_per_column: vec![notes, 0, 0, 0],
        cbs_per_column: vec![0, 1, 0, 0],
        offset_buckets: buckets,
        longest_mcombo: mcombo,
        below_93,
        has_timing,
    }
}

#[test]
fn batch_reduction() {
    let results = vec![
        None,
        Some(summary(10, 5, false, true)),
        None,
        Some(summary(20, 7, true, false)),
        Some(summary(5, 7, true, true)),
    ];
    let totals = reduce_scores(&results);
    assert_eq!(totals.score_indices, vec![1, 3, 4]);
    assert_eq!(totals.manipulations, vec![(1, 10), (1, 20), (1, 5)]);
    assert_eq!(totals.notes_per_column, vec![35, 0, 0, 0]);
    assert_eq!(totals.cbs_per_column, vec![0, 3, 0, 0]);
    assert_eq!(totals.offset_buckets[180], 35);
    assert_eq!(totals.sub_93_offset_buckets[180], 25);
    assert_eq!((totals.longest_mcombo, totals.longest_mcombo_index), (7, Some(3)));
    assert_eq!(totals.timing_info_dependant_score_indices, vec![1, 4]);
}

#[test]
fn batch_indices_rise_within_the_batch() {
    let results = vec![Some(summary(1, 0, false, false)), None, Some(summary(2, 0, false, false))];
    let totals = reduce_scores(&results);
    assert_eq!(totals.score_indices.len(), totals.manipulations.len());
    assert!(totals.score_indices.windows(2).all(|w| w[0] < w[1]));
    assert!(totals.score_indices.iter().all(|&i| (i as usize) < results.len()));
    assert_eq!((totals.longest_mcombo, totals.longest_mcombo_index), (0, None));
}

#[test]
fn empty_batch() {
    let totals = reduce_scores(&[]);
    assert!(totals.score_indices.is_empty());
    assert_eq!(totals.offset_buckets, vec![0; 361]);
}

#[test]
fn sessions_group_equal_neighbours() {
    assert_eq!(session_ends(&[4, 4, 5, 7, 7, 7, 4]), vec![2, 3, 6, 7]);
    assert_eq!(session_ends(&[]), Vec::<usize>::new());
    assert_eq!(session_ends(&[1]), vec![1]);
}

fn rated(count: u64, span: u64, rate_permille: u64) -> Option<RatedWindow> {
    Some(RatedWindow {
        window: ComboWindow { start_time: 0, end_time: span as i64, length: 1, speed: Speed { count, span } },
        rate_permille,
    })
}

#[test]
fn fastest_across_scores_scales_by_rate() {
    let windows = vec![None, rated(1, 10, 1000), rated(1, 10, 2000), rated(2, 20, 2000), rated(3, 20, 1000)];
    // 0.2 beats 0.1; the equal 0.2 later does not; 0.15 does not
    assert_eq!(fastest_across_scores(&windows), Some(2));
    // a slower note rate at a higher playback rate can win
    let windows = vec![rated(3, 20, 1000), rated(1, 10, 2000)];
    assert_eq!(fastest_across_scores(&windows), Some(1));
    // unbounded beats everything
    let windows = vec![rated(5, 1, 1000), rated(1, 0, 1000), rated(2, 0, 1000)];
    assert_eq!(fastest_across_scores(&windows), Some(1));
}

#[test]
fn zero_speeds_choose_nothing() {
    assert_eq!(fastest_across_scores(&[]), None);
    let windows = vec![None, rated(0, 1, 1000), rated(4, 1, 0)];
    assert_eq!(fastest_across_scores(&windows), None);
}
