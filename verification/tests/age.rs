use polis::age::{
    days_until, overgrowth, overgrowth_over, AgeRamp, AgeRampKind, OVERGROWTH_FULL_DAYS,
    OVERGROWTH_ONSET_DAYS, RAMP_STEPS, YEAR_MS,
};
use polis::time::WallTime;

const DAY: i64 = 86_400_000;
const OLD_TOWN_BAND: f64 = 0.40;
const MIN_SPREAD: f64 = 0.35;
const NO_HISTORY: f64 = 0.5;

fn even_history(index: usize, count: usize) -> WallTime {
    const BASE_MS: i64 = 1_500_000_000_000;
    let span = (YEAR_MS as f64) / OLD_TOWN_BAND;
    let last = count.saturating_sub(1).max(1) as f64;
    WallTime::from_unix_millis(BASE_MS + (index as f64 * span / last) as i64)
}

fn at_day(day: i64) -> WallTime {
    WallTime::from_unix_millis(1_600_000_000_000 + day * DAY)
}

fn at(ramp: &AgeRamp, index: u32) -> f64 {
    f64::from(ramp.at(index)) / f64::from(RAMP_STEPS)
}

fn newest(ramp: &AgeRamp) -> f64 {
    f64::from(ramp.newest()) / f64::from(RAMP_STEPS)
}

#[test]
fn a_slow_first_year_still_owns_the_core() {
    let mut entries = Vec::new();
    // Five files in year one, ninety-five in years two to five.
    for i in 0..5u32 {
        entries.push((i, at_day(i64::from(i) * 60)));
    }
    for i in 5..100u32 {
        entries.push((i, at_day(400 + i64::from(i) * 15)));
    }
    let ramp = AgeRamp::calibrate(&entries);
    assert_eq!(ramp.kind(), AgeRampKind::Calibrated);
    assert_eq!(ramp.old_town(), 5);
    // Every year-one file is inside the old-town band.
    for i in 0..5u32 {
        assert!(
            at(&ramp, i) <= OLD_TOWN_BAND + 1e-9,
            "file {i} at {} left the core",
            at(&ramp, i)
        );
    }
    // Growth-index fraction would have put file 4 at 0.04 of the ramp; real
    // commit time puts it near the top of the core band.
    assert!(at(&ramp, 4) > 0.15, "the core is not one twentieth wide");
    assert!(at(&ramp, 99) > 0.99);
}

#[test]
fn a_wholesale_import_gets_no_invented_gradient() {
    let entries: Vec<(u32, WallTime)> = (0..500u32).map(|i| (i, at_day(0))).collect();
    let ramp = AgeRamp::calibrate(&entries);
    assert_eq!(ramp.kind(), AgeRampKind::Uniform);
    assert_eq!(ramp.span_days(), 0);
    let first = at(&ramp, 0);
    for i in 0..500u32 {
        assert!(
            (at(&ramp, i) - first).abs() < f64::EPSILON,
            "the ramp invented a gradient at {i}"
        );
    }
    assert!((first - NO_HISTORY).abs() < 1e-9);
}

#[test]
fn an_import_plus_history_puts_the_import_in_the_core() {
    let mut entries: Vec<(u32, WallTime)> = (0..300u32).map(|i| (i, at_day(0))).collect();
    for i in 300..400u32 {
        entries.push((i, at_day(400 + i64::from(i - 300) * 10)));
    }
    let ramp = AgeRamp::calibrate(&entries);
    assert_eq!(ramp.kind(), AgeRampKind::Calibrated);
    assert_eq!(ramp.old_town(), 300);
    for i in 0..300u32 {
        assert!(at(&ramp, i) < 1e-9, "an imported file left the core");
    }
    assert!(at(&ramp, 399) > 0.99);
}

#[test]
fn a_young_repository_gets_a_relative_ramp() {
    let entries: Vec<(u32, WallTime)> = (0..60u32).map(|i| (i, at_day(i64::from(i)))).collect();
    let ramp = AgeRamp::calibrate(&entries);
    assert_eq!(ramp.kind(), AgeRampKind::Relative);
    assert_eq!(ramp.span_days(), 59);
    assert_eq!(ramp.old_town(), 60);
    assert!(at(&ramp, 0) < 1e-9);
    assert!(
        (newest(&ramp) - MIN_SPREAD).abs() < 2.0 / f64::from(RAMP_STEPS),
        "expected the stretch to {MIN_SPREAD}, got {}",
        newest(&ramp)
    );
}

#[test]
fn the_one_year_mark_is_not_a_cliff() {
    let just_under = AgeRamp::calibrate(
        &(0..=364u32)
            .map(|i| (i, at_day(i64::from(i))))
            .collect::<Vec<_>>(),
    );
    let just_over = AgeRamp::calibrate(
        &(0..=366u32)
            .map(|i| (i, at_day(i64::from(i))))
            .collect::<Vec<_>>(),
    );
    assert_eq!(just_under.kind(), AgeRampKind::Relative);
    assert_eq!(just_over.kind(), AgeRampKind::Calibrated);
    assert_eq!(just_over.old_town(), 366);
    // Only the last day's file is outside the first year, so all but one
    // file of the 366-day repository sits inside the old-town band.
    let outside = (0..=366u32)
        .filter(|&i| at(&just_over, i) > OLD_TOWN_BAND + 1e-9)
        .count();
    assert!(outside <= 1, "{outside} files jumped past the core band");
}

#[test]
fn a_decade_spends_most_of_the_ramp_after_year_one() {
    let entries: Vec<(u32, WallTime)> = (0..120u32)
        .map(|i| (i, at_day(i64::from(i) * 30)))
        .collect();
    let ramp = AgeRamp::calibrate(&entries);
    assert_eq!(ramp.kind(), AgeRampKind::Calibrated);
    // 30-day steps: files 0..=12 are inside the first year.
    assert_eq!(ramp.old_town(), 13);
    assert!(at(&ramp, 12) <= OLD_TOWN_BAND + 1e-9);
    assert!(at(&ramp, 13) > OLD_TOWN_BAND);
    assert!(at(&ramp, 119) > 0.99);
}

#[test]
fn an_out_of_order_commit_date_cannot_unsort_the_ramp() {
    let entries = vec![
        (0u32, at_day(0)),
        (1, at_day(400)),
        (2, at_day(200)), // a merge brought an older commit in later
        (3, at_day(800)),
    ];
    let ramp = AgeRamp::calibrate(&entries);
    assert!(at(&ramp, 0) <= at(&ramp, 1));
    assert!(at(&ramp, 1) <= at(&ramp, 2));
    assert!(at(&ramp, 2) <= at(&ramp, 3));
    // The out-of-order file reads at its predecessor's time.
    assert!((at(&ramp, 2) - at(&ramp, 1)).abs() < f64::EPSILON);
}

#[test]
fn untracked_files_read_as_the_newest_ground() {
    let entries = vec![
        (0u32, at_day(0)),
        (1, at_day(500)),
        (u32::MAX, WallTime::from_unix_millis(0)),
    ];
    let ramp = AgeRamp::calibrate(&entries);
    assert_eq!(ramp.len(), 2);
    assert!((at(&ramp, u32::MAX) - newest(&ramp)).abs() < f64::EPSILON);
    assert!((at(&ramp, 99) - newest(&ramp)).abs() < f64::EPSILON);
}

#[test]
fn an_untracked_checkout_has_no_ramp() {
    let ramp = AgeRamp::calibrate(&vec![(u32::MAX, WallTime::from_unix_millis(0))]);
    assert!(ramp.is_empty());
    assert_eq!(ramp.kind(), AgeRampKind::Uniform);
    assert!((at(&ramp, 0) - NO_HISTORY).abs() < 1e-9);
    assert!(AgeRamp::default().is_empty());
}

#[test]
fn input_order_cannot_move_the_ramp() {
    let forward: Vec<(u32, WallTime)> =
        (0..50u32).map(|i| (i, at_day(i64::from(i) * 20))).collect();
    let mut shuffled = forward.clone();
    shuffled.reverse();
    shuffled.swap(3, 41);
    let a = AgeRamp::calibrate(&forward);
    let b = AgeRamp::calibrate(&shuffled);
    assert_eq!(a.keys, b.keys);
    assert_eq!(a.times, b.times);
    assert_eq!(a.kind, b.kind);
    for i in 0..60u32 {
        assert_eq!(a.at(i), b.at(i));
    }
}

#[test]
fn every_value_is_quantised() {
    let entries: Vec<(u32, WallTime)> = (0..200u32)
        .map(|i| {
            (
                i,
                WallTime::from_unix_millis(1_600_000_000_000 + i64::from(i) * 997_003),
            )
        })
        .collect();
    let ramp = AgeRamp::calibrate(&entries);
    for i in 0..200u32 {
        let v = at(&ramp, i);
        let steps = v * f64::from(RAMP_STEPS);
        assert!(
            (steps - steps.round()).abs() < 1e-9,
            "value {v} is off the grid"
        );
        assert!((0.0..=1.0).contains(&v));
    }
}

#[test]
fn the_test_corpus_history_is_the_identity_ramp() {
    const N: usize = 41;
    let entries: Vec<(u32, WallTime)> = (0..N)
        .map(|i| (u32::try_from(i).expect("small"), even_history(i, N)))
        .collect();
    let ramp = AgeRamp::calibrate(&entries);
    assert_eq!(ramp.kind(), AgeRampKind::Calibrated);
    for i in 0..N {
        let want = i as f64 / (N - 1) as f64;
        let got = at(&ramp, u32::try_from(i).expect("small"));
        assert!(
            (got - want).abs() < 4.0 / f64::from(RAMP_STEPS),
            "file {i}: ramp {got} is not the index fraction {want}"
        );
    }
}

#[test]
fn a_one_second_jitter_does_not_move_the_ramp() {
    let base: Vec<(u32, WallTime)> =
        (0..400u32).map(|i| (i, at_day(i64::from(i) * 5))).collect();
    let jittered: Vec<(u32, WallTime)> = base
        .iter()
        .map(|&(i, at)| (i, WallTime::from_unix_millis(at.unix_millis() + 1_000)))
        .collect();
    let a = AgeRamp::calibrate(&base);
    let b = AgeRamp::calibrate(&jittered);
    for i in 0..400u32 {
        assert_eq!(a.at(i), b.at(i), "a second of jitter moved the ramp");
    }
}

#[test]
fn the_steps_are_the_nearest_to_the_formula() {
    let first = 1_600_000_000_000i64;
    let times = [0, YEAR_MS / 3, YEAR_MS, YEAR_MS + 1_000, 2 * YEAR_MS, 7 * YEAR_MS / 2];
    let entries: Vec<(u32, WallTime)> = times
        .iter()
        .enumerate()
        .map(|(i, t)| (i as u32, WallTime::from_unix_millis(first + t)))
        .collect();
    let ramp = AgeRamp::calibrate(&entries);
    let span = *times.last().unwrap();
    for (i, t) in times.iter().enumerate() {
        let raw = if *t <= YEAR_MS {
            0.4 * (*t as f64) / YEAR_MS as f64
        } else {
            0.4 + 0.6 * ((t - YEAR_MS) as f64) / ((span - YEAR_MS) as f64)
        };
        assert_eq!(ramp.at(i as u32), (raw * 4096.0).round() as u32);
    }
    assert_eq!(ramp.at(2), 1638);
    assert_eq!(ramp.newest(), 4096);
    assert_eq!(ramp.first().unix_millis(), first);
    assert_eq!(ramp.last().unix_millis(), first + span);
    let young = AgeRamp::calibrate(&vec![(0, at_day(0)), (1, at_day(50)), (2, at_day(200))]);
    assert_eq!(young.at(1), (0.35f64 * 50.0 / 200.0 * 4096.0).round() as u32);
    assert_eq!(young.newest(), 1434);
    assert_eq!(AgeRampKind::Uniform.label(), "uniform");
    assert_eq!(AgeRampKind::Relative.label(), "relative");
    assert_eq!(AgeRampKind::Calibrated.label(), "calibrated");
}

#[test]
fn an_index_that_is_not_in_the_table_is_the_newest_ground() {
    let ramp = AgeRamp::calibrate(&vec![(2, at_day(0)), (5, at_day(100)), (9, at_day(900))]);
    assert!(ramp.at(2) < ramp.at(5) && ramp.at(5) < ramp.at(9));
    for unknown in [0, 3, 7, 10, u32::MAX] {
        assert_eq!(ramp.at(unknown), ramp.newest(), "{unknown}");
        assert_eq!(ramp.place(unknown), Some(2));
    }
}

#[test]
fn a_repeated_index_keeps_its_earliest_time() {
    let ramp = AgeRamp::calibrate(&vec![(7, at_day(9)), (7, at_day(3)), (7, at_day(5))]);
    assert_eq!(ramp.keys, vec![7]);
    assert_eq!(ramp.first(), at_day(3));
    assert_eq!(ramp.place(0), Some(0));
}

#[test]
fn overgrowth_ramps_between_onset_and_full() {
    let t0 = WallTime::from_unix_millis(0);
    let at = |d: i64| WallTime::from_unix_millis(d * 24 * 3600 * 1000);
    let share = |d: i64| {
        let (num, den) = overgrowth(t0, at(d));
        num as f32 / den as f32
    };
    assert_eq!(share(10), 0.0);
    assert_eq!(share(90), 0.0);
    assert!(share(180) > 0.4 && share(180) < 0.6);
    assert_eq!(share(400), 1.0);
    assert_eq!(overgrowth(t0, at(91)), (1, OVERGROWTH_FULL_DAYS - OVERGROWTH_ONSET_DAYS));
    assert_eq!(overgrowth_over(t0, at(5), 5, 5), (1, 1));
    assert_eq!(overgrowth_over(t0, at(4), 5, 5), (0, 1));
    assert_eq!(days_until(at(3), t0), 0);
    assert_eq!(days_until(t0, WallTime::from_unix_millis(2 * DAY - 1)), 1);
}
