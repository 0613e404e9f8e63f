use std::collections::BTreeMap;

use chrono::{DateTime, TimeZone, Utc};
use hurdat2::pipeline::analysis::{
    analyze_track, estimate_landfall, estimate_max_winds, gust_wind_speed, interpolate_landfall,
    reduce, scan_track, snapshot_is_over_florida, table_indices, LandfallError, TrackScan,
    HURRICANE_GUST_FACTOR,
};
use hurdat2::pipeline::data::{
    HurricaneFinalAnalysis, HurricaneLandfallAnalysis, HurricanePathSnapshot, HurricaneTrack,
};
use hurdat2::pipeline::display::all_analyses;

fn instant(year: i32, month: u32, day: u32, hour: u32, minute: u32) -> i64 {
    Utc.with_ymd_and_hms(year, month, day, hour, minute, 0).unwrap().timestamp()
}

fn snapshot(datetime: i64, wind: i64) -> HurricanePathSnapshot {
    HurricanePathSnapshot { datetime, latitude: 0, longitude: 0, max_sustained_wind_speed: wind }
}

fn track(index: usize, name: &str, path: Vec<HurricanePathSnapshot>) -> HurricaneTrack {
    HurricaneTrack { index, name: name.to_string(), path }
}

fn line(name: &str, landfall: i64, sustained: i64) -> HurricaneFinalAnalysis {
    HurricaneFinalAnalysis {
        name: name.to_string(),
        landfall,
        max_sustained_wind_speed: sustained,
        max_gust_wind_speed: gust_wind_speed(sustained),
    }
}

fn table(lines: Vec<(usize, HurricaneFinalAnalysis)>) -> BTreeMap<usize, HurricaneFinalAnalysis> {
    lines.into_iter().collect()
}

#[test]
fn landfall_is_interpolated_between_the_two_observations() {
    let alpha = track(
        0,
        "ALPHA",
        vec![snapshot(instant(2000, 1, 1, 0, 0), 40), snapshot(instant(2000, 1, 1, 6, 0), 45)],
    );
    let analysis = estimate_landfall(alpha, &vec![false, true], 10_000, 8_000).unwrap().unwrap();
    assert_eq!(analysis.landfall, instant(2000, 1, 1, 4, 48));
    assert_eq!(analysis.name, "ALPHA");
    assert_eq!(analysis.index, 0);
    assert_eq!(analysis.first_datetime_over_florida, instant(2000, 1, 1, 6, 0));
    assert_eq!(analysis.last_datetime_over_florida, instant(2000, 1, 1, 6, 0));
    assert_eq!(analysis.path.len(), 2);
}

#[test]
fn landfall_of_a_track_that_starts_inside_is_its_first_instant() {
    let inside = track(7, "INSIDE", vec![snapshot(instant(1999, 5, 1, 12, 0), 60)]);
    let analysis = estimate_landfall(inside, &vec![true], 0, 0).unwrap().unwrap();
    assert_eq!(analysis.landfall, instant(1999, 5, 1, 12, 0));
    assert_eq!(analysis.first_datetime_over_florida, instant(1999, 5, 1, 12, 0));
    assert_eq!(analysis.last_datetime_over_florida, instant(1999, 5, 1, 12, 0));
}

#[test]
fn landfall_at_the_first_instant_whatever_the_distances() {
    for (chord, to_boundary) in [(0, 0), (1, 5), (10_000, 8_000), (u32::MAX, u32::MAX)] {
        let inside = track(1, "A", vec![snapshot(500, 60), snapshot(900, 70), snapshot(1000, 10)]);
        let analysis =
            estimate_landfall(inside, &vec![true, false, true], chord, to_boundary).unwrap().unwrap();
        assert_eq!(analysis.landfall, 500);
        assert_eq!(analysis.first_datetime_over_florida, 500);
        assert_eq!(analysis.last_datetime_over_florida, 1000);
    }
}

#[test]
fn track_that_never_enters_has_no_landfall() {
    let outside = track(3, "OUTSIDE", vec![snapshot(10, 90), snapshot(20, 95), snapshot(30, 99)]);
    assert_eq!(estimate_landfall(outside, &vec![false, false, false], 10, 5), Ok(None));
    let empty = track(3, "EMPTY", vec![]);
    assert_eq!(estimate_landfall(empty, &vec![], 10, 5), Ok(None));
}

#[test]
fn track_that_never_enters_is_absent_from_the_table() {
    let outside = track(3, "OUTSIDE", vec![snapshot(10, 90), snapshot(20, 95), snapshot(30, 99)]);
    let lines = analyze_track(outside, &vec![false, false, false], 10, 5).unwrap();
    assert!(!lines.contains_key(&3));
    assert!(lines.is_empty());
    let merged = reduce(table(vec![(2, line("B", 5, 30))]), lines);
    assert!(!merged.contains_key(&3));
    assert_eq!(merged.len(), 1);
}

#[test]
fn window_runs_to_the_last_observation_inside() {
    let wanderer = track(
        2,
        "WANDERER",
        vec![
            snapshot(100, 90),
            snapshot(200, 30),
            snapshot(300, 50),
            snapshot(400, 20),
            snapshot(500, 90),
        ],
    );
    let flags = vec![false, true, false, true, false];
    assert_eq!(
        scan_track(&flags),
        TrackScan { last_outside: Some(0), first_inside: Some(1), last_inside: Some(3) }
    );
    let analysis = estimate_landfall(wanderer, &flags, 4, 1).unwrap().unwrap();
    assert_eq!(analysis.landfall, 125);
    assert_eq!(analysis.first_datetime_over_florida, 200);
    assert_eq!(analysis.last_datetime_over_florida, 400);
    let lines = estimate_max_winds(Some(analysis));
    assert_eq!(lines.len(), 1);
    assert_eq!(lines[&2].max_sustained_wind_speed, 50);
    assert_eq!(lines[&2].max_gust_wind_speed as f64 / 100.0, 77.5);
    assert_eq!(lines[&2].max_gust_wind_speed, 7750);
    assert_eq!(lines[&2].landfall, 125);
    assert_eq!(lines[&2].name, "WANDERER");
}

#[test]
fn winds_outside_the_window_do_not_count() {
    let analysis = HurricaneLandfallAnalysis {
        index: 9,
        name: "NINE".to_string(),
        path: vec![snapshot(10, 90), snapshot(20, 30), snapshot(30, 50), snapshot(40, 20), snapshot(50, 90)],
        landfall: 15,
        first_datetime_over_florida: 20,
        last_datetime_over_florida: 40,
    };
    assert!(!snapshot_is_over_florida(&analysis.path[0], &analysis));
    assert!(snapshot_is_over_florida(&analysis.path[1], &analysis));
    assert!(snapshot_is_over_florida(&analysis.path[3], &analysis));
    assert!(!snapshot_is_over_florida(&analysis.path[4], &analysis));
    let lines = estimate_max_winds(Some(analysis));
    assert_eq!(lines[&9].max_sustained_wind_speed, 50);
    assert_eq!(lines[&9].max_gust_wind_speed as f64 / 100.0, 77.5);
}

#[test]
fn window_counts_every_observation_between_its_ends() {
    let analysis = HurricaneLandfallAnalysis {
        index: 1,
        name: "LOOP".to_string(),
        path: vec![snapshot(10, 40), snapshot(20, 120), snapshot(30, 35)],
        landfall: 10,
        first_datetime_over_florida: 10,
        last_datetime_over_florida: 30,
    };
    let lines = estimate_max_winds(Some(analysis));
    assert_eq!(lines[&1].max_sustained_wind_speed, 120);
    assert_eq!(lines[&1].max_gust_wind_speed, 18_600);
}

#[test]
fn empty_window_reports_no_wind() {
    let analysis = HurricaneLandfallAnalysis {
        index: 1,
        name: "NONE".to_string(),
        path: vec![snapshot(10, 40), snapshot(50, 120)],
        landfall: 20,
        first_datetime_over_florida: 20,
        last_datetime_over_florida: 30,
    };
    let lines = estimate_max_winds(Some(analysis));
    assert_eq!(lines[&1].max_sustained_wind_speed, 0);
    assert_eq!(lines[&1].max_gust_wind_speed, 0);
}

#[test]
fn window_of_unknown_winds_reports_the_least_unknown() {
    let analysis = HurricaneLandfallAnalysis {
        index: 1,
        name: "UNKNOWN".to_string(),
        path: vec![snapshot(10, -99), snapshot(20, -999)],
        landfall: 10,
        first_datetime_over_florida: 10,
        last_datetime_over_florida: 20,
    };
    let lines = estimate_max_winds(Some(analysis));
    assert_eq!(lines[&1].max_sustained_wind_speed, -99);
    assert_eq!(lines[&1].max_gust_wind_speed, -15_345);
}

#[test]
fn no_analysis_gives_an_empty_table() {
    assert!(estimate_max_winds(None).is_empty());
}

#[test]
fn gust_is_a_fixed_multiple_of_the_sustained_wind() {
    assert_eq!(HURRICANE_GUST_FACTOR, 155);
    assert_eq!(gust_wind_speed(40), 6_200);
    assert_eq!(gust_wind_speed(35) as f64 / 100.0, 54.25);
    assert_eq!(gust_wind_speed(0), 0);
    assert_eq!(gust_wind_speed(i64::MAX), 155 * i64::MAX as i128);
    assert_eq!(gust_wind_speed(i64::MIN), 155 * i64::MIN as i128);
}

#[test]
fn interpolation_rounds_down_to_a_second() {
    assert_eq!(interpolate_landfall(0, 21_600, 10_000, 8_000), Ok(17_280));
    assert_eq!(interpolate_landfall(0, 10, 3, 1), Ok(3));
    assert_eq!(interpolate_landfall(0, 10, 3, 2), Ok(6));
    assert_eq!(interpolate_landfall(0, 10, 3, 3), Ok(10));
    assert_eq!(interpolate_landfall(0, 10, 3, 0), Ok(0));
    assert_eq!(interpolate_landfall(-10, 0, 3, 1), Ok(-7));
    assert_eq!(interpolate_landfall(0, -10, 3, 1), Ok(-4));
    assert_eq!(interpolate_landfall(0, -9, 3, 1), Ok(-3));
    assert_eq!(interpolate_landfall(100, 100, 5, 3), Ok(100));
    assert_eq!(interpolate_landfall(0, 10, 1, 7), Ok(70));
}

#[test]
fn interpolation_stays_exact_at_the_ends_of_the_range() {
    assert_eq!(interpolate_landfall(i64::MIN, i64::MAX, u32::MAX, u32::MAX), Ok(i64::MAX));
    assert_eq!(interpolate_landfall(i64::MAX, i64::MIN, u32::MAX, u32::MAX), Ok(i64::MIN));
    assert_eq!(interpolate_landfall(i64::MIN, i64::MAX, 2, 1), Ok(-1));
    assert_eq!(interpolate_landfall(i64::MAX, i64::MIN, 2, 1), Ok(-1));
    assert_eq!(interpolate_landfall(i64::MIN, i64::MAX, u32::MAX, 0), Ok(i64::MIN));
}

#[test]
fn interpolation_without_a_chord_is_an_error() {
    assert_eq!(interpolate_landfall(0, 21_600, 0, 0), Err(LandfallError::CoincidentPositions));
    assert_eq!(interpolate_landfall(0, 21_600, 0, 8_000), Err(LandfallError::CoincidentPositions));
    let still = track(5, "STILL", vec![snapshot(0, 10), snapshot(21_600, 20)]);
    assert_eq!(
        estimate_landfall(still, &vec![false, true], 0, 8_000),
        Err(LandfallError::CoincidentPositions)
    );
    let still = track(5, "STILL", vec![snapshot(0, 10), snapshot(21_600, 20)]);
    assert_eq!(
        analyze_track(still, &vec![false, true], 0, 0),
        Err(LandfallError::CoincidentPositions)
    );
}

#[test]
fn interpolation_past_the_last_second_is_an_error() {
    assert_eq!(
        interpolate_landfall(0, i64::MAX, 1, 2),
        Err(LandfallError::InstantOutOfRange)
    );
    assert_eq!(
        interpolate_landfall(0, i64::MIN, 1, 2),
        Err(LandfallError::InstantOutOfRange)
    );
    assert_eq!(interpolate_landfall(i64::MAX - 10, i64::MAX, 1, 1), Ok(i64::MAX));
    assert_eq!(
        interpolate_landfall(i64::MAX - 10, i64::MAX, 10, 11),
        Err(LandfallError::InstantOutOfRange)
    );
}

#[test]
fn classification_must_have_a_flag_for_each_observation() {
    let short = track(0, "SHORT", vec![snapshot(0, 10), snapshot(10, 20)]);
    assert_eq!(
        estimate_landfall(short, &vec![true], 1, 1),
        Err(LandfallError::ClassificationMismatch)
    );
    let long = track(0, "LONG", vec![snapshot(0, 10)]);
    assert_eq!(
        estimate_landfall(long, &vec![false, false], 1, 1),
        Err(LandfallError::ClassificationMismatch)
    );
}

#[test]
fn scan_keeps_the_last_outside_before_the_first_inside() {
    assert_eq!(
        scan_track(&vec![]),
        TrackScan { last_outside: None, first_inside: None, last_inside: None }
    );
    assert_eq!(
        scan_track(&vec![false, false]),
        TrackScan { last_outside: Some(1), first_inside: None, last_inside: None }
    );
    assert_eq!(
        scan_track(&vec![true, false, false]),
        TrackScan { last_outside: None, first_inside: Some(0), last_inside: Some(0) }
    );
    assert_eq!(
        scan_track(&vec![false, false, true, true, false, true, false]),
        TrackScan { last_outside: Some(1), first_inside: Some(2), last_inside: Some(5) }
    );
}

#[test]
fn merge_keeps_every_line() {
    let merged = reduce(
        table(vec![(0, line("A", 1, 10)), (4, line("E", 5, 50))]),
        table(vec![(2, line("C", 3, 30))]),
    );
    assert_eq!(merged, table(vec![(0, line("A", 1, 10)), (2, line("C", 3, 30)), (4, line("E", 5, 50))]));
}

#[test]
fn merge_prefers_the_right_line() {
    let merged = reduce(
        table(vec![(0, line("A", 1, 10)), (1, line("LEFT", 2, 20))]),
        table(vec![(1, line("RIGHT", 7, 70)), (2, line("C", 3, 30))]),
    );
    assert_eq!(merged.len(), 3);
    assert_eq!(merged[&1], line("RIGHT", 7, 70));
    assert_eq!(merged[&0], line("A", 1, 10));
    assert_eq!(merged[&2], line("C", 3, 30));
}

#[test]
fn merge_with_the_empty_table_changes_nothing() {
    let lines = table(vec![(3, line("D", 4, 40))]);
    assert_eq!(reduce(table(vec![(3, line("D", 4, 40))]), BTreeMap::new()), lines);
    assert_eq!(reduce(BTreeMap::new(), table(vec![(3, line("D", 4, 40))])), lines);
    assert!(reduce(BTreeMap::new(), BTreeMap::new()).is_empty());
}

#[test]
fn merge_of_separate_tables_is_commutative() {
    let a = || table(vec![(0, line("A", 1, 10)), (5, line("F", 6, 60))]);
    let b = || table(vec![(2, line("C", 3, 30)), (9, line("J", 10, 100))]);
    assert_eq!(reduce(a(), b()), reduce(b(), a()));
}

#[test]
fn merge_is_associative() {
    let a = || table(vec![(0, line("A", 1, 10)), (1, line("B", 2, 20))]);
    let b = || table(vec![(1, line("B2", 3, 30)), (2, line("C", 4, 40))]);
    let c = || table(vec![(2, line("C2", 5, 50)), (0, line("A2", 6, 60))]);
    assert_eq!(reduce(reduce(a(), b()), c()), reduce(a(), reduce(b(), c())));
}

#[test]
fn merge_in_any_order_gives_one_table() {
    let parts = |order: [usize; 4]| {
        let mut merged = BTreeMap::new();
        for index in order {
            merged = reduce(merged, table(vec![(index, line("T", index as i64, 10 * index as i64))]));
        }
        merged
    };
    let whole = parts([0, 1, 2, 3]);
    assert_eq!(parts([3, 1, 0, 2]), whole);
    assert_eq!(parts([2, 3, 1, 0]), whole);
    let halves = reduce(
        reduce(table(vec![(3, line("T", 3, 30))]), table(vec![(0, line("T", 0, 0))])),
        reduce(table(vec![(2, line("T", 2, 20))]), table(vec![(1, line("T", 1, 10))])),
    );
    assert_eq!(halves, whole);
}

#[test]
fn table_is_listed_by_ascending_index() {
    let mut merged = BTreeMap::new();
    for index in [5usize, 1, 4, 0, 3, 2] {
        merged = reduce(table(vec![(index, line("T", index as i64, 10))]), merged);
    }
    assert_eq!(table_indices(&merged), vec![0, 1, 2, 3, 4, 5]);
    let lines = all_analyses(merged);
    let indices: Vec<usize> = lines.iter().map(|(index, _)| *index).collect();
    assert_eq!(indices, vec![0, 1, 2, 3, 4, 5]);
    for (index, found) in lines {
        assert_eq!(found, line("T", index as i64, 10));
    }
}

#[test]
fn listing_an_empty_table_gives_nothing() {
    assert!(all_analyses(BTreeMap::new()).is_empty());
    assert!(table_indices(&BTreeMap::new()).is_empty());
}

#[test]
fn tracks_analyzed_out_of_order_come_out_in_order() {
    let make = |index: usize| {
        track(index, "T", vec![snapshot(0, 10), snapshot(100, 20 + index as i64)])
    };
    let mut merged = BTreeMap::new();
    for index in [2usize, 0, 3, 1] {
        let flags = if index == 3 { vec![false, false] } else { vec![false, true] };
        merged = reduce(merged, analyze_track(make(index), &flags, 4, 1).unwrap());
    }
    let lines = all_analyses(merged);
    assert_eq!(lines.len(), 3);
    for (place, (index, found)) in lines.iter().enumerate() {
        assert_eq!(*index, place);
        assert_eq!(found.landfall, 25);
        assert_eq!(found.max_sustained_wind_speed, 20 + place as i64);
    }
}

#[test]
fn interpolation_agrees_with_arithmetic_on_dates() {
    let starts = [instant(1851, 6, 25, 0, 0), instant(1969, 12, 31, 18, 0), instant(2005, 8, 29, 6, 0)];
    let spans = [0i64, 1, 59, 60, 3_600, 21_600, 86_399, -21_600, -1];
    let distances = [(1i32, 0i32), (1, 1), (3, 1), (3, 2), (7, 5), (10_000, 8_000), (1_234, 1_233), (5, 9)];
    for start in starts {
        for span in spans {
            for (chord, to_boundary) in distances {
                let outside = DateTime::<Utc>::from_timestamp(start, 0).unwrap();
                let inside = DateTime::<Utc>::from_timestamp(start + span, 0).unwrap();
                let expected = outside + (inside - outside) * to_boundary / chord;
                assert_eq!(
                    interpolate_landfall(start, start + span, chord as u32, to_boundary as u32),
                    Ok(expected.timestamp()),
                    "{} {} {} {}",
                    start,
                    span,
                    chord,
                    to_boundary
                );
            }
        }
    }
}
