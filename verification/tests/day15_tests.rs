use aoc22::day15::{
    day15, day15_example, find_uncovered_tile, manhattan_distance, remove_covered_ranges,
    remove_range, CoverageError, Interval, Sensor,
};

fn example_sensors() -> Vec<Sensor> {
    let raw: [((isize, isize), (isize, isize)); 14] = [
        ((2, 18), (-2, 15)),
        ((9, 16), (10, 16)),
        ((13, 2), (15, 3)),
        ((12, 14), (10, 16)),
        ((10, 20), (10, 16)),
        ((14, 17), (10, 16)),
        ((8, 7), (2, 10)),
        ((2, 0), (2, 10)),
        ((0, 11), (2, 10)),
        ((20, 14), (25, 17)),
        ((17, 20), (21, 22)),
        ((16, 7), (15, 3)),
        ((14, 3), (15, 3)),
        ((20, 1), (15, 3)),
    ];
    let mut sensors = Vec::new();
    for (pos, beacon) in raw.iter() {
        sensors.push(Sensor::new(*pos, *beacon));
    }
    sensors
}

#[test]
fn manhattan_distance_of_example_sensor() {
    assert_eq!(manhattan_distance((8, 7), (2, 10)), 9);
}

#[test]
fn sensor_range_for_its_own_row() {
    let s = Sensor::new((8, 7), (2, 10));
    assert_eq!(s.usable_range, 9);
    assert_eq!(s.range_for_row(7), Some(Interval { start: -1, end: 17 }));
}

#[test]
fn sensor_range_degenerates_at_the_rim() {
    let s = Sensor::new((8, 7), (2, 10));
    assert_eq!(s.range_for_row(16), Some(Interval { start: 8, end: 8 }));
}

#[test]
fn sensor_range_missing_beyond_the_rim() {
    let s = Sensor::new((8, 7), (2, 10));
    assert_eq!(s.range_for_row(17), None);
}

#[test]
fn sensor_covers_its_disk_edge() {
    let s = Sensor::new((8, 7), (2, 10));
    assert!(s.covers((2, 10)));
    assert!(s.covers((8, 16)));
    assert!(!s.covers((8, 17)));
}

#[test]
fn remove_range_splits_an_interval() {
    let mut row = vec![Interval { start: 0, end: 20 }];
    remove_range(&mut row, Interval { start: 5, end: 10 });
    assert_eq!(row, vec![Interval { start: 0, end: 4 }, Interval { start: 11, end: 20 }]);
}

#[test]
fn remove_range_twice_changes_nothing_more() {
    let mut once = vec![Interval { start: 0, end: 20 }];
    remove_range(&mut once, Interval { start: 5, end: 10 });
    let mut twice = once.clone();
    remove_range(&mut twice, Interval { start: 5, end: 10 });
    assert_eq!(once, twice);
}

#[test]
fn remove_range_ignores_an_empty_range() {
    let mut row = vec![Interval { start: 0, end: 9 }];
    remove_range(&mut row, Interval { start: 7, end: 3 });
    assert_eq!(row, vec![Interval { start: 0, end: 9 }]);
}

#[test]
fn remove_range_consumes_a_contained_interval() {
    let mut row = vec![Interval { start: 3, end: 5 }, Interval { start: 8, end: 9 }];
    remove_range(&mut row, Interval { start: 2, end: 6 });
    assert_eq!(row, vec![Interval { start: 8, end: 9 }]);
}

#[test]
fn remove_range_truncates_both_sides() {
    let mut row = vec![Interval { start: 0, end: 5 }, Interval { start: 10, end: 15 }];
    remove_range(&mut row, Interval { start: 4, end: 11 });
    assert_eq!(row, vec![Interval { start: 0, end: 3 }, Interval { start: 12, end: 15 }]);
}

#[test]
fn example_row_coverage_leaves_the_gap() {
    let sensors = example_sensors();
    let row = remove_covered_ranges(20, 11, &sensors);
    assert_eq!(row, vec![Interval { start: 14, end: 14 }]);
}

#[test]
fn fully_covered_row_leaves_nothing() {
    let sensors = example_sensors();
    let row = remove_covered_ranges(20, 10, &sensors);
    assert_eq!(row, Vec::<Interval>::new());
}

#[test]
fn example_gap_is_unique_and_found() {
    let sensors = example_sensors();
    assert_eq!(find_uncovered_tile(20, &sensors), Some((14, 11)));
}

#[test]
fn example_gap_is_the_only_uncovered_position() {
    let sensors = example_sensors();
    let mut uncovered: Vec<(isize, isize)> = Vec::new();
    for y in 0..=20 {
        for iv in remove_covered_ranges(20, y, &sensors) {
            for x in iv.start..=iv.end {
                uncovered.push((x, y));
            }
        }
    }
    assert_eq!(uncovered, vec![(14, 11)]);
    assert_eq!(14 * 4000000 + 11, 56000011);
}

#[test]
fn example_answers() {
    let sensors = example_sensors();
    assert_eq!(day15(&sensors, 20), Ok((26, 56000011)));
    assert_eq!(day15_example(&sensors), Ok((26, 56000011)));
}

#[test]
fn empty_sensor_list_is_refused() {
    let sensors: Vec<Sensor> = Vec::new();
    assert_eq!(day15(&sensors, 20), Err(CoverageError::NoSensors));
}

#[test]
fn covered_square_reports_no_gap() {
    let sensors = vec![Sensor::new((1, 1), (1, 5))];
    assert_eq!(day15(&sensors, 2), Err(CoverageError::GapNotFound));
}
