use aoc22::day12::{day12, reachable, shortest_path, steps_from, Grid, GridError, SearchError};

fn grid_from(rows: &[&str]) -> (Grid, (usize, usize), (usize, usize)) {
    let mut cells: Vec<Vec<u8>> = Vec::new();
    let mut start = (0usize, 0usize);
    let mut end = (0usize, 0usize);
    for (r, line) in rows.iter().enumerate() {
        let mut row: Vec<u8> = Vec::new();
        for (c, ch) in line.bytes().enumerate() {
            let e = match ch {
                b'S' => {
                    start = (r, c);
                    0
                },
                b'E' => {
                    end = (r, c);
                    25
                },
                x => x - b'a',
            };
            row.push(e);
        }
        cells.push(row);
    }
    match Grid::new(cells) {
        Ok(g) => (g, start, end),
        Err(_) => panic!("bad test grid"),
    }
}

#[test]
fn example_shortest_path_is_31() {
    let (g, start, end) = grid_from(&["Sabqponm", "abcryxxl", "accszExk", "acctuvwj", "abdefghi"]);
    assert_eq!(shortest_path(&g, start, end), Some(31));
}

#[test]
fn example_both_answers() {
    let (g, start, end) = grid_from(&["Sabqponm", "abcryxxl", "accszExk", "acctuvwj", "abdefghi"]);
    assert_eq!(day12(&g, start, end), Ok((31, 29)));
}

#[test]
fn start_equals_end_gives_zero() {
    let (g, start, _) = grid_from(&["Sabqponm", "abcryxxl", "accszExk", "acctuvwj", "abdefghi"]);
    assert_eq!(shortest_path(&g, start, start), Some(0));
}

#[test]
fn walled_off_end_is_unreachable() {
    let (g, start, end) = grid_from(&["SzE"]);
    assert_eq!(shortest_path(&g, start, end), None);
    assert_eq!(day12(&g, start, end), Err(SearchError::NoPathFromStart));
}

#[test]
fn dropping_down_any_amount_is_legal() {
    let (g, _, _) = grid_from(&["aza", "aaa"]);
    assert_eq!(shortest_path(&g, (0, 1), (1, 1)), Some(1));
    // the level walker cannot climb the 'z' and goes around it
    assert_eq!(shortest_path(&g, (0, 0), (0, 2)), Some(4));
}

#[test]
fn ragged_rows_are_refused() {
    let cells = vec![vec![0u8, 1u8], vec![2u8]];
    assert!(matches!(Grid::new(cells), Err(GridError::Malformed)));
}

#[test]
fn empty_grid_is_refused() {
    assert!(matches!(Grid::new(Vec::new()), Err(GridError::Malformed)));
}

#[test]
fn steps_from_yields_the_four_neighbours() {
    let r = steps_from((3, 4));
    assert_eq!(r[0], ((3, 4), (4, 4)));
    assert_eq!(r[1], ((3, 4), (2, 4)));
    assert_eq!(r[2], ((3, 4), (3, 5)));
    assert_eq!(r[3], ((3, 4), (3, 3)));
}

#[test]
fn steps_from_marks_underflow() {
    let r = steps_from((0, 0));
    assert_eq!(r[1], ((0, 0), (usize::MAX, 0)));
    assert_eq!(r[3], ((0, 0), (0, usize::MAX)));
}

#[test]
fn reachable_checks_bounds_and_climb() {
    let (g, _, _) = grid_from(&["abc", "abc"]);
    assert!(reachable((0, 0), (0, 1), &g));
    assert!(!reachable((0, 0), (0, 2), &g));
    assert!(reachable((0, 2), (0, 1), &g));
    assert!(!reachable((0, 0), (2, 0), &g));
}
