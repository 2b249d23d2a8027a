use raycaster::fixed::ONE;
use raycaster::maze::{blocked_at, cell_at, cell_extent, check_rectangular, load_maze, CellKind};

fn maze_rows(rows: &[&str]) -> Vec<Vec<char>> {
    rows.iter().map(|row| row.chars().collect()).collect()
}

#[test]
fn load_maze_reads_a_row_from_each_line() {
    assert_eq!(load_maze("###\n# #\n###\n"), maze_rows(&["###", "# #", "###"]));
}

#[test]
fn load_maze_takes_a_last_line_without_line_feed() {
    assert_eq!(load_maze("###\n# #\n###"), maze_rows(&["###", "# #", "###"]));
    assert_eq!(load_maze("#"), maze_rows(&["#"]));
}

#[test]
fn load_maze_drops_carriage_returns_before_line_feeds() {
    assert_eq!(load_maze("###\r\n# #\r\n###\r\n"), maze_rows(&["###", "# #", "###"]));
    // Only one, and only before a line feed.
    assert_eq!(load_maze("#\r\r\n#\r"), maze_rows(&["#\r", "#\r"]));
    assert_eq!(load_maze("\r\n"), maze_rows(&[""]));
    assert_eq!(load_maze("\r"), maze_rows(&["\r"]));
}

#[test]
fn load_maze_keeps_empty_lines() {
    assert_eq!(load_maze(""), Vec::<Vec<char>>::new());
    assert_eq!(load_maze("\n"), maze_rows(&[""]));
    assert_eq!(load_maze("\n\n"), maze_rows(&["", ""]));
    assert_eq!(load_maze("#\n\n#"), maze_rows(&["#", "", "#"]));
    assert_eq!(load_maze("\n#"), maze_rows(&["", "#"]));
}

#[test]
fn load_maze_agrees_with_the_lines_of_std() {
    let texts = [
        "",
        "\n",
        "a",
        "a\n",
        "a\nb",
        "a\r\nb\r\n",
        "\r\n\r\n",
        "a\rb\n",
        "+--+\n|  |\n+--+\n",
        "x\n\n\ny",
        "\r",
        "\r\r\n",
        " \n \n",
        "caf\u{e9}\n\u{4e16}\u{754c}\n",
    ];
    for text in texts {
        let expected: Vec<Vec<char>> = text.lines().map(|line| line.chars().collect()).collect();
        let by_lines = load_maze(text);
        if text.ends_with('\r') {
            // `str::lines` drops a carriage return at the very end; a reader's lines do not.
            let mut with_cr = expected.clone();
            with_cr.last_mut().map(|row| row.push('\r'));
            if text == "\r" {
                assert_eq!(by_lines, vec![vec!['\r']]);
            } else {
                assert_eq!(by_lines, with_cr);
            }
        } else {
            assert_eq!(by_lines, expected);
        }
    }
}

#[test]
fn load_maze_does_not_pad_rows() {
    assert_eq!(load_maze("####\n#\n##\n"), maze_rows(&["####", "#", "##"]));
}

#[test]
fn cell_at_tells_walls_from_empty_cells() {
    let maze = maze_rows(&["###", "# #", "#+|"]);
    assert_eq!(cell_at(&maze, 1, 1), CellKind::Empty);
    assert_eq!(cell_at(&maze, 0, 0), CellKind::Wall);
    assert_eq!(cell_at(&maze, 1, 0), CellKind::Wall);
    assert_eq!(cell_at(&maze, 2, 1), CellKind::Wall);
    assert_eq!(cell_at(&maze, 2, 2), CellKind::Wall);
}

#[test]
fn cell_at_outside_the_grid_is_wall() {
    let maze = maze_rows(&["   ", " "]);
    assert_eq!(cell_at(&maze, 0, 2), CellKind::Empty);
    assert_eq!(cell_at(&maze, 0, 3), CellKind::Wall);
    assert_eq!(cell_at(&maze, 1, 0), CellKind::Empty);
    assert_eq!(cell_at(&maze, 1, 1), CellKind::Wall);
    assert_eq!(cell_at(&maze, 2, 0), CellKind::Wall);
    assert_eq!(cell_at(&maze, usize::MAX, usize::MAX), CellKind::Wall);
    let none: Vec<Vec<char>> = Vec::new();
    assert_eq!(cell_at(&none, 0, 0), CellKind::Wall);
}

#[test]
fn cell_extent_is_the_block_size_in_fixed_point() {
    assert_eq!(cell_extent(100), 100_000_000);
    assert_eq!(cell_extent(1), 1_000_000);
    assert_eq!(cell_extent(0), 0);
    assert_eq!(cell_extent(usize::MAX), usize::MAX as i128 * 1_000_000);
}

#[test]
fn blocked_at_maps_points_to_cells_by_the_floor() {
    let maze = maze_rows(&["# ", "  "]);
    let one: i128 = ONE as i128;
    assert!(blocked_at(&maze, 100, 0, 0));
    assert!(blocked_at(&maze, 100, 100 * one - 1, 100 * one - 1));
    assert!(!blocked_at(&maze, 100, 100 * one, 0));
    assert!(!blocked_at(&maze, 100, 0, 100 * one));
    assert!(!blocked_at(&maze, 100, 200 * one - 1, 200 * one - 1));
    assert!(blocked_at(&maze, 100, 200 * one, 0));
    assert!(blocked_at(&maze, 100, 0, 200 * one));
    assert!(blocked_at(&maze, 100, -1, 100 * one));
    assert!(blocked_at(&maze, 100, 100 * one, -1));
}

#[test]
fn blocked_at_beyond_the_coordinate_range_is_outside() {
    let maze = maze_rows(&[" "]);
    let huge: usize = 1_usize << 62;
    assert!(!blocked_at(&maze, huge, 0, 0));
    assert!(!blocked_at(&maze, huge, i64::MAX as i128, i64::MAX as i128));
    assert!(blocked_at(&maze, huge, i64::MAX as i128 + 1, 0));
    assert!(blocked_at(&maze, huge, 0, i64::MAX as i128 + 1));
    assert!(blocked_at(&maze, huge, i128::MAX, i128::MAX));
    assert!(blocked_at(&maze, huge, i128::MIN, 0));
}

#[test]
fn rectangular_mazes_are_told_from_ragged_and_empty_ones() {
    assert!(check_rectangular(&maze_rows(&["###", "# #", "###"])));
    assert!(check_rectangular(&maze_rows(&["#"])));
    assert!(check_rectangular(&maze_rows(&["", ""])));
    assert!(!check_rectangular(&Vec::new()));
    assert!(!check_rectangular(&maze_rows(&["###", "##", "###"])));
    assert!(!check_rectangular(&maze_rows(&["###", "###", "####"])));
    assert!(!check_rectangular(&maze_rows(&["", "#"])));
    assert!(check_rectangular(&load_maze("+-+\r\n| |\r\n+-+\r\n")));
    assert!(!check_rectangular(&load_maze("+-+\n| |\n+-+\n\n")));
}
