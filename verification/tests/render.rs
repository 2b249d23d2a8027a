use raycaster::fixed::{Direction, ONE};
use raycaster::framebuffer::Framebuffer;
use raycaster::player::{Player, Point};
use raycaster::render::{draw_cell, render_2d, render_3d, render_minimap};

fn render_grid(rows: &[&str]) -> Vec<Vec<char>> {
    rows.iter().map(|row| row.chars().collect()).collect()
}

fn render_white(width: usize, height: usize) -> Framebuffer {
    let mut fb = Framebuffer::new(width, height);
    fb.set_background_color(0xEEEEEE);
    fb.clear();
    fb
}

fn render_picture(fb: &Framebuffer) -> Vec<String> {
    let mut rows: Vec<String> = Vec::new();
    for y in 0..fb.height {
        let mut row = String::new();
        for x in 0..fb.width {
            row.push(match fb.buffer[y * fb.width + x] {
                0x000000 => '#',
                0xFFFFFF => 'P',
                0xFFDDD => 'm',
                0xEEEEEE => '.',
                _ => '?',
            });
        }
        rows.push(row);
    }
    rows
}

#[test]
fn draw_cell_paints_a_wall_black() {
    let mut fb = render_white(4, 4);
    draw_cell(&mut fb, 1, 2, 2, '#');
    assert_eq!(render_picture(&fb), vec!["....", "....", ".##.", ".##."]);
    assert_eq!(fb.current_color, 0x000000);
}

#[test]
fn draw_cell_leaves_an_empty_cell_alone() {
    let mut fb = render_white(4, 4);
    fb.set_current_color(0x123456);
    draw_cell(&mut fb, 1, 2, 2, ' ');
    assert_eq!(render_picture(&fb), vec!["....", "....", "....", "...."]);
    assert_eq!(fb.current_color, 0x123456);
}

#[test]
fn draw_cell_is_cut_off_at_the_edges() {
    let mut fb = render_white(3, 3);
    draw_cell(&mut fb, 2, 2, usize::MAX, '+');
    assert_eq!(render_picture(&fb), vec!["...", "...", "..#"]);
    draw_cell(&mut fb, 3, 0, 5, '+');
    draw_cell(&mut fb, 0, 0, 0, '+');
    draw_cell(&mut fb, usize::MAX, usize::MAX, usize::MAX, '+');
    assert_eq!(render_picture(&fb), vec!["...", "...", "..#"]);
}

#[test]
fn render_2d_draws_the_walls_and_the_player() {
    let maze = render_grid(&["###", "# #", "###"]);
    let mut fb = render_white(16, 14);
    // The player's pixel is (7, 6): the square covers columns 2..=12 and rows 1..=11.
    let player = Player { pos: Point { x: 7_500_000, y: 6_999_999 }, a: 0, fov: 0 };
    render_2d(&mut fb, &player, &maze, 4);
    assert_eq!(
        render_picture(&fb),
        vec![
            "############....",
            "##PPPPPPPPPPP...",
            "##PPPPPPPPPPP...",
            "##PPPPPPPPPPP...",
            "##PPPPPPPPPPP...",
            "##PPPPPPPPPPP...",
            "##PPPPPPPPPPP...",
            "##PPPPPPPPPPP...",
            "##PPPPPPPPPPP...",
            "##PPPPPPPPPPP...",
            "##PPPPPPPPPPP...",
            "##PPPPPPPPPPP...",
            "................",
            "................",
        ]
    );
    assert_eq!(fb.current_color, 0xFFFFFF);
}

#[test]
fn render_2d_shows_the_room() {
    let maze = render_grid(&["###", "# #", "###"]);
    let mut fb = render_white(40, 40);
    let player = Player { pos: Point { x: 50 * ONE, y: 50 * ONE }, a: 0, fov: 0 };
    render_2d(&mut fb, &player, &maze, 10);
    let picture = render_picture(&fb);
    for y in 0..40 {
        for x in 0..40 {
            let cell: char = picture[y].as_bytes()[x] as char;
            let expected: char = if x >= 30 || y >= 30 {
                '.'
            } else if (10..20).contains(&x) && (10..20).contains(&y) {
                '.'
            } else {
                '#'
            };
            assert_eq!(cell, expected);
        }
    }
}

#[test]
fn render_2d_cuts_the_player_off_at_the_edges() {
    let maze = render_grid(&[" "]);
    let mut fb = render_white(8, 8);
    let player = Player { pos: Point { x: 2 * ONE, y: -3 * ONE }, a: 0, fov: 0 };
    render_2d(&mut fb, &player, &maze, 100);
    let picture = render_picture(&fb);
    assert_eq!(picture[0], "PPPPPPPP");
    assert_eq!(picture[5], "PPPPPPPP");
    assert_eq!(picture[6], "........");
    let mut far = render_white(8, 8);
    let away = Player { pos: Point { x: i64::MAX, y: 0 }, a: 0, fov: 0 };
    render_2d(&mut far, &away, &maze, 100);
    assert_eq!(render_picture(&far), vec!["........"; 8]);
}

#[test]
fn render_2d_on_a_ragged_maze_draws_what_is_there() {
    let maze = render_grid(&["# #", "#", "", " ##"]);
    let mut fb = render_white(7, 9);
    let player = Player { pos: Point { x: 1000 * ONE, y: 1000 * ONE }, a: 0, fov: 0 };
    render_2d(&mut fb, &player, &maze, 2);
    assert_eq!(
        render_picture(&fb),
        vec![
            "##..##.", "##..##.", "##.....", "##.....", ".......", ".......", "..####.", "..####.",
            ".......",
        ]
    );
}

#[test]
fn render_minimap_draws_the_map_at_its_offset() {
    let maze = render_grid(&["###", "# #", "###"]);
    let mut fb = render_white(12, 9);
    let player = Player { pos: Point { x: 150 * ONE, y: 150 * ONE }, a: 0, fov: 0 };
    // Cells of 100 units at 0.02: two pixels each; the player at (3, 3) on the map.
    render_minimap(&mut fb, &player, &maze, 100, 5, 2, 20_000);
    assert_eq!(
        render_picture(&fb),
        vec![
            "............",
            "............",
            ".....######.",
            ".....######.",
            ".....##..##.",
            ".....##.m##.",
            ".....######.",
            ".....######.",
            "............",
        ]
    );
    assert_eq!(fb.current_color, 0xFFDDD);
}

#[test]
fn render_minimap_leaves_out_a_player_beyond_the_surface() {
    let maze = render_grid(&["#"]);
    let mut fb = render_white(4, 4);
    let player = Player { pos: Point { x: 400 * ONE, y: 100 * ONE }, a: 0, fov: 0 };
    render_minimap(&mut fb, &player, &maze, 100, 0, 0, 10_000);
    assert_eq!(render_picture(&fb), vec!["#...", "....", "....", "...."]);
    let mut other = render_white(4, 4);
    let inside = Player { pos: Point { x: 399 * ONE, y: -100 * ONE }, a: 0, fov: 0 };
    render_minimap(&mut other, &inside, &maze, 100, 0, 0, 10_000);
    assert_eq!(render_picture(&other), vec!["#..m", "....", "....", "...."]);
}

#[test]
fn render_minimap_with_a_scale_too_small_draws_no_cells() {
    let maze = render_grid(&["###", "###"]);
    let mut fb = render_white(4, 4);
    let player = Player { pos: Point { x: 0, y: 0 }, a: 0, fov: 0 };
    render_minimap(&mut fb, &player, &maze, 100, 1, 1, 9_999);
    assert_eq!(render_picture(&fb), vec!["....", ".m..", "....", "...."]);
    let mut negative = render_white(4, 4);
    render_minimap(&mut negative, &player, &maze, 100, 1, 1, -50_000);
    assert_eq!(render_picture(&negative), vec!["....", ".m..", "....", "...."]);
}

#[test]
fn render_3d_draws_a_span_in_each_column_that_meets_a_wall() {
    let maze = render_grid(&["###", "# #", "###"]);
    let mut fb = render_white(3, 900);
    let player = Player { pos: Point { x: 150 * ONE, y: 150 * ONE }, a: 0, fov: 0 };
    let dirs = vec![
        Direction { cos: ONE, sin: 0 },
        Direction { cos: 0, sin: ONE },
        Direction { cos: -ONE, sin: 0 },
    ];
    render_3d(&mut fb, &player, &maze, 100, &dirs, 866_025);
    // Distances 50, 50 and 50.1: heights 124, 124 and 124.
    for y in 0..900 {
        let inside: bool = (388..512).contains(&y);
        for x in 0..3 {
            let expected: u32 = if inside { 0x000000 } else { 0xEEEEEE };
            assert_eq!(fb.buffer[y * 3 + x], expected);
        }
    }
    assert_eq!(fb.current_color, 0x000000);
}

#[test]
fn render_3d_leaves_columns_without_a_hit_alone() {
    let maze = render_grid(&["#############", "#           #", "#############"]);
    let mut fb = render_white(2, 100);
    fb.set_current_color(0x445566);
    let player = Player { pos: Point { x: 150 * ONE, y: 150 * ONE }, a: 0, fov: 0 };
    let east = vec![Direction { cos: ONE, sin: 0 }];
    render_3d(&mut fb, &player, &maze, 100, &east, 866_025);
    assert_eq!(fb.buffer, vec![0xEEEEEEu32; 200]);
    assert_eq!(fb.current_color, 0x445566);
    // A ray north meets the wall at 50.1: 100 * 6 / (50.1 * 0.866025) = 13.8
    let both = vec![Direction { cos: ONE, sin: 0 }, Direction { cos: 0, sin: -ONE }];
    render_3d(&mut fb, &player, &maze, 100, &both, 866_025);
    for y in 0..100 {
        assert_eq!(fb.buffer[y * 2], 0xEEEEEE);
        let expected: u32 = if (44..57).contains(&y) { 0x000000 } else { 0xEEEEEE };
        assert_eq!(fb.buffer[y * 2 + 1], expected);
    }
    assert_eq!(fb.current_color, 0x000000);
}

#[test]
fn render_3d_skips_a_hit_at_distance_zero() {
    let maze = render_grid(&["###", "# #", "###"]);
    let mut fb = render_white(1, 10);
    fb.set_current_color(0x445566);
    let in_wall = Player { pos: Point { x: 50 * ONE, y: 50 * ONE }, a: 0, fov: 0 };
    let dirs = vec![Direction { cos: ONE, sin: 0 }];
    render_3d(&mut fb, &in_wall, &maze, 100, &dirs, 866_025);
    assert_eq!(fb.buffer, vec![0xEEEEEEu32; 10]);
    assert_eq!(fb.current_color, 0x445566);
}

#[test]
fn render_3d_ignores_rays_beyond_the_last_column() {
    let maze = render_grid(&["###", "# #", "###"]);
    let mut fb = render_white(1, 10);
    let player = Player { pos: Point { x: 150 * ONE, y: 150 * ONE }, a: 0, fov: 0 };
    let dirs = vec![Direction { cos: ONE, sin: 0 }; 4];
    render_3d(&mut fb, &player, &maze, 100, &dirs, ONE);
    // 10 * 6 / 50 = 1.2: one row.
    let mut expected = vec![0xEEEEEEu32; 10];
    expected[5] = 0;
    assert_eq!(fb.buffer, expected);
    let mut none = render_white(3, 3);
    render_3d(&mut none, &player, &maze, 100, &Vec::new(), ONE);
    assert_eq!(none.buffer, vec![0xEEEEEEu32; 9]);
    assert_eq!(none.current_color, 0xFFFFFF);
}
