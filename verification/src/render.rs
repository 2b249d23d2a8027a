//! Drawing the world on a surface: the maze from above, the player, and the
//! first-person view of the walls.

use vstd::prelude::*;
use crate::caster::{cast_ray, ray_hit};
use crate::fixed::{mul_fixed, pixel_of, scaled, to_pixel, Direction, ONE};
use crate::font::{decimal_digits, digits_of, glyph_bit, glyph_pixel, lemma_digits_of};
use crate::framebuffer::{lemma_pixel_coords, rect_filled, Framebuffer};
use crate::maze::grid;
use crate::player::{Player, Point};
use crate::projection::{span_of, wall_span, MAX_DEPTH, WALL_SCALE};

verus! {

/// The colour of walls.
pub const WALL_COLOR: u32 = 0x000000;

/// The colour of the player on the map.
pub const PLAYER_COLOR: u32 = 0xFFFFFF;

/// The colour of the player on the small map.
pub const MARKER_COLOR: u32 = 0xFFDDD;

/// The colour of numbers.
pub const TEXT_COLOR: u32 = 0x00FF00;

/// Half the side of the player's square on the map, less the centre pixel.
pub const PLAYER_SIZE: i64 = 5;

/// The cell lies in the grid and is a wall.
pub open spec fn is_wall_cell(grid: Seq<Seq<char>>, row: int, col: int) -> bool {
    &&& 0 <= row < grid.len()
    &&& 0 <= col < grid[row].len()
    &&& grid[row][col] != ' '
}

/// The cell `(row, col)` comes before `(rows, cols)` in reading order.
spec fn cell_before(row: int, col: int, rows: int, cols: int) -> bool {
    row < rows || (row == rows && col < cols)
}

/// The pixel `(x, y)` lies in the square of a wall cell on a map whose
/// cells are `cell_px` pixels wide and whose corner is at `(x_off, y_off)`.
pub open spec fn on_map_wall(
    grid: Seq<Seq<char>>,
    cell_px: int,
    x_off: int,
    y_off: int,
    x: int,
    y: int,
) -> bool {
    &&& cell_px > 0
    &&& x >= x_off
    &&& y >= y_off
    &&& is_wall_cell(grid, (y - y_off) / cell_px, (x - x_off) / cell_px)
}

/// The buffer after the wall cells before `(rows, cols)` in reading order
/// were drawn on the map.
spec fn map_drawn_upto(
    buffer: Seq<u32>,
    width: int,
    grid: Seq<Seq<char>>,
    cell_px: int,
    x_off: int,
    y_off: int,
    rows: int,
    cols: int,
) -> Seq<u32> {
    Seq::new(
        buffer.len(),
        |i: int|
            if on_map_wall(grid, cell_px, x_off, y_off, i % width, i / width) && cell_before(
                (i / width - y_off) / cell_px,
                (i % width - x_off) / cell_px,
                rows,
                cols,
            ) {
                WALL_COLOR
            } else {
                buffer[i]
            },
    )
}

/// The buffer after the map was drawn: every pixel in the square of a wall
/// cell is black, the others are as they were.
pub open spec fn map_drawn(
    buffer: Seq<u32>,
    width: int,
    grid: Seq<Seq<char>>,
    cell_px: int,
    x_off: int,
    y_off: int,
) -> Seq<u32> {
    Seq::new(
        buffer.len(),
        |i: int|
            if on_map_wall(grid, cell_px, x_off, y_off, i % width, i / width) {
                WALL_COLOR
            } else {
                buffer[i]
            },
    )
}

/// A coordinate `v` at or after `off` falls in the stretch `index` of
/// stretches `size` wide exactly when it lies between the stretch's ends.
pub proof fn lemma_stretch(v: int, off: int, size: int, index: int)
    requires
        size > 0,
        index >= 0,
    ensures
        (v >= off && (v - off) / size == index) <==> (off + index * size <= v < off + (index + 1)
            * size),
{
    let d = v - off;
    vstd::arithmetic::div_mod::lemma_fundamental_div_mod(d, size);
    vstd::arithmetic::div_mod::lemma_mod_bound(d, size);
    let q = d / size;
    assert(size * q == q * size) by (nonlinear_arith);
    assert((index + 1) * size == index * size + size) by (nonlinear_arith);
    assert(index * size >= 0) by (nonlinear_arith)
        requires
            size > 0,
            index >= 0,
    ;
    if index * size <= d < index * size + size {
        assert(q == index) by (nonlinear_arith)
            requires
                size > 0,
                index * size <= d < index * size + size,
                q * size <= d < q * size + size,
        ;
    }
}

/// Draws a cell of the maze as a square of `block_size` pixels with its
/// corner at `(xo, yo)`: black for a wall, nothing for an empty cell.
pub fn draw_cell(
    framebuffer: &mut Framebuffer,
    xo: usize,
    yo: usize,
    block_size: usize,
    cell: char,
)
    requires
        old(framebuffer).wf(),
    ensures
        final(framebuffer).wf(),
        final(framebuffer).same_surface(old(framebuffer)),
        cell == ' ' ==> final(framebuffer).buffer@ == old(framebuffer).buffer@
            && final(framebuffer).current_color == old(framebuffer).current_color,
        cell != ' ' ==> final(framebuffer).buffer@ == rect_filled(
            old(framebuffer).buffer@,
            old(framebuffer).width as int,
            xo as int,
            yo as int,
            xo + block_size,
            yo + block_size,
            WALL_COLOR,
        ) && final(framebuffer).current_color == WALL_COLOR,
{
    if cell == ' ' {
        return ;
    }
    let ghost before = framebuffer.buffer@;
    let ghost w = framebuffer.width as int;
    let ghost h = framebuffer.height as int;
    framebuffer.set_current_color(WALL_COLOR);
    let x1: usize = xo.saturating_add(block_size);
    let y1: usize = yo.saturating_add(block_size);
    framebuffer.fill_rect(xo, yo, x1, y1);
    proof {
        let exact = rect_filled(before, w, xo as int, yo as int, xo + block_size, yo + block_size, WALL_COLOR);
        assert forall|i: int| 0 <= i < before.len() implies #[trigger] framebuffer.buffer@[i]
            == exact[i] by {
            lemma_pixel_coords(i, w, h);
        }
        assert(framebuffer.buffer@ =~= exact);
    }
}

/// Draws the wall cells of the maze from above, each cell a square of
/// `cell_px` pixels, the corner of the map at `(x_off, y_off)`. The drawing
/// colour is left as the last cell drawn set it.
fn draw_maze(
    framebuffer: &mut Framebuffer,
    maze: &Vec<Vec<char>>,
    cell_px: usize,
    x_off: usize,
    y_off: usize,
)
    requires
        old(framebuffer).wf(),
    ensures
        final(framebuffer).wf(),
        final(framebuffer).same_surface(old(framebuffer)),
        final(framebuffer).buffer@ == map_drawn(
            old(framebuffer).buffer@,
            old(framebuffer).width as int,
            grid(maze),
            cell_px as int,
            x_off as int,
            y_off as int,
        ),
{
    let ghost before = *framebuffer;
    let ghost w = framebuffer.width as int;
    let ghost h = framebuffer.height as int;
    let ghost g = grid(maze);
    let ghost px = cell_px as int;
    let ghost xf = x_off as int;
    let ghost yf = y_off as int;
    let rows: usize = maze.len();
    let mut row: usize = 0;
    assert(framebuffer.buffer@ =~= map_drawn_upto(before.buffer@, w, g, px, xf, yf, 0, 0)) by {
        assert forall|i: int| 0 <= i < before.buffer@.len() implies #[trigger] before.buffer@[i]
            == map_drawn_upto(before.buffer@, w, g, px, xf, yf, 0, 0)[i] by {
            lemma_pixel_coords(i, w, h);
            if px > 0 && i % w >= xf && i / w >= yf {
                vstd::arithmetic::div_mod::lemma_div_pos_is_pos(i / w - yf, px);
                vstd::arithmetic::div_mod::lemma_div_pos_is_pos(i % w - xf, px);
            }
        }
    }
    while row < rows
        invariant
            row <= rows,
            rows == maze@.len(),
            w == framebuffer.width,
            h == framebuffer.height,
            g == grid(maze),
            px == cell_px,
            xf == x_off,
            yf == y_off,
            before.wf(),
            framebuffer.wf(),
            framebuffer.same_surface(&before),
            framebuffer.buffer@ == map_drawn_upto(before.buffer@, w, g, px, xf, yf, row as int, 0),
        decreases rows - row,
    {
        let cells = &maze[row];
        let cols: usize = cells.len();
        let mut col: usize = 0;
        while col < cols
            invariant
                col <= cols,
                row < rows,
                rows == maze@.len(),
                cells == &maze@[row as int],
                cols == cells@.len(),
                w == framebuffer.width,
                h == framebuffer.height,
                g == grid(maze),
                px == cell_px,
                xf == x_off,
                yf == y_off,
                before.wf(),
                framebuffer.wf(),
                framebuffer.same_surface(&before),
                framebuffer.buffer@ == map_drawn_upto(
                    before.buffer@,
                    w,
                    g,
                    px,
                    xf,
                    yf,
                    row as int,
                    col as int,
                ),
            decreases cols - col,
        {
            let ghost prev = framebuffer.buffer@;
            assert((col as u128) * (cell_px as u128) <= 0xffff_ffff_ffff_ffff * 0xffff_ffff_ffff_ffff
                && (row as u128) * (cell_px as u128) <= 0xffff_ffff_ffff_ffff
                * 0xffff_ffff_ffff_ffff) by (nonlinear_arith)
                requires
                    col <= 0xffff_ffff_ffff_ffff,
                    row <= 0xffff_ffff_ffff_ffff,
                    cell_px <= 0xffff_ffff_ffff_ffff,
            ;
            let xo: u128 = x_off as u128 + (col as u128) * (cell_px as u128);
            let yo: u128 = y_off as u128 + (row as u128) * (cell_px as u128);
            if xo < framebuffer.width as u128 && yo < framebuffer.height as u128 {
                draw_cell(framebuffer, xo as usize, yo as usize, cell_px, cells[col]);
            }
            proof {
                let next = map_drawn_upto(before.buffer@, w, g, px, xf, yf, row as int, col + 1);
                assert(g[row as int][col as int] == cells@[col as int]);
                assert forall|i: int| 0 <= i < prev.len() implies #[trigger] framebuffer.buffer@[i]
                    == next[i] by {
                    lemma_pixel_coords(i, w, h);
                    if px > 0 {
                        lemma_stretch(i % w, xf, px, col as int);
                        lemma_stretch(i / w, yf, px, row as int);
                        assert((col + 1) * px == col * px + px) by (nonlinear_arith);
                        assert((row + 1) * px == row * px + px) by (nonlinear_arith);
                    }
                }
                assert(framebuffer.buffer@ =~= next);
            }
            col = col + 1;
        }
        proof {
            let next = map_drawn_upto(before.buffer@, w, g, px, xf, yf, row + 1, 0);
            assert forall|i: int| 0 <= i < framebuffer.buffer@.len() implies #[trigger] framebuffer.buffer@[i]
                == next[i] by {
                lemma_pixel_coords(i, w, h);
                if px > 0 && i % w >= xf && i / w >= yf {
                    vstd::arithmetic::div_mod::lemma_div_pos_is_pos(i % w - xf, px);
                }
            }
            assert(framebuffer.buffer@ =~= next);
        }
        row = row + 1;
    }
    proof {
        let done = map_drawn(before.buffer@, w, g, px, xf, yf);
        assert forall|i: int| 0 <= i < framebuffer.buffer@.len() implies #[trigger] framebuffer.buffer@[i]
            == done[i] by {
            lemma_pixel_coords(i, w, h);
        }
        assert(framebuffer.buffer@ =~= done);
    }
}

/// Draws the maze from above, a pixel for a world unit, and the player on
/// it as a white square of 11 pixels around the player's position.
pub fn render_2d(
    framebuffer: &mut Framebuffer,
    player: &Player,
    maze: &Vec<Vec<char>>,
    block_size: usize,
)
    requires
        old(framebuffer).wf(),
    ensures
        final(framebuffer).wf(),
        final(framebuffer).same_surface(old(framebuffer)),
        final(framebuffer).current_color == PLAYER_COLOR,
        final(framebuffer).buffer@ == rect_filled(
            map_drawn(
                old(framebuffer).buffer@,
                old(framebuffer).width as int,
                grid(maze),
                block_size as int,
                0,
                0,
            ),
            old(framebuffer).width as int,
            pixel_of(player.pos.x as int) - PLAYER_SIZE,
            pixel_of(player.pos.y as int) - PLAYER_SIZE,
            pixel_of(player.pos.x as int) + PLAYER_SIZE + 1,
            pixel_of(player.pos.y as int) + PLAYER_SIZE + 1,
            PLAYER_COLOR,
        ),
{
    let ghost w = framebuffer.width as int;
    let ghost h = framebuffer.height as int;
    draw_maze(framebuffer, maze, block_size, 0, 0);
    let ghost map = framebuffer.buffer@;
    framebuffer.set_current_color(PLAYER_COLOR);
    let px: i64 = if player.pos.x < 0 {
        0
    } else {
        player.pos.x / ONE
    };
    let py: i64 = if player.pos.y < 0 {
        0
    } else {
        player.pos.y / ONE
    };
    let x0: usize = to_pixel(px as i128 - PLAYER_SIZE as i128);
    let y0: usize = to_pixel(py as i128 - PLAYER_SIZE as i128);
    let x1: usize = to_pixel(px as i128 + PLAYER_SIZE as i128 + 1);
    let y1: usize = to_pixel(py as i128 + PLAYER_SIZE as i128 + 1);
    framebuffer.fill_rect(x0, y0, x1, y1);
    proof {
        let exact = rect_filled(
            map,
            w,
            px - PLAYER_SIZE,
            py - PLAYER_SIZE,
            px + PLAYER_SIZE + 1,
            py + PLAYER_SIZE + 1,
            PLAYER_COLOR,
        );
        assert forall|i: int| 0 <= i < map.len() implies #[trigger] framebuffer.buffer@[i]
            == exact[i] by {
            lemma_pixel_coords(i, w, h);
        }
        assert(framebuffer.buffer@ =~= exact);
    }
}

/// The width in pixels of a cell on a map drawn at `scale`, a fixed-point
/// factor: the cell's width in world units times `scale`, rounded toward
/// zero and held to the range of `usize`.
pub open spec fn scaled_cell(block_size: int, scale: int) -> int {
    let px = pixel_of(block_size * scale);
    if px > usize::MAX {
        usize::MAX as int
    } else {
        px
    }
}

/// Draws a small map of the maze with its corner at `(x_offset, y_offset)`,
/// the world shrunk by the fixed-point factor `scale`, and on it the player
/// as one pixel.
pub fn render_minimap(
    framebuffer: &mut Framebuffer,
    player: &Player,
    maze: &Vec<Vec<char>>,
    block_size: usize,
    x_offset: usize,
    y_offset: usize,
    scale: i64,
)
    requires
        old(framebuffer).wf(),
    ensures
        final(framebuffer).wf(),
        final(framebuffer).same_surface(old(framebuffer)),
        final(framebuffer).current_color == MARKER_COLOR,
        ({
            let map = map_drawn(
                old(framebuffer).buffer@,
                old(framebuffer).width as int,
                grid(maze),
                scaled_cell(block_size as int, scale as int),
                x_offset as int,
                y_offset as int,
            );
            let x = x_offset + pixel_of(scaled(player.pos.x as int, scale as int));
            let y = y_offset + pixel_of(scaled(player.pos.y as int, scale as int));
            final(framebuffer).buffer@ == if x < old(framebuffer).width && y < old(
                framebuffer,
            ).height {
                map.update(y * old(framebuffer).width + x, MARKER_COLOR)
            } else {
                map
            }
        }),
{
    let wide_block: i128 = block_size as i128;
    let wide_scale: i128 = scale as i128;
    assert(-0x7fff_ffff_ffff_ffff_8000_0000_0000_0000 <= wide_block * wide_scale
        <= 0x7fff_ffff_ffff_ffff_8000_0000_0000_0000) by (nonlinear_arith)
        requires
            0 <= wide_block <= 0xffff_ffff_ffff_ffff,
            -0x8000_0000_0000_0000 <= wide_scale <= 0x7fff_ffff_ffff_ffff,
    ;
    let cell: i128 = wide_block * wide_scale;
    let cell_px: usize = to_pixel(
        if cell < 0 {
            0
        } else {
            cell / (ONE as i128)
        },
    );
    draw_maze(framebuffer, maze, cell_px, x_offset, y_offset);
    framebuffer.set_current_color(MARKER_COLOR);
    let sx: i128 = mul_fixed(player.pos.x, scale);
    let sy: i128 = mul_fixed(player.pos.y, scale);
    let px: i128 = if sx < 0 {
        0
    } else {
        sx / (ONE as i128)
    };
    let py: i128 = if sy < 0 {
        0
    } else {
        sy / (ONE as i128)
    };
    let player_x: i128 = x_offset as i128 + px;
    let player_y: i128 = y_offset as i128 + py;
    if player_x < framebuffer.width as i128 && player_y < framebuffer.height as i128 {
        framebuffer.point(player_x as usize, player_y as usize);
    }
}

/// The pixel `(x, y)` lies on a set pixel of the glyph of `digit`, drawn
/// with its corner at `(ox, oy)` and each of its pixels as a square of
/// `scale` pixels.
pub open spec fn on_glyph(digit: int, ox: int, oy: int, scale: int, x: int, y: int) -> bool {
    &&& scale > 0
    &&& x >= ox
    &&& y >= oy
    &&& glyph_bit(digit, (y - oy) / scale, (x - ox) / scale)
}

/// The buffer after the set pixels of a glyph before `(rows, cols)` in
/// reading order were drawn.
spec fn glyph_drawn_upto(
    buffer: Seq<u32>,
    width: int,
    digit: int,
    ox: int,
    oy: int,
    scale: int,
    rows: int,
    cols: int,
) -> Seq<u32> {
    Seq::new(
        buffer.len(),
        |i: int|
            if on_glyph(digit, ox, oy, scale, i % width, i / width) && cell_before(
                (i / width - oy) / scale,
                (i % width - ox) / scale,
                rows,
                cols,
            ) {
                TEXT_COLOR
            } else {
                buffer[i]
            },
    )
}

/// The pixel `(x, y)` lies on the glyph of the digit `k` of a number drawn
/// with its corner at `(x0, y0)`: the glyphs stand side by side, six glyph
/// pixels apart.
pub open spec fn on_digit(
    digits: Seq<u8>,
    k: int,
    x0: int,
    y0: int,
    scale: int,
    x: int,
    y: int,
) -> bool {
    on_glyph(digits[k] as int, x0 + k * (6 * scale), y0, scale, x, y)
}

/// The pixel `(x, y)` lies on the glyph of one of the first `count` digits.
pub open spec fn on_number(
    digits: Seq<u8>,
    count: int,
    x0: int,
    y0: int,
    scale: int,
    x: int,
    y: int,
) -> bool {
    exists|k: int| 0 <= k < count && #[trigger] on_digit(digits, k, x0, y0, scale, x, y)
}

/// The buffer after the first `count` digits were drawn.
pub open spec fn number_drawn(
    buffer: Seq<u32>,
    width: int,
    digits: Seq<u8>,
    count: int,
    x0: int,
    y0: int,
    scale: int,
) -> Seq<u32> {
    Seq::new(
        buffer.len(),
        |i: int|
            if on_number(digits, count, x0, y0, scale, i % width, i / width) {
                TEXT_COLOR
            } else {
                buffer[i]
            },
    )
}

/// Draws the glyph of `digit` in the drawing colour, which is that of
/// numbers, with its corner at `(ox, oy)`.
fn draw_glyph(framebuffer: &mut Framebuffer, ox: u128, oy: usize, digit: u8, scale: usize)
    requires
        old(framebuffer).wf(),
        old(framebuffer).current_color == TEXT_COLOR,
        digit < 10,
        ox <= 0xffff_ffff_ffff_ffff_ffff,
    ensures
        final(framebuffer).wf(),
        final(framebuffer).same_settings(old(framebuffer)),
        final(framebuffer).buffer@ == glyph_drawn_upto(
            old(framebuffer).buffer@,
            old(framebuffer).width as int,
            digit as int,
            ox as int,
            oy as int,
            scale as int,
            5,
            0,
        ),
{
    let ghost before = *framebuffer;
    let ghost w = framebuffer.width as int;
    let ghost h = framebuffer.height as int;
    let ghost d = digit as int;
    let ghost s = scale as int;
    let ghost xf = ox as int;
    let ghost yf = oy as int;
    let mut row: usize = 0;
    assert(framebuffer.buffer@ =~= glyph_drawn_upto(before.buffer@, w, d, xf, yf, s, 0, 0)) by {
        assert forall|i: int| 0 <= i < before.buffer@.len() implies #[trigger] before.buffer@[i]
            == glyph_drawn_upto(before.buffer@, w, d, xf, yf, s, 0, 0)[i] by {
            lemma_pixel_coords(i, w, h);
        }
    }
    while row < 5
        invariant
            row <= 5,
            digit < 10,
            ox <= 0xffff_ffff_ffff_ffff_ffff,
            w == framebuffer.width,
            h == framebuffer.height,
            d == digit,
            s == scale,
            xf == ox,
            yf == oy,
            before.wf(),
            framebuffer.wf(),
            framebuffer.same_settings(&before),
            framebuffer.current_color == TEXT_COLOR,
            framebuffer.buffer@ == glyph_drawn_upto(before.buffer@, w, d, xf, yf, s, row as int, 0),
        decreases 5 - row,
    {
        let mut col: usize = 0;
        while col < 5
            invariant
                col <= 5,
                row < 5,
                digit < 10,
                ox <= 0xffff_ffff_ffff_ffff_ffff,
                w == framebuffer.width,
                h == framebuffer.height,
                d == digit,
                s == scale,
                xf == ox,
                yf == oy,
                before.wf(),
                framebuffer.wf(),
                framebuffer.same_settings(&before),
                framebuffer.current_color == TEXT_COLOR,
                framebuffer.buffer@ == glyph_drawn_upto(
                    before.buffer@,
                    w,
                    d,
                    xf,
                    yf,
                    s,
                    row as int,
                    col as int,
                ),
            decreases 5 - col,
        {
            let ghost prev = framebuffer.buffer@;
            if glyph_pixel(digit, row, col) {
                assert((col as u128) * (scale as u128) <= 5 * 0xffff_ffff_ffff_ffff && (
                row as u128) * (scale as u128) <= 5 * 0xffff_ffff_ffff_ffff) by (nonlinear_arith)
                    requires
                        col <= 5,
                        row <= 5,
                        scale <= 0xffff_ffff_ffff_ffff,
                ;
                let cx: u128 = ox + (col as u128) * (scale as u128);
                let cy: u128 = oy as u128 + (row as u128) * (scale as u128);
                if cx < framebuffer.width as u128 && cy < framebuffer.height as u128 {
                    let x0: usize = cx as usize;
                    let y0: usize = cy as usize;
                    framebuffer.fill_rect(
                        x0,
                        y0,
                        x0.saturating_add(scale),
                        y0.saturating_add(scale),
                    );
                }
            }
            proof {
                let next = glyph_drawn_upto(before.buffer@, w, d, xf, yf, s, row as int, col + 1);
                assert forall|i: int| 0 <= i < prev.len() implies #[trigger] framebuffer.buffer@[i]
                    == next[i] by {
                    lemma_pixel_coords(i, w, h);
                    if s > 0 {
                        lemma_stretch(i % w, xf, s, col as int);
                        lemma_stretch(i / w, yf, s, row as int);
                        assert((col + 1) * s == col * s + s) by (nonlinear_arith);
                        assert((row + 1) * s == row * s + s) by (nonlinear_arith);
                    }
                }
                assert(framebuffer.buffer@ =~= next);
            }
            col = col + 1;
        }
        proof {
            let next = glyph_drawn_upto(before.buffer@, w, d, xf, yf, s, row + 1, 0);
            assert forall|i: int| 0 <= i < framebuffer.buffer@.len() implies #[trigger] framebuffer.buffer@[i]
                == next[i] by {
                lemma_pixel_coords(i, w, h);
            }
            assert(framebuffer.buffer@ =~= next);
        }
        row = row + 1;
    }
}

/// Draws `number` in decimal digits with its corner at `(x, y)`, each glyph
/// pixel as a square of `scale` pixels, in the colour of numbers.
pub fn draw_bitmap_number(
    framebuffer: &mut Framebuffer,
    x: usize,
    y: usize,
    number: u32,
    scale: usize,
)
    requires
        old(framebuffer).wf(),
    ensures
        final(framebuffer).wf(),
        final(framebuffer).same_surface(old(framebuffer)),
        final(framebuffer).current_color == TEXT_COLOR,
        final(framebuffer).buffer@ == number_drawn(
            old(framebuffer).buffer@,
            old(framebuffer).width as int,
            digits_of(number as nat),
            digits_of(number as nat).len() as int,
            x as int,
            y as int,
            scale as int,
        ),
{
    let ghost before = *framebuffer;
    let ghost w = framebuffer.width as int;
    let ghost h = framebuffer.height as int;
    let ghost s = scale as int;
    let digits: Vec<u8> = decimal_digits(number);
    let count: usize = digits.len();
    proof {
        lemma_digits_of(number as nat);
        reveal_with_fuel(digits_of, 11);
        assert(digits_of(number as nat).len() <= 10);
    }
    framebuffer.set_current_color(TEXT_COLOR);
    let mut k: usize = 0;
    assert(framebuffer.buffer@ =~= number_drawn(before.buffer@, w, digits@, 0, x as int, y as int, s));
    while k < count
        invariant
            k <= count,
            count == digits@.len(),
            count <= 10,
            digits@ == digits_of(number as nat),
            forall|j: int| 0 <= j < digits@.len() ==> #[trigger] digits@[j] < 10,
            w == framebuffer.width,
            h == framebuffer.height,
            s == scale,
            before.wf(),
            framebuffer.wf(),
            framebuffer.same_surface(&before),
            framebuffer.current_color == TEXT_COLOR,
            framebuffer.buffer@ == number_drawn(
                before.buffer@,
                w,
                digits@,
                k as int,
                x as int,
                y as int,
                s,
            ),
        decreases count - k,
    {
        let ghost prev = framebuffer.buffer@;
        assert((k as u128) * (6 * (scale as u128)) <= 10 * (6 * 0xffff_ffff_ffff_ffff)) by (nonlinear_arith)
            requires
                k <= 10,
                scale <= 0xffff_ffff_ffff_ffff,
        ;
        let ox: u128 = x as u128 + (k as u128) * (6 * (scale as u128));
        draw_glyph(framebuffer, ox, y, digits[k], scale);
        proof {
            let next = number_drawn(before.buffer@, w, digits@, k + 1, x as int, y as int, s);
            assert forall|i: int| 0 <= i < prev.len() implies #[trigger] framebuffer.buffer@[i]
                == next[i] by {
                lemma_pixel_coords(i, w, h);
                let px = i % w;
                let py = i / w;
                let here = on_digit(digits@, k as int, x as int, y as int, s, px, py);
                let earlier = on_number(digits@, k as int, x as int, y as int, s, px, py);
                let now = on_number(digits@, k + 1, x as int, y as int, s, px, py);
                if here {
                    assert(now);
                } else if earlier {
                    let j = choose|j: int|
                        0 <= j < k && #[trigger] on_digit(digits@, j, x as int, y as int, s, px, py);
                    assert(now);
                } else if now {
                    let j = choose|j: int|
                        0 <= j < k + 1 && #[trigger] on_digit(
                            digits@,
                            j,
                            x as int,
                            y as int,
                            s,
                            px,
                            py,
                        );
                    assert(false);
                }
                if s > 0 && px >= ox && py >= y {
                    vstd::arithmetic::div_mod::lemma_div_pos_is_pos(px - ox, s);
                    vstd::arithmetic::div_mod::lemma_div_pos_is_pos(py - y, s);
                }
            }
            assert(framebuffer.buffer@ =~= next);
        }
        k = k + 1;
    }
}

/// The rows that the wall met by the ray along `dir` covers in its column,
/// if the ray meets one within `MAX_DEPTH` at a distance that can be drawn.
pub open spec fn column_span(
    screen_height: int,
    grid: Seq<Seq<char>>,
    block_size: int,
    origin: Point,
    dir: Direction,
    cos_half_fov: int,
) -> Option<(int, int)> {
    match ray_hit(grid, block_size, origin, dir, MAX_DEPTH as int) {
        Some(hit) => span_of(screen_height, hit.distance as int, cos_half_fov, WALL_SCALE as int),
        None => None,
    }
}

/// The pixel `(x, y)` shows a wall in the view along the rays `dirs`, one
/// for each column from the left.
pub open spec fn on_wall_span(
    screen_height: int,
    grid: Seq<Seq<char>>,
    block_size: int,
    origin: Point,
    dirs: Seq<Direction>,
    cos_half_fov: int,
    x: int,
    y: int,
) -> bool {
    &&& 0 <= x < dirs.len()
    &&& column_span(screen_height, grid, block_size, origin, dirs[x], cos_half_fov) matches Some(
        (start, end),
    )
    &&& start <= y < end
}

/// One of the first `count` rays meets a wall that can be drawn.
pub open spec fn any_span(
    screen_height: int,
    grid: Seq<Seq<char>>,
    block_size: int,
    origin: Point,
    dirs: Seq<Direction>,
    cos_half_fov: int,
    count: int,
) -> bool {
    exists|x: int|
        0 <= x < count && (#[trigger] column_span(
            screen_height,
            grid,
            block_size,
            origin,
            dirs[x],
            cos_half_fov,
        )) is Some
}

/// The buffer after the walls of the first `count` columns were drawn.
pub open spec fn view_drawn(
    buffer: Seq<u32>,
    width: int,
    screen_height: int,
    grid: Seq<Seq<char>>,
    block_size: int,
    origin: Point,
    dirs: Seq<Direction>,
    cos_half_fov: int,
    count: int,
) -> Seq<u32> {
    Seq::new(
        buffer.len(),
        |i: int|
            if i % width < count && on_wall_span(
                screen_height,
                grid,
                block_size,
                origin,
                dirs,
                cos_half_fov,
                i % width,
                i / width,
            ) {
                WALL_COLOR
            } else {
                buffer[i]
            },
    )
}

/// Draws the first-person view: for each column `x` the ray along
/// `dirs[x]` is cast from the player's position, and where it meets a wall
/// the wall's span is drawn in black. `cos_half_fov` is the cosine of half
/// the field of view. The drawing colour is black afterwards if any wall was
/// met at a distance that can be drawn.
pub fn render_3d(
    framebuffer: &mut Framebuffer,
    player: &Player,
    maze: &Vec<Vec<char>>,
    block_size: usize,
    dirs: &Vec<Direction>,
    cos_half_fov: i64,
)
    requires
        old(framebuffer).wf(),
        block_size > 0,
    ensures
        final(framebuffer).wf(),
        final(framebuffer).same_surface(old(framebuffer)),
        final(framebuffer).buffer@ == view_drawn(
            old(framebuffer).buffer@,
            old(framebuffer).width as int,
            old(framebuffer).height as int,
            grid(maze),
            block_size as int,
            player.pos,
            dirs@,
            cos_half_fov as int,
            dirs@.len() as int,
        ),
        final(framebuffer).current_color == if any_span(
            old(framebuffer).height as int,
            grid(maze),
            block_size as int,
            player.pos,
            dirs@,
            cos_half_fov as int,
            dirs@.len() as int,
        ) {
            WALL_COLOR
        } else {
            old(framebuffer).current_color
        },
{
    let ghost before = *framebuffer;
    let ghost w = framebuffer.width as int;
    let ghost h = framebuffer.height as int;
    let ghost g = grid(maze);
    let ghost bs = block_size as int;
    let ghost c = cos_half_fov as int;
    let num_rays: usize = dirs.len();
    let mut x: usize = 0;
    assert(framebuffer.buffer@ =~= view_drawn(before.buffer@, w, h, g, bs, player.pos, dirs@, c, 0));
    while x < num_rays
        invariant
            x <= num_rays,
            num_rays == dirs@.len(),
            block_size > 0,
            w == framebuffer.width,
            h == framebuffer.height,
            g == grid(maze),
            bs == block_size,
            c == cos_half_fov,
            before.wf(),
            framebuffer.wf(),
            framebuffer.same_surface(&before),
            framebuffer.buffer@ == view_drawn(
                before.buffer@,
                w,
                h,
                g,
                bs,
                player.pos,
                dirs@,
                c,
                x as int,
            ),
            framebuffer.current_color == if any_span(h, g, bs, player.pos, dirs@, c, x as int) {
                WALL_COLOR
            } else {
                before.current_color
            },
        decreases num_rays - x,
    {
        let ghost prev = framebuffer.buffer@;
        let ghost had = any_span(h, g, bs, player.pos, dirs@, c, x as int);
        let ghost span = column_span(h, g, bs, player.pos, dirs@[x as int], c);
        let mut drawn: bool = false;
        if let Some(hit) = cast_ray(maze, player, dirs[x], block_size, MAX_DEPTH) {
            if let Some((start, end)) = wall_span(
                framebuffer.height,
                hit.distance,
                cos_half_fov,
                WALL_SCALE,
            ) {
                framebuffer.set_current_color(WALL_COLOR);
                framebuffer.fill_rect(x, start, x + 1, end);
                drawn = true;
            }
        }
        proof {
            assert(drawn == (span is Some));
            let next = view_drawn(before.buffer@, w, h, g, bs, player.pos, dirs@, c, x + 1);
            assert forall|i: int| 0 <= i < prev.len() implies #[trigger] framebuffer.buffer@[i]
                == next[i] by {
                lemma_pixel_coords(i, w, h);
            }
            assert(framebuffer.buffer@ =~= next);
            if span is Some {
                assert(any_span(h, g, bs, player.pos, dirs@, c, x + 1));
            } else if had {
                let k = choose|k: int|
                    0 <= k < x && (#[trigger] column_span(h, g, bs, player.pos, dirs@[k], c)) is Some;
                assert(any_span(h, g, bs, player.pos, dirs@, c, x + 1));
            } else {
                if any_span(h, g, bs, player.pos, dirs@, c, x + 1) {
                    let k = choose|k: int|
                        0 <= k < x + 1 && (#[trigger] column_span(
                            h,
                            g,
                            bs,
                            player.pos,
                            dirs@[k],
                            c,
                        )) is Some;
                    assert(k < x);
                    assert(false);
                }
            }
        }
        x = x + 1;
    }
    proof {
        let done = view_drawn(before.buffer@, w, h, g, bs, player.pos, dirs@, c, dirs@.len() as int);
        assert(framebuffer.buffer@ =~= done);
    }
}

} // verus!
