//! The maze: rows of cells, a space for an empty cell and any other
//! character for a wall, and the mapping from world coordinates to cells.
//!
//! Every lookup checks its own bounds, so rows of unequal length are safe:
//! whatever lies outside a row, or outside the grid, counts as wall.

use vstd::prelude::*;
use vstd::std_specs::iter::IteratorSpec;
use crate::fixed::ONE;

verus! {

/// What a cell holds.
#[derive(Clone, Copy, Debug, PartialEq, Eq, Structural)]
pub enum CellKind {
    Empty,
    Wall,
}

/// The maze as rows of characters.
pub open spec fn grid(maze: &Vec<Vec<char>>) -> Seq<Seq<char>> {
    Seq::new(maze@.len(), |row: int| maze@[row]@)
}

/// The cell lies in the grid and is empty.
pub open spec fn is_open_cell(grid: Seq<Seq<char>>, row: int, col: int) -> bool {
    &&& 0 <= row < grid.len()
    &&& 0 <= col < grid[row].len()
    &&& grid[row][col] == ' '
}

/// All rows have the length of the first, and there is a first.
pub open spec fn is_rectangular(grid: Seq<Seq<char>>) -> bool {
    &&& grid.len() > 0
    &&& forall|row: int| 0 <= row < grid.len() ==> (#[trigger] grid[row]).len() == grid[0].len()
}

/// The index of the cell that holds the fixed-point coordinate `coord`,
/// where a cell is `block_size` world units wide: the floor of the quotient.
pub open spec fn cell_index(coord: int, block_size: int) -> int {
    coord / (block_size * ONE)
}

/// The point `(x, y)` lies in an empty cell. The world ends where `i64`
/// does: a coordinate beyond it is outside every grid.
pub open spec fn open_at(grid: Seq<Seq<char>>, block_size: int, x: int, y: int) -> bool {
    &&& 0 <= x <= i64::MAX
    &&& 0 <= y <= i64::MAX
    &&& is_open_cell(grid, cell_index(y, block_size), cell_index(x, block_size))
}

/// The point `(x, y)` lies in a wall or outside the grid.
pub open spec fn blocked(grid: Seq<Seq<char>>, block_size: int, x: int, y: int) -> bool {
    !open_at(grid, block_size, x, y)
}

/// A point is in the cell `index` exactly when it lies between the cell's
/// two edges.
pub proof fn lemma_cell_index(coord: int, block_size: int, index: int)
    requires
        block_size > 0,
    ensures
        cell_index(coord, block_size) == index <==> index * (block_size * ONE) <= coord < (index
            + 1) * (block_size * ONE),
{
    let extent = block_size * ONE;
    assert(extent > 0);
    vstd::arithmetic::div_mod::lemma_fundamental_div_mod(coord, extent);
    vstd::arithmetic::div_mod::lemma_mod_bound(coord, extent);
    let q = coord / extent;
    assert(extent * q == q * extent) by (nonlinear_arith);
    if index * extent <= coord < (index + 1) * extent {
        assert(q == index) by (nonlinear_arith)
            requires
                extent > 0,
                index * extent <= coord < (index + 1) * extent,
                q * extent <= coord < q * extent + extent,
        ;
    }
    assert((q + 1) * extent == q * extent + extent) by (nonlinear_arith);
}

/// The width of a cell in fixed point.
pub fn cell_extent(block_size: usize) -> (extent: i128)
    ensures
        extent == block_size * ONE,
        block_size > 0 ==> extent > 0,
{
    assert(block_size * ONE == block_size * 1_000_000);
    (block_size as i128) * 1_000_000
}

/// The index of the first line feed in `text`, or the length of `text` if
/// it holds none.
pub open spec fn line_end(text: Seq<char>) -> nat
    decreases text.len(),
{
    if text.len() == 0 || text[0] == '\n' {
        0
    } else {
        1 + line_end(text.drop_first())
    }
}

/// `line` without a carriage return at its end.
pub open spec fn without_cr(line: Seq<char>) -> Seq<char> {
    if line.len() > 0 && line.last() == '\r' {
        line.drop_last()
    } else {
        line
    }
}

/// The lines of `text`: each ends before a line feed, or at the end of the
/// text if characters are left there; a carriage return before the line feed
/// belongs to the line ending.
pub open spec fn lines_of(text: Seq<char>) -> Seq<Seq<char>>
    decreases text.len(),
{
    if text.len() == 0 {
        Seq::empty()
    } else {
        let end = line_end(text) as int;
        if end >= text.len() {
            seq![text]
        } else {
            seq![without_cr(text.subrange(0, end))] + lines_of(
                text.subrange(end + 1, text.len() as int),
            )
        }
    }
}

/// `line_end` of a text whose first `k` characters are no line feeds, and
/// which ends there or has a line feed there, is `k`.
pub proof fn lemma_line_end(text: Seq<char>, k: int)
    requires
        0 <= k <= text.len(),
        forall|j: int| 0 <= j < k ==> text[j] != '\n',
        k == text.len() || text[k] == '\n',
    ensures
        line_end(text) == k,
    decreases k,
{
    if k > 0 {
        lemma_line_end(text.drop_first(), k - 1);
    }
}

/// The kind of the cell at `(row, col)`; outside the grid everything is wall.
pub fn cell_at(maze: &Vec<Vec<char>>, row: usize, col: usize) -> (kind: CellKind)
    ensures
        kind == CellKind::Empty <==> is_open_cell(grid(maze), row as int, col as int),
{
    if row >= maze.len() {
        return CellKind::Wall;
    }
    let cells = &maze[row];
    if col >= cells.len() {
        return CellKind::Wall;
    }
    if cells[col] == ' ' {
        CellKind::Empty
    } else {
        CellKind::Wall
    }
}

/// Whether the maze has a row and all its rows have the same length.
pub fn check_rectangular(maze: &Vec<Vec<char>>) -> (r: bool)
    ensures
        r == is_rectangular(grid(maze)),
{
    let rows: usize = maze.len();
    if rows == 0 {
        return false;
    }
    let cols: usize = maze[0].len();
    let mut row: usize = 1;
    while row < rows
        invariant
            1 <= row <= rows,
            rows == maze@.len(),
            cols == maze@[0]@.len(),
            forall|k: int| 0 <= k < row ==> (#[trigger] grid(maze)[k]).len() == cols,
        decreases rows - row,
    {
        if maze[row].len() != cols {
            assert(grid(maze)[row as int].len() != grid(maze)[0].len());
            return false;
        }
        row = row + 1;
    }
    true
}

/// Reads a maze from text, a row from each line.
pub fn load_maze(text: &str) -> (maze: Vec<Vec<char>>)
    ensures
        grid(&maze) == lines_of(text@),
{
    let mut maze: Vec<Vec<char>> = Vec::new();
    let mut line: Vec<char> = Vec::new();
    let mut chars = text.chars();
    let ghost all = text@;
    let ghost n = text@.len() as int;
    let ghost mut start: int = 0;
    let ghost mut i: int = 0;
    assert(all.subrange(0, n) =~= all);
    assert(grid(&maze) =~= Seq::<Seq<char>>::empty());
    loop
        invariant
            0 <= start <= i <= n,
            n == all.len(),
            chars.remaining() == all.subrange(i, n),
            line@ == all.subrange(start, i),
            forall|j: int| start <= j < i ==> all[j] != '\n',
            lines_of(all) == grid(&maze) + lines_of(all.subrange(start, n)),
        ensures
            i == n,
            0 <= start <= n,
            n == all.len(),
            line@ == all.subrange(start, n),
            forall|j: int| start <= j < n ==> all[j] != '\n',
            lines_of(all) == grid(&maze) + lines_of(all.subrange(start, n)),
        decreases n - i,
    {
        let next = chars.next();
        match next {
            None => {
                break ;
            },
            Some(c) => {
                assert(c == all[i]);
                if c == '\n' {
                    let ghost rest = all.subrange(start, n);
                    let ghost raw = line@;
                    let len: usize = line.len();
                    if len > 0 && line[len - 1] == '\r' {
                        line.pop();
                    }
                    proof {
                        lemma_line_end(rest, i - start);
                        assert(rest.subrange(0, i - start) =~= raw);
                        assert(rest.subrange(i - start + 1, rest.len() as int) =~= all.subrange(
                            i + 1,
                            n,
                        ));
                        assert(line@ =~= without_cr(raw));
                    }
                    let ghost rows = grid(&maze);
                    maze.push(line);
                    line = Vec::new();
                    proof {
                        assert(grid(&maze) =~= rows.push(without_cr(raw)));
                        assert(rows.push(without_cr(raw)) + lines_of(all.subrange(i + 1, n))
                            =~= rows + (seq![without_cr(raw)] + lines_of(all.subrange(i + 1, n))));
                        start = i + 1;
                        assert(line@ =~= all.subrange(start, i + 1));
                    }
                } else {
                    line.push(c);
                    assert(line@ =~= all.subrange(start, i + 1));
                }
                proof {
                    assert(all.subrange(i, n).drop_first() =~= all.subrange(i + 1, n));
                    i = i + 1;
                }
            },
        }
    }
    let ghost rest = all.subrange(start, n);
    proof {
        lemma_line_end(rest, n - start);
    }
    if line.len() > 0 {
        let ghost rows = grid(&maze);
        maze.push(line);
        proof {
            assert(grid(&maze) =~= rows.push(rest));
            assert(rows.push(rest) =~= rows + seq![rest]);
        }
    } else {
        assert(grid(&maze) + Seq::<Seq<char>>::empty() =~= grid(&maze));
    }
    maze
}

/// Whether the point `(x, y)` lies in a wall or outside the grid.
pub fn blocked_at(maze: &Vec<Vec<char>>, block_size: usize, x: i128, y: i128) -> (r: bool)
    requires
        block_size > 0,
    ensures
        r == blocked(grid(maze), block_size as int, x as int, y as int),
{
    if x < 0 || y < 0 || x > i64::MAX as i128 || y > i64::MAX as i128 {
        return true;
    }
    let extent: i128 = cell_extent(block_size);
    let row: i128 = y / extent;
    let col: i128 = x / extent;
    proof {
        lemma_cell_index(y as int, block_size as int, row as int);
        lemma_cell_index(x as int, block_size as int, col as int);
        assert(row >= 0 && col >= 0) by (nonlinear_arith)
            requires
                extent > 0,
                row * extent <= y < (row + 1) * extent,
                col * extent <= x < (col + 1) * extent,
                x >= 0,
                y >= 0,
        ;
    }
    if row >= maze.len() as i128 {
        return true;
    }
    let cells = &maze[row as usize];
    if col >= cells.len() as i128 {
        return true;
    }
    cells[col as usize] != ' '
}

} // verus!
