//! The 4×4 board: moves along a direction and the spawning of new tiles.
use vstd::prelude::*;
use rand::rngs::ThreadRng;
use crate::line::{
    cell_value, coalesce, coalesced, fits_u32, lemma_coalesced_count, lemma_tiles_len4, line_view,
    lemma_merge_run_distinct, lemma_tiles4, merge_count, merge_run, no_equal_neighbours, occupied,
    tiles,
};
use crate::color::{rgba_of, tile_color};
use crate::random::{new_rng, random_below};

verus! {

/// A grid of cells, indexed by column and then by row.
pub type Grid = [[Option<u32>; 4]; 4];

/// The direction in which the tiles slide.
#[derive(Clone, Copy, Debug, PartialEq, Eq, Structural)]
pub enum Direction {
    Up,
    Down,
    Left,
    Right,
}

/// The model of a grid: column `c` is `g[c]`, row `r` of it is `g[c][r]`.
pub open spec fn grid_view(g: Grid) -> Seq<Seq<Option<int>>> {
    g@.map_values(|col: [Option<u32>; 4]| line_view(col))
}

/// A line slid toward index 0.
pub open spec fn coalesced_low(line: Seq<Option<int>>) -> Seq<Option<int>> {
    coalesced(line.reverse()).reverse()
}

/// Rows become columns.
pub open spec fn transposed(g: Seq<Seq<Option<int>>>) -> Seq<Seq<Option<int>>> {
    Seq::new(4, |c: int| Seq::new(4, |r: int| g[r][c]))
}

/// The grid after a move: down and up slide each column toward the high or
/// the low row, right and left slide each row toward the high or the low
/// column.
pub open spec fn moved(g: Seq<Seq<Option<int>>>, dir: Direction) -> Seq<Seq<Option<int>>> {
    match dir {
        Direction::Down => g.map_values(|l: Seq<Option<int>>| coalesced(l)),
        Direction::Up => g.map_values(|l: Seq<Option<int>>| coalesced_low(l)),
        Direction::Right => transposed(transposed(g).map_values(|l: Seq<Option<int>>| coalesced(l))),
        Direction::Left => transposed(transposed(g).map_values(|l: Seq<Option<int>>| coalesced_low(l))),
    }
}

/// Every tile of the grid can be held in a `u32`.
pub open spec fn grid_fits(g: Seq<Seq<Option<int>>>) -> bool {
    forall|c: int, r: int|
        0 <= c < g.len() && 0 <= r < g[c].len() && (#[trigger] g[c][r]) is Some ==> 0 <= g[c][r]->0
            <= u32::MAX
}

/// The cell at flat position `p`: column `p / 4`, row `p % 4`.
pub open spec fn cell_at(g: Seq<Seq<Option<int>>>, p: int) -> Option<int> {
    g[p / 4][p % 4]
}

/// The empty cells among the first `n` positions, in increasing order.
pub open spec fn empty_cells(g: Seq<Seq<Option<int>>>, n: int) -> Seq<int>
    decreases n,
{
    if n <= 0 {
        seq![]
    } else {
        let prev = empty_cells(g, n - 1);
        if cell_at(g, n - 1) is None {
            prev.push(n - 1)
        } else {
            prev
        }
    }
}

/// The empty cells of the grid, column by column.
pub open spec fn empties(g: Seq<Seq<Option<int>>>) -> Seq<int> {
    empty_cells(g, 16)
}

/// The grid with a tile of value 2 at position `p`.
pub open spec fn with_tile(g: Seq<Seq<Option<int>>>, p: int) -> Seq<Seq<Option<int>>> {
    g.update(p / 4, g[p / 4].update(p % 4, Some(2)))
}

/// The grid with no tile.
pub open spec fn empty_grid() -> Seq<Seq<Option<int>>> {
    Seq::new(4, |c: int| Seq::new(4, |r: int| None::<int>))
}

proof fn lemma_grid_shape(g: Grid)
    ensures
        grid_view(g).len() == 4,
        forall|c: int| 0 <= c < 4 ==> (#[trigger] grid_view(g)[c]) == line_view(g[c]),
        forall|c: int| 0 <= c < 4 ==> (#[trigger] grid_view(g)[c]).len() == 4,
        forall|c: int, r: int|
            0 <= c < 4 && 0 <= r < 4 ==> (#[trigger] grid_view(g)[c][r]) == cell_value(g[c][r]),
{
    assert forall|c: int, r: int| 0 <= c < 4 && 0 <= r < 4 implies (#[trigger] grid_view(g)[c][r])
        == cell_value(g[c][r]) by {
        assert(grid_view(g)[c] == line_view(g[c]));
    }
}

proof fn lemma_empty_cells(g: Seq<Seq<Option<int>>>, n: int)
    requires
        0 <= n,
    ensures
        empty_cells(g, n).len() <= n,
        forall|k: int|
            0 <= k < empty_cells(g, n).len() ==> 0 <= #[trigger] empty_cells(g, n)[k] < n
                && cell_at(g, empty_cells(g, n)[k]) is None,
    decreases n,
{
    if n > 0 {
        lemma_empty_cells(g, n - 1);
    }
}

/// Reverses the order of the cells of a line.
fn reversed(l: [Option<u32>; 4]) -> (r: [Option<u32>; 4])
    ensures
        line_view(r) == line_view(l).reverse(),
{
    let r = [l[3], l[2], l[1], l[0]];
    assert(line_view(r) =~= line_view(l).reverse());
    r
}

/// Slides a line toward index 0.
fn coalesce_low(l: [Option<u32>; 4]) -> (r: [Option<u32>; 4])
    requires
        fits_u32(coalesced_low(line_view(l))),
    ensures
        line_view(r) == coalesced_low(line_view(l)),
{
    let rl = reversed(l);
    proof {
        let s = coalesced(line_view(l).reverse());
        assert forall|j: int| 0 <= j < s.len() && s[j] is Some implies 0 <= #[trigger] s[j]->0
            <= u32::MAX by {
            assert(s.reverse()[s.len() - 1 - j] == s[j]);
        }
    }
    let c = coalesce(rl);
    reversed(c)
}

/// Exchanges columns and rows.
fn transpose(g: Grid) -> (r: Grid)
    ensures
        grid_view(r) == transposed(grid_view(g)),
{
    let r = [
        [g[0][0], g[1][0], g[2][0], g[3][0]],
        [g[0][1], g[1][1], g[2][1], g[3][1]],
        [g[0][2], g[1][2], g[2][2], g[3][2]],
        [g[0][3], g[1][3], g[2][3], g[3][3]],
    ];
    proof {
        lemma_grid_shape(g);
        lemma_grid_shape(r);
        let t = transposed(grid_view(g));
        assert forall|c: int| 0 <= c < 4 implies grid_view(r)[c] == t[c] by {
            assert(grid_view(r)[c] =~= t[c]);
        }
        assert(grid_view(r) =~= t);
    }
    r
}

proof fn lemma_line_fits(g: Seq<Seq<Option<int>>>, c: int)
    requires
        grid_fits(g),
        0 <= c < g.len(),
    ensures
        fits_u32(g[c]),
{
    assert forall|j: int| 0 <= j < g[c].len() && g[c][j] is Some implies 0 <= #[trigger] g[c][j]->0
        <= u32::MAX by {
        assert(g[c][j] is Some);
    }
}

/// Slides every column of the grid, toward the low row where `toward_low`
/// holds and toward the high row otherwise.
fn slide_columns(g: Grid, toward_low: bool) -> (r: Grid)
    requires
        toward_low ==> grid_fits(grid_view(g).map_values(|l: Seq<Option<int>>| coalesced_low(l))),
        !toward_low ==> grid_fits(grid_view(g).map_values(|l: Seq<Option<int>>| coalesced(l))),
    ensures
        toward_low ==> grid_view(r) == grid_view(g).map_values(|l: Seq<Option<int>>| coalesced_low(l)),
        !toward_low ==> grid_view(r) == grid_view(g).map_values(|l: Seq<Option<int>>| coalesced(l)),
{
    proof {
        lemma_grid_shape(g);
        let lo = grid_view(g).map_values(|l: Seq<Option<int>>| coalesced_low(l));
        let hi = grid_view(g).map_values(|l: Seq<Option<int>>| coalesced(l));
        if toward_low {
            assert forall|c: int| 0 <= c < 4 implies fits_u32(
                #[trigger] coalesced_low(line_view(g[c])),
            ) by {
                lemma_line_fits(lo, c);
            }
        } else {
            assert forall|c: int| 0 <= c < 4 implies fits_u32(
                #[trigger] coalesced(line_view(g[c])),
            ) by {
                lemma_line_fits(hi, c);
            }
        }
    }
    let r = if toward_low {
        [coalesce_low(g[0]), coalesce_low(g[1]), coalesce_low(g[2]), coalesce_low(g[3])]
    } else {
        [coalesce(g[0]), coalesce(g[1]), coalesce(g[2]), coalesce(g[3])]
    };
    proof {
        lemma_grid_shape(r);
        if toward_low {
            assert(grid_view(r) =~= grid_view(g).map_values(|l: Seq<Option<int>>| coalesced_low(l)));
        } else {
            assert(grid_view(r) =~= grid_view(g).map_values(|l: Seq<Option<int>>| coalesced(l)));
        }
    }
    r
}

proof fn lemma_fits_transposed(g: Seq<Seq<Option<int>>>)
    requires
        grid_fits(transposed(g)),
        g.len() == 4,
        forall|c: int| 0 <= c < 4 ==> (#[trigger] g[c]).len() == 4,
    ensures
        grid_fits(g),
{
    assert forall|c: int, r: int| 0 <= c < g.len() && 0 <= r < g[c].len() && (#[trigger] g[c][r]) is Some
        implies 0 <= g[c][r]->0 <= u32::MAX by {
        assert(transposed(g)[r][c] == g[c][r]);
    }
}

proof fn lemma_transposed_twice(g: Seq<Seq<Option<int>>>)
    requires
        g.len() == 4,
        forall|c: int| 0 <= c < 4 ==> (#[trigger] g[c]).len() == 4,
    ensures
        transposed(transposed(g)) == g,
{
    assert forall|c: int| 0 <= c < 4 implies transposed(transposed(g))[c] == g[c] by {
        assert(transposed(transposed(g))[c] =~= g[c]);
    }
    assert(transposed(transposed(g)) =~= g);
}

/// The grid after a move in direction `dir`.
fn slid(g: Grid, dir: Direction) -> (r: Grid)
    requires
        grid_fits(moved(grid_view(g), dir)),
    ensures
        grid_view(r) == moved(grid_view(g), dir),
{
    proof {
        lemma_grid_shape(g);
    }
    match dir {
        Direction::Down => slide_columns(g, false),
        Direction::Up => slide_columns(g, true),
        Direction::Right => {
            let t = transpose(g);
            proof {
                lemma_grid_shape(t);
                let m = grid_view(t).map_values(|l: Seq<Option<int>>| coalesced(l));
                assert forall|c: int| 0 <= c < 4 implies (#[trigger] m[c]).len() == 4 by {}
                lemma_fits_transposed(m);
            }
            transpose(slide_columns(t, false))
        },
        Direction::Left => {
            let t = transpose(g);
            proof {
                lemma_grid_shape(t);
                let m = grid_view(t).map_values(|l: Seq<Option<int>>| coalesced_low(l));
                assert forall|c: int| 0 <= c < 4 implies (#[trigger] m[c]).len() == 4 by {}
                lemma_fits_transposed(m);
            }
            transpose(slide_columns(t, true))
        },
    }
}

fn same_cell(a: Option<u32>, b: Option<u32>) -> (r: bool)
    ensures
        r == (cell_value(a) == cell_value(b)),
{
    match (a, b) {
        (Some(x), Some(y)) => x == y,
        (None, None) => true,
        _ => false,
    }
}

fn same_line(a: [Option<u32>; 4], b: [Option<u32>; 4]) -> (r: bool)
    ensures
        r == (line_view(a) == line_view(b)),
{
    let e0 = same_cell(a[0], b[0]);
    let e1 = same_cell(a[1], b[1]);
    let e2 = same_cell(a[2], b[2]);
    let e3 = same_cell(a[3], b[3]);
    let r = e0 && e1 && e2 && e3;
    proof {
        if r {
            assert(line_view(a) =~= line_view(b));
        } else if !e0 {
            assert(line_view(a)[0] != line_view(b)[0]);
        } else if !e1 {
            assert(line_view(a)[1] != line_view(b)[1]);
        } else if !e2 {
            assert(line_view(a)[2] != line_view(b)[2]);
        } else {
            assert(line_view(a)[3] != line_view(b)[3]);
        }
    }
    r
}

fn same_grid(a: Grid, b: Grid) -> (r: bool)
    ensures
        r == (grid_view(a) == grid_view(b)),
{
    let e0 = same_line(a[0], b[0]);
    let e1 = same_line(a[1], b[1]);
    let e2 = same_line(a[2], b[2]);
    let e3 = same_line(a[3], b[3]);
    let r = e0 && e1 && e2 && e3;
    proof {
        lemma_grid_shape(a);
        lemma_grid_shape(b);
        if r {
            assert(grid_view(a) =~= grid_view(b));
        } else if !e0 {
            assert(grid_view(a)[0] != grid_view(b)[0]);
        } else if !e1 {
            assert(grid_view(a)[1] != grid_view(b)[1]);
        } else if !e2 {
            assert(grid_view(a)[2] != grid_view(b)[2]);
        } else {
            assert(grid_view(a)[3] != grid_view(b)[3]);
        }
    }
    r
}

/// The game state: a 4×4 grid of tiles and the generator that places new ones.
pub struct Board {
    cells: Grid,
    rng: ThreadRng,
}

impl View for Board {
    type V = Seq<Seq<Option<int>>>;

    closed spec fn view(&self) -> Seq<Seq<Option<int>>> {
        grid_view(self.cells)
    }
}

impl Board {
    /// A board with one tile of value 2 at a random cell.
    pub fn new() -> (b: Board)
        ensures
            exists|p: int| 0 <= p < 16 && b@ == with_tile(empty_grid(), p),
    {
        let mut b = Board { cells: [[None; 4]; 4], rng: new_rng() };
        proof {
            lemma_grid_shape(b.cells);
            assert(b@ =~= empty_grid()) by {
                assert forall|c: int| 0 <= c < 4 implies b@[c] == empty_grid()[c] by {
                    assert(b@[c] =~= empty_grid()[c]);
                }
            }
            lemma_empty_grid_cells(16);
        }
        b.add_random_block();
        proof {
            let e = empties(empty_grid());
            lemma_empty_cells(empty_grid(), 16);
            let k = choose|k: int| 0 <= k < e.len() && b@ == with_tile(empty_grid(), e[k]);
            assert(0 <= e[k] < 16);
        }
        b
    }

    /// A board holding the given cells, indexed by column and then by row.
    pub fn from_cells(cells: Grid) -> (b: Board)
        ensures
            b@ == grid_view(cells),
    {
        Board { cells, rng: new_rng() }
    }

    /// The cells, indexed by column and then by row.
    pub fn cells(&self) -> (r: Grid)
        ensures
            grid_view(r) == self@,
    {
        self.cells
    }

    /// The positions of the empty cells, column by column; position `p` is
    /// column `p / 4`, row `p % 4`.
    pub fn empty_positions(&self) -> (r: Vec<usize>)
        ensures
            r@.map_values(|p: usize| p as int) == empties(self@),
    {
        let mut r: Vec<usize> = Vec::new();
        let mut p: usize = 0;
        proof {
            lemma_grid_shape(self.cells);
        }
        while p < 16
            invariant
                p <= 16,
                r@.map_values(|q: usize| q as int) == empty_cells(self@, p as int),
            decreases 16 - p,
        {
            assert(cell_at(self@, p as int) == cell_value(self.cells[p as int / 4][p as int % 4]));
            if self.cells[p / 4][p % 4].is_none() {
                r.push(p);
                assert(r@.map_values(|q: usize| q as int) =~= empty_cells(self@, p + 1));
            }
            p = p + 1;
        }
        r
    }

    /// Places a tile of value 2 in the `k`-th empty cell, counted column by
    /// column.
    pub fn spawn_at(&mut self, k: usize)
        requires
            k < empties(old(self)@).len(),
        ensures
            final(self)@ == with_tile(old(self)@, empties(old(self)@)[k as int]),
    {
        let empty = self.empty_positions();
        proof {
            lemma_empty_cells(self@, 16);
            assert(empty@.map_values(|q: usize| q as int)[k as int] == empty@[k as int] as int);
        }
        let p = empty[k];
        let c = p / 4;
        let mut col = self.cells[c];
        col[p % 4] = Some(2);
        self.cells[c] = col;
        proof {
            lemma_grid_shape(self.cells);
            let w = with_tile(old(self)@, p as int);
            assert(line_view(col) =~= w[c as int]);
            assert(self@ =~= w);
        }
    }

    /// Places a tile of value 2 in an empty cell picked at random; a full
    /// board is left as it is.
    pub fn add_random_block(&mut self)
        ensures
            empties(old(self)@).len() == 0 ==> final(self)@ == old(self)@,
            empties(old(self)@).len() > 0 ==> exists|k: int|
                0 <= k < empties(old(self)@).len() && final(self)@ == with_tile(
                    old(self)@,
                    #[trigger] empties(old(self)@)[k],
                ),
    {
        let empty = self.empty_positions();
        let n = empty.len();
        assert(n == empties(self@).len());
        if n > 0 {
            let k = random_below(&mut self.rng, n);
            self.spawn_at(k);
        }
    }

    /// Paints the board into a frame of `width` × `width` pixels of four
    /// bytes each, row by row: each cell fills a square of `width / 4`
    /// pixels in the colour of its tile. Bytes outside those squares are left
    /// as they are.
    pub fn draw(&self, frame: &mut [u8], width: usize)
        ensures
            final(frame)@.len() == old(frame)@.len(),
            forall|i: int|
                0 <= i < old(frame)@.len() ==> #[trigger] final(frame)@[i] == frame_byte(
                    self@,
                    width as int,
                    old(frame)@[i],
                    i,
                ),
    {
        let cw = width / 4;
        let n = frame.len();
        let mut i: usize = 0;
        proof {
            lemma_grid_shape(self.cells);
        }
        while i < n
            invariant
                i <= n,
                n == old(frame)@.len(),
                frame@.len() == n,
                cw == width / 4,
                forall|j: int| 0 <= j < i ==> #[trigger] frame@[j] == frame_byte(
                    self@,
                    width as int,
                    old(frame)@[j],
                    j,
                ),
                forall|j: int| i <= j < n ==> #[trigger] frame@[j] == old(frame)@[j],
            decreases n - i,
        {
            if cw > 0 {
                let px = i / 4;
                let x = px % width;
                let y = px / width;
                if x / cw < 4 && y / cw < 4 {
                    let rgba = tile_color(self.cells[x / cw][y / cw]);
                    frame[i] = rgba[i % 4];
                }
            }
            i = i + 1;
        }
    }

    /// Slides all tiles in direction `dir`; tells whether any cell changed.
    pub fn apply_move(&mut self, dir: Direction) -> (changed: bool)
        requires
            grid_fits(moved(old(self)@, dir)),
        ensures
            final(self)@ == moved(old(self)@, dir),
            changed == (final(self)@ != old(self)@),
    {
        let next = slid(self.cells, dir);
        let changed = !same_grid(self.cells, next);
        self.cells = next;
        changed
    }

    /// One turn of the game: the move, then a new tile where the move changed
    /// the board. Tells whether the move changed the board.
    pub fn update(&mut self, dir: Direction) -> (changed: bool)
        requires
            grid_fits(moved(old(self)@, dir)),
        ensures
            changed == (moved(old(self)@, dir) != old(self)@),
            !changed ==> final(self)@ == old(self)@,
            changed && empties(moved(old(self)@, dir)).len() == 0 ==> final(self)@ == moved(
                old(self)@,
                dir,
            ),
            changed && empties(moved(old(self)@, dir)).len() > 0 ==> exists|k: int|
                0 <= k < empties(moved(old(self)@, dir)).len() && final(self)@ == with_tile(
                    moved(old(self)@, dir),
                    #[trigger] empties(moved(old(self)@, dir))[k],
                ),
    {
        let changed = self.apply_move(dir);
        if changed {
            self.add_random_block();
        }
        changed
    }
}

proof fn lemma_empty_grid_cells(n: int)
    requires
        0 <= n <= 16,
    ensures
        empty_cells(empty_grid(), n) == Seq::new(n as nat, |p: int| p),
    decreases n,
{
    if n > 0 {
        lemma_empty_grid_cells(n - 1);
        assert(empty_cells(empty_grid(), n) =~= Seq::new(n as nat, |p: int| p));
    }
}

/// The byte at index `i` of a frame of `width` × `width` pixels after the
/// grid is painted into it, where it held `old` before.
pub open spec fn frame_byte(g: Seq<Seq<Option<int>>>, width: int, old: u8, i: int) -> u8 {
    let cw = width / 4;
    let x = (i / 4) % width;
    let y = (i / 4) / width;
    if cw > 0 && x / cw < 4 && y / cw < 4 {
        rgba_of(g[x / cw][y / cw])[i % 4]
    } else {
        old
    }
}

/// A model with four columns of four cells.
pub open spec fn is_grid(g: Seq<Seq<Option<int>>>) -> bool {
    g.len() == 4 && forall|c: int| 0 <= c < 4 ==> (#[trigger] g[c]).len() == 4
}

/// The number of tiles on the grid.
pub open spec fn tile_count(g: Seq<Seq<Option<int>>>) -> nat {
    tiles(g[0]).len() + tiles(g[1]).len() + tiles(g[2]).len() + tiles(g[3]).len()
}

/// The four lines that a move in direction `dir` slides toward their high
/// end, in the order in which they are read.
pub open spec fn move_lines(g: Seq<Seq<Option<int>>>, dir: Direction) -> Seq<Seq<Option<int>>> {
    match dir {
        Direction::Down => g,
        Direction::Up => g.map_values(|l: Seq<Option<int>>| l.reverse()),
        Direction::Right => transposed(g),
        Direction::Left => transposed(g).map_values(|l: Seq<Option<int>>| l.reverse()),
    }
}

/// The number of merges that a move in direction `dir` makes.
pub open spec fn move_merges(g: Seq<Seq<Option<int>>>, dir: Direction) -> nat {
    let ls = move_lines(g, dir);
    merge_count(tiles(ls[0])) + merge_count(tiles(ls[1])) + merge_count(tiles(ls[2]))
        + merge_count(tiles(ls[3]))
}

proof fn lemma_grid_view_is_grid(g: Grid)
    ensures
        is_grid(grid_view(g)),
{
    lemma_grid_shape(g);
}

proof fn lemma_count_cells(g: Seq<Seq<Option<int>>>)
    requires
        is_grid(g),
    ensures
        tile_count(g) == occupied(g[0][0]) + occupied(g[0][1]) + occupied(g[0][2]) + occupied(g[0][3])
            + occupied(g[1][0]) + occupied(g[1][1]) + occupied(g[1][2]) + occupied(g[1][3])
            + occupied(g[2][0]) + occupied(g[2][1]) + occupied(g[2][2]) + occupied(g[2][3])
            + occupied(g[3][0]) + occupied(g[3][1]) + occupied(g[3][2]) + occupied(g[3][3]),
{
    lemma_tiles_len4(g[0]);
    lemma_tiles_len4(g[1]);
    lemma_tiles_len4(g[2]);
    lemma_tiles_len4(g[3]);
}

proof fn lemma_count_transposed(g: Seq<Seq<Option<int>>>)
    requires
        is_grid(g),
    ensures
        is_grid(transposed(g)),
        tile_count(transposed(g)) == tile_count(g),
{
    lemma_count_cells(g);
    lemma_count_cells(transposed(g));
}

/// Sliding each line of `ls` toward its high end drops one tile per merge.
proof fn lemma_count_lines(ls: Seq<Seq<Option<int>>>, low: bool)
    requires
        is_grid(ls),
    ensures
        ({
            let m = if low {
                ls.map_values(|l: Seq<Option<int>>| coalesced_low(l))
            } else {
                ls.map_values(|l: Seq<Option<int>>| coalesced(l))
            };
            let rs = if low {
                ls.map_values(|l: Seq<Option<int>>| l.reverse())
            } else {
                ls
            };
            &&& is_grid(m)
            &&& tile_count(m) + merge_count(tiles(rs[0])) + merge_count(tiles(rs[1]))
                + merge_count(tiles(rs[2])) + merge_count(tiles(rs[3])) == tile_count(ls)
        }),
{
    assert forall|c: int| 0 <= c < 4 implies {
        let l = #[trigger] ls[c];
        &&& coalesced(l).len() == 4
        &&& coalesced_low(l).len() == 4
        &&& tiles(coalesced(l)).len() + merge_count(tiles(l)) == tiles(l).len()
        &&& tiles(coalesced_low(l)).len() + merge_count(tiles(l.reverse())) == tiles(l).len()
    } by {
        let l = ls[c];
        lemma_coalesced_count(l);
        lemma_coalesced_count(l.reverse());
        let k = coalesced(l.reverse());
        lemma_tiles_len4(l);
        lemma_tiles_len4(l.reverse());
        lemma_tiles_len4(k);
        lemma_tiles_len4(k.reverse());
    }
}

/// A move drops exactly one tile for each merge it makes, and adds none.
pub proof fn lemma_move_tile_count(g: Grid, dir: Direction)
    ensures
        tile_count(moved(grid_view(g), dir)) + move_merges(grid_view(g), dir) == tile_count(
            grid_view(g),
        ),
{
    let v = grid_view(g);
    lemma_grid_view_is_grid(g);
    match dir {
        Direction::Down => {
            lemma_count_lines(v, false);
        },
        Direction::Up => {
            lemma_count_lines(v, true);
        },
        Direction::Right => {
            lemma_count_transposed(v);
            lemma_count_lines(transposed(v), false);
            lemma_count_transposed(transposed(v).map_values(|l: Seq<Option<int>>| coalesced(l)));
        },
        Direction::Left => {
            lemma_count_transposed(v);
            lemma_count_lines(transposed(v), true);
            lemma_count_transposed(
                transposed(v).map_values(|l: Seq<Option<int>>| coalesced_low(l)),
            );
        },
    }
}

/// A spawned tile lands in a cell that was empty and holds 2; no other cell
/// changes.
pub proof fn lemma_spawn_fills_empty_cell(g: Seq<Seq<Option<int>>>, k: int)
    requires
        is_grid(g),
        0 <= k < empties(g).len(),
    ensures
        ({
            let p = empties(g)[k];
            let h = with_tile(g, p);
            &&& 0 <= p < 16
            &&& cell_at(g, p) is None
            &&& cell_at(h, p) == Some(2int)
            &&& forall|q: int| 0 <= q < 16 && q != p ==> #[trigger] cell_at(h, q) == cell_at(g, q)
        }),
{
    lemma_empty_cells(g, 16);
    let p = empties(g)[k];
    assert forall|q: int| 0 <= q < 16 && q != p implies #[trigger] cell_at(with_tile(g, p), q)
        == cell_at(g, q) by {
        assert(q / 4 != p / 4 || q % 4 != p % 4);
    }
}

proof fn lemma_moved_is_grid(g: Grid, dir: Direction)
    ensures
        is_grid(moved(grid_view(g), dir)),
{
    let v = grid_view(g);
    lemma_grid_view_is_grid(g);
    match dir {
        Direction::Down => lemma_count_lines(v, false),
        Direction::Up => lemma_count_lines(v, true),
        Direction::Right => {
            lemma_count_transposed(v);
            lemma_count_lines(transposed(v), false);
            lemma_count_transposed(transposed(v).map_values(|l: Seq<Option<int>>| coalesced(l)));
        },
        Direction::Left => {
            lemma_count_transposed(v);
            lemma_count_lines(transposed(v), true);
            lemma_count_transposed(
                transposed(v).map_values(|l: Seq<Option<int>>| coalesced_low(l)),
            );
        },
    }
}

proof fn lemma_spawn_count(m: Seq<Seq<Option<int>>>, k: int)
    requires
        is_grid(m),
        0 <= k < empties(m).len(),
    ensures
        tile_count(with_tile(m, empties(m)[k])) == tile_count(m) + 1,
{
    lemma_spawn_fills_empty_cell(m, k);
    let p = empties(m)[k];
    let h = with_tile(m, p);
    assert(is_grid(h));
    lemma_count_cells(m);
    lemma_count_cells(h);
    assert(cell_at(h, p) == Some(2int));
    assert forall|c: int, r: int| 0 <= c < 4 && 0 <= r < 4 && (c != p / 4 || r != p % 4) implies
        #[trigger] h[c][r] == m[c][r] by {
        assert(h[c][r] == cell_at(h, 4 * c + r));
        assert(m[c][r] == cell_at(m, 4 * c + r));
    }
}

/// A turn adds at most one tile: the move adds none and the spawn after it
/// adds exactly one.
pub proof fn lemma_turn_tile_count(g: Grid, dir: Direction, k: int)
    requires
        0 <= k < empties(moved(grid_view(g), dir)).len(),
    ensures
        ({
            let m = moved(grid_view(g), dir);
            let h = with_tile(m, empties(m)[k]);
            &&& tile_count(h) == tile_count(m) + 1
            &&& tile_count(h) <= tile_count(grid_view(g)) + 1
        }),
{
    lemma_move_tile_count(g, dir);
    lemma_moved_is_grid(g, dir);
    lemma_spawn_count(moved(grid_view(g), dir), k);
}

/// Every tile of the line lies above every empty cell: tiles sit at the low
/// indices.
pub open spec fn top_aligned(line: Seq<Option<int>>) -> bool {
    forall|j: int| 0 <= j < line.len() - 1 && (#[trigger] line[j]) is None ==> line[j + 1] is None
}

proof fn lemma_column_round_trip(l: Seq<Option<int>>)
    requires
        l.len() == 4,
        top_aligned(l),
        no_equal_neighbours(l),
    ensures
        coalesced_low(coalesced(l)) == l,
{
    assert(l[0] is None ==> l[1] is None);
    assert(l[1] is None ==> l[2] is None);
    assert(l[2] is None ==> l[3] is None);
    assert(l[0] is Some && l[1] is Some ==> l[0] != l[1]);
    assert(l[1] is Some && l[2] is Some ==> l[1] != l[2]);
    assert(l[2] is Some && l[3] is Some ==> l[2] != l[3]);
    lemma_tiles4(l);
    let ts = tiles(l);
    lemma_merge_run_distinct(ts);
    let d = coalesced(l);
    let r = d.reverse();
    assert(r.len() == 4);
    lemma_tiles4(r);
    lemma_merge_run_distinct(tiles(r));
    assert(coalesced_low(d) =~= l);
}

/// A grid whose columns hold their tiles at the low rows, with no two
/// neighbours equal, is restored by a move down followed by a move up.
pub proof fn lemma_down_up_round_trip(g: Grid)
    requires
        forall|c: int|
            0 <= c < 4 ==> top_aligned(#[trigger] grid_view(g)[c]) && no_equal_neighbours(
                grid_view(g)[c],
            ),
    ensures
        moved(moved(grid_view(g), Direction::Down), Direction::Up) == grid_view(g),
{
    let v = grid_view(g);
    lemma_grid_shape(g);
    let m = moved(moved(v, Direction::Down), Direction::Up);
    assert forall|c: int| 0 <= c < 4 implies m[c] == v[c] by {
        lemma_column_round_trip(v[c]);
    }
    assert(m =~= v);
}

} // verus!
