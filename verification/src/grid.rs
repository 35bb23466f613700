use crate::text::{chars_of, find_line_end, line_end, trim, trim_range};
use vstd::arithmetic::div_mod::lemma_fundamental_div_mod;
use vstd::prelude::*;
use vstd::slice::slice_subrange;
use vstd::string::StrSliceExecFns;

verus! {

/// What one cell of the grid holds.
#[derive(Clone, Copy, Debug, PartialEq, Eq, Structural)]
pub enum Tile {
    Wall,
    House,
    Dot,
    PowerUp,
    Empty,
}

/// The tile that a layout symbol stands for, if it stands for one.
pub open spec fn tile_of_char(c: char) -> Option<Tile> {
    if c == '#' {
        Some(Tile::Wall)
    } else if c == '.' {
        Some(Tile::Dot)
    } else if c == ' ' {
        Some(Tile::Empty)
    } else if c == 'X' {
        Some(Tile::PowerUp)
    } else if c == 'H' {
        Some(Tile::House)
    } else {
        None
    }
}

/// The tile that a layout symbol stands for, if it stands for one.
pub fn tile_from_char(c: char) -> (t: Option<Tile>)
    ensures
        t == tile_of_char(c),
{
    if c == '#' {
        Some(Tile::Wall)
    } else if c == '.' {
        Some(Tile::Dot)
    } else if c == ' ' {
        Some(Tile::Empty)
    } else if c == 'X' {
        Some(Tile::PowerUp)
    } else if c == 'H' {
        Some(Tile::House)
    } else {
        None
    }
}

/// How many of the tiles in `s` are dots.
pub open spec fn dot_count(s: Seq<Tile>) -> nat
    decreases s.len(),
{
    if s.len() == 0 {
        0
    } else {
        dot_count(s.drop_last()) + if s.last() == Tile::Dot {
            1nat
        } else {
            0nat
        }
    }
}

/// How many of the tiles of `s` at or after position `from` can be walked on
/// (are neither wall nor house).
pub open spec fn open_count(s: Seq<Tile>, from: int) -> nat
    decreases s.len() - from,
{
    if from < 0 || from >= s.len() {
        0
    } else {
        open_count(s, from + 1) + if is_open(s[from]) {
            1nat
        } else {
            0nat
        }
    }
}

/// A tile that neither the player nor a ghost is kept out of.
pub open spec fn is_open(t: Tile) -> bool {
    t != Tile::Wall && t != Tile::House
}

/// The largest number of cells a grid may have. It keeps every coordinate,
/// and every cell a few steps beyond the grid, well inside `i32`.
pub const MAX_CELLS: usize = 0x4000_0000;

/// The mathematical grid: `width * height` tiles in row-major order, the
/// number of dots among them, and the cells that held a dot when the grid was
/// built, in row-major order.
pub struct GridModel {
    pub width: int,
    pub height: int,
    pub tiles: Seq<Tile>,
    pub pellets: int,
    pub origin: Seq<(int, int)>,
}

impl GridModel {
    /// Cell `(x, y)` lies inside the grid.
    pub open spec fn in_bounds(self, x: int, y: int) -> bool {
        0 <= x < self.width && 0 <= y < self.height
    }

    /// Position of cell `(x, y)` in `tiles`.
    pub open spec fn index(self, x: int, y: int) -> int {
        self.width * y + x
    }

    /// The tile at `(x, y)`, or `None` outside the grid.
    pub open spec fn get(self, x: int, y: int) -> Option<Tile> {
        if self.in_bounds(x, y) {
            Some(self.tiles[self.index(x, y)])
        } else {
            None
        }
    }

    /// Walls and house tiles block; everything else, and everything outside
    /// the grid, does not.
    pub open spec fn is_blocking(self, x: int, y: int) -> bool {
        self.get(x, y) == Some(Tile::Wall) || self.get(x, y) == Some(Tile::House)
    }

    /// Cell `(x, y)` holds a house tile.
    pub open spec fn is_house(self, x: int, y: int) -> bool {
        self.get(x, y) == Some(Tile::House)
    }

    /// Position in `tiles` of the `k`-th initial dot.
    pub open spec fn origin_index(self, k: int) -> int {
        self.index(self.origin[k].0, self.origin[k].1)
    }

    /// Cell `i` of `tiles` held a dot when the grid was built.
    pub open spec fn is_origin(self, i: int) -> bool {
        exists|k: int| 0 <= k < self.origin.len() && self.origin_index(k) == i
    }

    /// The grid's invariant: the dimensions are positive and match the number
    /// of tiles, the counter equals the number of dots present, the initial
    /// dots lie inside the grid in strictly increasing row-major order, each
    /// of their cells holds a dot or is empty, and no dot lies anywhere else.
    pub open spec fn wf(self) -> bool {
        &&& 1 <= self.width
        &&& 1 <= self.height
        &&& self.width * self.height <= MAX_CELLS
        &&& self.tiles.len() == self.width * self.height
        &&& self.pellets == dot_count(self.tiles)
        &&& forall|k: int|
            0 <= k < self.origin.len() ==> 0 <= (#[trigger] self.origin[k]).0 < self.width && 0
                <= self.origin[k].1 < self.height
        &&& forall|j: int, k: int|
            0 <= j < k < self.origin.len() ==> #[trigger] self.origin_index(j)
                < #[trigger] self.origin_index(k)
        &&& forall|i: int|
            0 <= i < self.tiles.len() && #[trigger] self.tiles[i] == Tile::Dot ==> self.is_origin(i)
        &&& forall|k: int|
            0 <= k < self.origin.len() ==> self.tiles[#[trigger] self.origin_index(k)]
                == Tile::Dot || self.tiles[self.origin_index(k)] == Tile::Empty
    }

    /// The grid after the player has taken what lies at `(x, y)`: the cell is
    /// empty, and the counter is one lower if it held a dot. Outside the grid
    /// nothing changes.
    pub open spec fn consume(self, x: int, y: int) -> GridModel {
        if self.in_bounds(x, y) {
            let i = self.index(x, y);
            GridModel {
                tiles: self.tiles.update(i, Tile::Empty),
                pellets: if self.tiles[i] == Tile::Dot {
                    self.pellets - 1
                } else {
                    self.pellets
                },
                ..self
            }
        } else {
            self
        }
    }

    /// The grid with every initial dot back in place.
    pub open spec fn reset(self) -> GridModel {
        GridModel {
            tiles: Seq::new(
                self.tiles.len(),
                |i: int|
                    if self.is_origin(i) {
                        Tile::Dot
                    } else {
                        self.tiles[i]
                    },
            ),
            pellets: self.origin.len() as int,
            ..self
        }
    }

    /// The grid with every dot taken away.
    pub open spec fn cleared(self) -> GridModel {
        GridModel {
            tiles: Seq::new(
                self.tiles.len(),
                |i: int|
                    if self.tiles[i] == Tile::Dot {
                        Tile::Empty
                    } else {
                        self.tiles[i]
                    },
            ),
            pellets: 0,
            ..self
        }
    }

    /// Row `y` of the grid, left to right.
    pub open spec fn row(self, y: int) -> Seq<Tile> {
        self.tiles.subrange(self.width * y, self.width * y + self.width)
    }

    /// The cell at position `i` of `tiles`.
    pub open spec fn cell_at(self, i: int) -> (int, int) {
        (i % self.width, i / self.width)
    }

    /// The number of cells that can be walked on.
    pub open spec fn open_cells(self) -> int {
        open_count(self.tiles, 0) as int
    }

    /// The `k`-th walkable cell in row-major order, counting from zero, for
    /// `0 <= k < self.open_cells()`.
    pub open spec fn open_cell(self, k: int) -> (int, int) {
        self.cell_at(nth_open(self.tiles, 0, k))
    }

    /// Where ghosts start and return to: the cell above the first house tile
    /// if there is a house below the top row, else the middle of the grid.
    pub open spec fn house_entrance(self) -> (int, int) {
        let i = first_house(self.tiles, 0);
        if i < self.tiles.len() && i / self.width >= 1 {
            (i % self.width, i / self.width - 1)
        } else {
            (self.width / 2, self.height / 2)
        }
    }

    /// Cell `i` of `tiles` is one of the first `k` initial dots.
    pub open spec fn is_origin_below(self, i: int, k: int) -> bool {
        exists|j: int| 0 <= j < k && j < self.origin.len() && self.origin_index(j) == i
    }

    /// The grid after the cells of `cells` have been consumed in order.
    pub open spec fn consume_all(self, cells: Seq<(int, int)>) -> GridModel
        decreases cells.len(),
    {
        if cells.len() == 0 {
            self
        } else {
            self.consume_all(cells.drop_last()).consume(cells.last().0, cells.last().1)
        }
    }
}

/// Position of the `k`-th walkable tile of `s` at or after `from` (counting
/// from zero), or the length of `s` if there are not that many.
pub open spec fn nth_open(s: Seq<Tile>, from: int, k: int) -> int
    decreases s.len() - from,
{
    if from < 0 || from >= s.len() {
        s.len() as int
    } else if is_open(s[from]) {
        if k <= 0 {
            from
        } else {
            nth_open(s, from + 1, k - 1)
        }
    } else {
        nth_open(s, from + 1, k)
    }
}

/// Position of the first house tile of `s` at or after `from`, or the length
/// of `s` if there is none.
pub open spec fn first_house(s: Seq<Tile>, from: int) -> int
    decreases s.len() - from,
{
    if from < 0 || from >= s.len() {
        s.len() as int
    } else if s[from] == Tile::House {
        from
    } else {
        first_house(s, from + 1)
    }
}

/// The cells of `s` that hold a dot, in row-major order, for a grid that is
/// `w` wide.
pub open spec fn dot_cells(s: Seq<Tile>, w: int) -> Seq<(int, int)>
    decreases s.len(),
{
    if s.len() == 0 {
        Seq::empty()
    } else {
        let i = s.len() - 1;
        let rest = dot_cells(s.drop_last(), w);
        if s[i] == Tile::Dot {
            rest.push((i % w, i / w))
        } else {
            rest
        }
    }
}

/// The tiles that the symbols of one layout row stand for; a character that
/// is no tile symbol stands for nothing.
pub open spec fn row_tiles(r: Seq<char>) -> Seq<Tile>
    decreases r.len(),
{
    if r.len() == 0 {
        Seq::empty()
    } else {
        let rest = row_tiles(r.drop_last());
        match tile_of_char(r.last()) {
            Some(t) => rest.push(t),
            None => rest,
        }
    }
}

/// The rows of the layout text `s` from position `i` on: its lines, each
/// with the blanks at both ends cut, without the lines that are then empty.
pub open spec fn layout_rows(s: Seq<char>, i: int) -> Seq<Seq<char>>
    decreases s.len() - i,
{
    if i < 0 || i >= s.len() {
        Seq::empty()
    } else {
        let e = line_end(s, i);
        let r = trim(s.subrange(i, e));
        let rest = if i <= e < s.len() {
            layout_rows(s, e + 1)
        } else {
            Seq::empty()
        };
        if r.len() > 0 {
            seq![r] + rest
        } else {
            rest
        }
    }
}

/// The tiles of all `rows`, row after row.
pub open spec fn rows_tiles(rows: Seq<Seq<char>>) -> Seq<Tile>
    decreases rows.len(),
{
    if rows.len() == 0 {
        Seq::empty()
    } else {
        rows_tiles(rows.drop_last()) + row_tiles(rows.last())
    }
}

/// Why a layout text is no grid.
#[derive(Clone, Copy, Debug, PartialEq, Eq, Structural)]
pub enum LayoutError {
    /// The text is longer than a grid can be.
    TooLarge,
    /// The text has no row.
    Empty,
    /// The number of tiles is not the first row's length times the number of
    /// rows.
    TileCountMismatch,
}

/// A newly built grid of the given width, height and tiles.
pub open spec fn fresh_grid(width: int, height: int, tiles: Seq<Tile>) -> GridModel {
    GridModel {
        width,
        height,
        tiles,
        pellets: dot_count(tiles) as int,
        origin: dot_cells(tiles, width),
    }
}

/// What a layout text describes: the grid whose width is the length of the
/// first row, whose height is the number of rows and whose tiles are those of
/// the rows in order, or the reason why there is no such grid.
pub open spec fn layout_grid(text: Seq<char>) -> Result<GridModel, LayoutError> {
    let rows = layout_rows(text, 0);
    let tiles = rows_tiles(rows);
    if text.len() > MAX_CELLS {
        Err(LayoutError::TooLarge)
    } else if rows.len() == 0 {
        Err(LayoutError::Empty)
    } else if tiles.len() != rows[0].len() * rows.len() {
        Err(LayoutError::TileCountMismatch)
    } else {
        Ok(fresh_grid(rows[0].len() as int, rows.len() as int, tiles))
    }
}

/// A cell inside the grid has its place among the tiles.
pub proof fn lemma_index_in_range(w: int, h: int, x: int, y: int)
    requires
        0 <= x < w,
        0 <= y < h,
    ensures
        0 <= w * y + x < w * h,
        w * y + w <= w * h,
        0 <= w * y,
{
    assert(w * y + w <= w * h) by (nonlinear_arith)
        requires
            0 <= y < h,
            0 < w,
    ;
    assert(0 <= w * y) by (nonlinear_arith)
        requires
            0 <= y,
            0 < w,
    ;
}

/// There are no more dots than tiles.
pub proof fn lemma_dot_count_bound(s: Seq<Tile>)
    ensures
        dot_count(s) <= s.len(),
    decreases s.len(),
{
    if s.len() > 0 {
        lemma_dot_count_bound(s.drop_last());
    }
}

/// Replacing one tile changes the number of dots by what left and what came.
pub proof fn lemma_dot_count_update(s: Seq<Tile>, i: int, t: Tile)
    requires
        0 <= i < s.len(),
    ensures
        dot_count(s.update(i, t)) == dot_count(s) - (if s[i] == Tile::Dot {
            1int
        } else {
            0int
        }) + (if t == Tile::Dot {
            1int
        } else {
            0int
        }),
    decreases s.len(),
{
    let u = s.update(i, t);
    if i == s.len() - 1 {
        assert(u.drop_last() =~= s.drop_last());
    } else {
        assert(u.drop_last() =~= s.drop_last().update(i, t));
        lemma_dot_count_update(s.drop_last(), i, t);
    }
}

/// A sequence without dots counts none.
pub proof fn lemma_dot_count_none(s: Seq<Tile>)
    requires
        forall|i: int| 0 <= i < s.len() ==> s[i] != Tile::Dot,
    ensures
        dot_count(s) == 0,
    decreases s.len(),
{
    if s.len() > 0 {
        lemma_dot_count_none(s.drop_last());
    }
}

/// Where the dots of `s` sit exactly at the strictly increasing positions
/// `at`, there are as many dots as positions.
pub proof fn lemma_dot_count_positions(s: Seq<Tile>, at: Seq<int>)
    requires
        forall|k: int| 0 <= k < at.len() ==> 0 <= #[trigger] at[k] < s.len(),
        forall|j: int, k: int| 0 <= j < k < at.len() ==> at[j] < at[k],
        forall|i: int|
            0 <= i < s.len() ==> (#[trigger] s[i] == Tile::Dot <==> exists|k: int|
                0 <= k < at.len() && at[k] == i),
    ensures
        dot_count(s) == at.len(),
    decreases s.len(),
{
    if s.len() == 0 {
        if at.len() > 0 {
            assert(0 <= at[0] < s.len());
        }
    } else {
        let n = s.len() - 1;
        let rest = s.drop_last();
        if s[n] == Tile::Dot {
            let k = choose|k: int| 0 <= k < at.len() && at[k] == n;
            if k < at.len() - 1 {
                assert(at[k] < at[at.len() - 1]);
                assert(at[at.len() - 1] < s.len());
            }
            let before = at.drop_last();
            assert forall|i: int| 0 <= i < rest.len() implies (#[trigger] rest[i] == Tile::Dot
                <==> exists|j: int| 0 <= j < before.len() && before[j] == i) by {
                assert(rest[i] == s[i]);
                if s[i] == Tile::Dot {
                    let j = choose|j: int| 0 <= j < at.len() && at[j] == i;
                    assert(before[j] == i);
                }
                if exists|j: int| 0 <= j < before.len() && before[j] == i {
                    let j = choose|j: int| 0 <= j < before.len() && before[j] == i;
                    assert(at[j] == i);
                }
            }
            assert forall|j: int| 0 <= j < before.len() implies 0 <= #[trigger] before[j]
                < rest.len() by {
                assert(at[j] < at[k]);
            }
            lemma_dot_count_positions(rest, before);
        } else {
            assert forall|j: int| 0 <= j < at.len() implies 0 <= #[trigger] at[j] < rest.len() by {
                assert(0 <= at[j] < s.len());
                if at[j] == n {
                    assert(s[n] == Tile::Dot);
                }
            }
            assert forall|i: int| 0 <= i < rest.len() implies (#[trigger] rest[i] == Tile::Dot
                <==> exists|j: int| 0 <= j < at.len() && at[j] == i) by {
                assert(rest[i] == s[i]);
            }
            lemma_dot_count_positions(rest, at);
        }
    }
}

/// Two cells of the grid share a place among the tiles only if they are the
/// same cell.
pub proof fn lemma_index_injective(w: int, x1: int, y1: int, x2: int, y2: int)
    requires
        0 <= x1 < w,
        0 <= x2 < w,
        w * y1 + x1 == w * y2 + x2,
    ensures
        x1 == x2,
        y1 == y2,
{
    if y1 < y2 {
        assert(w * y1 + w <= w * y2) by (nonlinear_arith)
            requires
                y1 < y2,
                0 < w,
        ;
    } else if y2 < y1 {
        assert(w * y2 + w <= w * y1) by (nonlinear_arith)
            requires
                y2 < y1,
                0 < w,
        ;
    }
}

/// Position `i` among the tiles belongs to the cell in column `i % w` of row
/// `i / w`, which lies inside the grid.
pub proof fn lemma_cell_at(w: int, h: int, i: int)
    requires
        1 <= w,
        0 <= i < w * h,
    ensures
        0 <= i % w < w,
        0 <= i / w < h,
        w * (i / w) + i % w == i,
{
    lemma_fundamental_div_mod(i, w);
    let q = i / w;
    if q >= h {
        assert(w * q >= w * h) by (nonlinear_arith)
            requires
                q >= h,
                w >= 1,
        ;
    }
    if q < 0 {
        assert(w * q <= -w) by (nonlinear_arith)
            requires
                q <= -1,
                w >= 1,
        ;
    }
}

/// The `k`-th walkable tile exists exactly if there are more than `k`
/// walkable tiles, and then it is walkable.
pub proof fn lemma_nth_open(s: Seq<Tile>, from: int, k: int)
    requires
        0 <= from <= s.len(),
        0 <= k,
    ensures
        from <= nth_open(s, from, k) <= s.len(),
        nth_open(s, from, k) < s.len() <==> k < open_count(s, from),
        nth_open(s, from, k) < s.len() ==> is_open(s[nth_open(s, from, k)]),
    decreases s.len() - from,
{
    if from < s.len() {
        if is_open(s[from]) {
            if k > 0 {
                lemma_nth_open(s, from + 1, k - 1);
            }
        } else {
            lemma_nth_open(s, from + 1, k);
        }
    }
}

/// A row gives at most one tile for each of its characters.
pub proof fn lemma_row_tiles_len(r: Seq<char>)
    ensures
        row_tiles(r).len() <= r.len(),
    decreases r.len(),
{
    if r.len() > 0 {
        lemma_row_tiles_len(r.drop_last());
    }
}

/// The dot cells of a grid's tiles lie inside the grid, in strictly
/// increasing row-major order, each on a dot, and each dot is among them.
pub proof fn lemma_dot_cells(s: Seq<Tile>, w: int, h: int)
    requires
        1 <= w,
        s.len() <= w * h,
    ensures
        dot_cells(s, w).len() == dot_count(s),
        forall|k: int|
            0 <= k < dot_cells(s, w).len() ==> {
                let c = #[trigger] dot_cells(s, w)[k];
                &&& 0 <= c.0 < w
                &&& 0 <= c.1 < h
                &&& 0 <= w * c.1 + c.0 < s.len()
                &&& s[w * c.1 + c.0] == Tile::Dot
            },
        forall|j: int, k: int|
            0 <= j < k < dot_cells(s, w).len() ==> w * (#[trigger] dot_cells(s, w)[j]).1
                + dot_cells(s, w)[j].0 < w * (#[trigger] dot_cells(s, w)[k]).1 + dot_cells(
                s,
                w,
            )[k].0,
        forall|i: int|
            0 <= i < s.len() && s[i] == Tile::Dot ==> exists|k: int|
                0 <= k < dot_cells(s, w).len() && w * (#[trigger] dot_cells(s, w)[k]).1
                    + dot_cells(s, w)[k].0 == i,
    decreases s.len(),
{
    if s.len() > 0 {
        let i = s.len() - 1;
        let rest = s.drop_last();
        lemma_dot_cells(rest, w, h);
        lemma_cell_at(w, h, i);
        let all = dot_cells(s, w);
        let before = dot_cells(rest, w);
        assert forall|m: int| 0 <= m < s.len() && s[m] == Tile::Dot implies exists|k: int|
            0 <= k < all.len() && w * (#[trigger] all[k]).1 + all[k].0 == m by {
            if m < i {
                assert(rest[m] == Tile::Dot);
                let k = choose|k: int|
                    0 <= k < before.len() && w * (#[trigger] before[k]).1 + before[k].0 == m;
                assert(all[k] == before[k]);
            } else {
                let k = all.len() - 1;
                assert(all[k] == (i % w, i / w));
            }
        }
        assert forall|k: int| 0 <= k < all.len() implies {
            let c = #[trigger] all[k];
            &&& 0 <= c.0 < w
            &&& 0 <= c.1 < h
            &&& 0 <= w * c.1 + c.0 < s.len()
            &&& s[w * c.1 + c.0] == Tile::Dot
        } by {
            if k < before.len() {
                let c = before[k];
                assert(all[k] == c);
                assert(rest[w * c.1 + c.0] == Tile::Dot);
            }
        }
        assert forall|j: int, k: int| 0 <= j < k < all.len() implies w * (#[trigger] all[j]).1
            + all[j].0 < w * (#[trigger] all[k]).1 + all[k].0 by {
            let cj = before[j];
            assert(all[j] == cj);
            if k < before.len() {
                assert(all[k] == before[k]);
            }
        }
    }
}

/// A newly built grid is valid, and putting its dots back changes nothing.
pub proof fn lemma_fresh_grid_wf(width: int, height: int, tiles: Seq<Tile>)
    requires
        1 <= width,
        1 <= height,
        width * height <= MAX_CELLS,
        tiles.len() == width * height,
    ensures
        fresh_grid(width, height, tiles).wf(),
        fresh_grid(width, height, tiles).reset() == fresh_grid(width, height, tiles),
{
    let g = fresh_grid(width, height, tiles);
    lemma_dot_cells(tiles, width, height);
    assert forall|i: int|
        0 <= i < g.tiles.len() && #[trigger] g.tiles[i] == Tile::Dot implies g.is_origin(i) by {
        let k = choose|k: int|
            0 <= k < g.origin.len() && width * (#[trigger] g.origin[k]).1 + g.origin[k].0 == i;
        assert(g.origin_index(k) == i);
    }
    assert forall|j: int, k: int| 0 <= j < k < g.origin.len() implies #[trigger] g.origin_index(j)
        < #[trigger] g.origin_index(k) by {
        assert(width * g.origin[j].1 + g.origin[j].0 < width * g.origin[k].1 + g.origin[k].0);
    }
    assert forall|k: int| 0 <= k < g.origin.len() implies g.tiles[#[trigger] g.origin_index(k)]
        == Tile::Dot by {
        let c = g.origin[k];
        assert(tiles[width * c.1 + c.0] == Tile::Dot);
    }
    assert(g.wf());
    assert forall|i: int| 0 <= i < g.tiles.len() && g.is_origin(i) implies g.tiles[i]
        == Tile::Dot by {
        let k = choose|k: int| 0 <= k < g.origin.len() && g.origin_index(k) == i;
        let c = g.origin[k];
        assert(tiles[width * c.1 + c.0] == Tile::Dot);
    }
    assert(g.reset().tiles =~= g.tiles);
}

impl GridModel {
    /// Consuming a cell keeps the grid's invariant.
    pub proof fn lemma_consume_wf(self, x: int, y: int)
        requires
            self.wf(),
        ensures
            self.consume(x, y).wf(),
            self.consume(x, y).pellets == dot_count(self.consume(x, y).tiles),
            self.in_bounds(x, y) ==> self.consume(x, y).get(x, y) == Some(Tile::Empty),
            forall|u: int, v: int|
                (u, v) != (x, y) ==> #[trigger] self.consume(x, y).get(u, v) == self.get(u, v),
    {
        if self.in_bounds(x, y) {
            let i = self.index(x, y);
            lemma_index_in_range(self.width, self.height, x, y);
            lemma_dot_count_update(self.tiles, i, Tile::Empty);
            let after = self.consume(x, y);
            assert forall|u: int, v: int| (u, v) != (x, y) implies #[trigger] after.get(u, v)
                == self.get(u, v) by {
                if self.in_bounds(u, v) {
                    lemma_index_in_range(self.width, self.height, u, v);
                    if self.index(u, v) == i {
                        lemma_index_injective(self.width, u, v, x, y);
                    }
                }
            }
            assert forall|k: int| 0 <= k < after.origin.len() implies after.origin_index(k)
                == self.origin_index(k) by {}
            assert forall|j: int, k: int| 0 <= j < k < after.origin.len() implies
                #[trigger] after.origin_index(j) < #[trigger] after.origin_index(k) by {
                assert(self.origin_index(j) < self.origin_index(k));
            }
            assert forall|m: int|
                0 <= m < after.tiles.len() && #[trigger] after.tiles[m]
                    == Tile::Dot implies after.is_origin(m) by {
                assert(self.tiles[m] == Tile::Dot);
                let k = choose|k: int| 0 <= k < self.origin.len() && self.origin_index(k) == m;
                assert(after.origin_index(k) == m);
            }
            assert forall|k: int| 0 <= k < after.origin.len() implies after.tiles[
                #[trigger] after.origin_index(k)] == Tile::Dot || after.tiles[after.origin_index(
                k,
            )] == Tile::Empty by {
                assert(0 <= self.origin[k].0 < self.width);
                lemma_index_in_range(
                    self.width,
                    self.height,
                    self.origin[k].0,
                    self.origin[k].1,
                );
                assert(self.tiles[self.origin_index(k)] == Tile::Dot || self.tiles[
                    self.origin_index(k)] == Tile::Empty);
            }
        }
    }

    /// Putting the initial dots back keeps the grid's invariant: afterwards
    /// the dots present are exactly the initial ones. Only empty cells
    /// change, so walls, house tiles and power-ups stay as they are.
    pub proof fn lemma_reset_wf(self)
        requires
            self.wf(),
        ensures
            self.reset().wf(),
            self.reset().pellets == self.origin.len(),
            self.reset().reset() == self.reset(),
            forall|i: int|
                0 <= i < self.tiles.len() ==> #[trigger] self.reset().tiles[i] == self.tiles[i]
                    || (self.reset().tiles[i] == Tile::Dot && self.tiles[i] == Tile::Empty),
            forall|x: int, y: int|
                #[trigger] self.reset().is_blocking(x, y) == self.is_blocking(x, y),
    {
        let after = self.reset();
        assert forall|i: int| 0 <= i < self.tiles.len() implies #[trigger] after.tiles[i]
            == self.tiles[i] || (after.tiles[i] == Tile::Dot && self.tiles[i] == Tile::Empty) by {
            if self.is_origin(i) {
                let k = choose|k: int| 0 <= k < self.origin.len() && self.origin_index(k) == i;
                assert(self.tiles[self.origin_index(k)] == Tile::Dot || self.tiles[
                    self.origin_index(k)] == Tile::Empty);
            }
        }
        assert forall|x: int, y: int| #[trigger] after.is_blocking(x, y) == self.is_blocking(
            x,
            y,
        ) by {
            if self.in_bounds(x, y) {
                lemma_index_in_range(self.width, self.height, x, y);
                let i = self.index(x, y);
                assert(after.tiles[i] == self.tiles[i] || (after.tiles[i] == Tile::Dot
                    && self.tiles[i] == Tile::Empty));
            }
        }
        let at = Seq::new(self.origin.len(), |k: int| self.origin_index(k));
        assert forall|k: int| 0 <= k < at.len() implies 0 <= #[trigger] at[k]
            < after.tiles.len() by {
            assert(0 <= self.origin[k].0 < self.width);
            lemma_index_in_range(self.width, self.height, self.origin[k].0, self.origin[k].1);
        }
        assert forall|j: int, k: int| 0 <= j < k < at.len() implies at[j] < at[k] by {
            assert(self.origin_index(j) < self.origin_index(k));
        }
        assert forall|i: int| 0 <= i < after.tiles.len() implies (#[trigger] after.tiles[i]
            == Tile::Dot <==> exists|k: int| 0 <= k < at.len() && at[k] == i) by {
            if after.tiles[i] == Tile::Dot {
                assert(self.is_origin(i));
                let k = choose|k: int| 0 <= k < self.origin.len() && self.origin_index(k) == i;
                assert(at[k] == i);
            }
            if exists|k: int| 0 <= k < at.len() && at[k] == i {
                let k = choose|k: int| 0 <= k < at.len() && at[k] == i;
                assert(self.origin_index(k) == i);
                assert(self.is_origin(i));
            }
        }
        lemma_dot_count_positions(after.tiles, at);
        assert forall|k: int| 0 <= k < after.origin.len() implies after.origin_index(k)
            == self.origin_index(k) by {}
        assert forall|j: int, k: int| 0 <= j < k < after.origin.len() implies
            #[trigger] after.origin_index(j) < #[trigger] after.origin_index(k) by {
            assert(self.origin_index(j) < self.origin_index(k));
        }
        assert forall|i: int|
            0 <= i < after.tiles.len() && #[trigger] after.tiles[i]
                == Tile::Dot implies after.is_origin(i) by {
            assert(self.is_origin(i));
            let k = choose|k: int| 0 <= k < self.origin.len() && self.origin_index(k) == i;
            assert(after.origin_index(k) == i);
        }
        assert forall|i: int| 0 <= i < after.tiles.len() implies (after.is_origin(i)
            <==> self.is_origin(i)) by {
            if after.is_origin(i) {
                let k = choose|k: int| 0 <= k < after.origin.len() && after.origin_index(k) == i;
                assert(self.origin_index(k) == i);
            }
            if self.is_origin(i) {
                let k = choose|k: int| 0 <= k < self.origin.len() && self.origin_index(k) == i;
                assert(after.origin_index(k) == i);
            }
        }
        assert forall|k: int| 0 <= k < after.origin.len() implies after.tiles[
            #[trigger] after.origin_index(k)] == Tile::Dot by {
            assert(0 <= self.origin[k].0 < self.width);
            lemma_index_in_range(self.width, self.height, self.origin[k].0, self.origin[k].1);
            assert(self.origin_index(k) == after.origin_index(k));
            assert(self.is_origin(self.origin_index(k)));
        }
        assert(after.reset().tiles =~= after.tiles);
    }

    /// Taking every dot away keeps the grid's invariant.
    pub proof fn lemma_cleared_wf(self)
        requires
            self.wf(),
        ensures
            self.cleared().wf(),
    {
        let after = self.cleared();
        lemma_dot_count_none(after.tiles);
        assert forall|j: int, k: int| 0 <= j < k < after.origin.len() implies
            #[trigger] after.origin_index(j) < #[trigger] after.origin_index(k) by {
            assert(self.origin_index(j) < self.origin_index(k));
        }
        assert forall|k: int| 0 <= k < after.origin.len() implies after.tiles[
            #[trigger] after.origin_index(k)] == Tile::Dot || after.tiles[after.origin_index(k)]
            == Tile::Empty by {
            assert(0 <= self.origin[k].0 < self.width);
            lemma_index_in_range(self.width, self.height, self.origin[k].0, self.origin[k].1);
            assert(self.tiles[self.origin_index(k)] == Tile::Dot || self.tiles[
                self.origin_index(k)] == Tile::Empty);
        }
    }

    /// The pellet invariant: from a valid grid, whatever cells are consumed
    /// and in whatever order, the counter equals the number of dots that are
    /// still on the grid.
    pub proof fn lemma_consume_all_counts(self, cells: Seq<(int, int)>)
        requires
            self.wf(),
        ensures
            self.consume_all(cells).wf(),
            self.consume_all(cells).pellets == dot_count(self.consume_all(cells).tiles),
        decreases cells.len(),
    {
        if cells.len() > 0 {
            self.lemma_consume_all_counts(cells.drop_last());
            self.consume_all(cells.drop_last()).lemma_consume_wf(cells.last().0, cells.last().1);
        }
    }
}

/// The playing field: a fixed rectangle of tiles, the count of dots on it, and
/// the cells that held a dot when it was built.
pub struct Grid {
    width: usize,
    height: usize,
    tiles: Vec<Tile>,
    pellets: u32,
    pellet_coords: Vec<(usize, usize)>,
}

impl View for Grid {
    type V = GridModel;

    closed spec fn view(&self) -> GridModel {
        GridModel {
            width: self.width as int,
            height: self.height as int,
            tiles: self.tiles@,
            pellets: self.pellets as int,
            origin: Seq::new(
                self.pellet_coords@.len(),
                |k: int| (self.pellet_coords@[k].0 as int, self.pellet_coords@[k].1 as int),
            ),
        }
    }
}

impl Grid {
    /// The number of columns.
    pub fn width(&self) -> (w: usize)
        requires
            self@.wf(),
        ensures
            w == self@.width,
            1 <= w <= MAX_CELLS,
    {
        proof {
            assert(self@.width <= self@.width * self@.height) by (nonlinear_arith)
                requires
                    1 <= self@.width,
                    1 <= self@.height,
            ;
        }
        self.width
    }

    /// The number of rows.
    pub fn height(&self) -> (h: usize)
        requires
            self@.wf(),
        ensures
            h == self@.height,
            1 <= h <= MAX_CELLS,
    {
        proof {
            assert(self@.height <= self@.width * self@.height) by (nonlinear_arith)
                requires
                    1 <= self@.width,
                    1 <= self@.height,
            ;
        }
        self.height
    }

    /// The tile at `(x, y)`, or `None` outside the grid.
    pub fn get(&self, x: i32, y: i32) -> (t: Option<Tile>)
        requires
            self@.wf(),
        ensures
            t == self@.get(x as int, y as int),
    {
        let w = self.width();
        let h = self.height();
        if x < 0 || x >= w as i32 {
            None
        } else if y < 0 || y >= h as i32 {
            None
        } else {
            proof {
                lemma_index_in_range(self@.width, self@.height, x as int, y as int);
            }
            Some(self.tiles[self.width * (y as usize) + (x as usize)])
        }
    }

    /// Whether `(x, y)` holds a wall or a house tile.
    pub fn is_wall(&self, x: i32, y: i32) -> (b: bool)
        requires
            self@.wf(),
        ensures
            b == self@.is_blocking(x as int, y as int),
    {
        match self.get(x, y) {
            Some(Tile::Wall) => true,
            Some(Tile::House) => true,
            _ => false,
        }
    }

    /// Whether `(x, y)` holds a house tile.
    pub fn is_house(&self, x: i32, y: i32) -> (b: bool)
        requires
            self@.wf(),
        ensures
            b == self@.is_house(x as int, y as int),
    {
        match self.get(x, y) {
            Some(Tile::House) => true,
            _ => false,
        }
    }

    /// Puts `tile` at `(x, y)`.
    fn set(&mut self, x: u32, y: u32, tile: Tile)
        requires
            1 <= old(self)@.width,
            old(self)@.width * old(self)@.height <= MAX_CELLS,
            old(self)@.tiles.len() == old(self)@.width * old(self)@.height,
            old(self)@.in_bounds(x as int, y as int),
        ensures
            final(self)@ == (GridModel {
                tiles: old(self)@.tiles.update(old(self)@.index(x as int, y as int), tile),
                ..old(self)@
            }),
    {
        proof {
            lemma_index_in_range(self@.width, self@.height, x as int, y as int);
        }
        let (x, y) = (x as usize, y as usize);
        let i = self.width * y + x;
        self.tiles.set(i, tile);
        proof {
            assert(self@.origin =~= old(self)@.origin);
        }
    }

    /// Takes what lies at `(x, y)`: a dot lowers the counter, and the cell is
    /// empty afterwards whatever it held. Outside the grid nothing happens.
    pub fn consume(&mut self, x: i32, y: i32)
        requires
            old(self)@.wf(),
        ensures
            final(self)@ == old(self)@.consume(x as int, y as int),
            final(self)@.wf(),
            final(self)@.pellets == dot_count(final(self)@.tiles),
            old(self)@.in_bounds(x as int, y as int) ==> final(self)@.get(x as int, y as int)
                == Some(Tile::Empty),
            forall|u: int, v: int|
                (u, v) != (x as int, y as int) ==> #[trigger] final(self)@.get(u, v) == old(
                    self,
                )@.get(u, v),
    {
        proof {
            self@.lemma_consume_wf(x as int, y as int);
        }
        match self.get(x, y) {
            None => {},
            Some(t) => {
                proof {
                    lemma_index_in_range(self@.width, self@.height, x as int, y as int);
                    lemma_dot_count_update(
                        self@.tiles,
                        self@.index(x as int, y as int),
                        Tile::Empty,
                    );
                    lemma_dot_count_bound(self@.consume(x as int, y as int).tiles);
                }
                self.set(x as u32, y as u32, Tile::Empty);
                if t == Tile::Dot {
                    self.pellets = self.pellets - 1;
                }
                proof {
                    assert(self@.origin =~= old(self)@.origin);
                }
            },
        }
    }

    /// The number of dots still on the grid.
    pub fn pellets(&self) -> (n: u32)
        ensures
            n == self@.pellets,
    {
        self.pellets
    }
}

/// Whether the tile can be walked on.
fn is_open_tile(t: Tile) -> (b: bool)
    ensures
        b == is_open(t),
{
    match t {
        Tile::Wall => false,
        Tile::House => false,
        _ => true,
    }
}

/// Appends to `tiles` the tiles of the row `chars[from..to]`.
fn push_row_tiles(tiles: &mut Vec<Tile>, chars: &Vec<char>, from: usize, to: usize)
    requires
        from <= to <= chars@.len(),
    ensures
        final(tiles)@ == old(tiles)@ + row_tiles(chars@.subrange(from as int, to as int)),
{
    let mut i = from;
    while i < to
        invariant
            from <= i <= to <= chars@.len(),
            tiles@ == old(tiles)@ + row_tiles(chars@.subrange(from as int, i as int)),
        decreases to - i,
    {
        proof {
            assert(chars@.subrange(from as int, i + 1).drop_last() =~= chars@.subrange(
                from as int,
                i as int,
            ));
        }
        match tile_from_char(chars[i]) {
            Some(t) => {
                tiles.push(t);
            },
            None => {},
        }
        proof {
            assert(tiles@ =~= old(tiles)@ + row_tiles(chars@.subrange(from as int, i + 1)));
        }
        i += 1;
    }
}

/// The cells of `tiles` that hold a dot, as column and row, in row-major
/// order.
fn pellet_coords(tiles: &Vec<Tile>, width: usize, height: usize) -> (coords: Vec<(usize, usize)>)
    requires
        1 <= width,
        tiles@.len() == width * height,
    ensures
        coords@.len() == dot_cells(tiles@, width as int).len(),
        forall|k: int|
            0 <= k < coords@.len() ==> ((#[trigger] coords@[k]).0 as int, coords@[k].1 as int)
                == dot_cells(tiles@, width as int)[k],
{
    let mut coords: Vec<(usize, usize)> = Vec::new();
    let total = tiles.len();
    let mut j: usize = 0;
    while j < total
        invariant
            j <= total == tiles@.len(),
            total == width * height,
            1 <= width,
            coords@.len() == dot_cells(tiles@.take(j as int), width as int).len(),
            forall|k: int|
                0 <= k < coords@.len() ==> ((#[trigger] coords@[k]).0 as int, coords@[k].1 as int)
                    == dot_cells(tiles@.take(j as int), width as int)[k],
        decreases total - j,
    {
        proof {
            assert(tiles@.take(j + 1).drop_last() =~= tiles@.take(j as int));
        }
        if tiles[j] == Tile::Dot {
            coords.push((j % width, j / width));
        }
        j += 1;
    }
    proof {
        assert(tiles@.take(total as int) =~= tiles@);
    }
    coords
}

impl Grid {
    /// Builds the grid that a layout text describes. The rows are the text's
    /// lines with blanks cut from both ends, blank lines left out; `#` is a
    /// wall, `H` a house tile, `.` a dot, `X` a power-up and a space an empty
    /// cell, and any other character is passed over. The first row's length
    /// is the width, the number of rows the height; a text whose tiles are
    /// not width times height many is refused.
    ///
    /// Since blanks are cut from both ends of a line, a row cannot begin or
    /// end with an empty cell: the spaces there do not count as tiles, the
    /// row comes out short, and the text is refused unless other rows make
    /// up the number. A passage that leads off the side of the grid has to
    /// begin and end with a dot or a power-up.
    pub fn new(layout: &str) -> (r: Result<Grid, LayoutError>)
        ensures
            match r {
                Ok(g) => layout_grid(layout@) == Ok::<GridModel, LayoutError>(g@) && g@.wf()
                    && g@.reset() == g@,
                Err(e) => layout_grid(layout@) == Err::<GridModel, LayoutError>(e),
            },
    {
        if layout.unicode_len() > MAX_CELLS {
            return Err(LayoutError::TooLarge);
        }
        let chars = chars_of(layout);
        let n = chars.len();
        let mut tiles: Vec<Tile> = Vec::new();
        let mut width: usize = 0;
        let mut height: usize = 0;
        let ghost mut rows: Seq<Seq<char>> = Seq::empty();
        let mut i: usize = 0;
        while i < n
            invariant
                n == chars@.len(),
                n <= MAX_CELLS,
                i <= n + 1,
                rows + layout_rows(chars@, i as int) == layout_rows(chars@, 0),
                tiles@ == rows_tiles(rows),
                height == rows.len(),
                height <= i,
                tiles@.len() <= i,
                i > 0 ==> tiles@.len() <= i - 1,
                height > 0 ==> width >= 1,
                width <= n,
                width == if rows.len() > 0 {
                    rows[0].len()
                } else {
                    0
                },
            decreases n + 1 - i,
        {
            let e = find_line_end(&chars, i);
            let (a, b) = trim_range(&chars, i, e);
            let ghost row = chars@.subrange(a as int, b as int);
            let ghost rest = if e < n {
                layout_rows(chars@, e + 1)
            } else {
                Seq::empty()
            };
            proof {
                assert(layout_rows(chars@, e + 1) == rest);
            }
            if a < b {
                if height == 0 {
                    width = b - a;
                }
                height += 1;
                push_row_tiles(&mut tiles, &chars, a, b);
                proof {
                    lemma_row_tiles_len(row);
                    assert(rows.push(row).drop_last() =~= rows);
                    assert(rows.push(row) + rest =~= rows + (seq![row] + rest));
                    rows = rows.push(row);
                }
            }
            i = e + 1;
        }
        proof {
            assert(rows + Seq::<Seq<char>>::empty() =~= rows);
        }
        if height == 0 {
            return Err(LayoutError::Empty);
        }
        assert((width as int) * (height as int) <= 0x8000_0000 * 0x8000_0000) by (nonlinear_arith)
            requires
                0 <= width <= 0x8000_0000,
                0 <= height <= 0x8000_0000,
        ;
        if (width as u64) * (height as u64) != tiles.len() as u64 {
            return Err(LayoutError::TileCountMismatch);
        }
        proof {
            lemma_fresh_grid_wf(width as int, height as int, tiles@);
            lemma_dot_count_bound(tiles@);
        }
        let pellet_coords = pellet_coords(&tiles, width, height);
        let pellets = pellet_coords.len() as u32;
        proof {
            lemma_dot_cells(tiles@, width as int, height as int);
        }
        let grid = Grid { width, height, tiles, pellets, pellet_coords };
        proof {
            assert(grid@.origin =~= dot_cells(grid.tiles@, width as int));
            assert(grid@ == fresh_grid(width as int, height as int, grid.tiles@));
        }
        Ok(grid)
    }

    /// Puts every initial dot back and sets the counter to their number.
    pub fn reset(&mut self)
        requires
            old(self)@.wf(),
        ensures
            final(self)@ == old(self)@.reset(),
            final(self)@.wf(),
            forall|x: int, y: int|
                #[trigger] final(self)@.is_blocking(x, y) == old(self)@.is_blocking(x, y),
    {
        proof {
            self@.lemma_reset_wf();
            lemma_dot_count_bound(self@.reset().tiles);
        }
        let n = self.pellet_coords.len();
        let mut k: usize = 0;
        while k < n
            invariant
                k <= n == self.pellet_coords@.len(),
                self.width == old(self).width,
                self.height == old(self).height,
                self.pellets == old(self).pellets,
                self.pellet_coords == old(self).pellet_coords,
                old(self)@.wf(),
                self.tiles@.len() == old(self).tiles@.len(),
                forall|i: int|
                    0 <= i < self.tiles@.len() ==> #[trigger] self.tiles@[i] == if old(
                        self,
                    )@.is_origin_below(i, k as int) {
                        Tile::Dot
                    } else {
                        old(self).tiles@[i]
                    },
            decreases n - k,
        {
            let (x, y) = self.pellet_coords[k];
            proof {
                assert(old(self)@.origin[k as int] == (x as int, y as int));
                lemma_index_in_range(
                    old(self)@.width,
                    old(self)@.height,
                    x as int,
                    y as int,
                );
            }
            let i = self.width * y + x;
            self.tiles.set(i, Tile::Dot);
            proof {
                assert(old(self)@.origin_index(k as int) == i);
                assert forall|m: int| 0 <= m < self.tiles@.len() implies #[trigger] self.tiles@[m]
                    == if old(self)@.is_origin_below(m, k + 1) {
                    Tile::Dot
                } else {
                    old(self).tiles@[m]
                } by {
                    if m != i {
                        if old(self)@.is_origin_below(m, k + 1) {
                            let j = choose|j: int|
                                0 <= j < k + 1 && j < old(self)@.origin.len() && old(
                                    self,
                                )@.origin_index(j) == m;
                            assert(j < k);
                            assert(old(self)@.is_origin_below(m, k as int));
                        }
                        if old(self)@.is_origin_below(m, k as int) {
                            let j = choose|j: int|
                                0 <= j < k && j < old(self)@.origin.len() && old(
                                    self,
                                )@.origin_index(j) == m;
                            assert(0 <= j < k + 1);
                        }
                    }
                }
            }
            k += 1;
        }
        self.pellets = n as u32;
        proof {
            assert forall|i: int| 0 <= i < self.tiles@.len() implies (old(self)@.is_origin_below(
                i,
                n as int,
            ) <==> old(self)@.is_origin(i)) by {
                if old(self)@.is_origin(i) {
                    let j = choose|j: int|
                        0 <= j < old(self)@.origin.len() && old(self)@.origin_index(j) == i;
                    assert(0 <= j < n);
                }
            }
            assert(self@.tiles =~= old(self)@.reset().tiles);
            assert(self@.origin =~= old(self)@.origin);
        }
    }

    /// Takes every dot off the grid and sets the counter to zero.
    pub fn remove_all_pellets(&mut self)
        requires
            old(self)@.wf(),
        ensures
            final(self)@ == old(self)@.cleared(),
            final(self)@.wf(),
            final(self)@.pellets == 0,
    {
        proof {
            self@.lemma_cleared_wf();
        }
        let n = self.tiles.len();
        let mut i: usize = 0;
        while i < n
            invariant
                i <= n == self.tiles@.len(),
                n == old(self).tiles@.len(),
                self.width == old(self).width,
                self.height == old(self).height,
                self.pellet_coords == old(self).pellet_coords,
                forall|m: int|
                    0 <= m < i ==> #[trigger] self.tiles@[m] == old(self)@.cleared().tiles[m],
                forall|m: int| i <= m < n ==> #[trigger] self.tiles@[m] == old(self).tiles@[m],
            decreases n - i,
        {
            if self.tiles[i] == Tile::Dot {
                self.tiles.set(i, Tile::Empty);
            }
            i += 1;
        }
        self.pellets = 0;
        proof {
            assert(self@.tiles =~= old(self)@.cleared().tiles);
            assert(self@.origin =~= old(self)@.origin);
        }
    }

    /// The cell at position `i` of the tiles.
    fn cell_of(&self, i: usize) -> (c: (i32, i32))
        requires
            self@.wf(),
            i < self@.tiles.len(),
        ensures
            (c.0 as int, c.1 as int) == self@.cell_at(i as int),
            self@.in_bounds(c.0 as int, c.1 as int),
            self@.index(c.0 as int, c.1 as int) == i,
    {
        proof {
            lemma_cell_at(self@.width, self@.height, i as int);
        }
        ((i % self.width) as i32, (i / self.width) as i32)
    }

    /// The number of cells that can be walked on.
    pub fn count_open(&self) -> (n: usize)
        requires
            self@.wf(),
        ensures
            n == self@.open_cells(),
            n <= self@.tiles.len(),
    {
        let mut n: usize = 0;
        let total = self.tiles.len();
        let mut i: usize = total;
        while i > 0
            invariant
                i <= total == self.tiles@.len(),
                n == open_count(self.tiles@, i as int),
                n <= total - i,
            decreases i,
        {
            i -= 1;
            if is_open_tile(self.tiles[i]) {
                n += 1;
            }
        }
        n
    }

    /// The `k`-th cell that can be walked on, in row-major order and counting
    /// from zero; `None` if there are not that many.
    pub fn open_cell(&self, k: usize) -> (c: Option<(i32, i32)>)
        requires
            self@.wf(),
        ensures
            match c {
                Some(p) => k < self@.open_cells() && (p.0 as int, p.1 as int) == self@.open_cell(
                    k as int,
                ) && self@.in_bounds(p.0 as int, p.1 as int) && !self@.is_blocking(
                    p.0 as int,
                    p.1 as int,
                ),
                None => k >= self@.open_cells(),
            },
    {
        let n = self.tiles.len();
        let mut left = k;
        let mut i: usize = 0;
        while i < n
            invariant
                i <= n == self.tiles@.len(),
                self@.wf(),
                nth_open(self.tiles@, i as int, left as int) == nth_open(self.tiles@, 0, k as int),
            decreases n - i,
        {
            if is_open_tile(self.tiles[i]) {
                if left == 0 {
                    proof {
                        lemma_nth_open(self.tiles@, 0, k as int);
                    }
                    return Some(self.cell_of(i));
                }
                left -= 1;
            }
            i += 1;
        }
        proof {
            lemma_nth_open(self.tiles@, 0, k as int);
        }
        None
    }

    /// Where ghosts start and return to: the cell above the first house tile
    /// if there is a house below the top row, else the middle of the grid.
    pub fn house_entrance(&self) -> (c: (i32, i32))
        requires
            self@.wf(),
        ensures
            (c.0 as int, c.1 as int) == self@.house_entrance(),
            self@.in_bounds(c.0 as int, c.1 as int),
    {
        let w = self.width();
        let h = self.height();
        let n = self.tiles.len();
        let mut i: usize = 0;
        while i < n
            invariant
                i <= n == self.tiles@.len(),
                self@.wf(),
                1 <= w <= MAX_CELLS,
                1 <= h <= MAX_CELLS,
                w == self@.width,
                h == self@.height,
                first_house(self.tiles@, i as int) == first_house(self.tiles@, 0),
            decreases n - i,
        {
            if self.tiles[i] == Tile::House {
                let (x, y) = self.cell_of(i);
                if y >= 1 {
                    return (x, y - 1);
                } else {
                    return ((w / 2) as i32, (h / 2) as i32);
                }
            }
            i += 1;
        }
        ((w / 2) as i32, (h / 2) as i32)
    }

    /// The rows of the grid from the top, one for each call of `next`.
    pub fn scan_lines(&self) -> (lines: ScanLine<'_>)
        requires
            self@.wf(),
        ensures
            lines.wf(),
            lines.grid() == self@,
            lines.line() == 0,
    {
        ScanLine { map: self, line: 0 }
    }
}

/// A walk over the rows of a grid, top to bottom.
pub struct ScanLine<'a> {
    map: &'a Grid,
    line: usize,
}

impl<'a> ScanLine<'a> {
    /// The grid whose rows are walked.
    pub closed spec fn grid(&self) -> GridModel {
        self.map@
    }

    /// The number of rows handed out so far.
    pub closed spec fn line(&self) -> int {
        self.line as int
    }

    /// The grid is valid, and no more rows have been handed out than it has.
    pub open spec fn wf(&self) -> bool {
        self.grid().wf() && 0 <= self.line() <= self.grid().height
    }

    /// The next row, or `None` when all rows have been handed out.
    pub fn next(&mut self) -> (row: Option<&'a [Tile]>)
        requires
            old(self).wf(),
        ensures
            final(self).wf(),
            final(self).grid() == old(self).grid(),
            match row {
                Some(r) => old(self).line() < old(self).grid().height && r@ == old(
                    self,
                ).grid().row(old(self).line()) && final(self).line() == old(self).line() + 1,
                None => old(self).line() == old(self).grid().height && final(self).line() == old(
                    self,
                ).line(),
            },
    {
        let h = self.map.height();
        let w = self.map.width();
        if self.line >= h {
            None
        } else {
            proof {
                lemma_index_in_range(self.map@.width, self.map@.height, 0, self.line as int);
            }
            let start = self.line * w;
            let row = slice_subrange(self.map.tiles.as_slice(), start, start + w);
            self.line += 1;
            Some(row)
        }
    }
}

} // verus!
