//! The tile map: a rectangular grid of wall/air tiles plus a dynamic set of
//! blocked cells, with walkability queries, world/grid coordinate
//! conversions, and construction from an ASCII layout.

use vstd::prelude::*;
use crate::conf::{MAX_DIM, SQUARE_SIZE};
use crate::geometry::{CollisionRect, GridCell, WorldPos};

verus! {

/// One cell of the static map grid: either impassable or passable.
#[derive(PartialEq, Eq, Structural, Clone, Copy, Debug)]
pub enum Tile {
    Wall,
    Air,
}

/// Why an ASCII layout was rejected.
#[derive(PartialEq, Eq, Structural, Clone, Copy, Debug)]
pub enum MapError {
    /// The layout holds a character other than `#`, `.` and the line break.
    InvalidChar,
    /// The rows of the layout do not all have the same length.
    RaggedRows,
    /// The layout has no rows at all.
    EmptyLayout,
    /// A dimension of the layout exceeds [`MAX_DIM`].
    TooLarge,
}

/// The grid of tile rows a vector of tile vectors holds.
pub open spec fn grid_view(g: Vec<Vec<Tile>>) -> Seq<Seq<Tile>> {
    g@.map_values(|r: Vec<Tile>| r@)
}

/// Every row of the grid has the same length as the first.
pub open spec fn is_rect(g: Seq<Seq<Tile>>) -> bool {
    forall|y: int| 0 <= y < g.len() ==> (#[trigger] g[y]).len() == g[0].len()
}

/// Some cell of the list has the given coordinates.
pub open spec fn in_cell_list(cells: Seq<GridCell>, x: int, y: int) -> bool {
    exists|k: int| 0 <= k < cells.len() && (#[trigger] cells[k]).x == x && cells[k].y == y
}

/// Extending the scanned prefix of a cell list by one cell covers exactly
/// that cell's coordinates more.
proof fn lemma_in_cell_list_take_step(cells: Seq<GridCell>, k: int, x: int, y: int)
    requires
        0 <= k < cells.len(),
    ensures
        in_cell_list(cells.take(k + 1), x, y) <==> (in_cell_list(cells.take(k), x, y) || (
        cells[k].x == x && cells[k].y == y)),
{
    if in_cell_list(cells.take(k + 1), x, y) {
        let i = choose|i: int|
            0 <= i < cells.take(k + 1).len() && (#[trigger] cells.take(k + 1)[i]).x == x
                && cells.take(k + 1)[i].y == y;
        if i < k {
            assert(cells.take(k)[i] == cells.take(k + 1)[i]);
            assert(in_cell_list(cells.take(k), x, y));
        } else {
            assert(cells.take(k + 1)[k] == cells[k]);
        }
    }
    if in_cell_list(cells.take(k), x, y) {
        let i = choose|i: int|
            0 <= i < cells.take(k).len() && (#[trigger] cells.take(k)[i]).x == x
                && cells.take(k)[i].y == y;
        assert(cells.take(k + 1)[i] == cells.take(k)[i]);
        assert(in_cell_list(cells.take(k + 1), x, y));
    }
    if cells[k].x == x && cells[k].y == y {
        assert(cells.take(k + 1)[k] == cells[k]);
        assert(in_cell_list(cells.take(k + 1), x, y));
    }
}

/// One scan step over the layout characters, carrying the rows finished so
/// far and the tiles of the current row. A line break finishes the current
/// row (so a trailing line break adds no empty row); any character other
/// than `#`, `.` and the line break stops the scan at once; the structural
/// checks (at least one row, rectangular, within [`MAX_DIM`]) run at the
/// end.
pub open spec fn scan_layout(s: Seq<char>, i: int, grid: Seq<Seq<Tile>>, row: Seq<Tile>) -> Result<
    (Seq<Seq<Tile>>, int, int),
    MapError,
>
    decreases s.len() - i,
{
    if i < 0 || i >= s.len() {
        let full = if row.len() > 0 {
            grid.push(row)
        } else {
            grid
        };
        if full.len() == 0 {
            Err(MapError::EmptyLayout)
        } else if !is_rect(full) {
            Err(MapError::RaggedRows)
        } else if full.len() > MAX_DIM || full[0].len() > MAX_DIM {
            Err(MapError::TooLarge)
        } else {
            Ok((full, full[0].len() as int, full.len() as int))
        }
    } else if s[i] == '\n' {
        scan_layout(s, i + 1, grid.push(row), Seq::empty())
    } else if s[i] == '#' {
        scan_layout(s, i + 1, grid, row.push(Tile::Wall))
    } else if s[i] == '.' {
        scan_layout(s, i + 1, grid, row.push(Tile::Air))
    } else {
        Err(MapError::InvalidChar)
    }
}

/// What parsing a whole layout yields.
pub open spec fn parse_layout(s: Seq<char>) -> Result<(Seq<Seq<Tile>>, int, int), MapError> {
    scan_layout(s, 0, Seq::empty(), Seq::empty())
}

/// A scan that still has a non-ASCII character ahead of it always reports an
/// invalid character.
proof fn lemma_scan_non_ascii(s: Seq<char>, i: int, grid: Seq<Seq<Tile>>, row: Seq<Tile>)
    requires
        0 <= i,
        exists|j: int| i <= j < s.len() && !('\0' <= #[trigger] s[j] <= '\u{7f}'),
    ensures
        scan_layout(s, i, grid, row) == Err::<(Seq<Seq<Tile>>, int, int), MapError>(
            MapError::InvalidChar,
        ),
    decreases s.len() - i,
{
    let j = choose|j: int| i <= j < s.len() && !('\0' <= #[trigger] s[j] <= '\u{7f}');
    if i == j {
        assert(s[i] != '\n' && s[i] != '#' && s[i] != '.');
    } else {
        assert(i + 1 <= j < s.len() && !('\0' <= s[j] <= '\u{7f}'));
        if s[i] == '\n' {
            lemma_scan_non_ascii(s, i + 1, grid.push(row), Seq::empty());
        } else if s[i] == '#' {
            lemma_scan_non_ascii(s, i + 1, grid, row.push(Tile::Wall));
        } else if s[i] == '.' {
            lemma_scan_non_ascii(s, i + 1, grid, row.push(Tile::Air));
        }
    }
}

/// Converts a string of `#` and `.` rows to a grid of tiles. Returns
/// `(grid, width, height)`, or the reason the layout is rejected: a
/// character other than `#`, `.` and the line break, rows of unequal
/// length, an empty layout, or a dimension beyond [`MAX_DIM`].
pub fn string_to_map(string: &str) -> (r: Result<(Vec<Vec<Tile>>, usize, usize), MapError>)
    ensures
        match r {
            Ok((grid, width, height)) => {
                &&& parse_layout(string@) == Ok::<_, MapError>(
                    (grid_view(grid), width as int, height as int),
                )
                &&& grid_view(grid).len() == height
                &&& grid@.len() == height
                &&& 1 <= height <= MAX_DIM
                &&& width <= MAX_DIM
                &&& forall|y: int|
                    0 <= y < height ==> (#[trigger] grid_view(grid)[y]).len() == width
            },
            Err(e) => parse_layout(string@) == Err::<(Seq<Seq<Tile>>, int, int), MapError>(e),
        },
{
    let ghost s = string@;
    if !string.is_ascii() {
        proof {
            lemma_scan_non_ascii(s, 0, Seq::empty(), Seq::empty());
        }
        return Err(MapError::InvalidChar);
    }
    let n = string.unicode_len();
    let mut grid: Vec<Vec<Tile>> = Vec::new();
    let mut row: Vec<Tile> = Vec::new();
    proof {
        assert(grid_view(grid) =~= Seq::<Seq<Tile>>::empty());
        assert(row@ =~= Seq::<Tile>::empty());
    }
    let mut i: usize = 0;
    while i < n
        invariant
            string.is_ascii(),
            s == string@,
            n == s.len(),
            0 <= i <= n,
            parse_layout(s) == scan_layout(s, i as int, grid_view(grid), row@),
        decreases n - i,
    {
        let b = string.get_ascii(i);
        proof {
            assert('\0' <= s[i as int] <= '\u{7f}');
        }
        if b == 10 {
            proof {
                assert(s[i as int] == '\n');
            }
            let ghost old_grid = grid_view(grid);
            let ghost old_row = row@;
            grid.push(row);
            row = Vec::new();
            proof {
                assert(grid_view(grid) =~= old_grid.push(old_row));
                assert(row@ =~= Seq::<Tile>::empty());
            }
        } else if b == 35 {
            proof {
                assert(s[i as int] == '#');
            }
            row.push(Tile::Wall);
        } else if b == 46 {
            proof {
                assert(s[i as int] == '.');
            }
            row.push(Tile::Air);
        } else {
            proof {
                assert(s[i as int] != '\n' && s[i as int] != '#' && s[i as int] != '.');
            }
            return Err(MapError::InvalidChar);
        }
        i = i + 1;
    }
    let ghost gv0 = grid_view(grid);
    let ghost rowv0 = row@;
    let ghost full = if rowv0.len() > 0 {
        gv0.push(rowv0)
    } else {
        gv0
    };
    proof {
        assert(parse_layout(s) == scan_layout(s, n as int, gv0, rowv0));
    }
    if row.len() > 0 {
        grid.push(row);
        proof {
            assert(grid_view(grid) =~= gv0.push(rowv0));
        }
    }
    proof {
        assert(grid_view(grid) == full);
    }
    let height = grid.len();
    if height == 0 {
        return Err(MapError::EmptyLayout);
    }
    let width = grid[0].len();
    proof {
        assert(grid_view(grid)[0] == grid@[0]@);
    }
    let mut y: usize = 1;
    while y < height
        invariant
            1 <= y <= height,
            s == string@,
            parse_layout(s) == scan_layout(s, s.len() as int, gv0, rowv0),
            full == (if rowv0.len() > 0 {
                gv0.push(rowv0)
            } else {
                gv0
            }),
            grid_view(grid) == full,
            height == full.len(),
            height == grid@.len(),
            width == full[0].len(),
            forall|k: int| 0 <= k < y ==> (#[trigger] full[k]).len() == width,
        decreases height - y,
    {
        proof {
            assert(grid_view(grid)[y as int] == grid@[y as int]@);
        }
        if grid[y].len() != width {
            proof {
                assert(full[y as int].len() != full[0].len());
                assert(!is_rect(full));
                assert(full.len() != 0);
                assert(scan_layout(s, s.len() as int, gv0, rowv0) == Err::<
                    (Seq<Seq<Tile>>, int, int),
                    MapError,
                >(MapError::RaggedRows));
            }
            return Err(MapError::RaggedRows);
        }
        y = y + 1;
    }
    proof {
        assert(is_rect(full));
    }
    if height > MAX_DIM || width > MAX_DIM {
        return Err(MapError::TooLarge);
    }
    Ok((grid, width, height))
}

/// The tile map of one level: the static wall grid plus the cells currently
/// blocked by placed structures and resource patches.
#[derive(Clone, Debug)]
pub struct TileMap {
    /// The static grid, indexed `map[y][x]`.
    pub map: Vec<Vec<Tile>>,
    /// Number of columns of the grid.
    pub width: usize,
    /// Number of rows of the grid.
    pub height: usize,
    /// Cells additionally blocked by structures or resource patches;
    /// disjoint concept from [`Tile::Wall`] but treated identically for
    /// walkability.
    pub blocked: Vec<GridCell>,
}

impl TileMap {
    /// The grid matches the stated dimensions, the dimensions stay within
    /// [`MAX_DIM`], and every blocked cell is in bounds and listed once.
    pub open spec fn wf(self) -> bool {
        &&& grid_view(self.map).len() == self.height
        &&& forall|y: int|
            0 <= y < self.height ==> (#[trigger] grid_view(self.map)[y]).len() == self.width
        &&& self.width <= MAX_DIM
        &&& self.height <= MAX_DIM
        &&& forall|i: int|
            0 <= i < self.blocked@.len() ==> self.in_bounds_spec(
                (#[trigger] self.blocked@[i]).x as int,
                self.blocked@[i].y as int,
            )
        &&& forall|i: int, j: int|
            0 <= i < j < self.blocked@.len() ==> #[trigger] self.blocked@[i]
                != #[trigger] self.blocked@[j]
    }

    /// The cell lies inside the grid.
    pub open spec fn in_bounds_spec(self, x: int, y: int) -> bool {
        0 <= x < self.width && 0 <= y < self.height
    }

    /// The tile stored at an in-bounds cell.
    pub open spec fn tile_at(self, x: int, y: int) -> Tile
        recommends
            self.in_bounds_spec(x, y),
    {
        grid_view(self.map)[y][x]
    }

    /// The cell is in the dynamic blocked set.
    pub open spec fn is_blocked(self, x: int, y: int) -> bool {
        in_cell_list(self.blocked@, x, y)
    }

    /// A cell can be walked on when it is in bounds, its tile is air, and it
    /// is not dynamically blocked.
    pub open spec fn walkable(self, x: int, y: int) -> bool {
        &&& self.in_bounds_spec(x, y)
        &&& self.tile_at(x, y) == Tile::Air
        &&& !self.is_blocked(x, y)
    }

    /// Builds a map, with no blocked cells, from an ASCII layout.
    pub fn from_layout(s: &str) -> (r: Result<TileMap, MapError>)
        ensures
            match r {
                Ok(m) => {
                    &&& m.wf()
                    &&& parse_layout(s@) == Ok::<_, MapError>(
                        (grid_view(m.map), m.width as int, m.height as int),
                    )
                    &&& m.blocked@.len() == 0
                },
                Err(e) => parse_layout(s@) == Err::<(Seq<Seq<Tile>>, int, int), MapError>(e),
            },
    {
        let (map, width, height) = match string_to_map(s) {
            Ok(t) => t,
            Err(e) => {
                return Err(e);
            },
        };
        Ok(TileMap { map, width, height, blocked: Vec::new() })
    }

    /// True iff the cell is inside the grid.
    pub fn in_bounds(&self, loc: &GridCell) -> (r: bool)
        ensures
            r == self.in_bounds_spec(loc.x as int, loc.y as int),
    {
        (loc.x as usize) < self.width && (loc.y as usize) < self.height
    }

    /// Returns the tile at a given cell; callers must bounds-check first via
    /// [`TileMap::in_bounds`].
    pub fn get(&self, loc: &GridCell) -> (r: Tile)
        requires
            self.wf(),
            self.in_bounds_spec(loc.x as int, loc.y as int),
        ensures
            r == self.tile_at(loc.x as int, loc.y as int),
    {
        proof {
            assert(grid_view(self.map)[loc.y as int] == self.map@[loc.y as int]@);
        }
        self.map[loc.y as usize][loc.x as usize]
    }

    /// True iff the cell is in the dynamic blocked set.
    fn contains_blocked(&self, loc: &GridCell) -> (r: bool)
        ensures
            r == self.is_blocked(loc.x as int, loc.y as int),
    {
        cell_list_contains(&self.blocked, loc)
    }

    /// True iff the cell is in bounds, an air tile, and not blocked; always
    /// false for an out-of-bounds cell, regardless of the tile data.
    pub fn is_walkable(&self, loc: &GridCell) -> (r: bool)
        requires
            self.wf(),
        ensures
            r == self.walkable(loc.x as int, loc.y as int),
            !self.in_bounds_spec(loc.x as int, loc.y as int) ==> r == false,
    {
        if !self.in_bounds(loc) {
            return false;
        }
        if !matches!(self.get(loc), Tile::Air) {
            return false;
        }
        !self.contains_blocked(loc)
    }

    /// Adds the given in-bounds cells to the blocked set; idempotent.
    pub fn mark_blocked(&mut self, cells: &Vec<GridCell>)
        requires
            old(self).wf(),
            forall|k: int|
                0 <= k < cells@.len() ==> old(self).in_bounds_spec(
                    (#[trigger] cells@[k]).x as int,
                    cells@[k].y as int,
                ),
        ensures
            final(self).wf(),
            final(self).map == old(self).map,
            final(self).width == old(self).width,
            final(self).height == old(self).height,
            forall|x: int, y: int|
                #[trigger] final(self).is_blocked(x, y) <==> (old(self).is_blocked(x, y)
                    || in_cell_list(cells@, x, y)),
    {
        let mut k: usize = 0;
        while k < cells.len()
            invariant
                0 <= k <= cells@.len(),
                self.wf(),
                self.map == old(self).map,
                self.width == old(self).width,
                self.height == old(self).height,
                forall|kk: int|
                    0 <= kk < cells@.len() ==> self.in_bounds_spec(
                        (#[trigger] cells@[kk]).x as int,
                        cells@[kk].y as int,
                    ),
                forall|x: int, y: int|
                    #[trigger] self.is_blocked(x, y) <==> (old(self).is_blocked(x, y)
                        || in_cell_list(cells@.take(k as int), x, y)),
            decreases cells@.len() - k,
        {
            let c = cells[k];
            let ghost pre = *self;
            if !self.contains_blocked(&c) {
                self.blocked.push(c);
                proof {
                    assert(self.blocked@ == pre.blocked@.push(c));
                    let m = pre.blocked@.len() as int;
                    assert(self.blocked@[m] == c);
                    assert forall|x: int, y: int| #[trigger] self.is_blocked(x, y) implies (
                    pre.is_blocked(x, y) || (c.x == x && c.y == y)) by {
                        let i = choose|i: int|
                            0 <= i < self.blocked@.len() && (#[trigger] self.blocked@[i]).x == x
                                && self.blocked@[i].y == y;
                        if i < m {
                            assert(pre.blocked@[i] == self.blocked@[i]);
                            assert(in_cell_list(pre.blocked@, x, y));
                        }
                    };
                    assert forall|x: int, y: int| (pre.is_blocked(x, y) || (c.x == x && c.y == y))
                        implies #[trigger] self.is_blocked(x, y) by {
                        if pre.is_blocked(x, y) {
                            let i = choose|i: int|
                                0 <= i < pre.blocked@.len() && (#[trigger] pre.blocked@[i]).x == x
                                    && pre.blocked@[i].y == y;
                            assert(self.blocked@[i] == pre.blocked@[i]);
                            assert(in_cell_list(self.blocked@, x, y));
                        } else {
                            assert(self.blocked@[m].x == x && self.blocked@[m].y == y);
                            assert(in_cell_list(self.blocked@, x, y));
                        }
                    };
                    assert forall|i: int, j: int| 0 <= i < j < self.blocked@.len() implies #[
                        trigger] self.blocked@[i] != #[trigger] self.blocked@[j] by {
                        if j == m {
                            assert(self.blocked@[i] == pre.blocked@[i]);
                            assert(!(pre.blocked@[i].x == c.x && pre.blocked@[i].y == c.y));
                        }
                    };
                }
            }
            proof {
                assert forall|x: int, y: int| #[trigger] self.is_blocked(x, y) <==> (old(
                    self,
                ).is_blocked(x, y) || in_cell_list(cells@.take(k + 1), x, y)) by {
                    lemma_in_cell_list_take_step(cells@, k as int, x, y);
                    assert(cells@[k as int] == c);
                };
            }
            k = k + 1;
        }
        proof {
            assert(cells@.take(cells@.len() as int) =~= cells@);
        }
    }

    /// Removes the given cells from the blocked set; idempotent.
    pub fn unmark_blocked(&mut self, cells: &Vec<GridCell>)
        requires
            old(self).wf(),
        ensures
            final(self).wf(),
            final(self).map == old(self).map,
            final(self).width == old(self).width,
            final(self).height == old(self).height,
            forall|x: int, y: int|
                #[trigger] final(self).is_blocked(x, y) <==> (old(self).is_blocked(x, y)
                    && !in_cell_list(cells@, x, y)),
    {
        let mut kept: Vec<GridCell> = Vec::new();
        let mut i: usize = 0;
        while i < self.blocked.len()
            invariant
                *self == *old(self),
                old(self).wf(),
                0 <= i <= self.blocked@.len(),
                forall|j: int|
                    0 <= j < kept@.len() ==> exists|jj: int|
                        0 <= jj < i && #[trigger] kept@[j] == self.blocked@[jj],
                forall|j: int|
                    0 <= j < kept@.len() ==> !in_cell_list(
                        cells@,
                        (#[trigger] kept@[j]).x as int,
                        kept@[j].y as int,
                    ),
                forall|jj: int|
                    0 <= jj < i ==> (in_cell_list(
                        cells@,
                        (#[trigger] self.blocked@[jj]).x as int,
                        self.blocked@[jj].y as int,
                    ) || exists|j: int|
                        0 <= j < kept@.len() && #[trigger] kept@[j] == self.blocked@[jj]),
                forall|j1: int, j2: int|
                    0 <= j1 < j2 < kept@.len() ==> #[trigger] kept@[j1] != #[trigger] kept@[j2],
            decreases self.blocked@.len() - i,
        {
            let c = self.blocked[i];
            let ghost kpre = kept@;
            if !cell_list_contains(cells, &c) {
                proof {
                    assert forall|j: int| 0 <= j < kept@.len() implies #[trigger] kept@[j] != c by {
                        let jj = choose|jj: int|
                            0 <= jj < i && #[trigger] kept@[j] == self.blocked@[jj];
                        assert(self.blocked@[jj] != self.blocked@[i as int]);
                    };
                }
                kept.push(c);
                proof {
                    assert(kept@ == kpre.push(c));
                    assert(kept@[kpre.len() as int] == c);
                    assert forall|jj: int|
                        0 <= jj < i + 1 implies (in_cell_list(
                            cells@,
                            (#[trigger] self.blocked@[jj]).x as int,
                            self.blocked@[jj].y as int,
                        ) || exists|j: int|
                            0 <= j < kept@.len() && #[trigger] kept@[j]
                                == self.blocked@[jj]) by {
                        if jj < i {
                            if !in_cell_list(
                                cells@,
                                self.blocked@[jj].x as int,
                                self.blocked@[jj].y as int,
                            ) {
                                let j = choose|j: int|
                                    0 <= j < kpre.len() && #[trigger] kpre[j]
                                        == self.blocked@[jj];
                                assert(kept@[j] == kpre[j]);
                            }
                        } else {
                            assert(kept@[kpre.len() as int] == self.blocked@[jj]);
                        }
                    };
                    assert forall|j: int|
                        0 <= j < kept@.len() implies exists|jj: int|
                            0 <= jj < i + 1 && #[trigger] kept@[j] == self.blocked@[jj] by {
                        if j < kpre.len() {
                            let jj = choose|jj: int|
                                0 <= jj < i && #[trigger] kpre[j] == self.blocked@[jj];
                            assert(kept@[j] == kpre[j]);
                        } else {
                            assert(kept@[j] == self.blocked@[i as int]);
                        }
                    };
                }
            } else {
                proof {
                    assert(in_cell_list(
                        cells@,
                        self.blocked@[i as int].x as int,
                        self.blocked@[i as int].y as int,
                    ));
                    assert forall|j: int|
                        0 <= j < kept@.len() implies exists|jj: int|
                            0 <= jj < i + 1 && #[trigger] kept@[j] == self.blocked@[jj] by {
                        let jj = choose|jj: int|
                            0 <= jj < i && #[trigger] kept@[j] == self.blocked@[jj];
                    };
                }
            }
            i = i + 1;
        }
        let ghost keptv = kept@;
        let ghost prev = *self;
        self.blocked = kept;
        proof {
            assert forall|x: int, y: int| #[trigger] self.is_blocked(x, y) implies (prev.is_blocked(
                x,
                y,
            ) && !in_cell_list(cells@, x, y)) by {
                let j = choose|j: int|
                    0 <= j < keptv.len() && (#[trigger] keptv[j]).x == x && keptv[j].y == y;
                let jj = choose|jj: int|
                    0 <= jj < prev.blocked@.len() && #[trigger] keptv[j] == prev.blocked@[jj];
                assert(prev.blocked@[jj].x == x && prev.blocked@[jj].y == y);
                assert(in_cell_list(prev.blocked@, x, y));
            };
            assert forall|x: int, y: int| (prev.is_blocked(x, y) && !in_cell_list(cells@, x, y))
                implies #[trigger] self.is_blocked(x, y) by {
                let jj = choose|jj: int|
                    0 <= jj < prev.blocked@.len() && (#[trigger] prev.blocked@[jj]).x == x
                        && prev.blocked@[jj].y == y;
                assert(!in_cell_list(
                    cells@,
                    prev.blocked@[jj].x as int,
                    prev.blocked@[jj].y as int,
                ));
                let j = choose|j: int|
                    0 <= j < keptv.len() && #[trigger] keptv[j] == prev.blocked@[jj];
                assert(keptv[j].x == x && keptv[j].y == y);
                assert(in_cell_list(keptv, x, y));
            };
            assert forall|j: int| 0 <= j < self.blocked@.len() implies self.in_bounds_spec(
                (#[trigger] self.blocked@[j]).x as int,
                self.blocked@[j].y as int,
            ) by {
                let jj = choose|jj: int|
                    0 <= jj < prev.blocked@.len() && #[trigger] keptv[j] == prev.blocked@[jj];
                assert(prev.in_bounds_spec(
                    prev.blocked@[jj].x as int,
                    prev.blocked@[jj].y as int,
                ));
            };
        }
    }

    /// Converts a cell to the collision rectangle covering `width` by
    /// `height` tiles whose top-left tile is that cell.
    pub fn pos_to_rect(pos: &GridCell, width: u32, height: u32) -> (r: CollisionRect)
        ensures
            r.x == pos.x as int * (SQUARE_SIZE as int),
            r.y == pos.y as int * (SQUARE_SIZE as int),
            r.width == width as int * (SQUARE_SIZE as int),
            r.height == height as int * (SQUARE_SIZE as int),
    {
        let world = cell_to_world(pos);
        CollisionRect {
            x: world.x,
            y: world.y,
            width: width as i64 * SQUARE_SIZE,
            height: height as i64 * SQUARE_SIZE,
        }
    }
}

/// True iff the list holds a cell with the given cell's coordinates.
pub fn cell_list_contains(list: &Vec<GridCell>, c: &GridCell) -> (r: bool)
    ensures
        r == in_cell_list(list@, c.x as int, c.y as int),
{
    let mut i: usize = 0;
    while i < list.len()
        invariant
            0 <= i <= list@.len(),
            forall|j: int| 0 <= j < i ==> !((#[trigger] list@[j]).x == c.x && list@[j].y == c.y),
        decreases list@.len() - i,
    {
        let e = list[i];
        if e.x == c.x && e.y == c.y {
            return true;
        }
        i = i + 1;
    }
    false
}

/// Inverse of [`world_to_cell`] on in-bounds cells: converts a cell to the
/// world position of its top-left corner.
pub fn cell_to_world(loc: &GridCell) -> (r: WorldPos)
    ensures
        r.x == loc.x as int * (SQUARE_SIZE as int),
        r.y == loc.y as int * (SQUARE_SIZE as int),
{
    WorldPos { x: loc.x as i64 * SQUARE_SIZE, y: loc.y as i64 * SQUARE_SIZE }
}

/// One axis of [`world_to_cell`]: division by the tile size, truncated
/// toward zero and saturated to the `u32` range.
pub open spec fn world_axis_to_cell(w: int) -> int {
    if w <= 0 {
        0
    } else if w / (SQUARE_SIZE as int) > u32::MAX {
        u32::MAX as int
    } else {
        w / (SQUARE_SIZE as int)
    }
}

/// Inverse of [`cell_to_world`]: converts a world position to the cell that
/// contains it, truncating toward zero and saturating to the `u32` range.
pub fn world_to_cell(pos: &WorldPos) -> (r: GridCell)
    ensures
        r.x == world_axis_to_cell(pos.x as int),
        r.y == world_axis_to_cell(pos.y as int),
{
    GridCell { x: world_axis_to_cell64(pos.x), y: world_axis_to_cell64(pos.y) }
}

/// One exec axis of [`world_to_cell`].
fn world_axis_to_cell64(w: i64) -> (r: u32)
    ensures
        r == world_axis_to_cell(w as int),
{
    if w <= 0 {
        0
    } else {
        let q = w / SQUARE_SIZE;
        if q > 0xFFFF_FFFF {
            0xFFFF_FFFF
        } else {
            q as u32
        }
    }
}

/// Converting a cell to world coordinates and back yields the same cell.
pub proof fn lemma_cell_world_round_trip(c: GridCell)
    ensures
        world_axis_to_cell(c.x as int * (SQUARE_SIZE as int)) == c.x as int,
        world_axis_to_cell(c.y as int * (SQUARE_SIZE as int)) == c.y as int,
{
    assert(c.x as int * (SQUARE_SIZE as int) / (SQUARE_SIZE as int) == c.x as int)
        by (nonlinear_arith);
    assert(c.y as int * (SQUARE_SIZE as int) / (SQUARE_SIZE as int) == c.y as int)
        by (nonlinear_arith);
}

} // verus!
