//! The maze grid: logical cells laid over a raster, and their growth.

use vstd::prelude::*;
use crate::raster::{Color, Raster, raster_pixels, pixel_domain, blank, raster_new, raster_get, raster_put};
use crate::random::{Direction, random_below};

verus! {

/// A cell position on the logical grid.
#[derive(Clone, Copy, PartialEq, Eq, Structural, Debug)]
pub struct Coord {
    pub x: u32,
    pub y: u32,
}

/// The state of a cell, as read from the color of its top-left pixel.
#[derive(Clone, Copy, PartialEq, Eq, Structural, Debug)]
pub enum CellKind {
    Wall,
    Path,
    Undefined,
}

/// The color of passage cells.
pub open spec fn path_color() -> Color {
    Color { r: 253, g: 246, b: 227 }
}

/// The color of wall cells and of the uncovered border strips.
pub open spec fn wall_color() -> Color {
    Color { r: 7, g: 54, b: 66 }
}

/// The cell state that a pixel color stands for.
pub open spec fn classify(c: Color) -> CellKind {
    if c == wall_color() {
        CellKind::Wall
    } else if c == path_color() {
        CellKind::Path
    } else {
        CellKind::Undefined
    }
}

/// Whether two cells are 4-adjacent.
pub open spec fn adjacent(a: (int, int), b: (int, int)) -> bool {
    ||| a.0 == b.0 && (a.1 == b.1 + 1 || b.1 == a.1 + 1)
    ||| a.1 == b.1 && (a.0 == b.0 + 1 || b.0 == a.0 + 1)
}

/// The cell one step from `c` in direction `d` on a `gw` by `gh` grid, if it stays
/// on the grid.
pub open spec fn neighbor(c: Coord, d: Direction, gw: u32, gh: u32) -> Option<Coord> {
    match d {
        Direction::Up => if c.y == 0 {
            None
        } else {
            Some(Coord { x: c.x, y: (c.y - 1) as u32 })
        },
        Direction::Down => if c.y + 1 >= gh {
            None
        } else {
            Some(Coord { x: c.x, y: (c.y + 1) as u32 })
        },
        Direction::Left => if c.x == 0 {
            None
        } else {
            Some(Coord { x: (c.x - 1) as u32, y: c.y })
        },
        Direction::Right => if c.x + 1 >= gw {
            None
        } else {
            Some(Coord { x: (c.x + 1) as u32, y: c.y })
        },
    }
}

/// Whether pixel `p` lies in the `s` by `s` block of cell `c`.
pub open spec fn in_block(s: int, c: Coord, p: (int, int)) -> bool {
    &&& c.x * s <= p.0 < c.x * s + s
    &&& c.y * s <= p.1 < c.y * s + s
}

/// A grid of `cell_size`-pixel cells laid over a raster; each cell's state is the
/// color of its top-left pixel.
pub struct Maze {
    pub img: Raster,
    pub pixel_size: u32,
    pub width: u32,
    pub height: u32,
    pub grid_width: u32,
    pub grid_height: u32,
    pub path_color: Color,
    pub wall_color: Color,
}

impl Maze {
    /// The raster's pixels.
    pub open spec fn pixels(&self) -> Map<(int, int), Color> {
        raster_pixels(self.img)
    }

    /// The grid covers the raster in whole cells and the colors are the fixed ones.
    pub open spec fn wf(&self) -> bool {
        &&& self.pixel_size >= 1
        &&& self.grid_width == self.width / self.pixel_size
        &&& self.grid_height == self.height / self.pixel_size
        &&& self.pixels().dom() == pixel_domain(self.width as int, self.height as int)
        &&& self.path_color == path_color()
        &&& self.wall_color == wall_color()
    }

    /// Both mazes have the same raster and grid dimensions.
    pub open spec fn same_grid(&self, o: &Maze) -> bool {
        &&& self.pixel_size == o.pixel_size
        &&& self.width == o.width
        &&& self.height == o.height
        &&& self.grid_width == o.grid_width
        &&& self.grid_height == o.grid_height
    }

    pub open spec fn in_grid(&self, x: int, y: int) -> bool {
        0 <= x < self.grid_width && 0 <= y < self.grid_height
    }

    /// The state of cell `(x, y)`; cells off the grid are `Undefined`.
    pub open spec fn kind(&self, x: int, y: int) -> CellKind {
        if self.in_grid(x, y) {
            classify(self.pixels()[(x * self.pixel_size, y * self.pixel_size)])
        } else {
            CellKind::Undefined
        }
    }

    pub open spec fn is_path_cell(&self, p: (int, int)) -> bool {
        self.kind(p.0, p.1) == CellKind::Path
    }

    /// One if cell `(x, y)` is `Undefined`, else zero.
    pub open spec fn undefined_at(&self, x: int, y: int) -> int {
        if self.kind(x, y) == CellKind::Undefined {
            1
        } else {
            0
        }
    }

    /// The number of `Undefined` cells among the first `n` of row `y`.
    pub open spec fn undefined_in_row(&self, y: int, n: int) -> int
        decreases n,
    {
        if n <= 0 {
            0
        } else {
            self.undefined_in_row(y, n - 1) + self.undefined_at(n - 1, y)
        }
    }

    /// The number of `Undefined` cells in the first `m` rows.
    pub open spec fn undefined_in_rows(&self, m: int) -> int
        decreases m,
    {
        if m <= 0 {
            0
        } else {
            self.undefined_in_rows(m - 1) + self.undefined_in_row(m - 1, self.grid_width as int)
        }
    }

    /// The number of `Undefined` cells on the grid.
    pub open spec fn undefined_count(&self) -> int {
        self.undefined_in_rows(self.grid_height as int)
    }

    /// `w` is a walk over passage cells from the start cell `(0, 0)`.
    pub open spec fn is_walk(&self, w: Seq<(int, int)>) -> bool {
        &&& w.len() > 0
        &&& w[0] == (0int, 0int)
        &&& forall|i: int| 0 <= i < w.len() ==> self.is_path_cell(#[trigger] w[i])
        &&& forall|i: int| 0 <= i < w.len() - 1 ==> adjacent(#[trigger] w[i], w[i + 1])
    }

    /// Cell `p` is reached from the start cell through passage cells.
    pub open spec fn reachable(&self, p: (int, int)) -> bool {
        exists|w: Seq<(int, int)>| #[trigger] self.is_walk(w) && w.last() == p
    }

    /// Every passage cell is reached from the start cell through passage cells.
    pub open spec fn paths_connected(&self) -> bool {
        forall|p: (int, int)| #[trigger] self.is_path_cell(p) ==> self.reachable(p)
    }

    /// Some cell 4-adjacent to `(x, y)` is a passage.
    pub open spec fn touches_path(&self, x: int, y: int) -> bool {
        ||| self.is_path_cell((x - 1, y))
        ||| self.is_path_cell((x + 1, y))
        ||| self.is_path_cell((x, y - 1))
        ||| self.is_path_cell((x, y + 1))
    }

    /// Some cell 4-adjacent to `c` is a passage.
    pub open spec fn has_path_neighbor(&self, c: Coord) -> bool {
        self.touches_path(c.x as int, c.y as int)
    }

    /// Every wall cell touches a passage.
    pub open spec fn walls_touch_paths(&self) -> bool {
        forall|x: int, y: int| #[trigger] self.kind(x, y) == CellKind::Wall ==> self.touches_path(x, y)
    }

    /// Every pixel of a grid cell's block has the color of the cell's top-left pixel.
    pub open spec fn blocks_uniform(&self) -> bool {
        forall|n: Coord, p: (int, int)|
            self.in_grid(n.x as int, n.y as int) && #[trigger] in_block(self.pixel_size as int, n, p)
                ==> self.pixels()[p] == self.pixels()[(n.x * self.pixel_size, n.y * self.pixel_size)]
    }

    /// Pixel `p` lies in the part of the raster that the whole cells cover.
    pub open spec fn in_cells(&self, p: (int, int)) -> bool {
        p.0 < self.grid_width * self.pixel_size && p.1 < self.grid_height * self.pixel_size
    }

    /// The pixels that no whole cell covers hold what they hold in `o`.
    pub open spec fn outside_cells_kept(&self, o: &Maze) -> bool {
        forall|p: (int, int)| #[trigger]
            self.pixels().contains_key(p) && !self.in_cells(p) ==> self.pixels()[p] == o.pixels()[p]
    }

    /// The neighbor of `w` in direction `d` that a growth step joins: the one on the
    /// grid, if it is still `Undefined`.
    pub open spec fn growth_target(&self, w: Coord, d: Direction) -> Option<Coord> {
        match neighbor(w, d, self.grid_width, self.grid_height) {
            Some(c) => if self.kind(c.x as int, c.y as int) == CellKind::Undefined {
                Some(c)
            } else {
                None
            },
            None => None,
        }
    }

    /// Every frontier cell is on the grid and touches a passage.
    pub open spec fn frontier_ok(&self, walls: Seq<Coord>) -> bool {
        forall|i: int|
            0 <= i < walls.len() ==> self.in_grid(#[trigger] walls[i].x as int, walls[i].y as int)
                && self.has_path_neighbor(walls[i])
    }

    /// The neighbor of `c` in direction `d` that a frontier expansion turns into a
    /// wall: the one on the grid, if it is still `Undefined`.
    pub open spec fn fresh_wall(&self, c: Coord, d: Direction) -> Seq<Coord> {
        match neighbor(c, d, self.grid_width, self.grid_height) {
            Some(n) => if self.kind(n.x as int, n.y as int) == CellKind::Undefined {
                seq![n]
            } else {
                seq![]
            },
            None => seq![],
        }
    }

    /// The cells that expanding the frontier around `c` adds, in the order up, down,
    /// left, right.
    pub open spec fn fresh_walls(&self, c: Coord) -> Seq<Coord> {
        self.fresh_wall(c, Direction::Up) + self.fresh_wall(c, Direction::Down)
            + self.fresh_wall(c, Direction::Left) + self.fresh_wall(c, Direction::Right)
    }

    /// Pixel `p` lies in the block of the cell that `fresh_wall(c, d)` holds.
    pub open spec fn in_fresh_wall_block(&self, c: Coord, d: Direction, p: (int, int)) -> bool {
        self.fresh_wall(c, d).len() == 1 && in_block(
            self.pixel_size as int,
            self.fresh_wall(c, d)[0],
            p,
        )
    }

    /// Pixel `p` lies in the block of one of the cells that `fresh_walls(c)` holds.
    pub open spec fn in_fresh_blocks(&self, c: Coord, p: (int, int)) -> bool {
        ||| self.in_fresh_wall_block(c, Direction::Up, p)
        ||| self.in_fresh_wall_block(c, Direction::Down, p)
        ||| self.in_fresh_wall_block(c, Direction::Left, p)
        ||| self.in_fresh_wall_block(c, Direction::Right, p)
    }

    /// No 4-neighbor of `c` on the grid is `Undefined`.
    pub open spec fn neighbors_resolved(&self, c: Coord) -> bool {
        forall|x: int, y: int|
            adjacent((x, y), (c.x as int, c.y as int)) && self.in_grid(x, y) ==> #[trigger] self.kind(
                x,
                y,
            ) != CellKind::Undefined
    }

    /// The pixel color that the raster holds at `p` before any cell is painted: the
    /// strips right of and below the last whole cells are walls, the rest is blank.
    pub open spec fn initial_pixel(&self, p: (int, int)) -> Color {
        if p.0 >= self.grid_width * self.pixel_size || p.1 >= self.grid_height
            * self.pixel_size {
            wall_color()
        } else {
            blank()
        }
    }

    /// A grid of `pixel_size`-pixel cells over a blank `width` by `height` raster,
    /// with the strips that no whole cell covers painted as walls.
    pub fn new(width: u32, height: u32, pixel_size: u32) -> (m: Maze)
        requires
            pixel_size >= 1,
            3 * (width as int) * (height as int) <= isize::MAX,
        ensures
            m.wf(),
            m.width == width,
            m.height == height,
            m.pixel_size == pixel_size,
            forall|p: (int, int)| #[trigger]
                m.pixels().contains_key(p) ==> m.pixels()[p] == m.initial_pixel(p),
            forall|x: int, y: int| #[trigger] m.kind(x, y) == CellKind::Undefined,
            m.blocks_uniform(),
    {
        let mut m = Maze {
            width: width,
            height: height,
            grid_width: width / pixel_size,
            grid_height: height / pixel_size,
            pixel_size: pixel_size,
            img: raster_new(width, height),
            path_color: Color { r: 253, g: 246, b: 227 },
            wall_color: Color { r: 7, g: 54, b: 66 },
        };
        proof {
            lemma_whole_cells(width as int, pixel_size as int);
            lemma_whole_cells(height as int, pixel_size as int);
        }
        let covered_w = m.grid_width * m.pixel_size;
        let covered_h = m.grid_height * m.pixel_size;
        let mut x: u32 = covered_w;
        while x < width
            invariant
                m.wf(),
                m.width == width,
                m.height == height,
                m.pixel_size == pixel_size,
                covered_w == m.grid_width * m.pixel_size,
                covered_h == m.grid_height * m.pixel_size,
                covered_w <= x <= width,
                forall|p: (int, int)| #[trigger]
                    m.pixels().contains_key(p) ==> m.pixels()[p] == if covered_w <= p.0 < x {
                        wall_color()
                    } else {
                        blank()
                    },
            decreases width - x,
        {
            let mut y: u32 = 0;
            while y < height
                invariant
                    m.wf(),
                    m.width == width,
                    m.height == height,
                    m.pixel_size == pixel_size,
                    covered_w <= x < width,
                    y <= height,
                    forall|p: (int, int)| #[trigger]
                        m.pixels().contains_key(p) ==> m.pixels()[p] == if covered_w <= p.0 < x
                            || (p.0 == x && p.1 < y) {
                            wall_color()
                        } else {
                            blank()
                        },
                decreases height - y,
            {
                let wall = m.wall_color;
                m.put(x, y, wall);
                y = y + 1;
            }
            x = x + 1;
        }
        let mut y: u32 = covered_h;
        while y < height
            invariant
                m.wf(),
                m.width == width,
                m.height == height,
                m.pixel_size == pixel_size,
                covered_w == m.grid_width * m.pixel_size,
                covered_h == m.grid_height * m.pixel_size,
                covered_h <= y <= height,
                forall|p: (int, int)| #[trigger]
                    m.pixels().contains_key(p) ==> m.pixels()[p] == if p.0 >= covered_w
                        || covered_h <= p.1 < y {
                        wall_color()
                    } else {
                        blank()
                    },
            decreases height - y,
        {
            let mut x: u32 = 0;
            while x < width
                invariant
                    m.wf(),
                    m.width == width,
                    m.height == height,
                    m.pixel_size == pixel_size,
                    covered_w == m.grid_width * m.pixel_size,
                    covered_h <= y < height,
                    x <= width,
                    forall|p: (int, int)| #[trigger]
                        m.pixels().contains_key(p) ==> m.pixels()[p] == if p.0 >= covered_w
                            || covered_h <= p.1 < y || (p.1 == y && p.0 < x) {
                            wall_color()
                        } else {
                            blank()
                        },
                decreases width - x,
            {
                let wall = m.wall_color;
                m.put(x, y, wall);
                x = x + 1;
            }
            y = y + 1;
        }
        proof {
            assert forall|cx: int, cy: int| #[trigger] m.kind(cx, cy) == CellKind::Undefined by {
                if m.in_grid(cx, cy) {
                    lemma_cell_fits(width as int, pixel_size as int, cx);
                    lemma_cell_fits(height as int, pixel_size as int, cy);
                    assert(m.pixels().contains_key((cx * pixel_size, cy * pixel_size)));
                }
            }
            assert forall|n: Coord, p: (int, int)|
                m.in_grid(n.x as int, n.y as int) && #[trigger] in_block(pixel_size as int, n, p) implies m.pixels()[p]
                == m.pixels()[(n.x * pixel_size, n.y * pixel_size)] by {
                lemma_cell_fits(width as int, pixel_size as int, n.x as int);
                lemma_cell_fits(height as int, pixel_size as int, n.y as int);
                assert(m.pixels().contains_key(p));
                assert(m.pixels().contains_key((n.x * pixel_size, n.y * pixel_size)));
            }
        }
        m
    }

    /// Sets one pixel of the raster.
    fn put(&mut self, x: u32, y: u32, c: Color)
        requires
            old(self).wf(),
            x < old(self).width,
            y < old(self).height,
        ensures
            final(self).wf(),
            final(self).same_grid(old(self)),
            final(self).pixels() == old(self).pixels().insert((x as int, y as int), c),
    {
        raster_put(&mut self.img, x, y, c);
        proof {
            assert(self.pixels().dom() =~= pixel_domain(self.width as int, self.height as int));
        }
    }

    /// The color of pixel `(x, y)`.
    pub fn pixel(&self, x: u32, y: u32) -> (c: Color)
        requires
            self.wf(),
            x < self.width,
            y < self.height,
        ensures
            c == self.pixels()[(x as int, y as int)],
    {
        raster_get(&self.img, x, y)
    }

    /// The state of cell `c`, read from its top-left pixel.
    pub fn cell_kind(&self, c: &Coord) -> (k: CellKind)
        requires
            self.wf(),
        ensures
            k == self.kind(c.x as int, c.y as int),
    {
        if c.x >= self.grid_width || c.y >= self.grid_height {
            return CellKind::Undefined;
        }
        proof {
            lemma_cell_fits(self.width as int, self.pixel_size as int, c.x as int);
            lemma_cell_fits(self.height as int, self.pixel_size as int, c.y as int);
        }
        let p = self.pixel(c.x * self.pixel_size, c.y * self.pixel_size);
        if p == self.wall_color {
            CellKind::Wall
        } else if p == self.path_color {
            CellKind::Path
        } else {
            CellKind::Undefined
        }
    }

    /// Fills the whole block of cell `c` with `color`.
    fn paint_cell(&mut self, c: &Coord, color: Color)
        requires
            old(self).wf(),
            old(self).in_grid(c.x as int, c.y as int),
            classify(color) != CellKind::Undefined,
        ensures
            old(self).blocks_uniform() ==> final(self).blocks_uniform(),
            old(self).undefined_count() == final(self).undefined_count() + old(self).undefined_at(
                c.x as int,
                c.y as int,
            ),
            final(self).wf(),
            final(self).same_grid(old(self)),
            forall|p: (int, int)| #[trigger]
                final(self).pixels().contains_key(p) ==> final(self).pixels()[p] == if in_block(
                    old(self).pixel_size as int,
                    *c,
                    p,
                ) {
                    color
                } else {
                    old(self).pixels()[p]
                },
            forall|x: int, y: int| #[trigger]
                final(self).kind(x, y) == if x == c.x && y == c.y {
                    classify(color)
                } else {
                    old(self).kind(x, y)
                },
    {
        let s = self.pixel_size;
        proof {
            lemma_cell_fits(self.width as int, s as int, c.x as int);
            lemma_cell_fits(self.height as int, s as int, c.y as int);
        }
        let x0 = c.x * s;
        let y0 = c.y * s;
        let mut i: u32 = 0;
        while i < s
            invariant
                self.wf(),
                self.same_grid(old(self)),
                s == self.pixel_size,
                x0 == c.x * s,
                y0 == c.y * s,
                x0 + s <= self.width,
                y0 + s <= self.height,
                i <= s,
                forall|p: (int, int)| #[trigger]
                    self.pixels().contains_key(p) ==> self.pixels()[p] == if x0 <= p.0 < x0 + i
                        && y0 <= p.1 < y0 + s {
                        color
                    } else {
                        old(self).pixels()[p]
                    },
            decreases s - i,
        {
            let mut j: u32 = 0;
            while j < s
                invariant
                    self.wf(),
                    self.same_grid(old(self)),
                    s == self.pixel_size,
                    x0 + s <= self.width,
                    y0 + s <= self.height,
                    i < s,
                    j <= s,
                    forall|p: (int, int)| #[trigger]
                        self.pixels().contains_key(p) ==> self.pixels()[p] == if (x0 <= p.0 < x0 + i
                            && y0 <= p.1 < y0 + s) || (p.0 == x0 + i && y0 <= p.1 < y0 + j) {
                            color
                        } else {
                            old(self).pixels()[p]
                        },
                decreases s - j,
            {
                self.put(x0 + i, y0 + j, color);
                j = j + 1;
            }
            i = i + 1;
        }
        proof {
            assert forall|x: int, y: int| #[trigger]
                self.kind(x, y) == if x == c.x && y == c.y {
                    classify(color)
                } else {
                    old(self).kind(x, y)
                } by {
                if self.in_grid(x, y) {
                    lemma_block_origin(s as int, *c, x, y);
                    lemma_cell_fits(self.width as int, s as int, x);
                    lemma_cell_fits(self.height as int, s as int, y);
                    assert(self.pixels().contains_key((x * s, y * s)));
                }
            }
            lemma_count_change(*old(self), *self, c.x as int, c.y as int);
            if old(self).blocks_uniform() {
                assert forall|n: Coord, p: (int, int)|
                    self.in_grid(n.x as int, n.y as int) && #[trigger] in_block(s as int, n, p) implies self.pixels()[p]
                    == self.pixels()[(n.x * s, n.y * s)] by {
                    lemma_cell_fits(self.width as int, s as int, n.x as int);
                    lemma_cell_fits(self.height as int, s as int, n.y as int);
                    lemma_block_origin(s as int, *c, n.x as int, n.y as int);
                    assert(self.pixels().contains_key((n.x * s, n.y * s)));
                    assert(self.pixels().contains_key(p));
                    assert(old(self).in_grid(n.x as int, n.y as int) && in_block(old(self).pixel_size as int, n, p));
                    if in_block(s as int, *c, p) {
                        lemma_blocks_disjoint(s as int, n, *c, p);
                    }
                }
            }
        }
    }

    /// Paints cell `c` as a passage.
    pub fn draw_path(&mut self, c: &Coord)
        requires
            old(self).wf(),
            old(self).in_grid(c.x as int, c.y as int),
        ensures
            old(self).blocks_uniform() ==> final(self).blocks_uniform(),
            forall|p: (int, int)| #[trigger]
                final(self).pixels().contains_key(p) ==> final(self).pixels()[p] == if in_block(
                    old(self).pixel_size as int,
                    *c,
                    p,
                ) {
                    path_color()
                } else {
                    old(self).pixels()[p]
                },
            old(self).undefined_count() == final(self).undefined_count() + old(self).undefined_at(
                c.x as int,
                c.y as int,
            ),
            final(self).wf(),
            final(self).same_grid(old(self)),
            forall|x: int, y: int| #[trigger]
                final(self).kind(x, y) == if x == c.x && y == c.y {
                    CellKind::Path
                } else {
                    old(self).kind(x, y)
                },
    {
        let color = self.path_color;
        self.paint_cell(c, color);
    }

    /// Paints cell `c` as a wall.
    pub fn draw_wall(&mut self, c: &Coord)
        requires
            old(self).wf(),
            old(self).in_grid(c.x as int, c.y as int),
        ensures
            old(self).blocks_uniform() ==> final(self).blocks_uniform(),
            forall|p: (int, int)| #[trigger]
                final(self).pixels().contains_key(p) ==> final(self).pixels()[p] == if in_block(
                    old(self).pixel_size as int,
                    *c,
                    p,
                ) {
                    wall_color()
                } else {
                    old(self).pixels()[p]
                },
            old(self).undefined_count() == final(self).undefined_count() + old(self).undefined_at(
                c.x as int,
                c.y as int,
            ),
            final(self).wf(),
            final(self).same_grid(old(self)),
            forall|x: int, y: int| #[trigger]
                final(self).kind(x, y) == if x == c.x && y == c.y {
                    CellKind::Wall
                } else {
                    old(self).kind(x, y)
                },
    {
        let color = self.wall_color;
        self.paint_cell(c, color);
    }

    /// The cell above `c`, if any.
    pub fn get_coord_up(&self, c: &Coord) -> (r: Option<Coord>)
        ensures
            r == neighbor(*c, Direction::Up, self.grid_width, self.grid_height),
    {
        if c.y == 0 {
            None
        } else {
            Some(Coord { x: c.x, y: c.y - 1 })
        }
    }

    /// The cell below `c`, if it is on the grid.
    pub fn get_coord_down(&self, c: &Coord) -> (r: Option<Coord>)
        ensures
            r == neighbor(*c, Direction::Down, self.grid_width, self.grid_height),
    {
        if self.grid_height == 0 || c.y >= self.grid_height - 1 {
            None
        } else {
            Some(Coord { x: c.x, y: c.y + 1 })
        }
    }

    /// The cell left of `c`, if any.
    pub fn get_coord_left(&self, c: &Coord) -> (r: Option<Coord>)
        ensures
            r == neighbor(*c, Direction::Left, self.grid_width, self.grid_height),
    {
        if c.x == 0 {
            None
        } else {
            Some(Coord { x: c.x - 1, y: c.y })
        }
    }

    /// The cell right of `c`, if it is on the grid.
    pub fn get_coord_right(&self, c: &Coord) -> (r: Option<Coord>)
        ensures
            r == neighbor(*c, Direction::Right, self.grid_width, self.grid_height),
    {
        if self.grid_width == 0 || c.x >= self.grid_width - 1 {
            None
        } else {
            Some(Coord { x: c.x + 1, y: c.y })
        }
    }

    /// The cell one step from `c` in direction `dir`, if it is on the grid.
    pub fn get_coord_next(&self, c: &Coord, dir: Direction) -> (r: Option<Coord>)
        ensures
            r == neighbor(*c, dir, self.grid_width, self.grid_height),
    {
        match dir {
            Direction::Up => self.get_coord_up(c),
            Direction::Down => self.get_coord_down(c),
            Direction::Left => self.get_coord_left(c),
            Direction::Right => self.get_coord_right(c),
        }
    }

    /// Turns the neighbor of `c` in direction `d` into a wall and queues it, if it is
    /// on the grid and still `Undefined`.
    fn add_wall_toward(&mut self, c: &Coord, d: Direction, walls: &mut Vec<Coord>)
        requires
            old(self).wf(),
            old(self).in_grid(c.x as int, c.y as int),
        ensures
            old(self).blocks_uniform() ==> final(self).blocks_uniform(),
            final(self).wf(),
            final(self).same_grid(old(self)),
            final(walls)@ == old(walls)@ + old(self).fresh_wall(*c, d),
            old(self).undefined_count() == final(self).undefined_count() + old(self).fresh_wall(*c, d).len(),
            forall|p: (int, int)| #[trigger]
                final(self).pixels().contains_key(p) ==> final(self).pixels()[p] == if old(self).in_fresh_wall_block(*c, d, p) {
                    wall_color()
                } else {
                    old(self).pixels()[p]
                },
            match neighbor(*c, d, old(self).grid_width, old(self).grid_height) {
                Some(n) => final(self).kind(n.x as int, n.y as int) != CellKind::Undefined,
                None => true,
            },
            forall|x: int, y: int| #[trigger]
                final(self).kind(x, y) == if old(self).fresh_wall(*c, d).len() == 1 && x
                    == old(self).fresh_wall(*c, d)[0].x && y == old(self).fresh_wall(*c, d)[0].y {
                    CellKind::Wall
                } else {
                    old(self).kind(x, y)
                },
    {
        let o = self.get_coord_next(c, d);
        if let Some(w) = o {
            if self.cell_kind(&w) == CellKind::Undefined {
                self.draw_wall(&w);
                walls.push(w);
                proof {
                    assert(final(walls)@ =~= old(walls)@ + old(self).fresh_wall(*c, d));
                }
            } else {
                proof {
                    assert(final(walls)@ =~= old(walls)@ + old(self).fresh_wall(*c, d));
                }
            }
        } else {
            proof {
                assert(final(walls)@ =~= old(walls)@ + old(self).fresh_wall(*c, d));
            }
        }
    }

    /// Turns each `Undefined` grid neighbor of `c` into a wall and queues it on the
    /// frontier.
    pub fn add_walls_around(&mut self, c: &Coord, walls: &mut Vec<Coord>)
        requires
            old(self).wf(),
            old(self).in_grid(c.x as int, c.y as int),
        ensures
            old(self).blocks_uniform() ==> final(self).blocks_uniform(),
            final(self).wf(),
            final(self).same_grid(old(self)),
            final(walls)@ == old(walls)@ + old(self).fresh_walls(*c),
            old(self).undefined_count() == final(self).undefined_count() + old(self).fresh_walls(*c).len(),
            forall|i: int|
                0 <= i < old(self).fresh_walls(*c).len() ==> {
                    let n = #[trigger] old(self).fresh_walls(*c)[i];
                    &&& old(self).in_grid(n.x as int, n.y as int)
                    &&& adjacent((n.x as int, n.y as int), (c.x as int, c.y as int))
                    &&& old(self).kind(n.x as int, n.y as int) == CellKind::Undefined
                    &&& final(self).kind(n.x as int, n.y as int) == CellKind::Wall
                },
            forall|p: (int, int)| #[trigger]
                final(self).pixels().contains_key(p) ==> final(self).pixels()[p] == if old(self).in_fresh_blocks(*c, p) {
                    wall_color()
                } else {
                    old(self).pixels()[p]
                },
            final(self).neighbors_resolved(*c),
            forall|x: int, y: int| #[trigger]
                final(self).kind(x, y) == old(self).kind(x, y) || (old(self).kind(x, y)
                    == CellKind::Undefined && final(self).kind(x, y) == CellKind::Wall
                    && adjacent((x, y), (c.x as int, c.y as int))),
    {
        let ghost s0 = *self;
        self.add_wall_toward(c, Direction::Up, walls);
        let ghost s1 = *self;
        self.add_wall_toward(c, Direction::Down, walls);
        let ghost s2 = *self;
        self.add_wall_toward(c, Direction::Left, walls);
        let ghost s3 = *self;
        self.add_wall_toward(c, Direction::Right, walls);
        proof {
            assert(s1.fresh_wall(*c, Direction::Down) == s0.fresh_wall(*c, Direction::Down));
            assert(s2.fresh_wall(*c, Direction::Left) == s0.fresh_wall(*c, Direction::Left));
            assert(s3.fresh_wall(*c, Direction::Right) == s0.fresh_wall(*c, Direction::Right));
            assert(final(walls)@ =~= old(walls)@ + s0.fresh_walls(*c));
            assert forall|x: int, y: int|
                adjacent((x, y), (c.x as int, c.y as int)) && self.in_grid(x, y) implies #[trigger] self.kind(
                    x,
                    y,
                ) != CellKind::Undefined by {
                if x == c.x && y + 1 == c.y {
                    assert(s1.kind(x, y) != CellKind::Undefined);
                    assert(s2.kind(x, y) != CellKind::Undefined);
                    assert(s3.kind(x, y) != CellKind::Undefined);
                } else if x == c.x && y == c.y + 1 {
                    assert(s2.kind(x, y) != CellKind::Undefined);
                    assert(s3.kind(x, y) != CellKind::Undefined);
                } else if x + 1 == c.x && y == c.y {
                    assert(s3.kind(x, y) != CellKind::Undefined);
                }
            }
        }
    }

    /// Grows a maze from the start cell `(0, 0)` with randomized Prim's algorithm:
    /// a frontier cell drawn at random becomes a passage, together with its neighbor
    /// in a random direction, when that neighbor is still `Undefined`.
    /// Each round draws a frontier index and a direction and hands them to
    /// `grow_step`, until the frontier is empty.
    pub fn randomized_prim(&mut self, rng: &mut rand::rngs::StdRng)
        requires
            old(self).wf(),
        ensures
            old(self).blocks_uniform() ==> final(self).blocks_uniform(),
            final(self).wf(),
            final(self).same_grid(old(self)),
            old(self).grid_width >= 1 && old(self).grid_height >= 1 ==> final(self).is_path_cell((0, 0)),
            old(self).grid_width >= 1 && old(self).grid_height >= 1 ==> final(self).neighbors_resolved(
                Coord { x: 0, y: 0 },
            ),
            old(self).grid_width == 0 || old(self).grid_height == 0 ==> final(self).pixels()
                == old(self).pixels(),
            final(self).outside_cells_kept(old(self)),
            (forall|x: int, y: int| #[trigger] old(self).kind(x, y) != CellKind::Path) ==> final(self).paths_connected(),
            (forall|x: int, y: int| #[trigger] old(self).kind(x, y) != CellKind::Wall) ==> final(self).walls_touch_paths(),
    {
        if self.grid_width == 0 || self.grid_height == 0 {
            return;
        }
        let ghost no_paths = forall|x: int, y: int| #[trigger] old(self).kind(x, y) != CellKind::Path;
        let ghost no_walls = forall|x: int, y: int| #[trigger] old(self).kind(x, y) != CellKind::Wall;
        let mut walls: Vec<Coord> = Vec::new();
        let start = Coord { x: 0, y: 0 };
        self.draw_path(&start);
        let ghost s1 = *self;
        self.add_walls_around(&start, &mut walls);
        proof {
            lemma_changes_inside_cells(*old(self), s1, start);
            lemma_fresh_inside_cells(s1, *self, start);
            assert(self.is_walk(seq![(0int, 0int)]));
            if no_paths {
                assert forall|p: (int, int)| #[trigger] self.is_path_cell(p) implies self.reachable(
                    p,
                ) by {
                    assert(old(self).kind(p.0, p.1) != CellKind::Path);
                    assert(p == (0int, 0int));
                    assert(seq![(0int, 0int)].last() == p);
                }
            }
            if no_walls {
                assert forall|x: int, y: int| #[trigger] self.kind(x, y) == CellKind::Wall implies self.touches_path(
                    x,
                    y,
                ) by {
                    assert(old(self).kind(x, y) != CellKind::Wall);
                    assert(s1.kind(x, y) != CellKind::Wall);
                }
            }
            assert(self.frontier_ok(walls@)) by {
                assert forall|i: int| 0 <= i < walls.len() implies self.in_grid(
                    #[trigger] walls@[i].x as int,
                    walls@[i].y as int,
                ) && self.has_path_neighbor(walls@[i]) by {
                    assert(walls@[i] == s1.fresh_walls(start)[i]);
                }
            }
        }
        while walls.len() > 0
            invariant
                self.wf(),
                self.same_grid(old(self)),
                self.grid_width >= 1,
                self.grid_height >= 1,
                self.is_path_cell((0, 0)),
                self.neighbors_resolved(Coord { x: 0, y: 0 }),
                self.outside_cells_kept(old(self)),
                old(self).blocks_uniform() ==> self.blocks_uniform(),
                no_paths == forall|x: int, y: int| #[trigger] old(self).kind(x, y) != CellKind::Path,
                no_walls == forall|x: int, y: int| #[trigger] old(self).kind(x, y) != CellKind::Wall,
                no_paths ==> self.paths_connected(),
                no_walls ==> self.walls_touch_paths(),
                self.frontier_ok(walls@),
            decreases 2 * self.undefined_count() + walls.len(),
        {
            proof {
                lemma_count_nonneg(*self, self.grid_height as int);
            }
            let ghost s0 = *self;
            let ghost before = walls@;
            let index = random_below(rng, walls.len());
            let dir = Direction::rand(rng);
            proof {
                lemma_pop_frontier(s0, before, before.update(index as int, before.last()).drop_last(), index as int);
            }
            let w = self.grow_step(&mut walls, index, dir);
            proof {
                lemma_count_nonneg(*self, self.grid_height as int);
                match s0.growth_target(w, dir) {
                    Some(c) => {
                        lemma_grow_step(s0, *self, w, c);
                        lemma_grow_frontier(s0, *self, c, before.update(index as int, before.last()).drop_last(), walls@);
                        lemma_grow_pixels(s0, *self, w, c);
                        assert(self.outside_cells_kept(old(self)));
                        assert(self.neighbors_resolved(Coord { x: 0, y: 0 }));
                    },
                    None => {},
                }
            }
        }
    }

    /// One round of growth with drawn values: swap-removes the frontier entry at
    /// `index` and returns it; when its neighbor in direction `dir` is an `Undefined`
    /// grid cell, queues that neighbor's `Undefined` neighbors as walls and makes
    /// passages of the neighbor and of the removed cell. Otherwise the maze is left
    /// as it is.
    pub fn grow_step(&mut self, walls: &mut Vec<Coord>, index: usize, dir: Direction) -> (w: Coord)
        requires
            old(self).wf(),
            index < old(walls).len(),
            old(self).in_grid(old(walls)[index as int].x as int, old(walls)[index as int].y as int),
        ensures
            old(self).blocks_uniform() ==> final(self).blocks_uniform(),
            w == old(walls)[index as int],
            final(self).wf(),
            final(self).same_grid(old(self)),
            match old(self).growth_target(w, dir) {
                Some(c) => {
                    &&& final(walls)@ == old(walls)@.update(index as int, old(walls)@.last()).drop_last()
                        + old(self).fresh_walls(c)
                    &&& forall|p: (int, int)| #[trigger]
                        final(self).pixels().contains_key(p) ==> final(self).pixels()[p] == if in_block(
                            old(self).pixel_size as int,
                            w,
                            p,
                        ) || in_block(old(self).pixel_size as int, c, p) {
                            path_color()
                        } else if old(self).in_fresh_blocks(c, p) {
                            wall_color()
                        } else {
                            old(self).pixels()[p]
                        }
                    &&& final(self).kind(c.x as int, c.y as int) == CellKind::Path
                    &&& final(self).kind(w.x as int, w.y as int) == CellKind::Path
                    &&& forall|x: int, y: int|
                        !(x == c.x && y == c.y) && !(x == w.x && y == w.y) ==> #[trigger] final(self).kind(x, y)
                            == old(self).kind(x, y) || (old(self).kind(x, y) == CellKind::Undefined
                            && final(self).kind(x, y) == CellKind::Wall && adjacent(
                            (x, y),
                            (c.x as int, c.y as int),
                        ))
                    &&& forall|i: int|
                        0 <= i < old(self).fresh_walls(c).len() ==> {
                            let n = #[trigger] old(self).fresh_walls(c)[i];
                            &&& old(self).in_grid(n.x as int, n.y as int)
                            &&& adjacent((n.x as int, n.y as int), (c.x as int, c.y as int))
                        }
                    &&& final(self).neighbors_resolved(c)
                    &&& final(self).undefined_count() + old(self).fresh_walls(c).len() + 1
                        <= old(self).undefined_count()
                },
                None => {
                    &&& final(walls)@ == old(walls)@.update(index as int, old(walls)@.last()).drop_last()
                    &&& *final(self) == *old(self)
                },
            },
    {
        let w = walls.swap_remove(index);
        let o = self.get_coord_next(&w, dir);
        if let Some(c) = o {
            if self.cell_kind(&c) == CellKind::Undefined {
                self.add_walls_around(&c, walls);
                let ghost s1 = *self;
                self.draw_path(&c);
                let ghost s2 = *self;
                self.draw_path(&w);
                proof {
                    assert forall|x: int, y: int|
                        adjacent((x, y), (c.x as int, c.y as int)) && self.in_grid(x, y) implies #[trigger] self.kind(
                            x,
                            y,
                        ) != CellKind::Undefined by {
                        assert(s1.kind(x, y) != CellKind::Undefined);
                        assert(s2.kind(x, y) != CellKind::Undefined);
                    }
                }
            }
        }
        w
    }
}

/// The side of a cell in pixels in generated images.
pub const CELL_SIZE: u32 = 4;

/// Removes a frontier entry drawn uniformly at random, moving the last entry into its
/// place.
pub fn pop_random_wall(walls: &mut Vec<Coord>, rng: &mut rand::rngs::StdRng) -> (w: Coord)
    requires
        old(walls).len() > 0,
    ensures
        exists|i: int|
            0 <= i < old(walls).len() && w == old(walls)[i] && final(walls)@ == old(walls)@.update(i, old(walls)@.last()).drop_last(),
{
    let pos = random_below(rng, walls.len());
    walls.swap_remove(pos)
}

/// A maze of `CELL_SIZE`-pixel cells grown over a `width` by `height` raster.
pub fn generate_image(width: u32, height: u32, rng: &mut rand::rngs::StdRng) -> (m: Maze)
    requires
        3 * (width as int) * (height as int) <= isize::MAX,
    ensures
        m.wf(),
        m.width == width,
        m.height == height,
        m.pixel_size == CELL_SIZE,
        m.grid_width >= 1 && m.grid_height >= 1 ==> m.is_path_cell((0, 0)),
        m.grid_width >= 1 && m.grid_height >= 1 ==> m.neighbors_resolved(Coord { x: 0, y: 0 }),
        m.paths_connected(),
        m.walls_touch_paths(),
        m.blocks_uniform(),
        forall|p: (int, int)| #[trigger]
            m.pixels().contains_key(p) && !m.in_cells(p) ==> m.pixels()[p] == wall_color(),
{
    let mut maze = Maze::new(width, height, CELL_SIZE);
    let ghost fresh = maze;
    maze.randomized_prim(rng);
    proof {
        assert forall|p: (int, int)| #[trigger]
            maze.pixels().contains_key(p) && !maze.in_cells(p) implies maze.pixels()[p]
            == wall_color() by {
            assert(fresh.pixels().contains_key(p));
        }
    }
    maze
}

/// The raster that construction leaves depends on the dimensions and cell size
/// alone: two mazes of the same shape whose pixels are all as `Maze::new` leaves
/// them hold the same pixels, whatever random draws came before.
pub proof fn lemma_new_is_fixed(a: Maze, b: Maze)
    requires
        a.wf(),
        b.wf(),
        a.same_grid(&b),
        forall|p: (int, int)| #[trigger]
            a.pixels().contains_key(p) ==> a.pixels()[p] == a.initial_pixel(p),
        forall|p: (int, int)| #[trigger]
            b.pixels().contains_key(p) ==> b.pixels()[p] == b.initial_pixel(p),
    ensures
        a.pixels() == b.pixels(),
        forall|x: int, y: int| #[trigger] a.kind(x, y) == b.kind(x, y),
{
    assert(a.pixels() =~= b.pixels());
}

/// A walk to `p` carries over to a maze that keeps every passage cell.
pub proof fn lemma_reachable_mono(a: Maze, b: Maze, p: (int, int))
    requires
        a.reachable(p),
        forall|q: (int, int)| a.is_path_cell(q) ==> #[trigger] b.is_path_cell(q),
    ensures
        b.reachable(p),
{
    let w = choose|w: Seq<(int, int)>| a.is_walk(w) && w.last() == p;
    assert forall|i: int| 0 <= i < w.len() implies b.is_path_cell(#[trigger] w[i]) by {
        assert(a.is_path_cell(w[i]));
    }
    assert(b.is_walk(w));
}

/// A walk to `p` extends to a passage cell `q` adjacent to `p`.
pub proof fn lemma_reachable_extend(m: Maze, p: (int, int), q: (int, int))
    requires
        m.reachable(p),
        adjacent(p, q),
        m.is_path_cell(q),
    ensures
        m.reachable(q),
{
    let w = choose|w: Seq<(int, int)>| m.is_walk(w) && w.last() == p;
    let w2 = w.push(q);
    assert forall|i: int| 0 <= i < w2.len() implies m.is_path_cell(#[trigger] w2[i]) by {
        if i < w.len() {
            assert(w2[i] == w[i]);
        }
    }
    assert forall|i: int| 0 <= i < w2.len() - 1 implies adjacent(#[trigger] w2[i], w2[i + 1]) by {
        if i < w.len() - 1 {
            assert(w2[i] == w[i] && w2[i + 1] == w[i + 1]);
        } else {
            assert(w2[i] == w.last());
        }
    }
    assert(m.is_walk(w2));
    assert(w2.last() == q);
}

/// In a maze whose passages are all reached from the start cell, every passage cell
/// other than the start touches another passage cell: a passage is never joined to the
/// maze through a wall.
pub proof fn lemma_path_cell_has_path_neighbor(m: Maze, p: (int, int))
    requires
        m.paths_connected(),
        m.is_path_cell(p),
        p != (0int, 0int),
    ensures
        exists|q: (int, int)| adjacent(q, p) && #[trigger] m.is_path_cell(q),
{
    let w = choose|w: Seq<(int, int)>| m.is_walk(w) && w.last() == p;
    assert(w.len() >= 2);
    let q = w[w.len() - 2];
    assert(adjacent(w[w.len() - 2], w[w.len() - 1]));
    assert(m.is_path_cell(q));
}

/// One successful growth step, which made passages of `c` and of the frontier cell
/// `w` and turned only `Undefined` neighbors of `c` into walls, keeps every passage
/// cell and every resolved cell; it keeps all passages reachable if they were, and
/// every wall touching a passage if they all did.
proof fn lemma_grow_step(s0: Maze, s3: Maze, w: Coord, c: Coord)
    requires
        s0.has_path_neighbor(w),
        adjacent((w.x as int, w.y as int), (c.x as int, c.y as int)),
        s3.kind(c.x as int, c.y as int) == CellKind::Path,
        s3.kind(w.x as int, w.y as int) == CellKind::Path,
        forall|x: int, y: int|
            !(x == c.x && y == c.y) && !(x == w.x && y == w.y) ==> #[trigger] s3.kind(x, y)
                == s0.kind(x, y) || (s0.kind(x, y) == CellKind::Undefined && s3.kind(x, y)
                == CellKind::Wall && adjacent((x, y), (c.x as int, c.y as int))),
    ensures
        s0.paths_connected() ==> s3.paths_connected(),
        s0.walls_touch_paths() ==> s3.walls_touch_paths(),
        forall|p: (int, int)| s0.is_path_cell(p) ==> #[trigger] s3.is_path_cell(p),
        forall|x: int, y: int|
            s0.kind(x, y) != CellKind::Undefined ==> #[trigger] s3.kind(x, y) != CellKind::Undefined,
{
    let wp = (w.x as int, w.y as int);
    let cp = (c.x as int, c.y as int);
    assert forall|p: (int, int)| s0.is_path_cell(p) implies #[trigger] s3.is_path_cell(p) by {
        if p != wp && p != cp {
            assert(s3.kind(p.0, p.1) == s0.kind(p.0, p.1));
        }
    }
    assert forall|x: int, y: int| s0.kind(x, y) != CellKind::Undefined implies #[trigger] s3.kind(
        x,
        y,
    ) != CellKind::Undefined by {
        if (x, y) != wp && (x, y) != cp {
            assert(s3.kind(x, y) == s0.kind(x, y));
        }
    }
    if s0.walls_touch_paths() {
        assert forall|x: int, y: int| #[trigger] s3.kind(x, y) == CellKind::Wall implies s3.touches_path(
            x,
            y,
        ) by {
            if s3.kind(x, y) == s0.kind(x, y) {
                assert(s0.touches_path(x, y));
                if s0.is_path_cell((x - 1, y)) {
                    assert(s3.is_path_cell((x - 1, y)));
                } else if s0.is_path_cell((x + 1, y)) {
                    assert(s3.is_path_cell((x + 1, y)));
                } else if s0.is_path_cell((x, y - 1)) {
                    assert(s3.is_path_cell((x, y - 1)));
                } else {
                    assert(s3.is_path_cell((x, y + 1)));
                }
            } else {
                assert(adjacent((x, y), cp));
                assert(s3.is_path_cell(cp));
            }
        }
    }
    if s0.paths_connected() {
        let q = if s0.is_path_cell((w.x - 1, w.y as int)) {
            (w.x - 1, w.y as int)
        } else if s0.is_path_cell((w.x + 1, w.y as int)) {
            (w.x + 1, w.y as int)
        } else if s0.is_path_cell((w.x as int, w.y - 1)) {
            (w.x as int, w.y - 1)
        } else {
            (w.x as int, w.y + 1)
        };
        assert(s0.is_path_cell(q));
        assert(adjacent(q, wp));
        lemma_reachable_mono(s0, s3, q);
        lemma_reachable_extend(s3, q, wp);
        lemma_reachable_extend(s3, wp, cp);
        assert forall|p: (int, int)| #[trigger] s3.is_path_cell(p) implies s3.reachable(p) by {
            if p != wp && p != cp {
                assert(s3.kind(p.0, p.1) == s0.kind(p.0, p.1));
                assert(s0.is_path_cell(p));
                lemma_reachable_mono(s0, s3, p);
            }
        }
    }
}

/// The block of a grid cell lies in the part of the raster that whole cells cover.
proof fn lemma_block_in_cells(m: Maze, n: Coord, p: (int, int))
    requires
        m.wf(),
        m.in_grid(n.x as int, n.y as int),
        in_block(m.pixel_size as int, n, p),
    ensures
        m.in_cells(p),
{
    lemma_cell_fits(m.width as int, m.pixel_size as int, n.x as int);
    lemma_cell_fits(m.height as int, m.pixel_size as int, n.y as int);
}

/// Painting grid cell `c` leaves the pixels that no whole cell covers.
proof fn lemma_changes_inside_cells(a: Maze, b: Maze, c: Coord)
    requires
        a.wf(),
        b.same_grid(&a),
        a.in_grid(c.x as int, c.y as int),
        b.pixels().dom() == a.pixels().dom(),
        forall|p: (int, int)| #[trigger]
            b.pixels().contains_key(p) ==> b.pixels()[p] == if in_block(a.pixel_size as int, c, p) {
                path_color()
            } else {
                a.pixels()[p]
            },
    ensures
        forall|p: (int, int)| #[trigger]
            b.pixels().contains_key(p) && !a.in_cells(p) ==> b.pixels()[p] == a.pixels()[p],
{
    assert forall|p: (int, int)| #[trigger]
        b.pixels().contains_key(p) && !a.in_cells(p) implies b.pixels()[p] == a.pixels()[p] by {
        if in_block(a.pixel_size as int, c, p) {
            lemma_block_in_cells(a, c, p);
        }
    }
}

/// Turning the fresh neighbors of grid cell `c` into walls leaves the pixels that no
/// whole cell covers.
proof fn lemma_fresh_inside_cells(a: Maze, b: Maze, c: Coord)
    requires
        a.wf(),
        b.same_grid(&a),
        a.in_grid(c.x as int, c.y as int),
        forall|p: (int, int)| #[trigger]
            b.pixels().contains_key(p) ==> b.pixels()[p] == if a.in_fresh_blocks(c, p) {
                wall_color()
            } else {
                a.pixels()[p]
            },
    ensures
        forall|p: (int, int)| #[trigger]
            b.pixels().contains_key(p) && !a.in_cells(p) ==> b.pixels()[p] == a.pixels()[p],
{
    assert forall|p: (int, int)| #[trigger]
        b.pixels().contains_key(p) && !a.in_cells(p) implies b.pixels()[p] == a.pixels()[p] by {
        if a.in_fresh_wall_block(c, Direction::Up, p) {
            lemma_block_in_cells(a, a.fresh_wall(c, Direction::Up)[0], p);
        } else if a.in_fresh_wall_block(c, Direction::Down, p) {
            lemma_block_in_cells(a, a.fresh_wall(c, Direction::Down)[0], p);
        } else if a.in_fresh_wall_block(c, Direction::Left, p) {
            lemma_block_in_cells(a, a.fresh_wall(c, Direction::Left)[0], p);
        } else if a.in_fresh_wall_block(c, Direction::Right, p) {
            lemma_block_in_cells(a, a.fresh_wall(c, Direction::Right)[0], p);
        }
    }
}

/// A growth step leaves the pixels that no whole cell covers.
proof fn lemma_grow_pixels(s0: Maze, s3: Maze, w: Coord, c: Coord)
    requires
        s0.wf(),
        s3.same_grid(&s0),
        s0.in_grid(w.x as int, w.y as int),
        s0.in_grid(c.x as int, c.y as int),
        forall|p: (int, int)| #[trigger]
            s3.pixels().contains_key(p) ==> s3.pixels()[p] == if in_block(
                s0.pixel_size as int,
                w,
                p,
            ) || in_block(s0.pixel_size as int, c, p) {
                path_color()
            } else if s0.in_fresh_blocks(c, p) {
                wall_color()
            } else {
                s0.pixels()[p]
            },
    ensures
        forall|p: (int, int)| #[trigger]
            s3.pixels().contains_key(p) && !s0.in_cells(p) ==> s3.pixels()[p] == s0.pixels()[p],
{
    assert forall|p: (int, int)| #[trigger]
        s3.pixels().contains_key(p) && !s0.in_cells(p) implies s3.pixels()[p] == s0.pixels()[p] by {
        if in_block(s0.pixel_size as int, w, p) {
            lemma_block_in_cells(s0, w, p);
        } else if in_block(s0.pixel_size as int, c, p) {
            lemma_block_in_cells(s0, c, p);
        } else if s0.in_fresh_wall_block(c, Direction::Up, p) {
            lemma_block_in_cells(s0, s0.fresh_wall(c, Direction::Up)[0], p);
        } else if s0.in_fresh_wall_block(c, Direction::Down, p) {
            lemma_block_in_cells(s0, s0.fresh_wall(c, Direction::Down)[0], p);
        } else if s0.in_fresh_wall_block(c, Direction::Left, p) {
            lemma_block_in_cells(s0, s0.fresh_wall(c, Direction::Left)[0], p);
        } else if s0.in_fresh_wall_block(c, Direction::Right, p) {
            lemma_block_in_cells(s0, s0.fresh_wall(c, Direction::Right)[0], p);
        }
    }
}

/// Swap-removing entry `i` keeps the frontier's properties.
proof fn lemma_pop_frontier(m: Maze, before: Seq<Coord>, after: Seq<Coord>, i: int)
    requires
        m.frontier_ok(before),
        0 <= i < before.len(),
        after == before.update(i, before.last()).drop_last(),
    ensures
        m.frontier_ok(after),
        m.in_grid(before[i].x as int, before[i].y as int),
        m.has_path_neighbor(before[i]),
{
    assert(m.in_grid(before[i].x as int, before[i].y as int));
    assert(m.in_grid(before[before.len() - 1].x as int, before[before.len() - 1].y as int));
    assert forall|j: int| 0 <= j < after.len() implies m.in_grid(
        #[trigger] after[j].x as int,
        after[j].y as int,
    ) && m.has_path_neighbor(after[j]) by {
        if j == i {
            assert(after[j] == before[before.len() - 1]);
        } else {
            assert(after[j] == before[j]);
        }
    }
}

/// After a growth step the frontier, old entries followed by the neighbors of `c`
/// queued from `s0`, still touches passages in `s3`, where `c` is a passage.
proof fn lemma_grow_frontier(s0: Maze, s3: Maze, c: Coord, popped: Seq<Coord>, added: Seq<Coord>)
    requires
        s0.frontier_ok(popped),
        s3.grid_width == s0.grid_width,
        s3.grid_height == s0.grid_height,
        added == popped + s0.fresh_walls(c),
        forall|i: int|
            0 <= i < s0.fresh_walls(c).len() ==> {
                let n = #[trigger] s0.fresh_walls(c)[i];
                &&& s0.in_grid(n.x as int, n.y as int)
                &&& adjacent((n.x as int, n.y as int), (c.x as int, c.y as int))
            },
        s3.is_path_cell((c.x as int, c.y as int)),
        forall|p: (int, int)| s0.is_path_cell(p) ==> #[trigger] s3.is_path_cell(p),
    ensures
        s3.frontier_ok(added),
{
    assert forall|i: int| 0 <= i < added.len() implies s3.in_grid(
        #[trigger] added[i].x as int,
        added[i].y as int,
    ) && s3.has_path_neighbor(added[i]) by {
        if i < popped.len() {
            assert(added[i] == popped[i]);
            assert(s0.in_grid(popped[i].x as int, popped[i].y as int));
        } else {
            let n = s0.fresh_walls(c)[i - popped.len()];
            assert(added[i] == n);
        }
    }
}

/// Counts of `Undefined` cells are not negative.
proof fn lemma_count_nonneg(m: Maze, rows: int)
    ensures
        m.undefined_in_rows(rows) >= 0,
    decreases rows,
{
    if rows > 0 {
        lemma_count_nonneg(m, rows - 1);
        lemma_row_nonneg(m, rows - 1, m.grid_width as int);
    }
}

proof fn lemma_row_nonneg(m: Maze, y: int, n: int)
    ensures
        m.undefined_in_row(y, n) >= 0,
    decreases n,
{
    if n > 0 {
        lemma_row_nonneg(m, y, n - 1);
    }
}

/// Counting `Undefined` cells along a row, when only cell `(cx, cy)` may differ.
proof fn lemma_row_change(a: Maze, b: Maze, cx: int, cy: int, y: int, n: int)
    requires
        forall|x: int, y: int| !(x == cx && y == cy) ==> #[trigger] a.kind(x, y) == b.kind(x, y),
    ensures
        a.undefined_in_row(y, n) == b.undefined_in_row(y, n) + if y == cy && 0 <= cx < n {
            a.undefined_at(cx, cy) - b.undefined_at(cx, cy)
        } else {
            0
        },
    decreases n,
{
    if n > 0 {
        lemma_row_change(a, b, cx, cy, y, n - 1);
        assert(a.kind(n - 1, y) == b.kind(n - 1, y) || (n - 1 == cx && y == cy));
    }
}

/// Counting `Undefined` cells over rows, when only cell `(cx, cy)` may differ.
proof fn lemma_rows_change(a: Maze, b: Maze, cx: int, cy: int, m: int)
    requires
        a.grid_width == b.grid_width,
        forall|x: int, y: int| !(x == cx && y == cy) ==> #[trigger] a.kind(x, y) == b.kind(x, y),
    ensures
        a.undefined_in_rows(m) == b.undefined_in_rows(m) + if 0 <= cy < m && 0 <= cx
            < a.grid_width {
            a.undefined_at(cx, cy) - b.undefined_at(cx, cy)
        } else {
            0
        },
    decreases m,
{
    if m > 0 {
        lemma_rows_change(a, b, cx, cy, m - 1);
        lemma_row_change(a, b, cx, cy, m - 1, a.grid_width as int);
    }
}

/// Resolving the grid cell `(cx, cy)` lowers the `Undefined` count by one if it was
/// `Undefined`, and leaves it otherwise.
proof fn lemma_count_change(a: Maze, b: Maze, cx: int, cy: int)
    requires
        a.grid_width == b.grid_width,
        a.grid_height == b.grid_height,
        a.in_grid(cx, cy),
        b.kind(cx, cy) != CellKind::Undefined,
        forall|x: int, y: int| !(x == cx && y == cy) ==> #[trigger] a.kind(x, y) == b.kind(x, y),
    ensures
        a.undefined_count() == b.undefined_count() + a.undefined_at(cx, cy),
{
    lemma_rows_change(a, b, cx, cy, a.grid_height as int);
}

/// Whole cells of size `s` fit in a length `len`.
proof fn lemma_whole_cells(len: int, s: int)
    requires
        len >= 0,
        s >= 1,
    ensures
        0 <= (len / s) * s <= len,
        len / s <= len,
{
    vstd::arithmetic::div_mod::lemma_fundamental_div_mod(len, s);
    vstd::arithmetic::div_mod::lemma_mod_pos_bound(len, s);
    let q = len / s;
    assert(q * s == s * q) by (nonlinear_arith);
    assert(q >= 0);
    assert(q <= q * s) by (nonlinear_arith)
        requires
            q >= 0,
            s >= 1,
    ;
}

/// The block of cell `x` along one axis ends within the covered length.
proof fn lemma_cell_fits(len: int, s: int, x: int)
    requires
        len >= 0,
        s >= 1,
        0 <= x < len / s,
    ensures
        0 <= x * s,
        x * s + s <= (len / s) * s,
        x * s + s <= len,
{
    lemma_whole_cells(len, s);
    let q = len / s;
    assert(0 <= x * s) by (nonlinear_arith)
        requires
            x >= 0,
            s >= 1,
    ;
    assert(x * s + s <= q * s) by (nonlinear_arith)
        requires
            x + 1 <= q,
            s >= 1,
    ;
}

/// The blocks of two cells share no pixel.
proof fn lemma_blocks_disjoint(s: int, n: Coord, c: Coord, p: (int, int))
    requires
        s >= 1,
        in_block(s, n, p),
        in_block(s, c, p),
    ensures
        n == c,
{
    let (nx, ny, cx, cy) = (n.x as int, n.y as int, c.x as int, c.y as int);
    if nx < cx {
        assert(nx * s + s <= cx * s) by (nonlinear_arith)
            requires
                nx + 1 <= cx,
                s >= 1,
        ;
    } else if nx > cx {
        assert(cx * s + s <= nx * s) by (nonlinear_arith)
            requires
                cx + 1 <= nx,
                s >= 1,
        ;
    }
    if ny < cy {
        assert(ny * s + s <= cy * s) by (nonlinear_arith)
            requires
                ny + 1 <= cy,
                s >= 1,
        ;
    } else if ny > cy {
        assert(cy * s + s <= ny * s) by (nonlinear_arith)
            requires
                cy + 1 <= ny,
                s >= 1,
        ;
    }
}

/// The top-left pixel of cell `(x, y)` lies in the block of `c` exactly when the two
/// cells are the same.
proof fn lemma_block_origin(s: int, c: Coord, x: int, y: int)
    requires
        s >= 1,
        x >= 0,
        y >= 0,
    ensures
        in_block(s, c, (x * s, y * s)) <==> (x == c.x && y == c.y),
{
    let cx = c.x as int;
    let cy = c.y as int;
    if x < cx {
        assert(x * s + s <= cx * s) by (nonlinear_arith)
            requires
                x + 1 <= cx,
                s >= 1,
        ;
    } else if x > cx {
        assert(cx * s + s <= x * s) by (nonlinear_arith)
            requires
                cx + 1 <= x,
                s >= 1,
        ;
    }
    if y < cy {
        assert(y * s + s <= cy * s) by (nonlinear_arith)
            requires
                y + 1 <= cy,
                s >= 1,
        ;
    } else if y > cy {
        assert(cy * s + s <= y * s) by (nonlinear_arith)
            requires
                cy + 1 <= y,
                s >= 1,
        ;
    }
}

} // verus!
