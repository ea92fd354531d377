use vstd::prelude::*;

verus! {

/// One cell of the universe.
#[derive(Debug, Clone, Copy, PartialEq, Eq, Structural)]
pub enum Cell {
    Dead,
    Alive,
}

/// A universe as a mathematical value: its three extents and its cells, layer
/// by layer, row by row.
pub struct Space {
    pub width: nat,
    pub height: nat,
    pub depth: nat,
    pub cells: Seq<Cell>,
}

/// The three steps along one axis of extent `extent`, in the order in which
/// the neighbours are visited: one back (around the edge), none, one forth.
pub open spec fn delta(extent: nat, i: int) -> int {
    if i == 0 {
        extent - 1
    } else if i == 1 {
        0
    } else {
        1
    }
}

/// What becomes of a cell with `neighbors` live neighbours: a live cell stays
/// alive with 4 to 13 of them and dies with fewer or more; a dead cell stays dead.
pub open spec fn fate(cell: Cell, neighbors: nat) -> Cell {
    if cell == Cell::Alive && 4 <= neighbors <= 13 {
        Cell::Alive
    } else {
        Cell::Dead
    }
}

impl Space {
    /// The extents are positive, and the cells are as many as they say and
    /// fit in 31 bits.
    pub open spec fn well_formed(self) -> bool {
        &&& self.width >= 1
        &&& self.height >= 1
        &&& self.depth >= 1
        &&& self.cells.len() == self.width * self.height * self.depth
        &&& self.cells.len() <= 0x7fff_ffff
    }

    /// The index of the cell in layer `z`, row `y`, column `x`.
    pub open spec fn index(self, z: int, y: int, x: int) -> int {
        z * self.width * self.height + y * self.width + x
    }

    /// Whether the cell in layer `z`, row `y`, column `x` is alive.
    pub open spec fn alive(self, z: int, y: int, x: int) -> bool {
        self.cells[self.index(z, y, x)] == Cell::Alive
    }

    /// Whether the `n`-th neighbour of a cell counts: it is not the cell
    /// itself, and it is alive. The universe wraps around at its edges.
    pub open spec fn counts(self, z: int, y: int, x: int, n: int) -> bool {
        let dz = delta(self.depth, n / 9);
        let dy = delta(self.height, (n / 3) % 3);
        let dx = delta(self.width, n % 3);
        !(dz == 0 && dy == 0 && dx == 0) && self.alive(
            (z + dz) % (self.depth as int),
            (y + dy) % (self.height as int),
            (x + dx) % (self.width as int),
        )
    }

    /// The number of the first `n` neighbours of a cell that count.
    pub open spec fn counted(self, z: int, y: int, x: int, n: nat) -> nat
        decreases n,
    {
        if n == 0 {
            0
        } else {
            self.counted(z, y, x, (n - 1) as nat) + if self.counts(z, y, x, n - 1) {
                1nat
            } else {
                0nat
            }
        }
    }

    /// The number of live neighbours of a cell, among all 27 steps around it.
    pub open spec fn live_neighbors(self, z: int, y: int, x: int) -> nat {
        self.counted(z, y, x, 27)
    }

    /// The layer of the cell at index `i`.
    pub open spec fn layer(self, i: int) -> int {
        i / (self.width * self.height) as int
    }

    /// The row of the cell at index `i`.
    pub open spec fn row(self, i: int) -> int {
        (i / self.width as int) % (self.height as int)
    }

    /// The column of the cell at index `i`.
    pub open spec fn column(self, i: int) -> int {
        i % (self.width as int)
    }

    /// The universe one tick later: every cell meets its fate.
    pub open spec fn ticked(self) -> Space {
        Space {
            cells: Seq::new(
                self.cells.len(),
                |i: int|
                    fate(
                        self.cells[i],
                        self.live_neighbors(self.layer(i), self.row(i), self.column(i)),
                    ),
            ),
            ..self
        }
    }
}

/// The cells with which a universe of 20 by 20 by 20 starts: alive where the
/// index is a multiple of 3, 5 or 7.
pub open spec fn seed() -> Space {
    Space {
        width: 20,
        height: 20,
        depth: 20,
        cells: Seq::new(
            8000,
            |i: int|
                if i % 3 == 0 || i % 5 == 0 || i % 7 == 0 {
                    Cell::Alive
                } else {
                    Cell::Dead
                },
        ),
    }
}

/// A cell with coordinates inside the extents has an index inside the cells,
/// and no part of the index is larger than the index.
pub proof fn lemma_index_in_range(w: int, h: int, d: int, z: int, y: int, x: int)
    requires
        w >= 1,
        h >= 1,
        d >= 1,
        0 <= z < d,
        0 <= y < h,
        0 <= x < w,
    ensures
        0 <= z * w <= z * w * h,
        0 <= y * w,
        0 <= z * w * h + y * w + x < w * h * d,
{
    assert(0 <= z * w <= z * w * h) by (nonlinear_arith)
        requires
            w >= 1,
            h >= 1,
            0 <= z,
    ;
    assert(0 <= y * w && y * w + x < h * w) by (nonlinear_arith)
        requires
            w >= 1,
            0 <= y < h,
            0 <= x < w,
    ;
    assert(z * w * h + h * w <= w * h * d) by (nonlinear_arith)
        requires
            w >= 1,
            h >= 1,
            0 <= z < d,
    ;
}

/// An index inside the cells has coordinates inside the extents.
pub proof fn lemma_coordinates_in_range(w: int, h: int, d: int, i: int)
    requires
        w >= 1,
        h >= 1,
        d >= 1,
        0 <= i < w * h * d,
    ensures
        w * h >= 1,
        0 <= i / (w * h) < d,
        0 <= (i / w) % h < h,
        0 <= i % w < w,
{
    assert(w * h >= 1) by (nonlinear_arith)
        requires
            w >= 1,
            h >= 1,
    ;
    assert(0 <= i / (w * h) < d) by (nonlinear_arith)
        requires
            w * h >= 1,
            0 <= i < (w * h) * d,
    ;
}

/// No extent is larger than the number of cells, nor is a layer.
pub proof fn lemma_extents_small(w: int, h: int, d: int)
    requires
        w >= 1,
        h >= 1,
        d >= 1,
    ensures
        w <= w * h * d,
        h <= w * h * d,
        d <= w * h * d,
        w * h <= w * h * d,
{
    assert(w <= w * h * d && h <= w * h * d && d <= w * h * d && w * h <= w * h * d)
        by (nonlinear_arith)
        requires
            w >= 1,
            h >= 1,
            d >= 1,
    ;
}

/// A universe of cells in three dimensions, which wraps around at its edges.
pub struct Universe {
    width: u32,
    height: u32,
    depth: u32,
    cells: Vec<Cell>,
}

impl View for Universe {
    type V = Space;

    closed spec fn view(&self) -> Space {
        Space {
            width: self.width as nat,
            height: self.height as nat,
            depth: self.depth as nat,
            cells: self.cells@,
        }
    }
}

impl Universe {
    /// The invariant of the universe: see [`Space::well_formed`].
    pub open spec fn wf(&self) -> bool {
        self@.well_formed()
    }

    /// A universe of 20 by 20 by 20 cells: see [`seed`].
    pub fn new() -> (universe: Universe)
        ensures
            universe.wf(),
            universe@ == seed(),
    {
        let width: u32 = 20;
        let height: u32 = 20;
        let depth: u32 = 20;
        let mut cells: Vec<Cell> = Vec::new();
        let mut i: u32 = 0;
        while i < 8000
            invariant
                i <= 8000,
                cells@.len() == i,
                forall|k: int| 0 <= k < i ==> cells@[k] == seed().cells[k],
            decreases 8000 - i,
        {
            if i % 3 == 0 || i % 5 == 0 || i % 7 == 0 {
                cells.push(Cell::Alive);
            } else {
                cells.push(Cell::Dead);
            }
            i += 1;
        }
        let universe = Universe { width, height, depth, cells };
        proof {
            assert(universe@.cells =~= seed().cells);
        }
        universe
    }

    /// The number of columns.
    pub fn width(&self) -> (w: u32)
        ensures
            w == self@.width,
    {
        self.width
    }

    /// The number of rows.
    pub fn height(&self) -> (h: u32)
        ensures
            h == self@.height,
    {
        self.height
    }

    /// The number of layers.
    pub fn depth(&self) -> (d: u32)
        ensures
            d == self@.depth,
    {
        self.depth
    }

    /// The cells, layer by layer, row by row.
    pub fn cells(&self) -> (cells: &Vec<Cell>)
        ensures
            cells@ == self@.cells,
    {
        &self.cells
    }

    /// The index of the cell in layer `z`, row `y`, column `x`.
    pub fn get_index(&self, z: u32, y: u32, x: u32) -> (index: usize)
        requires
            self.wf(),
            z < self@.depth,
            y < self@.height,
            x < self@.width,
        ensures
            index == self@.index(z as int, y as int, x as int),
            index < self@.cells.len(),
    {
        proof {
            lemma_index_in_range(
                self.width as int,
                self.height as int,
                self.depth as int,
                z as int,
                y as int,
                x as int,
            );
        }
        (z * self.width * self.height + y * self.width + x) as usize
    }

    /// The number of live neighbours of the cell in layer `z`, row `y`, column `x`.
    pub fn live_neighbor_count(&self, z: u32, y: u32, x: u32) -> (count: u8)
        requires
            self.wf(),
            z < self@.depth,
            y < self@.height,
            x < self@.width,
        ensures
            count == self@.live_neighbors(z as int, y as int, x as int),
    {
        let mut count: u8 = 0;
        let mut n: u8 = 0;
        proof {
            lemma_extents_small(self.width as int, self.height as int, self.depth as int);
        }
        while n < 27
            invariant
                n <= 27,
                self.wf(),
                z < self@.depth,
                y < self@.height,
                x < self@.width,
                count <= n,
                self@.width <= 0x7fff_ffff,
                self@.height <= 0x7fff_ffff,
                self@.depth <= 0x7fff_ffff,
                count == self@.counted(z as int, y as int, x as int, n as nat),
            decreases 27 - n,
        {
            let delta_z = Self::step(self.depth, n / 9);
            let delta_y = Self::step(self.height, (n / 3) % 3);
            let delta_x = Self::step(self.width, n % 3);
            if !(delta_z == 0 && delta_y == 0 && delta_x == 0) {
                let neighbor_z = (z + delta_z) % self.depth;
                let neighbor_y = (y + delta_y) % self.height;
                let neighbor_x = (x + delta_x) % self.width;
                let idx = self.get_index(neighbor_z, neighbor_y, neighbor_x);
                match self.cells[idx] {
                    Cell::Alive => {
                        count += 1;
                    },
                    Cell::Dead => {},
                }
            }
            n += 1;
        }
        count
    }

    /// One of the three steps along an axis: see [`delta`].
    fn step(extent: u32, i: u8) -> (d: u32)
        requires
            extent >= 1,
        ensures
            d == delta(extent as nat, i as int),
    {
        if i == 0 {
            extent - 1
        } else if i == 1 {
            0
        } else {
            1
        }
    }

    /// Moves the universe one tick on: every cell meets its fate, which its
    /// live neighbours before the tick decide.
    pub fn tick(&mut self)
        requires
            old(self).wf(),
        ensures
            final(self).wf(),
            final(self)@ == old(self)@.ticked(),
    {
        let n = self.cells.len();
        let mut next: Vec<Cell> = Vec::new();
        let mut i: usize = 0;
        while i < n
            invariant
                i <= n,
                n == self.cells@.len(),
                self.wf(),
                self@ == old(self)@,
                next@.len() == i,
                forall|k: int| 0 <= k < i ==> next@[k] == old(self)@.ticked().cells[k],
            decreases n - i,
        {
            proof {
                lemma_extents_small(self.width as int, self.height as int, self.depth as int);
                lemma_coordinates_in_range(
                    self.width as int,
                    self.height as int,
                    self.depth as int,
                    i as int,
                );
            }
            let at = i as u32;
            let z = at / (self.width * self.height);
            let y = (at / self.width) % self.height;
            let x = at % self.width;
            let live_neighbors = self.live_neighbor_count(z, y, x);
            let next_cell = match self.cells[i] {
                Cell::Alive => {
                    if 4 <= live_neighbors && live_neighbors <= 13 {
                        Cell::Alive
                    } else {
                        Cell::Dead
                    }
                },
                Cell::Dead => Cell::Dead,
            };
            next.push(next_cell);
            i += 1;
        }
        self.cells = next;
        proof {
            assert(self@.cells =~= old(self)@.ticked().cells);
        }
    }
}

} // verus!
