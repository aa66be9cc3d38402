//! Cells of the triangular board: coordinate triples, their row-by-row
//! numbering, and adjacency.
//!
//! A board of side `size` has rows `0..size`; row `r` holds `r + 1` cells.
//! The triple `(x, y, z)` of a cell satisfies `x + y + z == size - 1`: `x`
//! counts rows from the bottom, `y` is the position within the row and `z`
//! what is left of the row after it.
use vstd::prelude::*;

verus! {

/// The largest board side the engine works with; scores then stay far inside
/// the range of `i32`.
pub const MAX_BOARD_SIZE: u32 = 256;

/// Number of cells of a board of the largest side.
pub const MAX_CELLS: usize = 32896;

/// Number of cells in the first `rows` rows: `0 + 1 + ... + rows`.
pub open spec fn triangle(rows: int) -> int
    decreases rows,
{
    if rows <= 0 {
        0
    } else {
        triangle(rows - 1) + rows
    }
}

/// The row that holds cell `idx`.
pub open spec fn row_of(idx: nat) -> nat
    decreases idx,
{
    if idx == 0 {
        0
    } else {
        let prev = row_of((idx - 1) as nat);
        if idx == triangle(prev as int + 1) {
            prev + 1
        } else {
            prev
        }
    }
}

/// `0 + 1 + ... + rows` is `rows * (rows + 1) / 2`.
pub proof fn lemma_triangle_closed_form(rows: int)
    requires
        rows >= 0,
    ensures
        2 * triangle(rows) == rows * (rows + 1),
        triangle(rows) >= 0,
    decreases rows,
{
    if rows > 0 {
        lemma_triangle_closed_form(rows - 1);
        assert((rows - 1) * rows + 2 * rows == rows * (rows + 1)) by (nonlinear_arith);
    }
}

/// More rows hold more cells: at least a whole row more.
pub proof fn lemma_triangle_monotone(a: int, b: int)
    requires
        0 <= a <= b,
    ensures
        triangle(a) <= triangle(b),
        a < b ==> triangle(a) + a + 1 <= triangle(b),
    decreases b - a,
{
    if a < b {
        lemma_triangle_monotone(a, b - 1);
        lemma_triangle_closed_form(a);
    }
}

/// No board has more than `MAX_CELLS` cells, and none is without a cell.
pub proof fn lemma_triangle_bounded(size: u32)
    requires
        size <= MAX_BOARD_SIZE,
    ensures
        0 <= triangle(size as int) <= MAX_CELLS,
        size >= 1 ==> triangle(size as int) >= 1,
{
    lemma_triangle_closed_form(size as int);
    assert(size * (size + 1) <= 256 * 257) by (nonlinear_arith)
        requires
            0 <= size <= 256,
    ;
    assert(size >= 1 ==> size * (size + 1) >= 2) by (nonlinear_arith);
}

/// Every cell lies in the row that `row_of` names.
pub proof fn lemma_row_bounds(idx: nat)
    ensures
        triangle(row_of(idx) as int) <= idx < triangle(row_of(idx) as int + 1),
    decreases idx,
{
    if idx > 0 {
        lemma_row_bounds((idx - 1) as nat);
    }
}

/// A cell lies in one row only.
pub proof fn lemma_row_unique(idx: nat, row: int)
    requires
        0 <= row,
        triangle(row) <= idx < triangle(row + 1),
    ensures
        row_of(idx) == row,
{
    lemma_row_bounds(idx);
    let r = row_of(idx) as int;
    if r < row {
        lemma_triangle_monotone(r + 1, row);
    } else if row < r {
        lemma_triangle_monotone(row + 1, r);
    }
}

/// A cell of the board, as a triple.
#[derive(Clone, Copy, Debug, PartialEq, Eq, Structural)]
pub struct Coordinates {
    pub x: u32,
    pub y: u32,
    pub z: u32,
}

impl Coordinates {
    /// The triple lies on a board of side `size`.
    pub open spec fn spec_is_valid(self, size: u32) -> bool {
        self.x + self.y + self.z + 1 == size
    }

    /// The number of the cell on a board of side `size`.
    pub open spec fn spec_to_index(self, size: u32) -> int {
        triangle(size - 1 - self.x) + self.y
    }

    /// The cell with number `idx` on a board of side `size`.
    pub open spec fn spec_from_index(idx: int, size: u32) -> Coordinates {
        let row = row_of(idx as nat);
        let col = idx - triangle(row as int);
        Coordinates { x: (size - 1 - row) as u32, y: col as u32, z: (row - col) as u32 }
    }

    /// Two cells are neighbours when one unit moves from one coordinate to
    /// another.
    pub open spec fn spec_adjacent(self, other: Coordinates) -> bool {
        ||| (self.x == other.x && self.y + 1 == other.y && self.z == other.z + 1)
        ||| (self.x == other.x && self.y == other.y + 1 && self.z + 1 == other.z)
        ||| (self.y == other.y && self.x + 1 == other.x && self.z == other.z + 1)
        ||| (self.y == other.y && self.x == other.x + 1 && self.z + 1 == other.z)
        ||| (self.z == other.z && self.x + 1 == other.x && self.y == other.y + 1)
        ||| (self.z == other.z && self.x == other.x + 1 && self.y + 1 == other.y)
    }

    /// What `step` gives if `open` holds, else nothing.
    pub open spec fn step_if(open: bool, step: Coordinates) -> Seq<Coordinates> {
        if open {
            seq![step]
        } else {
            Seq::empty()
        }
    }

    /// The neighbours of a cell, in a fixed order: a unit moves from `x`
    /// to `y` or to `z`, then from `y` to `x` or to `z`, then from `z` to
    /// `x` or to `y`; a coordinate that is 0 gives nothing away.
    pub open spec fn spec_neighbors(self) -> Seq<Coordinates> {
        let Coordinates { x, y, z } = self;
        Self::step_if(x > 0, Coordinates { x: (x - 1) as u32, y: (y + 1) as u32, z })
            + Self::step_if(x > 0, Coordinates { x: (x - 1) as u32, y, z: (z + 1) as u32 })
            + Self::step_if(y > 0, Coordinates { x: (x + 1) as u32, y: (y - 1) as u32, z })
            + Self::step_if(y > 0, Coordinates { x, y: (y - 1) as u32, z: (z + 1) as u32 })
            + Self::step_if(z > 0, Coordinates { x: (x + 1) as u32, y, z: (z - 1) as u32 })
            + Self::step_if(z > 0, Coordinates { x, y: (y + 1) as u32, z: (z - 1) as u32 })
    }

    /// The numbers of the neighbours of a cell on a board of side `size`,
    /// in the order of `spec_neighbors`.
    pub open spec fn spec_neighbor_cells(self, size: u32) -> Seq<usize> {
        Seq::new(self.spec_neighbors().len(), |k: int| self.spec_neighbors()[k].spec_to_index(size) as usize)
    }

    /// The three side flags of a cell: bit 0 for side A (`x == 0`), bit 1
    /// for side B (`y == 0`), bit 2 for side C (`z == 0`).
    pub open spec fn spec_side_flags(self) -> u8 {
        let a: u8 = if self.x == 0 { 1 } else { 0 };
        let b: u8 = if self.y == 0 { 2 } else { 0 };
        let c: u8 = if self.z == 0 { 4 } else { 0 };
        (a + b + c) as u8
    }

    /// The triple `(x, y, z)`.
    pub fn new(x: u32, y: u32, z: u32) -> (c: Coordinates)
        ensures
            c == (Coordinates { x, y, z }),
    {
        Coordinates { x, y, z }
    }

    /// Rows between the cell and side A.
    pub fn x(&self) -> (x: u32)
        ensures
            x == self.x,
    {
        self.x
    }

    /// Cells between the cell and side B.
    pub fn y(&self) -> (y: u32)
        ensures
            y == self.y,
    {
        self.y
    }

    /// Cells between the cell and side C.
    pub fn z(&self) -> (z: u32)
        ensures
            z == self.z,
    {
        self.z
    }

    /// Whether the triple names a cell of a board of side `size`.
    pub fn is_valid(&self, size: u32) -> (valid: bool)
        ensures
            valid == self.spec_is_valid(size),
    {
        let sum: u64 = self.x as u64 + self.y as u64 + self.z as u64 + 1;
        sum == size as u64
    }

    /// Whether the cell lies on side A, the bottom row.
    pub fn touches_side_a(&self) -> (touches: bool)
        ensures
            touches == (self.x == 0),
    {
        self.x == 0
    }

    /// Whether the cell lies on side B, where every row starts.
    pub fn touches_side_b(&self) -> (touches: bool)
        ensures
            touches == (self.y == 0),
    {
        self.y == 0
    }

    /// Whether the cell lies on side C, where every row ends.
    pub fn touches_side_c(&self) -> (touches: bool)
        ensures
            touches == (self.z == 0),
    {
        self.z == 0
    }

    /// The cells next to this one on a board of side `size`.
    pub fn neighbors(&self, size: u32) -> (cells: Vec<Coordinates>)
        requires
            1 <= size <= MAX_BOARD_SIZE,
            self.spec_is_valid(size),
        ensures
            cells@ == self.spec_neighbors(),
    {
        let Coordinates { x, y, z } = *self;
        let mut cells: Vec<Coordinates> = Vec::new();
        if x > 0 {
            cells.push(Coordinates { x: x - 1, y: y + 1, z });
            cells.push(Coordinates { x: x - 1, y, z: z + 1 });
        }
        if y > 0 {
            cells.push(Coordinates { x: x + 1, y: y - 1, z });
            cells.push(Coordinates { x, y: y - 1, z: z + 1 });
        }
        if z > 0 {
            cells.push(Coordinates { x: x + 1, y, z: z - 1 });
            cells.push(Coordinates { x, y: y + 1, z: z - 1 });
        }
        assert(cells@ =~= self.spec_neighbors());
        cells
    }

    /// The number of a valid cell: rows are numbered from the apex down,
    /// cells within a row from left to right.
    pub fn to_index(&self, size: u32) -> (idx: u32)
        requires
            1 <= size <= MAX_BOARD_SIZE,
            self.spec_is_valid(size),
        ensures
            idx == self.spec_to_index(size),
            idx < triangle(size as int),
    {
        let row: u32 = size - 1 - self.x;
        proof {
            lemma_triangle_closed_form(row as int);
            lemma_triangle_monotone(row as int + 1, size as int);
            assert(row * (row + 1) <= 255 * 256) by (nonlinear_arith)
                requires
                    0 <= row <= 255,
            ;
        }
        row * (row + 1) / 2 + self.y
    }

    /// The cell with the given number; the inverse of `to_index`.
    pub fn from_index(idx: u32, size: u32) -> (c: Coordinates)
        requires
            1 <= size <= MAX_BOARD_SIZE,
            idx < triangle(size as int),
        ensures
            c == Coordinates::spec_from_index(idx as int, size),
            c.spec_is_valid(size),
            c.spec_to_index(size) == idx,
    {
        let mut row: u32 = 0;
        let mut start: u32 = 0;
        proof {
            lemma_triangle_closed_form(size as int);
            assert(size * (size + 1) <= 256 * 257) by (nonlinear_arith)
                requires
                    0 <= size <= 256,
            ;
        }
        while start + row + 1 <= idx
            invariant
                start == triangle(row as int),
                start <= idx,
                idx < triangle(size as int) <= MAX_CELLS,
                row < size <= 256,
            decreases idx - start,
        {
            proof {
                if row + 1 >= size {
                    lemma_triangle_monotone(size as int, row as int + 1);
                }
            }
            start = start + row + 1;
            row = row + 1;
        }
        proof {
            lemma_row_unique(idx as nat, row as int);
        }
        let col: u32 = idx - start;
        Coordinates { x: size - 1 - row, y: col, z: row - col }
    }
}

/// Numbering a valid cell and reading the number back gives the cell.
pub proof fn lemma_index_round_trip(c: Coordinates, size: u32)
    requires
        1 <= size,
        c.spec_is_valid(size),
    ensures
        0 <= c.spec_to_index(size) < triangle(size as int),
        Coordinates::spec_from_index(c.spec_to_index(size), size) == c,
{
    let row = size - 1 - c.x;
    lemma_triangle_closed_form(row);
    lemma_triangle_monotone(row + 1, size as int);
    lemma_row_unique(c.spec_to_index(size) as nat, row);
}

/// Reading a cell number and numbering the cell again gives the number.
pub proof fn lemma_cell_round_trip(idx: int, size: u32)
    requires
        0 <= idx < triangle(size as int),
    ensures
        Coordinates::spec_from_index(idx, size).spec_is_valid(size),
        Coordinates::spec_from_index(idx, size).spec_to_index(size) == idx,
{
    lemma_row_bounds(idx as nat);
    let row = row_of(idx as nat) as int;
    if row >= size {
        lemma_triangle_monotone(size as int, row);
    }
}

/// Adjacency does not depend on the direction in which it is read.
pub proof fn lemma_adjacent_symmetric(a: Coordinates, b: Coordinates)
    ensures
        a.spec_adjacent(b) == b.spec_adjacent(a),
{
}

/// The neighbours of a valid cell are valid cells, at most six, and they
/// are the cells adjacent to it.
pub proof fn lemma_neighbors(p: Coordinates, size: u32)
    requires
        p.spec_is_valid(size),
    ensures
        p.spec_neighbors().len() <= 6,
        forall|k: int|
            0 <= k < p.spec_neighbors().len() ==> (#[trigger] p.spec_neighbors()[k]).spec_is_valid(size)
                && p.spec_adjacent(p.spec_neighbors()[k]),
        forall|q: Coordinates| #[trigger]
            p.spec_adjacent(q) ==> exists|k: int|
                0 <= k < p.spec_neighbors().len() && #[trigger] p.spec_neighbors()[k] == q,
{
    let Coordinates { x, y, z } = p;
    let a = Coordinates::step_if(x > 0, Coordinates { x: (x - 1) as u32, y: (y + 1) as u32, z });
    let b = Coordinates::step_if(x > 0, Coordinates { x: (x - 1) as u32, y, z: (z + 1) as u32 });
    let c = Coordinates::step_if(y > 0, Coordinates { x: (x + 1) as u32, y: (y - 1) as u32, z });
    let d = Coordinates::step_if(y > 0, Coordinates { x, y: (y - 1) as u32, z: (z + 1) as u32 });
    let e = Coordinates::step_if(z > 0, Coordinates { x: (x + 1) as u32, y, z: (z - 1) as u32 });
    let f = Coordinates::step_if(z > 0, Coordinates { x, y: (y + 1) as u32, z: (z - 1) as u32 });
    let all = p.spec_neighbors();
    assert(all == a + b + c + d + e + f);
    let la = a.len() as int;
    let lb = la + b.len();
    let lc = lb + c.len();
    let ld = lc + d.len();
    let le = ld + e.len();
    assert forall|k: int| 0 <= k < all.len() implies (#[trigger] all[k]).spec_is_valid(size) && p.spec_adjacent(
        all[k],
    ) by {
        if k < la {
            assert(all[k] == a[k]);
        } else if k < lb {
            assert(all[k] == b[k - la]);
        } else if k < lc {
            assert(all[k] == c[k - lb]);
        } else if k < ld {
            assert(all[k] == d[k - lc]);
        } else if k < le {
            assert(all[k] == e[k - ld]);
        } else {
            assert(all[k] == f[k - le]);
        }
    }
    assert forall|q: Coordinates| #[trigger] p.spec_adjacent(q) implies exists|k: int|
        0 <= k < all.len() && #[trigger] all[k] == q by {
        if p.x == q.x + 1 && p.y + 1 == q.y {
            assert(all[0] == a[0]);
            assert(all[0] == q);
        } else if p.x == q.x + 1 && p.z + 1 == q.z {
            assert(all[la] == b[0]);
            assert(all[la] == q);
        } else if p.y == q.y + 1 && p.x + 1 == q.x {
            assert(all[lb] == c[0]);
            assert(all[lb] == q);
        } else if p.y == q.y + 1 && p.z + 1 == q.z {
            assert(all[lc] == d[0]);
            assert(all[lc] == q);
        } else if p.z == q.z + 1 && p.x + 1 == q.x {
            assert(all[ld] == e[0]);
            assert(all[ld] == q);
        } else {
            assert(all[le] == f[0]);
            assert(all[le] == q);
        }
    }
}

} // verus!
