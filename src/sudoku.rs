use vstd::prelude::*;

verus! {

/// A row of the grid, from 1 through 9.
#[derive(Clone, Copy, Debug, Hash, PartialEq, Eq, Structural)]
pub struct Row(u8);

impl View for Row {
    type V = int;

    closed spec fn view(&self) -> int {
        self.0 as int
    }
}

impl Row {
    #[verifier::type_invariant]
    spec fn inv(self) -> bool {
        1 <= self.0 <= 9
    }

    /// All nine values, in increasing order.
    pub fn values() -> (r: Vec<Self>)
        ensures
            r@.len() == 9,
            forall|i: int| 0 <= i < 9 ==> #[trigger] r@[i]@ == i + 1,
    {
        let mut r: Vec<Self> = Vec::new();
        let mut x: u8 = 1;
        while x <= 9
            invariant
                1 <= x <= 10,
                r@.len() == x - 1,
                forall|i: int| 0 <= i < x - 1 ==> #[trigger] r@[i]@ == i + 1,
            decreases 10 - x,
        {
            r.push(Row(x));
            x = x + 1;
        }
        r
    }

    pub fn new(value: u8) -> (r: Option<Self>)
        ensures
            r.is_some() <==> 1 <= value <= 9,
            r matches Some(x) ==> x@ == value,
    {
        if value >= 1 && value <= 9 {
            Some(Row(value))
        } else {
            None
        }
    }

    pub fn as_u8(self) -> (r: u8)
        ensures
            r == self@,
            1 <= r <= 9,
    {
        proof { use_type_invariant(self); }
        self.0
    }

    /// The zero-based position, `0..=8`.
    pub fn index(self) -> (r: u32)
        ensures
            r == self@ - 1,
            r <= 8,
    {
        proof { use_type_invariant(self); }
        self.0 as u32 - 1
    }
}

/// A column of the grid, from 1 through 9.
#[derive(Clone, Copy, Debug, Hash, PartialEq, Eq, Structural)]
pub struct Col(u8);

impl View for Col {
    type V = int;

    closed spec fn view(&self) -> int {
        self.0 as int
    }
}

impl Col {
    #[verifier::type_invariant]
    spec fn inv(self) -> bool {
        1 <= self.0 <= 9
    }

    /// All nine values, in increasing order.
    pub fn values() -> (r: Vec<Self>)
        ensures
            r@.len() == 9,
            forall|i: int| 0 <= i < 9 ==> #[trigger] r@[i]@ == i + 1,
    {
        let mut r: Vec<Self> = Vec::new();
        let mut x: u8 = 1;
        while x <= 9
            invariant
                1 <= x <= 10,
                r@.len() == x - 1,
                forall|i: int| 0 <= i < x - 1 ==> #[trigger] r@[i]@ == i + 1,
            decreases 10 - x,
        {
            r.push(Col(x));
            x = x + 1;
        }
        r
    }

    pub fn new(value: u8) -> (r: Option<Self>)
        ensures
            r.is_some() <==> 1 <= value <= 9,
            r matches Some(x) ==> x@ == value,
    {
        if value >= 1 && value <= 9 {
            Some(Col(value))
        } else {
            None
        }
    }

    pub fn as_u8(self) -> (r: u8)
        ensures
            r == self@,
            1 <= r <= 9,
    {
        proof { use_type_invariant(self); }
        self.0
    }

    /// The zero-based position, `0..=8`.
    pub fn index(self) -> (r: u32)
        ensures
            r == self@ - 1,
            r <= 8,
    {
        proof { use_type_invariant(self); }
        self.0 as u32 - 1
    }
}

/// A digit of the grid, from 1 through 9.
#[derive(Clone, Copy, Debug, Hash, PartialEq, Eq, Structural)]
pub struct Digit(u8);

impl View for Digit {
    type V = int;

    closed spec fn view(&self) -> int {
        self.0 as int
    }
}

impl Digit {
    #[verifier::type_invariant]
    spec fn inv(self) -> bool {
        1 <= self.0 <= 9
    }

    /// All nine values, in increasing order.
    pub fn values() -> (r: Vec<Self>)
        ensures
            r@.len() == 9,
            forall|i: int| 0 <= i < 9 ==> #[trigger] r@[i]@ == i + 1,
    {
        let mut r: Vec<Self> = Vec::new();
        let mut x: u8 = 1;
        while x <= 9
            invariant
                1 <= x <= 10,
                r@.len() == x - 1,
                forall|i: int| 0 <= i < x - 1 ==> #[trigger] r@[i]@ == i + 1,
            decreases 10 - x,
        {
            r.push(Digit(x));
            x = x + 1;
        }
        r
    }

    pub fn new(value: u8) -> (r: Option<Self>)
        ensures
            r.is_some() <==> 1 <= value <= 9,
            r matches Some(x) ==> x@ == value,
    {
        if value >= 1 && value <= 9 {
            Some(Digit(value))
        } else {
            None
        }
    }

    pub fn as_u8(self) -> (r: u8)
        ensures
            r == self@,
            1 <= r <= 9,
    {
        proof { use_type_invariant(self); }
        self.0
    }

    /// The zero-based position, `0..=8`.
    pub fn index(self) -> (r: u32)
        ensures
            r == self@ - 1,
            r <= 8,
    {
        proof { use_type_invariant(self); }
        self.0 as u32 - 1
    }
}

/// The proposition a tagged variable stands for.
#[derive(Clone, Copy, Debug, Hash, PartialEq, Eq, Structural)]
pub enum VariableKind {
    /// `digit` occupies the cell in the solution.
    Placed { row: Row, col: Col, digit: Digit },
    /// The cell is revealed as a clue.
    Given { row: Row, col: Col },
    /// Placing `digit` in the cell is proven by inference at depth at most `level`.
    Forced { row: Row, col: Col, digit: Digit, level: usize },
    /// Placing `digit` in the cell is refuted by inference at depth at most `level`.
    Eliminated { row: Row, col: Col, digit: Digit, level: usize },
}

/// A key that tells tags apart: the fields packed into disjoint bit ranges.
pub open spec fn tag_key(t: VariableKind) -> u128 {
    (match t {
        VariableKind::Placed { row, col, digit } => row@ * 0x10000 + col@ * 0x100 + digit@,
        VariableKind::Given { row, col } => 0x1000000 + row@ * 0x10000 + col@ * 0x100,
        VariableKind::Forced { row, col, digit, level } => 0x2000000 + level * 0x4000000
            + row@ * 0x10000 + col@ * 0x100 + digit@,
        VariableKind::Eliminated { row, col, digit, level } => 0x3000000 + level * 0x4000000
            + row@ * 0x10000 + col@ * 0x100 + digit@,
    }) as u128
}

impl VariableKind {
    pub fn key(self) -> (r: u128)
        ensures
            r == tag_key(self),
    {
        match self {
            VariableKind::Placed { row, col, digit } => {
                row.as_u8() as u128 * 0x10000 + col.as_u8() as u128 * 0x100
                    + digit.as_u8() as u128
            },
            VariableKind::Given { row, col } => {
                0x1000000 + row.as_u8() as u128 * 0x10000 + col.as_u8() as u128 * 0x100
            },
            VariableKind::Forced { row, col, digit, level } => {
                0x2000000 + level as u128 * 0x4000000 + row.as_u8() as u128 * 0x10000
                    + col.as_u8() as u128 * 0x100 + digit.as_u8() as u128
            },
            VariableKind::Eliminated { row, col, digit, level } => {
                0x3000000 + level as u128 * 0x4000000 + row.as_u8() as u128 * 0x10000
                    + col.as_u8() as u128 * 0x100 + digit.as_u8() as u128
            },
        }
    }
}

/// The box, 1 through 9, that holds the cell at `row`, `col`.
pub open spec fn box_of(row: int, col: int) -> int {
    (row - 1) / 3 * 3 + (col - 1) / 3 + 1
}

/// The first row of box `b`.
pub open spec fn box_base_row(b: int) -> int {
    (b - 1) / 3 * 3 + 1
}

/// The first column of box `b`.
pub open spec fn box_base_col(b: int) -> int {
    (b - 1) % 3 * 3 + 1
}

/// Whether two cells are distinct and share a row, a column or a box.
pub open spec fn sees(r1: int, c1: int, r2: int, c2: int) -> bool {
    !(r1 == r2 && c1 == c2) && (r1 == r2 || c1 == c2 || box_of(r1, c1) == box_of(r2, c2))
}

/// A cell of the grid.
#[derive(Clone, Copy, Debug, Hash, PartialEq, Eq, Structural)]
pub struct Cell {
    pub row: Row,
    pub col: Col,
}

impl Cell {
    /// All 81 cells, row by row.
    pub fn values() -> (r: Vec<Cell>)
        ensures
            r@.len() == 81,
            forall|i: int|
                #![trigger r@[i]]
                0 <= i < 81 ==> r@[i].row@ == i / 9 + 1 && r@[i].col@ == i % 9 + 1,
    {
        let rows = Row::values();
        let cols = Col::values();
        let mut r: Vec<Cell> = Vec::new();
        let mut i: usize = 0;
        while i < 9
            invariant
                0 <= i <= 9,
                rows@.len() == 9,
                cols@.len() == 9,
                forall|k: int| 0 <= k < 9 ==> #[trigger] rows@[k]@ == k + 1,
                forall|k: int| 0 <= k < 9 ==> #[trigger] cols@[k]@ == k + 1,
                r@.len() == 9 * i,
                forall|k: int|
                    0 <= k < 9 * i ==> #[trigger] r@[k].row@ == k / 9 + 1 && r@[k].col@ == k % 9
                        + 1,
            decreases 9 - i,
        {
            let mut j: usize = 0;
            while j < 9
                invariant
                    0 <= i < 9,
                    0 <= j <= 9,
                    rows@.len() == 9,
                    cols@.len() == 9,
                    forall|k: int| 0 <= k < 9 ==> #[trigger] rows@[k]@ == k + 1,
                    forall|k: int| 0 <= k < 9 ==> #[trigger] cols@[k]@ == k + 1,
                    r@.len() == 9 * i + j,
                    forall|k: int|
                        0 <= k < 9 * i + j ==> #[trigger] r@[k].row@ == k / 9 + 1 && r@[k].col@
                            == k % 9 + 1,
                decreases 9 - j,
            {
                r.push(Cell { row: rows[i], col: cols[j] });
                j = j + 1;
            }
            i = i + 1;
        }
        r
    }

    pub fn box_(self) -> (r: Box)
        ensures
            r@ == box_of(self.row@, self.col@),
    {
        let row = self.row.as_u8();
        let col = self.col.as_u8();
        Box((row - 1) / 3 * 3 + (col - 1) / 3 + 1)
    }

    /// How many houses (row, column, box) the two cells share.
    pub fn common_houses(self, rhs: Self) -> (r: usize)
        ensures
            r == (if self.row == rhs.row { 1int } else { 0 }) + (if self.col == rhs.col {
                1int
            } else {
                0
            }) + (if box_of(self.row@, self.col@) == box_of(rhs.row@, rhs.col@) {
                1int
            } else {
                0
            }),
    {
        (if self.row == rhs.row { 1 } else { 0 }) + (if self.col == rhs.col { 1 } else { 0 }) + (
        if self.box_() == rhs.box_() {
            1
        } else {
            0
        })
    }

    /// Whether this cell sees the other cell and is distinct from it: the cells share a row,
    /// a column or a box and are not the same cell.
    pub fn sees_other(self, rhs: Self) -> (r: bool)
        ensures
            r == sees(self.row@, self.col@, rhs.row@, rhs.col@),
    {
        proof {
            use_type_invariant(self.row);
            use_type_invariant(rhs.row);
        }
        if self.row == rhs.row && self.col == rhs.col {
            false
        } else if self.row == rhs.row || self.col == rhs.col || self.box_() == rhs.box_() {
            true
        } else {
            false
        }
    }
}

/// Seeing is symmetric and irreflexive.
pub proof fn lemma_sees_symmetric_irreflexive(r1: int, c1: int, r2: int, c2: int)
    ensures
        sees(r1, c1, r2, c2) == sees(r2, c2, r1, c1),
        !sees(r1, c1, r1, c1),
{
}

/// A 3x3 box of the grid, from 1 through 9.
#[derive(Clone, Copy, Debug, Hash, PartialEq, Eq, Structural)]
pub struct Box(u8);

impl View for Box {
    type V = int;

    closed spec fn view(&self) -> int {
        self.0 as int
    }
}

impl Box {
    #[verifier::type_invariant]
    spec fn inv(self) -> bool {
        1 <= self.0 <= 9
    }

    /// All nine values, in increasing order.
    pub fn values() -> (r: Vec<Self>)
        ensures
            r@.len() == 9,
            forall|i: int| 0 <= i < 9 ==> #[trigger] r@[i]@ == i + 1,
    {
        let mut r: Vec<Self> = Vec::new();
        let mut x: u8 = 1;
        while x <= 9
            invariant
                1 <= x <= 10,
                r@.len() == x - 1,
                forall|i: int| 0 <= i < x - 1 ==> #[trigger] r@[i]@ == i + 1,
            decreases 10 - x,
        {
            r.push(Box(x));
            x = x + 1;
        }
        r
    }

    pub fn new(value: u8) -> (r: Option<Self>)
        ensures
            r.is_some() <==> 1 <= value <= 9,
            r matches Some(x) ==> x@ == value,
    {
        if value >= 1 && value <= 9 {
            Some(Box(value))
        } else {
            None
        }
    }

    pub fn as_u8(self) -> (r: u8)
        ensures
            r == self@,
            1 <= r <= 9,
    {
        proof { use_type_invariant(self); }
        self.0
    }

    /// The zero-based position, `0..=8`.
    pub fn index(self) -> (r: u32)
        ensures
            r == self@ - 1,
            r <= 8,
    {
        proof { use_type_invariant(self); }
        self.0 as u32 - 1
    }
}

impl Box {
    /// The three rows that cross the box, top to bottom.
    pub fn rows(self) -> (r: Vec<Row>)
        ensures
            r@.len() == 3,
            forall|i: int| 0 <= i < 3 ==> #[trigger] r@[i]@ == box_base_row(self@) + i,
    {
        proof { use_type_invariant(self); }
        let base_row = (self.0 - 1) / 3 * 3 + 1;
        let mut r: Vec<Row> = Vec::new();
        let mut i: u8 = 0;
        while i < 3
            invariant
                0 <= i <= 3,
                base_row == box_base_row(self@),
                1 <= base_row <= 7,
                r@.len() == i,
                forall|k: int| 0 <= k < i ==> #[trigger] r@[k]@ == box_base_row(self@) + k,
            decreases 3 - i,
        {
            r.push(Row(base_row + i));
            i = i + 1;
        }
        r
    }

    /// The three columns that cross the box, left to right.
    pub fn cols(self) -> (r: Vec<Col>)
        ensures
            r@.len() == 3,
            forall|i: int| 0 <= i < 3 ==> #[trigger] r@[i]@ == box_base_col(self@) + i,
    {
        proof { use_type_invariant(self); }
        let base_col = (self.0 - 1) % 3 * 3 + 1;
        let mut r: Vec<Col> = Vec::new();
        let mut i: u8 = 0;
        while i < 3
            invariant
                0 <= i <= 3,
                base_col == box_base_col(self@),
                1 <= base_col <= 7,
                r@.len() == i,
                forall|k: int| 0 <= k < i ==> #[trigger] r@[k]@ == box_base_col(self@) + k,
            decreases 3 - i,
        {
            r.push(Col(base_col + i));
            i = i + 1;
        }
        r
    }

    /// The nine cells of the box, row by row.
    pub fn cells(self) -> (r: Vec<Cell>)
        ensures
            r@.len() == 9,
            forall|i: int|
                0 <= i < 9 ==> #[trigger] r@[i].row@ == box_base_row(self@) + i / 3 && r@[i].col@
                    == box_base_col(self@) + i % 3,
    {
        let rows = self.rows();
        let cols = self.cols();
        let mut r: Vec<Cell> = Vec::new();
        let mut i: usize = 0;
        while i < 3
            invariant
                0 <= i <= 3,
                rows@.len() == 3,
                cols@.len() == 3,
                forall|k: int| 0 <= k < 3 ==> #[trigger] rows@[k]@ == box_base_row(self@) + k,
                forall|k: int| 0 <= k < 3 ==> #[trigger] cols@[k]@ == box_base_col(self@) + k,
                r@.len() == 3 * i,
                forall|k: int|
                    0 <= k < 3 * i ==> #[trigger] r@[k].row@ == box_base_row(self@) + k / 3
                        && r@[k].col@ == box_base_col(self@) + k % 3,
            decreases 3 - i,
        {
            let mut j: usize = 0;
            while j < 3
                invariant
                    0 <= i < 3,
                    0 <= j <= 3,
                    rows@.len() == 3,
                    cols@.len() == 3,
                    forall|k: int| 0 <= k < 3 ==> #[trigger] rows@[k]@ == box_base_row(self@) + k,
                    forall|k: int| 0 <= k < 3 ==> #[trigger] cols@[k]@ == box_base_col(self@) + k,
                    r@.len() == 3 * i + j,
                    forall|k: int|
                        0 <= k < 3 * i + j ==> #[trigger] r@[k].row@ == box_base_row(self@) + k / 3
                            && r@[k].col@ == box_base_col(self@) + k % 3,
                decreases 3 - j,
            {
                r.push(Cell { row: rows[i], col: cols[j] });
                j = j + 1;
            }
            i = i + 1;
        }
        r
    }
}

/// Each cell lies in exactly one box: the nine cells of box `b` hold the cell at `row`, `col`
/// exactly when `b` is that cell's box.
pub proof fn lemma_cell_in_exactly_one_box(row: int, col: int, b: int)
    requires
        1 <= row <= 9,
        1 <= col <= 9,
        1 <= b <= 9,
    ensures
        (exists|i: int|
            0 <= i < 9 && #[trigger] (box_base_row(b) + i / 3) == row && box_base_col(b) + i % 3
                == col) <==> b == box_of(row, col),
{
    if b == box_of(row, col) {
        let i = (row - box_base_row(b)) * 3 + (col - box_base_col(b));
        assert(0 <= i < 9 && box_base_row(b) + i / 3 == row && box_base_col(b) + i % 3 == col);
    }
}

/// The row numbered `i`.
pub closed spec fn row_of(i: int) -> Row {
    Row(i as u8)
}

/// The column numbered `i`.
pub closed spec fn col_of(i: int) -> Col {
    Col(i as u8)
}

/// The digit `i`.
pub closed spec fn digit_of(i: int) -> Digit {
    Digit(i as u8)
}

/// Each row, column and digit is the one its number names.
pub proof fn lemma_scalars_by_number(r: Row, c: Col, d: Digit)
    ensures
        r == row_of(r@),
        c == col_of(c@),
        d == digit_of(d@),
{
}

} // verus!
