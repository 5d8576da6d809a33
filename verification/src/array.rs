use vstd::prelude::*;

verus! {

/// Geometric relation of two letters on the key square: they share a row,
/// share a column, or sit on opposite corners of a rectangle.
#[allow(non_camel_case_types)]
#[derive(PartialEq, Eq, Structural, Debug)]
pub enum BoardShape {
    ROW,
    COLUMN,
    RECTANGLE,
}

/// A 5x5 key square of letters, laid out row-major.
#[derive(Debug)]
pub struct Board {
    pub state: [[char; 5]; 5],
}

impl Board {
    /// The letter held by the cell at (row, column).
    pub open spec fn at(self, r: int, c: int) -> char {
        self.state@[r]@[c]
    }

    /// No letter occupies two cells: every cell holds a distinct letter.
    pub open spec fn distinct(self) -> bool {
        forall|r1: int, c1: int, r2: int, c2: int|
            0 <= r1 < 5 && 0 <= c1 < 5 && 0 <= r2 < 5 && 0 <= c2 < 5 && (r1 != r2 || c1 != c2)
                ==> self.at(r1, c1) != self.at(r2, c2)
    }

    /// The letter appears somewhere on the board.
    pub open spec fn has(self, ch: char) -> bool {
        exists|r: int, c: int| 0 <= r < 5 && 0 <= c < 5 && self.at(r, c) == ch
    }

    /// The row index of a letter that the board has.
    pub open spec fn row_of(self, ch: char) -> int {
        (choose|r: int, c: int| 0 <= r < 5 && 0 <= c < 5 && self.at(r, c) == ch).0
    }

    /// The column index of a letter that the board has.
    pub open spec fn col_of(self, ch: char) -> int {
        (choose|r: int, c: int| 0 <= r < 5 && 0 <= c < 5 && self.at(r, c) == ch).1
    }

    /// A letter the board has sits at (row_of, col_of), inside the grid.
    pub proof fn lemma_pos_valid(self, ch: char)
        requires
            self.has(ch),
        ensures
            0 <= self.row_of(ch) < 5,
            0 <= self.col_of(ch) < 5,
            self.at(self.row_of(ch), self.col_of(ch)) == ch,
    {
        let (r, c) = choose|r: int, c: int| 0 <= r < 5 && 0 <= c < 5 && self.at(r, c) == ch;
        assert(0 <= r < 5 && 0 <= c < 5 && self.at(r, c) == ch);
    }

    /// On a board of distinct letters, reading a cell and locating its letter
    /// are inverse operations.
    pub proof fn lemma_at_pos(self, r: int, c: int)
        requires
            self.distinct(),
            0 <= r < 5,
            0 <= c < 5,
        ensures
            self.has(self.at(r, c)),
            self.row_of(self.at(r, c)) == r,
            self.col_of(self.at(r, c)) == c,
    {
        assert(self.has(self.at(r, c)));
        self.lemma_pos_valid(self.at(r, c));
    }

    /// Lay the first 25 letters of `data` into the grid, row-major.
    pub fn init(data: &[char]) -> (board: Board)
        requires
            data@.len() >= 25,
        ensures
            forall|r: int, c: int| 0 <= r < 5 && 0 <= c < 5 ==> board.at(r, c) == data@[r * 5 + c],
    {
        let mut state: [[char; 5]; 5] = [[data[0]; 5]; 5];
        let mut i: usize = 0;
        while i < 5
            invariant
                i <= 5,
                data@.len() >= 25,
                forall|r: int, c: int| 0 <= r < i && 0 <= c < 5 ==> state@[r]@[c] == data@[r * 5 + c],
            decreases 5 - i,
        {
            let mut row: [char; 5] = [data[0]; 5];
            let mut j: usize = 0;
            while j < 5
                invariant
                    j <= 5,
                    i < 5,
                    data@.len() >= 25,
                    forall|c: int| 0 <= c < j ==> row@[c] == data@[i * 5 + c],
                decreases 5 - j,
            {
                row[j] = data[i * 5 + j];
                j += 1;
            }
            state[i] = row;
            i += 1;
        }
        Board { state }
    }

    /// Row-major scan for a letter. Returns the position of its first
    /// occurrence as `[row, column]`, or `None` when the board lacks it.
    pub fn get_position(&self, element: char) -> (pos: Option<[usize; 2]>)
        ensures
            match pos {
                Some(p) => {
                    &&& p@[0] < 5
                    &&& p@[1] < 5
                    &&& self.at(p@[0] as int, p@[1] as int) == element
                    &&& forall|r: int, c: int|
                        0 <= r < 5 && 0 <= c < 5 && (r < p@[0] || (r == p@[0] && c < p@[1]))
                            ==> self.at(r, c) != element
                },
                None => !self.has(element),
            },
    {
        let mut i: usize = 0;
        while i < 5
            invariant
                i <= 5,
                forall|r: int, c: int| 0 <= r < i && 0 <= c < 5 ==> self.at(r, c) != element,
            decreases 5 - i,
        {
            let mut j: usize = 0;
            while j < 5
                invariant
                    i < 5,
                    j <= 5,
                    forall|r: int, c: int| 0 <= r < i && 0 <= c < 5 ==> self.at(r, c) != element,
                    forall|c: int| 0 <= c < j ==> self.at(i as int, c) != element,
                decreases 5 - j,
            {
                if element == self.state[i][j] {
                    return Some([i, j]);
                }
                j += 1;
            }
            i += 1;
        }
        None
    }

    /// The letter at the given row and column, read straight off the grid.
    pub fn get_letter(&self, row: usize, column: usize) -> (letter: char)
        requires
            row < 5,
            column < 5,
        ensures
            letter == self.at(row as int, column as int),
    {
        self.state[row][column]
    }

    /// Whether the pair shares a column.
    fn is_shape_column(&self, pair: [char; 2]) -> (same: bool)
        requires
            self.distinct(),
            self.has(pair@[0]),
            self.has(pair@[1]),
        ensures
            same == (self.col_of(pair@[0]) == self.col_of(pair@[1])),
    {
        let p1 = self.get_position(pair[0]).unwrap();
        let p2 = self.get_position(pair[1]).unwrap();
        proof {
            self.lemma_at_pos(p1@[0] as int, p1@[1] as int);
            self.lemma_at_pos(p2@[0] as int, p2@[1] as int);
        }
        p1[1] == p2[1]
    }

    /// Whether the pair shares a row.
    fn is_shape_row(&self, pair: [char; 2]) -> (same: bool)
        requires
            self.distinct(),
            self.has(pair@[0]),
            self.has(pair@[1]),
        ensures
            same == (self.row_of(pair@[0]) == self.row_of(pair@[1])),
    {
        let p1 = self.get_position(pair[0]).unwrap();
        let p2 = self.get_position(pair[1]).unwrap();
        proof {
            self.lemma_at_pos(p1@[0] as int, p1@[1] as int);
            self.lemma_at_pos(p2@[0] as int, p2@[1] as int);
        }
        p1[0] == p2[0]
    }

    /// Whether the pair shapes a rectangle: neither the same row nor the
    /// same column.
    #[allow(dead_code)]
    fn is_shape_rectangle(&self, pair: [char; 2]) -> (rect: bool)
        requires
            self.distinct(),
            self.has(pair@[0]),
            self.has(pair@[1]),
        ensures
            rect == (self.col_of(pair@[0]) != self.col_of(pair@[1])
                && self.row_of(pair@[0]) != self.row_of(pair@[1])),
    {
        !self.is_shape_column(pair) && !self.is_shape_row(pair)
    }

    /// Classify the pair's geometry. A shared column is reported first, then
    /// a shared row, else the pair spans a rectangle.
    pub fn get_shape(&self, pair: [char; 2]) -> (shape: BoardShape)
        requires
            self.distinct(),
            self.has(pair@[0]),
            self.has(pair@[1]),
        ensures
            shape == BoardShape::COLUMN <==> self.col_of(pair@[0]) == self.col_of(pair@[1]),
            shape == BoardShape::ROW <==> (self.col_of(pair@[0]) != self.col_of(pair@[1])
                && self.row_of(pair@[0]) == self.row_of(pair@[1])),
            shape == BoardShape::RECTANGLE <==> (self.col_of(pair@[0]) != self.col_of(pair@[1])
                && self.row_of(pair@[0]) != self.row_of(pair@[1])),
    {
        if self.is_shape_column(pair) {
            BoardShape::COLUMN
        } else if self.is_shape_row(pair) {
            BoardShape::ROW
        } else {
            BoardShape::RECTANGLE
        }
    }
}

} // verus!
