use vstd::prelude::*;

verus! {

/// One cell: empty, or a digit.
pub type Tile = Option<u32>;

/// A position on the board, as (column, row).
pub type TilePointer = (usize, usize);

/// Side length of the board.
pub const SIZE: usize = 9;

/// A cell value the board may hold: empty, or a digit from 1 to 9.
pub open spec fn is_cell(t: Tile) -> bool {
    match t {
        Some(d) => 1 <= d <= 9,
        None => true,
    }
}

/// The character that shows a digit.
pub open spec fn digit_char(d: u32) -> char {
    if d == 1 {
        '1'
    } else if d == 2 {
        '2'
    } else if d == 3 {
        '3'
    } else if d == 4 {
        '4'
    } else if d == 5 {
        '5'
    } else if d == 6 {
        '6'
    } else if d == 7 {
        '7'
    } else if d == 8 {
        '8'
    } else {
        '9'
    }
}

/// The character that shows a cell: its digit, or `-` when it is empty.
pub open spec fn tile_char(t: Tile) -> char {
    match t {
        Some(d) => digit_char(d),
        None => '-',
    }
}

/// One row as text: a character per cell, then a newline.
pub open spec fn row_text(row: Seq<Tile>) -> Seq<char> {
    row.map_values(|t: Tile| tile_char(t)).push('\n')
}

/// Rows as text, one line each.
pub open spec fn grid_text(rows: Seq<Seq<Tile>>) -> Seq<char>
    decreases rows.len(),
{
    if rows.len() == 0 {
        Seq::empty()
    } else {
        grid_text(rows.drop_last()) + row_text(rows.last())
    }
}

fn tile_str(t: Tile) -> (r: &'static str)
    requires
        is_cell(t),
    ensures
        r@ == seq![tile_char(t)],
{
    proof {
        reveal_strlit("-");
        reveal_strlit("1");
        reveal_strlit("2");
        reveal_strlit("3");
        reveal_strlit("4");
        reveal_strlit("5");
        reveal_strlit("6");
        reveal_strlit("7");
        reveal_strlit("8");
        reveal_strlit("9");
    }
    match t {
        None => "-",
        Some(1) => "1",
        Some(2) => "2",
        Some(3) => "3",
        Some(4) => "4",
        Some(5) => "5",
        Some(6) => "6",
        Some(7) => "7",
        Some(8) => "8",
        Some(_) => "9",
    }
}

/// Why a board could not be built from rows.
#[derive(Debug, Clone, Copy, PartialEq, Eq, Structural)]
pub enum BoardError {
    WrongRowCount,
    WrongColumnCount,
}

impl BoardError {
    /// A short description of the error.
    pub fn message(&self) -> (r: String)
        ensures
            *self == BoardError::WrongRowCount ==> r@ == "Invalid row count"@,
            *self == BoardError::WrongColumnCount ==> r@ == "Invalid columns count"@,
    {
        match self {
            BoardError::WrongRowCount => String::from_str("Invalid row count"),
            BoardError::WrongColumnCount => String::from_str("Invalid columns count"),
        }
    }
}

/// A 9×9 grid of cells.
pub struct Board {
    data: [[Tile; 9]; 9],
}

/// The contents of each row.
pub open spec fn row_views(rows: Seq<Vec<Tile>>) -> Seq<Seq<Tile>> {
    rows.map_values(|row: Vec<Tile>| row@)
}

/// The outcome that building a board from `rows` must have.
pub open spec fn construct_outcome(rows: Seq<Seq<Tile>>, r: Result<Board, BoardError>) -> bool {
    if rows.len() != 9 {
        r == Err::<Board, BoardError>(BoardError::WrongRowCount)
    } else if exists|y: int| 0 <= y < 9 && #[trigger] rows[y].len() != 9 {
        r == Err::<Board, BoardError>(BoardError::WrongColumnCount)
    } else {
        r is Ok && r->Ok_0@ == rows
    }
}

impl View for Board {
    type V = Seq<Seq<Tile>>;

    open spec fn view(&self) -> Seq<Seq<Tile>> {
        Seq::new(9, |y: int| Seq::new(9, |x: int| self.tile(x, y)))
    }
}

impl Board {
    /// The cell in column `x` of row `y`.
    pub closed spec fn tile(&self, x: int, y: int) -> Tile {
        self.data@[y]@[x]
    }

    /// Every cell is empty or holds a digit from 1 to 9.
    pub open spec fn cells_ok(&self) -> bool {
        forall|x: int, y: int| 0 <= x < 9 && 0 <= y < 9 ==> is_cell(#[trigger] self.tile(x, y))
    }

    /// Builds a board from 9 rows of 9 cells each, copying them as they are.
    pub fn new(input_data: Vec<Vec<Tile>>) -> (r: Result<Board, BoardError>)
        requires
            forall|y: int, x: int|
                0 <= y < input_data@.len() && 0 <= x < input_data@[y]@.len() ==> is_cell(
                    #[trigger] input_data@[y]@[x],
                ),
        ensures
            construct_outcome(row_views(input_data@), r),
            r is Ok ==> r->Ok_0.cells_ok(),
    {
        let ghost rows = row_views(input_data@);
        if input_data.len() != SIZE {
            return Err(BoardError::WrongRowCount);
        }
        let mut data: [[Tile; 9]; 9] = [[None; 9]; 9];
        let mut i: usize = 0;
        while i < SIZE
            invariant
                input_data@.len() == 9,
                0 <= i <= 9,
                rows == row_views(input_data@),
                forall|y: int| 0 <= y < i ==> #[trigger] rows[y].len() == 9,
                forall|y: int, x: int|
                    0 <= y < i && 0 <= x < 9 ==> data@[y]@[x] == #[trigger] rows[y][x],
                forall|y: int, x: int|
                    0 <= y < input_data@.len() && 0 <= x < input_data@[y]@.len() ==> is_cell(
                        #[trigger] input_data@[y]@[x],
                    ),
            decreases 9 - i,
        {
            let row = &input_data[i];
            if row.len() != SIZE {
                assert(rows[i as int].len() != 9);
                return Err(BoardError::WrongColumnCount);
            }
            let mut j: usize = 0;
            while j < SIZE
                invariant
                    input_data@.len() == 9,
                    0 <= i < 9,
                    0 <= j <= 9,
                    row@.len() == 9,
                    *row == input_data@[i as int],
                    rows == row_views(input_data@),
                    forall|y: int| 0 <= y < i ==> #[trigger] rows[y].len() == 9,
                    forall|y: int, x: int|
                        0 <= y < i && 0 <= x < 9 ==> data@[y]@[x] == #[trigger] rows[y][x],
                    forall|y: int, x: int|
                        0 <= y < input_data@.len() && 0 <= x < input_data@[y]@.len() ==> is_cell(
                            #[trigger] input_data@[y]@[x],
                        ),
                    forall|x: int| 0 <= x < j ==> data@[i as int]@[x] == #[trigger] rows[i as int][x],
                decreases 9 - j,
            {
                let ghost before = data;
                data[i][j] = row[j];
                assert(data@[i as int]@ == before@[i as int]@.update(j as int, row@[j as int]));
                assert(forall|y: int| 0 <= y < 9 && y != i ==> data@[y] == before@[y]);
                assert(rows[i as int] == row@);
                j += 1;
            }
            i += 1;
        }
        let b = Board { data };
        assert forall|y: int| 0 <= y < 9 implies #[trigger] b@[y] =~= rows[y] by {}
        assert(b@ =~= rows);
        assert forall|x: int, y: int| 0 <= x < 9 && 0 <= y < 9 implies is_cell(
            #[trigger] b.tile(x, y),
        ) by {
            assert(rows[y][x] == input_data@[y]@[x]);
        }
        Ok(b)
    }
}

impl Board {
    /// The cell at `ptr`.
    pub fn get_tile(&self, ptr: TilePointer) -> (r: Tile)
        requires
            ptr.0 < 9,
            ptr.1 < 9,
        ensures
            r == self.tile(ptr.0 as int, ptr.1 as int),
    {
        let (x, y) = ptr;
        self.data[y][x]
    }

    /// Overwrites the cell at `ptr` with `value`; every other cell is kept.
    pub fn set_tile(&mut self, ptr: TilePointer, value: Tile)
        requires
            ptr.0 < 9,
            ptr.1 < 9,
        ensures
            forall|x: int, y: int|
                0 <= x < 9 && 0 <= y < 9 ==> #[trigger] final(self).tile(x, y) == if x == ptr.0
                    && y == ptr.1 {
                    value
                } else {
                    old(self).tile(x, y)
                },
    {
        let (x, y) = ptr;
        let ghost before = self.data;
        self.data[y][x] = value;
        assert(self.data@[y as int]@ == before@[y as int]@.update(x as int, value));
        assert(forall|j: int| 0 <= j < 9 && j != y ==> self.data@[j] == before@[j]);
    }

    /// The board as text: nine lines of nine characters, `-` for an empty cell.
    pub fn render(&self) -> (r: String)
        requires
            self.cells_ok(),
        ensures
            r@ == grid_text(self@),
    {
        let mut s = String::new();
        let mut y: usize = 0;
        while y < SIZE
            invariant
                y <= 9,
                self.cells_ok(),
                s@ == grid_text(self@.take(y as int)),
            decreases 9 - y,
        {
            let mut x: usize = 0;
            while x < SIZE
                invariant
                    y < 9,
                    x <= 9,
                    self.cells_ok(),
                    s@ == grid_text(self@.take(y as int)) + self@[y as int].take(x as int).map_values(
                        |t: Tile| tile_char(t),
                    ),
                decreases 9 - x,
            {
                assert(is_cell(self.tile(x as int, y as int)));
                s.append(tile_str(self.data[y][x]));
                assert(self@[y as int].take(x + 1).map_values(|t: Tile| tile_char(t)) =~= self@[
                    y as int].take(x as int).map_values(|t: Tile| tile_char(t)).push(
                    tile_char(self.tile(x as int, y as int)),
                ));
                x += 1;
            }
            proof {
                reveal_strlit("\n");
            }
            s.append("\n");
            assert(self@.take(y + 1).drop_last() =~= self@.take(y as int));
            assert(self@[y as int].take(9) =~= self@[y as int]);
            assert(self@.take(y + 1).last() == self@[y as int]);
            assert(grid_text(self@.take(y + 1)) == grid_text(self@.take(y as int)) + row_text(self@[y as int]));
            assert(s@ =~= grid_text(self@.take(y as int)) + row_text(self@[y as int]));
            y += 1;
        }
        assert(self@.take(9) =~= self@);
        s
    }

    /// An independent copy with the same cells.
    pub fn clone(&self) -> (r: Board)
        ensures
            r@ == self@,
            forall|x: int, y: int| 0 <= x < 9 && 0 <= y < 9 ==> #[trigger] r.tile(x, y) == self.tile(x, y),
    {
        Board { data: self.data }
    }
}

/// For each cell, row by row, whether `solved` holds something else than `puzzle` there.
pub fn changed_tiles(puzzle: &Board, solved: &Board) -> (r: Vec<Vec<bool>>)
    ensures
        r@.len() == 9,
        forall|y: int| 0 <= y < 9 ==> (#[trigger] r@[y])@.len() == 9,
        forall|y: int, x: int|
            0 <= y < 9 && 0 <= x < 9 ==> #[trigger] r@[y]@[x] == (puzzle.tile(x, y) != solved.tile(x, y)),
{
    let mut r: Vec<Vec<bool>> = Vec::new();
    let mut y: usize = 0;
    while y < SIZE
        invariant
            y <= 9,
            r@.len() == y,
            forall|j: int| 0 <= j < y ==> (#[trigger] r@[j])@.len() == 9,
            forall|j: int, x: int|
                0 <= j < y && 0 <= x < 9 ==> #[trigger] r@[j]@[x] == (puzzle.tile(x, j) != solved.tile(x, j)),
        decreases 9 - y,
    {
        let mut row: Vec<bool> = Vec::new();
        let mut x: usize = 0;
        while x < SIZE
            invariant
                y < 9,
                x <= 9,
                row@.len() == x,
                forall|i: int| 0 <= i < x ==> #[trigger] row@[i] == (puzzle.tile(i, y as int) != solved.tile(i, y as int)),
            decreases 9 - x,
        {
            let a = puzzle.get_tile((x, y));
            let b = solved.get_tile((x, y));
            row.push(a != b);
            x += 1;
        }
        r.push(row);
        y += 1;
    }
    r
}

} // verus!
