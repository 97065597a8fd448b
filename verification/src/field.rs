//! The data model: a square field of cells, each known, still open with a
//! list of candidate values, or not yet classified; and the textual
//! picture of a field that the display adapter prints.

use vstd::prelude::*;
use vstd::string::StringExecFns;

verus! {

/// The greatest number possible in the sudoku field.
/// The smallest number is hardcoded as 1.
pub const MAX_NUM: usize = 9;
/// Height and width of the sudoku field.
pub const SIZE: usize = MAX_NUM;
/// Height and width of one sudoku block. The sudoku field
/// consists of 3*3 blocks.
pub const BLOCK_SIZE: usize = 3;

/// One cell of the field.
#[derive(Debug, Eq, PartialEq, Clone)]
pub enum Cell {
    /// The cell's final value, either a clue or a resolved cell.
    Known(i32),
    /// Not yet classified; only appears before the first sweep.
    Empty,
    /// The values still allowed here, in ascending order, no duplicates.
    Possible(Vec<i32>),
}

/// The mathematical value of a `Cell`: candidate vectors become
/// integer sequences.
pub enum CellV {
    Known(int),
    Empty,
    Possible(Seq<int>),
}

/// A vector of candidate numbers, as a sequence of unbounded integers.
pub open spec fn vals_of(vs: Seq<i32>) -> Seq<int> {
    vs.map_values(|v: i32| v as int)
}

impl View for Cell {
    type V = CellV;

    open spec fn view(&self) -> CellV {
        match self {
            Cell::Known(v) => CellV::Known(*v as int),
            Cell::Empty => CellV::Empty,
            Cell::Possible(vs) => CellV::Possible(vals_of(vs@)),
        }
    }
}

/// The mathematical value of one line of cells.
pub open spec fn row_view(row: Seq<Cell>) -> Seq<CellV> {
    row.map_values(|c: Cell| c@)
}

/// The mathematical value of a whole field: a sequence of lines,
/// each a sequence of cell values, indexed `g[y][x]`.
pub type GridV = Seq<Seq<CellV>>;

/// A well-formed grid is square with side `SIZE`.
pub open spec fn grid_wf(g: GridV) -> bool {
    &&& g.len() == SIZE
    &&& forall|y: int| 0 <= y < SIZE ==> (#[trigger] g[y]).len() == SIZE
}

/// The field consists of an array of lines that consist of an array
/// of cells. Axes: `field.cells[y][x]`.
#[derive(Debug, Eq, PartialEq)]
pub struct Field {
    pub cells: Vec<Vec<Cell>>,
}

impl View for Field {
    type V = GridV;

    open spec fn view(&self) -> GridV {
        self.cells@.map_values(|row: Vec<Cell>| row_view(row@))
    }
}

impl Field {
    pub fn new_with(cells: Vec<Vec<Cell>>) -> (r: Field)
        ensures
            r.cells == cells,
    {
        Field { cells }
    }

    /// A well-formed field with every cell still unclassified.
    pub fn empty() -> (r: Field)
        ensures
            grid_wf(r@),
            forall|x: int, y: int|
                0 <= x < SIZE && 0 <= y < SIZE ==> #[trigger] r@[y][x] is Empty,
    {
        let mut cells: Vec<Vec<Cell>> = Vec::new();
        let mut y: usize = 0;
        while y < SIZE
            invariant
                y <= SIZE,
                cells@.len() == y,
                forall|yy: int| #![trigger cells@[yy]]
                    0 <= yy < y ==> {
                        &&& cells@[yy]@.len() == SIZE
                        &&& forall|xx: int|
                            0 <= xx < SIZE ==> #[trigger] cells@[yy]@[xx] is Empty
                    },
            decreases SIZE - y,
        {
            let mut line: Vec<Cell> = Vec::new();
            let mut x: usize = 0;
            while x < SIZE
                invariant
                    x <= SIZE,
                    line@.len() == x,
                    forall|xx: int| 0 <= xx < x ==> #[trigger] line@[xx] is Empty,
                decreases SIZE - x,
            {
                line.push(Cell::Empty);
                x = x + 1;
            }
            cells.push(line);
            y = y + 1;
        }
        let r = Field { cells };
        proof {
            assert(forall|x: int, y: int|
                0 <= x < SIZE && 0 <= y < SIZE ==> #[trigger] r@[y][x] is Empty);
        }
        r
    }
}

/// Every listed value lies in 1..=MAX_NUM.
pub open spec fn values_in_range(s: Seq<int>) -> bool {
    forall|k: int| 0 <= k < s.len() ==> 1 <= #[trigger] s[k] <= MAX_NUM
}

/// The cell's known value, or its listed possibilities, lie in
/// 1..=MAX_NUM, as the data model demands.
pub open spec fn cell_values_ok(c: CellV) -> bool {
    match c {
        CellV::Known(v) => 1 <= v <= MAX_NUM,
        CellV::Empty => true,
        CellV::Possible(s) => values_in_range(s),
    }
}

/// Every cell of the grid holds values of 1..=MAX_NUM only, as the data
/// model demands of every field the loader hands out.
pub open spec fn cell_values_in_range(g: GridV) -> bool {
    forall|x: int, y: int|
        0 <= x < SIZE && 0 <= y < SIZE ==> cell_values_ok(#[trigger] g[y][x])
}

/// `n` spaces (none for `n <= 0`).
pub open spec fn spaces(n: int) -> Seq<char>
    decreases n,
{
    if n <= 0 {
        Seq::empty()
    } else {
        spaces(n - 1).push(' ')
    }
}

/// The character for a value of 1..=MAX_NUM.
pub open spec fn digit_char(v: int) -> char {
    if v == 1 {
        '1'
    } else if v == 2 {
        '2'
    } else if v == 3 {
        '3'
    } else if v == 4 {
        '4'
    } else if v == 5 {
        '5'
    } else if v == 6 {
        '6'
    } else if v == 7 {
        '7'
    } else if v == 8 {
        '8'
    } else if v == 9 {
        '9'
    } else {
        '0'
    }
}

/// The characters for a list of values, in order.
pub open spec fn digit_chars(s: Seq<int>) -> Seq<char>
    decreases s.len(),
{
    if s.len() == 0 {
        Seq::empty()
    } else {
        digit_chars(s.drop_last()).push(digit_char(s.last()))
    }
}

/// The text of one cell, `width` columns wide: a known value right
/// aligned, an unclassified cell blank, and an open cell blank too unless
/// `alternate` asks for the remaining possibilities written out.
pub open spec fn render_cell(c: CellV, width: int, alternate: bool) -> Seq<char> {
    match c {
        CellV::Known(v) => spaces(width - 1) + seq![digit_char(v)],
        CellV::Empty => spaces(width),
        CellV::Possible(s) => if alternate {
            spaces(width - s.len()) + digit_chars(s)
        } else {
            spaces(width)
        },
    }
}

/// The text of the first `n` cells of one line, each followed by its
/// separator: a bar after every third cell, a space otherwise.
pub open spec fn render_row_upto(row: Seq<CellV>, width: int, alternate: bool, n: int) -> Seq<
    char,
>
    decreases n,
{
    if n <= 0 {
        Seq::empty()
    } else {
        render_row_upto(row, width, alternate, n - 1) + render_cell(row[n - 1], width, alternate)
            + (if (n - 1) % 3 == 2 {
            "|"@
        } else {
            " "@
        })
    }
}

/// The text of the first `m` lines, each opened by a bar, closed by a
/// line break, and followed by a border after every third line.
pub open spec fn render_rows_upto(g: GridV, width: int, alternate: bool, m: int) -> Seq<char>
    decreases m,
{
    if m <= 0 {
        Seq::empty()
    } else {
        render_rows_upto(g, width, alternate, m - 1) + "|"@ + render_row_upto(
            g[m - 1],
            width,
            alternate,
            SIZE as int,
        ) + "\n"@ + (if (m - 1) % 3 == 2 {
            "+-----+-----+-----+\n"@
        } else {
            Seq::empty()
        })
    }
}

/// The whole textual picture of a field: a blank line, the top border,
/// then the nine lines with their borders.
pub open spec fn render_field(g: GridV, width: int, alternate: bool) -> Seq<char> {
    "\n+-----+-----+-----+\n"@ + render_rows_upto(g, width, alternate, SIZE as int)
}

/// Append `n` spaces.
fn append_spaces(out: &mut String, n: usize)
    ensures
        final (out)@ == old(out)@ + spaces(n as int),
{
    let ghost start = out@;
    let mut k: usize = 0;
    while k < n
        invariant
            k <= n,
            out@ == start + spaces(k as int),
        decreases n - k,
    {
        out.append(" ");
        proof {
            reveal_strlit(" ");
            assert(out@ =~= start + spaces(k + 1));
        }
        k = k + 1;
    }
}

/// Append the character of a value of 1..=MAX_NUM.
fn append_digit(out: &mut String, v: i32)
    requires
        1 <= v <= MAX_NUM,
    ensures
        final (out)@ == old(out)@ + seq![digit_char(v as int)],
{
    let ghost start = out@;
    match v {
        1 => out.append("1"),
        2 => out.append("2"),
        3 => out.append("3"),
        4 => out.append("4"),
        5 => out.append("5"),
        6 => out.append("6"),
        7 => out.append("7"),
        8 => out.append("8"),
        _ => out.append("9"),
    }
    proof {
        reveal_strlit("1");
        reveal_strlit("2");
        reveal_strlit("3");
        reveal_strlit("4");
        reveal_strlit("5");
        reveal_strlit("6");
        reveal_strlit("7");
        reveal_strlit("8");
        reveal_strlit("9");
        assert(out@ =~= start + seq![digit_char(v as int)]);
    }
}

impl Cell {
    /// The text of this cell, `width` columns wide; with `alternate` the
    /// remaining possibilities of an open cell are written out.
    pub fn render_into(&self, out: &mut String, width: usize, alternate: bool)
        requires
            cell_values_ok(self@),
        ensures
            final (out)@ == old(out)@ + render_cell(self@, width as int, alternate),
    {
        let ghost start = out@;
        match self {
            Cell::Known(num) => {
                if width >= 1 {
                    append_spaces(out, width - 1);
                }
                append_digit(out, *num);
            },
            Cell::Empty => {
                append_spaces(out, width);
            },
            Cell::Possible(vec) => {
                if alternate {
                    proof {
                        assert(self@ == CellV::Possible(vals_of(vec@)));
                    }
                    // print leading spaces, then the possibilities
                    if width > vec.len() {
                        append_spaces(out, width - vec.len());
                    }
                    let ghost s = vals_of(vec@);
                    proof {
                        assert(values_in_range(s));
                    }
                    let ghost mid = out@;
                    let mut k: usize = 0;
                    while k < vec.len()
                        invariant
                            k <= vec.len(),
                            s == vals_of(vec@),
                            values_in_range(s),
                            out@ == mid + digit_chars(s.take(k as int)),
                        decreases vec.len() - k,
                    {
                        proof {
                            assert(s.len() == vec@.len());
                            assert(s[k as int] == vec@[k as int] as int);
                            assert(1 <= s[k as int] <= MAX_NUM);
                        }
                        append_digit(out, vec[k]);
                        proof {
                            assert(s.take(k + 1).drop_last() =~= s.take(k as int));
                            assert(out@ =~= mid + digit_chars(s.take(k + 1)));
                        }
                        k = k + 1;
                    }
                    proof {
                        assert(s.take(s.len() as int) =~= s);
                        assert(out@ =~= start + render_cell(self@, width as int, alternate));
                    }
                } else {
                    append_spaces(out, width);
                }
            },
        }
    }
}

impl Field {
    /// The textual picture of this field, every cell `width` columns
    /// wide; with `alternate` the remaining possibilities of open cells
    /// are written out. The display adapter prints exactly this text.
    pub fn render(&self, width: usize, alternate: bool) -> (r: String)
        requires
            grid_wf(self@),
            cell_values_in_range(self@),
        ensures
            r@ == render_field(self@, width as int, alternate),
    {
        let ghost g = self@;
        let mut out = String::new();
        out.append("\n+-----+-----+-----+\n");
        let mut y: usize = 0;
        while y < SIZE
        invariant
                grid_wf(self@),
                g == self@,
                cell_values_in_range(self@),
                y <= SIZE,
                out@ == "\n+-----+-----+-----+\n"@ + render_rows_upto(
                    g,
                    width as int,
                    alternate,
                    y as int,
                ),
            decreases SIZE - y,
        {
            out.append("|");
            let ghost row_start = out@;
            let mut x: usize = 0;
            while x < SIZE
                invariant
                    grid_wf(self@),
                    g == self@,
                    cell_values_in_range(self@),
                    y < SIZE,
                    x <= SIZE,
                    out@ == row_start + render_row_upto(g[y as int], width as int, alternate, x as int),
                decreases SIZE - x,
            {
                proof {
                    assert(g[y as int][x as int] == self.cells@[y as int]@[x as int]@);
                }
                self.cells[y][x].render_into(&mut out, width, alternate);
                if x % 3 == 2 {
                    out.append("|");
                } else {
                    out.append(" ");
                }
                proof {
                    assert(out@ =~= row_start + render_row_upto(
                        g[y as int],
                        width as int,
                        alternate,
                        x + 1,
                    ));
                }
                x = x + 1;
            }
            out.append("\n");
            if y % 3 == 2 {
                out.append("+-----+-----+-----+\n");
            }
            proof {
                assert(out@ =~= "\n+-----+-----+-----+\n"@ + render_rows_upto(
                    g,
                    width as int,
                    alternate,
                    y + 1,
                ));
            }
            y = y + 1;
        }
        out
    }
}

} // verus!
