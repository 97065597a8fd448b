//! The grid loader: reads a string in comma-separated-values format with
//! SIZE rows and columns, `_` for a blank cell and a number of 1..=MAX_NUM
//! for a clue, into a `Field`.

use vstd::prelude::*;
use vstd::utf8::encode_utf8;

use crate::field::{Cell, CellV, Field, GridV, MAX_NUM, SIZE, grid_wf, row_view};

verus! {

/// ASCII code of `_`, the blank cell.
pub const UNDERSCORE: u8 = 95;
/// ASCII code of `0`.
pub const DIGIT_ZERO: u8 = 48;
/// ASCII code of `9`.
pub const DIGIT_NINE: u8 = 57;
/// ASCII code of `,`, the cell separator.
pub const COMMA: u8 = 44;
/// ASCII code of the line feed, the line separator.
pub const NEWLINE: u8 = 10;

/// A classic puzzle in the CSV format this loader reads.
pub const EXAMPLE: &'static str = "_,5,_,9,_,_,3,7,_
1,8,9,_,4,_,_,6,5
3,_,_,_,_,_,_,4,_
_,_,_,_,3,_,_,_,6
_,9,_,6,8,5,_,2,_
5,_,_,_,9,_,_,_,_
_,4,_,_,_,_,_,_,1
9,3,_,_,6,_,7,8,4
_,1,8,_,_,3,_,5,_";

/// The ways reading a textual grid can fail.
#[derive(Debug, Eq, PartialEq, Clone)]
pub enum ParseError {
    /// A cell that is neither `_` nor a number.
    NotANumber,
    /// A cell whose number lies outside 1..=MAX_NUM.
    NumberOutOfRange,
    /// A line with a number of cells other than SIZE.
    WrongLineLength,
    /// An input with a number of lines other than SIZE.
    WrongLineCount,
}

/// The byte is a decimal digit.
pub open spec fn is_digit(b: u8) -> bool {
    DIGIT_ZERO <= b <= DIGIT_NINE
}

/// The bytes are one or more decimal digits and nothing else.
pub open spec fn is_digits(s: Seq<u8>) -> bool {
    s.len() >= 1 && forall|i: int| 0 <= i < s.len() ==> is_digit(#[trigger] s[i])
}

/// The number that a run of decimal digit bytes denotes.
pub open spec fn digits_value(s: Seq<u8>) -> int
    decreases s.len(),
{
    if s.len() == 0 {
        0
    } else {
        digits_value(s.drop_last()) * 10 + (s.last() - DIGIT_ZERO)
    }
}

/// What one CSV cell token denotes: `_` a blank cell, a number of
/// 1..=MAX_NUM a known cell, anything else an error.
pub open spec fn cell_token_result(s: Seq<u8>) -> Result<CellV, ParseError> {
    if s == seq![UNDERSCORE] {
        Ok(CellV::Empty)
    } else if is_digits(s) {
        if 1 <= digits_value(s) <= MAX_NUM {
            Ok(CellV::Known(digits_value(s)))
        } else {
            Err(ParseError::NumberOutOfRange)
        }
    } else {
        Err(ParseError::NotANumber)
    }
}

proof fn lemma_digits_value_nonneg(s: Seq<u8>)
    requires
        forall|i: int| 0 <= i < s.len() ==> is_digit(#[trigger] s[i]),
    ensures
        digits_value(s) >= 0,
    decreases s.len(),
{
    if s.len() > 0 {
        assert(is_digit(s.last()));
        lemma_digits_value_nonneg(s.drop_last());
    }
}

proof fn lemma_digits_value_step(s: Seq<u8>, k: int)
    requires
        0 <= k < s.len(),
    ensures
        digits_value(s.take(k + 1)) == digits_value(s.take(k)) * 10 + (s[k] - DIGIT_ZERO),
{
    assert(s.take(k + 1).drop_last() =~= s.take(k));
    assert(s.take(k + 1).last() == s[k]);
}

/// Parse the bytes `start..end` of `bytes` as one CSV cell.
fn parse_cell_range(bytes: &[u8], start: usize, end: usize) -> (r: Result<Cell, ParseError>)
    requires
        start <= end <= bytes@.len(),
    ensures
        ({
            let t = bytes@.subrange(start as int, end as int);
            match r {
                Ok(c) => cell_token_result(t) == Ok::<CellV, ParseError>(c@),
                Err(e) => cell_token_result(t) == Err::<CellV, ParseError>(e),
            }
        }),
{
    let ghost t = bytes@.subrange(start as int, end as int);
    if end - start == 1 && bytes[start] == UNDERSCORE {
        proof {
            assert(t =~= seq![UNDERSCORE]);
        }
        return Ok(Cell::Empty);
    }
    if end == start {
        return Err(ParseError::NotANumber);
    }
    proof {
        if t == seq![UNDERSCORE] {
            assert(seq![UNDERSCORE].len() == 1);
            assert(seq![UNDERSCORE][0] == UNDERSCORE);
            assert(t[0] == bytes@[start as int]);
            assert(false);
        }
    }
    let mut val: u64 = 0;
    let mut i: usize = start;
    while i < end
        invariant
            start <= i <= end <= bytes@.len(),
            end - start >= 1,
            t == bytes@.subrange(start as int, end as int),
            t != seq![UNDERSCORE],
            forall|k: int| 0 <= k < i - start ==> is_digit(#[trigger] t[k]),
            val == (if digits_value(t.take(i - start)) <= MAX_NUM {
                digits_value(t.take(i - start))
            } else {
                10
            }),
        decreases end - i,
    {
        let c = bytes[i];
        if c < DIGIT_ZERO || c > DIGIT_NINE {
            proof {
                assert(!is_digit(t[i - start]));
            }
            return Err(ParseError::NotANumber);
        }
        proof {
            lemma_digits_value_nonneg(t.take(i - start));
            lemma_digits_value_step(t, i - start);
        }
        let d = (c - DIGIT_ZERO) as u64;
        val = val * 10 + d;
        if val > MAX_NUM as u64 {
            val = 10;
        }
        i = i + 1;
    }
    proof {
        assert(t.take(end - start) =~= t);
        assert(is_digits(t));
    }
    if 1 <= val && val <= MAX_NUM as u64 {
        Ok(Cell::Known(val as i32))
    } else {
        Err(ParseError::NumberOutOfRange)
    }
}

/// Splitting bytes at every occurrence of `d`: always at least one piece,
/// empty pieces included, as `str::split` does with one delimiter.
pub open spec fn split_on(s: Seq<u8>, d: u8) -> Seq<Seq<u8>>
    decreases s.len(),
{
    if s.len() == 0 {
        seq![Seq::<u8>::empty()]
    } else if s[0] == d {
        seq![Seq::<u8>::empty()] + split_on(s.drop_first(), d)
    } else {
        let rest = split_on(s.drop_first(), d);
        seq![seq![s[0]] + rest[0]] + rest.drop_first()
    }
}

proof fn lemma_split_on_len(s: Seq<u8>, d: u8)
    ensures
        split_on(s, d).len() >= 1,
    decreases s.len(),
{
    if s.len() > 0 {
        lemma_split_on_len(s.drop_first(), d);
    }
}

/// Up to the first delimiter the split is one piece; after it, the split
/// of the remainder.
proof fn lemma_split_on_at_delim(s: Seq<u8>, d: u8, i: int)
    requires
        0 <= i < s.len(),
        s[i] == d,
        forall|k: int| 0 <= k < i ==> s[k] != d,
    ensures
        split_on(s, d) == seq![s.take(i)] + split_on(s.skip(i + 1), d),
    decreases i,
{
    if i == 0 {
        assert(s.take(0) =~= Seq::<u8>::empty());
        assert(s.skip(1) =~= s.drop_first());
        assert(split_on(s, d) =~~= seq![s.take(0)] + split_on(s.skip(1), d));
    } else {
        let s1 = s.drop_first();
        assert(forall|k: int| 0 <= k < i - 1 ==> s1[k] == s[k + 1] && s1[k] != d);
        lemma_split_on_at_delim(s1, d, i - 1);
        let rest = split_on(s1, d);
        lemma_split_on_len(s1.skip(i), d);
        assert(rest[0] == s1.take(i - 1));
        assert(seq![s[0]] + s1.take(i - 1) =~= s.take(i));
        assert(rest.drop_first() =~= split_on(s1.skip(i), d));
        assert(s1.skip(i) =~= s.skip(i + 1));
        assert(split_on(s, d) =~~= seq![s.take(i)] + split_on(s.skip(i + 1), d));
    }
}

/// Without any delimiter the split is the whole sequence alone.
proof fn lemma_split_on_no_delim(s: Seq<u8>, d: u8)
    requires
        forall|k: int| 0 <= k < s.len() ==> s[k] != d,
    ensures
        split_on(s, d) == seq![s],
    decreases s.len(),
{
    if s.len() == 0 {
        assert(split_on(s, d) =~~= seq![s]);
    } else {
        lemma_split_on_no_delim(s.drop_first(), d);
        assert(seq![s[0]] + s.drop_first() =~= s);
        assert(split_on(s, d) =~~= seq![s]);
    }
}

/// Reading a list of cell tokens in order: the first offending token
/// decides the error.
pub open spec fn parse_tokens(toks: Seq<Seq<u8>>) -> Result<Seq<CellV>, ParseError>
    decreases toks.len(),
{
    if toks.len() == 0 {
        Ok(Seq::empty())
    } else {
        match cell_token_result(toks[0]) {
            Err(e) => Err(e),
            Ok(cv) => match parse_tokens(toks.drop_first()) {
                Err(e) => Err(e),
                Ok(rest) => Ok(seq![cv] + rest),
            },
        }
    }
}

/// Reading one line: every cell between commas must parse, and there must
/// be exactly SIZE of them; a bad cell is reported before a bad length.
pub open spec fn parse_line(line: Seq<u8>) -> Result<Seq<CellV>, ParseError> {
    match parse_tokens(split_on(line, COMMA)) {
        Err(e) => Err(e),
        Ok(cells) => if cells.len() == SIZE {
            Ok(cells)
        } else {
            Err(ParseError::WrongLineLength)
        },
    }
}

/// Reading a list of lines in order: the first offending line decides the
/// error.
pub open spec fn parse_lines(lines: Seq<Seq<u8>>) -> Result<GridV, ParseError>
    decreases lines.len(),
{
    if lines.len() == 0 {
        Ok(Seq::empty())
    } else {
        match parse_line(lines[0]) {
            Err(e) => Err(e),
            Ok(row) => match parse_lines(lines.drop_first()) {
                Err(e) => Err(e),
                Ok(rest) => Ok(seq![row] + rest),
            },
        }
    }
}

/// What parsing a whole CSV text yields: the grid of its SIZE lines of
/// SIZE cells each, or the first error in reading order.
pub open spec fn parse_csv_spec(s: Seq<u8>) -> Result<GridV, ParseError> {
    match parse_lines(split_on(s, NEWLINE)) {
        Err(e) => Err(e),
        Ok(g) => if g.len() == SIZE {
            Ok(g)
        } else {
            Err(ParseError::WrongLineCount)
        },
    }
}

/// Parse the bytes `start..end` of `bytes` as one line of SIZE cells
/// separated by commas.
fn parse_line_range(bytes: &[u8], start: usize, end: usize) -> (r: Result<Vec<Cell>, ParseError>)
    requires
        start <= end <= bytes@.len(),
    ensures
        ({
            let line = bytes@.subrange(start as int, end as int);
            match r {
                Ok(row) => {
                    &&& parse_line(line) == Ok::<Seq<CellV>, ParseError>(row_view(row@))
                    &&& row@.len() == SIZE
                },
                Err(e) => parse_line(line) == Err::<Seq<CellV>, ParseError>(e),
            }
        }),
{
    let ghost line = bytes@.subrange(start as int, end as int);
    let mut row: Vec<Cell> = Vec::new();
    let mut tp: usize = start;
    let mut done = false;
    proof {
        assert(row_view(row@) =~= Seq::<CellV>::empty());
        let toks0 = split_on(line, COMMA);
        if parse_tokens(toks0) is Ok {
            assert(row_view(row@) + parse_tokens(toks0)->Ok_0 =~= parse_tokens(toks0)->Ok_0);
        }
    }
    while !done
        invariant
            start <= tp <= end <= bytes@.len(),
            line == bytes@.subrange(start as int, end as int),
            !done ==> ({
                let remaining = split_on(bytes@.subrange(tp as int, end as int), COMMA);
                match parse_tokens(remaining) {
                    Ok(rest) => parse_tokens(split_on(line, COMMA)) == Ok::<
                        Seq<CellV>,
                        ParseError,
                    >(row_view(row@) + rest),
                    Err(e) => parse_tokens(split_on(line, COMMA)) == Err::<
                        Seq<CellV>,
                        ParseError,
                    >(e),
                }
            }),
            done ==> parse_tokens(split_on(line, COMMA)) == Ok::<Seq<CellV>, ParseError>(
                row_view(row@),
            ),
        decreases end - tp + (if done {
            0int
        } else {
            1int
        }),
    {
        // find the end of the current cell token
        let mut q: usize = tp;
        while q < end && bytes[q] != COMMA
            invariant
                tp <= q <= end <= bytes@.len(),
                forall|k: int| tp <= k < q ==> bytes@[k] != COMMA,
            decreases end - q,
        {
            q = q + 1;
        }
        let ghost trest = bytes@.subrange(tp as int, end as int);
        let ghost tok = bytes@.subrange(tp as int, q as int);
        proof {
            assert(forall|k: int| 0 <= k < trest.len() ==> trest[k] == bytes@[tp + k]);
            if q < end {
                lemma_split_on_at_delim(trest, COMMA, q - tp);
                assert(trest.take(q - tp) =~= tok);
                assert(trest.skip(q - tp + 1) =~= bytes@.subrange(q + 1, end as int));
                assert(split_on(trest, COMMA) == seq![tok] + split_on(
                    bytes@.subrange(q + 1, end as int),
                    COMMA,
                ));
            } else {
                lemma_split_on_no_delim(trest, COMMA);
                assert(trest =~= tok);
                assert(split_on(trest, COMMA) == seq![tok]);
            }
            assert(split_on(trest, COMMA)[0] == tok);
        }
        let c = match parse_cell_range(bytes, tp, q) {
            Ok(c) => c,
            Err(e) => {
                proof {
                    assert(parse_tokens(split_on(trest, COMMA)) == Err::<Seq<CellV>, ParseError>(
                        e,
                    ));
                }
                return Err(e);
            },
        };
        let ghost prev = row@;
        row.push(c);
        proof {
            assert(row_view(row@) =~= row_view(prev) + seq![c@]);
        }
        if q == end {
            proof {
                assert(split_on(trest, COMMA).drop_first() =~= Seq::<Seq<u8>>::empty());
                assert(parse_tokens(Seq::<Seq<u8>>::empty()) == Ok::<Seq<CellV>, ParseError>(
                    Seq::<CellV>::empty(),
                ));
                assert(seq![c@] + Seq::<CellV>::empty() =~= seq![c@]);
                assert(parse_tokens(split_on(trest, COMMA)) == Ok::<Seq<CellV>, ParseError>(
                    seq![c@],
                ));
                assert(row_view(prev) + seq![c@] =~= row_view(row@));
            }
            done = true;
        } else {
            proof {
                let nextrem = split_on(bytes@.subrange(q + 1, end as int), COMMA);
                assert(split_on(trest, COMMA).drop_first() =~= nextrem);
                match parse_tokens(nextrem) {
                    Ok(r2) => {
                        assert(parse_tokens(split_on(trest, COMMA)) == Ok::<
                            Seq<CellV>,
                            ParseError,
                        >(seq![c@] + r2));
                        assert(row_view(prev) + (seq![c@] + r2) =~= row_view(row@) + r2);
                    },
                    Err(_) => {},
                }
            }
            tp = q + 1;
        }
    }
    if row.len() != SIZE {
        return Err(ParseError::WrongLineLength);
    }
    Ok(row)
}

/// Parse one CSV cell to a `Cell` or give an error.
pub fn parse_cell(cell: &str) -> (r: Result<Cell, ParseError>)
    ensures
        ({
            let t = encode_utf8(cell@);
            match r {
                Ok(c) => cell_token_result(t) == Ok::<CellV, ParseError>(c@),
                Err(e) => cell_token_result(t) == Err::<CellV, ParseError>(e),
            }
        }),
{
    let b = cell.as_bytes();
    let n = b.len();
    proof {
        assert(b@.subrange(0, n as int) =~= encode_utf8(cell@));
    }
    parse_cell_range(b, 0, n)
}

/// The mathematical value of the rows collected so far.
pub open spec fn rows_view(cells: Seq<Vec<Cell>>) -> GridV {
    cells.map_values(|row: Vec<Cell>| row_view(row@))
}

/// Parse a string that is in a comma-separated-values format
/// with SIZE rows and columns into a field of cells.
pub fn parse_csv(input: String) -> (r: Result<Field, ParseError>)
    ensures
        ({
            let t = encode_utf8(input@);
            match r {
                Ok(f) => parse_csv_spec(t) == Ok::<GridV, ParseError>(f@) && grid_wf(f@),
                Err(e) => parse_csv_spec(t) == Err::<GridV, ParseError>(e),
            }
        }),
{
    let bytes = input.as_str().as_bytes();
    let n = bytes.len();
    let ghost s = encode_utf8(input@);
    proof {
        assert(bytes@ == s);
    }
    let mut cells: Vec<Vec<Cell>> = Vec::new();
    let mut p: usize = 0;
    let mut done = false;
    proof {
        assert(bytes@.subrange(0, n as int) =~= s);
        assert(rows_view(cells@) =~= Seq::<Seq<CellV>>::empty());
        let lines0 = split_on(s, NEWLINE);
        if parse_lines(lines0) is Ok {
            assert(rows_view(cells@) + parse_lines(lines0)->Ok_0 =~= parse_lines(lines0)->Ok_0);
        }
    }
    while !done
        invariant
            p <= n,
            n == bytes@.len(),
            s == bytes@,
            s == encode_utf8(input@),
            forall|j: int|
                0 <= j < cells@.len() ==> (#[trigger] cells@[j])@.len() == SIZE,
            !done ==> ({
                let remaining = split_on(bytes@.subrange(p as int, n as int), NEWLINE);
                match parse_lines(remaining) {
                    Ok(rest) => parse_lines(split_on(s, NEWLINE)) == Ok::<GridV, ParseError>(
                        rows_view(cells@) + rest,
                    ),
                    Err(e) => parse_lines(split_on(s, NEWLINE)) == Err::<GridV, ParseError>(e),
                }
            }),
            done ==> parse_lines(split_on(s, NEWLINE)) == Ok::<GridV, ParseError>(
                rows_view(cells@),
            ),
        decreases n - p + (if done {
            0int
        } else {
            1int
        }),
    {
        // find the end of the current line
        let mut q: usize = p;
        while q < n && bytes[q] != NEWLINE
            invariant
                p <= q <= n,
                n == bytes@.len(),
                forall|k: int| p <= k < q ==> bytes@[k] != NEWLINE,
            decreases n - q,
        {
            q = q + 1;
        }
        let ghost lrest = bytes@.subrange(p as int, n as int);
        let ghost cur = bytes@.subrange(p as int, q as int);
        proof {
            assert(forall|k: int| 0 <= k < lrest.len() ==> lrest[k] == bytes@[p + k]);
            if q < n {
                lemma_split_on_at_delim(lrest, NEWLINE, q - p);
                assert(lrest.take(q - p) =~= cur);
                assert(lrest.skip(q - p + 1) =~= bytes@.subrange(q + 1, n as int));
                assert(split_on(lrest, NEWLINE) == seq![cur] + split_on(
                    bytes@.subrange(q + 1, n as int),
                    NEWLINE,
                ));
            } else {
                lemma_split_on_no_delim(lrest, NEWLINE);
                assert(lrest =~= cur);
                assert(split_on(lrest, NEWLINE) == seq![cur]);
            }
            assert(split_on(lrest, NEWLINE)[0] == cur);
        }
        let row = match parse_line_range(bytes, p, q) {
            Ok(row) => row,
            Err(e) => {
                proof {
                    assert(parse_lines(split_on(lrest, NEWLINE)) == Err::<GridV, ParseError>(e));
                }
                return Err(e);
            },
        };
        let ghost prev = cells@;
        cells.push(row);
        proof {
            assert(rows_view(cells@) =~= rows_view(prev) + seq![row_view(row@)]);
        }
        if q == n {
            proof {
                assert(split_on(lrest, NEWLINE).drop_first() =~= Seq::<Seq<u8>>::empty());
                assert(parse_lines(Seq::<Seq<u8>>::empty()) == Ok::<GridV, ParseError>(
                    Seq::<Seq<CellV>>::empty(),
                ));
                assert(seq![row_view(row@)] + Seq::<Seq<CellV>>::empty() =~= seq![
                    row_view(row@),
                ]);
                assert(parse_lines(split_on(lrest, NEWLINE)) == Ok::<GridV, ParseError>(
                    seq![row_view(row@)],
                ));
                assert(rows_view(prev) + seq![row_view(row@)] =~= rows_view(cells@));
            }
            done = true;
        } else {
            proof {
                let nextrem = split_on(bytes@.subrange(q + 1, n as int), NEWLINE);
                assert(split_on(lrest, NEWLINE).drop_first() =~= nextrem);
                match parse_lines(nextrem) {
                    Ok(r2) => {
                        assert(parse_lines(split_on(lrest, NEWLINE)) == Ok::<GridV, ParseError>(
                            seq![row_view(row@)] + r2,
                        ));
                        assert(rows_view(prev) + (seq![row_view(row@)] + r2) =~= rows_view(cells@)
                            + r2);
                    },
                    Err(_) => {},
                }
            }
            p = q + 1;
        }
    }
    if cells.len() != SIZE {
        return Err(ParseError::WrongLineCount);
    }
    let f = Field::new_with(cells);
    proof {
        assert(f@ =~~= rows_view(f.cells@));
    }
    Ok(f)
}

} // verus!
