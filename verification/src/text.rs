//! Grids and solutions as text.
//!
//! A grid is written as one line per row, the colors of a row as decimal
//! numbers with commas between them. A solution is written as one color
//! per line.

use crate::grid::Grid;
use vstd::prelude::*;
use vstd::slice::slice_subrange;
use vstd::string::{StringExecFns, StringSliceAdditionalSpecFns};

verus! {

/// The bytes that count as blank space around a value.
pub open spec fn is_space(byte: u8) -> bool {
    byte == 32 || (9 <= byte <= 13)
}

/// The text without the blank space at its start.
pub open spec fn trim_start(text: Seq<u8>) -> Seq<u8>
    decreases text.len(),
{
    if text.len() > 0 && is_space(text[0]) {
        trim_start(text.skip(1))
    } else {
        text
    }
}

/// The text without the blank space at its end.
pub open spec fn trim_end(text: Seq<u8>) -> Seq<u8>
    decreases text.len(),
{
    if text.len() > 0 && is_space(text.last()) {
        trim_end(text.drop_last())
    } else {
        text
    }
}

/// The text without the blank space at its start and at its end.
pub open spec fn trimmed(text: Seq<u8>) -> Seq<u8> {
    trim_end(trim_start(text))
}

/// The pieces of the text between the separators: one more than there are
/// separators, each possibly empty.
pub open spec fn fields(text: Seq<u8>, sep: u8) -> Seq<Seq<u8>>
    decreases text.len(),
{
    if text.len() == 0 {
        seq![Seq::<u8>::empty()]
    } else {
        let before = fields(text.drop_last(), sep);
        if text.last() == sep {
            before.push(Seq::<u8>::empty())
        } else {
            before.drop_last().push(before.last().push(text.last()))
        }
    }
}

/// The byte is a decimal digit.
pub open spec fn is_digit(byte: u8) -> bool {
    48 <= byte <= 57
}

/// Every byte is a decimal digit.
pub open spec fn all_digits(text: Seq<u8>) -> bool {
    forall|i: int| 0 <= i < text.len() ==> is_digit(#[trigger] text[i])
}

/// The number that the digits write in base ten.
pub open spec fn decimal_value(digits: Seq<u8>) -> int
    decreases digits.len(),
{
    if digits.len() == 0 {
        0
    } else {
        decimal_value(digits.drop_last()) * 10 + (digits.last() - 48)
    }
}

/// The text without a plus sign in front.
pub open spec fn unsigned(text: Seq<u8>) -> Seq<u8> {
    if text.len() > 0 && text[0] == 43 {
        text.skip(1)
    } else {
        text
    }
}

/// The color that the text writes: decimal digits, at least one, with an
/// optional plus sign in front, that give a number up to 255.
pub open spec fn color_of(text: Seq<u8>) -> Option<u8> {
    let digits = unsigned(text);
    if digits.len() > 0 && all_digits(digits) && decimal_value(digits) <= 255 {
        Some(decimal_value(digits) as u8)
    } else {
        None
    }
}

/// The views of the pieces of a text.
pub open spec fn texts(parts: Seq<&[u8]>) -> Seq<Seq<u8>> {
    Seq::new(parts.len(), |i: int| parts[i]@)
}

proof fn lemma_fields_not_empty(text: Seq<u8>, sep: u8)
    ensures
        fields(text, sep).len() >= 1,
    decreases text.len(),
{
    if text.len() > 0 {
        lemma_fields_not_empty(text.drop_last(), sep);
    }
}

proof fn lemma_decimal_value_grows(digits: Seq<u8>, n: int)
    requires
        all_digits(digits),
        0 <= n <= digits.len(),
    ensures
        0 <= decimal_value(digits.take(n)) <= decimal_value(digits),
    decreases digits.len() - n,
{
    if n == digits.len() {
        assert(digits.take(n) =~= digits);
        lemma_decimal_value_positive(digits);
    } else {
        lemma_decimal_value_grows(digits, n + 1);
        let longer = digits.take(n + 1);
        assert(longer.drop_last() =~= digits.take(n));
        assert(is_digit(digits[n]));
        assert(longer.last() == digits[n]);
        lemma_decimal_value_positive_prefix(digits, n);
    }
}

proof fn lemma_decimal_value_positive(digits: Seq<u8>)
    requires
        all_digits(digits),
    ensures
        0 <= decimal_value(digits),
    decreases digits.len(),
{
    if digits.len() > 0 {
        let shorter = digits.drop_last();
        assert forall|i: int| 0 <= i < shorter.len() implies is_digit(#[trigger] shorter[i]) by {
            assert(shorter[i] == digits[i]);
        }
        lemma_decimal_value_positive(shorter);
        assert(is_digit(digits[digits.len() - 1]));
    }
}

proof fn lemma_decimal_value_positive_prefix(digits: Seq<u8>, n: int)
    requires
        all_digits(digits),
        0 <= n <= digits.len(),
    ensures
        0 <= decimal_value(digits.take(n)),
{
    let prefix = digits.take(n);
    assert forall|i: int| 0 <= i < prefix.len() implies is_digit(#[trigger] prefix[i]) by {
        assert(prefix[i] == digits[i]);
    }
    lemma_decimal_value_positive(prefix);
}

/// Cuts the blank space off both ends of a text.
pub fn trim(bytes: &[u8]) -> (inner: &[u8])
    ensures
        inner@ == trimmed(bytes@),
{
    let ghost text = bytes@;
    let mut lo: usize = 0;
    proof {
        assert(text.skip(0) =~= text);
    }
    while lo < bytes.len() && is_space_byte(bytes[lo])
        invariant
            text == bytes@,
            lo <= text.len(),
            trim_start(text) == trim_start(text.skip(lo as int)),
        decreases text.len() - lo,
    {
        proof {
            assert(text.skip(lo as int).skip(1) =~= text.skip(lo + 1));
        }
        lo = lo + 1;
    }
    let ghost rest = text.skip(lo as int);
    proof {
        if lo < text.len() {
            assert(rest[0] == text[lo as int]);
        }
        assert(trim_start(text) == rest);
    }
    let mut hi: usize = bytes.len();
    while hi > lo && is_space_byte(bytes[hi - 1])
        invariant
            text == bytes@,
            rest == text.skip(lo as int),
            lo <= hi <= text.len(),
            trim_end(rest) == trim_end(text.subrange(lo as int, hi as int)),
        decreases hi,
    {
        proof {
            let piece = text.subrange(lo as int, hi as int);
            assert(piece.last() == text[hi - 1]);
            assert(piece.drop_last() =~= text.subrange(lo as int, hi - 1));
        }
        hi = hi - 1;
    }
    proof {
        let piece = text.subrange(lo as int, hi as int);
        if hi > lo {
            assert(piece.last() == text[hi - 1]);
        }
        assert(trim_end(piece) == piece);
        assert(text.subrange(lo as int, text.len() as int) =~= rest);
    }
    slice_subrange(bytes, lo, hi)
}

/// Whether a byte counts as blank space.
pub fn is_space_byte(byte: u8) -> (blank: bool)
    ensures
        blank == is_space(byte),
{
    byte == 32 || (9 <= byte && byte <= 13)
}

/// Cuts a text at every separator.
pub fn split(bytes: &[u8], sep: u8) -> (parts: Vec<&[u8]>)
    ensures
        texts(parts@) == fields(bytes@, sep),
{
    let ghost text = bytes@;
    let mut parts: Vec<&[u8]> = Vec::new();
    let mut start: usize = 0;
    let mut i: usize = 0;
    proof {
        assert(text.take(0) =~= Seq::<u8>::empty());
        assert(texts(parts@).push(text.subrange(0, 0)) =~= seq![Seq::<u8>::empty()]);
    }
    while i < bytes.len()
        invariant
            text == bytes@,
            start <= i <= text.len(),
            fields(text.take(i as int), sep) == texts(parts@).push(
                text.subrange(start as int, i as int),
            ),
        decreases text.len() - i,
    {
        let ghost held = texts(parts@);
        let ghost current = text.subrange(start as int, i as int);
        proof {
            let longer = text.take(i + 1);
            assert(longer.drop_last() =~= text.take(i as int));
            assert(longer.last() == text[i as int]);
            assert(held.push(current).drop_last() =~= held);
            assert(held.push(current).last() == current);
        }
        if bytes[i] == sep {
            let piece = slice_subrange(bytes, start, i);
            parts.push(piece);
            start = i + 1;
            proof {
                assert(texts(parts@) =~= held.push(current));
                assert(text.subrange(start as int, i + 1) =~= Seq::<u8>::empty());
            }
        } else {
            proof {
                assert(current.push(text[i as int]) =~= text.subrange(start as int, i + 1));
            }
        }
        i = i + 1;
    }
    let ghost held = texts(parts@);
    let piece = slice_subrange(bytes, start, i);
    parts.push(piece);
    proof {
        assert(text.take(i as int) =~= text);
        assert(texts(parts@) =~= held.push(text.subrange(start as int, i as int)));
    }
    parts
}

/// Reads a color from the text that writes it.
pub fn parse_color(bytes: &[u8]) -> (color: Option<u8>)
    ensures
        color == color_of(bytes@),
{
    let ghost text = bytes@;
    let mut i: usize = 0;
    if bytes.len() > 0 && bytes[0] == 43 {
        i = 1;
    }
    let ghost first = i as int;
    let ghost digits = unsigned(text);
    proof {
        assert(digits =~= text.skip(first));
    }
    if i == bytes.len() {
        return None;
    }
    let mut value: u16 = 0;
    while i < bytes.len()
        invariant
            text == bytes@,
            digits == text.skip(first),
            digits == unsigned(text),
            0 <= first <= i <= text.len(),
            value <= 255,
            forall|k: int| 0 <= k < i - first ==> is_digit(#[trigger] digits[k]),
            value == decimal_value(digits.take(i - first)),
        decreases text.len() - i,
    {
        let byte = bytes[i];
        proof {
            assert(digits[i - first] == byte);
            let longer = digits.take(i - first + 1);
            assert(longer.drop_last() =~= digits.take(i - first));
            assert(longer.last() == byte);
        }
        if byte < 48 || byte > 57 {
            proof {
                assert(!is_digit(digits[i - first]));
            }
            return None;
        }
        let next: u16 = value * 10 + (byte - 48) as u16;
        if next > 255 {
            proof {
                if all_digits(digits) {
                    lemma_decimal_value_grows(digits, i - first + 1);
                }
            }
            return None;
        }
        value = next;
        i = i + 1;
    }
    proof {
        assert(digits.take(i - first) =~= digits);
    }
    Some(value as u8)
}

/// Why a text is not a grid.
#[derive(Debug, Clone, Copy, PartialEq, Eq)]
pub enum MalformedGridError {
    /// Some value is not a color.
    BadValue,
    /// Every value is a color, but some row has more or fewer values than
    /// the first.
    RaggedRows,
    /// The text is a grid, but one with more cells than would fit in
    /// memory.
    TooLarge,
}

/// The lines of a grid text: the text without the blank space around it,
/// cut at every line feed.
pub open spec fn grid_lines(text: Seq<u8>) -> Seq<Seq<u8>> {
    fields(trimmed(text), 10)
}

/// Every value of the line is a color.
pub open spec fn line_ok(line: Seq<u8>) -> bool {
    forall|i: int|
        0 <= i < fields(line, 44).len() ==> color_of(trimmed(#[trigger] fields(line, 44)[i]))
            is Some
}

/// The colors of a line: its values between the commas, each without the
/// blank space around it.
pub open spec fn line_colors(line: Seq<u8>) -> Seq<u8> {
    Seq::new(fields(line, 44).len(), |i: int| color_of(trimmed(fields(line, 44)[i])).unwrap())
}

/// The colors of a grid text, line by line.
pub open spec fn csv_rows(text: Seq<u8>) -> Seq<Seq<u8>> {
    Seq::new(grid_lines(text).len(), |r: int| line_colors(grid_lines(text)[r]))
}

/// What is wrong with a grid text, if anything.
pub open spec fn csv_error(text: Seq<u8>) -> Option<MalformedGridError> {
    let lines = grid_lines(text);
    let rows = csv_rows(text);
    if exists|r: int| 0 <= r < lines.len() && !line_ok(#[trigger] lines[r]) {
        Some(MalformedGridError::BadValue)
    } else if exists|r: int| 0 <= r < rows.len() && (#[trigger] rows[r]).len() != rows[0].len() {
        Some(MalformedGridError::RaggedRows)
    } else if rows.len() * rows[0].len() > isize::MAX {
        Some(MalformedGridError::TooLarge)
    } else {
        None
    }
}

/// `color_count` is one more than the largest color in the rows.
pub open spec fn counts_colors(rows: Seq<Seq<u8>>, color_count: nat) -> bool {
    &&& forall|r: int, c: int|
        0 <= r < rows.len() && 0 <= c < rows[r].len() ==> (#[trigger] rows[r][c]) < color_count
    &&& exists|r: int, c: int|
        0 <= r < rows.len() && 0 <= c < rows[r].len() && (#[trigger] rows[r][c]) + 1 == color_count
}

/// The rows held in vectors, as sequences.
pub open spec fn rows_of(rows: Seq<Vec<u8>>) -> Seq<Seq<u8>> {
    Seq::new(rows.len(), |r: int| rows[r]@)
}

/// Reads the colors of one line.
fn parse_line(line: &[u8]) -> (row: Option<Vec<u8>>)
    ensures
        match row {
            Some(colors) => line_ok(line@) && colors@ == line_colors(line@),
            None => !line_ok(line@),
        },
{
    let values = split(line, 44);
    let ghost pieces = fields(line@, 44);
    let mut colors: Vec<u8> = Vec::new();
    let mut i: usize = 0;
    while i < values.len()
        invariant
            pieces == fields(line@, 44),
            texts(values@) == pieces,
            i <= values@.len(),
            colors@.len() == i,
            forall|k: int|
                0 <= k < i ==> color_of(trimmed(#[trigger] pieces[k])) == Some(colors@[k]),
        decreases values@.len() - i,
    {
        proof {
            assert(texts(values@)[i as int] == values@[i as int]@);
        }
        match parse_color(trim(values[i])) {
            Some(color) => {
                colors.push(color);
            },
            None => {
                proof {
                    assert(color_of(trimmed(pieces[i as int])) is None);
                }
                return None;
            },
        }
        i = i + 1;
    }
    proof {
        assert(colors@ =~= line_colors(line@));
    }
    Some(colors)
}

/// The largest color in the rows.
fn largest_color(rows: &Vec<Vec<u8>>) -> (top: u8)
    requires
        rows@.len() > 0,
        rows@[0]@.len() > 0,
    ensures
        counts_colors(rows_of(rows@), (top + 1) as nat),
{
    let ghost all = rows_of(rows@);
    let mut top: u8 = rows[0][0];
    let ghost mut at: (int, int) = (0, 0);
    let mut r: usize = 0;
    while r < rows.len()
        invariant
            all == rows_of(rows@),
            r <= rows@.len(),
            0 <= at.0 < all.len(),
            0 <= at.1 < all[at.0].len(),
            all[at.0][at.1] == top,
            forall|i: int, j: int|
                0 <= i < r && 0 <= j < all[i].len() ==> (#[trigger] all[i][j]) <= top,
        decreases rows@.len() - r,
    {
        let mut c: usize = 0;
        while c < rows[r].len()
            invariant
                all == rows_of(rows@),
                r < rows@.len(),
                c <= all[r as int].len(),
                0 <= at.0 < all.len(),
                0 <= at.1 < all[at.0].len(),
                all[at.0][at.1] == top,
                forall|i: int, j: int|
                    0 <= i < r && 0 <= j < all[i].len() ==> (#[trigger] all[i][j]) <= top,
                forall|j: int| 0 <= j < c ==> all[r as int][j] <= top,
            decreases all[r as int].len() - c,
        {
            if rows[r][c] > top {
                top = rows[r][c];
                proof {
                    at = (r as int, c as int);
                }
            }
            c = c + 1;
        }
        r = r + 1;
    }
    proof {
        assert(all[at.0][at.1] + 1 == top + 1);
    }
    top
}

/// A grid with the given colors.
fn grid_of_rows(rows: &Vec<Vec<u8>>, width: usize, height: usize, colors: usize) -> (grid: Grid)
    requires
        width * height <= isize::MAX,
        rows@.len() == height,
        forall|r: int| 0 <= r < height ==> (#[trigger] rows@[r])@.len() == width,
    ensures
        grid@.width == width,
        grid@.height == height,
        grid@.color_count == colors,
        grid@.rows == rows_of(rows@),
{
    let ghost all = rows_of(rows@);
    let mut grid = Grid::new(width, height, colors);
    let mut r: usize = 0;
    while r < height
        invariant
            all == rows_of(rows@),
            rows@.len() == height,
            forall|i: int| 0 <= i < height ==> (#[trigger] rows@[i])@.len() == width,
            r <= height,
            grid@.width == width,
            grid@.height == height,
            grid@.color_count == colors,
            grid@.shaped(),
            forall|i: int| 0 <= i < r ==> #[trigger] grid@.rows[i] == all[i],
        decreases height - r,
    {
        let mut c: usize = 0;
        while c < width
            invariant
                all == rows_of(rows@),
                rows@.len() == height,
                forall|i: int| 0 <= i < height ==> (#[trigger] rows@[i])@.len() == width,
                r < height,
                c <= width,
                grid@.width == width,
                grid@.height == height,
                grid@.color_count == colors,
                grid@.shaped(),
                forall|i: int| 0 <= i < r ==> #[trigger] grid@.rows[i] == all[i],
                forall|j: int| 0 <= j < c ==> grid@.rows[r as int][j] == all[r as int][j],
            decreases width - c,
        {
            assert(rows@[r as int]@.len() == width);
            grid.set_cell(r, c, rows[r][c]);
            c = c + 1;
        }
        proof {
            assert(rows@[r as int]@.len() == width);
            assert(grid@.rows[r as int] =~= all[r as int]);
        }
        r = r + 1;
    }
    proof {
        assert(grid@.rows =~= all);
    }
    grid
}

impl Grid {
    /// Reads a grid from text: one line per row, the colors of a row as
    /// decimal numbers with commas between them. Blank space around the
    /// text and around each value is passed over. The number of colors of
    /// the grid is one more than its largest color.
    pub fn from_csv(content: &str) -> (result: Result<Grid, MalformedGridError>)
        ensures
            match result {
                Ok(grid) => {
                    let rows = csv_rows(content.spec_bytes());
                    &&& csv_error(content.spec_bytes()) is None
                    &&& grid@.wf()
                    &&& grid@.rows == rows
                    &&& grid@.height == rows.len()
                    &&& grid@.width == rows[0].len()
                    &&& counts_colors(rows, grid@.color_count)
                    &&& grid@.cell_count() <= isize::MAX
                },
                Err(error) => csv_error(content.spec_bytes()) == Some(error),
            },
    {
        let ghost text = content.spec_bytes();
        let lines = split(trim(content.as_bytes()), 10);
        let ghost wanted = grid_lines(text);
        proof {
            lemma_fields_not_empty(trimmed(text), 10);
        }
        let mut rows: Vec<Vec<u8>> = Vec::new();
        let mut r: usize = 0;
        while r < lines.len()
            invariant
                text == content.spec_bytes(),
                wanted == grid_lines(text),
                texts(lines@) == wanted,
                r <= lines@.len(),
                rows@.len() == r,
                forall|k: int|
                    0 <= k < r ==> line_ok(#[trigger] wanted[k]) && rows@[k]@ == line_colors(
                        wanted[k],
                    ),
            decreases lines@.len() - r,
        {
            proof {
                assert(texts(lines@)[r as int] == lines@[r as int]@);
            }
            match parse_line(lines[r]) {
                Some(row) => {
                    rows.push(row);
                },
                None => {
                    proof {
                        assert(!line_ok(wanted[r as int]));
                    }
                    return Err(MalformedGridError::BadValue);
                },
            }
            r = r + 1;
        }
        let ghost all = csv_rows(text);
        proof {
            assert(rows_of(rows@) =~= all);
            lemma_fields_not_empty(wanted[0], 44);
            assert(all[0] == rows@[0]@);
        }
        let height = rows.len();
        let width = rows[0].len();
        let mut r: usize = 1;
        while r < height
            invariant
                text == content.spec_bytes(),
                wanted == grid_lines(text),
                all == csv_rows(text),
                forall|k: int| 0 <= k < wanted.len() ==> line_ok(#[trigger] wanted[k]),
                all == rows_of(rows@),
                height == rows@.len(),
                width == all[0].len(),
                1 <= r <= height,
                forall|k: int| 0 <= k < r ==> (#[trigger] all[k]).len() == width,
            decreases height - r,
        {
            if rows[r].len() != width {
                proof {
                    assert(all[r as int].len() != all[0].len());
                }
                return Err(MalformedGridError::RaggedRows);
            }
            r = r + 1;
        }
        let limit: usize = isize::MAX as usize;
        if height > limit / width {
            proof {
                assert(height * width > isize::MAX) by (nonlinear_arith)
                    requires
                        width >= 1,
                        height > (isize::MAX as int) / (width as int),
                ;
            }
            return Err(MalformedGridError::TooLarge);
        }
        proof {
            assert(height * width <= isize::MAX && width * height == height * width)
                by (nonlinear_arith)
                requires
                    width >= 1,
                    height <= (isize::MAX as int) / (width as int),
            ;
        }
        proof {
            assert forall|k: int| 0 <= k < height implies (#[trigger] rows@[k])@.len() == width by {
                assert(all[k] == rows@[k]@);
            }
        }
        let top = largest_color(&rows);
        let grid = grid_of_rows(&rows, width, height, top as usize + 1);
        proof {
            assert forall|i: int, j: int| 0 <= i < height && 0 <= j < width implies (
            #[trigger] grid@.rows[i][j]) < grid@.color_count by {
                assert(0 <= j < all[i].len());
            }
        }
        Ok(grid)
    }
}

/// The character that writes a digit.
pub open spec fn digit_char(digit: u8) -> char {
    if digit == 0 {
        '0'
    } else if digit == 1 {
        '1'
    } else if digit == 2 {
        '2'
    } else if digit == 3 {
        '3'
    } else if digit == 4 {
        '4'
    } else if digit == 5 {
        '5'
    } else if digit == 6 {
        '6'
    } else if digit == 7 {
        '7'
    } else if digit == 8 {
        '8'
    } else {
        '9'
    }
}

/// A color in decimal, without leading zeros.
pub open spec fn decimal_text(value: u8) -> Seq<char> {
    if value >= 100 {
        seq![digit_char(value / 100), digit_char((value / 10) % 10), digit_char(value % 10)]
    } else if value >= 10 {
        seq![digit_char(value / 10), digit_char(value % 10)]
    } else {
        seq![digit_char(value)]
    }
}

/// The colors of a row in decimal, with commas between them.
pub open spec fn row_text(row: Seq<u8>) -> Seq<char>
    decreases row.len(),
{
    if row.len() == 0 {
        Seq::<char>::empty()
    } else if row.len() == 1 {
        decimal_text(row[0])
    } else {
        row_text(row.drop_last()) + seq![','] + decimal_text(row.last())
    }
}

/// The rows of a grid as text, each followed by a line feed.
pub open spec fn grid_text(rows: Seq<Seq<u8>>) -> Seq<char>
    decreases rows.len(),
{
    if rows.len() == 0 {
        Seq::<char>::empty()
    } else {
        grid_text(rows.drop_last()) + row_text(rows.last()) + seq!['\n']
    }
}

/// The moves of a solution in decimal, each followed by a line feed.
pub open spec fn solution_text(moves: Seq<u8>) -> Seq<char>
    decreases moves.len(),
{
    if moves.len() == 0 {
        Seq::<char>::empty()
    } else {
        solution_text(moves.drop_last()) + decimal_text(moves.last()) + seq!['\n']
    }
}

/// The text of one digit.
fn digit_text(digit: u8) -> (text: &'static str)
    requires
        digit < 10,
    ensures
        text@ == seq![digit_char(digit)],
{
    proof {
        reveal_strlit("0");
        reveal_strlit("1");
        reveal_strlit("2");
        reveal_strlit("3");
        reveal_strlit("4");
        reveal_strlit("5");
        reveal_strlit("6");
        reveal_strlit("7");
        reveal_strlit("8");
        reveal_strlit("9");
    }
    let text = match digit {
        0 => "0",
        1 => "1",
        2 => "2",
        3 => "3",
        4 => "4",
        5 => "5",
        6 => "6",
        7 => "7",
        8 => "8",
        _ => "9",
    };
    proof {
        assert(text@ =~= seq![digit_char(digit)]);
    }
    text
}

/// Writes a color in decimal at the end of a text.
fn push_decimal(out: &mut String, value: u8)
    ensures
        final(out)@ == old(out)@ + decimal_text(value),
{
    let ghost before = out@;
    if value >= 100 {
        out.append(digit_text(value / 100));
    }
    if value >= 10 {
        out.append(digit_text((value / 10) % 10));
    }
    out.append(digit_text(value % 10));
    proof {
        assert(out@ =~= before + decimal_text(value));
    }
}

impl Grid {
    /// Writes the grid as text: one line per row, the colors of a row in
    /// decimal with commas between them, a line feed after each row.
    pub fn to_csv(&self) -> (csv: String)
        requires
            self@.shaped(),
        ensures
            csv@ == grid_text(self@.rows),
    {
        let ghost rows = self@.rows;
        let height = self.height();
        let width = self.width();
        let mut result = String::new();
        let mut i: usize = 0;
        proof {
            assert(rows.take(0) =~= Seq::<Seq<u8>>::empty());
        }
        while i < height
            invariant
                rows == self@.rows,
                self@.shaped(),
                height == self@.height,
                width == self@.width,
                i <= height,
                result@ == grid_text(rows.take(i as int)),
            decreases height - i,
        {
            let ghost above = result@;
            let ghost row = rows[i as int];
            let mut j: usize = 0;
            proof {
                assert(row.take(0) =~= Seq::<u8>::empty());
                assert(above + row_text(row.take(0)) =~= above);
            }
            while j < width
                invariant
                    rows == self@.rows,
                    self@.shaped(),
                    height == self@.height,
                    width == self@.width,
                    i < height,
                    row == rows[i as int],
                    j <= width,
                    result@ == above + row_text(row.take(j as int)),
                decreases width - j,
            {
                let ghost left = row_text(row.take(j as int));
                if j > 0 {
                    proof {
                        reveal_strlit(",");
                        assert(","@ =~= seq![',']);
                    }
                    result.append(",");
                }
                push_decimal(&mut result, self.cell(i, j));
                proof {
                    let longer = row.take(j + 1);
                    assert(longer.drop_last() =~= row.take(j as int));
                    assert(longer.last() == row[j as int]);
                    if j == 0 {
                        assert(longer[0] == row[0]);
                        assert(result@ =~= above + row_text(longer));
                    } else {
                        assert(result@ =~= above + (left + seq![','] + decimal_text(row[j as int])));
                    }
                }
                j = j + 1;
            }
            proof {
                reveal_strlit("\n");
                assert("\n"@ =~= seq!['\n']);
            }
            result.append("\n");
            proof {
                assert(row.take(width as int) =~= row);
                let longer = rows.take(i + 1);
                assert(longer.drop_last() =~= rows.take(i as int));
                assert(longer.last() == row);
                assert(result@ =~= grid_text(longer));
            }
            i = i + 1;
        }
        proof {
            assert(rows.take(height as int) =~= rows);
        }
        result
    }
}

/// Writes a solution as text: one move per line, in the order in which the
/// moves are played.
pub fn write_solution(moves: &[u8]) -> (text: String)
    ensures
        text@ == solution_text(moves@),
{
    let mut output = String::new();
    let mut i: usize = 0;
    proof {
        assert(moves@.take(0) =~= Seq::<u8>::empty());
    }
    while i < moves.len()
        invariant
            i <= moves@.len(),
            output@ == solution_text(moves@.take(i as int)),
        decreases moves@.len() - i,
    {
        let ghost before = output@;
        push_decimal(&mut output, moves[i]);
        proof {
            reveal_strlit("\n");
            assert("\n"@ =~= seq!['\n']);
        }
        output.append("\n");
        proof {
            let longer = moves@.take(i + 1);
            assert(longer.drop_last() =~= moves@.take(i as int));
            assert(longer.last() == moves@[i as int]);
            assert(output@ =~= before + decimal_text(moves@[i as int]) + seq!['\n']);
        }
        i = i + 1;
    }
    proof {
        assert(moves@.take(moves@.len() as int) =~= moves@);
    }
    output
}

} // verus!
