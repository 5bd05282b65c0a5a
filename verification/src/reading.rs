//! A grid that is written as text can be read back from that text.

use crate::key::rows_shaped;
use crate::text::{
    all_digits, color_of, csv_error, csv_rows, decimal_text, decimal_value, digit_char, fields,
    grid_lines, grid_text, is_digit, is_space, line_colors, line_ok, row_text, trim_end,
    trim_start, trimmed, unsigned,
};
use vstd::prelude::*;
use vstd::utf8::{encode_utf8, is_ascii_chars, is_ascii_chars_encode_utf8};

verus! {

/// The characters of a text as bytes, one for one.
pub open spec fn narrowed(text: Seq<char>) -> Seq<u8> {
    Seq::new(text.len(), |i: int| text[i] as u8)
}

/// A color in decimal, as bytes.
pub open spec fn decimal_bytes(value: u8) -> Seq<u8> {
    narrowed(decimal_text(value))
}

/// The colors of a row in decimal with commas between them, as bytes.
pub open spec fn row_bytes(row: Seq<u8>) -> Seq<u8> {
    narrowed(row_text(row))
}

/// The byte is a digit or a comma.
pub open spec fn is_row_byte(byte: u8) -> bool {
    is_digit(byte) || byte == 44
}

/// No byte of the text is the separator.
pub open spec fn free_of(text: Seq<u8>, sep: u8) -> bool {
    forall|i: int| 0 <= i < text.len() ==> #[trigger] text[i] != sep
}

proof fn lemma_narrowed_add(a: Seq<char>, b: Seq<char>)
    ensures
        narrowed(a + b) == narrowed(a) + narrowed(b),
{
    assert(narrowed(a + b) =~= narrowed(a) + narrowed(b));
}

proof fn lemma_digit_char(digit: u8)
    requires
        digit < 10,
    ensures
        digit_char(digit) as u8 == 48 + digit,
        '\0' <= digit_char(digit) <= '\u{7f}',
{
}

/// The decimal text of a color is one to three digits that write it.
proof fn lemma_decimal_bytes(value: u8)
    ensures
        1 <= decimal_bytes(value).len() <= 3,
        all_digits(decimal_bytes(value)),
        decimal_value(decimal_bytes(value)) == value,
        is_ascii_chars(decimal_text(value)),
{
    let digits = decimal_bytes(value);
    let text = decimal_text(value);
    lemma_digit_char(value % 10);
    lemma_digit_char((value / 10) % 10);
    lemma_digit_char((value / 100) % 10);
    reveal_with_fuel(decimal_value, 4);
    if value >= 100 {
        assert(value / 100 < 10);
        lemma_digit_char(value / 100);
        let a = (48 + value / 100) as u8;
        let b = (48 + (value / 10) % 10) as u8;
        let c = (48 + value % 10) as u8;
        assert(digits =~= seq![a, b, c]);
        assert(digits.drop_last() =~= seq![a, b]);
        assert(seq![a, b].drop_last() =~= seq![a]);
        assert(seq![a].drop_last() =~= Seq::<u8>::empty());
        assert(decimal_value(seq![a]) == a - 48);
        assert(decimal_value(seq![a, b]) == (a - 48) * 10 + (b - 48));
        assert(decimal_value(digits) == ((a - 48) * 10 + (b - 48)) * 10 + (c - 48));
    } else if value >= 10 {
        lemma_digit_char(value / 10);
        let a = (48 + value / 10) as u8;
        let b = (48 + value % 10) as u8;
        assert(digits =~= seq![a, b]);
        assert(digits.drop_last() =~= seq![a]);
        assert(seq![a].drop_last() =~= Seq::<u8>::empty());
        assert(decimal_value(seq![a]) == a - 48);
        assert(decimal_value(digits) == (a - 48) * 10 + (b - 48));
    } else {
        lemma_digit_char(value);
        let a = (48 + value) as u8;
        assert(digits =~= seq![a]);
        assert(digits.drop_last() =~= Seq::<u8>::empty());
    }
}

/// Text that neither starts nor ends with blank space is left as it is.
proof fn lemma_trimmed_tight(text: Seq<u8>)
    requires
        text.len() > 0,
        !is_space(text[0]),
        !is_space(text.last()),
    ensures
        trimmed(text) == text,
{
}

/// Reading the decimal text of a color gives the color.
proof fn lemma_decimal_reads_back(value: u8)
    ensures
        color_of(trimmed(decimal_bytes(value))) == Some(value),
{
    let digits = decimal_bytes(value);
    lemma_decimal_bytes(value);
    assert(is_digit(digits[0]));
    assert(is_digit(digits[digits.len() - 1]));
    lemma_trimmed_tight(digits);
    assert(unsigned(digits) == digits);
}

/// A text without separators is one field.
proof fn lemma_fields_single(text: Seq<u8>, sep: u8)
    requires
        free_of(text, sep),
    ensures
        fields(text, sep) == seq![text],
    decreases text.len(),
{
    if text.len() > 0 {
        let shorter = text.drop_last();
        assert(free_of(shorter, sep)) by {
            assert forall|i: int| 0 <= i < shorter.len() implies #[trigger] shorter[i] != sep by {
                assert(shorter[i] == text[i]);
            }
        }
        lemma_fields_single(shorter, sep);
        assert(text[text.len() - 1] != sep);
        let before = seq![shorter];
        assert(before.drop_last().push(before.last().push(text.last())) =~= seq![text]) by {
            assert(shorter.push(text.last()) =~= text);
        }
    } else {
        assert(text =~= Seq::<u8>::empty());
    }
}

/// A separator and a text without separators add one field.
proof fn lemma_fields_append(head: Seq<u8>, sep: u8, tail: Seq<u8>)
    requires
        free_of(tail, sep),
    ensures
        fields(head + seq![sep] + tail, sep) == fields(head, sep).push(tail),
    decreases tail.len(),
{
    let whole = head + seq![sep] + tail;
    if tail.len() == 0 {
        assert(whole.drop_last() =~= head);
        assert(whole.last() == sep);
        assert(tail =~= Seq::<u8>::empty());
    } else {
        let shorter = tail.drop_last();
        assert(free_of(shorter, sep)) by {
            assert forall|i: int| 0 <= i < shorter.len() implies #[trigger] shorter[i] != sep by {
                assert(shorter[i] == tail[i]);
            }
        }
        lemma_fields_append(head, sep, shorter);
        assert(whole.drop_last() =~= head + seq![sep] + shorter);
        assert(whole.last() == tail[tail.len() - 1]);
        assert(tail[tail.len() - 1] != sep);
        let before = fields(head, sep).push(shorter);
        assert(before.drop_last() =~= fields(head, sep));
        assert(before.last() == shorter);
        assert(shorter.push(tail.last()) =~= tail);
    }
}

/// The text of a row is made of digits and commas, starts and ends with a
/// digit, and its fields are the decimal texts of the colors.
proof fn lemma_row_bytes(row: Seq<u8>)
    requires
        row.len() >= 1,
    ensures
        is_ascii_chars(row_text(row)),
        row_bytes(row).len() >= 1,
        is_digit(row_bytes(row)[0]),
        is_digit(row_bytes(row).last()),
        forall|i: int| 0 <= i < row_bytes(row).len() ==> is_row_byte(#[trigger] row_bytes(row)[i]),
        fields(row_bytes(row), 44) == Seq::new(row.len(), |c: int| decimal_bytes(row[c])),
    decreases row.len(),
{
    let wanted = Seq::new(row.len(), |c: int| decimal_bytes(row[c]));
    if row.len() == 1 {
        lemma_decimal_bytes(row[0]);
        let digits = decimal_bytes(row[0]);
        assert(row_bytes(row) == digits);
        assert(free_of(digits, 44)) by {
            assert forall|i: int| 0 <= i < digits.len() implies #[trigger] digits[i] != 44 by {
                assert(is_digit(digits[i]));
            }
        }
        lemma_fields_single(digits, 44);
        assert(seq![digits] =~= wanted);
        assert(is_digit(digits[digits.len() - 1]));
    } else {
        let shorter = row.drop_last();
        lemma_row_bytes(shorter);
        lemma_decimal_bytes(row.last());
        let head = row_bytes(shorter);
        let digits = decimal_bytes(row.last());
        let comma: Seq<char> = seq![','];
        lemma_narrowed_add(row_text(shorter) + comma, decimal_text(row.last()));
        lemma_narrowed_add(row_text(shorter), comma);
        assert(narrowed(comma) =~= seq![44u8]);
        assert(row_bytes(row) == head + seq![44u8] + digits);
        assert(free_of(digits, 44)) by {
            assert forall|i: int| 0 <= i < digits.len() implies #[trigger] digits[i] != 44 by {
                assert(is_digit(digits[i]));
            }
        }
        lemma_fields_append(head, 44, digits);
        assert(fields(head, 44).push(digits) =~= wanted) by {
            assert forall|c: int| 0 <= c < row.len() implies fields(head, 44).push(digits)[c]
                == wanted[c] by {
                if c < shorter.len() {
                    assert(shorter[c] == row[c]);
                }
            }
        }
        let whole = row_bytes(row);
        assert(whole[0] == head[0]);
        assert(whole[whole.len() - 1] == digits[digits.len() - 1]);
        assert(is_digit(digits[digits.len() - 1]));
        assert forall|i: int| 0 <= i < whole.len() implies is_row_byte(#[trigger] whole[i]) by {
            if i < head.len() {
                assert(whole[i] == head[i]);
            } else if i == head.len() {
            } else {
                assert(whole[i] == digits[i - head.len() - 1]);
                assert(is_digit(digits[i - head.len() - 1]));
            }
        }
        assert(is_ascii_chars(row_text(row))) by {
            let text = row_text(row);
            let left = row_text(shorter);
            let right = decimal_text(row.last());
            assert(text == left + comma + right);
            assert forall|i: int| 0 <= i < text.len() implies '\0' <= #[trigger] text[i]
                <= '\u{7f}' by {
                if i < left.len() {
                    assert(text[i] == left[i]);
                } else if i == left.len() {
                    assert(text[i] == ',');
                } else {
                    assert(text[i] == right[i - left.len() - 1]);
                }
            }
        }
    }
}

/// The rows of a grid as text with a line feed between them, as bytes.
pub open spec fn joined(rows: Seq<Seq<u8>>) -> Seq<u8>
    decreases rows.len(),
{
    if rows.len() == 0 {
        Seq::<u8>::empty()
    } else if rows.len() == 1 {
        row_bytes(rows[0])
    } else {
        joined(rows.drop_last()) + seq![10u8] + row_bytes(rows.last())
    }
}

/// The text of a grid is its rows with line feeds between them and one
/// more line feed at the end; the lines of the rows are its fields.
proof fn lemma_grid_bytes(rows: Seq<Seq<u8>>)
    requires
        rows.len() >= 1,
        forall|r: int| 0 <= r < rows.len() ==> (#[trigger] rows[r]).len() >= 1,
    ensures
        is_ascii_chars(grid_text(rows)),
        narrowed(grid_text(rows)) == joined(rows).push(10),
        joined(rows).len() >= 1,
        is_digit(joined(rows)[0]),
        is_digit(joined(rows).last()),
        fields(joined(rows), 10) == Seq::new(rows.len(), |r: int| row_bytes(rows[r])),
    decreases rows.len(),
{
    let wanted = Seq::new(rows.len(), |r: int| row_bytes(rows[r]));
    let feed: Seq<char> = seq!['\n'];
    let last = rows.last();
    assert(rows[rows.len() - 1].len() >= 1);
    lemma_row_bytes(last);
    let line = row_bytes(last);
    assert(free_of(line, 10)) by {
        assert forall|i: int| 0 <= i < line.len() implies #[trigger] line[i] != 10 by {
            assert(is_row_byte(line[i]));
        }
    }
    assert(narrowed(feed) =~= seq![10u8]);
    if rows.len() == 1 {
        assert(rows.drop_last() =~= Seq::<Seq<u8>>::empty());
        assert(grid_text(rows.drop_last()) =~= Seq::<char>::empty());
        assert(grid_text(rows) =~= row_text(last) + feed);
        lemma_narrowed_add(row_text(last), feed);
        assert(joined(rows) == line);
        assert(line + seq![10u8] =~= line.push(10));
        lemma_fields_single(line, 10);
        assert(seq![line] =~= wanted);
        assert(is_ascii_chars(grid_text(rows))) by {
            let text = grid_text(rows);
            let left = row_text(last);
            assert forall|i: int| 0 <= i < text.len() implies '\0' <= #[trigger] text[i]
                <= '\u{7f}' by {
                if i < left.len() {
                    assert(text[i] == left[i]);
                } else {
                    assert(text[i] == '\n');
                }
            }
        }
    } else {
        let above = rows.drop_last();
        assert forall|r: int| 0 <= r < above.len() implies (#[trigger] above[r]).len() >= 1 by {
            assert(above[r] == rows[r]);
        }
        lemma_grid_bytes(above);
        let head = joined(above);
        let text = grid_text(rows);
        let left = grid_text(above);
        let middle = row_text(last);
        assert(text == left + middle + feed);
        lemma_narrowed_add(left + middle, feed);
        lemma_narrowed_add(left, middle);
        assert(narrowed(text) =~= (head + seq![10u8] + line).push(10));
        lemma_fields_append(head, 10, line);
        assert(fields(head, 10).push(line) =~= wanted) by {
            assert forall|r: int| 0 <= r < rows.len() implies fields(head, 10).push(line)[r]
                == wanted[r] by {
                if r < above.len() {
                    assert(above[r] == rows[r]);
                }
            }
        }
        let whole = joined(rows);
        assert(whole[0] == head[0]);
        assert(whole[whole.len() - 1] == line[line.len() - 1]);
        assert(is_ascii_chars(text)) by {
            assert forall|i: int| 0 <= i < text.len() implies '\0' <= #[trigger] text[i]
                <= '\u{7f}' by {
                if i < left.len() {
                    assert(text[i] == left[i]);
                } else if i < left.len() + middle.len() {
                    assert(text[i] == middle[i - left.len()]);
                } else {
                    assert(text[i] == '\n');
                }
            }
        }
    }
}

/// The text that is written for a grid reads back as the same rows of
/// colors.
pub proof fn lemma_written_grid_reads_back(rows: Seq<Seq<u8>>, width: nat, height: nat)
    requires
        rows_shaped(rows, width as int, height as int),
        width >= 1,
        height >= 1,
    ensures
        csv_rows(encode_utf8(grid_text(rows))) == rows,
        width * height <= isize::MAX ==> csv_error(encode_utf8(grid_text(rows))) is None,
{
    let text = grid_text(rows);
    let bytes = encode_utf8(text);
    lemma_grid_bytes(rows);
    is_ascii_chars_encode_utf8(text);
    assert(bytes =~= narrowed(text));
    let inner = joined(rows);
    assert(trimmed(bytes) == inner) by {
        assert(bytes[0] == inner[0]);
        assert(trim_start(bytes) == bytes);
        assert(bytes.drop_last() =~= inner);
        assert(bytes.last() == 10);
        assert(trim_end(inner) == inner);
    }
    let lines = grid_lines(bytes);
    assert(lines == Seq::new(rows.len(), |r: int| row_bytes(rows[r])));
    assert forall|r: int| 0 <= r < lines.len() implies line_ok(#[trigger] lines[r]) && line_colors(
        lines[r],
    ) == rows[r] by {
        let row = rows[r];
        lemma_row_bytes(row);
        let pieces = fields(lines[r], 44);
        assert forall|c: int| 0 <= c < pieces.len() implies color_of(trimmed(#[trigger] pieces[c]))
            == Some(row[c]) by {
            lemma_decimal_reads_back(row[c]);
        }
        assert(line_colors(lines[r]) =~= row);
    }
    assert(csv_rows(bytes) =~= rows);
    if width * height <= isize::MAX {
        assert(rows[0].len() == width);
        assert(rows.len() * rows[0].len() == width * height) by (nonlinear_arith)
            requires
                rows.len() == height,
                rows[0].len() == width,
        ;
        assert forall|r: int| 0 <= r < csv_rows(bytes).len() implies (#[trigger] csv_rows(
            bytes,
        )[r]).len() == csv_rows(bytes)[0].len() by {}
    }
}

} // verus!
