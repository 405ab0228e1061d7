//! Boards as text: the board as a grid with a frame around each quadrant,
//! each square in the colour of its style, and the virtual board with the
//! candidates of each cell.

use vstd::prelude::*;
use vstd::string::StrSliceExecFns;
use super::ai::{Field, FieldView, VirtualBoard};
use super::game::{Board, ESquareStyle, Square};

verus! {

/// The colours in which squares are shown.
#[derive(Clone, Copy, Debug, PartialEq, Eq, Hash, Structural)]
pub enum EColour {
    Cyan,
    Red,
    Purple,
    Green,
}

/// The number by which a terminal knows a colour of the text.
pub open spec fn colour_code(colour: EColour) -> Seq<char> {
    match colour {
        EColour::Red => seq!['3', '1'],
        EColour::Green => seq!['3', '2'],
        EColour::Purple => seq!['3', '5'],
        EColour::Cyan => seq!['3', '6'],
    }
}

/// `text` between the escape sequence that turns the colour on and the one
/// that sets the terminal back.
pub open spec fn painted(colour: EColour, text: Seq<char>) -> Seq<char> {
    seq!['\x1B', '['] + colour_code(colour) + seq!['m'] + text + seq!['\x1B', '[', '0', 'm']
}

/// The colour of each style; a square that the player placed and that
/// breaks no rule has none.
pub open spec fn spec_colour_of(style: ESquareStyle) -> Option<EColour> {
    match style {
        ESquareStyle::Initial => Some(EColour::Cyan),
        ESquareStyle::Conflict => Some(EColour::Red),
        ESquareStyle::GeneratedConflict => Some(EColour::Purple),
        ESquareStyle::Generated => Some(EColour::Green),
        ESquareStyle::Plain => None,
    }
}

/// The character of a digit.
pub open spec fn spec_digit(d: int) -> char {
    if d == 0 {
        '0'
    } else if d == 1 {
        '1'
    } else if d == 2 {
        '2'
    } else if d == 3 {
        '3'
    } else if d == 4 {
        '4'
    } else if d == 5 {
        '5'
    } else if d == 6 {
        '6'
    } else if d == 7 {
        '7'
    } else if d == 8 {
        '8'
    } else {
        '9'
    }
}

/// A value written in decimal.
pub open spec fn spec_decimal(value: u8) -> Seq<char> {
    let v = value as int;
    if v < 10 {
        seq![spec_digit(v)]
    } else if v < 100 {
        seq![spec_digit(v / 10), spec_digit(v % 10)]
    } else {
        seq![spec_digit(v / 100), spec_digit((v / 10) % 10), spec_digit(v % 10)]
    }
}

/// A cell as text: a blank for an empty cell, else the value of the square
/// in the colour of its style.
pub open spec fn cell_text(cell: Option<Square>) -> Seq<char> {
    match cell {
        None => seq![' '],
        Some(p) => match spec_colour_of(p.spec_style()) {
            Some(colour) => painted(colour, spec_decimal(p.value)),
            None => spec_decimal(p.value),
        },
    }
}

/// The first `n` cells of row `y`, counted from 0, as text: each cell with
/// a blank behind it, and a bar before each quadrant.
pub open spec fn row_text(cells: Seq<Option<Square>>, y: int, n: int) -> Seq<char>
    decreases n,
{
    if n <= 0 {
        Seq::empty()
    } else {
        row_text(cells, y, n - 1) + (if (n - 1) % 3 == 0 {
            "| "@
        } else {
            Seq::empty()
        }) + cell_text(cells[9 * y + (n - 1)]) + seq![' ']
    }
}

/// The line that frames the quadrants above and below.
pub open spec fn frame_text() -> Seq<char> {
    "+-------+-------+-------+\n"@
}

/// The heading and the first `m` rows as text: each row closed by a bar,
/// and a frame line before each band of quadrants.
pub open spec fn rows_text(cells: Seq<Option<Square>>, m: int) -> Seq<char>
    decreases m,
{
    if m <= 0 {
        "Board\n"@
    } else {
        rows_text(cells, m - 1) + (if (m - 1) % 3 == 0 {
            frame_text()
        } else {
            Seq::empty()
        }) + row_text(cells, m - 1, 9) + "|\n"@
    }
}

/// The whole board as text.
pub open spec fn board_text(cells: Seq<Option<Square>>) -> Seq<char> {
    rows_text(cells, 9) + frame_text()
}

/// One value of a field as text: the value, in cyan for a square of the
/// puzzle and in green else, if it is possible for the cell; a blank if
/// not.
pub open spec fn value_text(field: FieldView, value: u8) -> Seq<char> {
    if field.values.contains(value) {
        painted(
            if field.initial {
                EColour::Cyan
            } else {
                EColour::Green
            },
            spec_decimal(value),
        )
    } else {
        seq![' ']
    }
}

/// The `i`-th third of the digits of a field as text: the digits from
/// `3 * i + 1` to `3 * i + 3`.
pub open spec fn triple_text(field: FieldView, i: int) -> Seq<char> {
    value_text(field, (3 * i + 1) as u8) + value_text(field, (3 * i + 2) as u8) + value_text(
        field,
        (3 * i + 3) as u8,
    )
}

/// The `i`-th of the three lines of row `y`, for the first `n` cells: a bar
/// before each cell, and one more behind each quadrant.
pub open spec fn line_text(fields: Seq<FieldView>, y: int, i: int, n: int) -> Seq<char>
    decreases n,
{
    if n <= 0 {
        Seq::empty()
    } else {
        line_text(fields, y, i, n - 1) + " | "@ + triple_text(fields[9 * y + (n - 1)], i) + (if (n
            - 1) % 3 == 2 {
            " |"@
        } else {
            Seq::empty()
        })
    }
}

/// The first `k` of the three lines of row `y`.
pub open spec fn block_text(fields: Seq<FieldView>, y: int, k: int) -> Seq<char>
    decreases k,
{
    if k <= 0 {
        Seq::empty()
    } else {
        block_text(fields, y, k - 1) + line_text(fields, y, k - 1, 9) + "\n"@
    }
}

/// The heading and the first `m` rows of the fields as text, with an empty
/// line behind each band of quadrants.
pub open spec fn field_rows_text(fields: Seq<FieldView>, m: int) -> Seq<char>
    decreases m,
{
    if m <= 0 {
        "VirtualBoard\n"@
    } else {
        field_rows_text(fields, m - 1) + block_text(fields, m - 1, 3) + (if (m - 1) % 3 == 2 {
            "\n"@
        } else {
            Seq::empty()
        })
    }
}

/// All fields as text.
pub open spec fn virtual_board_text(fields: Seq<FieldView>) -> Seq<char> {
    field_rows_text(fields, 9) + "\n"@
}

/// Wraps `text` in the escape sequences of a colour.
///
/// This is `ansi_term::Colour::paint`, turned into a string by the
/// `Display` of what it returns: the prefix of the style, the text and the
/// suffix of the style. For a style that is a foreground colour and no more,
/// the prefix is `ESC [`, the number of the colour and `m`, and the suffix
/// is `ESC [ 0 m`.
#[verifier::external_body]
fn paint(colour: EColour, text: &Vec<char>) -> (out: Vec<char>)
    ensures
        out@ == painted(colour, text@),
{
    let colour = match colour {
        EColour::Cyan => ansi_term::Colour::Cyan,
        EColour::Red => ansi_term::Colour::Red,
        EColour::Purple => ansi_term::Colour::Purple,
        EColour::Green => ansi_term::Colour::Green,
    };
    let text: String = text.iter().collect();
    colour.paint(text).to_string().chars().collect()
}

/// The characters as a string.
///
/// This is `std::iter::Iterator::collect` into a `String`, which holds the
/// characters that the iterator hands out, in their order.
#[verifier::external_body]
fn into_string(chars: Vec<char>) -> (text: String)
    ensures
        text@ == chars@,
{
    chars.into_iter().collect()
}

/// The colour of a style, if it has one.
pub fn colour_of(style: ESquareStyle) -> (colour: Option<EColour>)
    ensures
        colour == spec_colour_of(style),
{
    match style {
        ESquareStyle::Initial => Some(EColour::Cyan),
        ESquareStyle::Conflict => Some(EColour::Red),
        ESquareStyle::GeneratedConflict => Some(EColour::Purple),
        ESquareStyle::Generated => Some(EColour::Green),
        ESquareStyle::Plain => None,
    }
}

/// The character of the digit `d`.
fn digit(d: u8) -> (c: char)
    requires
        d < 10,
    ensures
        c == spec_digit(d as int),
{
    match d {
        0 => '0',
        1 => '1',
        2 => '2',
        3 => '3',
        4 => '4',
        5 => '5',
        6 => '6',
        7 => '7',
        8 => '8',
        _ => '9',
    }
}

/// `value` written in decimal.
pub fn decimal(value: u8) -> (text: Vec<char>)
    ensures
        text@ == spec_decimal(value),
{
    let mut text: Vec<char> = Vec::new();
    if value >= 100 {
        text.push(digit(value / 100));
    }
    if value >= 10 {
        text.push(digit((value / 10) % 10));
    }
    text.push(digit(value % 10));
    assert(text@ =~= spec_decimal(value));
    text
}

/// Puts the characters of `part` behind those of `out`.
fn append_str(out: &mut Vec<char>, part: &str)
    ensures
        final(out)@ == old(out)@ + part@,
{
    let n = part.unicode_len();
    let mut i: usize = 0;
    while i < n
        invariant
            i <= n,
            n == part@.len(),
            out@ == old(out)@ + part@.take(i as int),
        decreases n - i,
    {
        out.push(part.get_char(i));
        assert(out@ =~= old(out)@ + part@.take(i as int + 1));
        i += 1;
    }
    assert(part@.take(n as int) =~= part@);
}

/// Puts the text of `cell` behind the characters of `out`.
fn append_cell(out: &mut Vec<char>, cell: &Option<Square>)
    ensures
        final(out)@ == old(out)@ + cell_text(*cell),
{
    match cell {
        None => {
            out.push(' ');
            assert(out@ =~= old(out)@ + cell_text(*cell));
        },
        Some(p) => {
            let number = decimal(p.value);
            let mut shown = match colour_of(p.style()) {
                Some(colour) => paint(colour, &number),
                None => number,
            };
            out.append(&mut shown);
        },
    }
}

/// Puts the text of one value of `field` behind the characters of `out`.
fn append_value(out: &mut Vec<char>, field: &Field, value: u8)
    ensures
        final(out)@ == old(out)@ + value_text(field@, value),
{
    if field.has_possible_value(&value) {
        let number = decimal(value);
        let mut shown = if field.is_initial() {
            paint(EColour::Cyan, &number)
        } else {
            paint(EColour::Green, &number)
        };
        out.append(&mut shown);
    } else {
        out.push(' ');
        assert(out@ =~= old(out)@ + value_text(field@, value));
    }
}

impl VirtualBoard {
    /// The fields as text: a heading, then three lines for each row, on
    /// which each cell shows the digits that are possible for it, three to
    /// a line.
    pub fn to_text(&self) -> (text: String)
        requires
            self.wf(),
        ensures
            text@ == virtual_board_text(self@),
    {
        let data = self.get_data();
        let mut out: Vec<char> = Vec::new();
        append_str(&mut out, "VirtualBoard\n");
        let mut y: usize = 0;
        while y < 9
            invariant
                y <= 9,
                data@.len() == 81,
                self@.len() == 81,
                forall|j: int| 0 <= j < 81 ==> (#[trigger] data@[j])@ == self@[j],
                out@ == field_rows_text(self@, y as int),
            decreases 9 - y,
        {
            let ghost before = out@;
            let mut i: u8 = 0;
            while i < 3
                invariant
                    i <= 3,
                    y < 9,
                    data@.len() == 81,
                    self@.len() == 81,
                    forall|j: int| 0 <= j < 81 ==> (#[trigger] data@[j])@ == self@[j],
                    out@ == before + block_text(self@, y as int, i as int),
                decreases 3 - i,
            {
                let ghost start = out@;
                let mut x: usize = 0;
                while x < 9
                    invariant
                        x <= 9,
                        y < 9,
                        i < 3,
                        data@.len() == 81,
                        self@.len() == 81,
                        forall|j: int| 0 <= j < 81 ==> (#[trigger] data@[j])@ == self@[j],
                        out@ == start + line_text(self@, y as int, i as int, x as int),
                    decreases 9 - x,
                {
                    let field = &data[9 * y + x];
                    append_str(&mut out, " | ");
                    append_value(&mut out, field, 3 * i + 1);
                    append_value(&mut out, field, 3 * i + 2);
                    append_value(&mut out, field, 3 * i + 3);
                    if x % 3 == 2 {
                        append_str(&mut out, " |");
                    }
                    assert(out@ =~= start + line_text(self@, y as int, i as int, x as int + 1));
                    x += 1;
                }
                append_str(&mut out, "\n");
                assert(out@ =~= before + block_text(self@, y as int, i as int + 1));
                i += 1;
            }
            if y % 3 == 2 {
                append_str(&mut out, "\n");
            }
            assert(out@ =~= field_rows_text(self@, y as int + 1));
            y += 1;
        }
        append_str(&mut out, "\n");
        into_string(out)
    }
}

impl Board {
    /// The board as text: a heading, then the nine rows with a frame around
    /// each quadrant. Each square shows its value in the colour of its
    /// style, each empty cell a blank.
    pub fn to_text(&self) -> (text: String)
        requires
            self.wf(),
        ensures
            text@ == board_text(self@.cells),
    {
        let data = self.get_data();
        let mut out: Vec<char> = Vec::new();
        append_str(&mut out, "Board\n");
        let mut y: usize = 0;
        while y < 9
            invariant
                y <= 9,
                data@.len() == 81,
                data@ == self@.cells,
                out@ == rows_text(data@, y as int),
            decreases 9 - y,
        {
            let ghost before = out@;
            if y % 3 == 0 {
                append_str(&mut out, "+-------+-------+-------+\n");
            }
            let ghost start = out@;
            let mut x: usize = 0;
            while x < 9
                invariant
                    x <= 9,
                    y < 9,
                    data@.len() == 81,
                    out@ == start + row_text(data@, y as int, x as int),
                decreases 9 - x,
            {
                let ghost so_far = out@;
                if x % 3 == 0 {
                    append_str(&mut out, "| ");
                }
                append_cell(&mut out, &data[9 * y + x]);
                out.push(' ');
                assert(out@ =~= start + row_text(data@, y as int, x as int + 1));
                x += 1;
            }
            append_str(&mut out, "|\n");
            assert(out@ =~= rows_text(data@, y as int + 1));
            y += 1;
        }
        append_str(&mut out, "+-------+-------+-------+\n");
        into_string(out)
    }
}

} // verus!
