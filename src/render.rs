//! The board drawn as text.

use vstd::prelude::*;

use crate::board::Board;
use crate::position::{CoordList, PosCoords};

verus! {

/// The character for the square `(x, y)`: a queen or a blank.
pub open spec fn square_char(queens: Seq<PosCoords>, x: int, y: int) -> char {
    if queens.contains((x as u32, y as u32)) {
        'Q'
    } else {
        ' '
    }
}

/// The characters of row `y`, left to right.
pub open spec fn row_chars(queens: Seq<PosCoords>, width: int, y: int) -> Seq<char> {
    Seq::new(width as nat, |x: int| square_char(queens, x, y))
}

/// A row of `-` as wide as the board and its two side borders.
pub open spec fn border_line(width: int) -> Seq<char> {
    Seq::new((width + 2) as nat, |i: int| '-')
}

/// A row between its two `|` borders.
pub open spec fn framed(row: Seq<char>) -> Seq<char> {
    seq!['|'] + row + seq!['|']
}

/// The lines of the picture: a border, the rows from the top row down, a border.
pub open spec fn board_lines(queens: Seq<PosCoords>, dims: PosCoords) -> Seq<Seq<char>> {
    seq![border_line(dims.0 as int)] + Seq::new(
        dims.1 as nat,
        |k: int| framed(row_chars(queens, dims.0 as int, dims.1 - 1 - k)),
    ) + seq![border_line(dims.0 as int)]
}

/// The lines joined by newlines.
pub open spec fn joined(lines: Seq<Seq<char>>) -> Seq<char>
    decreases lines.len(),
{
    if lines.len() == 0 {
        Seq::empty()
    } else if lines.len() == 1 {
        lines[0]
    } else {
        joined(lines.drop_last()) + seq!['\n'] + lines.last()
    }
}

/// Relies on `String::push`: appends one character.
#[verifier::external_body]
fn push_char(s: &mut String, c: char)
    ensures
        final(s)@ == old(s)@.push(c),
{
    s.push(c);
}

/// Relies on `String::push_str`: appends the characters of `t`.
#[verifier::external_body]
fn push_string(s: &mut String, t: &String)
    ensures
        final(s)@ == old(s)@ + t@,
{
    s.push_str(t);
}

/// Whether `pos` is in the list.
fn has_coord(v: &Vec<PosCoords>, pos: PosCoords) -> (r: bool)
    ensures
        r == v@.contains(pos),
{
    let mut i: usize = 0;
    while i < v.len()
        invariant
            0 <= i <= v.len(),
            forall|k: int| 0 <= k < i ==> v@[k] != pos,
        decreases v.len() - i,
    {
        if v[i].0 == pos.0 && v[i].1 == pos.1 {
            proof {
                assert(v@[i as int] == pos);
            }
            return true;
        }
        i = i + 1;
    }
    false
}

/// The text of the characters.
fn string_of(chars: &Vec<char>) -> (r: String)
    ensures
        r@ == chars@,
{
    let mut s = String::new();
    let mut i: usize = 0;
    while i < chars.len()
        invariant
            0 <= i <= chars.len(),
            s@ == chars@.subrange(0, i as int),
        decreases chars.len() - i,
    {
        push_char(&mut s, chars[i]);
        i = i + 1;
        assert(s@ =~= chars@.subrange(0, i as int));
    }
    assert(chars@.subrange(0, chars.len() as int) =~= chars@);
    s
}

impl Board {
    /// One row of characters for each row of the board, bottom row first: `Q` where a queen
    /// stands, a blank elsewhere.
    pub fn initialize_char_matrix(&self) -> (r: Vec<Vec<char>>)
        ensures
            r@.len() == self@.0.1,
            forall|y: int| 0 <= y < r@.len() ==> (#[trigger] r@[y])@ == row_chars(self@.1, self@.0.0 as int, y),
    {
        let (width, height) = self.dims();
        let queens: CoordList = self.get_queen_positions();
        let mut chars: Vec<Vec<char>> = Vec::new();
        let mut y: u32 = 0;
        while y < height
            invariant
                y <= height,
                (width, height) == self@.0,
                queens@ == self@.1,
                chars@.len() == y,
                forall|k: int| 0 <= k < y ==> (#[trigger] chars@[k])@ == row_chars(self@.1, width as int, k),
            decreases height - y,
        {
            let mut row: Vec<char> = Vec::new();
            let mut x: u32 = 0;
            while x < width
                invariant
                    x <= width,
                    y < height,
                    queens@ == self@.1,
                    row@ == row_chars(self@.1, x as int, y as int),
                decreases width - x,
            {
                if has_coord(&queens, (x, y)) {
                    row.push('Q');
                } else {
                    row.push(' ');
                }
                x = x + 1;
                assert(row@ =~= row_chars(self@.1, x as int, y as int));
            }
            assert(row@ =~= row_chars(self@.1, width as int, y as int));
            chars.push(row);
            y = y + 1;
        }
        chars
    }

    /// Each row of characters as a string.
    pub fn form_row_strings(chars: Vec<Vec<char>>) -> (r: Vec<String>)
        ensures
            r@.len() == chars@.len(),
            forall|k: int| 0 <= k < r@.len() ==> (#[trigger] r@[k])@ == chars@[k]@,
    {
        let mut r: Vec<String> = Vec::new();
        let mut i: usize = 0;
        while i < chars.len()
            invariant
                0 <= i <= chars.len(),
                r@.len() == i,
                forall|k: int| 0 <= k < i ==> (#[trigger] r@[k])@ == chars@[k]@,
            decreases chars.len() - i,
        {
            r.push(string_of(&chars[i]));
            i = i + 1;
        }
        r
    }

    /// The rows from the top row down, each between `|` borders, with a border line above
    /// and below.
    pub fn add_borders(&self, rows: Vec<String>) -> (r: Vec<String>)
        ensures
            r@.len() == rows@.len() + 2,
            r@[0]@ == border_line(self@.0.0 as int),
            r@[r@.len() - 1]@ == border_line(self@.0.0 as int),
            forall|k: int|
                0 <= k < rows@.len() ==> (#[trigger] r@[k + 1])@ == framed(rows@[rows@.len() - 1 - k]@),
    {
        let mut bordered_vec: Vec<String> = Vec::new();
        bordered_vec.push(self.form_horizontal_border());
        let mut i: usize = rows.len();
        while i > 0
            invariant
                0 <= i <= rows@.len(),
                bordered_vec@.len() == 1 + rows@.len() - i,
                bordered_vec@[0]@ == border_line(self@.0.0 as int),
                forall|k: int|
                    0 <= k < rows@.len() - i ==> (#[trigger] bordered_vec@[k + 1])@ == framed(
                        rows@[rows@.len() - 1 - k]@,
                    ),
            decreases i,
        {
            i = i - 1;
            let mut line = String::new();
            push_char(&mut line, '|');
            push_string(&mut line, &rows[i]);
            push_char(&mut line, '|');
            proof {
                assert(line@ =~= framed(rows@[i as int]@));
            }
            bordered_vec.push(line);
        }
        bordered_vec.push(self.form_horizontal_border());
        bordered_vec
    }

    /// A line of `-` as wide as the board and its two side borders.
    pub fn form_horizontal_border(&self) -> (r: String)
        ensures
            r@ == border_line(self@.0.0 as int),
    {
        let border_width = self.width() as u64 + 2;
        let mut s = String::new();
        let mut i: u64 = 0;
        while i < border_width
            invariant
                i <= border_width,
                border_width == self@.0.0 + 2,
                s@ == Seq::new(i as nat, |j: int| '-'),
            decreases border_width - i,
        {
            push_char(&mut s, '-');
            i = i + 1;
            assert(s@ =~= Seq::new(i as nat, |j: int| '-'));
        }
        s
    }

    /// The board as text: a border line, the rows from the top row down between `|`
    /// borders, with `Q` for a queen and a blank elsewhere, and a border line; the lines
    /// joined by newlines.
    pub fn to_string(&self) -> (r: String)
        ensures
            r@ == joined(board_lines(self@.1, self@.0)),
    {
        let board_chars = self.initialize_char_matrix();
        let row_strings = Board::form_row_strings(board_chars);
        let bordered_strings = self.add_borders(row_strings);
        let ghost lines = board_lines(self@.1, self@.0);
        proof {
            assert forall|k: int| 0 <= k < bordered_strings@.len() implies (#[trigger] bordered_strings@[k])@
                == lines[k] by {
                if 0 < k < bordered_strings@.len() - 1 {
                    let h = self@.0.1 as int;
                    assert(bordered_strings@[(k - 1) + 1]@ == framed(row_strings@[h - 1 - (k - 1)]@));
                }
            }
        }
        let mut s = String::new();
        let mut i: usize = 0;
        while i < bordered_strings.len()
            invariant
                0 <= i <= bordered_strings@.len(),
                bordered_strings@.len() == lines.len(),
                forall|k: int| 0 <= k < bordered_strings@.len() ==> (#[trigger] bordered_strings@[k])@ == lines[k],
                s@ == joined(lines.subrange(0, i as int)),
            decreases bordered_strings.len() - i,
        {
            if i > 0 {
                push_char(&mut s, '\n');
            }
            push_string(&mut s, &bordered_strings[i]);
            proof {
                let pre = lines.subrange(0, i as int);
                let post = lines.subrange(0, i + 1);
                assert(post.drop_last() =~= pre);
                if i == 0 {
                    assert(s@ =~= joined(post));
                } else {
                    assert(s@ =~= joined(post));
                }
            }
            i = i + 1;
        }
        proof {
            assert(lines.subrange(0, lines.len() as int) =~= lines);
        }
        s
    }
}

} // verus!
