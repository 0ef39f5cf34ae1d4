//! Rendering of a grid as a text table: every cell right-aligned to the width of
//! the widest, cells of a row separated by `" | "`, rows by line breaks.

use crate::grid::{rect, Grid};
use vstd::prelude::*;
use vstd::string::to_string_from_display_ensures;
use vstd::utf8::encode_utf8;

verus! {

/// `String::push_str` appends the characters of `string` to `text`.
pub assume_specification[ String::push_str ](text: &mut String, string: &str)
    ensures
        final(text)@ == old(text)@ + string@,
;

/// `String::push` appends the character `ch` to `text`.
pub assume_specification[ String::push ](text: &mut String, ch: char)
    ensures
        final(text)@ == old(text)@.push(ch),
;

/// Width of a text: the number of bytes of its UTF-8 encoding.
pub open spec fn byte_len(text: Seq<char>) -> nat {
    encode_utf8(text).len()
}

/// The larger of two widths.
pub open spec fn wider(a: nat, b: nat) -> nat {
    if a >= b {
        a
    } else {
        b
    }
}

/// Width of the widest text of a row, 0 for an empty row.
pub open spec fn row_width(row: Seq<Seq<char>>) -> nat
    decreases row.len(),
{
    if row.len() == 0 {
        0
    } else {
        wider(row_width(row.drop_last()), byte_len(row.last()))
    }
}

/// Width of the widest text of a table, 0 for an empty table.
pub open spec fn table_width(rows: Seq<Seq<Seq<char>>>) -> nat
    decreases rows.len(),
{
    if rows.len() == 0 {
        0
    } else {
        wider(table_width(rows.drop_last()), row_width(rows.last()))
    }
}

/// `count` spaces.
pub open spec fn spaces(count: nat) -> Seq<char> {
    Seq::new(count, |i: int| ' ')
}

/// `text` with spaces in front, as many as it is narrower than `width`.
pub open spec fn padded(text: Seq<char>, width: nat) -> Seq<char> {
    if byte_len(text) < width {
        spaces((width - byte_len(text)) as nat) + text
    } else {
        text
    }
}

/// The parts in order, with `separator` between each two.
pub open spec fn joined(parts: Seq<Seq<char>>, separator: Seq<char>) -> Seq<char>
    decreases parts.len(),
{
    if parts.len() == 0 {
        Seq::empty()
    } else if parts.len() == 1 {
        parts[0]
    } else {
        joined(parts.drop_last(), separator) + separator + parts.last()
    }
}

/// One row of the table as a line.
pub open spec fn row_line(row: Seq<Seq<char>>, width: nat) -> Seq<char> {
    joined(row.map_values(|text: Seq<char>| padded(text, width)), " | "@)
}

/// The table as text: its rows as lines, all cells padded to the widest.
pub open spec fn table_text(rows: Seq<Seq<Seq<char>>>) -> Seq<char> {
    joined(rows.map_values(|row: Seq<Seq<char>>| row_line(row, table_width(rows))), "\n"@)
}

/// The decimal digit for `d`, which is below ten.
pub open spec fn digit(d: nat) -> char {
    if d == 0 {
        '0'
    } else if d == 1 {
        '1'
    } else if d == 2 {
        '2'
    } else if d == 3 {
        '3'
    } else if d == 4 {
        '4'
    } else if d == 5 {
        '5'
    } else if d == 6 {
        '6'
    } else if d == 7 {
        '7'
    } else if d == 8 {
        '8'
    } else {
        '9'
    }
}

/// The decimal numeral of `n`, without leading zeros.
pub open spec fn decimal(n: nat) -> Seq<char>
    decreases n,
{
    if n < 10 {
        seq![digit(n)]
    } else {
        decimal(n / 10).push(digit(n % 10))
    }
}

/// The characters of each cell of a table of strings.
pub open spec fn texts_of(cells: Seq<Seq<String>>) -> Seq<Seq<Seq<char>>> {
    cells.map_values(|row: Seq<String>| row.map_values(|cell: String| cell@))
}

/// `labels` holds, cell by cell, a display form of the cell of `cells`.
pub open spec fn labels_of<T: core::fmt::Display>(cells: Seq<Seq<T>>, labels: Seq<Seq<String>>) -> bool {
    &&& labels.len() == cells.len()
    &&& forall|i: int| 0 <= i < cells.len() ==> (#[trigger] labels[i]).len() == cells[i].len()
    &&& forall|i: int, j: int|
        0 <= i < cells.len() && 0 <= j < cells[i].len() ==> to_string_from_display_ensures::<T>(
            &cells[i][j],
            #[trigger] labels[i][j],
        )
}

fn digit_char(d: usize) -> (ch: char)
    requires
        d < 10,
    ensures
        ch == digit(d as nat),
{
    if d == 0 {
        '0'
    } else if d == 1 {
        '1'
    } else if d == 2 {
        '2'
    } else if d == 3 {
        '3'
    } else if d == 4 {
        '4'
    } else if d == 5 {
        '5'
    } else if d == 6 {
        '6'
    } else if d == 7 {
        '7'
    } else if d == 8 {
        '8'
    } else {
        '9'
    }
}

fn push_decimal(text: &mut String, n: usize)
    ensures
        final(text)@ == old(text)@ + decimal(n as nat),
    decreases n,
{
    if n >= 10 {
        push_decimal(text, n / 10);
    }
    text.push(digit_char(n % 10));
    assert(text@ =~= old(text)@ + decimal(n as nat));
}

/// The decimal numeral of `n` as a string.
pub fn decimal_text(n: usize) -> (text: String)
    ensures
        text@ == decimal(n as nat),
{
    let mut text = String::new();
    push_decimal(&mut text, n);
    assert(text@ =~= decimal(n as nat));
    text
}

impl Grid<String> {
    /// Lays the cells out as a text table.
    pub fn layout(&self) -> (text: String)
        requires
            self.wf(),
            self.spec_rows() >= 1,
            self.spec_cols() >= 1,
        ensures
            text@ == table_text(texts_of(self@)),
    {
        let rows = self.rows();
        let cols = self.cols();
        let ghost table = texts_of(self@);
        let mut width: usize = 0;
        let mut i: usize = 0;
        while i < rows
            invariant
                i <= rows,
                self.wf(),
                rows == self.spec_rows(),
                cols == self.spec_cols(),
                table == texts_of(self@),
                width == table_width(table.take(i as int)),
            decreases rows - i,
        {
            let mut row_max: usize = 0;
            let mut j: usize = 0;
            while j < cols
                invariant
                    i < rows,
                    j <= cols,
                    self.wf(),
                    rows == self.spec_rows(),
                    cols == self.spec_cols(),
                    table == texts_of(self@),
                    row_max == row_width(table[i as int].take(j as int)),
                decreases cols - j,
            {
                let len = self.get(i, j).as_str().as_bytes().len();
                proof {
                    assert(table[i as int][j as int] == self@[i as int][j as int]@);
                    assert(len == byte_len(table[i as int][j as int]));
                    assert(table[i as int].take(j + 1).drop_last() =~= table[i as int].take(j as int));
                    assert(table[i as int].take(j + 1).last() == table[i as int][j as int]);
                }
                if len > row_max {
                    row_max = len;
                }
                j += 1;
            }
            proof {
                assert(table[i as int].take(cols as int) =~= table[i as int]);
                assert(table.take(i + 1).drop_last() =~= table.take(i as int));
            }
            if row_max > width {
                width = row_max;
            }
            i += 1;
        }
        proof {
            assert(table.take(rows as int) =~= table);
        }
        let ghost lines = table.map_values(|row: Seq<Seq<char>>| row_line(row, width as nat));
        let mut text = String::new();
        let mut i: usize = 0;
        while i < rows
            invariant
                i <= rows,
                self.wf(),
                rows == self.spec_rows(),
                cols == self.spec_cols(),
                cols >= 1,
                table == texts_of(self@),
                width == table_width(table),
                lines == table.map_values(|row: Seq<Seq<char>>| row_line(row, width as nat)),
                text@ == joined(lines.take(i as int), "\n"@),
            decreases rows - i,
        {
            let ghost cells = table[i as int].map_values(|t: Seq<char>| padded(t, width as nat));
            let mut line = String::new();
            let mut j: usize = 0;
            while j < cols
                invariant
                    i < rows,
                    j <= cols,
                    self.wf(),
                    rows == self.spec_rows(),
                    cols == self.spec_cols(),
                    table == texts_of(self@),
                    cells == table[i as int].map_values(|t: Seq<char>| padded(t, width as nat)),
                    line@ == joined(cells.take(j as int), " | "@),
                decreases cols - j,
            {
                let cell = self.get(i, j).as_str();
                let len = cell.as_bytes().len();
                let mut padding = String::new();
                let mut k: usize = len;
                while k < width
                    invariant
                        len <= k,
                        k <= width || k == len,
                        padding@ == spaces((k - len) as nat),
                    decreases width - k,
                {
                    padding.push_str(" ");
                    proof {
                        reveal_strlit(" ");
                        assert(padding@ =~= spaces((k + 1 - len) as nat));
                    }
                    k += 1;
                }
                padding.push_str(cell);
                proof {
                    assert(len == byte_len(cell@));
                    assert(padding@ == padded(cell@, width as nat)) by {
                        if len >= width {
                            assert(spaces(0) + cell@ =~= cell@);
                        }
                    }
                    assert(table[i as int][j as int] == cell@);
                    assert(cells.take(j + 1).drop_last() =~= cells.take(j as int));
                    assert(cells.take(j + 1).last() == padding@);
                }
                if j > 0 {
                    line.push_str(" | ");
                }
                line.push_str(padding.as_str());
                j += 1;
            }
            proof {
                assert(cells.take(cols as int) =~= cells);
                assert(line@ == lines[i as int]);
                assert(lines.take(i + 1).drop_last() =~= lines.take(i as int));
            }
            if i > 0 {
                text.push_str("\n");
            }
            text.push_str(line.as_str());
            i += 1;
        }
        proof {
            assert(lines.take(rows as int) =~= lines);
        }
        text
    }
}

impl<T: core::fmt::Display> Grid<T> {
    /// The display form of every cell.
    pub fn labels(&self) -> (labels: Grid<String>)
        requires
            self.wf(),
        ensures
            labels.wf(),
            labels.spec_rows() == self.spec_rows(),
            labels.spec_cols() == self.spec_cols(),
            labels_of(self@, labels@),
    {
        let rows = self.rows();
        let cols = self.cols();
        let mut labels: Grid<String> = Grid::new(
            (rows, cols),
            |i: usize, j: usize| -> (s: String) { String::new() },
        );
        let mut i: usize = 0;
        while i < rows
            invariant
                i <= rows,
                self.wf(),
                rows == self.spec_rows(),
                cols == self.spec_cols(),
                rect(labels@, rows as nat, cols as nat),
                forall|a: int, b: int|
                    0 <= a < i && 0 <= b < cols ==> to_string_from_display_ensures::<T>(
                        &self@[a][b],
                        #[trigger] labels@[a][b],
                    ),
            decreases rows - i,
        {
            let mut j: usize = 0;
            while j < cols
                invariant
                    i < rows,
                    j <= cols,
                    self.wf(),
                    rows == self.spec_rows(),
                    cols == self.spec_cols(),
                    rect(labels@, rows as nat, cols as nat),
                    forall|a: int, b: int|
                        0 <= a < i && 0 <= b < cols ==> to_string_from_display_ensures::<T>(
                            &self@[a][b],
                            #[trigger] labels@[a][b],
                        ),
                    forall|b: int|
                        0 <= b < j ==> to_string_from_display_ensures::<T>(
                            &self@[i as int][b],
                            #[trigger] labels@[i as int][b],
                        ),
                decreases cols - j,
            {
                labels.set(i, j, self.get(i, j).to_string());
                j += 1;
            }
            i += 1;
        }
        labels
    }

    /// The grid as a text table of the display forms of its cells.
    pub fn render(&self) -> (text: String)
        requires
            self.wf(),
            self.spec_rows() >= 1,
            self.spec_cols() >= 1,
        ensures
            exists|labels: Seq<Seq<String>>|
                labels_of(self@, labels) && text@ == table_text(texts_of(labels)),
    {
        let labels = self.labels();
        labels.layout()
    }
}

} // verus!
