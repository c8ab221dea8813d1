use vstd::prelude::*;

use crate::fit::{
    as_ints, fit_widths, fitted, fixed_width, lemma_fit_meets_target, lemma_fitted_nonneg,
    lemma_sum_mono, sum_to, total_width,
};
use crate::text::{
    fit_center, fit_left, pad_left, push_char, push_fit_center, push_fit_left, push_pad_left,
    push_repeat, repeat_char, spaces,
};

verus! {

/// How a table is drawn.
#[derive(Clone, Copy, Debug, PartialEq, Eq, Structural)]
pub enum Style {
    /// Unicode box-drawing borders.
    BoxDrawing,
    /// Borders drawn with ASCII characters only.
    Ascii,
    /// No borders: cells separated by one space, the last column unclamped.
    Plain,
}

/// Layout hints of one column.
pub struct Column {
    pub name: String,
    /// Hard upper bound on the column's width.
    pub max_width: Option<usize>,
    /// Horizontal padding on each side; the table's default where `None`.
    pub h_padding: Option<usize>,
    /// Whether the column may lose width to fit a target line width.
    pub can_shrink: bool,
}

impl Column {
    pub fn new(name: String) -> (r: Column)
        ensures
            r.name@ == name@,
            r.max_width is None,
            r.h_padding is None,
            !r.can_shrink,
    {
        Column { name, max_width: None, h_padding: None, can_shrink: false }
    }

    pub fn max_width(self, max_width: Option<usize>) -> (r: Column)
        ensures
            r.name@ == self.name@,
            r.max_width == max_width,
            r.h_padding == self.h_padding,
            r.can_shrink == self.can_shrink,
    {
        Column { max_width, ..self }
    }

    pub fn h_padding(self, h_padding: Option<usize>) -> (r: Column)
        ensures
            r.name@ == self.name@,
            r.max_width == self.max_width,
            r.h_padding == h_padding,
            r.can_shrink == self.can_shrink,
    {
        Column { h_padding, ..self }
    }

    pub fn can_shrink(self, can_shrink: bool) -> (r: Column)
        ensures
            r.name@ == self.name@,
            r.max_width == self.max_width,
            r.h_padding == self.h_padding,
            r.can_shrink == can_shrink,
    {
        Column { can_shrink, ..self }
    }
}

/// One cell: the text shown, and the width estimated for it.
pub struct Cell {
    pub text: String,
    pub width: usize,
}

pub struct Builder {
    pub style: Style,
    pub h_padding: usize,
}

/// A column of a table, with the padding in effect and the width of the last
/// render.
pub struct ColumnData {
    pub inner: Column,
    pub h_padding: usize,
    pub width: usize,
}

pub struct TableTemplate {
    pub style: Style,
    pub columns: Vec<ColumnData>,
}

impl Builder {
    pub fn new() -> (r: Builder)
        ensures
            r.style == Style::BoxDrawing,
            r.h_padding == 2,
    {
        Builder { style: Style::BoxDrawing, h_padding: 2 }
    }

    pub fn style(self, style: Style) -> (r: Builder)
        ensures
            r.style == style,
            r.h_padding == self.h_padding,
    {
        Builder { style, ..self }
    }

    pub fn h_padding(self, h_padding: usize) -> (r: Builder)
        ensures
            r.style == self.style,
            r.h_padding == h_padding,
    {
        Builder { h_padding, ..self }
    }

    pub fn build(self, columns: Vec<Column>) -> (r: TableTemplate)
        ensures
            r.style == self.style,
            r.columns.len() == columns.len(),
            forall|j: int|
                0 <= j < columns.len() ==> {
                    &&& (#[trigger] r.columns@[j]).inner == columns@[j]
                    &&& r.columns@[j].width == 0
                    &&& r.columns@[j].h_padding == match columns@[j].h_padding {
                        Option::Some(p) => p,
                        Option::None => self.h_padding,
                    }
                },
    {
        let ghost orig = columns@;
        let mut rest = columns;
        let mut out: Vec<ColumnData> = Vec::new();
        while rest.len() > 0
            invariant
                out.len() + rest.len() == orig.len(),
                rest@ == orig.subrange(out.len() as int, orig.len() as int),
                forall|j: int|
                    0 <= j < out.len() ==> {
                        &&& (#[trigger] out@[j]).inner == orig[j]
                        &&& out@[j].width == 0
                        &&& out@[j].h_padding == match orig[j].h_padding {
                            Option::Some(p) => p,
                            Option::None => self.h_padding,
                        }
                    },
            decreases rest.len(),
        {
            let column = rest.remove(0);
            let h_padding = match column.h_padding {
                Some(p) => p,
                None => self.h_padding,
            };
            out.push(ColumnData { inner: column, h_padding, width: 0 });
            assert(rest@ =~= orig.subrange(out.len() as int, orig.len() as int));
        }
        TableTemplate { style: self.style, columns: out }
    }
}


/// The pieces joined with `sep` between neighbours.
pub open spec fn joined(pieces: Seq<Seq<char>>, sep: char) -> Seq<char>
    decreases pieces.len(),
{
    if pieces.len() == 0 {
        Seq::empty()
    } else if pieces.len() == 1 {
        pieces[0]
    } else {
        joined(pieces.drop_last(), sep).push(sep) + pieces.last()
    }
}

/// The pieces joined with `sep`, between `left` and `right`.
pub open spec fn framed(left: char, pieces: Seq<Seq<char>>, sep: char, right: char) -> Seq<char> {
    seq![left] + joined(pieces, sep) + seq![right]
}

pub open spec fn concat_all(pieces: Seq<Seq<char>>) -> Seq<char>
    decreases pieces.len(),
{
    if pieces.len() == 0 {
        Seq::empty()
    } else {
        concat_all(pieces.drop_last()) + pieces.last()
    }
}

/// The lines, each ended by a newline.
pub open spec fn lines_text(lines: Seq<Seq<char>>) -> Seq<char>
    decreases lines.len(),
{
    if lines.len() == 0 {
        Seq::empty()
    } else {
        lines_text(lines.drop_last()) + lines.last().push('\n')
    }
}

/// Border glyph `i` of the nine: top left, top join, top right, then the
/// same for the rule under the header and for the bottom.
pub open spec fn corner(box_drawing: bool, i: int) -> char {
    if box_drawing {
        seq!['┌', '┬', '┐', '├', '┼', '┤', '└', '┴', '┘'][i]
    } else {
        '|'
    }
}

pub open spec fn vertical(box_drawing: bool) -> char {
    if box_drawing {
        '│'
    } else {
        '|'
    }
}

pub open spec fn horizontal(box_drawing: bool) -> char {
    if box_drawing {
        '─'
    } else {
        '-'
    }
}

pub open spec fn rule_pieces(ws: Seq<int>, ps: Seq<int>, h: char) -> Seq<Seq<char>> {
    Seq::new(ws.len(), |j: int| repeat_char(h, ws[j] + 2 * ps[j]))
}

pub open spec fn header_pieces(ws: Seq<int>, ps: Seq<int>, names: Seq<Seq<char>>) -> Seq<Seq<char>> {
    Seq::new(ws.len(), |j: int| spaces(ps[j]) + fit_center(names[j], ws[j]) + spaces(ps[j]))
}

pub open spec fn row_pieces(ws: Seq<int>, ps: Seq<int>, row: Seq<Seq<char>>) -> Seq<Seq<char>> {
    Seq::new(ws.len(), |j: int| spaces(ps[j]) + fit_left(row[j], ws[j]) + spaces(ps[j]))
}

pub open spec fn rule_line(ws: Seq<int>, ps: Seq<int>, box_drawing: bool, at: int) -> Seq<char> {
    framed(
        corner(box_drawing, 3 * at),
        rule_pieces(ws, ps, horizontal(box_drawing)),
        corner(box_drawing, 3 * at + 1),
        corner(box_drawing, 3 * at + 2),
    )
}

pub open spec fn header_line(ws: Seq<int>, ps: Seq<int>, names: Seq<Seq<char>>, box_drawing: bool) -> Seq<char> {
    let v = vertical(box_drawing);
    framed(v, header_pieces(ws, ps, names), v, v)
}

pub open spec fn row_line(ws: Seq<int>, ps: Seq<int>, row: Seq<Seq<char>>, box_drawing: bool) -> Seq<char> {
    let v = vertical(box_drawing);
    framed(v, row_pieces(ws, ps, row), v, v)
}

/// The lines of a bordered table: top rule, header, rule, one line per row,
/// bottom rule.
pub open spec fn bordered_lines(
    ws: Seq<int>,
    ps: Seq<int>,
    names: Seq<Seq<char>>,
    rows: Seq<Seq<Seq<char>>>,
    box_drawing: bool,
) -> Seq<Seq<char>> {
    seq![rule_line(ws, ps, box_drawing, 0), header_line(ws, ps, names, box_drawing), rule_line(ws, ps, box_drawing, 1)]
        + Seq::new(rows.len(), |i: int| row_line(ws, ps, rows[i], box_drawing))
        + seq![rule_line(ws, ps, box_drawing, 2)]
}

/// A plain cell after its separating space: cut and filled to its width,
/// but for the last column, which is only filled and never cut.
pub open spec fn plain_cell(ws: Seq<int>, row: Seq<Seq<char>>, j: int) -> Seq<char> {
    if j < ws.len() - 1 {
        fit_left(row[j], ws[j])
    } else {
        pad_left(row[j], ws[j])
    }
}

pub open spec fn plain_pieces(ws: Seq<int>, row: Seq<Seq<char>>) -> Seq<Seq<char>> {
    Seq::new(ws.len(), |j: int| seq![' '] + plain_cell(ws, row, j))
}

pub open spec fn plain_line(ws: Seq<int>, row: Seq<Seq<char>>) -> Seq<char> {
    concat_all(plain_pieces(ws, row))
}

/// The lines of a plain table: the header, then one line per row.
pub open spec fn plain_lines(ws: Seq<int>, names: Seq<Seq<char>>, rows: Seq<Seq<Seq<char>>>) -> Seq<Seq<char>> {
    seq![plain_line(ws, names)] + Seq::new(rows.len(), |i: int| plain_line(ws, rows[i]))
}

pub open spec fn row_texts(rows: Seq<Vec<Cell>>) -> Seq<Seq<Seq<char>>> {
    Seq::new(rows.len(), |i: int| Seq::new(rows[i]@.len(), |j: int| rows[i]@[j].text@))
}

/// Largest estimated width of column `j` over the first `i` rows.
pub open spec fn max_cell_width(rows: Seq<Vec<Cell>>, j: int, i: int) -> int
    decreases i,
{
    if i <= 0 {
        0
    } else {
        let prev = max_cell_width(rows, j, i - 1);
        let w = rows[i - 1]@[j].width as int;
        if w > prev {
            w
        } else {
            prev
        }
    }
}

pub open spec fn well_formed_rows(rows: Seq<Vec<Cell>>, n: int) -> bool {
    forall|i: int| 0 <= i < rows.len() ==> (#[trigger] rows[i]).len() == n
}

impl TableTemplate {
    pub open spec fn names(&self) -> Seq<Seq<char>> {
        Seq::new(self.columns@.len(), |j: int| self.columns@[j].inner.name@)
    }

    pub open spec fn paddings(&self) -> Seq<int> {
        Seq::new(self.columns@.len(), |j: int| self.columns@[j].h_padding as int)
    }

    pub open spec fn widths(&self) -> Seq<int> {
        Seq::new(self.columns@.len(), |j: int| self.columns@[j].width as int)
    }

    pub open spec fn shrinkable(&self) -> Seq<bool> {
        Seq::new(self.columns@.len(), |j: int| self.columns@[j].inner.can_shrink)
    }

    /// Width of column `j` from its header and its cells.
    pub open spec fn natural_width(&self, rows: Seq<Vec<Cell>>, j: int) -> int {
        let name_len = self.columns@[j].inner.name@.len() as int;
        let cells = max_cell_width(rows, j, rows.len() as int);
        if cells > name_len {
            cells
        } else {
            name_len
        }
    }

    /// The natural width, held to the column's hard maximum.
    pub open spec fn clamped_width(&self, rows: Seq<Vec<Cell>>, j: int) -> int {
        let w = self.natural_width(rows, j);
        match self.columns@[j].inner.max_width {
            Option::Some(m) => if w > m {
                m as int
            } else {
                w
            },
            Option::None => w,
        }
    }

    pub open spec fn clamped_widths(&self, rows: Seq<Vec<Cell>>) -> Seq<usize> {
        Seq::new(self.columns@.len(), |j: int| self.clamped_width(rows, j) as usize)
    }

    /// Padding and separators of a bordered line.
    pub open spec fn overhead(&self) -> int {
        2 * crate::fit::sum_to(self.paddings(), self.columns.len() as int) + self.columns.len() + 1
    }

    /// The widths of a bordered render: clamped, then fitted to the target
    /// where one is given.
    pub open spec fn bordered_widths(&self, rows: Seq<Vec<Cell>>, target: Option<usize>) -> Seq<int> {
        match target {
            Option::Some(t) => if self.overhead() <= usize::MAX {
                fitted(self.clamped_widths(rows), self.shrinkable(), self.overhead(), t as int)
            } else {
                as_ints(self.clamped_widths(rows))
            },
            Option::None => as_ints(self.clamped_widths(rows)),
        }
    }

    /// The widths of a plain render: natural, but the last column is as wide
    /// as its header.
    pub open spec fn plain_widths(&self, rows: Seq<Vec<Cell>>) -> Seq<int> {
        Seq::new(
            self.columns@.len(),
            |j: int|
                if j == self.columns.len() - 1 {
                    self.columns@[j].inner.name@.len() as int
                } else {
                    self.natural_width(rows, j)
                },
        )
    }

    /// The columns' contents and settings are those of `other`; only the
    /// widths may differ.
    pub open spec fn same_columns(&self, other: &TableTemplate) -> bool {
        &&& self.style == other.style
        &&& self.columns.len() == other.columns.len()
        &&& forall|j: int|
            0 <= j < self.columns.len() ==> {
                &&& (#[trigger] self.columns@[j]).inner == other.columns@[j].inner
                &&& self.columns@[j].h_padding == other.columns@[j].h_padding
            }
    }
}


proof fn lemma_joined_step(pieces: Seq<Seq<char>>, sep: char, j: int)
    requires
        0 <= j < pieces.len(),
    ensures
        joined(pieces.take(j + 1), sep) == if j == 0 {
            pieces[0]
        } else {
            joined(pieces.take(j), sep).push(sep) + pieces[j]
        },
{
    assert(pieces.take(j + 1).drop_last() =~= pieces.take(j));
}

proof fn lemma_concat_step(pieces: Seq<Seq<char>>, j: int)
    requires
        0 <= j < pieces.len(),
    ensures
        concat_all(pieces.take(j + 1)) == concat_all(pieces.take(j)) + pieces[j],
{
    assert(pieces.take(j + 1).drop_last() =~= pieces.take(j));
}

proof fn lemma_lines_step(lines: Seq<Seq<char>>, k: int)
    requires
        0 <= k < lines.len(),
    ensures
        lines_text(lines.take(k + 1)) == lines_text(lines.take(k)) + lines[k].push('\n'),
{
    assert(lines.take(k + 1).drop_last() =~= lines.take(k));
}

fn corner_char(box_drawing: bool, i: usize) -> (c: char)
    requires
        i < 9,
    ensures
        c == corner(box_drawing, i as int),
{
    if !box_drawing {
        '|'
    } else if i == 0 {
        '┌'
    } else if i == 1 {
        '┬'
    } else if i == 2 {
        '┐'
    } else if i == 3 {
        '├'
    } else if i == 4 {
        '┼'
    } else if i == 5 {
        '┤'
    } else if i == 6 {
        '└'
    } else if i == 7 {
        '┴'
    } else {
        '┘'
    }
}

fn vertical_char(box_drawing: bool) -> (c: char)
    ensures
        c == vertical(box_drawing),
{
    if box_drawing {
        '│'
    } else {
        '|'
    }
}

fn horizontal_char(box_drawing: bool) -> (c: char)
    ensures
        c == horizontal(box_drawing),
{
    if box_drawing {
        '─'
    } else {
        '-'
    }
}

/// Appends `line` and a newline.
fn push_line(out: &mut String, line: &String)
    ensures
        final(out)@ == old(out)@ + line@.push('\n'),
{
    out.append(line.as_str());
    push_char(out, '\n');
    assert(final(out)@ =~= old(out)@ + line@.push('\n'));
}

impl TableTemplate {
    fn natural_width_of(&self, rows: &Vec<Vec<Cell>>, j: usize) -> (r: usize)
        requires
            j < self.columns.len(),
            well_formed_rows(rows@, self.columns.len() as int),
        ensures
            r as int == self.natural_width(rows@, j as int),
    {
        let mut w: usize = 0;
        let mut i: usize = 0;
        while i < rows.len()
            invariant
                i <= rows.len(),
                j < self.columns.len(),
                well_formed_rows(rows@, self.columns.len() as int),
                w as int == max_cell_width(rows@, j as int, i as int),
            decreases rows.len() - i,
        {
            assert(rows@[i as int].len() == self.columns.len());
            let cw = rows[i][j].width;
            if cw > w {
                w = cw;
            }
            i = i + 1;
        }
        let name_len = self.columns[j].inner.name.as_str().unicode_len();
        if w > name_len {
            w
        } else {
            name_len
        }
    }

    fn set_widths(&mut self, ws: &Vec<usize>)
        requires
            ws.len() == old(self).columns.len(),
        ensures
            final(self).same_columns(old(self)),
            final(self).widths() == as_ints(ws@),
    {
        let ghost orig = self.columns@;
        let n = self.columns.len();
        let mut out: Vec<ColumnData> = Vec::new();
        while self.columns.len() > 0
            invariant
                n == orig.len(),
                n == ws.len(),
                out.len() + self.columns.len() == n,
                self.columns@ == orig.subrange(out.len() as int, n as int),
                self.style == old(self).style,
                forall|j: int|
                    0 <= j < out.len() ==> {
                        &&& (#[trigger] out@[j]).inner == orig[j].inner
                        &&& out@[j].h_padding == orig[j].h_padding
                        &&& out@[j].width == ws@[j]
                    },
            decreases self.columns.len(),
        {
            let column = self.columns.remove(0);
            let width = ws[out.len()];
            out.push(ColumnData { inner: column.inner, h_padding: column.h_padding, width });
            assert(self.columns@ =~= orig.subrange(out.len() as int, n as int));
        }
        self.columns = out;
        assert(self.widths() =~= as_ints(ws@));
    }

    fn overhead_of(&self) -> (r: Option<usize>)
        ensures
            r is Some <==> self.overhead() <= usize::MAX,
            r matches Option::Some(v) ==> v == self.overhead(),
    {
        let n = self.columns.len();
        let ghost ps = self.paddings();
        assert forall|j: int| 0 <= j < ps.len() implies 0 <= #[trigger] ps[j] by {}
        let mut pads: u128 = 0;
        let mut i: usize = 0;
        while i < n
            invariant
                i <= n,
                n == self.columns.len(),
                ps == self.paddings(),
                forall|j: int| 0 <= j < ps.len() ==> 0 <= #[trigger] ps[j],
                pads as int == sum_to(ps, i as int),
                pads <= usize::MAX,
            decreases n - i,
        {
            pads = pads + self.columns[i].h_padding as u128;
            i = i + 1;
            if pads > usize::MAX as u128 {
                proof {
                    lemma_sum_mono(ps, i as int, n as int);
                }
                return None;
            }
        }
        let total: u128 = 2 * pads + n as u128 + 1;
        if total > usize::MAX as u128 {
            None
        } else {
            Some(total as usize)
        }
    }

    fn push_rule(&self, out: &mut String, box_drawing: bool, at: usize)
        requires
            at < 3,
        ensures
            final(out)@ == old(out)@ + rule_line(self.widths(), self.paddings(), box_drawing, at as int),
    {
        let ghost start = out@;
        let ghost pieces = rule_pieces(self.widths(), self.paddings(), horizontal(box_drawing));
        let h = horizontal_char(box_drawing);
        let sep = corner_char(box_drawing, 3 * at + 1);
        push_char(out, corner_char(box_drawing, 3 * at));
        let n = self.columns.len();
        let mut j: usize = 0;
        while j < n
            invariant
                j <= n,
                n == self.columns.len(),
                pieces == rule_pieces(self.widths(), self.paddings(), h),
                sep == corner(box_drawing, 3 * at + 1),
                out@ == start + seq![corner(box_drawing, 3 * at)] + joined(pieces.take(j as int), sep),
            decreases n - j,
        {
            let ghost before = out@;
            if j > 0 {
                push_char(out, sep);
            }
            let column = &self.columns[j];
            push_repeat(out, h, column.width);
            push_repeat(out, h, column.h_padding);
            push_repeat(out, h, column.h_padding);
            proof {
                lemma_joined_step(pieces, sep, j as int);
                let w = column.width as int;
                let p = column.h_padding as int;
                assert(repeat_char(h, w) + repeat_char(h, p) + repeat_char(h, p) =~= pieces[j as int]);
            }
            j = j + 1;
            assert(out@ =~= start + seq![corner(box_drawing, 3 * at)] + joined(pieces.take(j as int), sep));
        }
        assert(pieces.take(n as int) =~= pieces);
        push_char(out, corner_char(box_drawing, 3 * at + 2));
        assert(out@ =~= start + rule_line(self.widths(), self.paddings(), box_drawing, at as int));
    }

    fn push_header(&self, out: &mut String, box_drawing: bool)
        ensures
            final(out)@ == old(out)@ + header_line(self.widths(), self.paddings(), self.names(), box_drawing),
    {
        let ghost start = out@;
        let ghost pieces = header_pieces(self.widths(), self.paddings(), self.names());
        let v = vertical_char(box_drawing);
        push_char(out, v);
        let n = self.columns.len();
        let mut j: usize = 0;
        while j < n
            invariant
                j <= n,
                n == self.columns.len(),
                pieces == header_pieces(self.widths(), self.paddings(), self.names()),
                v == vertical(box_drawing),
                out@ == start + seq![v] + joined(pieces.take(j as int), v),
            decreases n - j,
        {
            if j > 0 {
                push_char(out, v);
            }
            let column = &self.columns[j];
            let ghost mid = out@;
            push_repeat(out, ' ', column.h_padding);
            push_fit_center(out, column.inner.name.as_str(), column.width);
            push_repeat(out, ' ', column.h_padding);
            proof {
                lemma_joined_step(pieces, v, j as int);
                assert(out@ =~= mid + pieces[j as int]);
            }
            j = j + 1;
            assert(out@ =~= start + seq![v] + joined(pieces.take(j as int), v));
        }
        assert(pieces.take(n as int) =~= pieces);
        push_char(out, v);
        assert(out@ =~= start + header_line(self.widths(), self.paddings(), self.names(), box_drawing));
    }

    fn push_row(&self, out: &mut String, row: &Vec<Cell>, box_drawing: bool)
        requires
            row.len() == self.columns.len(),
        ensures
            final(out)@ == old(out)@ + row_line(
                self.widths(),
                self.paddings(),
                Seq::new(row@.len(), |j: int| row@[j].text@),
                box_drawing,
            ),
    {
        let ghost start = out@;
        let ghost texts = Seq::new(row@.len(), |j: int| row@[j].text@);
        let ghost pieces = row_pieces(self.widths(), self.paddings(), texts);
        let v = vertical_char(box_drawing);
        push_char(out, v);
        let n = self.columns.len();
        let mut j: usize = 0;
        while j < n
            invariant
                j <= n,
                n == self.columns.len(),
                n == row.len(),
                texts == Seq::new(row@.len(), |j: int| row@[j].text@),
                pieces == row_pieces(self.widths(), self.paddings(), texts),
                v == vertical(box_drawing),
                out@ == start + seq![v] + joined(pieces.take(j as int), v),
            decreases n - j,
        {
            if j > 0 {
                push_char(out, v);
            }
            let column = &self.columns[j];
            let ghost mid = out@;
            push_repeat(out, ' ', column.h_padding);
            push_fit_left(out, row[j].text.as_str(), column.width);
            push_repeat(out, ' ', column.h_padding);
            proof {
                lemma_joined_step(pieces, v, j as int);
                assert(out@ =~= mid + pieces[j as int]);
            }
            j = j + 1;
            assert(out@ =~= start + seq![v] + joined(pieces.take(j as int), v));
        }
        assert(pieces.take(n as int) =~= pieces);
        push_char(out, v);
        assert(out@ =~= start + row_line(self.widths(), self.paddings(), texts, box_drawing));
    }

    fn push_plain_header(&self, out: &mut String)
        ensures
            final(out)@ == old(out)@ + plain_line(self.widths(), self.names()),
    {
        let ghost start = out@;
        let ghost pieces = plain_pieces(self.widths(), self.names());
        let n = self.columns.len();
        let mut j: usize = 0;
        while j < n
            invariant
                j <= n,
                n == self.columns.len(),
                pieces == plain_pieces(self.widths(), self.names()),
                out@ == start + concat_all(pieces.take(j as int)),
            decreases n - j,
        {
            let column = &self.columns[j];
            let ghost mid = out@;
            push_char(out, ' ');
            if j + 1 < n {
                push_fit_left(out, column.inner.name.as_str(), column.width);
            } else {
                push_pad_left(out, column.inner.name.as_str(), column.width);
            }
            proof {
                lemma_concat_step(pieces, j as int);
                assert(out@ =~= mid + pieces[j as int]);
            }
            j = j + 1;
            assert(out@ =~= start + concat_all(pieces.take(j as int)));
        }
        assert(pieces.take(n as int) =~= pieces);
    }

    fn push_plain_row(&self, out: &mut String, row: &Vec<Cell>)
        requires
            row.len() == self.columns.len(),
        ensures
            final(out)@ == old(out)@ + plain_line(
                self.widths(),
                Seq::new(row@.len(), |j: int| row@[j].text@),
            ),
    {
        let ghost start = out@;
        let ghost texts = Seq::new(row@.len(), |j: int| row@[j].text@);
        let ghost pieces = plain_pieces(self.widths(), texts);
        let n = self.columns.len();
        let mut j: usize = 0;
        while j < n
            invariant
                j <= n,
                n == self.columns.len(),
                n == row.len(),
                texts == Seq::new(row@.len(), |j: int| row@[j].text@),
                pieces == plain_pieces(self.widths(), texts),
                out@ == start + concat_all(pieces.take(j as int)),
            decreases n - j,
        {
            let column = &self.columns[j];
            let ghost mid = out@;
            push_char(out, ' ');
            if j + 1 < n {
                push_fit_left(out, row[j].text.as_str(), column.width);
            } else {
                push_pad_left(out, row[j].text.as_str(), column.width);
            }
            proof {
                lemma_concat_step(pieces, j as int);
                assert(out@ =~= mid + pieces[j as int]);
            }
            j = j + 1;
            assert(out@ =~= start + concat_all(pieces.take(j as int)));
        }
        assert(pieces.take(n as int) =~= pieces);
    }

    fn clamped_widths_of(&self, rows: &Vec<Vec<Cell>>) -> (r: Vec<usize>)
        requires
            well_formed_rows(rows@, self.columns.len() as int),
        ensures
            r@ == self.clamped_widths(rows@),
    {
        let n = self.columns.len();
        let mut r: Vec<usize> = Vec::new();
        let mut j: usize = 0;
        while j < n
            invariant
                j <= n,
                n == self.columns.len(),
                well_formed_rows(rows@, self.columns.len() as int),
                r@ == self.clamped_widths(rows@).take(j as int),
            decreases n - j,
        {
            let natural = self.natural_width_of(rows, j);
            let w = match self.columns[j].inner.max_width {
                Some(m) => if natural > m {
                    m
                } else {
                    natural
                },
                None => natural,
            };
            r.push(w);
            j = j + 1;
            assert(r@ =~= self.clamped_widths(rows@).take(j as int));
        }
        assert(r@ =~= self.clamped_widths(rows@));
        r
    }

    fn shrinkable_of(&self) -> (r: Vec<bool>)
        ensures
            r@ == self.shrinkable(),
    {
        let n = self.columns.len();
        let mut r: Vec<bool> = Vec::new();
        let mut j: usize = 0;
        while j < n
            invariant
                j <= n,
                n == self.columns.len(),
                r@ == self.shrinkable().take(j as int),
            decreases n - j,
        {
            r.push(self.columns[j].inner.can_shrink);
            j = j + 1;
            assert(r@ =~= self.shrinkable().take(j as int));
        }
        assert(r@ =~= self.shrinkable());
        r
    }

    fn format_plain(&mut self, rows: &Vec<Vec<Cell>>) -> (r: String)
        requires
            well_formed_rows(rows@, old(self).columns.len() as int),
        ensures
            final(self).same_columns(old(self)),
            final(self).widths() == old(self).plain_widths(rows@),
            r@ == lines_text(plain_lines(final(self).widths(), old(self).names(), row_texts(rows@))),
    {
        let n = self.columns.len();
        let mut ws: Vec<usize> = Vec::new();
        let mut j: usize = 0;
        while j < n
            invariant
                j <= n,
                n == self.columns.len(),
                well_formed_rows(rows@, self.columns.len() as int),
                ws.len() == j,
                forall|k: int| 0 <= k < j ==> ws@[k] as int == #[trigger] self.plain_widths(rows@)[k],
            decreases n - j,
        {
            let w = if j == n - 1 {
                self.columns[j].inner.name.as_str().unicode_len()
            } else {
                self.natural_width_of(rows, j)
            };
            ws.push(w);
            j = j + 1;
        }
        assert(as_ints(ws@) =~= self.plain_widths(rows@));
        self.set_widths(&ws);
        assert(self.names() =~= old(self).names());
        let ghost lines = plain_lines(self.widths(), self.names(), row_texts(rows@));
        let mut out = String::new();
        self.push_plain_header(&mut out);
        push_char(&mut out, '\n');
        proof {
            lemma_lines_step(lines, 0);
            assert(lines.take(0) =~= Seq::<Seq<char>>::empty());
        }
        let mut i: usize = 0;
        while i < rows.len()
            invariant
                i <= rows.len(),
                well_formed_rows(rows@, self.columns.len() as int),
                lines == plain_lines(self.widths(), self.names(), row_texts(rows@)),
                out@ == lines_text(lines.take(i + 1)),
            decreases rows.len() - i,
        {
            assert(rows@[i as int].len() == self.columns.len());
            self.push_plain_row(&mut out, &rows[i]);
            push_char(&mut out, '\n');
            proof {
                lemma_lines_step(lines, i + 1);
                assert(lines[i + 1] == plain_line(self.widths(), row_texts(rows@)[i as int]));
            }
            i = i + 1;
        }
        assert(lines.take(rows.len() + 1) =~= lines);
        out
    }

    fn format_bordered(&mut self, rows: &Vec<Vec<Cell>>, max_width: Option<usize>, box_drawing: bool) -> (r: String)
        requires
            well_formed_rows(rows@, old(self).columns.len() as int),
        ensures
            final(self).same_columns(old(self)),
            final(self).widths() == old(self).bordered_widths(rows@, max_width),
            r@ == lines_text(
                bordered_lines(
                    final(self).widths(),
                    old(self).paddings(),
                    old(self).names(),
                    row_texts(rows@),
                    box_drawing,
                ),
            ),
    {
        let clamped = self.clamped_widths_of(rows);
        let ws = match max_width {
            Some(t) => match self.overhead_of() {
                Some(overhead) => {
                    let flags = self.shrinkable_of();
                    let fw = fit_widths(&clamped, &flags, overhead, t);
                    assert(as_ints(fw@) =~= fitted(
                        clamped@,
                        flags@,
                        overhead as int,
                        t as int,
                    ));
                    fw
                },
                None => clamped,
            },
            None => clamped,
        };
        self.set_widths(&ws);
        assert(self.names() =~= old(self).names());
        assert(self.paddings() =~= old(self).paddings());
        let ghost lines = bordered_lines(
            self.widths(),
            self.paddings(),
            self.names(),
            row_texts(rows@),
            box_drawing,
        );
        let mut out = String::new();
        self.push_rule(&mut out, box_drawing, 0);
        push_char(&mut out, '\n');
        proof {
            lemma_lines_step(lines, 0);
            assert(lines.take(0) =~= Seq::<Seq<char>>::empty());
        }
        self.push_header(&mut out, box_drawing);
        push_char(&mut out, '\n');
        proof {
            lemma_lines_step(lines, 1);
        }
        self.push_rule(&mut out, box_drawing, 1);
        push_char(&mut out, '\n');
        proof {
            lemma_lines_step(lines, 2);
        }
        let mut i: usize = 0;
        while i < rows.len()
            invariant
                i <= rows.len(),
                well_formed_rows(rows@, self.columns.len() as int),
                lines == bordered_lines(
                    self.widths(),
                    self.paddings(),
                    self.names(),
                    row_texts(rows@),
                    box_drawing,
                ),
                out@ == lines_text(lines.take(i + 3)),
            decreases rows.len() - i,
        {
            assert(rows@[i as int].len() == self.columns.len());
            self.push_row(&mut out, &rows[i], box_drawing);
            push_char(&mut out, '\n');
            proof {
                lemma_lines_step(lines, i + 3);
                assert(lines[i + 3] == row_line(
                    self.widths(),
                    self.paddings(),
                    row_texts(rows@)[i as int],
                    box_drawing,
                ));
            }
            i = i + 1;
        }
        self.push_rule(&mut out, box_drawing, 2);
        push_char(&mut out, '\n');
        proof {
            lemma_lines_step(lines, rows.len() + 3);
            assert(lines.take(rows.len() + 4) =~= lines);
        }
        out
    }

    /// Renders the rows as a table in the template's style.
    ///
    /// Each row holds one cell per column. A bordered table takes each
    /// column's width from its header and its cells' estimated widths, holds
    /// it to the column's maximum, and, where `max_width` is given, fits the
    /// widths to it; every cell is then cut or filled to its column's width.
    /// A plain table ignores `max_width` and never cuts.
    pub fn format(&mut self, rows: &Vec<Vec<Cell>>, max_width: Option<usize>) -> (r: String)
        requires
            well_formed_rows(rows@, old(self).columns.len() as int),
        ensures
            final(self).same_columns(old(self)),
            old(self).style == Style::Plain ==> {
                &&& final(self).widths() == old(self).plain_widths(rows@)
                &&& r@ == lines_text(plain_lines(final(self).widths(), old(self).names(), row_texts(rows@)))
            },
            old(self).style != Style::Plain ==> {
                &&& final(self).widths() == old(self).bordered_widths(rows@, max_width)
                &&& r@ == lines_text(
                    bordered_lines(
                        final(self).widths(),
                        old(self).paddings(),
                        old(self).names(),
                        row_texts(rows@),
                        old(self).style == Style::BoxDrawing,
                    ),
                )
            },
    {
        match self.style {
            Style::BoxDrawing => self.format_bordered(rows, max_width, true),
            Style::Ascii => self.format_bordered(rows, max_width, false),
            Style::Plain => self.format_plain(rows),
        }
    }
}

proof fn lemma_joined_len(pieces: Seq<Seq<char>>, sep: char, ws: Seq<int>, ps: Seq<int>, i: int)
    requires
        1 <= i <= pieces.len(),
        ws.len() == pieces.len(),
        ps.len() == pieces.len(),
        forall|j: int| 0 <= j < pieces.len() ==> (#[trigger] pieces[j]).len() == ws[j] + 2 * ps[j],
    ensures
        joined(pieces.take(i), sep).len() == sum_to(ws, i) + 2 * sum_to(ps, i) + i - 1,
    decreases i,
{
    lemma_joined_step(pieces, sep, i - 1);
    assert(pieces[i - 1].len() == ws[i - 1] + 2 * ps[i - 1]);
    assert(sum_to(ws, i) == sum_to(ws, i - 1) + ws[i - 1]);
    assert(sum_to(ps, i) == sum_to(ps, i - 1) + ps[i - 1]);
    if i > 1 {
        lemma_joined_len(pieces, sep, ws, ps, i - 1);
    } else {
        assert(sum_to(ws, 0) == 0);
        assert(sum_to(ps, 0) == 0);
    }
}

/// Every line of a bordered table, rules, header and rows alike, is as wide
/// as its columns' widths plus padding on both sides of each and one
/// separator before, between and after them.
pub proof fn lemma_bordered_line_width(
    ws: Seq<int>,
    ps: Seq<int>,
    names: Seq<Seq<char>>,
    rows: Seq<Seq<Seq<char>>>,
    box_drawing: bool,
    k: int,
)
    requires
        ws.len() >= 1,
        ps.len() == ws.len(),
        names.len() == ws.len(),
        forall|i: int| 0 <= i < rows.len() ==> (#[trigger] rows[i]).len() == ws.len(),
        forall|j: int| 0 <= j < ws.len() ==> 0 <= #[trigger] ws[j],
        forall|j: int| 0 <= j < ps.len() ==> 0 <= #[trigger] ps[j],
        0 <= k < rows.len() + 4,
    ensures
        bordered_lines(ws, ps, names, rows, box_drawing)[k].len() == sum_to(ws, ws.len() as int) + 2 * sum_to(
            ps,
            ps.len() as int,
        ) + ws.len() + 1,
{
    let n = ws.len() as int;
    let lines = bordered_lines(ws, ps, names, rows, box_drawing);
    let pieces = if k == 0 || k == 2 || k == rows.len() + 3 {
        rule_pieces(ws, ps, horizontal(box_drawing))
    } else if k == 1 {
        header_pieces(ws, ps, names)
    } else {
        row_pieces(ws, ps, rows[k - 3])
    };
    assert forall|j: int| 0 <= j < n implies (#[trigger] pieces[j]).len() == ws[j] + 2 * ps[j] by {
        crate::text::lemma_truncated_len(names[j], ws[j]);
        if 3 <= k < rows.len() + 3 {
            crate::text::lemma_truncated_len(rows[k - 3][j], ws[j]);
        }
    }
    lemma_joined_len(pieces, horizontal(box_drawing), ws, ps, n);
    lemma_joined_len(pieces, vertical(box_drawing), ws, ps, n);
    assert(pieces.take(n) =~= pieces);
    if k == 0 || k == 2 || k == rows.len() + 3 {
        assert(lines[k] == framed(
            corner(box_drawing, 3 * (if k == 0 { 0int } else if k == 2 { 1 } else { 2 })),
            pieces,
            corner(box_drawing, 3 * (if k == 0 { 0int } else if k == 2 { 1 } else { 2 }) + 1),
            corner(box_drawing, 3 * (if k == 0 { 0int } else if k == 2 { 1 } else { 2 }) + 2),
        ));
        lemma_joined_len(pieces, corner(box_drawing, 3 * (if k == 0 { 0int } else if k == 2 { 1 } else { 2 }) + 1), ws, ps, n);
    }
}

impl TableTemplate {
    /// Rendering in a bordered style with a target width makes every line
    /// exactly as wide as the target, whenever the target is no wider than
    /// the table would be without it and leaves room for the columns that
    /// cannot shrink, with their padding and separators.
    pub proof fn lemma_render_meets_target(&self, rows: Seq<Vec<Cell>>, target: usize, box_drawing: bool, k: int)
        requires
            self.columns.len() >= 1,
            well_formed_rows(rows, self.columns.len() as int),
            self.overhead() <= usize::MAX,
            fixed_width(self.clamped_widths(rows), self.shrinkable(), self.overhead()) <= target,
            target <= total_width(self.clamped_widths(rows), self.overhead()),
            4 * total_width(self.clamped_widths(rows), self.overhead()) <= usize::MAX,
            0 <= k < rows.len() + 4,
        ensures
            bordered_lines(
                self.bordered_widths(rows, Option::Some(target)),
                self.paddings(),
                self.names(),
                row_texts(rows),
                box_drawing,
            )[k].len() == target,
    {
        let n = self.columns.len() as int;
        let cw = self.clamped_widths(rows);
        let ws = self.bordered_widths(rows, Option::Some(target));
        let ps = self.paddings();
        assert forall|j: int| 0 <= j < n implies 0 <= #[trigger] ps[j] by {}
        lemma_sum_mono(ps, 0, n);
        assert forall|j: int| 0 <= j < n implies 0 <= #[trigger] ws[j] by {
            lemma_fitted_nonneg(cw, self.shrinkable(), self.overhead(), target as int, j);
        }
        assert forall|j: int| 0 <= j < n implies 0 <= #[trigger] ps[j] by {}
        assert forall|i: int| 0 <= i < rows.len() implies (#[trigger] row_texts(rows)[i]).len() == n by {
            assert(rows[i].len() == n);
        }
        lemma_bordered_line_width(ws, ps, self.names(), row_texts(rows), box_drawing, k);
        lemma_fit_meets_target(cw, self.shrinkable(), self.overhead(), target as int);
    }
}

/// Total length of the first `j` pieces.
pub open spec fn len_sum(pieces: Seq<Seq<char>>, j: int) -> int
    decreases j,
{
    if j <= 0 {
        0
    } else {
        len_sum(pieces, j - 1) + pieces[j - 1].len()
    }
}

proof fn lemma_len_sum_mono(pieces: Seq<Seq<char>>, a: int, b: int)
    requires
        0 <= a <= b <= pieces.len(),
    ensures
        0 <= len_sum(pieces, a) <= len_sum(pieces, b),
    decreases b,
{
    if a < b {
        lemma_len_sum_mono(pieces, a, b - 1);
    } else if a > 0 {
        lemma_len_sum_mono(pieces, 0, a - 1);
    }
}

proof fn lemma_joined_piece(pieces: Seq<Seq<char>>, sep: char, m: int, j: int)
    requires
        0 <= j < m <= pieces.len(),
    ensures
        joined(pieces.take(m), sep).len() == len_sum(pieces, m) + m - 1,
        len_sum(pieces, j) + j + pieces[j].len() <= joined(pieces.take(m), sep).len(),
        joined(pieces.take(m), sep).subrange(len_sum(pieces, j) + j, len_sum(pieces, j) + j + pieces[j].len())
            == pieces[j],
    decreases m,
{
    lemma_joined_step(pieces, sep, m - 1);
    lemma_len_sum_mono(pieces, j + 1, m);
    lemma_len_sum_mono(pieces, m - 1, m);
    if m == 1 {
        assert(pieces[0].subrange(0, pieces[0].len() as int) =~= pieces[0]);
    } else {
        let prev = joined(pieces.take(m - 1), sep);
        if j < m - 1 {
            lemma_joined_piece(pieces, sep, m - 1, j);
            lemma_len_sum_mono(pieces, 0, j);
            assert(len_sum(pieces, j) + j + pieces[j].len() <= prev.len());
            assert(0 <= len_sum(pieces, j) + j);
            assert(prev.push(sep) + pieces[m - 1] =~= prev + (seq![sep] + pieces[m - 1]));
            assert((prev + (seq![sep] + pieces[m - 1])).subrange(
                len_sum(pieces, j) + j,
                len_sum(pieces, j) + j + pieces[j].len(),
            ) =~= prev.subrange(len_sum(pieces, j) + j, len_sum(pieces, j) + j + pieces[j].len()));
        } else {
            lemma_joined_piece(pieces, sep, m - 1, 0);
            assert((prev.push(sep) + pieces[m - 1]).subrange(prev.len() + 1int, prev.len() + 1int + pieces[m - 1].len())
                =~= pieces[m - 1]);
        }
    }
}

proof fn lemma_concat_piece(pieces: Seq<Seq<char>>, m: int, j: int)
    requires
        0 <= j < m <= pieces.len(),
    ensures
        concat_all(pieces.take(m)).len() == len_sum(pieces, m),
        len_sum(pieces, j) + pieces[j].len() <= concat_all(pieces.take(m)).len(),
        concat_all(pieces.take(m)).subrange(len_sum(pieces, j), len_sum(pieces, j) + pieces[j].len()) == pieces[j],
    decreases m,
{
    lemma_concat_step(pieces, m - 1);
    lemma_len_sum_mono(pieces, j + 1, m);
    lemma_len_sum_mono(pieces, m - 1, m);
    let prev = concat_all(pieces.take(m - 1));
    if m == 1 {
        assert(pieces.take(0) =~= Seq::<Seq<char>>::empty());
        assert((prev + pieces[0]).subrange(0, pieces[0].len() as int) =~= pieces[0]);
    } else if j < m - 1 {
        lemma_concat_piece(pieces, m - 1, j);
        lemma_len_sum_mono(pieces, 0, j);
        assert(len_sum(pieces, j) + pieces[j].len() <= prev.len());
        assert((prev + pieces[m - 1]).subrange(len_sum(pieces, j), len_sum(pieces, j) + pieces[j].len())
            =~= prev.subrange(len_sum(pieces, j), len_sum(pieces, j) + pieces[j].len()));
    } else {
        lemma_concat_piece(pieces, m - 1, 0);
        assert((prev + pieces[m - 1]).subrange(prev.len() as int, prev.len() as int + pieces[m - 1].len())
            =~= pieces[m - 1]);
    }
}


/// Where the text of cell `j` begins in a bordered row, past the border,
/// the cells before it and its own padding.
pub open spec fn bordered_cell_start(ws: Seq<int>, ps: Seq<int>, row: Seq<Seq<char>>, j: int) -> int {
    1 + len_sum(row_pieces(ws, ps, row), j) + j + ps[j]
}

/// Where the text of cell `j` begins in a plain row, past the cells before
/// it and its separating space.
pub open spec fn plain_cell_start(ws: Seq<int>, row: Seq<Seq<char>>, j: int) -> int {
    len_sum(plain_pieces(ws, row), j) + 1
}

/// Reading cell `j` back out of a bordered row, from its start for its
/// column's width, gives the cell's text cut and filled to that width.
pub proof fn lemma_bordered_cell(ws: Seq<int>, ps: Seq<int>, row: Seq<Seq<char>>, box_drawing: bool, j: int)
    requires
        ps.len() == ws.len(),
        row.len() == ws.len(),
        0 <= j < ws.len(),
        forall|k: int| 0 <= k < ws.len() ==> 0 <= #[trigger] ws[k],
        forall|k: int| 0 <= k < ps.len() ==> 0 <= #[trigger] ps[k],
    ensures
        ({
            let b = bordered_cell_start(ws, ps, row, j);
            row_line(ws, ps, row, box_drawing).subrange(b, b + ws[j]) == fit_left(row[j], ws[j])
        }),
{
    let n = ws.len() as int;
    let bp = row_pieces(ws, ps, row);
    let v = vertical(box_drawing);
    lemma_joined_piece(bp, v, n, j);
    assert(bp.take(n) =~= bp);
    crate::text::lemma_truncated_len(row[j], ws[j]);
    let cell = fit_left(row[j], ws[j]);
    let jb = joined(bp, v);
    let b0 = len_sum(bp, j) + j;
    let line = seq![v] + jb + seq![v];
    assert(bp[j] == spaces(ps[j]) + cell + spaces(ps[j]));
    assert(jb.subrange(b0, b0 + bp[j].len()) == bp[j]);
    assert(bp[j].len() == 2 * ps[j] + ws[j]);
    lemma_len_sum_mono(bp, 0, j);
    assert(0 <= b0 && b0 + bp[j].len() <= jb.len());
    assert forall|i: int| #![trigger line[1 + b0 + ps[j] + i]] 0 <= i < ws[j] implies line[1 + b0 + ps[j] + i]
        == bp[j][ps[j] + i] by {
        assert(jb.subrange(b0, b0 + bp[j].len())[ps[j] + i] == jb[b0 + ps[j] + i]);
    }
    assert(line.subrange(1 + b0 + ps[j], 1 + b0 + ps[j] + ws[j]) =~= bp[j].subrange(ps[j], ps[j] + ws[j]));
    assert(bp[j].subrange(ps[j], ps[j] + ws[j]) =~= cell);
}

/// Reading cell `j` back out of a plain row, from its start for as long as
/// the cell runs, gives the cell's text cut and filled to its width, or,
/// in the last column, filled only.
pub proof fn lemma_plain_cell(ws: Seq<int>, row: Seq<Seq<char>>, j: int)
    requires
        row.len() == ws.len(),
        0 <= j < ws.len(),
        forall|k: int| 0 <= k < ws.len() ==> 0 <= #[trigger] ws[k],
    ensures
        ({
            let p = plain_cell_start(ws, row, j);
            let c = plain_cell(ws, row, j);
            plain_line(ws, row).subrange(p, p + c.len()) == c
        }),
{
    let n = ws.len() as int;
    let pp = plain_pieces(ws, row);
    lemma_concat_piece(pp, n, j);
    assert(pp.take(n) =~= pp);
    let cell = plain_cell(ws, row, j);
    let cp = concat_all(pp);
    let p0 = len_sum(pp, j);
    assert(pp[j] == seq![' '] + cell);
    assert(cp.subrange(p0, p0 + pp[j].len()) == pp[j]);
    lemma_len_sum_mono(pp, 0, j);
    assert(0 <= p0 && p0 + pp[j].len() <= cp.len());
    assert forall|i: int| #![trigger cp[p0 + 1 + i]] 0 <= i < cell.len() implies cp[p0 + 1 + i] == cell[i] by {
        assert(cp.subrange(p0, p0 + pp[j].len())[1 + i] == cp[p0 + 1 + i]);
        assert((seq![' '] + cell)[1 + i] == cell[i]);
    }
    assert(pp[j].len() == 1 + cell.len());
    let region = cp.subrange(p0 + 1, p0 + 1 + cell.len());
    assert forall|i: int| 0 <= i < cell.len() implies #[trigger] region[i] == cell[i] by {
        assert(region[i] == cp[p0 + 1 + i]);
    }
    assert(region =~= cell);
}

/// Stripping the borders, padding and separators from a bordered row and
/// from a plain row of the same cells gives each cell's text cut in the
/// same way: a column other than the last one that is equally wide in both
/// styles shows the same characters in both; and a text that fits both
/// widths shows whole in both, followed only by spaces.
pub proof fn lemma_bordered_cell_matches_plain(
    bordered_ws: Seq<int>,
    ps: Seq<int>,
    plain_ws: Seq<int>,
    row: Seq<Seq<char>>,
    box_drawing: bool,
    j: int,
)
    requires
        ps.len() == bordered_ws.len(),
        plain_ws.len() == bordered_ws.len(),
        row.len() == bordered_ws.len(),
        0 <= j < bordered_ws.len(),
        forall|k: int| 0 <= k < bordered_ws.len() ==> 0 <= #[trigger] bordered_ws[k],
        forall|k: int| 0 <= k < plain_ws.len() ==> 0 <= #[trigger] plain_ws[k],
        forall|k: int| 0 <= k < ps.len() ==> 0 <= #[trigger] ps[k],
    ensures
        ({
            let b = bordered_cell_start(bordered_ws, ps, row, j);
            let bcell = row_line(bordered_ws, ps, row, box_drawing).subrange(b, b + bordered_ws[j]);
            let p = plain_cell_start(plain_ws, row, j);
            let pcell = plain_line(plain_ws, row).subrange(p, p + plain_cell(plain_ws, row, j).len());
            &&& j < bordered_ws.len() - 1 && bordered_ws[j] == plain_ws[j] ==> bcell == pcell
            &&& row[j].len() <= bordered_ws[j] && row[j].len() <= plain_ws[j] ==> {
                &&& bcell == row[j] + spaces(bordered_ws[j] - row[j].len())
                &&& pcell == row[j] + spaces(plain_ws[j] - row[j].len())
            }
        }),
{
    lemma_bordered_cell(bordered_ws, ps, row, box_drawing, j);
    lemma_plain_cell(plain_ws, row, j);
    crate::text::lemma_truncated_len(row[j], bordered_ws[j]);
    crate::text::lemma_truncated_len(row[j], plain_ws[j]);
}

} // verus!
