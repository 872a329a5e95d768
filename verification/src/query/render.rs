//! The text of a query result: a message as it is, rows as a framed table.

use vstd::prelude::*;
use vstd::string::*;
use vstd::utf8::encode_utf8;
use super::executor::{names_view, QueryResult};
use crate::storage::table::rows_view;
use crate::storage::text::{decimal, push_decimal};
use crate::storage::{rendered, Row, ValueView};

verus! {

/// `piece` written `count` times.
pub open spec fn repeated(piece: Seq<char>, count: nat) -> Seq<char>
    decreases count,
{
    if count == 0 {
        Seq::empty()
    } else {
        repeated(piece, (count - 1) as nat) + piece
    }
}

/// The width that a text asks of its column: the length of its UTF-8 bytes.
pub open spec fn text_width(text: Seq<char>) -> nat {
    encode_utf8(text).len()
}

/// The larger of two widths.
pub open spec fn wider(a: nat, b: nat) -> nat {
    if a >= b {
        a
    } else {
        b
    }
}

/// The width of column `i` after the first `upto` rows: the widest of the
/// column's name and the values shown in it.
pub open spec fn column_width(name: Seq<char>, rows: Seq<Seq<ValueView>>, i: int, upto: int) -> nat
    decreases upto,
{
    if upto <= 0 {
        text_width(name)
    } else {
        let before = column_width(name, rows, i, upto - 1);
        if 0 <= i < rows[upto - 1].len() {
            wider(before, text_width(rendered(rows[upto - 1][i])))
        } else {
            before
        }
    }
}

/// The widths of all columns.
pub open spec fn column_widths(names: Seq<Seq<char>>, rows: Seq<Seq<ValueView>>) -> Seq<nat> {
    Seq::new(names.len(), |i: int| column_width(names[i], rows, i, rows.len() as int))
}

/// A cell: a space, the text, spaces up to `width` characters, a space.
pub open spec fn padded(text: Seq<char>, width: nat) -> Seq<char> {
    " "@ + text + repeated(
        " "@,
        if width > text.len() {
            (width - text.len()) as nat
        } else {
            0
        },
    ) + " "@
}

/// The first `upto` segments of a horizontal rule, with `joint` between
/// two segments.
pub open spec fn rule_cells(widths: Seq<nat>, joint: Seq<char>, upto: int) -> Seq<char>
    decreases upto,
{
    if upto <= 0 {
        Seq::empty()
    } else {
        rule_cells(widths, joint, upto - 1) + repeated("─"@, widths[upto - 1] + 2) + if upto
            < widths.len() {
            joint
        } else {
            Seq::empty()
        }
    }
}

/// A horizontal rule from `left` to `right`.
pub open spec fn rule(left: Seq<char>, joint: Seq<char>, right: Seq<char>, widths: Seq<nat>) -> Seq<
    char,
> {
    left + rule_cells(widths, joint, widths.len() as int) + right + "\n"@
}

/// The first `upto` cells of a line of texts.
pub open spec fn line_cells(texts: Seq<Seq<char>>, widths: Seq<nat>, upto: int) -> Seq<char>
    decreases upto,
{
    if upto <= 0 {
        Seq::empty()
    } else {
        line_cells(texts, widths, upto - 1) + padded(texts[upto - 1], widths[upto - 1]) + "│"@
    }
}

/// A line of texts, one cell for each text that has a column.
pub open spec fn line(texts: Seq<Seq<char>>, widths: Seq<nat>) -> Seq<char> {
    "│"@ + line_cells(
        texts,
        widths,
        if texts.len() <= widths.len() {
            texts.len() as int
        } else {
            widths.len() as int
        },
    ) + "\n"@
}

/// The values of a row as they are shown.
pub open spec fn rendered_row(row: Seq<ValueView>) -> Seq<Seq<char>> {
    row.map_values(|v: ValueView| rendered(v))
}

/// The lines of the first `upto` rows.
pub open spec fn row_lines(rows: Seq<Seq<ValueView>>, widths: Seq<nat>, upto: int) -> Seq<char>
    decreases upto,
{
    if upto <= 0 {
        Seq::empty()
    } else {
        row_lines(rows, widths, upto - 1) + line(rendered_row(rows[upto - 1]), widths)
    }
}

/// The framed table of the rows under the names of their columns, and the
/// number of rows below it.
pub open spec fn table_text(names: Seq<Seq<char>>, rows: Seq<Seq<ValueView>>) -> Seq<char> {
    let widths = column_widths(names, rows);
    rule("┌"@, "┬"@, "┐"@, widths) + line(names, widths) + rule("├"@, "┼"@, "┤"@, widths)
        + row_lines(rows, widths, rows.len() as int) + rule("└"@, "┴"@, "┘"@, widths) + "\n"@
        + decimal(rows.len()) + " row(s) returned"@
}

/// The text of a result.
pub open spec fn result_text(result: super::executor::QueryResultView) -> Seq<char> {
    match result {
        super::executor::QueryResultView::Message(text) => text,
        super::executor::QueryResultView::Rows { rows, column_names } => if rows.len() == 0 {
            "No rows found"@
        } else {
            table_text(column_names, rows)
        },
    }
}

/// The widths as natural numbers.
pub open spec fn widths_view(widths: Seq<usize>) -> Seq<nat> {
    widths.map_values(|w: usize| w as nat)
}

/// Appends `piece` to `out`, `count` times.
fn push_repeated(out: &mut String, piece: &str, count: usize)
    ensures
        final(out)@ == old(out)@ + repeated(piece@, count as nat),
{
    let mut i: usize = 0;
    assert(out@ =~= old(out)@ + repeated(piece@, 0));
    while i < count
        invariant
            i <= count,
            out@ == old(out)@ + repeated(piece@, i as nat),
        decreases count - i,
    {
        out.append(piece);
        i += 1;
        assert(out@ =~= old(out)@ + repeated(piece@, i as nat));
    }
}

/// Appends a cell with `text` to `out`.
fn push_padded(out: &mut String, text: &str, width: usize)
    ensures
        final(out)@ == old(out)@ + padded(text@, width as nat),
{
    out.append(" ");
    out.append(text);
    let shown = text.unicode_len();
    if width > shown {
        push_repeated(out, " ", width - shown);
    } else {
        assert(repeated(" "@, 0) =~= Seq::<char>::empty());
    }
    out.append(" ");
    assert(out@ =~= old(out)@ + padded(text@, width as nat));
}

/// Appends a horizontal rule to `out`.
fn push_rule(out: &mut String, left: &str, joint: &str, right: &str, widths: &Vec<usize>)
    ensures
        final(out)@ == old(out)@ + rule(left@, joint@, right@, widths_view(widths@)),
{
    let ghost w = widths_view(widths@);
    out.append(left);
    let ghost start = out@;
    let mut i: usize = 0;
    assert(out@ =~= start + rule_cells(w, joint@, 0));
    while i < widths.len()
        invariant
            i <= widths@.len(),
            w == widths_view(widths@),
            out@ == start + rule_cells(w, joint@, i as int),
        decreases widths.len() - i,
    {
        let ghost before = out@;
        push_repeated(out, "─", widths[i]);
        out.append("─");
        out.append("─");
        proof {
            let dash = "─"@;
            let n = widths@[i as int] as nat;
            assert(repeated(dash, n + 2) =~= repeated(dash, n) + dash + dash) by {
                assert(repeated(dash, n + 2) == repeated(dash, n + 1) + dash);
                assert(repeated(dash, n + 1) == repeated(dash, n) + dash);
            }
            assert(out@ =~= before + repeated(dash, w[i as int] + 2));
        }
        if i < widths.len() - 1 {
            out.append(joint);
        }
        i += 1;
        assert(out@ =~= start + rule_cells(w, joint@, i as int));
    }
    out.append(right);
    out.append("\n");
    assert(out@ =~= old(out)@ + rule(left@, joint@, right@, w));
}

/// Appends the line of the column names to `out`.
fn push_name_line(out: &mut String, names: &Vec<String>, widths: &Vec<usize>)
    ensures
        final(out)@ == old(out)@ + line(names_view(names@), widths_view(widths@)),
{
    let ghost w = widths_view(widths@);
    let ghost texts = names_view(names@);
    let count = if names.len() <= widths.len() {
        names.len()
    } else {
        widths.len()
    };
    out.append("│");
    let ghost start = out@;
    let mut i: usize = 0;
    assert(out@ =~= start + line_cells(texts, w, 0));
    while i < count
        invariant
            i <= count,
            count <= names@.len(),
            count <= widths@.len(),
            w == widths_view(widths@),
            texts == names_view(names@),
            out@ == start + line_cells(texts, w, i as int),
        decreases count - i,
    {
        push_padded(out, names[i].as_str(), widths[i]);
        out.append("│");
        i += 1;
        assert(out@ =~= start + line_cells(texts, w, i as int));
    }
    out.append("\n");
    assert(out@ =~= old(out)@ + line(texts, w));
}

/// Appends the line of a row to `out`.
fn push_row_line(out: &mut String, row: &Row, widths: &Vec<usize>)
    ensures
        final(out)@ == old(out)@ + line(rendered_row(row@), widths_view(widths@)),
{
    let ghost w = widths_view(widths@);
    let ghost texts = rendered_row(row@);
    let count = if row.values.len() <= widths.len() {
        row.values.len()
    } else {
        widths.len()
    };
    out.append("│");
    let ghost start = out@;
    let mut i: usize = 0;
    assert(out@ =~= start + line_cells(texts, w, 0));
    while i < count
        invariant
            i <= count,
            count <= row.values@.len(),
            count <= widths@.len(),
            w == widths_view(widths@),
            texts == rendered_row(row@),
            out@ == start + line_cells(texts, w, i as int),
        decreases count - i,
    {
        let shown = row.values[i].to_string();
        push_padded(out, shown.as_str(), widths[i]);
        out.append("│");
        i += 1;
        assert(out@ =~= start + line_cells(texts, w, i as int));
    }
    out.append("\n");
    assert(out@ =~= old(out)@ + line(texts, w));
}

/// The widths of the columns: each as wide as the widest of its name and
/// the values shown in it.
fn measure(names: &Vec<String>, rows: &Vec<Row>) -> (res: Vec<usize>)
    requires
        forall|r: int| 0 <= r < rows@.len() ==> (#[trigger] rows@[r])@.len() <= names@.len(),
    ensures
        widths_view(res@) == column_widths(names_view(names@), rows_view(rows@)),
{
    let ghost names_v = names_view(names@);
    let ghost rows_v = rows_view(rows@);
    let mut widths: Vec<usize> = Vec::new();
    let mut i: usize = 0;
    while i < names.len()
        invariant
            i <= names@.len(),
            names_v == names_view(names@),
            widths@.len() == i,
            forall|j: int|
                0 <= j < i ==> (#[trigger] widths@[j]) as nat == column_width(
                    names_v[j],
                    rows_v,
                    j,
                    0,
                ),
        decreases names.len() - i,
    {
        widths.push(names[i].as_str().as_bytes().len());
        i += 1;
    }
    let mut r: usize = 0;
    while r < rows.len()
        invariant
            r <= rows@.len(),
            names_v == names_view(names@),
            rows_v == rows_view(rows@),
            widths@.len() == names@.len(),
            forall|k: int| 0 <= k < rows@.len() ==> (#[trigger] rows@[k])@.len() <= names@.len(),
            forall|j: int|
                0 <= j < widths@.len() ==> (#[trigger] widths@[j]) as nat == column_width(
                    names_v[j],
                    rows_v,
                    j,
                    r as int,
                ),
        decreases rows.len() - r,
    {
        let row = &rows[r];
        assert(rows_v[r as int] == row@);
        let mut c: usize = 0;
        while c < row.values.len()
            invariant
                c <= row.values@.len(),
                r < rows@.len(),
                names_v == names_view(names@),
                rows_v == rows_view(rows@),
                row@.len() <= names@.len(),
                rows_v[r as int] == row@,
                widths@.len() == names@.len(),
                forall|j: int|
                    0 <= j < c ==> (#[trigger] widths@[j]) as nat == column_width(
                        names_v[j],
                        rows_v,
                        j,
                        r + 1,
                    ),
                forall|j: int|
                    c <= j < widths@.len() ==> (#[trigger] widths@[j]) as nat == column_width(
                        names_v[j],
                        rows_v,
                        j,
                        r as int,
                    ),
            decreases row.values.len() - c,
        {
            let shown = row.values[c].to_string();
            let len = shown.as_str().as_bytes().len();
            assert(len as nat == text_width(rendered(rows_v[r as int][c as int])));
            if len > widths[c] {
                widths[c] = len;
            }
            c += 1;
        }
        assert forall|j: int| 0 <= j < widths@.len() implies (#[trigger] widths@[j]) as nat
            == column_width(names_v[j], rows_v, j, r + 1) by {
            if j >= row.values@.len() {
                assert(column_width(names_v[j], rows_v, j, r + 1) == column_width(
                    names_v[j],
                    rows_v,
                    j,
                    r as int,
                ));
            }
        }
        r += 1;
    }
    assert(widths_view(widths@) =~= column_widths(names_v, rows_v));
    widths
}

impl QueryResult {
    /// The result as text: a message as it is; rows as a framed table under
    /// the names of their columns, followed by their number; `No rows
    /// found` where there are none. No row may have more values than there
    /// are column names.
    pub fn format(&self) -> (res: String)
        requires
            self matches QueryResult::Rows { rows, column_names } ==> forall|r: int|
                0 <= r < rows@.len() ==> (#[trigger] rows@[r])@.len() <= column_names@.len(),
        ensures
            res@ == result_text(self@),
    {
        match self {
            QueryResult::Message(text) => text.clone(),
            QueryResult::Rows { rows, column_names } => {
                if rows.len() == 0 {
                    return String::from_str("No rows found");
                }
                let widths = measure(column_names, rows);
                let ghost w = widths_view(widths@);
                let ghost rows_v = rows_view(rows@);
                let mut out = String::new();
                push_rule(&mut out, "┌", "┬", "┐", &widths);
                push_name_line(&mut out, column_names, &widths);
                push_rule(&mut out, "├", "┼", "┤", &widths);
                let ghost head = out@;
                let mut r: usize = 0;
                assert(out@ =~= head + row_lines(rows_v, w, 0));
                while r < rows.len()
                    invariant
                        r <= rows@.len(),
                        w == widths_view(widths@),
                        rows_v == rows_view(rows@),
                        out@ == head + row_lines(rows_v, w, r as int),
                    decreases rows.len() - r,
                {
                    push_row_line(&mut out, &rows[r], &widths);
                    r += 1;
                    assert(out@ =~= head + row_lines(rows_v, w, r as int));
                }
                push_rule(&mut out, "└", "┴", "┘", &widths);
                out.append("\n");
                push_decimal(&mut out, rows.len() as u64);
                out.append(" row(s) returned");
                assert(out@ =~= table_text(names_view(column_names@), rows_v));
                out
            },
        }
    }
}

} // verus!
