use vstd::prelude::*;
use vstd::utf8::encode_scalar;
use vstd::utf8::encode_utf8;

use crate::text::{
    append_center, append_pad_end, append_pad_start, append_repeat, append_spaces, append_str,
    byte_len, center, join, lemma_byte_len_bounds, lemma_join_step, lemma_byte_len_concat, pad_end, pad_start,
    push_char, repeat_char, spaces,
};

verus! {

/// Number of columns of a results table.
pub const NCOLS: usize = 7;

/// The column headings of a results table.
pub open spec fn header_of(j: int) -> Seq<char> {
    if j == 0 {
        "Benchmark"@
    } else if j == 1 {
        "avg (ms)"@
    } else if j == 2 {
        "σ (ms)"@
    } else if j == 3 {
        "p50 (ms)"@
    } else if j == 4 {
        "p90 (ms)"@
    } else if j == 5 {
        "p99 (ms)"@
    } else {
        "CV"@
    }
}

/// The cells of the rows, as character sequences.
pub open spec fn cells_of(rows: Seq<Vec<String>>) -> Seq<Seq<Seq<char>>> {
    rows.map_values(|r: Vec<String>| r@.map_values(|c: String| c@))
}

/// Width of column `j` over the first `n` rows: two more than the longest
/// UTF-8 byte length among the heading and the cells of that column.
pub open spec fn column_width(rows: Seq<Seq<Seq<char>>>, j: int, n: int) -> int
    decreases n,
{
    if n <= 0 {
        byte_len(header_of(j)) + 2int
    } else {
        let prev = column_width(rows, j, n - 1);
        let row = rows[n - 1];
        if j < row.len() && byte_len(row[j]) + 2 > prev {
            byte_len(row[j]) + 2int
        } else {
            prev
        }
    }
}

/// The widths of all columns.
pub open spec fn table_widths(rows: Seq<Seq<Seq<char>>>) -> Seq<int> {
    Seq::new(NCOLS as nat, |j: int| column_width(rows, j, rows.len() as int))
}

/// Width inside the outer frame: all columns and the six inner column separators.
pub open spec fn content_width(ws: Seq<int>) -> int {
    ws[0] + ws[1] + ws[2] + ws[3] + ws[4] + ws[5] + ws[6] + 6
}

/// A horizontal rule: the left corner, a run of `─` per column joined by `mid`, the right corner.
pub open spec fn rule(left: char, mid: char, right: char, ws: Seq<int>) -> Seq<char> {
    seq![left] + join(Seq::new(ws.len(), |j: int| repeat_char('─', ws[j] as nat)), seq![mid])
        + seq![right]
}

/// The title line: the title with one space on each side, centred by UTF-8 byte length.
pub open spec fn title_line(title: Seq<char>, cw: int) -> Seq<char> {
    let inner = seq![' '] + title + seq![' '];
    let pad = if cw > byte_len(inner) {
        cw - byte_len(inner)
    } else {
        0
    };
    seq!['│'] + spaces(pad / 2) + inner + spaces(pad - pad / 2) + seq!['│']
}

/// The heading line: each heading centred in its column.
pub open spec fn header_line(ws: Seq<int>) -> Seq<char> {
    seq!['│'] + join(Seq::new(NCOLS as nat, |j: int| center(header_of(j), ws[j])), seq!['│'])
        + seq!['│']
}

/// One cell: the first column left-aligned, the others right-aligned, with a space on each side.
pub open spec fn cell_text(cell: Seq<char>, col: int, w: int) -> Seq<char> {
    if col == 0 {
        seq![' '] + pad_end(cell, w - 2) + seq![' ']
    } else {
        seq![' '] + pad_start(cell, w - 2) + seq![' ']
    }
}

/// Number of cells of a row that are shown: at most one per column.
pub open spec fn shown_cells(row: Seq<Seq<char>>) -> int {
    if row.len() < NCOLS {
        row.len() as int
    } else {
        NCOLS as int
    }
}

/// A data line.
pub open spec fn row_line(row: Seq<Seq<char>>, ws: Seq<int>) -> Seq<char> {
    seq!['│'] + join(
        Seq::new(shown_cells(row) as nat, |j: int| cell_text(row[j], j, ws[j])),
        seq!['│'],
    ) + seq!['│']
}

/// The inner rule between column headings and between groups of rows.
pub open spec fn mid_rule(ws: Seq<int>) -> Seq<char> {
    rule('├', '┼', '┤', ws)
}

/// The lines of the first `n` rows, each followed by a rule when its index is a
/// separator and it is not the last row.
pub open spec fn body_lines(
    rows: Seq<Seq<Seq<char>>>,
    seps: Seq<usize>,
    ws: Seq<int>,
    n: int,
) -> Seq<Seq<char>>
    decreases n,
{
    if n <= 0 {
        Seq::empty()
    } else {
        let i = n - 1;
        let with_row = body_lines(rows, seps, ws, i).push(row_line(rows[i], ws));
        if seps.contains(i as usize) && i + 1 < rows.len() {
            with_row.push(mid_rule(ws))
        } else {
            with_row
        }
    }
}

/// The lines above the data lines.
pub open spec fn head_lines(title: Seq<char>, ws: Seq<int>) -> Seq<Seq<char>> {
    let cw = content_width(ws);
    seq![
        seq!['┌'] + repeat_char('─', cw as nat) + seq!['┐'],
        title_line(title, cw),
        rule('├', '┬', '┤', ws),
        header_line(ws),
        mid_rule(ws),
    ]
}

/// All lines of a rendered table.
pub open spec fn table_lines(
    title: Seq<char>,
    rows: Seq<Seq<Seq<char>>>,
    seps: Seq<usize>,
) -> Seq<Seq<char>> {
    let ws = table_widths(rows);
    head_lines(title, ws) + body_lines(rows, seps, ws, rows.len() as int) + seq![
        rule('└', '┴', '┘', ws),
    ]
}

/// Lines, each followed by a newline.
pub open spec fn lines_text(lines: Seq<Seq<char>>) -> Seq<char>
    decreases lines.len(),
{
    if lines.len() == 0 {
        Seq::empty()
    } else {
        lines_text(lines.drop_last()) + lines.last() + seq!['\n']
    }
}

/// The widths of a table fit in a `usize`, and so does the title with its two spaces.
pub open spec fn table_fits(title: Seq<char>, rows: Seq<Seq<Seq<char>>>) -> bool {
    &&& content_width(table_widths(rows)) <= usize::MAX
    &&& byte_len(title) + 2 <= usize::MAX
}

proof fn lemma_lines_text_push(lines: Seq<Seq<char>>, l: Seq<char>)
    ensures
        lines_text(lines.push(l)) == lines_text(lines) + l + seq!['\n'],
{
    assert(lines.push(l).drop_last() =~= lines);
}

proof fn lemma_column_width_grows(rows: Seq<Seq<Seq<char>>>, j: int, r: int, n: int)
    requires
        0 <= r < n <= rows.len(),
        j < rows[r].len(),
    ensures
        byte_len(rows[r][j]) + 2 <= column_width(rows, j, n),
        byte_len(header_of(j)) + 2 <= column_width(rows, j, n),
    decreases n,
{
    if r < n - 1 {
        lemma_column_width_grows(rows, j, r, n - 1);
    }
    lemma_column_width_floor(rows, j, n);
}

proof fn lemma_column_width_floor(rows: Seq<Seq<Seq<char>>>, j: int, n: int)
    ensures
        byte_len(header_of(j)) + 2 <= column_width(rows, j, n),
    decreases n,
{
    if n > 0 {
        lemma_column_width_floor(rows, j, n - 1);
    }
}

fn header(j: usize) -> (h: &'static str)
    requires
        j < NCOLS,
    ensures
        h@ == header_of(j as int),
{
    if j == 0 {
        "Benchmark"
    } else if j == 1 {
        "avg (ms)"
    } else if j == 2 {
        "σ (ms)"
    } else if j == 3 {
        "p50 (ms)"
    } else if j == 4 {
        "p90 (ms)"
    } else if j == 5 {
        "p99 (ms)"
    } else {
        "CV"
    }
}

/// The UTF-8 byte length of `s`.
fn byte_count(s: &str) -> (n: usize)
    requires
        byte_len(s@) <= usize::MAX,
    ensures
        n == byte_len(s@),
{
    s.len()
}

/// Header byte lengths are small.
proof fn lemma_header_bytes(j: int)
    ensures
        byte_len(header_of(j)) <= 36,
{
    reveal_strlit("Benchmark");
    reveal_strlit("avg (ms)");
    reveal_strlit("σ (ms)");
    reveal_strlit("p50 (ms)");
    reveal_strlit("p90 (ms)");
    reveal_strlit("p99 (ms)");
    reveal_strlit("CV");
    lemma_byte_len_bounds(header_of(j));
}

/// Computes the width of every column.
fn column_widths(rows: &[Vec<String>]) -> (ws: Vec<usize>)
    requires
        forall|j: int|
            0 <= j < NCOLS ==> column_width(cells_of(rows@), j, rows@.len() as int)
                <= usize::MAX,
    ensures
        ws@.len() == NCOLS,
        forall|j: int| 0 <= j < NCOLS ==> ws@[j] == table_widths(cells_of(rows@))[j],
{
    let ghost c = cells_of(rows@);
    let mut ws: Vec<usize> = Vec::new();
    let mut j: usize = 0;
    while j < NCOLS
        invariant
            j <= NCOLS,
            ws@.len() == j,
            forall|k: int| 0 <= k < j ==> ws@[k] == column_width(c, k, 0),
        decreases NCOLS - j,
    {
        proof {
            lemma_header_bytes(j as int);
        }
        let h = header(j);
        ws.push(byte_count(h) + 2);
        j = j + 1;
    }
    let mut r: usize = 0;
    while r < rows.len()
        invariant
            r <= rows@.len(),
            c == cells_of(rows@),
            ws@.len() == NCOLS,
            forall|k: int| 0 <= k < NCOLS ==> ws@[k] == column_width(c, k, r as int),
            forall|k: int|
                0 <= k < NCOLS ==> column_width(c, k, rows@.len() as int) <= usize::MAX,
        decreases rows@.len() - r,
    {
        let row = &rows[r];
        let n: usize = if row.len() < NCOLS {
            row.len()
        } else {
            NCOLS
        };
        let mut k: usize = 0;
        while k < n
            invariant
                r < rows@.len(),
                row == rows@[r as int],
                c == cells_of(rows@),
                n <= row@.len(),
                n <= NCOLS,
                k <= n,
                ws@.len() == NCOLS,
                forall|m: int|
                    0 <= m < k ==> ws@[m] == column_width(c, m, r + 1),
                forall|m: int|
                    k <= m < NCOLS ==> ws@[m] == column_width(c, m, r as int),
                forall|m: int|
                    0 <= m < NCOLS ==> column_width(c, m, rows@.len() as int) <= usize::MAX,
            decreases n - k,
        {
            proof {
                lemma_column_width_grows(c, k as int, r as int, rows@.len() as int);
                assert(c[r as int][k as int] == row@[k as int]@);
            }
            let b = byte_count(row[k].as_str());
            if b + 2 > ws[k] {
                ws.set(k, b + 2);
            }
            k = k + 1;
        }
        proof {
            assert forall|m: int| n <= m < NCOLS implies ws@[m] == column_width(c, m, r + 1) by {
                assert(c[r as int].len() == row@.len());
            }
        }
        r = r + 1;
    }
    ws
}

/// The widths as integers.
pub open spec fn widths_view(ws: Seq<usize>) -> Seq<int> {
    ws.map_values(|w: usize| w as int)
}

/// Appends a horizontal rule and a newline.
fn append_rule(out: &mut String, left: char, mid: char, right: char, ws: &Vec<usize>)
    ensures
        final(out)@ == old(out)@ + rule(left, mid, right, widths_view(ws@)) + seq!['\n'],
{
    let ghost wv = widths_view(ws@);
    let ghost parts = Seq::new(wv.len(), |j: int| repeat_char('─', wv[j] as nat));
    let ghost start = out@;
    push_char(out, left);
    let mut j: usize = 0;
    while j < ws.len()
        invariant
            j <= ws@.len(),
            wv == widths_view(ws@),
            parts == Seq::new(wv.len(), |j: int| repeat_char('─', wv[j] as nat)),
            out@ == start + seq![left] + join(parts.take(j as int), seq![mid]),
        decreases ws@.len() - j,
    {
        proof {
            lemma_join_step(parts, seq![mid], j as int);
        }
        if j > 0 {
            push_char(out, mid);
        }
        append_repeat(out, '─', ws[j]);
        j = j + 1;
        assert(out@ =~= start + seq![left] + join(parts.take(j as int), seq![mid]));
    }
    push_char(out, right);
    push_char(out, '\n');
    proof {
        assert(parts.take(ws@.len() as int) =~= parts);
        assert(out@ =~= start + rule(left, mid, right, wv) + seq!['\n']);
    }
}

/// Appends the heading line and a newline.
fn append_header_line(out: &mut String, ws: &Vec<usize>)
    requires
        ws@.len() == NCOLS,
    ensures
        final(out)@ == old(out)@ + header_line(widths_view(ws@)) + seq!['\n'],
{
    let ghost wv = widths_view(ws@);
    let ghost parts = Seq::new(NCOLS as nat, |j: int| center(header_of(j), wv[j]));
    let ghost start = out@;
    push_char(out, '│');
    let mut j: usize = 0;
    while j < NCOLS
        invariant
            j <= NCOLS,
            ws@.len() == NCOLS,
            wv == widths_view(ws@),
            parts == Seq::new(NCOLS as nat, |j: int| center(header_of(j), wv[j])),
            out@ == start + seq!['│'] + join(parts.take(j as int), seq!['│']),
        decreases NCOLS - j,
    {
        proof {
            lemma_join_step(parts, seq!['│'], j as int);
        }
        if j > 0 {
            push_char(out, '│');
        }
        append_center(out, header(j), ws[j]);
        j = j + 1;
        assert(out@ =~= start + seq!['│'] + join(parts.take(j as int), seq!['│']));
    }
    push_char(out, '│');
    push_char(out, '\n');
    proof {
        assert(parts.take(NCOLS as int) =~= parts);
        assert(out@ =~= start + header_line(wv) + seq!['\n']);
    }
}

/// Appends one data line and a newline.
fn append_row_line(out: &mut String, row: &Vec<String>, ws: &Vec<usize>)
    requires
        ws@.len() == NCOLS,
        forall|j: int| 0 <= j < NCOLS ==> ws@[j] >= 2,
    ensures
        final(out)@ == old(out)@ + row_line(row@.map_values(|c: String| c@), widths_view(ws@))
            + seq!['\n'],
{
    let ghost wv = widths_view(ws@);
    let ghost cells = row@.map_values(|c: String| c@);
    let n: usize = if row.len() < NCOLS {
        row.len()
    } else {
        NCOLS
    };
    let ghost parts = Seq::new(n as nat, |j: int| cell_text(cells[j], j, wv[j]));
    let ghost start = out@;
    assert(n == shown_cells(cells));
    push_char(out, '│');
    let mut j: usize = 0;
    while j < n
        invariant
            j <= n,
            n <= NCOLS,
            n <= row@.len(),
            ws@.len() == NCOLS,
            forall|k: int| 0 <= k < NCOLS ==> ws@[k] >= 2,
            wv == widths_view(ws@),
            cells == row@.map_values(|c: String| c@),
            parts == Seq::new(n as nat, |j: int| cell_text(cells[j], j, wv[j])),
            out@ == start + seq!['│'] + join(parts.take(j as int), seq!['│']),
        decreases n - j,
    {
        proof {
            lemma_join_step(parts, seq!['│'], j as int);
        }
        if j > 0 {
            push_char(out, '│');
        }
        push_char(out, ' ');
        if j == 0 {
            append_pad_end(out, row[j].as_str(), ws[j] - 2);
        } else {
            append_pad_start(out, row[j].as_str(), ws[j] - 2);
        }
        push_char(out, ' ');
        j = j + 1;
        assert(out@ =~= start + seq!['│'] + join(parts.take(j as int), seq!['│']));
    }
    push_char(out, '│');
    push_char(out, '\n');
    proof {
        assert(parts.take(n as int) =~= parts);
        assert(out@ =~= start + row_line(cells, wv) + seq!['\n']);
    }
}

/// The UTF-8 encoding of a space is one byte.
proof fn lemma_title_inner_bytes(title: Seq<char>)
    ensures
        byte_len(seq![' '] + title + seq![' ']) == byte_len(title) + 2,
{
    lemma_byte_len_concat(seq![' '], title);
    lemma_byte_len_concat(seq![' '] + title, seq![' ']);
    let sp = seq![' '];
    assert(sp.drop_first() =~= Seq::<char>::empty());
    assert(sp[0] == ' ');
    assert((' ' as u32) == 32);
    assert(encode_scalar(sp[0] as u32).len() == 1);
    assert(encode_utf8(sp.drop_first()).len() == 0);
    assert(byte_len(sp) == 1);
}

/// Appends the title line and a newline.
fn append_title_line(out: &mut String, title: &str, cw: usize)
    requires
        byte_len(title@) + 2 <= usize::MAX,
    ensures
        final(out)@ == old(out)@ + title_line(title@, cw as int) + seq!['\n'],
{
    proof {
        lemma_title_inner_bytes(title@);
    }
    let inner_bytes = byte_count(title) + 2;
    let pad: usize = if cw > inner_bytes {
        cw - inner_bytes
    } else {
        0
    };
    let ghost start = out@;
    push_char(out, '│');
    append_spaces(out, pad / 2);
    push_char(out, ' ');
    append_str(out, title);
    push_char(out, ' ');
    append_spaces(out, pad - pad / 2);
    push_char(out, '│');
    push_char(out, '\n');
    assert(out@ =~= start + title_line(title@, cw as int) + seq!['\n']);
}

/// Whether `x` occurs in `xs`.
pub fn contains_index(xs: &[usize], x: usize) -> (r: bool)
    ensures
        r == xs@.contains(x),
{
    let mut i: usize = 0;
    while i < xs.len()
        invariant
            i <= xs@.len(),
            forall|k: int| 0 <= k < i ==> xs@[k] != x,
        decreases xs@.len() - i,
    {
        if xs[i] == x {
            assert(xs@[i as int] == x);
            return true;
        }
        i = i + 1;
    }
    false
}

/// Renders a boxed results table: a title, the column headings, one line per
/// row, and a rule after each row whose index is listed in `separators`
/// (except after the last row). Column widths follow the UTF-8 byte length of
/// the widest cell, while cells are padded by character count.
pub fn render_table(title: &str, rows: &[Vec<String>], separators: &[usize]) -> (s: String)
    requires
        table_fits(title@, cells_of(rows@)),
    ensures
        s@ == lines_text(table_lines(title@, cells_of(rows@), separators@)),
{
    let ghost c = cells_of(rows@);
    let ghost tw = table_widths(c);
    proof {
        assert forall|j: int| 0 <= j < NCOLS implies column_width(c, j, rows@.len() as int)
            <= usize::MAX by {
            assert(tw[j] == column_width(c, j, rows@.len() as int));
            lemma_column_width_floor(c, j, rows@.len() as int);
            lemma_column_width_floor(c, 0, rows@.len() as int);
            lemma_column_width_floor(c, 1, rows@.len() as int);
            lemma_column_width_floor(c, 2, rows@.len() as int);
            lemma_column_width_floor(c, 3, rows@.len() as int);
            lemma_column_width_floor(c, 4, rows@.len() as int);
            lemma_column_width_floor(c, 5, rows@.len() as int);
            lemma_column_width_floor(c, 6, rows@.len() as int);
        }
    }
    let widths = column_widths(rows);
    let ghost wv = widths_view(widths@);
    proof {
        assert(wv =~= tw);
        assert forall|j: int| 0 <= j < NCOLS implies widths@[j] >= 2 by {
            lemma_column_width_floor(c, j, rows@.len() as int);
        }
    }
    let cw: usize = widths[0] + widths[1] + widths[2] + widths[3] + widths[4] + widths[5]
        + widths[6] + 6;
    let ghost head = head_lines(title@, wv);
    let mut out = String::new();
    push_char(&mut out, '┌');
    append_repeat(&mut out, '─', cw);
    push_char(&mut out, '┐');
    push_char(&mut out, '\n');
    append_title_line(&mut out, title, cw);
    append_rule(&mut out, '├', '┬', '┤', &widths);
    append_header_line(&mut out, &widths);
    append_rule(&mut out, '├', '┼', '┤', &widths);
    proof {
        let ls = head;
        lemma_lines_text_push(ls.take(0), ls[0]);
        lemma_lines_text_push(ls.take(1), ls[1]);
        lemma_lines_text_push(ls.take(2), ls[2]);
        lemma_lines_text_push(ls.take(3), ls[3]);
        lemma_lines_text_push(ls.take(4), ls[4]);
        assert(ls.take(0).push(ls[0]) =~= ls.take(1));
        assert(ls.take(1).push(ls[1]) =~= ls.take(2));
        assert(ls.take(2).push(ls[2]) =~= ls.take(3));
        assert(ls.take(3).push(ls[3]) =~= ls.take(4));
        assert(ls.take(4).push(ls[4]) =~= ls);
        assert(lines_text(ls.take(0)) =~= Seq::<char>::empty());
        assert(out@ =~= lines_text(head + body_lines(c, separators@, wv, 0)));
    }
    let mut i: usize = 0;
    while i < rows.len()
        invariant
            i <= rows@.len(),
            c == cells_of(rows@),
            wv == widths_view(widths@),
            widths@.len() == NCOLS,
            forall|j: int| 0 <= j < NCOLS ==> widths@[j] >= 2,
            out@ == lines_text(head + body_lines(c, separators@, wv, i as int)),
        decreases rows@.len() - i,
    {
        let ghost prev = body_lines(c, separators@, wv, i as int);
        append_row_line(&mut out, &rows[i], &widths);
        proof {
            assert(c[i as int] == rows@[i as int]@.map_values(|x: String| x@));
            lemma_lines_text_push(head + prev, row_line(c[i as int], wv));
            assert((head + prev).push(row_line(c[i as int], wv)) =~= head + prev.push(
                row_line(c[i as int], wv),
            ));
        }
        if contains_index(separators, i) && i + 1 < rows.len() {
            append_rule(&mut out, '├', '┼', '┤', &widths);
            proof {
                let p2 = prev.push(row_line(c[i as int], wv));
                lemma_lines_text_push(head + p2, mid_rule(wv));
                assert((head + p2).push(mid_rule(wv)) =~= head + p2.push(mid_rule(wv)));
            }
        }
        i = i + 1;
    }
    append_rule(&mut out, '└', '┴', '┘', &widths);
    proof {
        let body = body_lines(c, separators@, wv, rows@.len() as int);
        lemma_lines_text_push(head + body, rule('└', '┴', '┘', wv));
        assert((head + body).push(rule('└', '┴', '┘', wv)) =~= head + body + seq![
            rule('└', '┴', '┘', wv),
        ]);
    }
    out
}

/// Sum of the first `n` widths.
pub open spec fn sum_widths(ws: Seq<int>, n: int) -> int
    decreases n,
{
    if n <= 0 {
        0
    } else {
        sum_widths(ws, n - 1) + ws[n - 1]
    }
}

proof fn lemma_join_len(parts: Seq<Seq<char>>, sep: Seq<char>, ws: Seq<int>, n: int)
    requires
        1 <= n <= parts.len(),
        n <= ws.len(),
        sep.len() == 1,
        forall|j: int| 0 <= j < n ==> parts[j].len() == ws[j],
    ensures
        join(parts.take(n), sep).len() == sum_widths(ws, n) + n - 1,
    decreases n,
{
    lemma_join_step(parts, sep, n - 1);
    assert(sum_widths(ws, n) == sum_widths(ws, n - 1) + ws[n - 1]);
    if n > 1 {
        lemma_join_len(parts, sep, ws, n - 1);
    } else {
        assert(sum_widths(ws, 0) == 0);
    }
}

proof fn lemma_content_width(ws: Seq<int>)
    ensures
        content_width(ws) == sum_widths(ws, NCOLS as int) + NCOLS - 1,
{
    reveal_with_fuel(sum_widths, 8);
}

proof fn lemma_rule_len(left: char, mid: char, right: char, ws: Seq<int>)
    requires
        ws.len() == NCOLS,
        forall|j: int| 0 <= j < NCOLS ==> ws[j] >= 0,
        mid == '│' || mid == '┼' || mid == '┬' || mid == '┴',
    ensures
        rule(left, mid, right, ws).len() == content_width(ws) + 2,
{
    let parts = Seq::new(ws.len(), |j: int| repeat_char('─', ws[j] as nat));
    lemma_join_len(parts, seq![mid], ws, NCOLS as int);
    assert(parts.take(NCOLS as int) =~= parts);
    lemma_content_width(ws);
}

/// Every column is at least two wider than the byte length, hence the character
/// count, of each of its shown cells and of its heading.
proof fn lemma_widths_cover(rows: Seq<Seq<Seq<char>>>, i: int, j: int)
    requires
        0 <= i < rows.len(),
        0 <= j < NCOLS,
        j < rows[i].len(),
    ensures
        rows[i][j].len() + 2 <= table_widths(rows)[j],
{
    lemma_column_width_grows(rows, j, i, rows.len() as int);
    lemma_byte_len_bounds(rows[i][j]);
}

proof fn lemma_row_line_len(rows: Seq<Seq<Seq<char>>>, i: int)
    requires
        0 <= i < rows.len(),
        rows[i].len() >= NCOLS,
    ensures
        row_line(rows[i], table_widths(rows)).len() == content_width(table_widths(rows)) + 2,
{
    let ws = table_widths(rows);
    let row = rows[i];
    let parts = Seq::new(shown_cells(row) as nat, |j: int| cell_text(row[j], j, ws[j]));
    assert forall|j: int| 0 <= j < NCOLS implies parts[j].len() == ws[j] by {
        lemma_widths_cover(rows, i, j);
    }
    lemma_join_len(parts, seq!['│'], ws, NCOLS as int);
    assert(parts.take(NCOLS as int) =~= parts);
    lemma_content_width(ws);
}

proof fn lemma_header_line_len(rows: Seq<Seq<Seq<char>>>)
    ensures
        header_line(table_widths(rows)).len() == content_width(table_widths(rows)) + 2,
{
    let ws = table_widths(rows);
    let parts = Seq::new(NCOLS as nat, |j: int| center(header_of(j), ws[j]));
    assert forall|j: int| 0 <= j < NCOLS implies parts[j].len() == ws[j] by {
        lemma_column_width_floor(rows, j, rows.len() as int);
        lemma_byte_len_bounds(header_of(j));
    }
    lemma_join_len(parts, seq!['│'], ws, NCOLS as int);
    assert(parts.take(NCOLS as int) =~= parts);
    lemma_content_width(ws);
}

proof fn lemma_body_lines_len(rows: Seq<Seq<Seq<char>>>, seps: Seq<usize>, n: int)
    requires
        0 <= n <= rows.len(),
        forall|i: int| 0 <= i < rows.len() ==> #[trigger] rows[i].len() >= NCOLS,
    ensures
        forall|k: int|
            0 <= k < body_lines(rows, seps, table_widths(rows), n).len() ==> (#[trigger] body_lines(
                rows,
                seps,
                table_widths(rows),
                n,
            )[k]).len() == content_width(table_widths(rows)) + 2,
    decreases n,
{
    let ws = table_widths(rows);
    if n > 0 {
        lemma_body_lines_len(rows, seps, n - 1);
        lemma_row_line_len(rows, n - 1);
        assert forall|j: int| 0 <= j < NCOLS implies ws[j] >= 0 by {
            lemma_column_width_floor(rows, j, rows.len() as int);
        }
        lemma_rule_len('├', '┼', '┤', ws);
        let prev = body_lines(rows, seps, ws, n - 1);
        let body = body_lines(rows, seps, ws, n);
        assert forall|k: int| 0 <= k < body.len() implies (#[trigger] body[k]).len() == content_width(
            ws,
        ) + 2 by {
            if k < prev.len() {
                assert(body[k] == prev[k]);
            }
        }
    }
}

/// Number of rows before row `i` of a table of `rows_len` rows that are followed
/// by a rule: those whose index is listed in `seps`, the last row excepted.
pub open spec fn rules_before(rows_len: int, seps: Seq<usize>, i: int) -> int
    decreases i,
{
    if i <= 0 {
        0
    } else {
        rules_before(rows_len, seps, i - 1) + if seps.contains((i - 1) as usize) && i < rows_len {
            1int
        } else {
            0int
        }
    }
}

proof fn lemma_rules_before_grows(rows_len: int, seps: Seq<usize>, i: int, j: int)
    requires
        0 <= i <= j,
    ensures
        0 <= rules_before(rows_len, seps, i) <= rules_before(rows_len, seps, j),
    decreases j,
{
    if j > i {
        lemma_rules_before_grows(rows_len, seps, i, j - 1);
    } else if i > 0 {
        lemma_rules_before_grows(rows_len, seps, 0, i - 1);
        lemma_rules_before_grows(rows_len, seps, i - 1, i - 1);
    }
}

proof fn lemma_body_rows(rows: Seq<Seq<Seq<char>>>, seps: Seq<usize>, ws: Seq<int>, m: int)
    requires
        0 <= m <= rows.len(),
    ensures
        body_lines(rows, seps, ws, m).len() == m + rules_before(rows.len() as int, seps, m),
        forall|i: int|
            0 <= i < m ==> body_lines(rows, seps, ws, m)[i + #[trigger] rules_before(
                rows.len() as int,
                seps,
                i,
            )] == row_line(rows[i], ws),
        forall|i: int|
            0 <= i < m && seps.contains(i as usize) && i + 1 < rows.len() ==> body_lines(
                rows,
                seps,
                ws,
                m,
            )[i + #[trigger] rules_before(rows.len() as int, seps, i) + 1] == mid_rule(ws),
    decreases m,
{
    let n = rows.len() as int;
    if m > 0 {
        lemma_body_rows(rows, seps, ws, m - 1);
        let prev = body_lines(rows, seps, ws, m - 1);
        let cur = body_lines(rows, seps, ws, m);
        assert forall|i: int| 0 <= i < m - 1 implies cur[i + #[trigger] rules_before(n, seps, i)]
            == prev[i + rules_before(n, seps, i)] by {
            lemma_rules_before_grows(n, seps, i, m - 1);
            lemma_rules_before_grows(n, seps, i + 1, m - 1);
        }
        assert forall|i: int|
            0 <= i < m - 1 && seps.contains(i as usize) && i + 1 < n implies cur[i
            + #[trigger] rules_before(n, seps, i) + 1] == prev[i + rules_before(n, seps, i) + 1] by {
            lemma_rules_before_grows(n, seps, i + 1, m - 1);
        }
        lemma_rules_before_grows(n, seps, 0, m - 1);
    }
}

/// Rules between groups of rows. Counting from the top line, row `i` stands on
/// line 5 plus `i` plus the number of earlier rows followed by a rule; the line
/// after it is the inner rule exactly when `i` is listed among the separators
/// and is not the last row, so every listed separator gets its rule and no
/// other row does. The table ends one line after the last row.
pub proof fn lemma_table_rules(title: Seq<char>, rows: Seq<Seq<Seq<char>>>, seps: Seq<usize>)
    ensures
        ({
            let lines = table_lines(title, rows, seps);
            let ws = table_widths(rows);
            let n = rows.len() as int;
            &&& lines.len() == n + rules_before(n, seps, n) + 6
            &&& forall|i: int|
                0 <= i < n ==> lines[5 + i + #[trigger] rules_before(n, seps, i)] == row_line(
                    rows[i],
                    ws,
                )
            &&& forall|i: int|
                0 <= i < n ==> (lines[6 + i + #[trigger] rules_before(n, seps, i)] == mid_rule(ws)
                    <==> (seps.contains(i as usize) && i + 1 < n))
        }),
{
    let ws = table_widths(rows);
    let n = rows.len() as int;
    let lines = table_lines(title, rows, seps);
    let head = head_lines(title, ws);
    let body = body_lines(rows, seps, ws, n);
    let bottom = rule('└', '┴', '┘', ws);
    lemma_body_rows(rows, seps, ws, n);
    assert(head.len() == 5);
    assert(lines == head + body + seq![bottom]);
    assert forall|i: int| 0 <= i < n implies lines[5 + i + #[trigger] rules_before(n, seps, i)]
        == row_line(rows[i], ws) by {
        lemma_rules_before_grows(n, seps, i, n);
        lemma_rules_before_grows(n, seps, i + 1, n);
        assert(lines[5 + i + rules_before(n, seps, i)] == body[i + rules_before(n, seps, i)]);
    }
    assert forall|i: int| 0 <= i < n implies (lines[6 + i + #[trigger] rules_before(n, seps, i)]
        == mid_rule(ws) <==> (seps.contains(i as usize) && i + 1 < n)) by {
        lemma_rules_before_grows(n, seps, i + 1, n);
        let k = 6 + i + rules_before(n, seps, i);
        assert(mid_rule(ws)[0] == '├');
        if seps.contains(i as usize) && i + 1 < n {
            assert(lines[k] == body[k - 5]);
        } else if i + 1 < n {
            assert(rules_before(n, seps, i + 1) == rules_before(n, seps, i));
            assert(lines[k] == body[i + 1 + rules_before(n, seps, i + 1)]);
            assert(row_line(rows[i + 1], ws)[0] == '│');
        } else {
            assert(rules_before(n, seps, n) == rules_before(n, seps, i));
            assert(lines[k] == bottom);
            assert(bottom[0] == '└');
        }
    }
}

/// Alignment of a rendered table. When every row has a cell for each column,
/// the frame, the rules, the heading line and every data line are all exactly
/// `content_width + 2` characters wide. The title line is centred by UTF-8 byte
/// length, so it is narrower by the number of bytes its title needs beyond one
/// per character (when the title fits).
pub proof fn lemma_table_alignment(title: Seq<char>, rows: Seq<Seq<Seq<char>>>, seps: Seq<usize>)
    requires
        forall|i: int| 0 <= i < rows.len() ==> #[trigger] rows[i].len() >= NCOLS,
    ensures
        ({
            let lines = table_lines(title, rows, seps);
            let cw = content_width(table_widths(rows));
            &&& forall|k: int| 0 <= k < lines.len() && k != 1 ==> (#[trigger] lines[k]).len() == cw + 2
            &&& byte_len(title) + 2 <= cw ==> lines[1].len() == cw + 2 - (byte_len(title)
                - title.len())
        }),
{
    let ws = table_widths(rows);
    let cw = content_width(ws);
    let lines = table_lines(title, rows, seps);
    let head = head_lines(title, ws);
    let body = body_lines(rows, seps, ws, rows.len() as int);
    assert forall|j: int| 0 <= j < NCOLS implies ws[j] >= 0 by {
        lemma_column_width_floor(rows, j, rows.len() as int);
    }
    lemma_rule_len('├', '┬', '┤', ws);
    lemma_rule_len('├', '┼', '┤', ws);
    lemma_rule_len('└', '┴', '┘', ws);
    lemma_header_line_len(rows);
    lemma_body_lines_len(rows, seps, rows.len() as int);
    lemma_title_inner_bytes(title);
    assert forall|k: int| 0 <= k < lines.len() && k != 1 implies (#[trigger] lines[k]).len() == cw
        + 2 by {
        if k >= 5 && k < 5 + body.len() {
            assert(lines[k] == body[k - 5]);
        }
    }
}

/// The groups one after another.
pub open spec fn flatten<T>(gs: Seq<Seq<T>>) -> Seq<T>
    decreases gs.len(),
{
    if gs.len() == 0 {
        Seq::empty()
    } else {
        flatten(gs.drop_last()) + gs.last()
    }
}

/// Index of the last row of each non-empty group, in the flattened rows.
pub open spec fn group_ends<T>(gs: Seq<Seq<T>>) -> Seq<usize>
    decreases gs.len(),
{
    if gs.len() == 0 {
        Seq::empty()
    } else {
        let prev = group_ends(gs.drop_last());
        if gs.last().len() > 0 {
            prev.push((flatten(gs).len() - 1) as usize)
        } else {
            prev
        }
    }
}

/// The separators between groups: the end of every non-empty group but the last.
pub open spec fn group_separators<T>(gs: Seq<Seq<T>>) -> Seq<usize> {
    let ends = group_ends(gs);
    if ends.len() > 0 {
        ends.drop_last()
    } else {
        ends
    }
}

/// Views of nested vectors.
pub open spec fn groups_view<T>(gs: Seq<Vec<T>>) -> Seq<Seq<T>> {
    gs.map_values(|g: Vec<T>| g@)
}

/// Concatenates the rows of each group, and lists the index of the last row of
/// every non-empty group except the final one, where a rule is to be drawn.
pub fn group_rows<T>(groups: Vec<Vec<T>>) -> (res: (Vec<T>, Vec<usize>))
    ensures
        res.0@ == flatten(groups_view(groups@)),
        res.1@ == group_separators(groups_view(groups@)),
{
    let ghost gv = groups_view(groups@);
    let mut groups = groups;
    let mut rows: Vec<T> = Vec::new();
    let mut seps: Vec<usize> = Vec::new();
    let ghost mut k: int = 0;
    while groups.len() > 0
        invariant
            0 <= k <= gv.len(),
            groups@.len() == gv.len() - k,
            forall|m: int| 0 <= m < groups@.len() ==> #[trigger] groups@[m]@ == gv[k + m],
            rows@ == flatten(gv.take(k)),
            seps@ == group_ends(gv.take(k)),
        decreases groups@.len(),
    {
        let ghost before = groups@;
        let mut g = groups.remove(0);
        assert(g@ == gv[k]);
        let start = rows.len();
        rows.append(&mut g);
        proof {
            assert(gv.take(k + 1).drop_last() =~= gv.take(k));
            assert(gv.take(k + 1).last() == gv[k]);
        }
        if rows.len() > start {
            seps.push(rows.len() - 1);
        }
        proof {
            k = k + 1;
            assert forall|m: int| 0 <= m < groups@.len() implies #[trigger] groups@[m]@ == gv[k
                + m] by {
                assert(groups@[m] == before[m + 1]);
            }
        }
    }
    proof {
        assert(gv.take(k) =~= gv);
    }
    seps.pop();
    (rows, seps)
}

proof fn lemma_group_ends<T>(gs: Seq<Seq<T>>)
    requires
        flatten(gs).len() <= usize::MAX,
    ensures
        forall|i: int, j: int|
            0 <= i < j < group_ends(gs).len() ==> group_ends(gs)[i] < group_ends(gs)[j],
        forall|i: int| 0 <= i < group_ends(gs).len() ==> group_ends(gs)[i] < flatten(gs).len(),
        group_ends(gs).len() > 0 ==> group_ends(gs).last() == flatten(gs).len() - 1,
    decreases gs.len(),
{
    if gs.len() > 0 {
        assert(flatten(gs).len() == flatten(gs.drop_last()).len() + gs.last().len());
        lemma_group_ends(gs.drop_last());
        let prev = group_ends(gs.drop_last());
        let ends = group_ends(gs);
        if gs.last().len() > 0 {
            assert(ends == prev.push((flatten(gs).len() - 1) as usize));
            assert forall|i: int, j: int| 0 <= i < j < ends.len() implies ends[i] < ends[j] by {
                if j < prev.len() {
                    assert(ends[i] == prev[i] && ends[j] == prev[j]);
                } else {
                    assert(ends[i] == prev[i]);
                }
            }
        }
    }
}

/// The separators that `group_rows` lists are strictly increasing and each lies
/// before the last row, so `render_table` draws a rule after every one of them
/// and never after the last row.
pub proof fn lemma_group_separators<T>(gs: Seq<Seq<T>>)
    requires
        flatten(gs).len() <= usize::MAX,
    ensures
        ({
            let seps = group_separators(gs);
            let n = flatten(gs).len();
            &&& forall|i: int, j: int| 0 <= i < j < seps.len() ==> seps[i] < seps[j]
            &&& forall|i: int| 0 <= i < seps.len() ==> seps[i] + 1 < n
        }),
{
    lemma_group_ends(gs);
    let ends = group_ends(gs);
    if ends.len() > 0 {
        assert forall|i: int| 0 <= i < ends.len() - 1 implies ends[i] + 1 < flatten(gs).len() by {
            assert(ends[i] < ends[ends.len() - 1]);
        }
    }
}

} // verus!
