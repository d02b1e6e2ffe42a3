//! The two layouts of a table: a grid of rows under a header, and one block
//! per record.
//!
//! ```text
//!  sid | sname | gap
//! -----+-------+-----
//!  3   | Alice | 5
//!  6   | Joe   | 1
//! ```
//!
//! ```text
//! -[ RECORD 1 ]
//! sid   | 3
//! sname | Alice
//! gap   | 5
//! ```
use vstd::prelude::*;
use crate::table::{full_row, keep, pick, count_kept, data_rows, lemma_pick_len_same, strs, table_of, col_width, widths_of, rectangular, extract_header, extract_body, InputExtract};

verus! {

/// `n` copies of `ch`.
pub open spec fn repeat_of(ch: char, n: nat) -> Seq<char> {
    Seq::new(n, |i: int| ch)
}

/// `s` followed by spaces up to `w` characters.
pub open spec fn pad(s: Seq<char>, w: nat) -> Seq<char> {
    s + repeat_of(' ', (w - s.len()) as nat)
}

/// The separator between two cells of a grid line.
pub open spec fn bar() -> Seq<char> {
    seq![' ', '|', ' ']
}

/// The separator between two runs of dashes of the rule under the header.
pub open spec fn cross() -> Seq<char> {
    seq!['-', '+', '-']
}

/// The first `k` cells, each padded to its column's width, separated by ` | `.
pub open spec fn row_inner(cells: Seq<Seq<char>>, ws: Seq<nat>, k: int) -> Seq<char>
    decreases k,
{
    if k <= 0 {
        Seq::empty()
    } else if k == 1 {
        pad(cells[0], ws[0])
    } else {
        row_inner(cells, ws, k - 1) + bar() + pad(cells[k - 1], ws[k - 1])
    }
}

/// One line of the grid, with one space at each end.
pub open spec fn row_line(cells: Seq<Seq<char>>, ws: Seq<nat>) -> Seq<char> {
    seq![' '] + row_inner(cells, ws, cells.len() as int) + seq![' ']
}

/// The dashes of the first `k` columns, separated by `-+-`.
pub open spec fn rule_inner(ws: Seq<nat>, k: int) -> Seq<char>
    decreases k,
{
    if k <= 0 {
        Seq::empty()
    } else if k == 1 {
        repeat_of('-', ws[0])
    } else {
        rule_inner(ws, k - 1) + cross() + repeat_of('-', ws[k - 1])
    }
}

/// The rule under the header: the header line with spaces turned to `-` and
/// ` | ` turned to `-+-`.
pub open spec fn rule_line(ws: Seq<nat>) -> Seq<char> {
    seq!['-'] + rule_inner(ws, ws.len() as int) + seq!['-']
}

/// The body lines of the grid.
pub open spec fn body_lines(b: Seq<Seq<Seq<char>>>, ws: Seq<nat>) -> Seq<Seq<char>> {
    Seq::new(b.len(), |r: int| row_line(b[r], ws))
}

/// The lines of the grid layout: the header, the rule and one line per row;
/// none when there is no column.
pub open spec fn grid_lines(h: Seq<Seq<char>>, b: Seq<Seq<Seq<char>>>) -> Seq<Seq<char>> {
    if h.len() == 0 {
        Seq::empty()
    } else {
        seq![row_line(h, widths_of(h, b)), rule_line(widths_of(h, b))] + body_lines(
            b,
            widths_of(h, b),
        )
    }
}

/// The decimal digits.
pub open spec fn digits() -> Seq<char> {
    seq!['0', '1', '2', '3', '4', '5', '6', '7', '8', '9']
}

/// The decimal form of `n`.
pub open spec fn dec(n: nat) -> Seq<char>
    decreases n,
{
    if n < 10 {
        seq![digits()[n as int]]
    } else {
        dec(n / 10) + seq![digits()[(n % 10) as int]]
    }
}

/// `-[ RECORD `, the start of the line that opens a record.
pub open spec fn marker_open() -> Seq<char> {
    seq!['-', '[', ' ', 'R', 'E', 'C', 'O', 'R', 'D', ' ']
}

/// The line that opens record `n`: `-[ RECORD n ]`.
pub open spec fn marker(n: nat) -> Seq<char> {
    marker_open() + dec(n) + seq![' ', ']']
}

/// The longest of the first `k` keys, in characters.
pub open spec fn key_width(h: Seq<Seq<char>>, k: int) -> nat
    decreases k,
{
    if k <= 0 {
        0
    } else {
        let w = key_width(h, k - 1);
        if h[k - 1].len() > w {
            h[k - 1].len()
        } else {
            w
        }
    }
}

/// One line of a record: the key padded to `kw`, ` | `, the value.
pub open spec fn field_line(key: Seq<char>, val: Seq<char>, kw: nat) -> Seq<char> {
    pad(key, kw) + bar() + val
}

/// The lines of record `n`: its marker, then one line per column.
pub open spec fn block_lines(h: Seq<Seq<char>>, row: Seq<Seq<char>>, n: nat) -> Seq<Seq<char>> {
    seq![marker(n)] + Seq::new(
        h.len(),
        |c: int| field_line(h[c], row[c], key_width(h, h.len() as int)),
    )
}

/// The lines of the first `k` records.
pub open spec fn records_upto(h: Seq<Seq<char>>, b: Seq<Seq<Seq<char>>>, k: int) -> Seq<Seq<char>>
    decreases k,
{
    if k <= 0 {
        Seq::empty()
    } else {
        records_upto(h, b, k - 1) + block_lines(h, b[k - 1], k as nat)
    }
}

/// The lines of the records layout; none when there is no column.
pub open spec fn records_lines(h: Seq<Seq<char>>, b: Seq<Seq<Seq<char>>>) -> Seq<Seq<char>> {
    if h.len() == 0 {
        Seq::empty()
    } else {
        records_upto(h, b, b.len() as int)
    }
}

/// Lines, each followed by a newline.
pub open spec fn text_of(lines: Seq<Seq<char>>) -> Seq<char>
    decreases lines.len(),
{
    if lines.len() == 0 {
        Seq::empty()
    } else {
        text_of(lines.drop_last()) + lines.last() + seq!['\n']
    }
}

/// The layouts a table can be written in.
#[derive(Debug, Clone, Copy, PartialEq, Eq)]
pub enum TableOutputFormat {
    /// A header line, a rule and one line per row.
    Table,
    /// One block per record, opened by `-[ RECORD n ]`.
    Records,
}

/// The lines of a layout.
pub open spec fn lines_of(
    f: TableOutputFormat,
    h: Seq<Seq<char>>,
    b: Seq<Seq<Seq<char>>>,
) -> Seq<Seq<char>> {
    match f {
        TableOutputFormat::Table => grid_lines(h, b),
        TableOutputFormat::Records => records_lines(h, b),
    }
}

impl Default for TableOutputFormat {
    /// The grid layout.
    fn default() -> (r: TableOutputFormat)
        ensures
            r == TableOutputFormat::Table,
    {
        TableOutputFormat::Table
    }
}

/// Appends `n` copies of the one character of `unit`.
fn write_repeat(out: &mut String, unit: &str, n: usize)
    requires
        unit@.len() == 1,
    ensures
        final(out)@ == old(out)@ + repeat_of(unit@[0], n as nat),
{
    let mut i: usize = 0;
    while i < n
        invariant
            i <= n,
            unit@.len() == 1,
            out@ == old(out)@ + repeat_of(unit@[0], i as nat),
        decreases n - i,
    {
        out.append(unit);
        assert(repeat_of(unit@[0], i as nat) + unit@ =~= repeat_of(unit@[0], (i + 1) as nat));
        i = i + 1;
    }
}

/// Appends `s` padded with spaces to `w` characters.
fn write_padded(out: &mut String, s: &str, w: usize)
    requires
        s@.len() <= w,
    ensures
        final(out)@ == old(out)@ + pad(s@, w as nat),
{
    let l = s.unicode_len();
    out.append(s);
    proof {
        reveal_strlit(" ");
    }
    write_repeat(out, " ", w - l);
    assert(out@ =~= old(out)@ + pad(s@, w as nat));
}

/// Appends one grid line and its newline.
fn write_row_line(out: &mut String, cells: &Vec<String>, widths: &Vec<usize>, ws: Ghost<Seq<nat>>)
    requires
        cells@.len() == widths@.len() == ws@.len(),
        cells@.len() > 0,
        forall|c: int| 0 <= c < ws@.len() ==> #[trigger] ws@[c] == widths@[c] as nat,
        forall|c: int| 0 <= c < ws@.len() ==> (#[trigger] cells@[c])@.len() <= ws@[c],
    ensures
        final(out)@ == old(out)@ + row_line(strs(cells@), ws@) + seq!['\n'],
{
    let ghost cs = strs(cells@);
    proof {
        reveal_strlit(" ");
        reveal_strlit(" | ");
        reveal_strlit(" \n");
    }
    out.append(" ");
    let n = cells.len();
    let mut c: usize = 0;
    while c < n
        invariant
            c <= n == cells@.len() == widths@.len() == ws@.len(),
            cs == strs(cells@),
            forall|q: int| 0 <= q < ws@.len() ==> #[trigger] ws@[q] == widths@[q] as nat,
            forall|q: int| 0 <= q < ws@.len() ==> (#[trigger] cells@[q])@.len() <= ws@[q],
            out@ == old(out)@ + seq![' '] + row_inner(cs, ws@, c as int),
        decreases n - c,
    {
        if c > 0 {
            proof {
                reveal_strlit(" | ");
            }
            assert(" | "@ =~= bar());
            out.append(" | ");
        }
        write_padded(out, cells[c].as_str(), widths[c]);
        assert(out@ =~= old(out)@ + seq![' '] + row_inner(cs, ws@, c as int + 1));
        c = c + 1;
    }
    out.append(" \n");
    assert(out@ =~= old(out)@ + row_line(cs, ws@) + seq!['\n']);
}

/// Appends the rule under the header and its newline.
fn write_rule_line(out: &mut String, widths: &Vec<usize>, ws: Ghost<Seq<nat>>)
    requires
        widths@.len() == ws@.len(),
        widths@.len() > 0,
        forall|c: int| 0 <= c < ws@.len() ==> #[trigger] ws@[c] == widths@[c] as nat,
    ensures
        final(out)@ == old(out)@ + rule_line(ws@) + seq!['\n'],
{
    proof {
        reveal_strlit("-");
        reveal_strlit("-+-");
        reveal_strlit("-\n");
    }
    out.append("-");
    let n = widths.len();
    let mut c: usize = 0;
    while c < n
        invariant
            c <= n == widths@.len() == ws@.len(),
            forall|q: int| 0 <= q < ws@.len() ==> #[trigger] ws@[q] == widths@[q] as nat,
            out@ == old(out)@ + seq!['-'] + rule_inner(ws@, c as int),
        decreases n - c,
    {
        proof {
            reveal_strlit("-");
            reveal_strlit("-+-");
        }
        if c > 0 {
            assert("-+-"@ =~= cross());
            out.append("-+-");
        }
        write_repeat(out, "-", widths[c]);
        assert(out@ =~= old(out)@ + seq!['-'] + rule_inner(ws@, c as int + 1));
        c = c + 1;
    }
    out.append("-\n");
    assert(out@ =~= old(out)@ + rule_line(ws@) + seq!['\n']);
}

/// Appends the decimal form of `n`.
fn write_decimal(out: &mut String, n: u64)
    ensures
        final(out)@ == old(out)@ + dec(n as nat),
    decreases n,
{
    if n >= 10 {
        write_decimal(out, n / 10);
    }
    let ds = "0123456789";
    proof {
        reveal_strlit("0123456789");
    }
    assert(ds@ =~= digits());
    let d = (n % 10) as usize;
    out.append(ds.substring_char(d, d + 1));
    assert(out@ =~= old(out)@ + dec(n as nat));
}

/// Appending a line and its newline to the text of some lines.
proof fn lemma_text_push(lines: Seq<Seq<char>>, l: Seq<char>)
    ensures
        text_of(lines.push(l)) == text_of(lines) + l + seq!['\n'],
{
    assert(lines.push(l).drop_last() =~= lines);
}

impl TableOutputFormat {
    /// Appends the extract, in this layout, to `out`.
    pub fn extract_write(&self, x: &InputExtract, out: &mut String)
        requires
            x.wf(),
        ensures
            final(out)@ == old(out)@ + text_of(lines_of(*self, x.header_view(), x.body_view())),
    {
        match self {
            TableOutputFormat::Table => write_grid(x, out),
            TableOutputFormat::Records => write_records(x, out),
        }
    }
}

/// Appends the grid layout of the extract.
fn write_grid(x: &InputExtract, out: &mut String)
    requires
        x.wf(),
    ensures
        final(out)@ == old(out)@ + text_of(grid_lines(x.header_view(), x.body_view())),
{
    let header = x.header();
    let body = x.body();
    let widths = x.widths();
    let ghost h = x.header_view();
    let ghost b = x.body_view();
    let ghost ws = widths_of(h, b);
    if header.len() == 0 {
        assert(text_of(Seq::<Seq<char>>::empty()) =~= Seq::<char>::empty());
        assert(out@ =~= old(out)@ + text_of(grid_lines(h, b)));
        return;
    }
    proof {
        lemma_widths_bound(h, b);
        assert forall|q: int| 0 <= q < ws.len() implies (#[trigger] header@[q])@.len() <= ws[q] by {
            assert(header@[q]@ == h[q]);
        };
    }
    write_row_line(out, header, widths, Ghost(ws));
    write_rule_line(out, widths, Ghost(ws));
    let ghost top = seq![row_line(h, ws), rule_line(ws)];
    proof {
        lemma_text_push(Seq::empty(), row_line(h, ws));
        lemma_text_push(seq![row_line(h, ws)], rule_line(ws));
        assert(seq![row_line(h, ws)].push(rule_line(ws)) =~= top);
        assert(Seq::<Seq<char>>::empty().push(row_line(h, ws)) =~= seq![row_line(h, ws)]);
        assert(text_of(Seq::<Seq<char>>::empty()) =~= Seq::<char>::empty());
        assert(out@ =~= old(out)@ + text_of(top));
    }
    let n = body.len();
    let mut r: usize = 0;
    while r < n
        invariant
            x.wf(),
            r <= n == body@.len() == b.len(),
            h == x.header_view(),
            b == x.body_view(),
            ws == widths_of(h, b),
            b == table_of(body@),
            widths@.len() == ws.len() == h.len(),
            h.len() > 0,
            rectangular(h, b),
            forall|q: int| 0 <= q < ws.len() ==> #[trigger] ws[q] == widths@[q] as nat,
            forall|r2: int, q: int|
                0 <= r2 < b.len() && 0 <= q < h.len() ==> (#[trigger] b[r2][q]).len() <= ws[q],
            top == seq![row_line(h, ws), rule_line(ws)],
            out@ == old(out)@ + text_of(top + body_lines(b.subrange(0, r as int), ws)),
        decreases n - r,
    {
        let row = &body[r];
        assert(strs(row@) == b[r as int]);
        assert(row@.len() == b[r as int].len());
        assert forall|q: int| 0 <= q < ws.len() implies (#[trigger] row@[q])@.len() <= ws[q] by {
            assert(row@[q]@ == b[r as int][q]);
        };
        write_row_line(out, row, widths, Ghost(ws));
        proof {
            let prev = top + body_lines(b.subrange(0, r as int), ws);
            lemma_text_push(prev, row_line(b[r as int], ws));
            assert(prev.push(row_line(b[r as int], ws)) =~= top + body_lines(
                b.subrange(0, r as int + 1),
                ws,
            ));
        }
        r = r + 1;
    }
    assert(b.subrange(0, n as int) =~= b);
}

/// Every header cell and every body cell fits the width of its column.
pub proof fn lemma_widths_bound(h: Seq<Seq<char>>, b: Seq<Seq<Seq<char>>>)
    requires
        rectangular(h, b),
    ensures
        forall|c: int| 0 <= c < h.len() ==> (#[trigger] h[c]).len() <= col_width(h, b, c),
        forall|r: int, c: int|
            0 <= r < b.len() && 0 <= c < h.len() ==> (#[trigger] b[r][c]).len() <= col_width(
                h,
                b,
                c,
            ),
    decreases b.len(),
{
    if b.len() > 0 {
        let p = b.drop_last();
        assert(rectangular(h, p)) by {
            assert forall|r: int| 0 <= r < p.len() implies #[trigger] p[r].len() == h.len() by {
                assert(p[r] == b[r]);
            };
        };
        lemma_widths_bound(h, p);
        assert forall|r: int, c: int| 0 <= r < b.len() && 0 <= c < h.len() implies (
        #[trigger] b[r][c]).len() <= col_width(h, b, c) by {
            if r < b.len() - 1 {
                assert(b[r] == p[r]);
            }
        };
    }
}

/// Appends the records layout of the extract.
fn write_records(x: &InputExtract, out: &mut String)
    requires
        x.wf(),
    ensures
        final(out)@ == old(out)@ + text_of(records_lines(x.header_view(), x.body_view())),
{
    let header = x.header();
    let body = x.body();
    let ghost h = x.header_view();
    let ghost b = x.body_view();
    let m = header.len();
    if m == 0 {
        assert(text_of(Seq::<Seq<char>>::empty()) =~= Seq::<char>::empty());
        assert(out@ =~= old(out)@ + text_of(records_lines(h, b)));
        return;
    }
    let kw = key_width_exec(header);
    proof {
        lemma_key_width_bound(h, m as int);
        assert(text_of(Seq::<Seq<char>>::empty()) =~= Seq::<char>::empty());
        assert(records_upto(h, b, 0) =~= Seq::<Seq<char>>::empty());
        assert(out@ =~= old(out)@ + text_of(records_upto(h, b, 0)));
    }
    let n = body.len();
    let mut r: usize = 0;
    while r < n
        invariant
            x.wf(),
            r <= n == body@.len() == b.len(),
            m == h.len() == header@.len(),
            h == strs(header@),
            b == table_of(body@),
            rectangular(h, b),
            kw as nat == key_width(h, m as int),
            forall|q: int| 0 <= q < m ==> (#[trigger] h[q]).len() <= kw,
            out@ == old(out)@ + text_of(records_upto(h, b, r as int)),
        decreases n - r,
    {
        let row = &body[r];
        let ghost prev = records_upto(h, b, r as int);
        let ghost blk = block_lines(h, b[r as int], (r + 1) as nat);
        assert(strs(row@) == b[r as int]);
        assert(row@.len() == b[r as int].len());
        proof {
            reveal_strlit("-[ RECORD ");
            reveal_strlit(" ]\n");
        }
        out.append("-[ RECORD ");
        write_decimal(out, (r + 1) as u64);
        out.append(" ]\n");
        proof {
            assert("-[ RECORD "@ =~= marker_open());
            lemma_text_push(prev, marker((r + 1) as nat));
            assert(prev + blk.subrange(0, 1) =~= prev.push(marker((r + 1) as nat)));
            assert(out@ =~= old(out)@ + text_of(prev + blk.subrange(0, 1)));
        }
        let mut c: usize = 0;
        while c < m
            invariant
                c <= m == h.len() == header@.len(),
                r < n == b.len(),
                h == strs(header@),
                b == table_of(body@),
                strs(row@) == b[r as int],
                row@.len() == m,
                kw as nat == key_width(h, m as int),
                forall|q: int| 0 <= q < m ==> (#[trigger] h[q]).len() <= kw,
                blk == block_lines(h, b[r as int], (r + 1) as nat),
                out@ == old(out)@ + text_of(prev + blk.subrange(0, c as int + 1)),
            decreases m - c,
        {
            let ghost before = out@;
            assert(header@[c as int]@ == h[c as int]);
            write_padded(out, header[c].as_str(), kw);
            proof {
                reveal_strlit(" | ");
                reveal_strlit("\n");
            }
            out.append(" | ");
            out.append(row[c].as_str());
            out.append("\n");
            proof {
                assert(row@[c as int]@ == b[r as int][c as int]);
                let fl = field_line(h[c as int], b[r as int][c as int], kw as nat);
                assert(blk[c as int + 1] == fl);
                lemma_text_push(prev + blk.subrange(0, c as int + 1), fl);
                assert((prev + blk.subrange(0, c as int + 1)).push(fl) =~= prev + blk.subrange(
                    0,
                    c as int + 2,
                ));
                assert(out@ =~= before + fl + seq!['\n']);
            }
            c = c + 1;
        }
        assert(blk.subrange(0, m as int + 1) =~= blk);
        r = r + 1;
    }
}

/// The longest key, in characters.
fn key_width_exec(header: &Vec<String>) -> (r: usize)
    ensures
        r as nat == key_width(strs(header@), header@.len() as int),
{
    let ghost h = strs(header@);
    let mut w: usize = 0;
    let mut c: usize = 0;
    while c < header.len()
        invariant
            c <= header@.len(),
            h == strs(header@),
            w as nat == key_width(h, c as int),
        decreases header@.len() - c,
    {
        let l = header[c].as_str().unicode_len();
        if l > w {
            w = l;
        }
        c = c + 1;
    }
    w
}

/// Every one of the first `k` keys fits the key width.
pub proof fn lemma_key_width_bound(h: Seq<Seq<char>>, k: int)
    requires
        0 <= k <= h.len(),
    ensures
        forall|q: int| 0 <= q < k ==> (#[trigger] h[q]).len() <= key_width(h, k),
    decreases k,
{
    if k > 0 {
        lemma_key_width_bound(h, k - 1);
    }
}

/// Writes a table in the given layout to `out`: the column names and rows
/// are cut down by the filters (see `InputExtract::extract`), then written.
pub fn table_data_write(
    column_names: &Vec<String>,
    rows: &Vec<Vec<String>>,
    has_header: bool,
    filter_col: &Vec<bool>,
    filter_row: &Vec<bool>,
    output_format: TableOutputFormat,
    out: &mut String,
)
    ensures
        final(out)@ == old(out)@ + text_of(
            lines_of(
                output_format,
                extract_header(strs(column_names@), table_of(rows@), has_header, filter_col@),
                extract_body(
                    strs(column_names@),
                    table_of(rows@),
                    has_header,
                    filter_col@,
                    filter_row@,
                ),
            ),
        ),
{
    let x = InputExtract::extract(column_names, rows, has_header, filter_col, filter_row);
    output_format.extract_write(&x, out);
}

/// In every line of the grid, header and body alike, each cell padded for its
/// column is exactly as long as that column's width.
pub proof fn law_grid_cell_width(h: Seq<Seq<char>>, b: Seq<Seq<Seq<char>>>)
    requires
        rectangular(h, b),
    ensures
        forall|c: int|
            0 <= c < h.len() ==> (#[trigger] pad(h[c], widths_of(h, b)[c])).len() == widths_of(
                h,
                b,
            )[c],
        forall|r: int, c: int|
            0 <= r < b.len() && 0 <= c < h.len() ==> (#[trigger] pad(
                b[r][c],
                widths_of(h, b)[c],
            )).len() == widths_of(h, b)[c],
{
    lemma_widths_bound(h, b);
}

/// The grid has one body line per data row that passes the row filter, below
/// the header line and the rule, also when no row passes; it is empty when no
/// column passes or the table has no data row.
pub proof fn law_grid_row_count(
    names: Seq<Seq<char>>,
    rows: Seq<Seq<Seq<char>>>,
    has_header: bool,
    col_mask: Seq<bool>,
    row_mask: Seq<bool>,
)
    ensures
        ({
            let h = extract_header(names, rows, has_header, col_mask);
            let b = extract_body(names, rows, has_header, col_mask, row_mask);
            let n = count_kept(row_mask, data_rows(rows, has_header).len() as int);
            &&& h.len() == (if data_rows(rows, has_header).len() == 0 {
                0
            } else {
                count_kept(col_mask, names.len() as int)
            })
            &&& b.len() == n
            &&& h.len() > 0 ==> grid_lines(h, b).len() == n + 2
            &&& h.len() > 0 ==> grid_lines(h, b)[0] == row_line(h, widths_of(h, b))
            &&& h.len() > 0 ==> grid_lines(h, b)[1] == rule_line(widths_of(h, b))
            &&& h.len() > 0 ==> forall|r: int|
                0 <= r < n ==> #[trigger] grid_lines(h, b)[r + 2] == row_line(b[r], widths_of(h, b))
            &&& h.len() == 0 ==> grid_lines(h, b).len() == 0
        }),
{
    let d = data_rows(rows, has_header);
    lemma_pick_len_same(d, d, row_mask);
    lemma_pick_len_same(names, names, col_mask);
}

/// Where block `k` of the records layout begins, for `m` columns.
pub open spec fn block_start(k: int, m: int) -> int {
    k * (m + 1)
}

/// No character of `l` is a bar `|`.
pub open spec fn no_bar(l: Seq<char>) -> bool {
    forall|q: int| 0 <= q < l.len() ==> l[q] != '|'
}

proof fn lemma_dec_no_bar(n: nat)
    ensures
        no_bar(dec(n)),
    decreases n,
{
    assert forall|i: int| 0 <= i < 10 implies #[trigger] digits()[i] != '|' by {}
    if n >= 10 {
        lemma_dec_no_bar(n / 10);
    }
}

/// A marker line holds no bar.
pub proof fn lemma_marker_no_bar(n: nat)
    ensures
        no_bar(marker(n)),
{
    lemma_dec_no_bar(n);
}

proof fn lemma_records_upto(h: Seq<Seq<char>>, b: Seq<Seq<Seq<char>>>, k: int)
    requires
        0 <= k <= b.len(),
        h.len() > 0,
    ensures
        records_upto(h, b, k).len() == block_start(k, h.len() as int),
        forall|j: int|
            0 <= j < k ==> records_upto(h, b, k)[#[trigger] block_start(j, h.len() as int)]
                == marker((j + 1) as nat),
        forall|i: int|
            0 <= i < records_upto(h, b, k).len() && no_bar(#[trigger] records_upto(h, b, k)[i])
                ==> exists|t: int| 0 <= t < k && i == #[trigger] block_start(t, h.len() as int),
    decreases k,
{
    let m = h.len() as int;
    if k > 0 {
        lemma_records_upto(h, b, k - 1);
        lemma_key_width_bound(h, m);
        let kw = key_width(h, m);
        let pl = records_upto(h, b, k - 1);
        let bl = block_lines(h, b[k - 1], k as nat);
        let all = records_upto(h, b, k);
        assert(block_start(k - 1, m) + (m + 1) == block_start(k, m)) by (nonlinear_arith);
        assert forall|i: int| 0 <= i < all.len() && no_bar(#[trigger] all[i]) implies exists|t: int|
            0 <= t < k && i == #[trigger] block_start(t, m) by {
            let s0 = block_start(k - 1, m);
            if i < s0 {
                assert(all[i] == pl[i]);
                let t = choose|t: int| 0 <= t < k - 1 && i == #[trigger] block_start(t, m);
                assert(block_start(t, m) == i);
            } else if i == s0 {
                assert(block_start(k - 1, m) == i);
            } else {
                let c = i - s0 - 1;
                assert(0 <= c < m);
                assert(all[i] == bl[c + 1]);
                assert(h[c].len() <= kw);
                let fl = field_line(h[c], b[k - 1][c], kw);
                assert(bl[c + 1] == fl);
                assert(pad(h[c], kw).len() == kw);
                assert(fl[kw as int + 1] == '|');
                assert(false);
            }
        }
        let p = records_upto(h, b, k - 1);
        let blk = block_lines(h, b[k - 1], k as nat);
        assert(blk.len() == m + 1);
        assert(block_start(k - 1, m) + (m + 1) == block_start(k, m)) by (nonlinear_arith);
        assert forall|j: int| 0 <= j < k implies records_upto(h, b, k)[#[trigger] block_start(
            j,
            m,
        )] == marker((j + 1) as nat) by {
            if j < k - 1 {
                assert(block_start(j, m) + (m + 1) <= block_start(k - 1, m)) by (nonlinear_arith)
                    requires
                        0 <= j < k - 1,
                        m > 0,
                ;
                assert(block_start(j, m) >= 0) by (nonlinear_arith)
                    requires
                        0 <= j,
                        m > 0,
                ;
                assert(records_upto(h, b, k)[block_start(j, m)] == p[block_start(j, m)]);
            } else {
                assert(records_upto(h, b, k)[block_start(j, m)] == blk[0]);
            }
        };
    }
}

/// The records layout has one block per data row that passes the row filter:
/// block `k` opens with the marker of record `k + 1`, for each `k` below their
/// number, and holds one line per column after it; no line but those that
/// open a block is a marker.
pub proof fn law_record_blocks(
    names: Seq<Seq<char>>,
    rows: Seq<Seq<Seq<char>>>,
    has_header: bool,
    col_mask: Seq<bool>,
    row_mask: Seq<bool>,
)
    ensures
        ({
            let h = extract_header(names, rows, has_header, col_mask);
            let b = extract_body(names, rows, has_header, col_mask, row_mask);
            let n = count_kept(row_mask, data_rows(rows, has_header).len() as int);
            let lines = records_lines(h, b);
            &&& h.len() > 0 ==> lines.len() == block_start(n as int, h.len() as int)
            &&& h.len() > 0 ==> forall|k: int|
                0 <= k < n ==> lines[#[trigger] block_start(k, h.len() as int)] == marker(
                    (k + 1) as nat,
                )
            &&& h.len() > 0 ==> forall|i: int, j: nat|
                0 <= i < lines.len() && #[trigger] lines[i] == #[trigger] marker(j) ==> exists|
                    k: int,
                | 0 <= k < n && i == #[trigger] block_start(k, h.len() as int)
            &&& h.len() == 0 ==> lines.len() == 0
        }),
{
    let d = data_rows(rows, has_header);
    lemma_pick_len_same(d, d, row_mask);
    let h = extract_header(names, rows, has_header, col_mask);
    let b = extract_body(names, rows, has_header, col_mask, row_mask);
    if h.len() > 0 {
        lemma_records_upto(h, b, b.len() as int);
        let lines = records_lines(h, b);
        let n = count_kept(row_mask, d.len() as int);
        assert forall|i: int, j: nat|
            0 <= i < lines.len() && #[trigger] lines[i] == #[trigger] marker(j) implies exists|
                k: int,
            | 0 <= k < n && i == #[trigger] block_start(k, h.len() as int) by {
            lemma_marker_no_bar(j);
            assert(no_bar(records_upto(h, b, b.len() as int)[i]));
        }
    }
}

/// A filter through which every position below `n` passes.
fn all_pass(n: usize) -> (r: Vec<bool>)
    ensures
        r@.len() == n,
        forall|i: int| 0 <= i < n ==> #[trigger] r@[i],
{
    let mut r: Vec<bool> = Vec::new();
    let mut i: usize = 0;
    while i < n
        invariant
            i <= n,
            r@.len() == i,
            forall|q: int| 0 <= q < i ==> #[trigger] r@[q],
        decreases n - i,
    {
        r.push(true);
        i = i + 1;
    }
    r
}

/// A filter that every position of `xs` passes keeps all of `xs`.
pub proof fn lemma_pick_all<A>(xs: Seq<A>, mask: Seq<bool>)
    requires
        forall|i: int| 0 <= i < xs.len() ==> #[trigger] keep(mask, i),
    ensures
        pick(xs, mask) == xs,
    decreases xs.len(),
{
    if xs.len() > 0 {
        assert(keep(mask, xs.len() - 1));
        lemma_pick_all(xs.drop_last(), mask);
        assert(xs.drop_last().push(xs.last()) =~= xs);
    }
}

/// A filter through which every position below `n` passes.
pub open spec fn all_true(n: nat) -> Seq<bool> {
    Seq::new(n, |i: int| true)
}

/// The header of a whole table of `n` rows: its column names, or none when it
/// has no row.
pub open spec fn shown_header(names: Seq<Seq<char>>, n: nat) -> Seq<Seq<char>> {
    if n == 0 {
        Seq::empty()
    } else {
        names
    }
}

/// A whole table as text in the given layout: every column and every row
/// passes. Where each row has a cell for each column, the text is that of the
/// column names over the rows themselves.
pub fn table_to_string(
    column_names: &Vec<String>,
    rows: &Vec<Vec<String>>,
    output_format: TableOutputFormat,
) -> (r: String)
    ensures
        r@ == text_of(
            lines_of(
                output_format,
                extract_header(
                    strs(column_names@),
                    table_of(rows@),
                    false,
                    all_true(column_names@.len()),
                ),
                extract_body(
                    strs(column_names@),
                    table_of(rows@),
                    false,
                    all_true(column_names@.len()),
                    all_true(rows@.len()),
                ),
            ),
        ),
        (forall|k: int| 0 <= k < rows@.len() ==> (#[trigger] rows@[k])@.len() == column_names@.len())
            ==> r@ == text_of(
            lines_of(
                output_format,
                shown_header(strs(column_names@), rows@.len()),
                table_of(rows@),
            ),
        ),
{
    let cols = all_pass(column_names.len());
    let keep_rows = all_pass(rows.len());
    let mut out = String::new();
    table_data_write(column_names, rows, false, &cols, &keep_rows, output_format, &mut out);
    proof {
        let names = strs(column_names@);
        let t = table_of(rows@);
        assert(cols@ =~= all_true(names.len()));
        assert(keep_rows@ =~= all_true(t.len()));
        if forall|k: int| 0 <= k < rows@.len() ==> (#[trigger] rows@[k])@.len() == column_names@.len() {
            lemma_pick_all(names, cols@);
            lemma_pick_all(t, keep_rows@);
            assert forall|k: int| 0 <= k < t.len() implies #[trigger] pick(
                full_row(t[k], names.len()),
                cols@,
            ) == t[k] by {
                assert(rows@[k]@.len() == column_names@.len());
                assert(full_row(t[k], names.len()) =~= t[k]);
                lemma_pick_all(t[k], cols@);
            };
            assert(extract_body(names, t, false, cols@, keep_rows@) =~= t);
            assert(extract_header(names, t, false, cols@) == shown_header(names, t.len()));
        }
    }
    out
}

/// The decimal form of `n`.
pub fn decimal_string(n: u64) -> (r: String)
    ensures
        r@ == dec(n as nat),
{
    let mut s = String::new();
    write_decimal(&mut s, n);
    s
}

/// The decimal form of a signed integer: a minus sign before the digits of a
/// negative one.
pub open spec fn idec(n: int) -> Seq<char> {
    if n < 0 {
        seq!['-'] + dec((-n) as nat)
    } else {
        dec(n as nat)
    }
}

/// The decimal form of `n`, with a minus sign when it is negative.
pub fn signed_decimal_string(n: i64) -> (r: String)
    ensures
        r@ == idec(n as int),
{
    let mut s = String::new();
    if n < 0 {
        proof {
            reveal_strlit("-");
        }
        s.append("-");
        let m: u64 = (-(n as i128)) as u64;
        write_decimal(&mut s, m);
        assert(s@ =~= idec(n as int));
    } else {
        write_decimal(&mut s, n as u64);
    }
    s
}

} // verus!
