//! A rectangular snapshot of a table after its row and column filters, and the
//! widths of its columns.
use vstd::prelude::*;

verus! {

/// The texts of a list of strings.
pub open spec fn strs(v: Seq<String>) -> Seq<Seq<char>> {
    Seq::new(v.len(), |k: int| v[k]@)
}

/// The texts of a list of rows of strings.
pub open spec fn table_of(rows: Seq<Vec<String>>) -> Seq<Seq<Seq<char>>> {
    Seq::new(rows.len(), |k: int| strs(rows[k]@))
}

/// Position `i` passes a filter when the filter has an entry there and it is set.
pub open spec fn keep(mask: Seq<bool>, i: int) -> bool {
    0 <= i < mask.len() && mask[i]
}

/// The items of `xs` whose positions pass the filter, in their order.
pub open spec fn pick<A>(xs: Seq<A>, mask: Seq<bool>) -> Seq<A>
    decreases xs.len(),
{
    if xs.len() == 0 {
        Seq::empty()
    } else if keep(mask, xs.len() - 1) {
        pick(xs.drop_last(), mask).push(xs.last())
    } else {
        pick(xs.drop_last(), mask)
    }
}

/// The number of positions below `n` that pass the filter.
pub open spec fn count_kept(mask: Seq<bool>, n: int) -> nat
    decreases n,
{
    if n <= 0 {
        0
    } else if keep(mask, n - 1) {
        count_kept(mask, n - 1) + 1
    } else {
        count_kept(mask, n - 1)
    }
}

/// The cell of a row in column `c`; a missing cell is empty.
pub open spec fn cell_of(row: Seq<Seq<char>>, c: int) -> Seq<char> {
    if 0 <= c < row.len() {
        row[c]
    } else {
        Seq::empty()
    }
}

/// A row cut or filled with empty cells to `n` columns.
pub open spec fn full_row(row: Seq<Seq<char>>, n: nat) -> Seq<Seq<char>> {
    Seq::new(n, |c: int| cell_of(row, c))
}

/// The data rows: without the first row when it is the header.
pub open spec fn data_rows(rows: Seq<Seq<Seq<char>>>, has_header: bool) -> Seq<Seq<Seq<char>>> {
    if has_header && rows.len() > 0 {
        rows.drop_first()
    } else {
        rows
    }
}

/// Each row brought to `n` columns, then cut down to the filtered columns.
pub open spec fn shape_rows(rs: Seq<Seq<Seq<char>>>, n: nat, col_mask: Seq<bool>) -> Seq<
    Seq<Seq<char>>,
> {
    Seq::new(rs.len(), |k: int| pick(full_row(rs[k], n), col_mask))
}

/// The header of the extract: the column names that pass the column filter;
/// none when the table has no data row, since then there are no records whose
/// fields would make up the columns.
pub open spec fn extract_header(
    names: Seq<Seq<char>>,
    rows: Seq<Seq<Seq<char>>>,
    has_header: bool,
    col_mask: Seq<bool>,
) -> Seq<Seq<char>> {
    if data_rows(rows, has_header).len() == 0 {
        Seq::empty()
    } else {
        pick(names, col_mask)
    }
}

/// The body of the extract: the data rows that pass the row filter, each with
/// the cells of the columns that pass the column filter.
pub open spec fn extract_body(
    names: Seq<Seq<char>>,
    rows: Seq<Seq<Seq<char>>>,
    has_header: bool,
    col_mask: Seq<bool>,
    row_mask: Seq<bool>,
) -> Seq<Seq<Seq<char>>> {
    shape_rows(pick(data_rows(rows, has_header), row_mask), names.len(), col_mask)
}

/// Every row has one cell per header column.
pub open spec fn rectangular(h: Seq<Seq<char>>, b: Seq<Seq<Seq<char>>>) -> bool {
    forall|r: int| 0 <= r < b.len() ==> #[trigger] b[r].len() == h.len()
}

/// The width of column `c`: the longest of its header and its cells, in characters.
pub open spec fn col_width(h: Seq<Seq<char>>, b: Seq<Seq<Seq<char>>>, c: int) -> nat
    decreases b.len(),
{
    if b.len() == 0 {
        h[c].len()
    } else {
        let w = col_width(h, b.drop_last(), c);
        let l = b.last()[c].len();
        if l > w {
            l
        } else {
            w
        }
    }
}

/// The widths of all columns.
pub open spec fn widths_of(h: Seq<Seq<char>>, b: Seq<Seq<Seq<char>>>) -> Seq<nat> {
    Seq::new(h.len(), |c: int| col_width(h, b, c))
}

/// A rectangular snapshot of a table, ready to be written out.
pub struct InputExtract {
    header: Vec<String>,
    body: Vec<Vec<String>>,
    widths: Vec<usize>,
}

impl InputExtract {
    /// The header cells.
    pub closed spec fn header_view(&self) -> Seq<Seq<char>> {
        strs(self.header@)
    }

    /// The body rows.
    pub closed spec fn body_view(&self) -> Seq<Seq<Seq<char>>> {
        table_of(self.body@)
    }

    /// Rows as wide as the header, and the widths of the columns at hand.
    pub closed spec fn wf(&self) -> bool {
        &&& rectangular(self.header_view(), self.body_view())
        &&& self.widths@.len() == self.header@.len()
        &&& forall|c: int|
            0 <= c < self.widths@.len() ==> #[trigger] self.widths@[c] as nat == col_width(
                self.header_view(),
                self.body_view(),
                c,
            )
    }

    /// The column names that passed the column filter.
    pub fn header(&self) -> (r: &Vec<String>)
        ensures
            strs(r@) == self.header_view(),
    {
        &self.header
    }

    /// The rows that passed the row filter, one cell per column.
    pub fn body(&self) -> (r: &Vec<Vec<String>>)
        ensures
            table_of(r@) == self.body_view(),
            self.wf() ==> rectangular(self.header_view(), self.body_view()),
    {
        &self.body
    }

    /// The width of each column, in characters.
    pub fn widths(&self) -> (r: &Vec<usize>)
        requires
            self.wf(),
        ensures
            r@.len() == self.header_view().len(),
            forall|c: int|
                0 <= c < r@.len() ==> #[trigger] r@[c] as nat == col_width(
                    self.header_view(),
                    self.body_view(),
                    c,
                ),
    {
        &self.widths
    }

    /// Builds the snapshot of a table: the column names that pass `filter_col`;
    /// the data rows (all of `rows`, or all but the first when it is the
    /// header) that pass `filter_row`, each brought to one cell per column name
    /// and cut to the same columns; and the width of each column.
    pub fn extract(
        column_names: &Vec<String>,
        rows: &Vec<Vec<String>>,
        has_header: bool,
        filter_col: &Vec<bool>,
        filter_row: &Vec<bool>,
    ) -> (r: InputExtract)
        ensures
            r.wf(),
            r.header_view() == extract_header(
                strs(column_names@),
                table_of(rows@),
                has_header,
                filter_col@,
            ),
            r.body_view() == extract_body(
                strs(column_names@),
                table_of(rows@),
                has_header,
                filter_col@,
                filter_row@,
            ),
    {
        let ghost names = strs(column_names@);
        let n = column_names.len();
        let mut picked: Vec<String> = Vec::new();
        let mut i: usize = 0;
        while i < n
            invariant
                i <= n == column_names@.len() == names.len(),
                names == strs(column_names@),
                strs(picked@) == pick(names.subrange(0, i as int), filter_col@),
            decreases n - i,
        {
            assert(names.subrange(0, i as int + 1).drop_last() =~= names.subrange(0, i as int));
            if i < filter_col.len() && filter_col[i] {
                let ghost before = strs(picked@);
                picked.push(column_names[i].clone());
                assert(strs(picked@) =~= before.push(names[i as int]));
            }
            i = i + 1;
        }
        assert(names.subrange(0, n as int) =~= names);

        let ghost all = table_of(rows@);
        let ghost data = data_rows(all, has_header);
        let start: usize = if has_header && rows.len() > 0 {
            1
        } else {
            0
        };
        assert(data =~= all.subrange(start as int, all.len() as int));
        let header = if rows.len() > start {
            picked
        } else {
            Vec::new()
        };
        assert(strs(header@) =~= extract_header(names, all, has_header, filter_col@));
        let mut body: Vec<Vec<String>> = Vec::new();
        let mut k: usize = start;
        while k < rows.len()
            invariant
                start <= k <= rows@.len() == all.len(),
                all == table_of(rows@),
                data == all.subrange(start as int, all.len() as int),
                n == names.len(),
                names == strs(column_names@),
                table_of(body@) == shape_rows(
                    pick(data.subrange(0, k - start), filter_row@),
                    n as nat,
                    filter_col@,
                ),
            decreases rows@.len() - k,
        {
            let d = k - start;
            assert(data.subrange(0, d as int + 1).drop_last() =~= data.subrange(0, d as int));
            assert(data[d as int] == all[k as int]);
            if d < filter_row.len() && filter_row[d] {
                let cells = pick_cells(&rows[k], n, filter_col);
                let ghost before = pick(data.subrange(0, d as int), filter_row@);
                let ghost tb = table_of(body@);
                body.push(cells);
                assert(table_of(body@) =~= tb.push(strs(cells@)));
                assert(shape_rows(before.push(all[k as int]), n as nat, filter_col@) =~= shape_rows(
                    before,
                    n as nat,
                    filter_col@,
                ).push(strs(cells@)));
            }
            k = k + 1;
        }
        assert(data.subrange(0, rows.len() - start) =~= data);
        let ghost hv = strs(header@);
        let ghost bv = table_of(body@);
        proof {
            lemma_pick_len_same(data, data, filter_row@);
            assert forall|r: int| 0 <= r < bv.len() implies #[trigger] bv[r].len() == hv.len() by {
                let src = pick(data, filter_row@);
                lemma_pick_len_same(full_row(src[r], n as nat), names, filter_col@);
            };
        }
        let m = header.len();
        let mut widths: Vec<usize> = Vec::new();
        let mut c: usize = 0;
        while c < m
            invariant
                c <= m == hv.len() == header@.len(),
                hv == strs(header@),
                bv == table_of(body@),
                rectangular(hv, bv),
                widths@.len() == c,
                forall|q: int| 0 <= q < c ==> #[trigger] widths@[q] as nat == col_width(hv, bv, q),
            decreases m - c,
        {
            let mut w = header[c].as_str().unicode_len();
            let mut r: usize = 0;
            while r < body.len()
                invariant
                    c < m == hv.len() == header@.len(),
                    hv == strs(header@),
                    bv == table_of(body@),
                    rectangular(hv, bv),
                    r <= body@.len() == bv.len(),
                    w as nat == col_width(hv, bv.subrange(0, r as int), c as int),
                decreases body@.len() - r,
            {
                assert(bv.subrange(0, r as int + 1).drop_last() =~= bv.subrange(0, r as int));
                assert(bv[r as int].len() == hv.len());
                let l = body[r][c].as_str().unicode_len();
                if l > w {
                    w = l;
                }
                r = r + 1;
            }
            assert(bv.subrange(0, body.len() as int) =~= bv);
            widths.push(w);
            c = c + 1;
        }
        InputExtract { header, body, widths }
    }
}

/// Filters of equal length keep equally many items.
pub proof fn lemma_pick_len_same<A, B>(xs: Seq<A>, ys: Seq<B>, mask: Seq<bool>)
    requires
        xs.len() == ys.len(),
    ensures
        pick(xs, mask).len() == pick(ys, mask).len(),
        pick(xs, mask).len() == count_kept(mask, xs.len() as int),
    decreases xs.len(),
{
    if xs.len() > 0 {
        lemma_pick_len_same(xs.drop_last(), ys.drop_last(), mask);
    }
}

/// The cells of `row` in the columns below `n` that pass the filter; a
/// missing cell is empty.
fn pick_cells(row: &Vec<String>, n: usize, filter_col: &Vec<bool>) -> (r: Vec<String>)
    ensures
        strs(r@) == pick(full_row(strs(row@), n as nat), filter_col@),
{
    let ghost full = full_row(strs(row@), n as nat);
    let mut out: Vec<String> = Vec::new();
    let mut c: usize = 0;
    while c < n
        invariant
            c <= n,
            full == full_row(strs(row@), n as nat),
            strs(out@) == pick(full.subrange(0, c as int), filter_col@),
        decreases n - c,
    {
        assert(full.subrange(0, c as int + 1).drop_last() =~= full.subrange(0, c as int));
        if c < filter_col.len() && filter_col[c] {
            let cell = if c < row.len() {
                row[c].clone()
            } else {
                String::new()
            };
            let ghost before = strs(out@);
            out.push(cell);
            assert(strs(out@) =~= before.push(full[c as int]));
        }
        c = c + 1;
    }
    assert(full.subrange(0, n as int) =~= full);
    out
}

} // verus!
