//! Taking a column out of the column filter never lengthens the output.
use vstd::prelude::*;
use crate::table::{
    col_width, count_kept, data_rows, extract_body, extract_header, full_row, keep, lemma_pick_len_same,
    pick, rectangular, shape_rows, widths_of,
};
use crate::output_format::{
    block_lines, field_line, grid_lines, key_width, lemma_key_width_bound, lemma_widths_bound, lines_of,
    marker, pad, records_lines, records_upto, repeat_of, row_inner, row_line, rule_inner, rule_line,
    text_of, TableOutputFormat,
};

verus! {

/// The sum of a sequence of naturals.
pub open spec fn sum_of(ws: Seq<nat>) -> nat
    decreases ws.len(),
{
    if ws.len() == 0 {
        0
    } else {
        sum_of(ws.drop_last()) + ws.last()
    }
}

/// The length of each line with its newline.
pub open spec fn line_lens(ls: Seq<Seq<char>>) -> Seq<nat> {
    Seq::new(ls.len(), |i: int| (ls[i].len() + 1) as nat)
}

/// Where column `c` of a table with column `p` taken out stood before.
pub open spec fn shift(c: int, p: int) -> int {
    if c < p {
        c
    } else {
        c + 1
    }
}

proof fn lemma_pick_agree<A>(xs: Seq<A>, m1: Seq<bool>, m2: Seq<bool>)
    requires
        forall|i: int| 0 <= i < xs.len() ==> #[trigger] keep(m1, i) == keep(m2, i),
    ensures
        pick(xs, m1) == pick(xs, m2),
    decreases xs.len(),
{
    if xs.len() > 0 {
        assert(keep(m1, xs.len() - 1) == keep(m2, xs.len() - 1));
        lemma_pick_agree(xs.drop_last(), m1, m2);
    }
}

proof fn lemma_pick_remove<A>(xs: Seq<A>, mask: Seq<bool>, j: int)
    requires
        0 <= j < xs.len(),
        keep(mask, j),
    ensures
        count_kept(mask, j) < pick(xs, mask).len(),
        pick(xs, mask.update(j, false)) == pick(xs, mask).remove(count_kept(mask, j) as int),
    decreases xs.len(),
{
    let m2 = mask.update(j, false);
    let n = xs.len() as int;
    let ys = xs.drop_last();
    lemma_pick_len_same(xs, xs, mask);
    lemma_pick_len_same(ys, ys, mask);
    if n - 1 == j {
        assert forall|i: int| 0 <= i < ys.len() implies #[trigger] keep(mask, i) == keep(m2, i) by {}
        lemma_pick_agree(ys, mask, m2);
        assert(!keep(m2, j));
        assert(pick(ys, mask).push(xs.last()).remove(pick(ys, mask).len() as int) =~= pick(
            ys,
            mask,
        ));
    } else {
        lemma_pick_remove(ys, mask, j);
        let p = count_kept(mask, j) as int;
        assert(keep(m2, n - 1) == keep(mask, n - 1));
        if keep(mask, n - 1) {
            assert(pick(ys, mask).push(xs.last()).remove(p) =~= pick(ys, mask).remove(p).push(
                xs.last(),
            ));
        }
    }
}

proof fn lemma_col_width_remove(
    h: Seq<Seq<char>>,
    b: Seq<Seq<Seq<char>>>,
    h2: Seq<Seq<char>>,
    b2: Seq<Seq<Seq<char>>>,
    p: int,
    c: int,
)
    requires
        0 <= p < h.len(),
        0 <= c < h.len() - 1,
        rectangular(h, b),
        h2 == h.remove(p),
        b2.len() == b.len(),
        forall|r: int| 0 <= r < b.len() ==> #[trigger] b2[r] == b[r].remove(p),
    ensures
        col_width(h2, b2, c) == col_width(h, b, shift(c, p)),
    decreases b.len(),
{
    if b.len() > 0 {
        let bp = b.drop_last();
        let bp2 = b2.drop_last();
        assert(rectangular(h, bp)) by {
            assert forall|r: int| 0 <= r < bp.len() implies #[trigger] bp[r].len() == h.len() by {
                assert(bp[r] == b[r]);
            }
        }
        assert forall|r: int| 0 <= r < bp.len() implies #[trigger] bp2[r] == bp[r].remove(p) by {
            assert(bp2[r] == b2[r]);
            assert(bp[r] == b[r]);
        }
        lemma_col_width_remove(h, bp, h2, bp2, p, c);
        assert(b.last().len() == h.len());
        assert(b2.last() == b.last().remove(p));
    }
}

proof fn lemma_sum_remove(ws: Seq<nat>, p: int)
    requires
        0 <= p < ws.len(),
    ensures
        sum_of(ws.remove(p)) + ws[p] == sum_of(ws),
    decreases ws.len(),
{
    if p == ws.len() - 1 {
        assert(ws.remove(p) =~= ws.drop_last());
    } else {
        lemma_sum_remove(ws.drop_last(), p);
        assert(ws.remove(p).drop_last() =~= ws.drop_last().remove(p));
    }
}

proof fn lemma_sum_le(a: Seq<nat>, b: Seq<nat>)
    requires
        a.len() == b.len(),
        forall|i: int| 0 <= i < a.len() ==> #[trigger] a[i] <= b[i],
    ensures
        sum_of(a) <= sum_of(b),
    decreases a.len(),
{
    if a.len() > 0 {
        lemma_sum_le(a.drop_last(), b.drop_last());
    }
}

proof fn lemma_text_len(ls: Seq<Seq<char>>)
    ensures
        text_of(ls).len() == sum_of(line_lens(ls)),
    decreases ls.len(),
{
    if ls.len() > 0 {
        lemma_text_len(ls.drop_last());
        assert(line_lens(ls).drop_last() =~= line_lens(ls.drop_last()));
    }
}

proof fn lemma_text_concat(a: Seq<Seq<char>>, b: Seq<Seq<char>>)
    ensures
        text_of(a + b) == text_of(a) + text_of(b),
    decreases b.len(),
{
    if b.len() == 0 {
        assert(a + b =~= a);
        assert(text_of(a) + text_of(b) =~= text_of(a));
    } else {
        lemma_text_concat(a, b.drop_last());
        assert((a + b).drop_last() =~= a + b.drop_last());
        assert(text_of(a + b) =~= text_of(a) + text_of(b));
    }
}

/// The length of a grid line or of the rule, for these widths.
pub open spec fn grid_line_len(ws: Seq<nat>) -> nat {
    (2 + sum_of(ws) + 3 * (ws.len() - 1)) as nat
}

proof fn lemma_row_inner_len(cells: Seq<Seq<char>>, ws: Seq<nat>, k: int)
    requires
        1 <= k <= cells.len(),
        k <= ws.len(),
        forall|c: int| 0 <= c < k ==> (#[trigger] cells[c]).len() <= ws[c],
    ensures
        row_inner(cells, ws, k).len() == sum_of(ws.subrange(0, k)) + 3 * (k - 1),
        rule_inner(ws, k).len() == sum_of(ws.subrange(0, k)) + 3 * (k - 1),
    decreases k,
{
    assert(ws.subrange(0, k).drop_last() =~= ws.subrange(0, k - 1));
    if k > 1 {
        lemma_row_inner_len(cells, ws, k - 1);
        assert(cells[k - 1].len() <= ws[k - 1]);
    } else {
        assert(cells[0].len() <= ws[0]);
        assert(ws.subrange(0, 0) =~= Seq::<nat>::empty());
    }
}

proof fn lemma_uniform_text(ls: Seq<Seq<char>>, l: nat)
    requires
        forall|i: int| 0 <= i < ls.len() ==> (#[trigger] ls[i]).len() == l,
    ensures
        text_of(ls).len() == ls.len() * (l + 1),
    decreases ls.len(),
{
    if ls.len() > 0 {
        lemma_uniform_text(ls.drop_last(), l);
        assert(ls[ls.len() - 1].len() == l);
        let n = ls.len() as int;
        assert((n - 1) * (l + 1) + l + 1 == n * (l + 1)) by (nonlinear_arith);
    }
}

proof fn lemma_grid_text_len(h: Seq<Seq<char>>, b: Seq<Seq<Seq<char>>>)
    requires
        rectangular(h, b),
        h.len() > 0,
    ensures
        text_of(grid_lines(h, b)).len() == (b.len() + 2) * (grid_line_len(widths_of(h, b)) + 1),
{
    let ws = widths_of(h, b);
    let m = h.len() as int;
    lemma_widths_bound(h, b);
    assert(ws.subrange(0, m) =~= ws);
    let ls = grid_lines(h, b);
    assert forall|i: int| 0 <= i < ls.len() implies (#[trigger] ls[i]).len() == grid_line_len(
        ws,
    ) by {
        if i == 0 {
            lemma_row_inner_len(h, ws, m);
        } else if i == 1 {
            lemma_row_inner_len(h, ws, m);
        } else {
            let row = b[i - 2];
            assert(row.len() == m);
            assert forall|c: int| 0 <= c < m implies (#[trigger] row[c]).len() <= ws[c] by {}
            lemma_row_inner_len(row, ws, m);
        }
    }
    lemma_uniform_text(ls, grid_line_len(ws));
}

proof fn lemma_key_width_le(h: Seq<Seq<char>>, k: int, bound: nat)
    requires
        0 <= k <= h.len(),
        forall|i: int| 0 <= i < k ==> (#[trigger] h[i]).len() <= bound,
    ensures
        key_width(h, k) <= bound,
    decreases k,
{
    if k > 0 {
        lemma_key_width_le(h, k - 1, bound);
        assert(h[k - 1].len() <= bound);
    }
}

/// The fields of a record, as `block_lines` lays them out.
pub open spec fn fields_of(h: Seq<Seq<char>>, row: Seq<Seq<char>>) -> Seq<Seq<char>> {
    Seq::new(h.len(), |c: int| field_line(h[c], row[c], key_width(h, h.len() as int)))
}

proof fn lemma_block_le(
    h: Seq<Seq<char>>,
    row: Seq<Seq<char>>,
    h2: Seq<Seq<char>>,
    row2: Seq<Seq<char>>,
    p: int,
    k: nat,
)
    requires
        0 <= p < h.len(),
        row.len() == h.len(),
        h2 == h.remove(p),
        row2 == row.remove(p),
    ensures
        text_of(block_lines(h2, row2, k)).len() <= text_of(block_lines(h, row, k)).len(),
{
    let m = h.len() as int;
    let kw = key_width(h, m);
    let kw2 = key_width(h2, m - 1);
    lemma_key_width_bound(h, m);
    lemma_key_width_bound(h2, m - 1);
    assert forall|i: int| 0 <= i < m - 1 implies (#[trigger] h2[i]).len() <= kw by {
        assert(h2[i] == h[shift(i, p)]);
    }
    lemma_key_width_le(h2, m - 1, kw);
    let f = fields_of(h, row);
    let f2 = fields_of(h2, row2);
    assert(block_lines(h, row, k) =~= seq![marker(k)] + f);
    assert(block_lines(h2, row2, k) =~= seq![marker(k)] + f2);
    lemma_text_concat(seq![marker(k)], f);
    lemma_text_concat(seq![marker(k)], f2);
    lemma_text_len(f);
    lemma_text_len(f2);
    let l = line_lens(f);
    let l2 = line_lens(f2);
    assert forall|c: int| 0 <= c < l2.len() implies #[trigger] l2[c] <= l.remove(p)[c] by {
        let s = shift(c, p);
        assert(h2[c] == h[s]);
        assert(row2[c] == row[s]);
        assert(h[s].len() <= kw);
        assert(h2[c].len() <= kw2);
        assert(pad(h2[c], kw2).len() == kw2);
        assert(pad(h[s], kw).len() == kw);
        assert(l.remove(p)[c] == l[s]);
    }
    lemma_sum_le(l2, l.remove(p));
    lemma_sum_remove(l, p);
}

proof fn lemma_records_le(
    h: Seq<Seq<char>>,
    b: Seq<Seq<Seq<char>>>,
    h2: Seq<Seq<char>>,
    b2: Seq<Seq<Seq<char>>>,
    p: int,
    k: int,
)
    requires
        0 <= p < h.len(),
        0 <= k <= b.len(),
        rectangular(h, b),
        h2 == h.remove(p),
        b2.len() == b.len(),
        forall|r: int| 0 <= r < b.len() ==> #[trigger] b2[r] == b[r].remove(p),
    ensures
        text_of(records_upto(h2, b2, k)).len() <= text_of(records_upto(h, b, k)).len(),
    decreases k,
{
    if k > 0 {
        lemma_records_le(h, b, h2, b2, p, k - 1);
        assert(b[k - 1].len() == h.len());
        lemma_block_le(h, b[k - 1], h2, b2[k - 1], p, k as nat);
        lemma_text_concat(records_upto(h, b, k - 1), block_lines(h, b[k - 1], k as nat));
        lemma_text_concat(records_upto(h2, b2, k - 1), block_lines(h2, b2[k - 1], k as nat));
    }
}

/// Taking column `j` out of the column filter never adds characters to the
/// output, in either layout.
pub proof fn law_column_filter_monotone(
    names: Seq<Seq<char>>,
    rows: Seq<Seq<Seq<char>>>,
    has_header: bool,
    col_mask: Seq<bool>,
    row_mask: Seq<bool>,
    j: int,
    f: TableOutputFormat,
)
    requires
        0 <= j < col_mask.len(),
    ensures
        text_of(
            lines_of(
                f,
                extract_header(names, rows, has_header, col_mask.update(j, false)),
                extract_body(names, rows, has_header, col_mask.update(j, false), row_mask),
            ),
        ).len() <= text_of(
            lines_of(
                f,
                extract_header(names, rows, has_header, col_mask),
                extract_body(names, rows, has_header, col_mask, row_mask),
            ),
        ).len(),
{
    let m2 = col_mask.update(j, false);
    let h = extract_header(names, rows, has_header, col_mask);
    let b = extract_body(names, rows, has_header, col_mask, row_mask);
    let h2 = extract_header(names, rows, has_header, m2);
    let b2 = extract_body(names, rows, has_header, m2, row_mask);
    let d = pick(data_rows(rows, has_header), row_mask);
    let n = names.len();
    if data_rows(rows, has_header).len() == 0 {
        assert(b2 =~= b);
        return;
    }
    if !keep(col_mask, j) || j >= n {
        assert forall|i: int| 0 <= i < n implies #[trigger] keep(col_mask, i) == keep(m2, i) by {}
        lemma_pick_agree(names, col_mask, m2);
        assert forall|r: int| 0 <= r < d.len() implies #[trigger] b2[r] == b[r] by {
            lemma_pick_agree(full_row(d[r], n), col_mask, m2);
        }
        assert(b2 =~= b);
        return;
    }
    let p = count_kept(col_mask, j) as int;
    lemma_pick_remove(names, col_mask, j);
    assert forall|r: int| 0 <= r < d.len() implies #[trigger] b2[r] == b[r].remove(p) by {
        lemma_pick_remove(full_row(d[r], n), col_mask, j);
        lemma_pick_len_same(full_row(d[r], n), names, col_mask);
    }
    assert(rectangular(h, b)) by {
        assert forall|r: int| 0 <= r < b.len() implies #[trigger] b[r].len() == h.len() by {
            lemma_pick_len_same(full_row(d[r], n), names, col_mask);
        }
    }
    assert(rectangular(h2, b2)) by {
        assert forall|r: int| 0 <= r < b2.len() implies #[trigger] b2[r].len() == h2.len() by {
            assert(b[r].len() == h.len());
        }
    }
    match f {
        TableOutputFormat::Table => {
            if h2.len() > 0 {
                let ws = widths_of(h, b);
                let ws2 = widths_of(h2, b2);
                assert forall|c: int| 0 <= c < ws2.len() implies #[trigger] ws2[c] == ws.remove(
                    p,
                )[c] by {
                    lemma_col_width_remove(h, b, h2, b2, p, c);
                }
                assert(ws2 =~= ws.remove(p));
                lemma_sum_remove(ws, p);
                lemma_grid_text_len(h, b);
                lemma_grid_text_len(h2, b2);
                let l = grid_line_len(ws);
                let l2 = grid_line_len(ws2);
                assert(l2 <= l);
                let nb = b.len() as int;
                assert((nb + 2) * (l2 + 1) <= (nb + 2) * (l + 1)) by (nonlinear_arith)
                    requires
                        l2 <= l,
                        nb >= 0,
                ;
            }
        },
        TableOutputFormat::Records => {
            if h2.len() > 0 {
                lemma_records_le(h, b, h2, b2, p, b.len() as int);
            }
        },
    }
}

/// A column filter that keeps only columns that another keeps never gives a
/// longer output than that other, in either layout.
pub proof fn law_column_filter_subset(
    names: Seq<Seq<char>>,
    rows: Seq<Seq<Seq<char>>>,
    has_header: bool,
    col_mask: Seq<bool>,
    sub_mask: Seq<bool>,
    row_mask: Seq<bool>,
    f: TableOutputFormat,
)
    requires
        forall|i: int| #[trigger] keep(sub_mask, i) ==> keep(col_mask, i),
    ensures
        text_of(
            lines_of(
                f,
                extract_header(names, rows, has_header, sub_mask),
                extract_body(names, rows, has_header, sub_mask, row_mask),
            ),
        ).len() <= text_of(
            lines_of(
                f,
                extract_header(names, rows, has_header, col_mask),
                extract_body(names, rows, has_header, col_mask, row_mask),
            ),
        ).len(),
    decreases count_kept(col_mask, names.len() as int),
{
    let n = names.len() as int;
    if exists|j: int| 0 <= j < n && keep(col_mask, j) && !keep(sub_mask, j) {
        let j = choose|j: int| 0 <= j < n && keep(col_mask, j) && !keep(sub_mask, j);
        let m3 = col_mask.update(j, false);
        law_column_filter_monotone(names, rows, has_header, col_mask, row_mask, j, f);
        lemma_pick_remove(names, col_mask, j);
        lemma_pick_len_same(names, names, col_mask);
        lemma_pick_len_same(names, names, m3);
        assert forall|i: int| #[trigger] keep(sub_mask, i) implies keep(m3, i) by {
            assert(keep(col_mask, i));
            if i == j {
                assert(!keep(sub_mask, j));
            }
        }
        law_column_filter_subset(names, rows, has_header, m3, sub_mask, row_mask, f);
    } else {
        assert forall|i: int| 0 <= i < n implies #[trigger] keep(col_mask, i) == keep(
            sub_mask,
            i,
        ) by {
            if keep(sub_mask, i) {
                assert(keep(col_mask, i));
            }
        }
        let d = pick(data_rows(rows, has_header), row_mask);
        lemma_pick_agree(names, col_mask, sub_mask);
        let b = extract_body(names, rows, has_header, col_mask, row_mask);
        let b2 = extract_body(names, rows, has_header, sub_mask, row_mask);
        assert forall|r: int| 0 <= r < d.len() implies #[trigger] b2[r] == b[r] by {
            lemma_pick_agree(full_row(d[r], n as nat), col_mask, sub_mask);
        }
        assert(b2 =~= b);
    }
}

} // verus!
