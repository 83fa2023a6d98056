//! Laws of the pipeline, stated and proved over the same spec functions
//! the executable contracts use.

use vstd::prelude::*;

use crate::args::AppArgs;
use crate::grouper::{blank_cell, empty_row, group_from};
use crate::numcmp::{float_kind, is_float_lit, lemma_cell_le_total, lemma_cell_le_trans};
use crate::processor::{build_spec, process_spec};
use crate::render::render_lines_spec;
use crate::sorter::{cell_at, insert_sorted, row_le, sort_rows_spec};

verus! {

/// The rows are pairwise ordered on column `idx`.
pub open spec fn sorted_on(rows: Seq<Seq<Seq<char>>>, idx: int) -> bool {
    forall|i: int, j: int|
        0 <= i < j < rows.len() ==> row_le(#[trigger] rows[i], #[trigger] rows[j], idx)
}

/// The position where `x` lands in `s`: behind every row from the right
/// that must stay before it.
pub open spec fn find_pos(s: Seq<Seq<Seq<char>>>, x: Seq<Seq<char>>, idx: int) -> int
    decreases s.len(),
{
    if s.len() > 0 && !row_le(s.last(), x, idx) {
        find_pos(s.drop_last(), x, idx)
    } else {
        s.len() as int
    }
}

proof fn lemma_find_pos_props(s: Seq<Seq<Seq<char>>>, x: Seq<Seq<char>>, idx: int)
    ensures
        0 <= find_pos(s, x, idx) <= s.len(),
        forall|q: int| find_pos(s, x, idx) <= q < s.len() ==> !row_le(#[trigger] s[q], x, idx),
        find_pos(s, x, idx) > 0 ==> row_le(s[find_pos(s, x, idx) - 1], x, idx),
        insert_sorted(s, x, idx) == s.take(find_pos(s, x, idx)) + seq![x] + s.skip(
            find_pos(s, x, idx),
        ),
    decreases s.len(),
{
    let j = find_pos(s, x, idx);
    if s.len() > 0 && !row_le(s.last(), x, idx) {
        lemma_find_pos_props(s.drop_last(), x, idx);
        assert(forall|q: int| 0 <= q < s.len() - 1 ==> s.drop_last()[q] == s[q]);
    }
    crate::sorter::lemma_insert_at_pub(s, x, j, idx);
}

/// Every row of an insertion is either from `s` or is `x`.
proof fn lemma_insert_members(s: Seq<Seq<Seq<char>>>, x: Seq<Seq<char>>, idx: int, q: int)
    requires
        0 <= q < insert_sorted(s, x, idx).len(),
    ensures
        insert_sorted(s, x, idx)[q] == x || exists|p: int|
            0 <= p < s.len() && s[p] == insert_sorted(s, x, idx)[q],
{
    lemma_find_pos_props(s, x, idx);
    let j = find_pos(s, x, idx);
    if q < j {
        assert(s[q] == insert_sorted(s, x, idx)[q]);
    } else if q > j {
        assert(s[q - 1] == insert_sorted(s, x, idx)[q]);
    }
}

/// Inserting into a sorted sequence keeps it sorted, given that the order
/// is transitive among the rows at hand.
proof fn lemma_insert_keeps_sorted(s: Seq<Seq<Seq<char>>>, x: Seq<Seq<char>>, idx: int)
    requires
        sorted_on(s, idx),
        forall|a: int, b: int|
            0 <= a < s.len() && 0 <= b < s.len() ==> (row_le(#[trigger] s[a], x, idx) && row_le(
                x,
                #[trigger] s[b],
                idx,
            ) ==> row_le(s[a], s[b], idx)) && (row_le(s[a], s[b], idx) && row_le(s[b], x, idx)
                ==> row_le(s[a], x, idx)) && (row_le(x, s[a], idx) && row_le(s[a], s[b], idx)
                ==> row_le(x, s[b], idx)),
    ensures
        sorted_on(insert_sorted(s, x, idx), idx),
{
    lemma_find_pos_props(s, x, idx);
    let j = find_pos(s, x, idx);
    let r = insert_sorted(s, x, idx);
    assert forall|i: int, k: int| 0 <= i < k < r.len() implies row_le(
        #[trigger] r[i],
        #[trigger] r[k],
        idx,
    ) by {
        if i < j {
            assert(r[i] == s[i]);
        } else if i == j {
            assert(r[i] == x);
        } else {
            assert(r[i] == s[i - 1]);
        }
        if k < j {
            assert(r[k] == s[k]);
        } else if k == j {
            assert(r[k] == x);
        } else {
            assert(r[k] == s[k - 1]);
        }
        if k == j {
            // r[i] is s[i] with i < j; the row at j - 1 lets order pass on.
            if j > 0 && i < j - 1 {
                assert(row_le(s[i], s[j - 1], idx));
                assert(row_le(s[j - 1], x, idx));
            }
        } else if i == j && k > j {
            // x against a row that would not stay before it.
            assert(!row_le(s[k - 1], x, idx));
            lemma_cell_le_total(cell_at(s[k - 1], idx), cell_at(x, idx));
        }
    }
}

/// Law: sorting orders the rows pairwise on the sort column, whenever the
/// cell order is transitive among the rows' cells; elements of the result
/// come from the input.
proof fn lemma_sort_sorted_under(rows: Seq<Seq<Seq<char>>>, idx: int)
    requires
        forall|a: int, b: int, c: int|
            0 <= a < rows.len() && 0 <= b < rows.len() && 0 <= c < rows.len() ==> (row_le(
                #[trigger] rows[a],
                #[trigger] rows[b],
                idx,
            ) && row_le(rows[b], #[trigger] rows[c], idx) ==> row_le(rows[a], rows[c], idx)),
    ensures
        sorted_on(sort_rows_spec(rows, idx), idx),
        forall|q: int|
            0 <= q < sort_rows_spec(rows, idx).len() ==> exists|p: int|
                0 <= p < rows.len() && rows[p] == #[trigger] sort_rows_spec(rows, idx)[q],
        sort_rows_spec(rows, idx).len() == rows.len(),
    decreases rows.len(),
{
    if rows.len() > 0 {
        let front = rows.drop_last();
        let x = rows.last();
        assert(forall|a: int, b: int, c: int|
            0 <= a < front.len() && 0 <= b < front.len() && 0 <= c < front.len() ==> (row_le(
                #[trigger] front[a],
                #[trigger] front[b],
                idx,
            ) && row_le(front[b], #[trigger] front[c], idx) ==> row_le(front[a], front[c], idx)))
            by {
            assert(forall|p: int| 0 <= p < front.len() ==> front[p] == rows[p]);
        }
        lemma_sort_sorted_under(front, idx);
        let s = sort_rows_spec(front, idx);
        lemma_find_pos_props(s, x, idx);
        assert forall|a: int, b: int|
            0 <= a < s.len() && 0 <= b < s.len() implies (row_le(#[trigger] s[a], x, idx)
            && row_le(x, #[trigger] s[b], idx) ==> row_le(s[a], s[b], idx)) && (row_le(
            s[a],
            s[b],
            idx,
        ) && row_le(s[b], x, idx) ==> row_le(s[a], x, idx)) && (row_le(x, s[a], idx) && row_le(
            s[a],
            s[b],
            idx,
        ) ==> row_le(x, s[b], idx)) by {
            let pa = choose|p: int| 0 <= p < front.len() && front[p] == s[a];
            let pb = choose|p: int| 0 <= p < front.len() && front[p] == s[b];
            assert(front[pa] == rows[pa] && front[pb] == rows[pb]);
            assert(rows[rows.len() - 1] == x);
        }
        lemma_insert_keeps_sorted(s, x, idx);
        assert forall|q: int|
            0 <= q < sort_rows_spec(rows, idx).len() implies exists|p: int|
            0 <= p < rows.len() && rows[p] == #[trigger] sort_rows_spec(rows, idx)[q] by {
            lemma_insert_members(s, x, idx, q);
            if sort_rows_spec(rows, idx)[q] == x {
                assert(rows[rows.len() - 1] == sort_rows_spec(rows, idx)[q]);
            } else {
                let p = choose|p: int| 0 <= p < s.len() && s[p] == sort_rows_spec(rows, idx)[q];
                let p2 = choose|p2: int| 0 <= p2 < front.len() && front[p2] == s[p];
                assert(rows[p2] == sort_rows_spec(rows, idx)[q]);
            }
        }
    }
}

/// Law: on a column whose cells all parse as numbers (none of them
/// not-a-number), sorting orders the rows pairwise by the numeric cell
/// order.
pub proof fn lemma_sort_numeric_column(rows: Seq<Seq<Seq<char>>>, idx: int)
    requires
        forall|k: int|
            0 <= k < rows.len() ==> is_float_lit(cell_at(#[trigger] rows[k], idx)) && !(float_kind(
                cell_at(rows[k], idx),
            ) is Nan),
    ensures
        sorted_on(sort_rows_spec(rows, idx), idx),
{
    assert forall|a: int, b: int, c: int|
        0 <= a < rows.len() && 0 <= b < rows.len() && 0 <= c < rows.len() implies (row_le(
        #[trigger] rows[a],
        #[trigger] rows[b],
        idx,
    ) && row_le(rows[b], #[trigger] rows[c], idx) ==> row_le(rows[a], rows[c], idx)) by {
        lemma_cell_le_trans(cell_at(rows[a], idx), cell_at(rows[b], idx), cell_at(rows[c], idx));
    }
    lemma_sort_sorted_under(rows, idx);
}

/// Law: on a column where no cell parses as a number, sorting orders the
/// rows pairwise lexicographically.
pub proof fn lemma_sort_text_column(rows: Seq<Seq<Seq<char>>>, idx: int)
    requires
        forall|k: int| 0 <= k < rows.len() ==> !is_float_lit(cell_at(#[trigger] rows[k], idx)),
    ensures
        sorted_on(sort_rows_spec(rows, idx), idx),
{
    assert forall|a: int, b: int, c: int|
        0 <= a < rows.len() && 0 <= b < rows.len() && 0 <= c < rows.len() implies (row_le(
        #[trigger] rows[a],
        #[trigger] rows[b],
        idx,
    ) && row_le(rows[b], #[trigger] rows[c], idx) ==> row_le(rows[a], rows[c], idx)) by {
        lemma_cell_le_trans(cell_at(rows[a], idx), cell_at(rows[b], idx), cell_at(rows[c], idx));
    }
    lemma_sort_sorted_under(rows, idx);
}

proof fn lemma_sort_row_lengths(rows: Seq<Seq<Seq<char>>>, idx: int, n: nat)
    requires
        forall|k: int| 0 <= k < rows.len() ==> (#[trigger] rows[k]).len() == n,
    ensures
        forall|k: int|
            0 <= k < sort_rows_spec(rows, idx).len() ==> (#[trigger] sort_rows_spec(rows, idx)[k]).len()
                == n,
    decreases rows.len(),
{
    if rows.len() > 0 {
        let front = rows.drop_last();
        assert(forall|k: int| 0 <= k < front.len() ==> front[k] == rows[k]);
        lemma_sort_row_lengths(front, idx, n);
        let s = sort_rows_spec(front, idx);
        let x = rows.last();
        lemma_find_pos_props(s, x, idx);
        let j = find_pos(s, x, idx);
        assert forall|k: int|
            0 <= k < insert_sorted(s, x, idx).len() implies (#[trigger] insert_sorted(
            s,
            x,
            idx,
        )[k]).len() == n by {
            if k < j {
                assert(insert_sorted(s, x, idx)[k] == s[k]);
            } else if k == j {
                assert(insert_sorted(s, x, idx)[k] == x);
            } else {
                assert(insert_sorted(s, x, idx)[k] == s[k - 1]);
            }
        }
    }
}

proof fn lemma_group_row_lengths(rows: Seq<Seq<Seq<char>>>, idx: int, keep: bool, i: int, n: nat)
    requires
        forall|k: int| 0 <= k < rows.len() ==> (#[trigger] rows[k]).len() == n,
    ensures
        forall|k: int|
            0 <= k < group_from(rows, idx, keep, i).len() ==> (#[trigger] group_from(
                rows,
                idx,
                keep,
                i,
            )[k]).len() == n,
    decreases rows.len() - i,
{
    if 0 <= i < rows.len() {
        lemma_group_row_lengths(rows, idx, keep, i + 1, n);
        let g = group_from(rows, idx, keep, i);
        let rest = group_from(rows, idx, keep, i + 1);
        let same = i > 0 && cell_at(rows[i], idx) == cell_at(rows[i - 1], idx);
        let pre: Seq<Seq<Seq<char>>> = if i > 0 && !same {
            seq![empty_row(rows[i].len())]
        } else {
            Seq::empty()
        };
        let r = if same && !keep {
            blank_cell(rows[i], idx)
        } else {
            rows[i]
        };
        assert(empty_row(rows[i].len()).len() == n);
        assert(blank_cell(rows[i], idx).len() == n);
        assert(g == pre + seq![r] + rest);
        assert forall|k: int| 0 <= k < g.len() implies (#[trigger] g[k]).len() == n by {
            if k < pre.len() {
                assert(g[k] == empty_row(rows[i].len()));
            } else if k == pre.len() {
                assert(g[k] == r);
            } else {
                assert(g[k] == rest[k - pre.len() - 1]);
            }
        }
    }
}

/// Law: after projection every row and the header have exactly one field
/// per selected column, through sorting and grouping alike.
pub proof fn lemma_projection_lengths(lines: Seq<Seq<char>>, args: &AppArgs)
    ensures
        process_spec(lines, args) matches Ok(tv) ==> tv.headers.len() == tv.sel.len() && (forall|
            k: int,
        |
            0 <= k < tv.rows.len() ==> (#[trigger] tv.rows[k]).len() == tv.sel.len()),
{
    if process_spec(lines, args) is Ok {
        let flines = match args.filter {
            Some(p) => crate::processor::filtered_from(lines, p@, 0),
            None => lines,
        };
        assert(process_spec(lines, args) == build_spec(flines, args));
        let tv = process_spec(lines, args)->Ok_0;
        if flines.len() == 0 {
        } else {
            let ncols = tv.sel.len();
            let (hdr_raw, data) = crate::processor::header_split(flines, args);
            let rows_tok = Seq::new(
                data.len(),
                |k: int| crate::split::split_line_spec(data[k], args.sep@, args.mb),
            );
            let rows_p = Seq::new(
                rows_tok.len(),
                |k: int| crate::project::project_row(rows_tok[k], tv.sel),
            );
            assert(forall|k: int| 0 <= k < rows_p.len() ==> (#[trigger] rows_p[k]).len() == ncols);
            let rows_s = match args.sortcol {
                Some(v) => if 1 <= v <= tv.sel.len() {
                    sort_rows_spec(rows_p, v - 1)
                } else {
                    rows_p
                },
                None => rows_p,
            };
            match args.sortcol {
                Some(v) => {
                    if 1 <= v <= tv.sel.len() {
                        lemma_sort_row_lengths(rows_p, v - 1, ncols);
                    }
                },
                None => {},
            }
            assert(forall|k: int| 0 <= k < rows_s.len() ==> (#[trigger] rows_s[k]).len() == ncols);
            let rows_g = match args.gcol {
                Some(g) => if 1 <= g <= tv.sel.len() {
                    crate::grouper::group_spec(rows_s, g - 1, args.gcolval)
                } else {
                    rows_s
                },
                None => rows_s,
            };
            match args.gcol {
                Some(g) => {
                    if 1 <= g <= tv.sel.len() {
                        lemma_group_row_lengths(rows_s, g - 1, args.gcolval, 0, ncols);
                    }
                },
                None => {},
            }
            assert(tv.rows == rows_g);
            assert(forall|k: int| 0 <= k < rows_g.len() ==> (#[trigger] rows_g[k]).len() == ncols);
            assert(tv.headers.len() == tv.sel.len());
        }
    }
}

/// Law: rendering is a function of the table and the configuration alone,
/// so rendering the same table twice gives byte-identical lines.
pub proof fn lemma_render_deterministic(
    out1: Seq<Seq<char>>,
    out2: Seq<Seq<char>>,
    headers: Seq<Seq<char>>,
    rows: Seq<Seq<Seq<char>>>,
    sel: Seq<int>,
    args: &AppArgs,
)
    requires
        out1 == render_lines_spec(headers, rows, sel, args),
        out2 == render_lines_spec(headers, rows, sel, args),
    ensures
        out1 == out2,
{
}

} // verus!
