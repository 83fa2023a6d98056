//! Sorter: stable insertion sort of the rows by one projected column,
//! numeric when both cells parse as numbers, lexicographic otherwise.

use vstd::prelude::*;

use crate::numcmp::{cell_le, cell_le_exec};

verus! {

/// The cell of row `r` in column `idx`; rows too short read as empty.
pub open spec fn cell_at(r: Seq<Seq<char>>, idx: int) -> Seq<char> {
    if 0 <= idx < r.len() {
        r[idx]
    } else {
        Seq::empty()
    }
}

/// Whether row `a` may stay before row `b` when sorting by column `idx`.
pub open spec fn row_le(a: Seq<Seq<char>>, b: Seq<Seq<char>>, idx: int) -> bool {
    cell_le(cell_at(a, idx), cell_at(b, idx))
}

/// `x` inserted into `s` behind every row that may stay before it: the
/// insertion step of a stable insertion sort.
pub open spec fn insert_sorted(s: Seq<Seq<Seq<char>>>, x: Seq<Seq<char>>, idx: int) -> Seq<
    Seq<Seq<char>>,
>
    decreases s.len(),
{
    if s.len() > 0 && !row_le(s.last(), x, idx) {
        insert_sorted(s.drop_last(), x, idx).push(s.last())
    } else {
        s.push(x)
    }
}

/// The rows sorted stably by column `idx`: each row in order inserted into
/// the sorted prefix.
pub open spec fn sort_rows_spec(rows: Seq<Seq<Seq<char>>>, idx: int) -> Seq<Seq<Seq<char>>>
    decreases rows.len(),
{
    if rows.len() == 0 {
        Seq::empty()
    } else {
        insert_sorted(sort_rows_spec(rows.drop_last(), idx), rows.last(), idx)
    }
}

/// Copies one row.
pub fn clone_row(row: &Vec<String>) -> (out: Vec<String>)
    ensures
        out.deep_view() == row.deep_view(),
{
    let mut out: Vec<String> = Vec::new();
    let n = row.len();
    let mut k: usize = 0;
    while k < n
        invariant
            k <= n,
            n == row@.len(),
            out.deep_view() =~~= row.deep_view().take(k as int),
        decreases n - k,
    {
        let ghost predv = out.deep_view();
        let c = row[k].clone();
        proof {
            assert(c@ == row.deep_view()[k as int]);
        }
        out.push(c);
        proof {
            assert(out.deep_view() =~~= predv.push(row.deep_view()[k as int]));
            assert(predv.push(row.deep_view()[k as int]) =~~= row.deep_view().take(k + 1));
        }
        k = k + 1;
    }
    proof {
        assert(row.deep_view().take(n as int) =~~= row.deep_view());
    }
    out
}

/// The cell of `row` in column `idx`, the empty text when the row is too
/// short.
fn cell_of<'a>(row: &'a Vec<String>, idx: usize) -> (c: &'a str)
    ensures
        c@ == cell_at(row.deep_view(), idx as int),
{
    if idx < row.len() {
        let c = row[idx].as_str();
        proof {
            assert(row.deep_view()[idx as int] == row@[idx as int]@);
        }
        c
    } else {
        let c = "";
        proof {
            reveal_strlit("");
            assert(c@ =~= Seq::<char>::empty());
        }
        c
    }
}

fn row_le_exec(a: &Vec<String>, b: &Vec<String>, idx: usize) -> (r: bool)
    ensures
        r == row_le(a.deep_view(), b.deep_view(), idx as int),
{
    cell_le_exec(cell_of(a, idx), cell_of(b, idx))
}

/// Inserting at the scanned position matches the recursive insertion.
pub proof fn lemma_insert_at_pub(s: Seq<Seq<Seq<char>>>, x: Seq<Seq<char>>, j: int, idx: int)
    requires
        0 <= j <= s.len(),
        forall|q: int| j <= q < s.len() ==> !row_le(s[q], x, idx),
        j > 0 ==> row_le(s[j - 1], x, idx),
    ensures
        insert_sorted(s, x, idx) == s.take(j) + seq![x] + s.skip(j),
    decreases s.len(),
{
    if j == s.len() {
        if s.len() > 0 {
            assert(row_le(s.last(), x, idx));
        }
        assert(s.take(j) + seq![x] + s.skip(j) =~= s.push(x));
    } else {
        assert(!row_le(s.last(), x, idx));
        let sp = s.drop_last();
        assert(forall|q: int| j <= q < sp.len() ==> sp[q] == s[q]);
        if j > 0 {
            assert(sp[j - 1] == s[j - 1]);
        }
        lemma_insert_at_pub(sp, x, j, idx);
        assert((sp.take(j) + seq![x] + sp.skip(j)).push(s.last()) =~= s.take(j) + seq![x] + s.skip(
            j,
        ));
    }
}

/// Sorts the rows in place, stably, by the zero-based projected column
/// `idx`; rows that do not reach the column sort as empty cells.
pub fn sort_rows(rows: &mut Vec<Vec<String>>, idx: usize)
    ensures
        final(rows).deep_view() == sort_rows_spec(old(rows).deep_view(), idx as int),
{
    let n = rows.len();
    let mut out: Vec<Vec<String>> = Vec::new();
    let mut i: usize = 0;
    proof {
        assert(old(rows).deep_view().take(0) =~= Seq::<Seq<Seq<char>>>::empty());
    }
    while i < n
        invariant
            i <= n,
            n == rows@.len(),
            rows@ == old(rows)@,
            out.deep_view() == sort_rows_spec(old(rows).deep_view().take(i as int), idx as int),
        decreases n - i,
    {
        let row = clone_row(&rows[i]);
        proof {
            assert(rows.deep_view()[i as int] == rows@[i as int].deep_view());
            assert(row.deep_view() == old(rows).deep_view()[i as int]);
        }
        let mut j = out.len();
        while j > 0 && !row_le_exec(&out[j - 1], &row, idx)
            invariant
                j <= out@.len(),
                forall|q: int| j <= q < out@.len() ==> !row_le(
                    out.deep_view()[q],
                    row.deep_view(),
                    idx as int,
                ),
            decreases j,
        {
            proof {
                assert(out.deep_view()[j - 1] == out@[j - 1].deep_view());
            }
            j = j - 1;
        }
        let ghost predv = out.deep_view();
        proof {
            if j > 0 {
                assert(out.deep_view()[j - 1] == out@[j - 1].deep_view());
            }
            lemma_insert_at_pub(predv, row.deep_view(), j as int, idx as int);
        }
        out.insert(j, row);
        proof {
            assert(out.deep_view() =~~= predv.take(j as int) + seq![
                old(rows).deep_view()[i as int],
            ] + predv.skip(j as int));
            let pre_take = old(rows).deep_view().take(i as int);
            let take1 = old(rows).deep_view().take(i + 1);
            assert(take1.drop_last() =~= pre_take);
            assert(take1.last() == old(rows).deep_view()[i as int]);
            assert(sort_rows_spec(take1, idx as int) == insert_sorted(
                sort_rows_spec(pre_take, idx as int),
                old(rows).deep_view()[i as int],
                idx as int,
            ));
        }
        i = i + 1;
    }
    proof {
        assert(old(rows).deep_view().take(n as int) =~= old(rows).deep_view());
    }
    *rows = out;
}

} // verus!
