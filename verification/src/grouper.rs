//! Grouper: collapses consecutive repeated values in one projected column
//! and inserts blank separator rows at group boundaries.

use vstd::prelude::*;
use vstd::pervasive::VecAdditionalExecFns;

use crate::sorter::{cell_at, clone_row};

verus! {

/// A synthetic separator row: `n` empty fields.
pub open spec fn empty_row(n: nat) -> Seq<Seq<char>> {
    Seq::new(n, |k: int| Seq::<char>::empty())
}

/// Row `r` with the cell in column `idx` blanked, when the row reaches it.
pub open spec fn blank_cell(r: Seq<Seq<char>>, idx: int) -> Seq<Seq<char>> {
    if 0 <= idx < r.len() {
        r.update(idx, Seq::<char>::empty())
    } else {
        r
    }
}

/// The grouped rows from position `i` on.  A row whose group cell differs
/// from the previous row's gets one separator row in front; a repeat is
/// blanked unless `keep` is set.  Comparison always reads the original
/// cells, never a blanked one.
pub open spec fn group_from(rows: Seq<Seq<Seq<char>>>, idx: int, keep: bool, i: int) -> Seq<
    Seq<Seq<char>>,
>
    decreases rows.len() - i,
{
    if i < 0 || i >= rows.len() {
        Seq::empty()
    } else {
        let same = i > 0 && cell_at(rows[i], idx) == cell_at(rows[i - 1], idx);
        let sep: Seq<Seq<Seq<char>>> = if i > 0 && !same {
            seq![empty_row(rows[i].len())]
        } else {
            Seq::empty()
        };
        let r = if same && !keep {
            blank_cell(rows[i], idx)
        } else {
            rows[i]
        };
        sep + seq![r] + group_from(rows, idx, keep, i + 1)
    }
}

/// The rows grouped by column `idx`.
pub open spec fn group_spec(rows: Seq<Seq<Seq<char>>>, idx: int, keep: bool) -> Seq<
    Seq<Seq<char>>,
> {
    group_from(rows, idx, keep, 0)
}

/// Whether the group cells of two rows hold the same text.
fn cells_equal(a: &Vec<String>, b: &Vec<String>, idx: usize) -> (r: bool)
    ensures
        r == (cell_at(a.deep_view(), idx as int) == cell_at(b.deep_view(), idx as int)),
{
    proof {
        if idx < a@.len() {
            assert(cell_at(a.deep_view(), idx as int) == a@[idx as int]@);
        }
        if idx < b@.len() {
            assert(cell_at(b.deep_view(), idx as int) == b@[idx as int]@);
        }
    }
    if idx < a.len() && idx < b.len() {
        let r = a[idx] == b[idx];
        r
    } else if idx < a.len() {
        let r = a[idx].as_str().is_empty();
        proof {
            if a@[idx as int]@.len() == 0 {
                assert(a@[idx as int]@ =~= Seq::<char>::empty());
            }
        }
        r
    } else if idx < b.len() {
        let r = b[idx].as_str().is_empty();
        proof {
            if b@[idx as int]@.len() == 0 {
                assert(b@[idx as int]@ =~= Seq::<char>::empty());
            }
        }
        r
    } else {
        true
    }
}

/// A fresh separator row of `n` empty fields.
fn make_empty_row(n: usize) -> (r: Vec<String>)
    ensures
        r.deep_view() == empty_row(n as nat),
{
    let mut out: Vec<String> = Vec::new();
    let mut k: usize = 0;
    while k < n
        invariant
            k <= n,
            out.deep_view() =~~= empty_row(k as nat),
        decreases n - k,
    {
        let ghost predv = out.deep_view();
        out.push(String::new());
        proof {
            assert(out.deep_view() =~~= predv.push(Seq::<char>::empty()));
            assert(predv.push(Seq::<char>::empty()) =~~= empty_row((k + 1) as nat));
        }
        k = k + 1;
    }
    proof {
        assert(out.deep_view() =~~= empty_row(n as nat));
    }
    out
}

/// Groups the rows in place by the zero-based projected column `idx`:
/// separator rows at group boundaries, repeats blanked unless `keep`.
pub fn group_rows(rows: &mut Vec<Vec<String>>, idx: usize, keep: bool)
    ensures
        final(rows).deep_view() == group_spec(old(rows).deep_view(), idx as int, keep),
{
    let n = rows.len();
    let mut out: Vec<Vec<String>> = Vec::new();
    let mut i: usize = 0;
    while i < n
        invariant
            i <= n,
            n == rows@.len(),
            rows@ == old(rows)@,
            group_spec(old(rows).deep_view(), idx as int, keep) == out.deep_view() + group_from(
                old(rows).deep_view(),
                idx as int,
                keep,
                i as int,
            ),
        decreases n - i,
    {
        let ghost dv = old(rows).deep_view();
        proof {
            assert(rows.deep_view()[i as int] == rows@[i as int].deep_view());
            if i > 0 {
                assert(rows.deep_view()[i - 1] == rows@[i - 1].deep_view());
            }
        }
        let same = i > 0 && cells_equal(&rows[i], &rows[i - 1], idx);
        if i > 0 && !same {
            let ghost predv = out.deep_view();
            let sep = make_empty_row(rows[i].len());
            out.push(sep);
            proof {
                assert(out.deep_view() =~~= predv.push(empty_row(dv[i as int].len())));
            }
        }
        let ghost predv = out.deep_view();
        let mut row = clone_row(&rows[i]);
        if same && !keep {
            if idx < row.len() {
                row.set(idx, String::new());
                proof {
                    assert(row.deep_view() =~~= blank_cell(dv[i as int], idx as int));
                }
            }
            proof {
                assert(row.deep_view() == blank_cell(dv[i as int], idx as int));
            }
        }
        out.push(row);
        proof {
            let r_spec = if same && !keep {
                blank_cell(dv[i as int], idx as int)
            } else {
                dv[i as int]
            };
            assert(out.deep_view() =~~= predv.push(r_spec));
            assert(group_from(dv, idx as int, keep, i as int) == (if i > 0 && !same {
                seq![empty_row(dv[i as int].len())]
            } else {
                Seq::<Seq<Seq<char>>>::empty()
            }) + seq![r_spec] + group_from(dv, idx as int, keep, i + 1));
            assert(out.deep_view() + group_from(dv, idx as int, keep, i + 1) =~~= group_spec(
                dv,
                idx as int,
                keep,
            ));
        }
        i = i + 1;
    }
    proof {
        assert(group_from(old(rows).deep_view(), idx as int, keep, n as int)
            =~= Seq::<Seq<Seq<char>>>::empty());
        assert(out.deep_view() + Seq::<Seq<Seq<char>>>::empty() =~= out.deep_view());
    }
    *rows = out;
}

} // verus!
