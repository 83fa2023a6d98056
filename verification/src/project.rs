//! Column projector: parses column choices (single 1-based indices,
//! ascending and descending ranges) into a concrete output-column order and
//! re-maps rows and headers through it.

use vstd::prelude::*;

use crate::numcmp::{digit_seq, digits_end, digits_scan, digits_val, lemma_digits_val_concat,
    lemma_pow10_le, pow10};
use crate::split::{lit_split, split_line};

verus! {

/// The value `s` names as an unsigned decimal: an optional `+`, then one or
/// more digits, rejected when it does not fit the machine word.
pub open spec fn usize_of(s: Seq<char>) -> Option<int> {
    let i0: int = if s.len() > 0 && s[0] == '+' {
        1
    } else {
        0
    };
    if s.len() > i0 && digits_end(s, i0) == s.len() {
        let v = digits_val(digit_seq(s, i0, s.len() as int));
        if v <= usize::MAX {
            Some(v as int)
        } else {
            None
        }
    } else {
        None
    }
}

/// Reads an unsigned decimal, as the column specs use them.
pub fn parse_usize(s: &str) -> (r: Option<usize>)
    ensures
        (r is Some) == (usize_of(s@) is Some),
        r is Some ==> r->0 as int == usize_of(s@)->0,
{
    let n = s.unicode_len();
    let i0: usize = if n > 0 && s.get_char(0) == '+' {
        1
    } else {
        0
    };
    if n == i0 {
        return None;
    }
    let de = digits_scan(s, i0);
    if de != n {
        return None;
    }
    let ghost dall = digit_seq(s@, i0 as int, n as int);
    let mut acc: usize = 0;
    let mut j = i0;
    while j < n
        invariant
            i0 <= j <= n,
            n == s@.len(),
            i0 as int == (if s@.len() > 0 && s@[0] == '+' {
                1int
            } else {
                0int
            }),
            digits_end(s@, i0 as int) == n,
            forall|k: int| i0 <= k < n ==> crate::chars::is_digit_char(s@[k]),
            dall == digit_seq(s@, i0 as int, n as int),
            acc as nat == digits_val(digit_seq(s@, i0 as int, j as int)),
        decreases n - j,
    {
        let c = s.get_char(j);
        let d = ((c as u32) - 48) as usize;
        proof {
            assert(digit_seq(s@, i0 as int, j + 1).drop_last() =~= digit_seq(
                s@,
                i0 as int,
                j as int,
            ));
            assert(digit_seq(s@, i0 as int, j + 1).last() == d);
            assert(dall =~= digit_seq(s@, i0 as int, j + 1) + digit_seq(s@, j + 1, n as int));
            lemma_digits_val_concat(digit_seq(s@, i0 as int, j + 1), digit_seq(s@, j + 1, n as int));
            lemma_pow10_le(0, (n - j - 1) as nat);
        }
        let ghost pv = digits_val(digit_seq(s@, i0 as int, j + 1)) as int;
        let ghost rv = digits_val(digit_seq(s@, j + 1, n as int)) as int;
        let ghost pw = pow10((n - j - 1) as nat) as int;
        proof {
            assert(pv * pw + rv >= pv) by (nonlinear_arith)
                requires
                    pw >= 1,
                    pv >= 0,
                    rv >= 0,
            ;
            assert(digits_val(dall) as int == pv * pw + rv);
            assert(pv == acc * 10 + d);
        }
        if acc > usize::MAX / 10 {
            proof {
                assert(usize::MAX / 10 * 10 + usize::MAX % 10 == usize::MAX);
            }
            return None;
        }
        let acc10 = acc * 10;
        if d > usize::MAX - acc10 {
            return None;
        }
        acc = acc10 + d;
        j = j + 1;
    }
    proof {
        assert(digit_seq(s@, i0 as int, n as int) == dall);
    }
    Some(acc)
}

/// Zero-based source indices named by the 1-based inclusive range
/// `start:end`; a reversed range counts down.
pub open spec fn range_indices(start: int, end: int) -> Seq<int> {
    if start <= end {
        Seq::new((end - start + 1) as nat, |k: int| start - 1 + k)
    } else {
        Seq::new((start - end + 1) as nat, |k: int| start - 1 - k)
    }
}

pub open spec fn has_colon(s: Seq<char>) -> bool {
    exists|k: int| 0 <= k < s.len() && s[k] == ':'
}

/// Zero-based source indices named by one column spec, or the error message
/// it provokes: a bare index must be a positive decimal, a range has
/// exactly two positive decimal endpoints.
pub open spec fn parse_one_spec(s: Seq<char>) -> Result<Seq<int>, Seq<char>> {
    if has_colon(s) {
        let parts = lit_split(s, seq![':']);
        if parts.len() != 2 {
            Err("Invalid range format: "@ + s)
        } else {
            match usize_of(parts[0]) {
                None => Err("Invalid range start: "@ + parts[0]),
                Some(start) => match usize_of(parts[1]) {
                    None => Err("Invalid range end: "@ + parts[1]),
                    Some(end) => if start == 0 || end == 0 {
                        Err("Column numbers must be 1-based"@)
                    } else {
                        Ok(range_indices(start, end))
                    },
                },
            }
        }
    } else {
        match usize_of(s) {
            None => Err("Invalid column number: "@ + s),
            Some(v) => if v == 0 {
                Err("Column numbers must be 1-based"@)
            } else {
                Ok(seq![v - 1])
            },
        }
    }
}

/// Zero-based source indices named by a list of column specs, resolved in
/// order and concatenated; the first invalid spec decides the error.
pub open spec fn parse_cols_spec(cols: Seq<Seq<char>>) -> Result<Seq<int>, Seq<char>>
    decreases cols.len(),
{
    if cols.len() == 0 {
        Ok(Seq::empty())
    } else {
        match parse_one_spec(cols[0]) {
            Err(m) => Err(m),
            Ok(ix) => match parse_cols_spec(cols.drop_first()) {
                Err(m) => Err(m),
                Ok(rest) => Ok(ix + rest),
            },
        }
    }
}

fn find_colon(s: &str) -> (r: bool)
    ensures
        r == has_colon(s@),
{
    let n = s.unicode_len();
    let mut j: usize = 0;
    while j < n
        invariant
            j <= n,
            n == s@.len(),
            forall|k: int| 0 <= k < j ==> s@[k] != ':',
        decreases n - j,
    {
        if s.get_char(j) == ':' {
            return true;
        }
        j = j + 1;
    }
    false
}

/// Pushes the zero-based indices of the range `start:end` (both positive).
fn push_range(out: &mut Vec<usize>, start: usize, end: usize)
    requires
        start >= 1,
        end >= 1,
    ensures
        final(out)@.map_values(|u: usize| u as int) == old(out)@.map_values(|u: usize| u as int)
            + range_indices(start as int, end as int),
{
    let ghost base = out@.map_values(|u: usize| u as int);
    if start <= end {
        let count = end - start + 1;
        let mut j: usize = 0;
        while j < count
            invariant
                j <= count,
                count == end - start + 1,
                start >= 1,
                start <= end,
                out@.map_values(|u: usize| u as int) =~= base + Seq::new(
                    j as nat,
                    |k: int| start - 1 + k,
                ),
            decreases count - j,
        {
            let ghost pre = out@.map_values(|u: usize| u as int);
            out.push(start - 1 + j);
            proof {
                assert(out@.map_values(|u: usize| u as int) =~= pre.push(start - 1 + j as int));
                assert(pre.push(start - 1 + j as int) =~= base + Seq::new(
                    (j + 1) as nat,
                    |k: int| start - 1 + k,
                ));
            }
            j = j + 1;
        }
        proof {
            assert(base + Seq::new(count as nat, |k: int| start - 1 + k) =~= base + range_indices(
                start as int,
                end as int,
            ));
        }
    } else {
        let count = start - end + 1;
        let mut j: usize = 0;
        while j < count
            invariant
                j <= count,
                count == start - end + 1,
                end >= 1,
                end < start,
                out@.map_values(|u: usize| u as int) =~= base + Seq::new(
                    j as nat,
                    |k: int| start - 1 - k,
                ),
            decreases count - j,
        {
            let ghost pre = out@.map_values(|u: usize| u as int);
            out.push(start - 1 - j);
            proof {
                assert(out@.map_values(|u: usize| u as int) =~= pre.push(start - 1 - j as int));
                assert(pre.push(start - 1 - j as int) =~= base + Seq::new(
                    (j + 1) as nat,
                    |k: int| start - 1 - k,
                ));
            }
            j = j + 1;
        }
        proof {
            assert(base + Seq::new(count as nat, |k: int| start - 1 - k) =~= base + range_indices(
                start as int,
                end as int,
            ));
        }
    }
}

/// Resolves one column spec into zero-based indices appended to `out`.
fn parse_one_exec(out: &mut Vec<usize>, s: &String) -> (r: Result<(), String>)
    ensures
        match parse_one_spec(s@) {
            Ok(ix) => r is Ok && final(out)@.map_values(|u: usize| u as int) == old(
                out,
            )@.map_values(|u: usize| u as int) + ix,
            Err(m) => r is Err && r->Err_0@ == m && final(out)@ == old(out)@,
        },
{
    proof {
        reveal_strlit(":");
        assert(":"@ =~= seq![':']);
    }
    if find_colon(s.as_str()) {
        let parts = split_line(s.as_str(), ":", false);
        if parts.len() != 2 {
            return Err(String::from_str("Invalid range format: ").concat(s.as_str()));
        }
        let p0 = &parts[0];
        let p1 = &parts[1];
        proof {
            assert(p0@ == lit_split(s@, seq![':'])[0]);
            assert(p1@ == lit_split(s@, seq![':'])[1]);
        }
        let start = match parse_usize(p0.as_str()) {
            None => {
                return Err(String::from_str("Invalid range start: ").concat(p0.as_str()));
            },
            Some(v) => v,
        };
        let end = match parse_usize(p1.as_str()) {
            None => {
                return Err(String::from_str("Invalid range end: ").concat(p1.as_str()));
            },
            Some(v) => v,
        };
        if start == 0 || end == 0 {
            return Err(String::from_str("Column numbers must be 1-based"));
        }
        push_range(out, start, end);
        Ok(())
    } else {
        let v = match parse_usize(s.as_str()) {
            None => {
                return Err(String::from_str("Invalid column number: ").concat(s.as_str()));
            },
            Some(v) => v,
        };
        if v == 0 {
            return Err(String::from_str("Column numbers must be 1-based"));
        }
        let ghost pre = out@.map_values(|u: usize| u as int);
        out.push(v - 1);
        proof {
            assert(out@.map_values(|u: usize| u as int) =~= pre.push(v - 1 as int));
            assert(pre.push(v - 1 as int) =~= old(out)@.map_values(|u: usize| u as int) + seq![
                v - 1,
            ]);
        }
        Ok(())
    }
}

/// Resolves all column specs in order, or reports the first invalid one.
pub fn parse_column_specs(cols: &Vec<String>) -> (r: Result<Vec<usize>, String>)
    ensures
        match parse_cols_spec(cols.deep_view()) {
            Ok(ix) => r is Ok && r->Ok_0@.map_values(|u: usize| u as int) == ix,
            Err(m) => r is Err && r->Err_0@ == m,
        },
{
    let mut out: Vec<usize> = Vec::new();
    let mut i: usize = 0;
    let n = cols.len();
    proof {
        assert(out@.map_values(|u: usize| u as int) =~= Seq::<int>::empty());
        assert(cols.deep_view().skip(0) =~= cols.deep_view());
    }
    while i < n
        invariant
            i <= n,
            n == cols@.len(),
            cols.deep_view().len() == n,
            parse_cols_spec(cols.deep_view()) matches Ok(ix) ==> parse_cols_spec(
                cols.deep_view().skip(i as int),
            ) matches Ok(rest) && ix == out@.map_values(|u: usize| u as int) + rest,
            parse_cols_spec(cols.deep_view()) matches Err(m) ==> parse_cols_spec(
                cols.deep_view().skip(i as int),
            ) matches Err(m2) && m == m2,
        decreases n - i,
    {
        let ghost pre = out@.map_values(|u: usize| u as int);
        let ghost tail = cols.deep_view().skip(i as int);
        proof {
            assert(tail.len() > 0);
            assert(tail[0] == cols.deep_view()[i as int]);
            assert(cols.deep_view()[i as int] == cols@[i as int]@);
            assert(tail.drop_first() =~= cols.deep_view().skip(i + 1));
        }
        match parse_one_exec(&mut out, &cols[i]) {
            Ok(()) => {},
            Err(m) => {
                return Err(m);
            },
        }
        i = i + 1;
    }
    proof {
        assert(cols.deep_view().skip(n as int) =~= Seq::<Seq<char>>::empty());
        if parse_cols_spec(cols.deep_view()) is Ok {
            assert(out@.map_values(|u: usize| u as int) + Seq::<int>::empty() =~= out@.map_values(
                |u: usize| u as int,
            ));
        }
    }
    Ok(out)
}

/// Every output column named by `idxs` read from `row`; a source index the
/// row does not reach becomes the empty field.
pub open spec fn project_row(row: Seq<Seq<char>>, idxs: Seq<int>) -> Seq<Seq<char>> {
    Seq::new(idxs.len(), |k: int| if 0 <= idxs[k] < row.len() {
        row[idxs[k]]
    } else {
        Seq::<char>::empty()
    })
}

/// Projects one row through the output-column order.
pub fn project_fields(row: &Vec<String>, idxs: &Vec<usize>) -> (r: Vec<String>)
    ensures
        r.deep_view() == project_row(row.deep_view(), idxs@.map_values(|u: usize| u as int)),
        r@.len() == idxs@.len(),
{
    let mut out: Vec<String> = Vec::new();
    let n = idxs.len();
    let mut k: usize = 0;
    while k < n
        invariant
            k <= n,
            n == idxs@.len(),
            out.deep_view() =~~= project_row(
                row.deep_view(),
                idxs@.map_values(|u: usize| u as int),
            ).take(k as int),
        decreases n - k,
    {
        let ghost predv = out.deep_view();
        let ghost pr = project_row(row.deep_view(), idxs@.map_values(|u: usize| u as int));
        let idx = idxs[k];
        if idx < row.len() {
            let c = row[idx].clone();
            proof {
                assert(c@ == row.deep_view()[idx as int]);
                assert(pr[k as int] == c@);
            }
            out.push(c);
        } else {
            proof {
                assert(pr[k as int] =~= Seq::<char>::empty());
            }
            out.push(String::new());
        }
        proof {
            assert(out.deep_view() =~~= predv.push(pr[k as int]));
            assert(predv.push(pr[k as int]) =~~= pr.take(k + 1));
        }
        k = k + 1;
    }
    proof {
        assert(project_row(row.deep_view(), idxs@.map_values(|u: usize| u as int)).take(n as int)
            =~~= project_row(row.deep_view(), idxs@.map_values(|u: usize| u as int)));
    }
    out
}

/// The header fields padded with empty fields or truncated to exactly `n`.
pub open spec fn resize_fields(h: Seq<Seq<char>>, n: nat) -> Seq<Seq<char>> {
    Seq::new(n, |k: int| if k < h.len() {
        h[k]
    } else {
        Seq::<char>::empty()
    })
}

/// Pads with empty fields or truncates to exactly `n` fields.
pub fn resize_to(mut h: Vec<String>, n: usize) -> (r: Vec<String>)
    ensures
        r.deep_view() == resize_fields(h.deep_view(), n as nat),
{
    let ghost orig = h.deep_view();
    if h.len() > n {
        h.truncate(n);
        proof {
            assert(h.deep_view() =~~= resize_fields(orig, n as nat));
        }
        return h;
    }
    proof {
        assert(h.deep_view() =~~= resize_fields(orig, h@.len() as nat));
    }
    while h.len() < n
        invariant
            h@.len() <= n,
            orig.len() <= h@.len(),
            h.deep_view() =~~= resize_fields(orig, h@.len() as nat),
        decreases n - h@.len(),
    {
        let ghost predv = h.deep_view();
        h.push(String::new());
        proof {
            assert(h.deep_view() =~~= predv.push(Seq::<char>::empty()));
            assert(predv.push(Seq::<char>::empty()) =~~= resize_fields(orig, h@.len() as nat));
        }
    }
    proof {
        assert(h.deep_view() =~~= resize_fields(orig, n as nat));
    }
    h
}

} // verus!
