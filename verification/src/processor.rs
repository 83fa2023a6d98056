//! The pipeline: filter lines, tokenize, resolve the header, project the
//! columns, sort, group.

use vstd::prelude::*;

use crate::args::AppArgs;
use crate::grouper::{group_rows, group_spec};
use crate::project::{parse_cols_spec, parse_column_specs, project_fields, project_row,
    resize_fields, resize_to};
use crate::sorter::{sort_rows, sort_rows_spec};
use crate::split::{split_line, split_line_spec};

verus! {

/// Processed tabular data: headers, rows, and for every output column the
/// zero-based source column it came from.
#[derive(Debug)]
pub struct TableData {
    pub headers: Vec<String>,
    pub rows: Vec<Vec<String>>,
    pub original_column_indices: Vec<usize>,
}

/// Whether `pat` is a syntactically valid filter pattern, as decided by the
/// regex crate.
pub uninterp spec fn regex_valid(pat: Seq<char>) -> bool;

/// Whether the pattern `pat` matches somewhere in `text`, as decided by the
/// regex crate.
pub uninterp spec fn regex_match(pat: Seq<char>, text: Seq<char>) -> bool;

#[verifier::external_type_specification]
#[verifier::external_body]
pub struct ExRegex(regex::Regex);

/// A compiled content filter together with the pattern it was built from.
pub struct LineFilter {
    re: regex::Regex,
    pub pattern: String,
}

/// Relies on regex::Regex::new: compiling succeeds exactly on valid
/// patterns (named `regex_valid`), and the compiled filter keeps its
/// pattern.
#[verifier::external_body]
fn compile_filter(pattern: &str) -> (r: Option<LineFilter>)
    ensures
        match r {
            Some(f) => regex_valid(pattern@) && f.pattern@ == pattern@,
            None => !regex_valid(pattern@),
        },
{
    match regex::Regex::new(pattern) {
        Ok(re) => Some(LineFilter { re, pattern: pattern.to_owned() }),
        Err(_) => None,
    }
}

/// Relies on regex::Regex::is_match: whether the compiled pattern matches
/// somewhere in the line (named `regex_match`).
#[verifier::external_body]
fn filter_matches(f: &LineFilter, line: &str) -> (r: bool)
    ensures
        r == regex_match(f.pattern@, line@),
{
    f.re.is_match(line)
}

/// The lines from position `i` on that the filter pattern matches.
pub open spec fn filtered_from(lines: Seq<Seq<char>>, pat: Seq<char>, i: int) -> Seq<Seq<char>>
    decreases lines.len() - i,
{
    if i < 0 || i >= lines.len() {
        Seq::empty()
    } else {
        let rest = filtered_from(lines, pat, i + 1);
        if regex_match(pat, lines[i]) {
            seq![lines[i]] + rest
        } else {
            rest
        }
    }
}

/// The table a finished pipeline describes: projected headers and rows and
/// the source index of every output column.
pub struct TableView {
    pub headers: Seq<Seq<char>>,
    pub rows: Seq<Seq<Seq<char>>>,
    pub sel: Seq<int>,
}

/// Longest row length.
pub open spec fn rows_max_len(rs: Seq<Seq<Seq<char>>>) -> nat
    decreases rs.len(),
{
    if rs.len() == 0 {
        0
    } else {
        let m = rows_max_len(rs.drop_last());
        if rs.last().len() > m {
            rs.last().len()
        } else {
            m
        }
    }
}

/// The header fields and data lines of the filtered input: an optional
/// first line is discarded, an explicit header or the no-headline toggle
/// makes every line data, and otherwise the first remaining line becomes
/// the header.
pub open spec fn header_split(flines: Seq<Seq<char>>, args: &AppArgs) -> (Seq<Seq<char>>, Seq<
    Seq<char>,
>) {
    let start: int = if args.rh {
        1
    } else {
        0
    };
    if start >= flines.len() {
        (Seq::empty(), Seq::empty())
    } else if args.header is Some || args.nhl {
        (Seq::empty(), flines.skip(start))
    } else {
        (split_line_spec(flines[start], args.sep@, args.mb), flines.skip(start + 1))
    }
}

/// The table built from the already filtered lines, or the message of the
/// first invalid column spec.
pub open spec fn build_spec(flines: Seq<Seq<char>>, args: &AppArgs) -> Result<TableView, Seq<
    char,
>> {
    if flines.len() == 0 {
        Ok(TableView { headers: Seq::empty(), rows: Seq::empty(), sel: Seq::empty() })
    } else {
        let (hdr_raw, data) = header_split(flines, args);
        let rows_tok = Seq::new(data.len(), |k: int| split_line_spec(data[k], args.sep@, args.mb));
        let cols_r: Result<Seq<int>, Seq<char>> = if args.columns@.len() > 0 {
            parse_cols_spec(args.columns.deep_view())
        } else {
            let m: int = if hdr_raw.len() > rows_max_len(rows_tok) {
                hdr_raw.len() as int
            } else {
                rows_max_len(rows_tok) as int
            };
            Ok(Seq::new(m as nat, |k: int| k))
        };
        match cols_r {
            Err(m) => Err(m),
            Ok(cols) => {
                let headers = match args.header {
                    Some(h) => resize_fields(split_line_spec(h@, args.sep@, args.mb), cols.len()),
                    None => project_row(hdr_raw, cols),
                };
                let rows_p = Seq::new(rows_tok.len(), |k: int| project_row(rows_tok[k], cols));
                let rows_s = match args.sortcol {
                    Some(v) => if 1 <= v <= cols.len() {
                        sort_rows_spec(rows_p, v - 1)
                    } else {
                        rows_p
                    },
                    None => rows_p,
                };
                let rows_g = match args.gcol {
                    Some(g) => if 1 <= g <= cols.len() {
                        group_spec(rows_s, g - 1, args.gcolval)
                    } else {
                        rows_s
                    },
                    None => rows_s,
                };
                Ok(TableView { headers, rows: rows_g, sel: cols })
            },
        }
    }
}

/// What the pipeline produces for the raw input lines: the filter is
/// applied first, before any header resolution; an invalid filter pattern
/// or column spec aborts with its message.
pub open spec fn process_spec(lines: Seq<Seq<char>>, args: &AppArgs) -> Result<TableView, Seq<
    char,
>> {
    match args.filter {
        Some(p) => if regex_valid(p@) {
            build_spec(filtered_from(lines, p@, 0), args)
        } else {
            Err("Invalid filter regex: "@ + p@)
        },
        None => build_spec(lines, args),
    }
}

/// Runs the whole pipeline on the raw input lines.
#[verifier::rlimit(100)]
pub fn process_input(lines: Vec<String>, args: &AppArgs) -> (r: Result<TableData, String>)
    ensures
        match process_spec(lines.deep_view(), args) {
            Ok(tv) => r matches Ok(t) && t.headers.deep_view() == tv.headers
                && t.rows.deep_view() == tv.rows && t.original_column_indices@.map_values(
                |u: usize| u as int,
            ) == tv.sel,
            Err(m) => r matches Err(e) && e@ == m,
        },
{
    let ghost lv = lines.deep_view();

    // Filter the lines before anything looks at them.
    let filt: Option<LineFilter> = match &args.filter {
        Some(p) => match compile_filter(p.as_str()) {
            Some(f) => Some(f),
            None => {
                return Err(String::from_str("Invalid filter regex: ").concat(p.as_str()));
            },
        },
        None => None,
    };
    let flines: Vec<String> = match &filt {
        None => lines,
        Some(f) => {
            let mut kept: Vec<String> = Vec::new();
            let n = lines.len();
            let mut i: usize = 0;
            let ghost pat = f.pattern@;
            while i < n
                invariant
                    i <= n,
                    n == lines@.len(),
                    lv == lines.deep_view(),
                    pat == f.pattern@,
                    filtered_from(lv, pat, 0) == kept.deep_view() + filtered_from(
                        lv,
                        pat,
                        i as int,
                    ),
                decreases n - i,
            {
                proof {
                    assert(lines.deep_view()[i as int] == lines@[i as int]@);
                }
                let ghost predv = kept.deep_view();
                if filter_matches(f, lines[i].as_str()) {
                    let c = lines[i].clone();
                    kept.push(c);
                    proof {
                        assert(kept.deep_view() =~~= predv.push(lv[i as int]));
                        assert(predv.push(lv[i as int]) + filtered_from(lv, pat, i + 1)
                            =~~= predv + filtered_from(lv, pat, i as int));
                    }
                } else {
                }
                i = i + 1;
            }
            proof {
                assert(filtered_from(lv, pat, n as int) =~~= Seq::<Seq<char>>::empty());
                assert(kept.deep_view() + Seq::<Seq<char>>::empty() =~~= kept.deep_view());
            }
            kept
        },
    };
    let ghost fv = flines.deep_view();
    proof {
        if args.filter is Some {
            assert(fv == filtered_from(lv, args.filter->Some_0@, 0));
        } else {
            assert(fv == lv);
        }
    }

    if flines.len() == 0 {
        proof {
            assert(fv =~~= Seq::<Seq<char>>::empty());
        }
        return Ok(
            TableData {
                headers: Vec::new(),
                rows: Vec::new(),
                original_column_indices: Vec::new(),
            },
        );
    }

    // Header resolution: possibly drop the first line, then either promote
    // the next line to header or leave every line as data.
    let flen = flines.len();
    let mut ds: usize = if args.rh {
        1
    } else {
        0
    };
    let ghost start0 = ds as int;
    let mut hdr_raw: Vec<String> = Vec::new();
    if ds < flen && !(args.header.is_some() || args.nhl) {
        proof {
            assert(flines.deep_view()[ds as int] == flines@[ds as int]@);
        }
        hdr_raw = split_line(flines[ds].as_str(), args.sep.as_str(), args.mb);
        ds = ds + 1;
    }
    let ghost hdr_raw_v = header_split(fv, args).0;
    let ghost data_v = header_split(fv, args).1;
    proof {
        if start0 >= fv.len() {
            assert(hdr_raw.deep_view() =~~= hdr_raw_v);
            assert(data_v =~~= Seq::<Seq<char>>::empty());
        } else if args.header is Some || args.nhl {
            assert(hdr_raw.deep_view() =~~= hdr_raw_v);
            assert(data_v == fv.skip(start0));
        } else {
            assert(hdr_raw.deep_view() == hdr_raw_v);
            assert(data_v == fv.skip(start0 + 1));
        }
        assert(ds as int == fv.len() - data_v.len());
        assert(forall|q: int| 0 <= q < data_v.len() ==> data_v[q] == fv[ds + q]);
    }

    // Tokenize the data lines.
    let ghost rows_tok_v = Seq::new(
        data_v.len(),
        |k: int| split_line_spec(data_v[k], args.sep@, args.mb),
    );
    let mut rows_tok: Vec<Vec<String>> = Vec::new();
    let mut k = ds;
    while k < flen
        invariant
            ds <= k <= flen,
            flen == flines@.len(),
            fv == flines.deep_view(),
            ds as int == fv.len() - data_v.len(),
            forall|q: int| 0 <= q < data_v.len() ==> data_v[q] == fv[ds + q],
            rows_tok_v == Seq::new(
                data_v.len(),
                |q: int| split_line_spec(data_v[q], args.sep@, args.mb),
            ),
            rows_tok.deep_view() =~~= rows_tok_v.take(k - ds),
        decreases flen - k,
    {
        proof {
            assert(flines.deep_view()[k as int] == flines@[k as int]@);
            assert(data_v[k - ds] == fv[k as int]);
        }
        let ghost predv = rows_tok.deep_view();
        let row = split_line(flines[k].as_str(), args.sep.as_str(), args.mb);
        rows_tok.push(row);
        proof {
            assert(rows_tok.deep_view() =~~= predv.push(rows_tok_v[k - ds]));
            assert(predv.push(rows_tok_v[k - ds]) =~~= rows_tok_v.take(k + 1 - ds));
        }
        k = k + 1;
    }
    proof {
        assert(rows_tok_v.take(flen - ds) =~~= rows_tok_v);
    }

    // Resolve the output columns.
    let cols: Vec<usize> = if args.columns.len() > 0 {
        match parse_column_specs(&args.columns) {
            Ok(c) => c,
            Err(m) => {
                return Err(m);
            },
        }
    } else {
        let mut m: usize = hdr_raw.len();
        let ghost hl = hdr_raw.deep_view().len();
        let mut q: usize = 0;
        let rn = rows_tok.len();
        while q < rn
            invariant
                q <= rn,
                rn == rows_tok@.len(),
                rows_tok.deep_view() == rows_tok_v,
                hl == hdr_raw_v.len(),
                m as int == (if hl > rows_max_len(rows_tok_v.take(q as int)) {
                    hl as int
                } else {
                    rows_max_len(rows_tok_v.take(q as int)) as int
                }),
            decreases rn - q,
        {
            proof {
                assert(rows_tok.deep_view()[q as int] == rows_tok@[q as int].deep_view());
                assert(rows_tok_v.take(q + 1).drop_last() =~~= rows_tok_v.take(q as int));
                assert(rows_tok_v.take(q + 1).last() == rows_tok_v[q as int]);
            }
            let l = rows_tok[q].len();
            if l > m {
                m = l;
            }
            q = q + 1;
        }
        proof {
            assert(rows_tok_v.take(rn as int) =~~= rows_tok_v);
        }
        let mut c: Vec<usize> = Vec::new();
        let mut j: usize = 0;
        while j < m
            invariant
                j <= m,
                c@.map_values(|u: usize| u as int) =~= Seq::new(j as nat, |t: int| t),
            decreases m - j,
        {
            let ghost pre = c@.map_values(|u: usize| u as int);
            c.push(j);
            proof {
                assert(c@.map_values(|u: usize| u as int) =~= pre.push(j as int));
                assert(pre.push(j as int) =~= Seq::new((j + 1) as nat, |t: int| t));
            }
            j = j + 1;
        }
        c
    };
    let ghost cols_v = cols@.map_values(|u: usize| u as int);

    // Project headers and rows through the output columns.
    let mut headers: Vec<String> = match &args.header {
        Some(h) => resize_to(split_line(h.as_str(), args.sep.as_str(), args.mb), cols.len()),
        None => project_fields(&hdr_raw, &cols),
    };
    let ghost headers_v = headers.deep_view();

    let mut rows: Vec<Vec<String>> = Vec::new();
    let ghost rows_p_v = Seq::new(rows_tok_v.len(), |q: int| project_row(rows_tok_v[q], cols_v));
    let rn = rows_tok.len();
    let mut q: usize = 0;
    while q < rn
        invariant
            q <= rn,
            rn == rows_tok@.len(),
            rows_tok.deep_view() == rows_tok_v,
            cols_v == cols@.map_values(|u: usize| u as int),
            rows_p_v == Seq::new(rows_tok_v.len(), |t: int| project_row(rows_tok_v[t], cols_v)),
            rows.deep_view() =~~= rows_p_v.take(q as int),
        decreases rn - q,
    {
        proof {
            assert(rows_tok.deep_view()[q as int] == rows_tok@[q as int].deep_view());
        }
        let ghost predv = rows.deep_view();
        let pr = project_fields(&rows_tok[q], &cols);
        rows.push(pr);
        proof {
            assert(rows.deep_view() =~~= predv.push(rows_p_v[q as int]));
            assert(predv.push(rows_p_v[q as int]) =~~= rows_p_v.take(q + 1));
        }
        q = q + 1;
    }
    proof {
        assert(rows_p_v.take(rn as int) =~~= rows_p_v);
    }

    // Sort, then group, by 1-based output columns; out of range is a no-op.
    match args.sortcol {
        Some(v) => {
            if v >= 1 && v <= cols.len() {
                sort_rows(&mut rows, v - 1);
            }
        },
        None => {},
    }
    let ghost rows_s_v = rows.deep_view();
    match args.gcol {
        Some(g) => {
            if g >= 1 && g <= cols.len() {
                group_rows(&mut rows, g - 1, args.gcolval);
            }
        },
        None => {},
    }

    proof {
        assert(process_spec(lv, args) matches Ok(tv) && tv.headers == headers_v && tv.rows
            == rows.deep_view() && tv.sel == cols_v);
    }
    Ok(TableData { headers, rows, original_column_indices: cols })
}

} // verus!
