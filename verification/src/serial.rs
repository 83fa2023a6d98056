//! Serializers: the finished table re-emitted as CSV, JSON, YAML or HTML,
//! and the router that picks the output form.

use vstd::prelude::*;

use crate::args::AppArgs;
use crate::processor::TableData;
use crate::render::{format_ascii, render_lines_spec, render_ok};
use crate::width::{strip_ansi, strip_ansi_spec};

verus! {

/// The three shapes handed to the JSON and YAML encoders: bare rows, an
/// array of objects, or an object keyed by the first column.
pub enum DocShape {
    Rows(Vec<Vec<String>>),
    Objects(Vec<Vec<(String, String)>>),
    Keyed(Vec<(String, Vec<(String, String)>)>),
}

pub open spec fn pairs_view(ps: Seq<(String, String)>) -> Seq<(Seq<char>, Seq<char>)> {
    Seq::new(ps.len(), |i: int| (ps[i].0@, ps[i].1@))
}

pub open spec fn keyed_view(ks: Seq<(String, Vec<(String, String)>)>) -> Seq<
    (Seq<char>, Seq<(Seq<char>, Seq<char>)>),
> {
    Seq::new(ks.len(), |i: int| (ks[i].0@, pairs_view(ks[i].1@)))
}

/// Ghost image of a `DocShape`.
pub enum DocShapeV {
    Rows(Seq<Seq<Seq<char>>>),
    Objects(Seq<Seq<(Seq<char>, Seq<char>)>>),
    Keyed(Seq<(Seq<char>, Seq<(Seq<char>, Seq<char>)>)>),
}

impl View for DocShape {
    type V = DocShapeV;

    open spec fn view(&self) -> DocShapeV {
        match self {
            DocShape::Rows(rows) => DocShapeV::Rows(rows.deep_view()),
            DocShape::Objects(objs) => DocShapeV::Objects(
                Seq::new(objs@.len(), |i: int| pairs_view(objs@[i]@)),
            ),
            DocShape::Keyed(ks) => DocShapeV::Keyed(keyed_view(ks@)),
        }
    }
}

/// The CSV text of the given records, as the csv crate writes them.
pub uninterp spec fn csv_text(records: Seq<Seq<Seq<char>>>) -> Seq<char>;

/// The pretty-printed JSON text of the given shape, as serde_json writes
/// it.
pub uninterp spec fn json_text(doc: DocShapeV) -> Seq<char>;

/// The YAML text of the given shape, as serde_yaml writes it.
pub uninterp spec fn yaml_text(doc: DocShapeV) -> Seq<char>;

/// Relies on csv::Writer::write_record (with the default comma delimiter,
/// quoting only where needed, newline terminator): encodes the records as
/// CSV text.
#[verifier::external_body]
fn csv_encode(records: &Vec<Vec<String>>) -> (r: String)
    ensures
        r@ == csv_text(records.deep_view()),
{
    let mut w = csv::Writer::from_writer(Vec::new());
    for rec in records.iter() {
        let _ = w.write_record(rec.iter());
    }
    let bytes = w.into_inner().unwrap_or_default();
    String::from_utf8(bytes).unwrap_or_default()
}

/// Relies on serde_json::to_string_pretty: encodes bare rows as an array
/// of arrays, object rows as an array of objects, and the keyed shape as
/// one object of objects (keys in sorted order, as serde_json's map stores
/// them).
#[verifier::external_body]
fn json_encode(doc: &DocShape) -> (r: String)
    ensures
        r@ == json_text(doc@),
{
    let obj = |ps: &Vec<(String, String)>| -> serde_json::Value {
        serde_json::Value::Object(ps.iter().map(|p| (p.0.clone(), serde_json::Value::String(p.1.clone()))).collect())
    };
    match doc {
        DocShape::Rows(rows) => serde_json::to_string_pretty(rows),
        DocShape::Objects(objs) => serde_json::to_string_pretty(&objs.iter().map(|o| obj(o)).collect::<Vec<_>>()),
        DocShape::Keyed(ks) => serde_json::to_string_pretty(&ks.iter().map(|kv| (kv.0.clone(), obj(&kv.1))).collect::<serde_json::Map<String, serde_json::Value>>()),
    }.unwrap_or_default()
}

/// Relies on serde_yaml::to_string: encodes bare rows as a sequence of
/// sequences, object rows as a sequence of mappings, and the keyed shape
/// as one mapping of mappings (insertion order kept, as serde_yaml's
/// mapping stores it).
#[verifier::external_body]
fn yaml_encode(doc: &DocShape) -> (r: String)
    ensures
        r@ == yaml_text(doc@),
{
    let m = |ps: &Vec<(String, String)>| -> serde_yaml::Value {
        serde_yaml::Value::Mapping(ps.iter().map(|p| (serde_yaml::Value::String(p.0.clone()), serde_yaml::Value::String(p.1.clone()))).collect())
    };
    match doc {
        DocShape::Rows(rows) => serde_yaml::to_string(rows),
        DocShape::Objects(objs) => serde_yaml::to_string(&objs.iter().map(|o| m(o)).collect::<Vec<_>>()),
        DocShape::Keyed(ks) => serde_yaml::to_string(&ks.iter().map(|kv| (serde_yaml::Value::String(kv.0.clone()), m(&kv.1))).collect::<serde_yaml::Mapping>()),
    }.unwrap_or_default()
}

/// Strip of one cell.
pub open spec fn strip(s: Seq<char>) -> Seq<char> {
    strip_ansi_spec(s)
}

/// The key/value pairs of one row from field `start` on: header text
/// against cell text, both stripped of escape sequences, as far as both
/// the header row and the data row reach.
pub open spec fn pair_range(h: Seq<Seq<char>>, r: Seq<Seq<char>>, start: int) -> Seq<
    (Seq<char>, Seq<char>),
> {
    let stop: int = if h.len() < r.len() {
        h.len() as int
    } else {
        r.len() as int
    };
    let n: int = if stop > start {
        stop - start
    } else {
        0
    };
    Seq::new(n as nat, |i: int| (strip(h[start + i]), strip(r[start + i])))
}

/// One object per row.
pub open spec fn objs_spec(h: Seq<Seq<char>>, rows: Seq<Seq<Seq<char>>>) -> Seq<
    Seq<(Seq<char>, Seq<char>)>,
> {
    Seq::new(rows.len(), |k: int| pair_range(h, rows[k], 0))
}

/// The keyed shape: each non-empty row keyed by its stripped first field,
/// holding the pairs of its remaining fields; empty rows are skipped.
pub open spec fn keyed_spec(h: Seq<Seq<char>>, rows: Seq<Seq<Seq<char>>>, k: int) -> Seq<
    (Seq<char>, Seq<(Seq<char>, Seq<char>)>),
>
    decreases rows.len() - k,
{
    if k < 0 || k >= rows.len() {
        Seq::empty()
    } else {
        let rest = keyed_spec(h, rows, k + 1);
        if rows[k].len() > 0 {
            seq![(strip(rows[k][0]), pair_range(h, rows[k], 1))] + rest
        } else {
            rest
        }
    }
}

/// Every cell stripped of escape sequences.
pub open spec fn stripped_rows(rows: Seq<Seq<Seq<char>>>) -> Seq<Seq<Seq<char>>> {
    Seq::new(rows.len(), |k: int| Seq::new(rows[k].len(), |i: int| strip(rows[k][i])))
}

/// The shape handed to the JSON or YAML encoder for this table.
pub open spec fn doc_shape_spec(h: Seq<Seq<char>>, rows: Seq<Seq<Seq<char>>>, jtc: bool)
    -> DocShapeV {
    if h.len() > 0 {
        if jtc {
            DocShapeV::Keyed(keyed_spec(h, rows, 0))
        } else {
            DocShapeV::Objects(objs_spec(h, rows))
        }
    } else {
        DocShapeV::Rows(stripped_rows(rows))
    }
}

fn pair_range_exec(h: &Vec<String>, r: &Vec<String>, start: usize) -> (out: Vec<(String, String)>)
    ensures
        pairs_view(out@) == pair_range(h.deep_view(), r.deep_view(), start as int),
{
    let ghost hv = h.deep_view();
    let ghost rv = r.deep_view();
    let ghost target = pair_range(hv, rv, start as int);
    let mut out: Vec<(String, String)> = Vec::new();
    let mut i = start;
    proof {
        assert(pairs_view(out@) =~= target.take(0));
    }
    while i < h.len() && i < r.len()
        invariant
            start <= i,
            hv == h.deep_view(),
            rv == r.deep_view(),
            target == pair_range(hv, rv, start as int),
            i - start <= target.len(),
            i < hv.len() || i - start == target.len(),
            i < rv.len() || i - start == target.len(),
            pairs_view(out@) =~= target.take(i - start),
        decreases h@.len() + r@.len() - i,
    {
        proof {
            assert(hv[i as int] == h@[i as int]@);
            assert(rv[i as int] == r@[i as int]@);
        }
        let ghost pre = pairs_view(out@);
        let hs = strip_ansi(h[i].as_str());
        let vs = strip_ansi(r[i].as_str());
        out.push((hs, vs));
        proof {
            assert(pairs_view(out@) =~= pre.push((strip(hv[i as int]), strip(rv[i as int]))));
            assert(pre.push((strip(hv[i as int]), strip(rv[i as int]))) =~= target.take(
                i + 1 - start,
            ));
        }
        i = i + 1;
    }
    proof {
        assert(target.take(target.len() as int) =~= target);
        assert(pairs_view(out@) =~= target);
    }
    out
}

fn build_doc_shape(data: &TableData, jtc: bool) -> (r: DocShape)
    ensures
        r@ == doc_shape_spec(data.headers.deep_view(), data.rows.deep_view(), jtc),
{
    let ghost hv = data.headers.deep_view();
    let ghost rv = data.rows.deep_view();
    let rn = data.rows.len();
    if data.headers.len() > 0 {
        if jtc {
            let mut ks: Vec<(String, Vec<(String, String)>)> = Vec::new();
            let mut k: usize = 0;
            while k < rn
                invariant
                    k <= rn,
                    rn == data.rows@.len(),
                    hv == data.headers.deep_view(),
                    rv == data.rows.deep_view(),
                    keyed_spec(hv, rv, 0) == keyed_view(ks@) + keyed_spec(hv, rv, k as int),
                decreases rn - k,
            {
                proof {
                    assert(rv[k as int] == data.rows@[k as int].deep_view());
                }
                let row = &data.rows[k];
                if row.len() > 0 {
                    proof {
                        assert(rv[k as int][0] == row@[0]@);
                    }
                    let ghost pre = keyed_view(ks@);
                    let key = strip_ansi(row[0].as_str());
                    let pairs = pair_range_exec(&data.headers, row, 1);
                    ks.push((key, pairs));
                    proof {
                        assert(keyed_view(ks@) =~~= pre.push(
                            (strip(rv[k as int][0]), pair_range(hv, rv[k as int], 1)),
                        ));
                        assert(keyed_view(ks@) + keyed_spec(hv, rv, k + 1) =~~= keyed_spec(
                            hv,
                            rv,
                            0,
                        ));
                    }
                }
                k = k + 1;
            }
            proof {
                assert(keyed_spec(hv, rv, rn as int) =~~= Seq::<
                    (Seq<char>, Seq<(Seq<char>, Seq<char>)>),
                >::empty());
                assert(keyed_view(ks@) =~~= keyed_spec(hv, rv, 0));
            }
            DocShape::Keyed(ks)
        } else {
            let mut objs: Vec<Vec<(String, String)>> = Vec::new();
            let mut k: usize = 0;
            while k < rn
                invariant
                    k <= rn,
                    rn == data.rows@.len(),
                    hv == data.headers.deep_view(),
                    rv == data.rows.deep_view(),
                    Seq::new(objs@.len(), |i: int| pairs_view(objs@[i]@)) =~~= objs_spec(
                        hv,
                        rv,
                    ).take(k as int),
                decreases rn - k,
            {
                proof {
                    assert(rv[k as int] == data.rows@[k as int].deep_view());
                }
                let ghost pre = Seq::new(objs@.len(), |i: int| pairs_view(objs@[i]@));
                let pairs = pair_range_exec(&data.headers, &data.rows[k], 0);
                objs.push(pairs);
                proof {
                    assert(Seq::new(objs@.len(), |i: int| pairs_view(objs@[i]@)) =~~= pre.push(
                        pair_range(hv, rv[k as int], 0),
                    ));
                    assert(pre.push(pair_range(hv, rv[k as int], 0)) =~~= objs_spec(hv, rv).take(
                        k + 1,
                    ));
                }
                k = k + 1;
            }
            proof {
                assert(objs_spec(hv, rv).take(rn as int) =~~= objs_spec(hv, rv));
            }
            DocShape::Objects(objs)
        }
    } else {
        let mut rows: Vec<Vec<String>> = Vec::new();
        let mut k: usize = 0;
        while k < rn
            invariant
                k <= rn,
                rn == data.rows@.len(),
                rv == data.rows.deep_view(),
                rows.deep_view() =~~= stripped_rows(rv).take(k as int),
            decreases rn - k,
        {
            proof {
                assert(rv[k as int] == data.rows@[k as int].deep_view());
            }
            let ghost predv = rows.deep_view();
            let row = &data.rows[k];
            let mut sr: Vec<String> = Vec::new();
            let cn = row.len();
            let mut i: usize = 0;
            while i < cn
                invariant
                    i <= cn,
                    cn == row@.len(),
                    rv[k as int] == row.deep_view(),
                    k < rv.len(),
                    sr.deep_view() =~~= Seq::new(i as nat, |q: int| strip(rv[k as int][q])),
                decreases cn - i,
            {
                proof {
                    assert(rv[k as int][i as int] == row@[i as int]@);
                }
                let ghost prei = sr.deep_view();
                sr.push(strip_ansi(row[i].as_str()));
                proof {
                    assert(sr.deep_view() =~~= prei.push(strip(rv[k as int][i as int])));
                    assert(prei.push(strip(rv[k as int][i as int])) =~~= Seq::new(
                        (i + 1) as nat,
                        |q: int| strip(rv[k as int][q]),
                    ));
                }
                i = i + 1;
            }
            rows.push(sr);
            proof {
                assert(rows.deep_view() =~~= predv.push(
                    Seq::new(rv[k as int].len(), |q: int| strip(rv[k as int][q])),
                ));
                assert(predv.push(Seq::new(rv[k as int].len(), |q: int| strip(rv[k as int][q])))
                    =~~= stripped_rows(rv).take(k + 1));
            }
            k = k + 1;
        }
        proof {
            assert(stripped_rows(rv).take(rn as int) =~~= stripped_rows(rv));
        }
        DocShape::Rows(rows)
    }
}

/// The records handed to the CSV encoder: the header row when there is
/// one, then every data row.
pub open spec fn csv_records_spec(h: Seq<Seq<char>>, rows: Seq<Seq<Seq<char>>>) -> Seq<
    Seq<Seq<char>>,
> {
    if h.len() > 0 {
        seq![h] + rows
    } else {
        rows
    }
}

/// The lines of the HTML table.
pub open spec fn html_cell_lines(row: Seq<Seq<char>>, open_tag: Seq<char>, close_tag: Seq<char>)
    -> Seq<Seq<char>> {
    Seq::new(row.len(), |i: int| open_tag + row[i] + close_tag)
}

pub open spec fn html_row_lines(rows: Seq<Seq<Seq<char>>>, k: int) -> Seq<Seq<char>>
    decreases rows.len() - k,
{
    if k < 0 || k >= rows.len() {
        Seq::empty()
    } else {
        seq!["    <tr>"@] + html_cell_lines(rows[k], "      <td>"@, "</td>"@) + seq![
            "    </tr>"@,
        ] + html_row_lines(rows, k + 1)
    }
}

/// The whole HTML document, line by line.
pub open spec fn html_lines_spec(h: Seq<Seq<char>>, rows: Seq<Seq<Seq<char>>>) -> Seq<Seq<char>> {
    let head: Seq<Seq<char>> = if h.len() > 0 {
        seq!["  <thead>"@, "    <tr>"@] + html_cell_lines(h, "      <th>"@, "</th>"@) + seq![
            "    </tr>"@,
            "  </thead>"@,
        ]
    } else {
        Seq::empty()
    };
    seq!["<table>"@] + head + seq!["  <tbody>"@] + html_row_lines(rows, 0) + seq![
        "  </tbody>"@,
        "</table>"@,
    ]
}

/// One tagged cell line.
fn html_cell_line(open_tag: &str, val: &str, close_tag: &str) -> (r: String)
    ensures
        r@ == open_tag@ + val@ + close_tag@,
{
    String::from_str(open_tag).concat(val).concat(close_tag)
}

/// Renders the table as an HTML document, one line per entry.
pub fn format_html(data: &TableData) -> (r: Vec<String>)
    ensures
        r.deep_view() == html_lines_spec(data.headers.deep_view(), data.rows.deep_view()),
{
    let ghost hv = data.headers.deep_view();
    let ghost rv = data.rows.deep_view();
    let mut out: Vec<String> = Vec::new();
    out.push(String::from_str("<table>"));
    proof {
        assert(out.deep_view() =~~= seq!["<table>"@]);
    }
    if data.headers.len() > 0 {
        let ghost p0 = out.deep_view();
        out.push(String::from_str("  <thead>"));
        proof {
            assert(out.deep_view() =~~= p0.push("  <thead>"@));
        }
        let ghost p1 = out.deep_view();
        out.push(String::from_str("    <tr>"));
        proof {
            assert(out.deep_view() =~~= p1.push("    <tr>"@));
        }
        let hn = data.headers.len();
        let mut i: usize = 0;
        while i < hn
            invariant
                i <= hn,
                hn == data.headers@.len(),
                hv == data.headers.deep_view(),
                out.deep_view() =~~= seq!["<table>"@, "  <thead>"@, "    <tr>"@] + html_cell_lines(
                    hv,
                    "      <th>"@,
                    "</th>"@,
                ).take(i as int),
            decreases hn - i,
        {
            proof {
                assert(hv[i as int] == data.headers@[i as int]@);
            }
            let ghost predv = out.deep_view();
            out.push(html_cell_line("      <th>", data.headers[i].as_str(), "</th>"));
            proof {
                assert(out.deep_view() =~~= predv.push(
                    html_cell_lines(hv, "      <th>"@, "</th>"@)[i as int],
                ));
                assert(predv.push(html_cell_lines(hv, "      <th>"@, "</th>"@)[i as int])
                    =~~= seq!["<table>"@, "  <thead>"@, "    <tr>"@] + html_cell_lines(
                    hv,
                    "      <th>"@,
                    "</th>"@,
                ).take(i + 1));
            }
            i = i + 1;
        }
        let ghost p2 = out.deep_view();
        out.push(String::from_str("    </tr>"));
        proof {
            assert(out.deep_view() =~~= p2.push("    </tr>"@));
        }
        let ghost p3 = out.deep_view();
        out.push(String::from_str("  </thead>"));
        proof {
            assert(out.deep_view() =~~= p3.push("  </thead>"@));
            assert(html_cell_lines(hv, "      <th>"@, "</th>"@).take(hn as int) =~~= html_cell_lines(
                hv,
                "      <th>"@,
                "</th>"@,
            ));
        }
    }
    let ghost p4 = out.deep_view();
    out.push(String::from_str("  <tbody>"));
    proof {
        assert(out.deep_view() =~~= p4.push("  <tbody>"@));
    }
    let ghost pre_rows = out.deep_view();
    proof {
        assert(pre_rows =~~= seq!["<table>"@] + (if hv.len() > 0 {
            seq!["  <thead>"@, "    <tr>"@] + html_cell_lines(hv, "      <th>"@, "</th>"@) + seq![
                "    </tr>"@,
                "  </thead>"@,
            ]
        } else {
            Seq::<Seq<char>>::empty()
        }) + seq!["  <tbody>"@]);
    }
    let rn = data.rows.len();
    let mut k: usize = 0;
    while k < rn
        invariant
            k <= rn,
            rn == data.rows@.len(),
            rv == data.rows.deep_view(),
            out.deep_view() + html_row_lines(rv, k as int) == pre_rows + html_row_lines(rv, 0),
        decreases rn - k,
    {
        proof {
            assert(rv[k as int] == data.rows@[k as int].deep_view());
        }
        let ghost before = out.deep_view();
        let ghost tail = html_row_lines(rv, k + 1);
        out.push(String::from_str("    <tr>"));
        proof {
            assert(out.deep_view() =~~= before.push("    <tr>"@));
            assert(before.push("    <tr>"@) =~~= before + seq!["    <tr>"@]);
        }
        let row = &data.rows[k];
        let cn = row.len();
        let mut i: usize = 0;
        while i < cn
            invariant
                i <= cn,
                cn == row@.len(),
                rv[k as int] == row.deep_view(),
                k < rv.len(),
                out.deep_view() =~~= before + seq!["    <tr>"@] + html_cell_lines(
                    rv[k as int],
                    "      <td>"@,
                    "</td>"@,
                ).take(i as int),
            decreases cn - i,
        {
            proof {
                assert(rv[k as int][i as int] == row@[i as int]@);
            }
            let ghost predv = out.deep_view();
            out.push(html_cell_line("      <td>", row[i].as_str(), "</td>"));
            proof {
                assert(out.deep_view() =~~= predv.push(
                    html_cell_lines(rv[k as int], "      <td>"@, "</td>"@)[i as int],
                ));
                assert(predv.push(html_cell_lines(rv[k as int], "      <td>"@, "</td>"@)[i as int])
                    =~~= before + seq!["    <tr>"@] + html_cell_lines(
                    rv[k as int],
                    "      <td>"@,
                    "</td>"@,
                ).take(i + 1));
            }
            i = i + 1;
        }
        let ghost pc = out.deep_view();
        out.push(String::from_str("    </tr>"));
        proof {
            assert(out.deep_view() =~~= pc.push("    </tr>"@));
            assert(html_cell_lines(rv[k as int], "      <td>"@, "</td>"@).take(cn as int)
                =~~= html_cell_lines(rv[k as int], "      <td>"@, "</td>"@));
            assert(out.deep_view() =~~= before + (seq!["    <tr>"@] + html_cell_lines(
                rv[k as int],
                "      <td>"@,
                "</td>"@,
            ) + seq!["    </tr>"@]));
            assert(html_row_lines(rv, k as int) == seq!["    <tr>"@] + html_cell_lines(
                rv[k as int],
                "      <td>"@,
                "</td>"@,
            ) + seq!["    </tr>"@] + tail);
            assert(out.deep_view() + tail =~~= before + html_row_lines(rv, k as int));
        }
        k = k + 1;
    }
    proof {
        assert(html_row_lines(rv, rn as int) =~~= Seq::<Seq<char>>::empty());
        assert(out.deep_view() + Seq::<Seq<char>>::empty() =~~= out.deep_view());
    }
    let ghost p5 = out.deep_view();
    out.push(String::from_str("  </tbody>"));
    proof {
        assert(out.deep_view() =~~= p5.push("  </tbody>"@));
    }
    let ghost p6 = out.deep_view();
    out.push(String::from_str("</table>"));
    proof {
        assert(out.deep_view() =~~= p6.push("</table>"@));
        assert(out.deep_view() =~~= html_lines_spec(hv, rv));
    }
    out
}

/// The lines joined with one newline after each.
pub open spec fn unlines(ls: Seq<Seq<char>>) -> Seq<char>
    decreases ls.len(),
{
    if ls.len() == 0 {
        Seq::empty()
    } else {
        ls[0] + seq!['\n'] + unlines(ls.drop_first())
    }
}

/// Joins lines, one newline after each.
fn unlines_exec(ls: &Vec<String>) -> (r: String)
    ensures
        r@ == unlines(ls.deep_view()),
{
    let ghost lv = ls.deep_view();
    let mut out = String::new();
    let n = ls.len();
    let mut i: usize = 0;
    proof {
        assert(lv.skip(0) =~~= lv);
    }
    while i < n
        invariant
            i <= n,
            n == ls@.len(),
            lv == ls.deep_view(),
            out@ + unlines(lv.skip(i as int)) == unlines(lv),
        decreases n - i,
    {
        proof {
            assert(lv[i as int] == ls@[i as int]@);
            assert(lv.skip(i as int)[0] == lv[i as int]);
            assert(lv.skip(i as int).drop_first() =~~= lv.skip(i + 1));
        }
        let ghost before = out@;
        out.append(ls[i].as_str());
        crate::chars::push_char(&mut out, '\n');
        proof {
            assert(out@ =~= before + lv[i as int] + seq!['\n']);
            assert(out@ + unlines(lv.skip(i + 1)) =~= before + (lv[i as int] + seq!['\n'] + unlines(
                lv.skip(i + 1),
            )));
        }
        i = i + 1;
    }
    proof {
        assert(unlines(lv.skip(n as int)) =~= Seq::<char>::empty());
        assert(out@ + Seq::<char>::empty() =~= out@);
    }
    out
}

/// What `format_output` returns for this table and configuration: CSV,
/// JSON or YAML text from the named encoders, or the library's own HTML or
/// aligned-grid lines joined with newlines.
pub open spec fn format_output_spec(h: Seq<Seq<char>>, rows: Seq<Seq<Seq<char>>>, sel: Seq<int>, args: &AppArgs) -> Seq<char> {
    if args.csv {
        csv_text(csv_records_spec(h, rows))
    } else if args.json {
        json_text(doc_shape_spec(h, rows, args.jtc)) + seq!['\n']
    } else if args.yaml {
        yaml_text(doc_shape_spec(h, rows, args.jtc)) + seq!['\n']
    } else if args.html {
        unlines(html_lines_spec(h, rows))
    } else {
        unlines(render_lines_spec(h, rows, sel, args))
    }
}

/// Serializes or renders the finished table, as the configuration asks.
pub fn format_output(data: TableData, args: &AppArgs) -> (r: String)
    requires
        args.csv || args.json || args.yaml || args.html || render_ok(
            data.headers.deep_view(),
            data.rows.deep_view(),
            data.original_column_indices@.map_values(|u: usize| u as int),
            args,
        ),
    ensures
        r@ == format_output_spec(
            data.headers.deep_view(),
            data.rows.deep_view(),
            data.original_column_indices@.map_values(|u: usize| u as int),
            args,
        ),
{
    let ghost hv = data.headers.deep_view();
    let ghost rv = data.rows.deep_view();
    if args.csv {
        let mut records: Vec<Vec<String>> = Vec::new();
        let mut data = data;
        if data.headers.len() > 0 {
            records.push(data.headers);
            proof {
                assert(records.deep_view() =~~= seq![hv]);
            }
        }
        records.append(&mut data.rows);
        proof {
            assert(records.deep_view() =~~= csv_records_spec(hv, rv));
        }
        csv_encode(&records)
    } else if args.json {
        let doc = build_doc_shape(&data, args.jtc);
        let body = json_encode(&doc);
        let mut body = body;
        crate::chars::push_char(&mut body, '\n');
        proof {
            assert(body@ =~= json_text(doc_shape_spec(hv, rv, args.jtc)) + seq!['\n']);
        }
        body
    } else if args.yaml {
        let doc = build_doc_shape(&data, args.jtc);
        let body = yaml_encode(&doc);
        let mut body = body;
        crate::chars::push_char(&mut body, '\n');
        proof {
            assert(body@ =~= yaml_text(doc_shape_spec(hv, rv, args.jtc)) + seq!['\n']);
        }
        body
    } else if args.html {
        let lines = format_html(&data);
        unlines_exec(&lines)
    } else {
        let lines = format_ascii(&data, args);
        unlines_exec(&lines)
    }
}

} // verus!
