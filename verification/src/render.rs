//! Table renderer: computes column widths and draws the aligned text grid
//! with optional borders, separators, numbering row and alignment rules.

use vstd::prelude::*;

use crate::args::AppArgs;
use crate::chars::push_char;
use crate::numcmp::{is_float_lit, is_numeric_cell};
use crate::processor::TableData;
use crate::width::{visible_width, visible_width_spec};

verus! {

/// Box-drawing characters for the table frame.
pub struct BoxChars {
    pub h: char,
    pub v: char,
    pub tl: char,
    pub tr: char,
    pub bl: char,
    pub br: char,
    pub tm: char,
    pub bm: char,
    pub lm: char,
    pub rm: char,
    pub c: char,
}

impl BoxChars {
    /// The Unicode box-drawing frame the renderer draws with.
    pub fn unicode() -> (r: Self)
        ensures
            r.h == '\u{2500}',
            r.v == '\u{2502}',
            r.tl == '\u{250c}',
            r.tr == '\u{2510}',
            r.bl == '\u{2514}',
            r.br == '\u{2518}',
            r.tm == '\u{252c}',
            r.bm == '\u{2534}',
            r.lm == '\u{251c}',
            r.rm == '\u{2524}',
            r.c == '\u{253c}',
    {
        BoxChars {
            h: '\u{2500}',
            v: '\u{2502}',
            tl: '\u{250c}',
            tr: '\u{2510}',
            bl: '\u{2514}',
            br: '\u{2518}',
            tm: '\u{252c}',
            bm: '\u{2534}',
            lm: '\u{251c}',
            rm: '\u{2524}',
            c: '\u{253c}',
        }
    }

    /// A plain ASCII frame, for surroundings without box-drawing glyphs.
    pub fn ascii() -> (r: Self)
        ensures
            r.h == '-',
            r.v == '|',
            r.tl == '+',
            r.tr == '+',
            r.bl == '+',
            r.br == '+',
            r.tm == '+',
            r.bm == '+',
            r.lm == '+',
            r.rm == '+',
            r.c == '+',
    {
        BoxChars {
            h: '-',
            v: '|',
            tl: '+',
            tr: '+',
            bl: '+',
            br: '+',
            tm: '+',
            bm: '+',
            lm: '+',
            rm: '+',
            c: '+',
        }
    }
}

/// `n` spaces.
pub open spec fn pad_str(n: nat) -> Seq<char> {
    Seq::new(n, |k: int| ' ')
}

/// `n` copies of `c`.
pub open spec fn char_run(c: char, n: nat) -> Seq<char> {
    Seq::new(n, |k: int| c)
}

/// `a - b`, stopping at zero.
pub open spec fn sat_sub(a: nat, b: nat) -> nat {
    if a >= b {
        (a - b) as nat
    } else {
        0
    }
}

/// Decimal digits of `n`.
pub open spec fn dec_digits(n: nat) -> Seq<char>
    decreases n,
{
    if n < 10 {
        seq![((48 + n) as u8) as char]
    } else {
        dec_digits(n / 10).push(((48 + n % 10) as u8) as char)
    }
}

/// `n` written in decimal.
pub fn usize_to_string(n: usize) -> (r: String)
    ensures
        r@ == dec_digits(n as nat),
    decreases n,
{
    if n < 10 {
        let mut s = String::new();
        push_char(&mut s, ((48 + n as u8)) as char);
        proof {
            assert(s@ =~= dec_digits(n as nat));
        }
        s
    } else {
        let mut s = usize_to_string(n / 10);
        push_char(&mut s, (48 + (n % 10) as u8) as char);
        s
    }
}

/// `n` spaces.
pub fn spaces(n: usize) -> (r: String)
    ensures
        r@ == pad_str(n as nat),
{
    let mut s = String::new();
    let mut k: usize = 0;
    while k < n
        invariant
            k <= n,
            s@ =~= pad_str(k as nat),
        decreases n - k,
    {
        push_char(&mut s, ' ');
        proof {
            assert(s@ =~= pad_str((k + 1) as nat));
        }
        k = k + 1;
    }
    s
}

/// `n` copies of `c`.
pub fn char_run_exec(c: char, n: usize) -> (r: String)
    ensures
        r@ == char_run(c, n as nat),
{
    let mut s = String::new();
    let mut k: usize = 0;
    while k < n
        invariant
            k <= n,
            s@ =~= char_run(c, k as nat),
        decreases n - k,
    {
        push_char(&mut s, c);
        proof {
            assert(s@ =~= char_run(c, (k + 1) as nat));
        }
        k = k + 1;
    }
    s
}

/// Visible width of one cell.
pub open spec fn vw(s: Seq<char>) -> nat {
    visible_width_spec(s)
}

/// The number printed over output column `i`: the 1-based source column
/// where one is recorded, the 1-based output position otherwise.
pub open spec fn num_label(sel: Seq<int>, i: int) -> nat {
    if 0 <= i < sel.len() {
        (sel[i] + 1) as nat
    } else {
        (i + 1) as nat
    }
}

/// Width of the widest cell of column `i` over all rows.
pub open spec fn col_cells_max(rows: Seq<Seq<Seq<char>>>, i: int) -> nat
    decreases rows.len(),
{
    if rows.len() == 0 {
        0
    } else {
        let m = col_cells_max(rows.drop_last(), i);
        let r = rows.last();
        if 0 <= i < r.len() && vw(r[i]) > m {
            vw(r[i])
        } else {
            m
        }
    }
}

/// Number of output columns drawn: headers and rows all reach in.
pub open spec fn ncols_spec(headers: Seq<Seq<char>>, rows: Seq<Seq<Seq<char>>>) -> nat {
    if headers.len() > crate::processor::rows_max_len(rows) {
        headers.len()
    } else {
        crate::processor::rows_max_len(rows)
    }
}

/// Width of output column `i`: the widest of its header, its cells, and,
/// when the numbering row is on, its printed number.
pub open spec fn col_width(
    headers: Seq<Seq<char>>,
    rows: Seq<Seq<Seq<char>>>,
    sel: Seq<int>,
    num: bool,
    i: int,
) -> nat {
    let hw: nat = if 0 <= i < headers.len() {
        vw(headers[i])
    } else {
        0
    };
    let cw = col_cells_max(rows, i);
    let base: nat = if hw > cw {
        hw
    } else {
        cw
    };
    if num {
        let nw = dec_digits(num_label(sel, i)).len();
        if nw > base {
            nw
        } else {
            base
        }
    } else {
        base
    }
}

/// All column widths.
pub open spec fn widths_spec(
    headers: Seq<Seq<char>>,
    rows: Seq<Seq<Seq<char>>>,
    sel: Seq<int>,
    num: bool,
) -> Seq<nat> {
    Seq::new(ncols_spec(headers, rows), |i: int| col_width(headers, rows, sel, num, i))
}

/// Bounds under which rendering arithmetic stays inside the machine word:
/// modest padding and column counts, cells and separator strings of
/// bounded length, and source column numbers below the largest index.
pub open spec fn render_ok(
    headers: Seq<Seq<char>>,
    rows: Seq<Seq<Seq<char>>>,
    sel: Seq<int>,
    args: &AppArgs,
) -> bool {
    &&& args.w <= 4096
    &&& headers.len() <= 4096
    &&& sel.len() <= 4096
    &&& crate::processor::rows_max_len(rows) <= 4096
    &&& forall|i: int| 0 <= i < headers.len() ==> (#[trigger] headers[i]).len() <= 65536
    &&& forall|k: int, i: int|
        0 <= k < rows.len() && 0 <= i < rows[k].len() ==> (#[trigger] rows[k][i]).len() <= 65536
    &&& forall|i: int| 0 <= i < sel.len() ==> 0 <= #[trigger] sel[i] < usize::MAX
}

proof fn lemma_dec_len_pos(n: nat)
    ensures
        dec_digits(n).len() >= 1,
    decreases n,
{
    if n >= 10 {
        lemma_dec_len_pos(n / 10);
    }
}

proof fn lemma_dec_len_le(n: nat, d: nat)
    requires
        d >= 1,
        n < crate::numcmp::pow10(d),
    ensures
        dec_digits(n).len() <= d,
    decreases d,
{
    if n >= 10 {
        assert(crate::numcmp::pow10(1) == 10) by {
            reveal_with_fuel(crate::numcmp::pow10, 2);
        }
        assert(d >= 2) by {
            if d == 1 {
                assert(n < crate::numcmp::pow10(1));
            }
        }
        let p = crate::numcmp::pow10((d - 1) as nat);
        assert(crate::numcmp::pow10(d) == 10 * p);
        assert(10 * (n / 10) <= n);
        assert(n / 10 < p);
        lemma_dec_len_le(n / 10, (d - 1) as nat);
    }
}

/// Computes the width of every output column: the widest of header, cells
/// and printed column number, per column.
pub fn calculate_widths(data: &TableData, args: &AppArgs) -> (r: Vec<usize>)
    requires
        render_ok(
            data.headers.deep_view(),
            data.rows.deep_view(),
            data.original_column_indices@.map_values(|u: usize| u as int),
            args,
        ),
    ensures
        r@.len() == ncols_spec(data.headers.deep_view(), data.rows.deep_view()),
        forall|i: int|
            0 <= i < r@.len() ==> r@[i] as nat == col_width(
                data.headers.deep_view(),
                data.rows.deep_view(),
                data.original_column_indices@.map_values(|u: usize| u as int),
                args.num,
                i,
            ),
        forall|i: int| 0 <= i < r@.len() ==> r@[i] <= 200000,
{
    let ghost hv = data.headers.deep_view();
    let ghost rv = data.rows.deep_view();
    let ghost selv = data.original_column_indices@.map_values(|u: usize| u as int);

    // Number of columns: headers or the longest row.
    let mut ncols: usize = data.headers.len();
    let rn = data.rows.len();
    let mut k: usize = 0;
    while k < rn
        invariant
            k <= rn,
            rn == data.rows@.len(),
            rv == data.rows.deep_view(),
            hv == data.headers.deep_view(),
            ncols as nat == ncols_spec(hv, rv.take(k as int)),
        decreases rn - k,
    {
        proof {
            assert(rv.take(k + 1).drop_last() =~~= rv.take(k as int));
            assert(rv.take(k + 1).last() == rv[k as int]);
            assert(data.rows.deep_view()[k as int] == data.rows@[k as int].deep_view());
        }
        let l = data.rows[k].len();
        if l > ncols {
            ncols = l;
        }
        k = k + 1;
    }
    proof {
        assert(rv.take(rn as int) =~~= rv);
    }

    let mut widths: Vec<usize> = Vec::new();
    let mut i: usize = 0;
    while i < ncols
        invariant
            i <= ncols,
            ncols as nat == ncols_spec(hv, rv),
            hv == data.headers.deep_view(),
            rv == data.rows.deep_view(),
            selv == data.original_column_indices@.map_values(|u: usize| u as int),
            render_ok(hv, rv, selv, args),
            widths@.len() == i,
            forall|q: int|
                0 <= q < i ==> widths@[q] as nat == col_width(hv, rv, selv, args.num, q),
            forall|q: int| 0 <= q < i ==> widths@[q] <= 200000,
        decreases ncols - i,
    {
        let mut w: usize = if i < data.headers.len() {
            proof {
                assert(hv[i as int] == data.headers@[i as int]@);
                assert(hv[i as int].len() <= 65536);
            }
            visible_width(data.headers[i].as_str())
        } else {
            0
        };
        let rn2 = data.rows.len();
        let mut k2: usize = 0;
        while k2 < rn2
            invariant
                k2 <= rn2,
                rn2 == data.rows@.len(),
                hv == data.headers.deep_view(),
                rv == data.rows.deep_view(),
                render_ok(hv, rv, selv, args),
                i < ncols,
                w as nat == (if (if i < hv.len() {
                    vw(hv[i as int])
                } else {
                    0
                }) > col_cells_max(rv.take(k2 as int), i as int) {
                    (if i < hv.len() {
                        vw(hv[i as int])
                    } else {
                        0
                    })
                } else {
                    col_cells_max(rv.take(k2 as int), i as int)
                }),
                w <= 3 * 65536,
            decreases rn2 - k2,
        {
            proof {
                assert(rv.take(k2 + 1).drop_last() =~~= rv.take(k2 as int));
                assert(rv.take(k2 + 1).last() == rv[k2 as int]);
                assert(data.rows.deep_view()[k2 as int] == data.rows@[k2 as int].deep_view());
            }
            let row = &data.rows[k2];
            if i < row.len() {
                proof {
                    assert(rv[k2 as int][i as int] == row@[i as int]@);
                    assert(rv[k2 as int][i as int].len() <= 65536);
                }
                let cw = visible_width(row[i].as_str());
                if cw > w {
                    w = cw;
                }
            }
            k2 = k2 + 1;
        }
        proof {
            assert(rv.take(rn2 as int) =~~= rv);
        }
        if args.num {
            let lbl: usize = if i < data.original_column_indices.len() {
                proof {
                    assert(selv[i as int] == data.original_column_indices@[i as int] as int);
                    assert(selv[i as int] < usize::MAX);
                }
                data.original_column_indices[i] + 1
            } else {
                i + 1
            };
            let ns = usize_to_string(lbl);
            let nw = ns.as_str().unicode_len();
            proof {
                assert(crate::numcmp::pow10(20) > 0xFFFFFFFFFFFFFFFF) by {
                    reveal_with_fuel(crate::numcmp::pow10, 21);
                }
                assert((lbl as nat) < crate::numcmp::pow10(20));
                lemma_dec_len_le(lbl as nat, 20);
                lemma_dec_len_pos(lbl as nat);
            }
            if nw > w {
                w = nw;
            }
        }
        widths.push(w);
        i = i + 1;
    }
    widths
}

/// Separator text between two adjacent cells of a content line: the
/// vertical border, the configured column separator, or plain padding.
pub open spec fn cell_sep(borders: bool, cs: bool, colsep: Seq<char>, padw: nat) -> Seq<char> {
    if borders {
        seq!['\u{2502}']
    } else {
        if cs {
            colsep
        } else {
            pad_str(padw)
        }
    }
}

/// One aligned cell: padding, the value padded to the column width on the
/// left or the right, padding; in no-format mode the bare value.
pub open spec fn cell_text(val: Seq<char>, w: nat, padw: nat, nf: bool, right: bool) -> Seq<
    char,
> {
    if nf {
        val
    } else {
        let fill = pad_str(sat_sub(w, vw(val)));
        if right {
            pad_str(padw) + fill + val + pad_str(padw)
        } else {
            pad_str(padw) + val + fill + pad_str(padw)
        }
    }
}

/// The border characters around a line, when borders are drawn.
pub open spec fn line_wrap(body: Seq<char>, borders: bool) -> Seq<char> {
    if borders {
        seq!['\u{2502}'] + body + seq!['\u{2502}']
    } else {
        body
    }
}

/// Cells of the numbering row from column `i` on.  The number is padded to
/// the column width on the right; no-format mode does not apply here.
pub open spec fn num_cells(
    widths: Seq<nat>,
    sel: Seq<int>,
    borders: bool,
    cs: bool,
    colsep: Seq<char>,
    padw: nat,
    i: int,
) -> Seq<char>
    decreases widths.len() - i,
{
    if i < 0 || i >= widths.len() {
        Seq::empty()
    } else {
        let txt = dec_digits(num_label(sel, i));
        let sep: Seq<char> = if i > 0 {
            cell_sep(borders, cs, colsep, padw)
        } else {
            Seq::empty()
        };
        sep + pad_str(padw) + txt + pad_str(sat_sub(widths[i], txt.len())) + pad_str(padw)
            + num_cells(widths, sel, borders, cs, colsep, padw, i + 1)
    }
}

/// Cells of the header row from column `i` on.  A header cell whose text
/// begins with `-` is right-aligned and loses that mark.
pub open spec fn hdr_cells(
    headers: Seq<Seq<char>>,
    widths: Seq<nat>,
    borders: bool,
    cs: bool,
    colsep: Seq<char>,
    padw: nat,
    nf: bool,
    i: int,
) -> Seq<char>
    decreases headers.len() - i,
{
    if i < 0 || i >= headers.len() {
        Seq::empty()
    } else {
        let right = headers[i].len() > 0 && headers[i][0] == '-';
        let content = if right {
            headers[i].drop_first()
        } else {
            headers[i]
        };
        let w: nat = if i < widths.len() {
            widths[i]
        } else {
            vw(content)
        };
        let sep: Seq<char> = if i > 0 {
            cell_sep(borders, cs, colsep, padw)
        } else {
            Seq::empty()
        };
        sep + cell_text(content, w, padw, nf, right) + hdr_cells(
            headers,
            widths,
            borders,
            cs,
            colsep,
            padw,
            nf,
            i + 1,
        )
    }
}

/// Cells of one data row from column `i` on.  A value that parses as a
/// number is right-aligned unless numeric alignment is off.
pub open spec fn data_cells(
    row: Seq<Seq<char>>,
    widths: Seq<nat>,
    borders: bool,
    cs: bool,
    colsep: Seq<char>,
    padw: nat,
    nf: bool,
    nn: bool,
    i: int,
) -> Seq<char>
    decreases row.len() - i,
{
    if i < 0 || i >= row.len() {
        Seq::empty()
    } else {
        let val = row[i];
        let right = !nn && is_float_lit(val);
        let w: nat = if i < widths.len() {
            widths[i]
        } else {
            vw(val)
        };
        let sep: Seq<char> = if i > 0 {
            cell_sep(borders, cs, colsep, padw)
        } else {
            Seq::empty()
        };
        sep + cell_text(val, w, padw, nf, right) + data_cells(
            row,
            widths,
            borders,
            cs,
            colsep,
            padw,
            nf,
            nn,
            i + 1,
        )
    }
}

/// Body of a horizontal rule from column `i` on: each column is filled to
/// its padded width, and the joints carry the crossing character when any
/// vertical separator is drawn.
pub open spec fn sep_cells(
    widths: Seq<nat>,
    padw: nat,
    borders: bool,
    cs: bool,
    cross: char,
    horiz: char,
    i: int,
) -> Seq<char>
    decreases widths.len() - i,
{
    if i < 0 || i >= widths.len() {
        Seq::empty()
    } else {
        let joint: Seq<char> = if i > 0 {
            if borders || cs {
                seq![cross]
            } else {
                char_run(horiz, padw)
            }
        } else {
            Seq::empty()
        };
        joint + char_run(horiz, (widths[i] + 2 * padw) as nat) + sep_cells(
            widths,
            padw,
            borders,
            cs,
            cross,
            horiz,
            i + 1,
        )
    }
}

/// A horizontal rule: edge characters when bordered, the filled column
/// bodies in between.
pub open spec fn sep_line_spec(
    widths: Seq<nat>,
    padw: nat,
    borders: bool,
    cs: bool,
    left: char,
    right: char,
    cross: char,
    horiz: char,
) -> Seq<char> {
    let body = sep_cells(widths, padw, borders, cs, cross, horiz, 0);
    if borders {
        seq![left] + body + seq![right]
    } else {
        body
    }
}

/// The data lines from row `i` on, with the footer rule immediately before
/// the last row when asked for.
pub open spec fn data_lines_spec(
    rows: Seq<Seq<Seq<char>>>,
    widths: Seq<nat>,
    borders: bool,
    cs: bool,
    colsep: Seq<char>,
    padw: nat,
    nf: bool,
    nn: bool,
    fs: bool,
    mid_sep: Seq<char>,
    i: int,
) -> Seq<Seq<char>>
    decreases rows.len() - i,
{
    if i < 0 || i >= rows.len() {
        Seq::empty()
    } else {
        let pre: Seq<Seq<char>> = if fs && i > 0 && i == rows.len() - 1 {
            seq![mid_sep]
        } else {
            Seq::empty()
        };
        pre + seq![
            line_wrap(data_cells(rows[i], widths, borders, cs, colsep, padw, nf, nn, 0), borders),
        ] + data_lines_spec(rows, widths, borders, cs, colsep, padw, nf, nn, fs, mid_sep, i + 1)
    }
}

/// Every line of the rendered table, top to bottom: optional top border or
/// numbering block, the header with its rule, the data rows with the
/// footer rule, the bottom border.
pub open spec fn render_lines_spec(
    headers: Seq<Seq<char>>,
    rows: Seq<Seq<Seq<char>>>,
    sel: Seq<int>,
    args: &AppArgs,
) -> Seq<Seq<char>> {
    let widths = widths_spec(headers, rows, sel, args.num);
    let borders = args.pp;
    let cs = args.cs || args.pp;
    let draw_ts = args.ts || args.header is Some;
    let padw = args.w as nat;
    let colsep = args.colsep@;
    let top_sep = sep_line_spec(
        widths,
        padw,
        borders,
        cs,
        '\u{250c}',
        '\u{2510}',
        '\u{252c}',
        '\u{2500}',
    );
    let mid_sep = if borders {
        sep_line_spec(widths, padw, borders, cs, '\u{251c}', '\u{2524}', '\u{253c}', '\u{2500}')
    } else {
        sep_line_spec(widths, padw, borders, cs, '\u{2500}', '\u{2500}', '\u{2500}', '\u{2500}')
    };
    let bot_sep = sep_line_spec(
        widths,
        padw,
        borders,
        cs,
        '\u{2514}',
        '\u{2518}',
        '\u{2534}',
        '\u{2500}',
    );
    let num_block: Seq<Seq<char>> = if args.num {
        (if borders {
            seq![top_sep]
        } else {
            Seq::empty()
        }) + seq![line_wrap(num_cells(widths, sel, borders, cs, colsep, padw, 0), borders)] + (
        if borders || draw_ts {
            seq![mid_sep]
        } else {
            Seq::empty()
        })
    } else {
        if borders {
            seq![top_sep]
        } else {
            Seq::empty()
        }
    };
    let hdr_block: Seq<Seq<char>> = if headers.len() > 0 {
        seq![line_wrap(hdr_cells(headers, widths, borders, cs, colsep, padw, args.nf, 0), borders)]
            + (if draw_ts {
            seq![mid_sep]
        } else {
            Seq::empty()
        })
    } else {
        Seq::empty()
    };
    let data_block = data_lines_spec(
        rows,
        widths,
        borders,
        cs,
        colsep,
        padw,
        args.nf,
        args.nn,
        args.fs,
        mid_sep,
        0,
    );
    let bot_block: Seq<Seq<char>> = if borders {
        seq![bot_sep]
    } else {
        Seq::empty()
    };
    num_block + hdr_block + data_block + bot_block
}

/// Draws one horizontal rule.
fn sep_line_exec(
    widths: &Vec<usize>,
    Ghost(ws): Ghost<Seq<nat>>,
    padw: usize,
    borders: bool,
    cs: bool,
    left: char,
    right: char,
    cross: char,
    horiz: char,
) -> (r: String)
    requires
        padw <= 4096,
        widths@.len() == ws.len(),
        forall|i: int| 0 <= i < ws.len() ==> widths@[i] as nat == ws[i],
        forall|i: int| 0 <= i < ws.len() ==> widths@[i] <= 200000,
    ensures
        r@ == sep_line_spec(ws, padw as nat, borders, cs, left, right, cross, horiz),
{
    let ghost lead: Seq<char> = if borders {
        seq![left]
    } else {
        Seq::empty()
    };
    let ghost body0 = sep_cells(ws, padw as nat, borders, cs, cross, horiz, 0);
    let mut line = String::new();
    if borders {
        push_char(&mut line, left);
    }
    proof {
        assert(line@ =~= lead);
    }
    let n = widths.len();
    let mut i: usize = 0;
    while i < n
        invariant
            i <= n,
            n == widths@.len(),
            n == ws.len(),
            padw <= 4096,
            forall|q: int| 0 <= q < ws.len() ==> widths@[q] as nat == ws[q],
            forall|q: int| 0 <= q < ws.len() ==> widths@[q] <= 200000,
            line@ + sep_cells(ws, padw as nat, borders, cs, cross, horiz, i as int) == lead
                + body0,
        decreases n - i,
    {
        let ghost tail = sep_cells(ws, padw as nat, borders, cs, cross, horiz, i + 1);
        let ghost joint: Seq<char> = if i > 0 {
            if borders || cs {
                seq![cross]
            } else {
                char_run(horiz, padw as nat)
            }
        } else {
            Seq::empty()
        };
        let ghost run = char_run(horiz, (ws[i as int] + 2 * (padw as nat)) as nat);
        proof {
            assert(sep_cells(ws, padw as nat, borders, cs, cross, horiz, i as int) == joint + run
                + tail);
        }
        let ghost before = line@;
        if i > 0 {
            if borders || cs {
                push_char(&mut line, cross);
            } else {
                let run0 = char_run_exec(horiz, padw);
                line.append(run0.as_str());
            }
        }
        proof {
            assert(line@ =~= before + joint);
        }
        let body = char_run_exec(horiz, widths[i] + 2 * padw);
        line.append(body.as_str());
        proof {
            assert(line@ =~= before + joint + run);
            assert((before + joint + run) + tail =~= before + (joint + run + tail));
        }
        i = i + 1;
    }
    proof {
        assert(sep_cells(ws, padw as nat, borders, cs, cross, horiz, n as int)
            =~= Seq::<char>::empty());
        assert(line@ + Seq::<char>::empty() =~= line@);
    }
    if borders {
        push_char(&mut line, right);
        proof {
            assert(line@ =~= seq![left] + body0 + seq![right]);
        }
    }
    line
}

/// Appends the separator that stands before every cell but the first.
fn push_cell_sep(line: &mut String, borders: bool, cs: bool, colsep: &str, padw: usize)
    ensures
        final(line)@ == old(line)@ + cell_sep(borders, cs, colsep@, padw as nat),
{
    let ghost before = line@;
    if borders {
        push_char(line, '\u{2502}');
        proof {
            assert(line@ =~= before + cell_sep(borders, cs, colsep@, padw as nat));
        }
    } else if cs {
        line.append(colsep);
    } else {
        let p = spaces(padw);
        line.append(p.as_str());
    }
}

/// Appends one aligned cell.
fn push_cell_text(line: &mut String, val: &str, w: usize, padw: usize, nf: bool, right: bool)
    requires
        w <= 200000,
        padw <= 4096,
    ensures
        final(line)@ == old(line)@ + cell_text(val@, w as nat, padw as nat, nf, right),
{
    let ghost before = line@;
    if nf {
        line.append(val);
        return ;
    }
    let cw = visible_width(val);
    let fill = if w > cw {
        w - cw
    } else {
        0
    };
    proof {
        assert(fill as nat == sat_sub(w as nat, vw(val@)));
    }
    let pad = spaces(padw);
    let fills = spaces(fill);
    line.append(pad.as_str());
    if right {
        line.append(fills.as_str());
        line.append(val);
    } else {
        line.append(val);
        line.append(fills.as_str());
    }
    line.append(pad.as_str());
    proof {
        assert(line@ =~= before + cell_text(val@, w as nat, padw as nat, nf, right));
    }
}

/// Draws the numbering row.
fn num_line_exec(
    widths: &Vec<usize>,
    Ghost(ws): Ghost<Seq<nat>>,
    sel: &Vec<usize>,
    borders: bool,
    cs: bool,
    colsep: &str,
    padw: usize,
) -> (r: String)
    requires
        padw <= 4096,
        widths@.len() == ws.len(),
        forall|i: int| 0 <= i < ws.len() ==> widths@[i] as nat == ws[i],
        forall|i: int| 0 <= i < ws.len() ==> widths@[i] <= 200000,
        forall|i: int| 0 <= i < sel@.len() ==> #[trigger] sel@[i] < usize::MAX,
        ws.len() <= 100000,
    ensures
        r@ == line_wrap(
            num_cells(
                ws,
                sel@.map_values(|u: usize| u as int),
                borders,
                cs,
                colsep@,
                padw as nat,
                0,
            ),
            borders,
        ),
{
    let ghost selv = sel@.map_values(|u: usize| u as int);
    let ghost body0 = num_cells(ws, selv, borders, cs, colsep@, padw as nat, 0);
    let mut line = String::new();
    if borders {
        push_char(&mut line, '\u{2502}');
    }
    let ghost lead = line@;
    let n = widths.len();
    let mut i: usize = 0;
    while i < n
        invariant
            i <= n,
            n == widths@.len(),
            n == ws.len(),
            n <= 100000,
            padw <= 4096,
            selv == sel@.map_values(|u: usize| u as int),
            forall|q: int| 0 <= q < ws.len() ==> widths@[q] as nat == ws[q],
            forall|q: int| 0 <= q < ws.len() ==> widths@[q] <= 200000,
            forall|q: int| 0 <= q < sel@.len() ==> #[trigger] sel@[q] < usize::MAX,
            line@ + num_cells(ws, selv, borders, cs, colsep@, padw as nat, i as int) == lead
                + body0,
        decreases n - i,
    {
        let ghost tail = num_cells(ws, selv, borders, cs, colsep@, padw as nat, i + 1);
        let ghost txt = dec_digits(num_label(selv, i as int));
        let ghost sep: Seq<char> = if i > 0 {
            cell_sep(borders, cs, colsep@, padw as nat)
        } else {
            Seq::empty()
        };
        proof {
            assert(num_cells(ws, selv, borders, cs, colsep@, padw as nat, i as int) == sep
                + pad_str(padw as nat) + txt + pad_str(sat_sub(ws[i as int], txt.len())) + pad_str(
                padw as nat,
            ) + tail);
        }
        let ghost before = line@;
        if i > 0 {
            push_cell_sep(&mut line, borders, cs, colsep, padw);
        }
        let lbl: usize = if i < sel.len() {
            proof {
                assert(selv[i as int] == sel@[i as int] as int);
            }
            sel[i] + 1
        } else {
            i + 1
        };
        proof {
            assert(lbl as nat == num_label(selv, i as int));
        }
        let ns = usize_to_string(lbl);
        let nw = ns.as_str().unicode_len();
        let w = widths[i];
        let fill = if w > nw {
            w - nw
        } else {
            0
        };
        proof {
            assert(fill as nat == sat_sub(ws[i as int], txt.len()));
        }
        let pad = spaces(padw);
        let fills = spaces(fill);
        line.append(pad.as_str());
        line.append(ns.as_str());
        line.append(fills.as_str());
        line.append(pad.as_str());
        proof {
            assert(line@ =~= before + sep + pad_str(padw as nat) + txt + pad_str(
                sat_sub(ws[i as int], txt.len()),
            ) + pad_str(padw as nat));
            assert(line@ + tail =~= before + (sep + pad_str(padw as nat) + txt + pad_str(
                sat_sub(ws[i as int], txt.len()),
            ) + pad_str(padw as nat) + tail));
        }
        i = i + 1;
    }
    proof {
        assert(num_cells(ws, selv, borders, cs, colsep@, padw as nat, n as int)
            =~= Seq::<char>::empty());
        assert(line@ + Seq::<char>::empty() =~= line@);
    }
    if borders {
        push_char(&mut line, '\u{2502}');
        proof {
            assert(line@ =~= line_wrap(body0, borders));
        }
    }
    line
}

/// Draws the header row.
#[verifier::rlimit(100)]
fn hdr_line_exec(
    headers: &Vec<String>,
    widths: &Vec<usize>,
    Ghost(ws): Ghost<Seq<nat>>,
    borders: bool,
    cs: bool,
    colsep: &str,
    padw: usize,
    nf: bool,
) -> (r: String)
    requires
        padw <= 4096,
        widths@.len() == ws.len(),
        forall|i: int| 0 <= i < ws.len() ==> widths@[i] as nat == ws[i],
        forall|i: int| 0 <= i < ws.len() ==> widths@[i] <= 200000,
        forall|i: int| 0 <= i < headers@.len() ==> (#[trigger] headers@[i])@.len() <= 65536,
    ensures
        r@ == line_wrap(
            hdr_cells(headers.deep_view(), ws, borders, cs, colsep@, padw as nat, nf, 0),
            borders,
        ),
{
    let ghost hv = headers.deep_view();
    let ghost body0 = hdr_cells(hv, ws, borders, cs, colsep@, padw as nat, nf, 0);
    let mut line = String::new();
    if borders {
        push_char(&mut line, '\u{2502}');
    }
    let ghost lead = line@;
    let n = headers.len();
    let mut i: usize = 0;
    while i < n
        invariant
            i <= n,
            n == headers@.len(),
            hv == headers.deep_view(),
            padw <= 4096,
            widths@.len() == ws.len(),
            forall|q: int| 0 <= q < ws.len() ==> widths@[q] as nat == ws[q],
            forall|q: int| 0 <= q < ws.len() ==> widths@[q] <= 200000,
            forall|q: int| 0 <= q < headers@.len() ==> (#[trigger] headers@[q])@.len() <= 65536,
            line@ + hdr_cells(hv, ws, borders, cs, colsep@, padw as nat, nf, i as int) == lead
                + body0,
        decreases n - i,
    {
        let ghost tail = hdr_cells(hv, ws, borders, cs, colsep@, padw as nat, nf, i + 1);
        proof {
            assert(hv[i as int] == headers@[i as int]@);
        }
        let h = &headers[i];
        let hn = h.as_str().unicode_len();
        let right = hn > 0 && h.as_str().get_char(0) == '-';
        let content: &str = if right {
            let c = h.as_str().substring_char(1, hn);
            proof {
                assert(c@ =~= hv[i as int].drop_first());
            }
            c
        } else {
            h.as_str()
        };
        let ghost cv = if right {
            hv[i as int].drop_first()
        } else {
            hv[i as int]
        };
        let w: usize = if i < widths.len() {
            widths[i]
        } else {
            let vwc = visible_width(content);
            proof {
                assert(cv.len() <= 65536);
            }
            vwc
        };
        let ghost sep: Seq<char> = if i > 0 {
            cell_sep(borders, cs, colsep@, padw as nat)
        } else {
            Seq::empty()
        };
        proof {
            assert(hdr_cells(hv, ws, borders, cs, colsep@, padw as nat, nf, i as int) == sep
                + cell_text(cv, w as nat, padw as nat, nf, right) + tail);
        }
        let ghost before = line@;
        if i > 0 {
            push_cell_sep(&mut line, borders, cs, colsep, padw);
        }
        push_cell_text(&mut line, content, w, padw, nf, right);
        proof {
            assert(line@ + tail =~= before + (sep + cell_text(cv, w as nat, padw as nat, nf, right)
                + tail));
        }
        i = i + 1;
    }
    proof {
        assert(hdr_cells(hv, ws, borders, cs, colsep@, padw as nat, nf, n as int)
            =~= Seq::<char>::empty());
        assert(line@ + Seq::<char>::empty() =~= line@);
    }
    if borders {
        push_char(&mut line, '\u{2502}');
        proof {
            assert(line@ =~= line_wrap(body0, borders));
        }
    }
    line
}

/// Draws one data row.
#[verifier::rlimit(100)]
fn data_line_exec(
    row: &Vec<String>,
    widths: &Vec<usize>,
    Ghost(ws): Ghost<Seq<nat>>,
    borders: bool,
    cs: bool,
    colsep: &str,
    padw: usize,
    nf: bool,
    nn: bool,
) -> (r: String)
    requires
        padw <= 4096,
        widths@.len() == ws.len(),
        forall|i: int| 0 <= i < ws.len() ==> widths@[i] as nat == ws[i],
        forall|i: int| 0 <= i < ws.len() ==> widths@[i] <= 200000,
        forall|i: int| 0 <= i < row@.len() ==> (#[trigger] row@[i])@.len() <= 65536,
    ensures
        r@ == line_wrap(
            data_cells(row.deep_view(), ws, borders, cs, colsep@, padw as nat, nf, nn, 0),
            borders,
        ),
{
    let ghost rv = row.deep_view();
    let ghost body0 = data_cells(rv, ws, borders, cs, colsep@, padw as nat, nf, nn, 0);
    let mut line = String::new();
    if borders {
        push_char(&mut line, '\u{2502}');
    }
    let ghost lead = line@;
    let n = row.len();
    let mut i: usize = 0;
    while i < n
        invariant
            i <= n,
            n == row@.len(),
            rv == row.deep_view(),
            padw <= 4096,
            widths@.len() == ws.len(),
            forall|q: int| 0 <= q < ws.len() ==> widths@[q] as nat == ws[q],
            forall|q: int| 0 <= q < ws.len() ==> widths@[q] <= 200000,
            forall|q: int| 0 <= q < row@.len() ==> (#[trigger] row@[q])@.len() <= 65536,
            line@ + data_cells(rv, ws, borders, cs, colsep@, padw as nat, nf, nn, i as int) == lead
                + body0,
        decreases n - i,
    {
        let ghost tail = data_cells(rv, ws, borders, cs, colsep@, padw as nat, nf, nn, i + 1);
        proof {
            assert(rv[i as int] == row@[i as int]@);
        }
        let val = row[i].as_str();
        let right = !nn && is_numeric_cell(val);
        let w: usize = if i < widths.len() {
            widths[i]
        } else {
            visible_width(val)
        };
        let ghost sep: Seq<char> = if i > 0 {
            cell_sep(borders, cs, colsep@, padw as nat)
        } else {
            Seq::empty()
        };
        proof {
            assert(data_cells(rv, ws, borders, cs, colsep@, padw as nat, nf, nn, i as int) == sep
                + cell_text(rv[i as int], w as nat, padw as nat, nf, right) + tail);
        }
        let ghost before = line@;
        if i > 0 {
            push_cell_sep(&mut line, borders, cs, colsep, padw);
        }
        push_cell_text(&mut line, val, w, padw, nf, right);
        proof {
            assert(line@ + tail =~= before + (sep + cell_text(
                rv[i as int],
                w as nat,
                padw as nat,
                nf,
                right,
            ) + tail));
        }
        i = i + 1;
    }
    proof {
        assert(data_cells(rv, ws, borders, cs, colsep@, padw as nat, nf, nn, n as int)
            =~= Seq::<char>::empty());
        assert(line@ + Seq::<char>::empty() =~= line@);
    }
    if borders {
        push_char(&mut line, '\u{2502}');
        proof {
            assert(line@ =~= line_wrap(body0, borders));
        }
    }
    line
}

/// Renders the finished table as its aligned text grid, one line per
/// entry.
pub fn format_ascii(data: &TableData, args: &AppArgs) -> (r: Vec<String>)
    requires
        render_ok(
            data.headers.deep_view(),
            data.rows.deep_view(),
            data.original_column_indices@.map_values(|u: usize| u as int),
            args,
        ),
    ensures
        r.deep_view() == render_lines_spec(
            data.headers.deep_view(),
            data.rows.deep_view(),
            data.original_column_indices@.map_values(|u: usize| u as int),
            args,
        ),
{
    let ghost hv = data.headers.deep_view();
    let ghost rv = data.rows.deep_view();
    let ghost selv = data.original_column_indices@.map_values(|u: usize| u as int);
    let widths = calculate_widths(data, args);
    let ghost ws = widths_spec(hv, rv, selv, args.num);
    proof {
        assert(widths@.len() == ws.len());
        assert(forall|i: int| 0 <= i < ws.len() ==> widths@[i] as nat == ws[i]);
    }
    let borders = args.pp;
    let cflag = args.cs || args.pp;
    let draw_ts = args.ts || args.header.is_some();
    let padw = args.w;
    let colsep = args.colsep.as_str();

    let ghost top_sep_v = sep_line_spec(
        ws,
        padw as nat,
        borders,
        cflag,
        '\u{250c}',
        '\u{2510}',
        '\u{252c}',
        '\u{2500}',
    );
    let ghost mid_sep_v = if borders {
        sep_line_spec(ws, padw as nat, borders, cflag, '\u{251c}', '\u{2524}', '\u{253c}', '\u{2500}')
    } else {
        sep_line_spec(ws, padw as nat, borders, cflag, '\u{2500}', '\u{2500}', '\u{2500}', '\u{2500}')
    };
    let mid_sep: String = if borders {
        sep_line_exec(
            &widths,
            Ghost(ws),
            padw,
            borders,
            cflag,
            '\u{251c}',
            '\u{2524}',
            '\u{253c}',
            '\u{2500}',
        )
    } else {
        sep_line_exec(
            &widths,
            Ghost(ws),
            padw,
            borders,
            cflag,
            '\u{2500}',
            '\u{2500}',
            '\u{2500}',
            '\u{2500}',
        )
    };

    let mut out: Vec<String> = Vec::new();

    // Numbering block, or just the top border.
    if args.num {
        if borders {
            out.push(
                sep_line_exec(
                    &widths,
                    Ghost(ws),
                    padw,
                    borders,
                    cflag,
                    '\u{250c}',
                    '\u{2510}',
                    '\u{252c}',
                    '\u{2500}',
                ),
            );
        }
        proof {
            assert(ws.len() <= 100000);
            assert forall|q: int|
                0 <= q < data.original_column_indices@.len() implies #[trigger] data
                .original_column_indices@[q] < usize::MAX by {
                assert(selv[q] == data.original_column_indices@[q] as int);
            }
        }
        out.push(
            num_line_exec(
                &widths,
                Ghost(ws),
                &data.original_column_indices,
                borders,
                cflag,
                colsep,
                padw,
            ),
        );
        if borders || draw_ts {
            let m = mid_sep.clone();
            out.push(m);
        }
    } else {
        if borders {
            out.push(
                sep_line_exec(
                    &widths,
                    Ghost(ws),
                    padw,
                    borders,
                    cflag,
                    '\u{250c}',
                    '\u{2510}',
                    '\u{252c}',
                    '\u{2500}',
                ),
            );
        }
    }
    let ghost num_block_v = render_num_block(hv, rv, selv, args);
    proof {
        assert(out.deep_view() =~~= num_block_v);
    }

    // Header block.
    if data.headers.len() > 0 {
        proof {
            assert forall|q: int|
                0 <= q < data.headers@.len() implies (#[trigger] data.headers@[q])@.len()
                <= 65536 by {
                assert(hv[q] == data.headers@[q]@);
            }
        }
        let hl = hdr_line_exec(
            &data.headers,
            &widths,
            Ghost(ws),
            borders,
            cflag,
            colsep,
            padw,
            args.nf,
        );
        out.push(hl);
        if draw_ts {
            let m = mid_sep.clone();
            out.push(m);
        }
    }
    let ghost hdr_block_v = render_hdr_block(hv, rv, selv, args);
    proof {
        assert(out.deep_view() =~~= num_block_v + hdr_block_v);
    }

    // Data rows, with the footer rule before the last one.
    let rn = data.rows.len();
    let mut k: usize = 0;
    while k < rn
        invariant
            k <= rn,
            rn == data.rows@.len(),
            hv == data.headers.deep_view(),
            rv == data.rows.deep_view(),
            selv == data.original_column_indices@.map_values(|u: usize| u as int),
            render_ok(hv, rv, selv, args),
            ws == widths_spec(hv, rv, selv, args.num),
            widths@.len() == ws.len(),
            forall|q: int| 0 <= q < ws.len() ==> widths@[q] as nat == ws[q],
            forall|q: int| 0 <= q < ws.len() ==> widths@[q] <= 200000,
            padw == args.w,
            borders == args.pp,
            cflag == (args.cs || args.pp),
            colsep@ == args.colsep@,
            mid_sep@ == mid_sep_v,
            mid_sep_v == (if borders {
                sep_line_spec(
                    ws,
                    padw as nat,
                    borders,
                    cflag,
                    '\u{251c}',
                    '\u{2524}',
                    '\u{253c}',
                    '\u{2500}',
                )
            } else {
                sep_line_spec(
                    ws,
                    padw as nat,
                    borders,
                    cflag,
                    '\u{2500}',
                    '\u{2500}',
                    '\u{2500}',
                    '\u{2500}',
                )
            }),
            out.deep_view() + data_lines_spec(
                rv,
                ws,
                borders,
                cflag,
                args.colsep@,
                padw as nat,
                args.nf,
                args.nn,
                args.fs,
                mid_sep_v,
                k as int,
            ) == num_block_v + hdr_block_v + data_lines_spec(
                rv,
                ws,
                borders,
                cflag,
                args.colsep@,
                padw as nat,
                args.nf,
                args.nn,
                args.fs,
                mid_sep_v,
                0,
            ),
        decreases rn - k,
    {
        let ghost tail = data_lines_spec(
            rv,
            ws,
            borders,
            cflag,
            args.colsep@,
            padw as nat,
            args.nf,
            args.nn,
            args.fs,
            mid_sep_v,
            k + 1,
        );
        proof {
            assert(rv[k as int] == data.rows@[k as int].deep_view());
        }
        let ghost before = out.deep_view();
        if args.fs && k > 0 && k == rn - 1 {
            let m = mid_sep.clone();
            out.push(m);
        }
        proof {
            assert forall|q: int|
                0 <= q < data.rows@[k as int]@.len() implies (#[trigger] data.rows@[k as int]@[q])@.len()
                <= 65536 by {
                assert(rv[k as int][q] == data.rows@[k as int]@[q]@);
                assert(rv[k as int][q].len() <= 65536);
            }
        }
        let dl = data_line_exec(
            &data.rows[k],
            &widths,
            Ghost(ws),
            borders,
            cflag,
            colsep,
            padw,
            args.nf,
            args.nn,
        );
        out.push(dl);
        proof {
            let pre_seq: Seq<Seq<char>> = if args.fs && k > 0 && k == rn - 1 {
                seq![mid_sep_v]
            } else {
                Seq::<Seq<char>>::empty()
            };
            let row_line = line_wrap(
                data_cells(
                    rv[k as int],
                    ws,
                    borders,
                    cflag,
                    args.colsep@,
                    padw as nat,
                    args.nf,
                    args.nn,
                    0,
                ),
                borders,
            );
            assert(out.deep_view() =~~= before + pre_seq + seq![row_line]);
            assert(data_lines_spec(
                rv,
                ws,
                borders,
                cflag,
                args.colsep@,
                padw as nat,
                args.nf,
                args.nn,
                args.fs,
                mid_sep_v,
                k as int,
            ) == pre_seq + seq![row_line] + tail);
            assert(out.deep_view() + tail =~~= before + (pre_seq + seq![row_line] + tail));
        }
        k = k + 1;
    }
    proof {
        assert(data_lines_spec(
            rv,
            ws,
            borders,
            cflag,
            args.colsep@,
            padw as nat,
            args.nf,
            args.nn,
            args.fs,
            mid_sep_v,
            rn as int,
        ) =~~= Seq::<Seq<char>>::empty());
        assert(out.deep_view() + Seq::<Seq<char>>::empty() =~~= out.deep_view());
    }

    // Bottom border.
    if borders {
        out.push(
            sep_line_exec(
                &widths,
                Ghost(ws),
                padw,
                borders,
                cflag,
                '\u{2514}',
                '\u{2518}',
                '\u{2534}',
                '\u{2500}',
            ),
        );
    }
    proof {
        assert(out.deep_view() =~~= render_lines_spec(hv, rv, selv, args));
    }
    out
}

/// The lines of the numbering block (or the bare top border).
pub open spec fn render_num_block(
    headers: Seq<Seq<char>>,
    rows: Seq<Seq<Seq<char>>>,
    sel: Seq<int>,
    args: &AppArgs,
) -> Seq<Seq<char>> {
    let widths = widths_spec(headers, rows, sel, args.num);
    let borders = args.pp;
    let cs = args.cs || args.pp;
    let draw_ts = args.ts || args.header is Some;
    let padw = args.w as nat;
    let colsep = args.colsep@;
    let top_sep = sep_line_spec(
        widths,
        padw,
        borders,
        cs,
        '\u{250c}',
        '\u{2510}',
        '\u{252c}',
        '\u{2500}',
    );
    let mid_sep = if borders {
        sep_line_spec(widths, padw, borders, cs, '\u{251c}', '\u{2524}', '\u{253c}', '\u{2500}')
    } else {
        sep_line_spec(widths, padw, borders, cs, '\u{2500}', '\u{2500}', '\u{2500}', '\u{2500}')
    };
    if args.num {
        (if borders {
            seq![top_sep]
        } else {
            Seq::<Seq<char>>::empty()
        }) + seq![line_wrap(num_cells(widths, sel, borders, cs, colsep, padw, 0), borders)] + (
        if borders || draw_ts {
            seq![mid_sep]
        } else {
            Seq::<Seq<char>>::empty()
        })
    } else {
        if borders {
            seq![top_sep]
        } else {
            Seq::<Seq<char>>::empty()
        }
    }
}

/// The lines of the header block.
pub open spec fn render_hdr_block(
    headers: Seq<Seq<char>>,
    rows: Seq<Seq<Seq<char>>>,
    sel: Seq<int>,
    args: &AppArgs,
) -> Seq<Seq<char>> {
    let widths = widths_spec(headers, rows, sel, args.num);
    let borders = args.pp;
    let cs = args.cs || args.pp;
    let draw_ts = args.ts || args.header is Some;
    let padw = args.w as nat;
    let colsep = args.colsep@;
    let mid_sep = if borders {
        sep_line_spec(widths, padw, borders, cs, '\u{251c}', '\u{2524}', '\u{253c}', '\u{2500}')
    } else {
        sep_line_spec(widths, padw, borders, cs, '\u{2500}', '\u{2500}', '\u{2500}', '\u{2500}')
    };
    if headers.len() > 0 {
        seq![line_wrap(hdr_cells(headers, widths, borders, cs, colsep, padw, args.nf, 0), borders)]
            + (if draw_ts {
            seq![mid_sep]
        } else {
            Seq::<Seq<char>>::empty()
        })
    } else {
        Seq::<Seq<char>>::empty()
    }
}

} // verus!
