//! Cell comparison for sorting: when both cells are floating-point
//! literals they are compared by their numeric value, otherwise by code
//! points.  The numeric value is compared exactly on the decimal digits, so
//! no floating-point arithmetic is involved.

use vstd::prelude::*;

use crate::chars::is_digit_char;

verus! {

#[derive(Clone, Copy, PartialEq, Eq, Structural, Debug)]
pub enum Cmp {
    Lt,
    Eq,
    Gt,
}

pub open spec fn flip_cmp(c: Cmp) -> Cmp {
    match c {
        Cmp::Lt => Cmp::Gt,
        Cmp::Eq => Cmp::Eq,
        Cmp::Gt => Cmp::Lt,
    }
}

/// Shape of one cell as a floating-point literal: not a literal at all,
/// not-a-number, an infinity, or a finite decimal.  For a finite decimal,
/// `digits` are the mantissa digits with the dot removed, `frac` how many of
/// them were behind the dot, and `eneg`/`edigits` the sign and digits of the
/// exponent (empty when none was written).
pub enum NumForm {
    NotNum,
    Nan,
    Inf { neg: bool },
    Fin { neg: bool, digits: Seq<u8>, frac: nat, eneg: bool, edigits: Seq<u8> },
}

/// Case-insensitive match of one character against a lower-case letter.
pub open spec fn eq_ci(c: char, lower: char) -> bool {
    c as u32 == lower as u32 || c as u32 + 32 == lower as u32
}

/// Case-insensitive match of `s[i0..]` against the lower-case word `w`.
pub open spec fn word_matches(s: Seq<char>, i0: int, w: Seq<char>) -> bool {
    s.len() - i0 == w.len() && (forall|k: int| 0 <= k < w.len() ==> eq_ci(s[i0 + k], w[k]))
}

/// First position at or after `i` whose character is not a decimal digit.
pub open spec fn digits_end(s: Seq<char>, i: int) -> int
    decreases s.len() - i,
{
    if i < 0 || i >= s.len() || !is_digit_char(s[i]) {
        i
    } else {
        digits_end(s, i + 1)
    }
}

/// Digit values of `s[from..to]`, assuming those characters are digits.
pub open spec fn digit_seq(s: Seq<char>, from: int, to: int) -> Seq<u8> {
    if 0 <= from <= to <= s.len() {
        Seq::new((to - from) as nat, |k: int| (s[from + k] as u32 - 48) as u8)
    } else {
        Seq::empty()
    }
}

/// The mantissa and exponent read from position `i0` on, or `NotNum` when
/// the text from `i0` is not a number body.
pub open spec fn number_form_at(s: Seq<char>, i0: int, neg: bool) -> NumForm {
    let d1e = digits_end(s, i0);
    let has_dot = d1e < s.len() && s[d1e] == '.';
    let d2s = if has_dot {
        d1e + 1
    } else {
        d1e
    };
    let d2e = digits_end(s, d2s);
    if d1e == i0 && d2e == d2s {
        NumForm::NotNum
    } else {
        let digits = digit_seq(s, i0, d1e) + digit_seq(s, d2s, d2e);
        let frac = (d2e - d2s) as nat;
        if d2e == s.len() {
            NumForm::Fin { neg, digits, frac, eneg: false, edigits: Seq::empty() }
        } else if s[d2e] == 'e' || s[d2e] == 'E' {
            let es = if d2e + 1 < s.len() && (s[d2e + 1] == '+' || s[d2e + 1] == '-') {
                d2e + 2
            } else {
                d2e + 1
            };
            let eneg = d2e + 1 < s.len() && s[d2e + 1] == '-';
            if es < s.len() && digits_end(s, es) == s.len() {
                NumForm::Fin { neg, digits, frac, eneg, edigits: digit_seq(s, es, s.len() as int) }
            } else {
                NumForm::NotNum
            }
        } else {
            NumForm::NotNum
        }
    }
}

/// How `s` reads as a floating-point literal: optional sign, then a
/// case-insensitive `inf`, `infinity` or `nan`, or digits with an optional
/// dot (at least one digit) and an optional signed exponent.
pub open spec fn float_kind(s: Seq<char>) -> NumForm {
    let i0: int = if s.len() > 0 && (s[0] == '+' || s[0] == '-') {
        1
    } else {
        0
    };
    let neg = s.len() > 0 && s[0] == '-';
    if word_matches(s, i0, seq!['i', 'n', 'f']) || word_matches(
        s,
        i0,
        seq!['i', 'n', 'f', 'i', 'n', 'i', 't', 'y'],
    ) {
        NumForm::Inf { neg }
    } else if word_matches(s, i0, seq!['n', 'a', 'n']) {
        NumForm::Nan
    } else {
        number_form_at(s, i0, neg)
    }
}

/// Whether `s` parses as a floating-point literal.
pub open spec fn is_float_lit(s: Seq<char>) -> bool {
    !(float_kind(s) is NotNum)
}

/// Powers of ten.
pub open spec fn pow10(n: nat) -> nat
    decreases n,
{
    if n == 0 {
        1
    } else {
        10 * pow10((n - 1) as nat)
    }
}

/// Value of a digit sequence read as a decimal number.
pub open spec fn digits_val(d: Seq<u8>) -> nat
    decreases d.len(),
{
    if d.len() == 0 {
        0
    } else {
        (digits_val(d.drop_last()) * 10 + d.last()) as nat
    }
}

/// `d` without its leading zeros.
pub open spec fn strip0(d: Seq<u8>) -> Seq<u8>
    decreases d.len(),
{
    if d.len() > 0 && d[0] == 0 {
        strip0(d.drop_first())
    } else {
        d
    }
}

pub open spec fn all_zero(d: Seq<u8>) -> bool {
    forall|k: int| 0 <= k < d.len() ==> d[k] == 0
}

/// Saturation bound for exponent magnitudes: exponents at or beyond
/// `pow10(30)` all count as this bound, far outside the range where any
/// written mantissa could bring the value back.
pub open spec fn exp_cap() -> nat {
    pow10(30)
}

/// Magnitude of an exponent written with digits `ed`, saturated at
/// `exp_cap`.
pub open spec fn exp_mag(ed: Seq<u8>) -> nat {
    if digits_val(ed) > exp_cap() {
        exp_cap()
    } else {
        digits_val(ed)
    }
}

/// Position of the most significant digit of a finite decimal, counted so
/// that a value in `[10^(p-1), 10^p)` has position `p`.
pub open spec fn msd_pos(digits: Seq<u8>, frac: nat, eneg: bool, edigits: Seq<u8>) -> int {
    let e: int = if eneg {
        -(exp_mag(edigits) as int)
    } else {
        exp_mag(edigits) as int
    };
    strip0(digits).len() + e - frac
}

/// Compare two digit sequences aligned at their first digit, treating the
/// shorter one as padded with zeros on the right.
pub open spec fn lexz(a: Seq<u8>, b: Seq<u8>) -> Cmp
    decreases a.len() + b.len(),
{
    if a.len() == 0 && b.len() == 0 {
        Cmp::Eq
    } else if a.len() == 0 {
        if all_zero(b) {
            Cmp::Eq
        } else {
            Cmp::Lt
        }
    } else if b.len() == 0 {
        if all_zero(a) {
            Cmp::Eq
        } else {
            Cmp::Gt
        }
    } else if a[0] < b[0] {
        Cmp::Lt
    } else if a[0] > b[0] {
        Cmp::Gt
    } else {
        lexz(a.drop_first(), b.drop_first())
    }
}

/// Compare the magnitudes of two finite decimals: zero first, then the
/// position of the most significant digit, then the digits themselves.
pub open spec fn mag_cmp(
    d1: Seq<u8>,
    f1: nat,
    en1: bool,
    ed1: Seq<u8>,
    d2: Seq<u8>,
    f2: nat,
    en2: bool,
    ed2: Seq<u8>,
) -> Cmp {
    let s1 = strip0(d1);
    let s2 = strip0(d2);
    if s1.len() == 0 && s2.len() == 0 {
        Cmp::Eq
    } else if s1.len() == 0 {
        Cmp::Lt
    } else if s2.len() == 0 {
        Cmp::Gt
    } else {
        let p1 = msd_pos(d1, f1, en1, ed1);
        let p2 = msd_pos(d2, f2, en2, ed2);
        if p1 < p2 {
            Cmp::Lt
        } else if p1 > p2 {
            Cmp::Gt
        } else {
            lexz(s1, s2)
        }
    }
}

/// Compare two finite decimals: all zeros are equal whatever their sign,
/// negatives come before positives, and magnitudes decide the rest.
pub open spec fn fin_cmp(
    n1: bool,
    d1: Seq<u8>,
    f1: nat,
    en1: bool,
    ed1: Seq<u8>,
    n2: bool,
    d2: Seq<u8>,
    f2: nat,
    en2: bool,
    ed2: Seq<u8>,
) -> Cmp {
    let z1 = strip0(d1).len() == 0;
    let z2 = strip0(d2).len() == 0;
    if z1 && z2 {
        Cmp::Eq
    } else if z1 {
        if n2 {
            Cmp::Gt
        } else {
            Cmp::Lt
        }
    } else if z2 {
        if n1 {
            Cmp::Lt
        } else {
            Cmp::Gt
        }
    } else if n1 != n2 {
        if n1 {
            Cmp::Lt
        } else {
            Cmp::Gt
        }
    } else if n1 {
        flip_cmp(mag_cmp(d1, f1, en1, ed1, d2, f2, en2, ed2))
    } else {
        mag_cmp(d1, f1, en1, ed1, d2, f2, en2, ed2)
    }
}

/// Numeric comparison of two parsed literals.  Any not-a-number compares
/// equal to everything, mirroring how an unordered float comparison is
/// treated as a tie.
pub open spec fn num_cmp(x: NumForm, y: NumForm) -> Cmp {
    match (x, y) {
        (NumForm::Nan, _) => Cmp::Eq,
        (_, NumForm::Nan) => Cmp::Eq,
        (NumForm::NotNum, _) => Cmp::Eq,
        (_, NumForm::NotNum) => Cmp::Eq,
        (NumForm::Inf { neg: a }, NumForm::Inf { neg: b }) => {
            if a == b {
                Cmp::Eq
            } else if a {
                Cmp::Lt
            } else {
                Cmp::Gt
            }
        },
        (NumForm::Inf { neg: a }, _) => {
            if a {
                Cmp::Lt
            } else {
                Cmp::Gt
            }
        },
        (_, NumForm::Inf { neg: b }) => {
            if b {
                Cmp::Gt
            } else {
                Cmp::Lt
            }
        },
        (
            NumForm::Fin { neg: n1, digits: d1, frac: f1, eneg: en1, edigits: ed1 },
            NumForm::Fin { neg: n2, digits: d2, frac: f2, eneg: en2, edigits: ed2 },
        ) => fin_cmp(n1, d1, f1, en1, ed1, n2, d2, f2, en2, ed2),
    }
}

/// Lexicographic comparison of two texts by code point, which matches the
/// byte order of their UTF-8 encodings.
pub open spec fn lex_str(a: Seq<char>, b: Seq<char>) -> Cmp
    decreases a.len() + b.len(),
{
    if a.len() == 0 && b.len() == 0 {
        Cmp::Eq
    } else if a.len() == 0 {
        Cmp::Lt
    } else if b.len() == 0 {
        Cmp::Gt
    } else if (a[0] as u32) < (b[0] as u32) {
        Cmp::Lt
    } else if (a[0] as u32) > (b[0] as u32) {
        Cmp::Gt
    } else {
        lex_str(a.drop_first(), b.drop_first())
    }
}

/// Comparison of two cells: numeric when both parse as floating-point
/// literals, lexicographic otherwise.
pub open spec fn cell_cmp_spec(a: Seq<char>, b: Seq<char>) -> Cmp {
    if is_float_lit(a) && is_float_lit(b) {
        num_cmp(float_kind(a), float_kind(b))
    } else {
        lex_str(a, b)
    }
}

/// Sort order of two cells: `a` may stay before `b`.
pub open spec fn cell_le(a: Seq<char>, b: Seq<char>) -> bool {
    cell_cmp_spec(a, b) != Cmp::Gt
}

pub open spec fn hd0(a: Seq<u8>) -> u8 {
    if a.len() > 0 {
        a[0]
    } else {
        0
    }
}

pub open spec fn tl0(a: Seq<u8>) -> Seq<u8> {
    if a.len() > 0 {
        a.drop_first()
    } else {
        Seq::empty()
    }
}

/// `lexz` steps uniformly over the zero-padded heads.
proof fn lemma_lexz_unfold(a: Seq<u8>, b: Seq<u8>)
    ensures
        lexz(a, b) == (if a.len() == 0 && b.len() == 0 {
            Cmp::Eq
        } else if hd0(a) < hd0(b) {
            Cmp::Lt
        } else if hd0(a) > hd0(b) {
            Cmp::Gt
        } else {
            lexz(tl0(a), tl0(b))
        }),
{
    if a.len() == 0 && b.len() == 0 {
    } else if a.len() == 0 {
        assert(all_zero(b) <==> (b[0] == 0 && all_zero(b.drop_first()))) by {
            if b[0] == 0 && all_zero(b.drop_first()) {
                assert forall|k: int| 0 <= k < b.len() implies b[k] == 0 by {
                    if k > 0 {
                        assert(b.drop_first()[k - 1] == 0);
                    }
                }
            }
        }
    } else if b.len() == 0 {
        assert(all_zero(a) <==> (a[0] == 0 && all_zero(a.drop_first()))) by {
            if a[0] == 0 && all_zero(a.drop_first()) {
                assert forall|k: int| 0 <= k < a.len() implies a[k] == 0 by {
                    if k > 0 {
                        assert(a.drop_first()[k - 1] == 0);
                    }
                }
            }
        }
    }
}

proof fn lemma_lexz_flip(a: Seq<u8>, b: Seq<u8>)
    ensures
        lexz(b, a) == flip_cmp(lexz(a, b)),
    decreases a.len() + b.len(),
{
    lemma_lexz_unfold(a, b);
    lemma_lexz_unfold(b, a);
    if !(a.len() == 0 && b.len() == 0) && hd0(a) == hd0(b) {
        lemma_lexz_flip(tl0(a), tl0(b));
    }
}

proof fn lemma_lexz_trans(a: Seq<u8>, b: Seq<u8>, c: Seq<u8>)
    ensures
        lexz(a, b) != Cmp::Gt && lexz(b, c) != Cmp::Gt ==> lexz(a, c) != Cmp::Gt,
        lexz(a, b) == Cmp::Eq && lexz(b, c) == Cmp::Eq ==> lexz(a, c) == Cmp::Eq,
    decreases a.len() + b.len() + c.len(),
{
    lemma_lexz_unfold(a, b);
    lemma_lexz_unfold(b, c);
    lemma_lexz_unfold(a, c);
    if a.len() == 0 && b.len() == 0 && c.len() == 0 {
    } else {
        lemma_lexz_trans(tl0(a), tl0(b), tl0(c));
    }
}

proof fn lemma_lex_str_flip(a: Seq<char>, b: Seq<char>)
    ensures
        lex_str(b, a) == flip_cmp(lex_str(a, b)),
    decreases a.len() + b.len(),
{
    if a.len() > 0 && b.len() > 0 && a[0] as u32 == b[0] as u32 {
        lemma_lex_str_flip(a.drop_first(), b.drop_first());
    }
}

proof fn lemma_lex_str_trans(a: Seq<char>, b: Seq<char>, c: Seq<char>)
    ensures
        lex_str(a, b) != Cmp::Gt && lex_str(b, c) != Cmp::Gt ==> lex_str(a, c) != Cmp::Gt,
    decreases a.len() + b.len() + c.len(),
{
    if a.len() > 0 && b.len() > 0 && c.len() > 0 {
        lemma_lex_str_trans(a.drop_first(), b.drop_first(), c.drop_first());
    }

}

proof fn lemma_mag_flip(
    d1: Seq<u8>,
    f1: nat,
    en1: bool,
    ed1: Seq<u8>,
    d2: Seq<u8>,
    f2: nat,
    en2: bool,
    ed2: Seq<u8>,
)
    ensures
        mag_cmp(d2, f2, en2, ed2, d1, f1, en1, ed1) == flip_cmp(
            mag_cmp(d1, f1, en1, ed1, d2, f2, en2, ed2),
        ),
{
    lemma_lexz_flip(strip0(d1), strip0(d2));
}

proof fn lemma_mag_le_trans(
    d1: Seq<u8>,
    f1: nat,
    en1: bool,
    ed1: Seq<u8>,
    d2: Seq<u8>,
    f2: nat,
    en2: bool,
    ed2: Seq<u8>,
    d3: Seq<u8>,
    f3: nat,
    en3: bool,
    ed3: Seq<u8>,
)
    requires
        strip0(d1).len() > 0,
        strip0(d2).len() > 0,
        strip0(d3).len() > 0,
    ensures
        mag_cmp(d1, f1, en1, ed1, d2, f2, en2, ed2) != Cmp::Gt && mag_cmp(
            d2,
            f2,
            en2,
            ed2,
            d3,
            f3,
            en3,
            ed3,
        ) != Cmp::Gt ==> mag_cmp(d1, f1, en1, ed1, d3, f3, en3, ed3) != Cmp::Gt,
        mag_cmp(d1, f1, en1, ed1, d2, f2, en2, ed2) != Cmp::Lt && mag_cmp(
            d2,
            f2,
            en2,
            ed2,
            d3,
            f3,
            en3,
            ed3,
        ) != Cmp::Lt ==> mag_cmp(d1, f1, en1, ed1, d3, f3, en3, ed3) != Cmp::Lt,
{
    lemma_lexz_trans(strip0(d1), strip0(d2), strip0(d3));
    lemma_lexz_trans(strip0(d3), strip0(d2), strip0(d1));
    lemma_lexz_flip(strip0(d1), strip0(d2));
    lemma_lexz_flip(strip0(d2), strip0(d3));
    lemma_lexz_flip(strip0(d1), strip0(d3));
}

/// Whether a parsed form takes part in numeric ordering: an infinity or a
/// finite decimal.
pub open spec fn is_ordered_num(x: NumForm) -> bool {
    (x is Inf) || (x is Fin)
}

proof fn lemma_num_flip(x: NumForm, y: NumForm)
    ensures
        num_cmp(y, x) == flip_cmp(num_cmp(x, y)),
{
    if x is Fin && y is Fin {
        lemma_mag_flip(
            x->Fin_digits,
            x->Fin_frac,
            x->Fin_eneg,
            x->Fin_edigits,
            y->Fin_digits,
            y->Fin_frac,
            y->Fin_eneg,
            y->Fin_edigits,
        );
    }
}

proof fn lemma_num_le_trans(x: NumForm, y: NumForm, z: NumForm)
    requires
        is_ordered_num(x),
        is_ordered_num(y),
        is_ordered_num(z),
    ensures
        num_cmp(x, y) != Cmp::Gt && num_cmp(y, z) != Cmp::Gt ==> num_cmp(x, z) != Cmp::Gt,
{
    if x is Fin && y is Fin && z is Fin {
        let (d1, f1, en1, ed1) = (x->Fin_digits, x->Fin_frac, x->Fin_eneg, x->Fin_edigits);
        let (d2, f2, en2, ed2) = (y->Fin_digits, y->Fin_frac, y->Fin_eneg, y->Fin_edigits);
        let (d3, f3, en3, ed3) = (z->Fin_digits, z->Fin_frac, z->Fin_eneg, z->Fin_edigits);
        if strip0(d1).len() > 0 && strip0(d2).len() > 0 && strip0(d3).len() > 0 {
            lemma_mag_le_trans(d1, f1, en1, ed1, d2, f2, en2, ed2, d3, f3, en3, ed3);
        }
    }
}

/// Law: the cell order is total, so one of any two cells may come first.
pub proof fn lemma_cell_le_total(a: Seq<char>, b: Seq<char>)
    ensures
        cell_le(a, b) || cell_le(b, a),
{
    lemma_num_flip(float_kind(a), float_kind(b));
    lemma_lex_str_flip(a, b);
}

pub open spec fn all_digits(d: Seq<u8>) -> bool {
    forall|k: int| 0 <= k < d.len() ==> d[k] <= 9
}

/// A parsed form whose digit sequences hold digit values only.
pub open spec fn wf_num(x: NumForm) -> bool {
    match x {
        NumForm::Fin { digits, edigits, .. } => all_digits(digits) && all_digits(edigits),
        _ => true,
    }
}

proof fn lemma_digits_end_props(s: Seq<char>, i: int)
    requires
        0 <= i <= s.len(),
    ensures
        i <= digits_end(s, i) <= s.len(),
        forall|k: int| i <= k < digits_end(s, i) ==> is_digit_char(s[k]),
        digits_end(s, i) < s.len() ==> !is_digit_char(s[digits_end(s, i)]),
    decreases s.len() - i,
{
    if i < s.len() && is_digit_char(s[i]) {
        lemma_digits_end_props(s, i + 1);
    }
}

/// Every digit sequence a literal parses into holds digit values only.
pub proof fn lemma_float_kind_wf(s: Seq<char>)
    ensures
        wf_num(float_kind(s)),
{
    let i0: int = if s.len() > 0 && (s[0] == '+' || s[0] == '-') {
        1
    } else {
        0
    };
    if float_kind(s) is Fin {
        lemma_digits_end_props(s, i0);
        let d1e = digits_end(s, i0);
        let has_dot = d1e < s.len() && s[d1e] == '.';
        let d2s = if has_dot {
            d1e + 1
        } else {
            d1e
        };
        lemma_digits_end_props(s, d2s);
        let d2e = digits_end(s, d2s);
        assert(all_digits(digit_seq(s, i0, d1e)));
        assert(all_digits(digit_seq(s, d2s, d2e)));
        assert(all_digits(digit_seq(s, i0, d1e) + digit_seq(s, d2s, d2e)));
        if d2e < s.len() && (s[d2e] == 'e' || s[d2e] == 'E') {
            let es = if d2e + 1 < s.len() && (s[d2e + 1] == '+' || s[d2e + 1] == '-') {
                d2e + 2
            } else {
                d2e + 1
            };
            if es < s.len() && digits_end(s, es) == s.len() {
                lemma_digits_end_props(s, es);
                assert(all_digits(digit_seq(s, es, s.len() as int)));
            }
        }
    }
}

/// Law: the cell order is transitive on a column whose cells all parse as
/// numbers other than not-a-number, and on a column where none parses.
pub proof fn lemma_cell_le_trans(a: Seq<char>, b: Seq<char>, c: Seq<char>)
    requires
        (is_float_lit(a) && is_float_lit(b) && is_float_lit(c) && !(float_kind(a) is Nan) && !(
        float_kind(b) is Nan) && !(float_kind(c) is Nan)) || (!is_float_lit(a) && !is_float_lit(b)
            && !is_float_lit(c)),
    ensures
        cell_le(a, b) && cell_le(b, c) ==> cell_le(a, c),
{
    if is_float_lit(a) {
        lemma_num_le_trans(float_kind(a), float_kind(b), float_kind(c));
    } else {
        lemma_lex_str_trans(a, b, c);
    }
}

// ---------------------------------------------------------------------
// Executable side
// ---------------------------------------------------------------------

/// Executable twin of `NumForm`.
pub enum Numeral {
    NotNum,
    Nan,
    Inf { neg: bool },
    Fin { neg: bool, digits: Vec<u8>, frac: usize, eneg: bool, edigits: Vec<u8> },
}

impl View for Numeral {
    type V = NumForm;

    open spec fn view(&self) -> NumForm {
        match self {
            Numeral::NotNum => NumForm::NotNum,
            Numeral::Nan => NumForm::Nan,
            Numeral::Inf { neg } => NumForm::Inf { neg: *neg },
            Numeral::Fin { neg, digits, frac, eneg, edigits } => NumForm::Fin {
                neg: *neg,
                digits: digits@,
                frac: *frac as nat,
                eneg: *eneg,
                edigits: edigits@,
            },
        }
    }
}

fn eq_ci_exec(c: char, lower: char) -> (r: bool)
    ensures
        r == eq_ci(c, lower),
{
    let u = c as u32;
    let l = lower as u32;
    u == l || u + 32 == l
}

/// Case-insensitive comparison of `s[i0..]` against the whole word `w`.
fn word_check(s: &str, i0: usize, w: &str) -> (r: bool)
    requires
        i0 <= s@.len(),
    ensures
        r == word_matches(s@, i0 as int, w@),
{
    let n = s.unicode_len();
    let m = w.unicode_len();
    if n - i0 != m {
        return false;
    }
    let mut k: usize = 0;
    while k < m
        invariant
            k <= m,
            i0 + m == n,
            n == s@.len(),
            m == w@.len(),
            forall|q: int| 0 <= q < k ==> eq_ci(s@[i0 + q], w@[q]),
        decreases m - k,
    {
        if !eq_ci_exec(s.get_char(i0 + k), w.get_char(k)) {
            return false;
        }
        k = k + 1;
    }
    true
}

/// Executable twin of `digits_end`.
pub fn digits_scan(s: &str, i0: usize) -> (r: usize)
    requires
        i0 <= s@.len(),
    ensures
        r == digits_end(s@, i0 as int),
        i0 <= r <= s@.len(),
        forall|k: int| i0 <= k < r ==> is_digit_char(s@[k]),
{
    let n = s.unicode_len();
    let mut j = i0;
    loop
        invariant
            i0 <= j <= n,
            n == s@.len(),
            digits_end(s@, i0 as int) == digits_end(s@, j as int),
            forall|k: int| i0 <= k < j ==> is_digit_char(s@[k]),
        decreases n - j,
    {
        if j == n {
            return j;
        }
        if !crate::chars::digit_char_check(s.get_char(j)) {
            return j;
        }
        j = j + 1;
    }
}

/// Digit values of the all-digit range `s[from..to]`.
fn read_digits(s: &str, from: usize, to: usize) -> (d: Vec<u8>)
    requires
        from <= to <= s@.len(),
        forall|k: int| from <= k < to ==> is_digit_char(s@[k]),
    ensures
        d@ == digit_seq(s@, from as int, to as int),
{
    let mut d: Vec<u8> = Vec::new();
    let mut j = from;
    while j < to
        invariant
            from <= j <= to <= s@.len(),
            forall|k: int| from <= k < to ==> is_digit_char(s@[k]),
            d@ =~= digit_seq(s@, from as int, j as int),
        decreases to - j,
    {
        let c = s.get_char(j);
        d.push(((c as u32) - 48) as u8);
        proof {
            assert(d@ =~= digit_seq(s@, from as int, j + 1));
        }
        j = j + 1;
    }
    d
}

/// Reads a cell as a floating-point literal.
pub fn parse_numeral(s: &str) -> (r: Numeral)
    ensures
        r@ == float_kind(s@),
        wf_num(r@),
{
    proof {
        lemma_float_kind_wf(s@);
        reveal_strlit("inf");
        reveal_strlit("infinity");
        reveal_strlit("nan");
        assert("inf"@ =~= seq!['i', 'n', 'f']);
        assert("infinity"@ =~= seq!['i', 'n', 'f', 'i', 'n', 'i', 't', 'y']);
        assert("nan"@ =~= seq!['n', 'a', 'n']);
    }
    let n = s.unicode_len();
    let signed = n > 0 && { let c = s.get_char(0); c == '+' || c == '-' };
    let i0: usize = if signed { 1 } else { 0 };
    let neg = n > 0 && s.get_char(0) == '-';
    if word_check(s, i0, "inf") || word_check(s, i0, "infinity") {
        return Numeral::Inf { neg };
    }
    if word_check(s, i0, "nan") {
        return Numeral::Nan;
    }
    let d1e = digits_scan(s, i0);
    let has_dot = d1e < n && s.get_char(d1e) == '.';
    let d2s = if has_dot { d1e + 1 } else { d1e };
    let d2e = digits_scan(s, d2s);
    if d1e == i0 && d2e == d2s {
        return Numeral::NotNum;
    }
    let mut digits = read_digits(s, i0, d1e);
    let mut digits2 = read_digits(s, d2s, d2e);
    digits.append(&mut digits2);
    let frac = d2e - d2s;
    if d2e == n {
        return Numeral::Fin { neg, digits, frac, eneg: false, edigits: Vec::new() };
    }
    let ec = s.get_char(d2e);
    if ec == 'e' || ec == 'E' {
        let esigned = d2e + 1 < n && {
            let c = s.get_char(d2e + 1);
            c == '+' || c == '-'
        };
        let es = if esigned { d2e + 2 } else { d2e + 1 };
        let eneg = d2e + 1 < n && s.get_char(d2e + 1) == '-';
        if es < n && digits_scan(s, es) == n {
            let edigits = read_digits(s, es, n);
            return Numeral::Fin { neg, digits, frac, eneg, edigits };
        }
        return Numeral::NotNum;
    }
    Numeral::NotNum
}

/// Whether the cell parses as a floating-point literal.
pub fn is_numeric_cell(s: &str) -> (r: bool)
    ensures
        r == is_float_lit(s@),
{
    let p = parse_numeral(s);
    !matches!(p, Numeral::NotNum)
}

pub proof fn lemma_digits_val_concat(a: Seq<u8>, b: Seq<u8>)
    ensures
        digits_val(a + b) == digits_val(a) * pow10(b.len()) + digits_val(b),
    decreases b.len(),
{
    if b.len() == 0 {
        assert(a + b =~= a);
        assert(pow10(b.len()) == 1);
        assert(digits_val(b) == 0);
        assert(digits_val(a + b) == digits_val(a));
    } else {
        lemma_digits_val_concat(a, b.drop_last());
        assert((a + b).drop_last() =~= a + b.drop_last());
        assert((a + b).last() == b.last());
        let x = digits_val(a);
        let y = digits_val(b.drop_last());
        let p = pow10((b.len() - 1) as nat);
        assert(pow10(b.len()) == 10 * p);
        assert(digits_val(a + b) == digits_val(a + b.drop_last()) * 10 + b.last());
        assert(digits_val(a + b.drop_last()) == x * p + y);
        assert(digits_val(b) == y * 10 + b.last());
        assert((x * p + y) * 10 == x * (10 * p) + y * 10) by (nonlinear_arith);
        assert(x * (10 * p) == x * pow10(b.len()));
        assert(digits_val(a + b) == ((x * p + y) * 10 + b.last()));
        assert(digits_val(a + b) == x * pow10(b.len()) + (y * 10 + b.last()));
        assert(digits_val(a + b) == digits_val(a) * pow10(b.len()) + digits_val(b));
    }
}

proof fn lemma_all_zero_val(d: Seq<u8>)
    requires
        all_zero(d),
    ensures
        digits_val(d) == 0,
    decreases d.len(),
{
    if d.len() > 0 {
        assert(all_zero(d.drop_last()));
        lemma_all_zero_val(d.drop_last());
    }
}

proof fn lemma_digits_val_bounds(d: Seq<u8>)
    requires
        all_digits(d),
    ensures
        digits_val(d) < pow10(d.len()),
        d.len() > 0 && d[0] != 0 ==> digits_val(d) >= pow10((d.len() - 1) as nat),
    decreases d.len(),
{
    if d.len() > 0 {
        assert(all_digits(d.drop_last()));
        lemma_digits_val_bounds(d.drop_last());
        if d.len() > 1 {
            assert(d.drop_last()[0] == d[0]);
        }
    }
}

/// Value is unchanged by dropping leading zeros.
proof fn lemma_strip0_val(d: Seq<u8>, k: int)
    requires
        0 <= k <= d.len(),
        forall|q: int| 0 <= q < k ==> d[q] == 0,
    ensures
        digits_val(d.skip(k)) == digits_val(d),
{
    let pre = d.subrange(0, k);
    assert(all_zero(pre));
    lemma_all_zero_val(pre);
    assert(pre + d.skip(k) =~= d);
    lemma_digits_val_concat(pre, d.skip(k));
}

/// Index of the first nonzero entry, locating `strip0`.
fn first_nonzero(d: &Vec<u8>) -> (k: usize)
    ensures
        k <= d@.len(),
        forall|q: int| 0 <= q < k ==> d@[q] == 0,
        strip0(d@) == d@.skip(k as int),
        k < d@.len() ==> d@[k as int] != 0,
{
    let l = d.len();
    let mut k: usize = 0;
    proof {
        assert(d@.skip(0) =~= d@);
    }
    while k < l
        invariant
            k <= l,
            l == d@.len(),
            forall|q: int| 0 <= q < k ==> d@[q] == 0,
            strip0(d@) == strip0(d@.skip(k as int)),
        decreases l - k,
    {
        if d[k] != 0 {
            proof {
                assert(d@.skip(k as int)[0] == d@[k as int]);
            }
            return k;
        }
        proof {
            assert(d@.skip(k as int).drop_first() =~= d@.skip(k + 1));
        }
        k = k + 1;
    }
    proof {
        assert(d@.skip(l as int) =~= Seq::<u8>::empty());
    }
    k
}

/// Saturated exponent magnitude; executable twin of `exp_mag`.
fn exp_value(ed: &Vec<u8>) -> (v: u128)
    requires
        all_digits(ed@),
    ensures
        v as nat == exp_mag(ed@),
        v <= 1000000000000000000000000000000u128,
{
    proof {
        reveal_with_fuel(pow10, 32);
    }
    let k = first_nonzero(ed);
    let l = ed.len();
    proof {
        lemma_strip0_val(ed@, k as int);
        assert(all_digits(ed@.skip(k as int)));
        lemma_digits_val_bounds(ed@.skip(k as int));
    }
    if l - k > 30 {
        proof {
            assert(ed@.skip(k as int)[0] != 0);
        }
        return 1000000000000000000000000000000u128;
    }
    let mut v: u128 = 0;
    let mut j = k;
    while j < l
        invariant
            k <= j <= l,
            l == ed@.len(),
            all_digits(ed@),
            l - k <= 30,
            strip0(ed@) == ed@.skip(k as int),
            v as nat == digits_val(ed@.subrange(k as int, j as int)),
            (v as nat) < pow10((j - k) as nat),
            pow10(30) == 1000000000000000000000000000000,
        decreases l - j,
    {
        proof {
            assert(ed@.subrange(k as int, j + 1).drop_last() =~= ed@.subrange(k as int, j as int));
            assert(all_digits(ed@.subrange(k as int, j + 1)));
            lemma_digits_val_bounds(ed@.subrange(k as int, j + 1));
            assert(pow10((j + 1 - k) as nat) <= pow10(30)) by {
                lemma_pow10_le((j + 1 - k) as nat, 30);
            }
        }
        v = v * 10 + (ed[j] as u128);
        j = j + 1;
    }
    proof {
        assert(ed@.subrange(k as int, l as int) =~= ed@.skip(k as int));
        assert(digits_val(ed@) < pow10(30) || digits_val(ed@) <= pow10(30)) by {
            lemma_pow10_le((l - k) as nat, 30);
        }
        lemma_pow10_le((l - k) as nat, 30);
    }
    v
}

pub proof fn lemma_pow10_le(a: nat, b: nat)
    requires
        a <= b,
    ensures
        pow10(a) <= pow10(b),
        pow10(a) >= 1,
    decreases b,
{
    if b > 0 {
        if a == b {
            lemma_pow10_le((a - 1) as nat, (b - 1) as nat);
        } else {
            lemma_pow10_le(a, (b - 1) as nat);
        }
    }
}

/// Aligned digit comparison; executable twin of `lexz` on the stripped
/// digit sequences starting at `k1` and `k2`.
fn lexz_exec(d1: &Vec<u8>, k1: usize, d2: &Vec<u8>, k2: usize) -> (r: Cmp)
    requires
        k1 <= d1@.len(),
        k2 <= d2@.len(),
    ensures
        r == lexz(d1@.skip(k1 as int), d2@.skip(k2 as int)),
{
    let l1 = d1.len();
    let l2 = d2.len();
    let r1 = l1 - k1;
    let r2 = l2 - k2;
    let ghost s1 = d1@.skip(k1 as int);
    let ghost s2 = d2@.skip(k2 as int);
    let ghost mut g1 = s1;
    let ghost mut g2 = s2;
    let mut t: usize = 0;
    proof {
        assert(s1.skip(0) =~= s1);
        assert(s2.skip(0) =~= s2);
    }
    loop
        invariant
            s1 == d1@.skip(k1 as int),
            s2 == d2@.skip(k2 as int),
            s1.len() == r1,
            s2.len() == r2,
            r1 + k1 == l1 == d1@.len(),
            r2 + k2 == l2 == d2@.len(),
            t <= r1 ==> g1 == s1.skip(t as int),
            t > r1 ==> g1 == Seq::<u8>::empty(),
            t <= r2 ==> g2 == s2.skip(t as int),
            t > r2 ==> g2 == Seq::<u8>::empty(),
            t <= r1 || t <= r2,
            lexz(s1, s2) == lexz(g1, g2),
        decreases r1 + r2 - t,
    {
        proof {
            if t == r1 {
                assert(s1.skip(r1 as int) =~= Seq::<u8>::empty());
            }
            if t == r2 {
                assert(s2.skip(r2 as int) =~= Seq::<u8>::empty());
            }
        }
        if t >= r1 && t >= r2 {
            proof {
                lemma_lexz_unfold(g1, g2);
            }
            return Cmp::Eq;
        }
        let x: u8 = if t < r1 {
            d1[k1 + t]
        } else {
            0
        };
        let y: u8 = if t < r2 {
            d2[k2 + t]
        } else {
            0
        };
        proof {
            if t < r1 {
                assert(g1.len() == r1 - t);
                assert(g1[0] == s1[t as int]);
                assert(d1@.skip(k1 as int)[t as int] == d1@[k1 + t]);
            } else {
                assert(g1.len() == 0);
            }
            if t < r2 {
                assert(g2.len() == r2 - t);
                assert(d2@.skip(k2 as int)[t as int] == d2@[k2 + t]);
                assert(s2[t as int] == d2@[k2 + t]);
                assert(g2[0] == s2[t as int]);
                assert(hd0(g2) == g2[0]);
            } else {
                assert(g2.len() == 0);
            }
            lemma_lexz_unfold(g1, g2);
            assert(x == hd0(g1));
            assert(y == hd0(g2));
        }
        if x < y {
            return Cmp::Lt;
        }
        if x > y {
            return Cmp::Gt;
        }
        proof {
            if t < r1 {
                assert(tl0(s1.skip(t as int)) =~= s1.skip(t + 1));
            }
            if t < r2 {
                assert(tl0(s2.skip(t as int)) =~= s2.skip(t + 1));
            }
            g1 = tl0(g1);
            g2 = tl0(g2);
        }
        t = t + 1;
    }
}

/// Numeric comparison of two parsed literals; executable twin of
/// `num_cmp`.
fn num_cmp_exec(x: &Numeral, y: &Numeral) -> (r: Cmp)
    requires
        wf_num(x@),
        wf_num(y@),
    ensures
        r == num_cmp(x@, y@),
{
    match (x, y) {
        (Numeral::Nan, _) => Cmp::Eq,
        (_, Numeral::Nan) => Cmp::Eq,
        (Numeral::NotNum, _) => Cmp::Eq,
        (_, Numeral::NotNum) => Cmp::Eq,
        (Numeral::Inf { neg: a }, Numeral::Inf { neg: b }) => {
            if a == b {
                Cmp::Eq
            } else if *a {
                Cmp::Lt
            } else {
                Cmp::Gt
            }
        },
        (Numeral::Inf { neg: a }, _) => {
            if *a {
                Cmp::Lt
            } else {
                Cmp::Gt
            }
        },
        (_, Numeral::Inf { neg: b }) => {
            if *b {
                Cmp::Gt
            } else {
                Cmp::Lt
            }
        },
        (
            Numeral::Fin { neg: n1, digits: d1, frac: f1, eneg: en1, edigits: ed1 },
            Numeral::Fin { neg: n2, digits: d2, frac: f2, eneg: en2, edigits: ed2 },
        ) => {
            let k1 = first_nonzero(d1);
            let k2 = first_nonzero(d2);
            let z1 = k1 == d1.len();
            let z2 = k2 == d2.len();
            proof {
                if z1 {
                    assert(d1@.skip(k1 as int) =~= Seq::<u8>::empty());
                }
                if z2 {
                    assert(d2@.skip(k2 as int) =~= Seq::<u8>::empty());
                }
            }
            if z1 && z2 {
                Cmp::Eq
            } else if z1 {
                if *n2 { Cmp::Gt } else { Cmp::Lt }
            } else if z2 {
                if *n1 { Cmp::Lt } else { Cmp::Gt }
            } else if n1 != n2 {
                if *n1 { Cmp::Lt } else { Cmp::Gt }
            } else {
                let e1 = exp_value(ed1);
                let e2 = exp_value(ed2);
                proof {
                    reveal_with_fuel(pow10, 32);
                }
                let sig1: i128 = (d1.len() - k1) as i128;
                let sig2: i128 = (d2.len() - k2) as i128;
                let se1: i128 = if *en1 { -(e1 as i128) } else { e1 as i128 };
                let se2: i128 = if *en2 { -(e2 as i128) } else { e2 as i128 };
                let p1: i128 = sig1 + se1 - (*f1 as i128);
                let p2: i128 = sig2 + se2 - (*f2 as i128);
                let mag = if p1 < p2 {
                    Cmp::Lt
                } else if p1 > p2 {
                    Cmp::Gt
                } else {
                    lexz_exec(d1, k1, d2, k2)
                };
                if *n1 {
                    match mag {
                        Cmp::Lt => Cmp::Gt,
                        Cmp::Eq => Cmp::Eq,
                        Cmp::Gt => Cmp::Lt,
                    }
                } else {
                    mag
                }
            }
        },
    }
}

/// Lexicographic comparison by code point; executable twin of `lex_str`.
fn lex_str_exec(a: &str, b: &str) -> (r: Cmp)
    ensures
        r == lex_str(a@, b@),
{
    let la = a.unicode_len();
    let lb = b.unicode_len();
    let mut t: usize = 0;
    proof {
        assert(a@.skip(0) =~= a@);
        assert(b@.skip(0) =~= b@);
    }
    while t < la && t < lb
        invariant
            t <= la,
            t <= lb,
            la == a@.len(),
            lb == b@.len(),
            lex_str(a@, b@) == lex_str(a@.skip(t as int), b@.skip(t as int)),
        decreases la - t,
    {
        let x = a.get_char(t) as u32;
        let y = b.get_char(t) as u32;
        if x < y {
            return Cmp::Lt;
        }
        if x > y {
            return Cmp::Gt;
        }
        proof {
            assert(a@.skip(t as int).drop_first() =~= a@.skip(t + 1));
            assert(b@.skip(t as int).drop_first() =~= b@.skip(t + 1));
        }
        t = t + 1;
    }
    if la == lb {
        Cmp::Eq
    } else if t == la {
        Cmp::Lt
    } else {
        Cmp::Gt
    }
}

/// Compares two cells for sorting: numerically when both parse as
/// floating-point literals, else lexicographically by code point.
pub fn cell_cmp(a: &str, b: &str) -> (r: Cmp)
    ensures
        r == cell_cmp_spec(a@, b@),
{
    let x = parse_numeral(a);
    let y = parse_numeral(b);
    if matches!(x, Numeral::NotNum) || matches!(y, Numeral::NotNum) {
        lex_str_exec(a, b)
    } else {
        num_cmp_exec(&x, &y)
    }
}

/// Whether `a` may stay before `b` in the sorted order.
pub fn cell_le_exec(a: &str, b: &str) -> (r: bool)
    ensures
        r == cell_le(a@, b@),
{
    let c = cell_cmp(a, b);
    !matches!(c, Cmp::Gt)
}

} // verus!
