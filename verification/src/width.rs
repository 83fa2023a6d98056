//! Visible width of a cell: terminal escape sequences are stripped first,
//! then the remaining text is measured in display cells.

use vstd::prelude::*;

use crate::chars::{ascii_letter_check, digit_char_check, is_ascii_letter, is_ascii_printable,
    push_char};

verus! {

pub const ESC_CHAR: char = '\u{1b}';

pub const BEL_CHAR: char = '\u{7}';

/// Character allowed in the parameter part of a CSI sequence: digits, `;`, `?`.
pub open spec fn is_csi_param(c: char) -> bool {
    c == ';' || c == '?' || (48 <= c as u32 <= 57)
}

/// First position at or after `j` whose character is not a CSI parameter
/// character (or the end of the string).
pub open spec fn csi_params_end(s: Seq<char>, j: int) -> int
    decreases s.len() - j,
{
    if j < 0 || j >= s.len() || !is_csi_param(s[j]) {
        j
    } else {
        csi_params_end(s, j + 1)
    }
}

/// End position (exclusive) of the body of an OSC sequence whose body starts
/// at `j`: the body runs lazily up to the first BEL or ESC-backslash
/// terminator and may not contain a newline.
pub open spec fn osc_end(s: Seq<char>, j: int) -> Option<int>
    decreases s.len() - j,
{
    if j < 0 || j >= s.len() {
        None
    } else if s[j] == BEL_CHAR {
        Some(j + 1)
    } else if s[j] == ESC_CHAR && j + 1 < s.len() && s[j + 1] == '\\' {
        Some(j + 2)
    } else if s[j] == '\n' {
        None
    } else {
        osc_end(s, j + 1)
    }
}

/// Length of the escape sequence starting at position `i`, or 0 when none
/// starts there.  Two classes are recognised: CSI (`ESC [` params, one
/// letter) and OSC (`ESC ]` body, BEL or `ESC \` terminator).
pub open spec fn esc_match_len(s: Seq<char>, i: int) -> int {
    if 0 <= i && i + 1 < s.len() && s[i] == ESC_CHAR && s[i + 1] == '[' {
        let j = csi_params_end(s, i + 2);
        if j < s.len() && is_ascii_letter(s[j]) {
            j + 1 - i
        } else {
            0
        }
    } else if 0 <= i && i + 1 < s.len() && s[i] == ESC_CHAR && s[i + 1] == ']' {
        match osc_end(s, i + 2) {
            Some(e) => e - i,
            None => 0,
        }
    } else {
        0
    }
}

proof fn lemma_csi_params_end_range(s: Seq<char>, j: int)
    requires
        0 <= j <= s.len(),
    ensures
        j <= csi_params_end(s, j) <= s.len(),
    decreases s.len() - j,
{
    if j < s.len() && is_csi_param(s[j]) {
        lemma_csi_params_end_range(s, j + 1);
    }
}

proof fn lemma_osc_end_range(s: Seq<char>, j: int)
    requires
        0 <= j <= s.len(),
    ensures
        match osc_end(s, j) {
            Some(e) => j < e <= s.len(),
            None => true,
        },
    decreases s.len() - j,
{
    if j < s.len() && s[j] != BEL_CHAR && !(s[j] == ESC_CHAR && j + 1 < s.len() && s[j + 1]
        == '\\') && s[j] != '\n' {
        lemma_osc_end_range(s, j + 1);
    }
}

pub proof fn lemma_esc_match_len_range(s: Seq<char>, i: int)
    requires
        0 <= i <= s.len(),
    ensures
        esc_match_len(s, i) == 0 || (2 <= esc_match_len(s, i) && i + esc_match_len(s, i)
            <= s.len()),
{
    if i + 1 < s.len() && s[i] == ESC_CHAR && s[i + 1] == '[' {
        lemma_csi_params_end_range(s, i + 2);
    } else if i + 1 < s.len() && s[i] == ESC_CHAR && s[i + 1] == ']' {
        lemma_osc_end_range(s, i + 2);
    }
}

/// The characters of `s` from position `i` on, with every escape sequence
/// removed.  At each position a sequence is either recognised and skipped
/// whole, or the character is kept and scanning moves on by one.
pub open spec fn strip_from(s: Seq<char>, i: int) -> Seq<char>
    decreases s.len() - i,
{
    if i < 0 || i >= s.len() {
        Seq::empty()
    } else {
        let m = esc_match_len(s, i);
        if 2 <= m && i + m <= s.len() {
            strip_from(s, i + m)
        } else {
            seq![s[i]] + strip_from(s, i + 1)
        }
    }
}

/// `s` with CSI and OSC escape sequences removed.
pub open spec fn strip_ansi_spec(s: Seq<char>) -> Seq<char> {
    strip_from(s, 0)
}

/// Display width, in terminal cells, of a string that contains no escape
/// sequences, as measured by the unicode-width crate.
pub uninterp spec fn str_width(s: Seq<char>) -> nat;

/// Relies on unicode_width::UnicodeWidthStr::width: the display width of a
/// string in terminal cells.  Every character contributes at most 3 cells
/// (one Khmer sign is 3 cells wide, everything else at most 2, and ligature
/// rules only lower the total), and printable ASCII text is one cell per
/// character and takes part in no ligature rule.
#[verifier::external_body]
fn unicode_cells(s: &str) -> (r: usize)
    ensures
        r as nat == str_width(s@),
        r <= 3 * s@.len(),
        (forall|k: int| 0 <= k < s@.len() ==> is_ascii_printable(s@[k])) ==> r as nat == s@.len(),
{
    unicode_width::UnicodeWidthStr::width(s)
}

/// Position where CSI parameters starting at `j0` end; executable twin of
/// `csi_params_end`.
fn csi_scan(s: &str, j0: usize) -> (r: usize)
    requires
        j0 <= s@.len(),
    ensures
        r == csi_params_end(s@, j0 as int),
        j0 <= r <= s@.len(),
{
    let n = s.unicode_len();
    let mut j = j0;
    loop
        invariant
            j0 <= j <= n,
            n == s@.len(),
            csi_params_end(s@, j0 as int) == csi_params_end(s@, j as int),
        decreases n - j,
    {
        if j == n {
            return j;
        }
        let c = s.get_char(j);
        if !(c == ';' || c == '?' || digit_char_check(c)) {
            return j;
        }
        j = j + 1;
    }
}

/// Match length of an escape sequence at `i`, or 0; executable twin of
/// `esc_match_len`.
fn esc_scan(s: &str, i: usize) -> (r: usize)
    requires
        i <= s@.len(),
    ensures
        r == esc_match_len(s@, i as int),
        r == 0 || (2 <= r && i + r <= s@.len()),
{
    let n = s.unicode_len();
    if n == 0 || i >= n - 1 || !(s.get_char(i) == ESC_CHAR) {
        return 0;
    }
    let c1 = s.get_char(i + 1);
    if c1 == '[' {
        let j = csi_scan(s, i + 2);
        if j < n && ascii_letter_check(s.get_char(j)) {
            j + 1 - i
        } else {
            0
        }
    } else if c1 == ']' {
        let mut j = i + 2;
        loop
            invariant
                i + 2 <= j <= n,
                n == s@.len(),
                i + 1 < n,
                s@[i as int] == ESC_CHAR,
                s@[i + 1] == ']',
                osc_end(s@, (i + 2) as int) == osc_end(s@, j as int),
            decreases n - j,
        {
            if j == n {
                return 0;
            }
            let c = s.get_char(j);
            if c == BEL_CHAR {
                return j + 1 - i;
            }
            if c == ESC_CHAR && j + 1 < n && s.get_char(j + 1) == '\\' {
                return j + 2 - i;
            }
            if c == '\n' {
                return 0;
            }
            j = j + 1;
        }
    } else {
        0
    }
}

/// Removes CSI and OSC escape sequences from `s`.
pub fn strip_ansi(s: &str) -> (r: String)
    ensures
        r@ == strip_ansi_spec(s@),
{
    let n = s.unicode_len();
    let mut out = String::new();
    let mut i: usize = 0;
    proof {
        assert(Seq::<char>::empty() + strip_from(s@, 0) =~= strip_from(s@, 0));
    }
    while i < n
        invariant
            i <= n,
            n == s@.len(),
            out@ + strip_from(s@, i as int) == strip_ansi_spec(s@),
        decreases n - i,
    {
        let m = esc_scan(s, i);
        if m > 0 {
            i = i + m;
        } else {
            proof {
                assert(strip_from(s@, i as int) =~= seq![s@[i as int]] + strip_from(s@, i + 1));
            }
            let ghost prev = out@;
            push_char(&mut out, s.get_char(i));
            proof {
                assert(out@ + strip_from(s@, i + 1) =~= prev + strip_from(s@, i as int));
            }
            i = i + 1;
        }
    }
    proof {
        assert(out@ + strip_from(s@, i as int) =~= out@);
    }
    out
}

/// Visible width of `s`: escape sequences are removed, then the rest is
/// measured in display cells.
pub open spec fn visible_width_spec(s: Seq<char>) -> nat {
    str_width(strip_ansi_spec(s))
}

/// Visible width of a cell in terminal cells, ignoring embedded CSI and OSC
/// escape sequences.
pub fn visible_width(s: &str) -> (r: usize)
    ensures
        r as nat == visible_width_spec(s@),
        r <= 3 * s@.len(),
{
    proof {
        lemma_strip_len(s@, 0);
    }
    let stripped = strip_ansi(s);
    unicode_cells(stripped.as_str())
}

proof fn lemma_cpe_skip(s: Seq<char>, j: int, e: int)
    requires
        0 <= j <= e <= s.len(),
        forall|k: int| j <= k < e ==> is_csi_param(s[k]),
        e == s.len() || !is_csi_param(s[e]),
    ensures
        csi_params_end(s, j) == e,
    decreases e - j,
{
    if j < e {
        lemma_cpe_skip(s, j + 1, e);
    }
}

proof fn lemma_cpe_shift(a: Seq<char>, b: Seq<char>, j: int)
    requires
        0 <= j <= b.len(),
    ensures
        csi_params_end(a + b, a.len() + j) == a.len() + csi_params_end(b, j),
    decreases b.len() - j,
{
    if j < b.len() && is_csi_param(b[j]) {
        lemma_cpe_shift(a, b, j + 1);
    }
}

proof fn lemma_osc_shift(a: Seq<char>, b: Seq<char>, j: int)
    requires
        0 <= j <= b.len(),
    ensures
        osc_end(a + b, a.len() + j) == match osc_end(b, j) {
            Some(e) => Some(a.len() + e),
            None => None::<int>,
        },
    decreases b.len() - j,
{
    if j < b.len() && b[j] != BEL_CHAR && !(b[j] == ESC_CHAR && j + 1 < b.len() && b[j + 1]
        == '\\') && b[j] != '\n' {
        lemma_osc_shift(a, b, j + 1);
    }
}

proof fn lemma_esc_match_shift(a: Seq<char>, b: Seq<char>, i: int)
    requires
        0 <= i <= b.len(),
    ensures
        esc_match_len(a + b, a.len() + i) == esc_match_len(b, i),
{
    let s = a + b;
    if i + 1 < b.len() && b[i] == ESC_CHAR && b[i + 1] == '[' {
        lemma_cpe_shift(a, b, i + 2);
        lemma_csi_params_end_range(b, i + 2);
    } else if i + 1 < b.len() && b[i] == ESC_CHAR && b[i + 1] == ']' {
        lemma_osc_shift(a, b, i + 2);
    }
}

/// Stripping a concatenation looks only at the second part once scanning has
/// passed the first.
proof fn lemma_strip_shift(a: Seq<char>, b: Seq<char>, i: int)
    requires
        0 <= i <= b.len(),
    ensures
        strip_from(a + b, a.len() + i) == strip_from(b, i),
    decreases b.len() - i,
{
    if i < b.len() {
        lemma_esc_match_shift(a, b, i);
        let m = esc_match_len(b, i);
        if 2 <= m && i + m <= b.len() {
            lemma_esc_match_len_range(b, i);
            lemma_strip_shift(a, b, i + m);
        } else {
            lemma_strip_shift(a, b, i + 1);
            assert(seq![(a + b)[a.len() + i]] + strip_from(b, i + 1) =~= seq![b[i]] + strip_from(
                b,
                i + 1,
            ));
        }
    }
}

/// A text without ESC characters is left unchanged by stripping.
pub proof fn lemma_strip_no_esc(s: Seq<char>)
    requires
        forall|k: int| 0 <= k < s.len() ==> s[k] != ESC_CHAR,
    ensures
        strip_ansi_spec(s) == s,
{
    lemma_strip_tail_no_esc(s, 0);
    assert(s.subrange(0, s.len() as int) =~= s);
}

proof fn lemma_strip_tail_no_esc(s: Seq<char>, i: int)
    requires
        0 <= i <= s.len(),
        forall|k: int| i <= k < s.len() ==> s[k] != ESC_CHAR,
    ensures
        strip_from(s, i) == s.subrange(i, s.len() as int),
    decreases s.len() - i,
{
    if i < s.len() {
        lemma_strip_tail_no_esc(s, i + 1);
        assert(seq![s[i]] + s.subrange(i + 1, s.len() as int) =~= s.subrange(i, s.len() as int));
    }
}

/// Stripping distributes over a concatenation whose first part is free of
/// ESC characters.
proof fn lemma_strip_prefix_no_esc(a: Seq<char>, b: Seq<char>, i: int)
    requires
        0 <= i <= a.len(),
        forall|k: int| 0 <= k < a.len() ==> a[k] != ESC_CHAR,
    ensures
        strip_from(a + b, i) == a.subrange(i, a.len() as int) + strip_from(b, 0),
    decreases a.len() - i,
{
    let s = a + b;
    if i < a.len() {
        assert(s[i] == a[i]);
        lemma_strip_prefix_no_esc(a, b, i + 1);
        assert(seq![a[i]] + (a.subrange(i + 1, a.len() as int) + strip_from(b, 0)) =~= a.subrange(
            i,
            a.len() as int,
        ) + strip_from(b, 0));
    } else {
        lemma_strip_shift(a, b, 0);
        assert(a.subrange(i, a.len() as int) + strip_from(b, 0) =~= strip_from(b, 0));
    }
}

/// A complete CSI escape sequence: ESC, `[`, parameter characters, one
/// letter.
pub open spec fn csi_seq(params: Seq<char>, letter: char) -> Seq<char> {
    seq![ESC_CHAR, '['] + params + seq![letter]
}

/// Stripping removes a complete CSI sequence at the front.
pub proof fn lemma_strip_csi(params: Seq<char>, letter: char, rest: Seq<char>)
    requires
        forall|k: int| 0 <= k < params.len() ==> is_csi_param(params[k]),
        is_ascii_letter(letter),
    ensures
        strip_ansi_spec(csi_seq(params, letter) + rest) == strip_ansi_spec(rest),
{
    let pre = csi_seq(params, letter);
    let s = pre + rest;
    let plen = params.len() as int;
    assert(s[0] == ESC_CHAR);
    assert(s[1] == '[');
    assert(s[2 + plen] == letter);
    assert forall|k: int| 2 <= k < 2 + plen implies is_csi_param(s[k]) by {
        assert(s[k] == params[k - 2]);
    }
    lemma_cpe_skip(s, 2, 2 + plen);
    assert(esc_match_len(s, 0) == plen + 3);
    assert(strip_from(s, 0) == strip_from(s, plen + 3));
    lemma_strip_shift(pre, rest, 0);
}

/// Law: a text wrapped in CSI color sequences has the same visible width as
/// the bare text, provided the text itself contains no ESC character.
pub proof fn lemma_width_ignores_csi(
    text: Seq<char>,
    params1: Seq<char>,
    letter1: char,
    params2: Seq<char>,
    letter2: char,
)
    requires
        forall|k: int| 0 <= k < text.len() ==> text[k] != ESC_CHAR,
        forall|k: int| 0 <= k < params1.len() ==> is_csi_param(params1[k]),
        forall|k: int| 0 <= k < params2.len() ==> is_csi_param(params2[k]),
        is_ascii_letter(letter1),
        is_ascii_letter(letter2),
    ensures
        visible_width_spec(csi_seq(params1, letter1) + text + csi_seq(params2, letter2))
            == visible_width_spec(text),
{
    let c1 = csi_seq(params1, letter1);
    let c2 = csi_seq(params2, letter2);
    let tail = text + c2;
    assert(c1 + text + c2 =~= c1 + tail);
    lemma_strip_csi(params1, letter1, tail);
    lemma_strip_prefix_no_esc(text, c2, 0);
    lemma_strip_csi(params2, letter2, Seq::empty());
    assert(strip_ansi_spec(Seq::<char>::empty()) =~= Seq::<char>::empty());
    assert(csi_seq(params2, letter2) + Seq::<char>::empty() =~= c2);
    assert(text.subrange(0, text.len() as int) =~= text);
    assert(strip_ansi_spec(tail) =~= text);
    lemma_strip_no_esc(text);
}

/// Stripping never lengthens a string.
pub proof fn lemma_strip_len(s: Seq<char>, i: int)
    ensures
        strip_from(s, i).len() <= s.len() - i || strip_from(s, i).len() == 0,
    decreases s.len() - i,
{
    if 0 <= i && i < s.len() {
        let m = esc_match_len(s, i);
        if 2 <= m && i + m <= s.len() {
            lemma_strip_len(s, i + m);
        } else {
            lemma_strip_len(s, i + 1);
        }
    }
}

} // verus!
