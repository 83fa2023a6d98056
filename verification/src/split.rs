//! Tokenizer: splits one raw line into fields, either on a literal
//! separator string or on runs of whitespace.

use vstd::prelude::*;

use crate::chars::{is_white, push_char, white_check};

verus! {

/// `fields` with `p` glued onto the front of its first element.
pub open spec fn prepend_first(p: Seq<char>, fields: Seq<Seq<char>>) -> Seq<Seq<char>> {
    seq![p + fields[0]] + fields.drop_first()
}

/// Fields of `s[i..]` split on the literal separator `sep` (leftmost,
/// non-overlapping matches; empty fields are kept).
pub open spec fn lit_split_at(s: Seq<char>, sep: Seq<char>, i: int) -> Seq<Seq<char>>
    decreases s.len() - i,
{
    if sep.len() == 0 || i < 0 || i >= s.len() {
        seq![Seq::<char>::empty()]
    } else if i + sep.len() <= s.len() && s.subrange(i, i + sep.len()) == sep {
        seq![Seq::<char>::empty()] + lit_split_at(s, sep, i + sep.len())
    } else {
        prepend_first(seq![s[i]], lit_split_at(s, sep, i + 1))
    }
}

pub proof fn lemma_lit_split_at_nonempty(s: Seq<char>, sep: Seq<char>, i: int)
    ensures
        lit_split_at(s, sep, i).len() >= 1,
    decreases s.len() - i,
{
    if sep.len() == 0 || i < 0 || i >= s.len() {
    } else if i + sep.len() <= s.len() && s.subrange(i, i + sep.len()) == sep {
        lemma_lit_split_at_nonempty(s, sep, i + sep.len());
    } else {
        lemma_lit_split_at_nonempty(s, sep, i + 1);
    }
}

/// Fields of `s` split on the literal separator `sep`.  An empty separator
/// matches at every position, so the pieces are an empty field, every
/// character on its own, and an empty field.
pub open spec fn lit_split(s: Seq<char>, sep: Seq<char>) -> Seq<Seq<char>> {
    if sep.len() == 0 {
        seq![Seq::<char>::empty()] + Seq::new(s.len(), |k: int| seq![s[k]]) + seq![
            Seq::<char>::empty(),
        ]
    } else {
        lit_split_at(s, sep, 0)
    }
}

/// Fields of `s[i..]` split on runs of whitespace: the maximal runs of
/// non-whitespace characters, in order.  No empty fields are produced.
pub open spec fn ws_split_at(s: Seq<char>, i: int) -> Seq<Seq<char>>
    decreases s.len() - i,
{
    if i < 0 || i >= s.len() {
        Seq::empty()
    } else if is_white(s[i]) {
        ws_split_at(s, i + 1)
    } else if i + 1 >= s.len() || is_white(s[i + 1]) {
        seq![seq![s[i]]] + ws_split_at(s, i + 1)
    } else {
        prepend_first(seq![s[i]], ws_split_at(s, i + 1))
    }
}

pub proof fn lemma_ws_split_at_nonempty(s: Seq<char>, i: int)
    requires
        0 <= i < s.len(),
        !is_white(s[i]),
    ensures
        ws_split_at(s, i).len() >= 1,
    decreases s.len() - i,
{
    if i + 1 < s.len() && !is_white(s[i + 1]) {
        lemma_ws_split_at_nonempty(s, i + 1);
    }
}

/// Fields of one raw line: split on whitespace runs when `collapse` is set,
/// else on the literal separator.
pub open spec fn split_line_spec(s: Seq<char>, sep: Seq<char>, collapse: bool) -> Seq<Seq<char>> {
    if collapse {
        ws_split_at(s, 0)
    } else {
        lit_split(s, sep)
    }
}

/// Whether `sep` occurs in `s` starting exactly at position `i`.
fn sep_matches_at(s: &str, sep: &str, i: usize) -> (r: bool)
    requires
        i <= s@.len(),
    ensures
        r == (i + sep@.len() <= s@.len() && s@.subrange(i as int, i + sep@.len()) == sep@),
{
    let n = s.unicode_len();
    let m = sep.unicode_len();
    if m > n - i {
        return false;
    }
    let mut k: usize = 0;
    while k < m
        invariant
            k <= m,
            i + m <= n,
            n == s@.len(),
            m == sep@.len(),
            forall|q: int| 0 <= q < k ==> s@[i + q] == sep@[q],
        decreases m - k,
    {
        if !(s.get_char(i + k) == sep.get_char(k)) {
            proof {
                assert(s@.subrange(i as int, i + sep@.len())[k as int] == s@[i + k]);
            }
            return false;
        }
        k = k + 1;
    }
    proof {
        assert(s@.subrange(i as int, i + sep@.len()) =~= sep@);
    }
    true
}

/// Splits `s` on the literal separator `sep`.
fn lit_split_exec(s: &str, sep: &str) -> (r: Vec<String>)
    ensures
        r.deep_view() == lit_split(s@, sep@),
{
    let n = s.unicode_len();
    let m = sep.unicode_len();
    let mut out: Vec<String> = Vec::new();
    if m == 0 {
        out.push(String::new());
        let mut k: usize = 0;
        while k < n
            invariant
                k <= n,
                n == s@.len(),
                out@.len() == k + 1,
                out@[0]@ == Seq::<char>::empty(),
                forall|j: int| 1 <= j <= k ==> (#[trigger] out@[j])@ == seq![s@[j - 1]],
            decreases n - k,
        {
            let mut piece = String::new();
            push_char(&mut piece, s.get_char(k));
            proof {
                assert(piece@ =~= seq![s@[k as int]]);
            }
            out.push(piece);
            k = k + 1;
        }
        out.push(String::new());
        proof {
            assert(out.deep_view() =~~= lit_split(s@, sep@));
        }
        return out;
    }
    let mut cur = String::new();
    let mut i: usize = 0;
    while i < n
        invariant
            i <= n,
            n == s@.len(),
            m == sep@.len(),
            m >= 1,
            lit_split(s@, sep@) == out.deep_view() + prepend_first(cur@, lit_split_at(s@, sep@, i as int)),
        decreases n - i,
    {
        proof {
            lemma_lit_split_at_nonempty(s@, sep@, i as int);
        }
        if sep_matches_at(s, sep, i) {
            let ghost rest = lit_split_at(s@, sep@, i + m);
            proof {
                lemma_lit_split_at_nonempty(s@, sep@, i + m);
                assert(lit_split_at(s@, sep@, i as int) =~= seq![Seq::<char>::empty()] + rest);
                assert(prepend_first(cur@, seq![Seq::<char>::empty()] + rest) =~= seq![cur@] + rest);
                assert(prepend_first(Seq::<char>::empty(), rest) =~= rest);
            }
            out.push(cur);
            cur = String::new();
            proof {
                assert(out.deep_view() + prepend_first(cur@, rest) =~= lit_split(s@, sep@));
            }
            i = i + m;
        } else {
            let ghost rest = lit_split_at(s@, sep@, i + 1);
            proof {
                lemma_lit_split_at_nonempty(s@, sep@, i + 1);
                assert(lit_split_at(s@, sep@, i as int) =~= prepend_first(
                    seq![s@[i as int]],
                    rest,
                ));
                assert(prepend_first(cur@, prepend_first(seq![s@[i as int]], rest)) =~~= prepend_first(
                    cur@.push(s@[i as int]),
                    rest,
                ));
            }
            push_char(&mut cur, s.get_char(i));
            proof {
                assert(out.deep_view() + prepend_first(cur@, rest) =~= lit_split(s@, sep@));
            }
            i = i + 1;
        }
    }
    proof {
        assert(lit_split_at(s@, sep@, n as int) =~= seq![Seq::<char>::empty()]);
        assert(prepend_first(cur@, seq![Seq::<char>::empty()]) =~= seq![cur@]);
    }
    out.push(cur);
    proof {
        assert(out.deep_view() =~= lit_split(s@, sep@));
    }
    out
}

/// Continuation of the whitespace split at position `i` with the partial
/// field `p` already read.
pub open spec fn ws_cont(s: Seq<char>, p: Seq<char>, i: int) -> Seq<Seq<char>> {
    if p.len() == 0 {
        ws_split_at(s, i)
    } else if i < s.len() && !is_white(s[i]) {
        prepend_first(p, ws_split_at(s, i))
    } else {
        seq![p] + ws_split_at(s, i)
    }
}

/// Splits `s` on runs of whitespace.
fn ws_split_exec(s: &str) -> (r: Vec<String>)
    ensures
        r.deep_view() == ws_split_at(s@, 0),
{
    let n = s.unicode_len();
    let mut out: Vec<String> = Vec::new();
    let mut cur = String::new();
    let mut i: usize = 0;
    while i < n
        invariant
            i <= n,
            n == s@.len(),
            ws_split_at(s@, 0) == out.deep_view() + ws_cont(s@, cur@, i as int),
        decreases n - i,
    {
        let c = s.get_char(i);
        if white_check(c) {
            if cur.as_str().unicode_len() > 0 {
                proof {
                    assert(seq![cur@] + ws_split_at(s@, i as int) =~= seq![cur@] + ws_split_at(
                        s@,
                        i + 1,
                    ));
                }
                out.push(cur);
                cur = String::new();
                proof {
                    assert(out.deep_view() + ws_cont(s@, cur@, i + 1) =~~= ws_split_at(s@, 0));
                }
            }
            i = i + 1;
        } else {
            let ghost rest = ws_split_at(s@, i + 1);
            proof {
                if i + 1 < n && !is_white(s@[i + 1]) {
                    lemma_ws_split_at_nonempty(s@, i + 1);
                    assert(ws_split_at(s@, i as int) =~= prepend_first(seq![s@[i as int]], rest));
                    if cur@.len() == 0 {
                        assert(prepend_first(seq![s@[i as int]], rest) =~~= prepend_first(
                            Seq::<char>::empty().push(s@[i as int]),
                            rest,
                        ));
                    } else {
                        assert(prepend_first(cur@, prepend_first(seq![s@[i as int]], rest))
                            =~~= prepend_first(cur@.push(s@[i as int]), rest));
                    }
                } else {
                    assert(ws_split_at(s@, i as int) =~= seq![seq![s@[i as int]]] + rest);
                    if cur@.len() == 0 {
                        assert(seq![seq![s@[i as int]]] + rest =~~= seq![Seq::<char>::empty().push(
                            s@[i as int],
                        )] + rest);
                    } else {
                        assert(prepend_first(cur@, seq![seq![s@[i as int]]] + rest) =~~= seq![
                            cur@.push(s@[i as int]),
                        ] + rest);
                    }
                }
            }
            push_char(&mut cur, c);
            proof {
                assert(out.deep_view() + ws_cont(s@, cur@, i + 1) =~~= ws_split_at(s@, 0));
            }
            i = i + 1;
        }
    }
    if cur.as_str().unicode_len() > 0 {
        out.push(cur);
    }
    proof {
        assert(ws_split_at(s@, n as int) =~= Seq::<Seq<char>>::empty());
        assert(out.deep_view() =~= ws_split_at(s@, 0));
    }
    out
}

/// Splits one raw line into fields: on whitespace runs when `collapse` is
/// set, else on the literal separator `sep`.
pub fn split_line(s: &str, sep: &str, collapse: bool) -> (r: Vec<String>)
    ensures
        r.deep_view() == split_line_spec(s@, sep@, collapse),
{
    if collapse {
        ws_split_exec(s)
    } else {
        lit_split_exec(s, sep)
    }
}

} // verus!
