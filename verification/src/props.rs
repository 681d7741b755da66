//! Properties of the scan that relate whole tokenizations: whitespace
//! insensitivity, parenthesis faithfulness, and maximal munch.

use vstd::prelude::*;

use crate::lexer::alpha_char;
use crate::lexer::classify_symbol;
use crate::lexer::is_digit_char;
use crate::lexer::is_num_elem;
use crate::lexer::is_op_char;
use crate::lexer::is_sym_term;
use crate::lexer::is_ws_char;
use crate::lexer::lemma_num_run_bounds;
use crate::lexer::lemma_str_run_bounds;
use crate::lexer::lemma_sym_run_bounds;
use crate::lexer::num_run;
use crate::lexer::spec_tokenize;
use crate::lexer::str_run;
use crate::lexer::sym_run;
use crate::lexer::SpecToken;

verus! {

// ---------------------------------------------------------------------------
// Counting characters and tokens
// ---------------------------------------------------------------------------

/// The number of occurrences of `c` among the characters of `s`.
pub open spec fn count_char(s: Seq<char>, c: char) -> int
    decreases s.len(),
{
    if s.len() == 0 {
        0
    } else {
        (if s[0] == c {
            1int
        } else {
            0int
        }) + count_char(s.drop_first(), c)
    }
}

/// The number of `LeftParenthesis` tokens among `toks`.
pub open spec fn count_left(toks: Seq<SpecToken>) -> int
    decreases toks.len(),
{
    if toks.len() == 0 {
        0
    } else {
        (if toks[0] is LeftParenthesis {
            1int
        } else {
            0int
        }) + count_left(toks.drop_first())
    }
}

/// The number of `RightParenthesis` tokens among `toks`.
pub open spec fn count_right(toks: Seq<SpecToken>) -> int
    decreases toks.len(),
{
    if toks.len() == 0 {
        0
    } else {
        (if toks[0] is RightParenthesis {
            1int
        } else {
            0int
        }) + count_right(toks.drop_first())
    }
}

/// Counting over a single character.
proof fn lemma_count_char_single(c: char, d: char)
    ensures
        count_char(seq![c], d) == (if c == d {
            1int
        } else {
            0int
        }),
{
    assert(seq![c].drop_first() =~= Seq::<char>::empty());
    assert(count_char(Seq::<char>::empty(), d) == 0);
}

/// Counting characters distributes over concatenation.
pub proof fn lemma_count_char_add(a: Seq<char>, b: Seq<char>, c: char)
    ensures
        count_char(a + b, c) == count_char(a, c) + count_char(b, c),
    decreases a.len(),
{
    if a.len() == 0 {
        assert(a + b =~= b);
    } else {
        assert((a + b).drop_first() =~= a.drop_first() + b);
        assert((a + b)[0] == a[0]);
        lemma_count_char_add(a.drop_first(), b, c);
    }
}

/// A sequence without `c` counts zero of it.
pub proof fn lemma_count_char_absent(s: Seq<char>, c: char)
    requires
        forall|j: int| 0 <= j < s.len() ==> s[j] != c,
    ensures
        count_char(s, c) == 0,
    decreases s.len(),
{
    if s.len() > 0 {
        let t = s.drop_first();
        assert(forall|j: int| 0 <= j < t.len() ==> t[j] == s[j + 1]);
        lemma_count_char_absent(t, c);
    }
}

// ---------------------------------------------------------------------------
// Maximal runs are determined by their endpoints
// ---------------------------------------------------------------------------

/// A position before which every character is a number character, and which
/// is the end or a non-number character, is exactly the number run.
pub proof fn lemma_num_run_is(s: Seq<char>, k: int)
    requires
        0 <= k <= s.len(),
        forall|j: int| 0 <= j < k ==> is_num_elem(s[j]),
        k == s.len() || !is_num_elem(s[k]),
    ensures
        num_run(s) == k,
    decreases s.len(),
{
    if k > 0 {
        let t = s.drop_first();
        assert(forall|j: int| 0 <= j < k - 1 ==> t[j] == s[j + 1]);
        if k - 1 < t.len() {
            assert(t[k - 1] == s[k]);
        }
        lemma_num_run_is(t, k - 1);
    }
}

/// A position before which no character is a terminator, and which is the
/// end or a terminator, is exactly the symbol run.
pub proof fn lemma_sym_run_is(s: Seq<char>, k: int)
    requires
        0 <= k <= s.len(),
        forall|j: int| 0 <= j < k ==> !is_sym_term(s[j]),
        k == s.len() || is_sym_term(s[k]),
    ensures
        sym_run(s) == k,
    decreases s.len(),
{
    if k > 0 {
        let t = s.drop_first();
        assert(forall|j: int| 0 <= j < k - 1 ==> t[j] == s[j + 1]);
        if k - 1 < t.len() {
            assert(t[k - 1] == s[k]);
        }
        lemma_sym_run_is(t, k - 1);
    }
}

/// A position before which no character is a quote, and which is the end or
/// a quote, is exactly the string body's length.
pub proof fn lemma_str_run_is(s: Seq<char>, k: int)
    requires
        0 <= k <= s.len(),
        forall|j: int| 0 <= j < k ==> s[j] != '"',
        k == s.len() || s[k] == '"',
    ensures
        str_run(s) == k,
    decreases s.len(),
{
    if k > 0 {
        let t = s.drop_first();
        assert(forall|j: int| 0 <= j < k - 1 ==> t[j] == s[j + 1]);
        if k - 1 < t.len() {
            assert(t[k - 1] == s[k]);
        }
        lemma_str_run_is(t, k - 1);
    }
}

// ---------------------------------------------------------------------------
// Whitespace insensitivity
// ---------------------------------------------------------------------------

/// Whitespace characters only.
pub open spec fn all_ws(w: Seq<char>) -> bool {
    forall|i: int| 0 <= i < w.len() ==> is_ws_char(#[trigger] w[i])
}

/// Prepending a whitespace run changes no token.
pub proof fn lemma_ws_prefix(w: Seq<char>, s: Seq<char>)
    requires
        all_ws(w),
    ensures
        spec_tokenize(w + s) == spec_tokenize(s),
    decreases w.len(),
{
    if w.len() == 0 {
        assert(w + s =~= s);
    } else {
        let t = w.drop_first();
        assert((w + s)[0] == w[0]);
        assert((w + s).drop_first() =~= t + s);
        assert(forall|i: int| 0 <= i < t.len() ==> t[i] == w[i + 1]);
        lemma_ws_prefix(t, s);
    }
}

/// The scan of `p + r`, run from the start, reaches the position between `p`
/// and `r` cleanly: every token read before that position lies entirely
/// within `p` (a string literal's closing quote included), or the scan halts
/// on an unrecognized character inside `p`. These are the positions at which
/// a whitespace run may be inserted without touching any token's characters.
pub open spec fn is_boundary(p: Seq<char>, r: Seq<char>) -> bool
    decreases p.len(),
    via is_boundary_decreases
{
    if p.len() == 0 {
        true
    } else {
        let s = p + r;
        if is_ws_char(p[0]) {
            is_boundary(p.drop_first(), r)
        } else if p[0] == '(' || p[0] == ')' {
            is_boundary(p.drop_first(), r)
        } else if p[0] == '"' {
            let body = s.drop_first();
            let k = str_run(body);
            k < body.len() && k + 2 <= p.len() && is_boundary(p.skip(k + 2), r)
        } else if is_digit_char(p[0]) {
            let k = num_run(s);
            k <= p.len() && is_boundary(p.skip(k), r)
        } else if alpha_char(p[0]) || is_op_char(p[0]) {
            let k = sym_run(s);
            k <= p.len() && is_boundary(p.skip(k), r)
        } else {
            true
        }
    }
}

#[via_fn]
proof fn is_boundary_decreases(p: Seq<char>, r: Seq<char>) {
    if p.len() > 0 {
        let s = p + r;
        assert(s[0] == p[0]);
        lemma_str_run_bounds(s.drop_first());
        lemma_num_run_bounds(s);
        lemma_sym_run_bounds(s);
    }
}

/// Inserting a whitespace run at a token boundary changes no token: the scan
/// of `p` followed by the whitespace `w` followed by `r` yields exactly the
/// tokens of `p` followed by `r`.
pub proof fn lemma_ws_insertion(p: Seq<char>, w: Seq<char>, r: Seq<char>)
    requires
        is_boundary(p, r),
        all_ws(w),
    ensures
        spec_tokenize(p + w + r) == spec_tokenize(p + r),
    decreases p.len(),
{
    if p.len() == 0 {
        assert(p + w + r =~= w + r);
        assert(p + r =~= r);
        lemma_ws_prefix(w, r);
    } else {
        let s1 = p + r;
        let s2 = p + w + r;
        assert(s1[0] == p[0]);
        assert(s2[0] == p[0]);
        assert(forall|j: int| 0 <= j < p.len() ==> s1[j] == p[j]);
        assert(forall|j: int| 0 <= j < p.len() ==> s2[j] == p[j]);
        if is_ws_char(p[0]) {
            assert(s1.drop_first() =~= p.drop_first() + r);
            assert(s2.drop_first() =~= p.drop_first() + w + r);
            lemma_ws_insertion(p.drop_first(), w, r);
        } else if p[0] == '(' || p[0] == ')' {
            assert(s1.drop_first() =~= p.drop_first() + r);
            assert(s2.drop_first() =~= p.drop_first() + w + r);
            lemma_ws_insertion(p.drop_first(), w, r);
        } else if p[0] == '"' {
            let body1 = s1.drop_first();
            let body2 = s2.drop_first();
            let k = str_run(body1);
            lemma_str_run_bounds(body1);
            assert(k < body1.len() && k + 2 <= p.len());
            assert(forall|j: int| 0 <= j < p.len() - 1 ==> body1[j] == p[j + 1]);
            assert(forall|j: int| 0 <= j < p.len() - 1 ==> body2[j] == p[j + 1]);
            assert(forall|j: int| 0 <= j < k ==> body2[j] == body1[j]);
            assert(body2[k] == body1[k]);
            assert(body1[k] == '"');
            lemma_str_run_is(body2, k);
            assert(body1.take(k) =~= body2.take(k));
            assert(body1.skip(k + 1) =~= p.skip(k + 2) + r);
            assert(body2.skip(k + 1) =~= p.skip(k + 2) + w + r);
            lemma_ws_insertion(p.skip(k + 2), w, r);
            assert(k < body2.len());
            assert(spec_tokenize(s1) == seq![SpecToken::String(body1.take(k))] + spec_tokenize(
                body1.skip(k + 1),
            ));
            assert(spec_tokenize(s2) == seq![SpecToken::String(body2.take(k))] + spec_tokenize(
                body2.skip(k + 1),
            ));
        } else if is_digit_char(p[0]) {
            let k = num_run(s1);
            lemma_num_run_bounds(s1);
            assert(1 <= k <= p.len());
            assert(forall|j: int| 0 <= j < k ==> s2[j] == s1[j]);
            if k < s2.len() {
                if k < p.len() {
                    assert(s2[k] == s1[k]);
                    assert(!is_num_elem(s2[k]));
                } else {
                    if w.len() > 0 {
                        assert(s2[k] == w[0]);
                        assert(is_ws_char(w[0]));
                        assert(!is_num_elem(s2[k]));
                    } else {
                        assert(s2[k] == s1[k]);
                        assert(!is_num_elem(s2[k]));
                    }
                }
            }
            lemma_num_run_is(s2, k);
            assert(s1.take(k) =~= s2.take(k));
            assert(s1.skip(k) =~= p.skip(k) + r);
            assert(s2.skip(k) =~= p.skip(k) + w + r);
            lemma_ws_insertion(p.skip(k), w, r);
        } else if alpha_char(p[0]) || is_op_char(p[0]) {
            let k = sym_run(s1);
            lemma_sym_run_bounds(s1);
            assert(1 <= k <= p.len());
            assert(forall|j: int| 0 <= j < k ==> s2[j] == s1[j]);
            if k < s2.len() {
                if k < p.len() {
                    assert(s2[k] == s1[k]);
                    assert(is_sym_term(s2[k]));
                } else {
                    if w.len() > 0 {
                        assert(s2[k] == w[0]);
                        assert(is_ws_char(w[0]));
                        assert(is_sym_term(s2[k]));
                    } else {
                        assert(s2[k] == s1[k]);
                        assert(is_sym_term(s2[k]));
                    }
                }
            }
            lemma_sym_run_is(s2, k);
            assert(s1.take(k) =~= s2.take(k));
            assert(s1.skip(k) =~= p.skip(k) + r);
            assert(s2.skip(k) =~= p.skip(k) + w + r);
            lemma_ws_insertion(p.skip(k), w, r);
        } else {
            assert(spec_tokenize(s1) == Seq::<SpecToken>::empty());
            assert(spec_tokenize(s2) == Seq::<SpecToken>::empty());
        }
    }
}

// ---------------------------------------------------------------------------
// Parenthesis faithfulness
// ---------------------------------------------------------------------------

/// The scan consumes its whole input: it never halts on an unrecognized
/// character, and a string literal that never closes runs to the very end.
pub open spec fn scan_complete(s: Seq<char>) -> bool
    decreases s.len(),
    via scan_complete_decreases
{
    if s.len() == 0 {
        true
    } else if is_ws_char(s[0]) {
        scan_complete(s.drop_first())
    } else if s[0] == '(' || s[0] == ')' {
        scan_complete(s.drop_first())
    } else if s[0] == '"' {
        let body = s.drop_first();
        let k = str_run(body);
        if k < body.len() {
            scan_complete(body.skip(k + 1))
        } else {
            true
        }
    } else if is_digit_char(s[0]) {
        scan_complete(s.skip(num_run(s)))
    } else if alpha_char(s[0]) || is_op_char(s[0]) {
        scan_complete(s.skip(sym_run(s)))
    } else {
        false
    }
}

#[via_fn]
proof fn scan_complete_decreases(s: Seq<char>) {
    if s.len() > 0 {
        lemma_str_run_bounds(s.drop_first());
        lemma_num_run_bounds(s);
        lemma_sym_run_bounds(s);
    }
}

/// Parenthesis faithfulness: when the scan consumes its whole input and no
/// string literal's contents holds a parenthesis character, the output
/// carries exactly one `LeftParenthesis` token per `(` of the input and one
/// `RightParenthesis` token per `)`: the tokenizer neither drops nor
/// duplicates a parenthesis.
pub proof fn lemma_paren_faithful(s: Seq<char>)
    requires
        scan_complete(s),
        forall|i: int|
            0 <= i < spec_tokenize(s).len() ==> (#[trigger] spec_tokenize(s)[i] matches
                SpecToken::String(b) ==> !b.contains('(') && !b.contains(')')),
    ensures
        count_left(spec_tokenize(s)) == count_char(s, '('),
        count_right(spec_tokenize(s)) == count_char(s, ')'),
    decreases s.len(),
{
    let toks = spec_tokenize(s);
    if s.len() == 0 {
    } else if is_ws_char(s[0]) {
        let t = s.drop_first();
        assert(spec_tokenize(t) == toks);
        lemma_paren_faithful(t);
    } else if s[0] == '(' || s[0] == ')' {
        let t = s.drop_first();
        let rest = spec_tokenize(t);
        assert(toks[0] is LeftParenthesis || toks[0] is RightParenthesis);
        assert(toks.drop_first() =~= rest);
        assert(forall|i: int|
            0 <= i < rest.len() ==> (#[trigger] rest[i] matches SpecToken::String(b)
                ==> !b.contains('(') && !b.contains(')'))) by {
            assert(forall|i: int| 0 <= i < rest.len() ==> rest[i] == toks[i + 1]);
        }
        lemma_paren_faithful(t);
    } else if s[0] == '"' {
        let body = s.drop_first();
        let k = str_run(body);
        lemma_str_run_bounds(body);
        let b = body.take(k);
        assert(toks[0] == SpecToken::String(b));
        assert(!b.contains('(') && !b.contains(')'));
        assert(forall|j: int| 0 <= j < b.len() ==> b[j] != '(') by {
            if exists|j: int| 0 <= j < b.len() && b[j] == '(' {
                let j = choose|j: int| 0 <= j < b.len() && b[j] == '(';
                assert(b.contains('('));
            }
        }
        assert(forall|j: int| 0 <= j < b.len() ==> b[j] != ')') by {
            if exists|j: int| 0 <= j < b.len() && b[j] == ')' {
                let j = choose|j: int| 0 <= j < b.len() && b[j] == ')';
                assert(b.contains(')'));
            }
        }
        lemma_count_char_absent(b, '(');
        lemma_count_char_absent(b, ')');
        if k < body.len() {
            let rest_chars = body.skip(k + 1);
            let rest = spec_tokenize(rest_chars);
            assert(toks.drop_first() =~= rest);
            assert(forall|i: int|
                0 <= i < rest.len() ==> (#[trigger] rest[i] matches SpecToken::String(bb)
                    ==> !bb.contains('(') && !bb.contains(')'))) by {
                assert(forall|i: int| 0 <= i < rest.len() ==> rest[i] == toks[i + 1]);
            }
            lemma_paren_faithful(rest_chars);
            assert(s =~= seq!['"'] + (b + (seq!['"'] + rest_chars)));
            lemma_count_char_add(seq!['"'], b + (seq!['"'] + rest_chars), '(');
            lemma_count_char_add(b, seq!['"'] + rest_chars, '(');
            lemma_count_char_add(seq!['"'], rest_chars, '(');
            lemma_count_char_add(seq!['"'], b + (seq!['"'] + rest_chars), ')');
            lemma_count_char_add(b, seq!['"'] + rest_chars, ')');
            lemma_count_char_add(seq!['"'], rest_chars, ')');
            lemma_count_char_single('"', '(');
            lemma_count_char_single('"', ')');
        } else {
            assert(b =~= body);
            assert(body.skip(k) =~= Seq::<char>::empty());
            assert(spec_tokenize(Seq::<char>::empty()) == Seq::<SpecToken>::empty());
            assert(toks == seq![SpecToken::String(b)] + Seq::<SpecToken>::empty());
            assert(toks.drop_first() =~= Seq::<SpecToken>::empty());
            assert(count_left(Seq::<SpecToken>::empty()) == 0);
            assert(count_right(Seq::<SpecToken>::empty()) == 0);
            assert(s =~= seq!['"'] + b);
            lemma_count_char_add(seq!['"'], b, '(');
            lemma_count_char_add(seq!['"'], b, ')');
            lemma_count_char_single('"', '(');
            lemma_count_char_single('"', ')');
        }
    } else if is_digit_char(s[0]) {
        let k = num_run(s);
        lemma_num_run_bounds(s);
        let text = s.take(k);
        assert(forall|j: int| 0 <= j < text.len() ==> text[j] == s[j]);
        assert(forall|j: int| 0 <= j < text.len() ==> text[j] != '(' && text[j] != ')');
        lemma_count_char_absent(text, '(');
        lemma_count_char_absent(text, ')');
        let rest_chars = s.skip(k);
        let rest = spec_tokenize(rest_chars);
        assert(!(toks[0] is LeftParenthesis) && !(toks[0] is RightParenthesis));
        assert(toks.drop_first() =~= rest);
        assert(forall|i: int|
            0 <= i < rest.len() ==> (#[trigger] rest[i] matches SpecToken::String(bb)
                ==> !bb.contains('(') && !bb.contains(')'))) by {
            assert(forall|i: int| 0 <= i < rest.len() ==> rest[i] == toks[i + 1]);
        }
        lemma_paren_faithful(rest_chars);
        assert(s =~= text + rest_chars);
        lemma_count_char_add(text, rest_chars, '(');
        lemma_count_char_add(text, rest_chars, ')');
    } else if alpha_char(s[0]) || is_op_char(s[0]) {
        let k = sym_run(s);
        lemma_sym_run_bounds(s);
        let text = s.take(k);
        assert(forall|j: int| 0 <= j < text.len() ==> text[j] == s[j]);
        assert(forall|j: int| 0 <= j < text.len() ==> text[j] != '(' && text[j] != ')');
        lemma_count_char_absent(text, '(');
        lemma_count_char_absent(text, ')');
        let rest_chars = s.skip(k);
        let rest = spec_tokenize(rest_chars);
        assert(toks[0] == classify_symbol(text));
        assert(!(toks[0] is LeftParenthesis) && !(toks[0] is RightParenthesis));
        assert(toks.drop_first() =~= rest);
        assert(forall|i: int|
            0 <= i < rest.len() ==> (#[trigger] rest[i] matches SpecToken::String(bb)
                ==> !bb.contains('(') && !bb.contains(')'))) by {
            assert(forall|i: int| 0 <= i < rest.len() ==> rest[i] == toks[i + 1]);
        }
        lemma_paren_faithful(rest_chars);
        assert(s =~= text + rest_chars);
        lemma_count_char_add(text, rest_chars, '(');
        lemma_count_char_add(text, rest_chars, ')');
    }
}

// ---------------------------------------------------------------------------
// Maximal munch
// ---------------------------------------------------------------------------

/// Maximal munch: a symbol or operator read extends to the next whitespace
/// or parenthesis, never stopping early. When the scan stands at a character
/// that opens a symbol read, the emitted token carries exactly the
/// characters up to the next terminator (or the end of the input), and the
/// scan resumes at that terminator.
pub proof fn lemma_maximal_munch(s: Seq<char>)
    requires
        s.len() > 0,
        !is_ws_char(s[0]),
        s[0] != '(' && s[0] != ')' && s[0] != '"',
        !is_digit_char(s[0]),
        alpha_char(s[0]) || is_op_char(s[0]),
    ensures
        ({
            let k = sym_run(s);
            1 <= k <= s.len() && spec_tokenize(s) == seq![classify_symbol(s.take(k))]
                + spec_tokenize(s.skip(k)) && (forall|j: int| 0 <= j < k ==> !is_sym_term(s[j])) && (
            k == s.len() || is_sym_term(s[k]))
        }),
{
    lemma_sym_run_bounds(s);
}

} // verus!
