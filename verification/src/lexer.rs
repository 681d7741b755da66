//! Tokenization of a small Lisp-like surface syntax.
//!
//! `spec_tokenize` is the mathematical description of the scan: it walks the
//! character sequence, skips whitespace, and cuts off one token at a time.
//! The executable `Tokenizer` follows the same rules with an explicit cursor
//! and is proved to produce exactly the tokens that `spec_tokenize` names.
//!
//! Number literals whose text contains a `.` are kept as `Float` tokens with
//! their literal text; the numeric conversion is left to the caller, since
//! this crate states nothing about floating-point values. Integer literals
//! are converted here, and one whose value exceeds `i64::MAX` is reported as
//! a `TokenError` by `tokenizer` rather than accepted: that is the one path
//! on which the error type is populated.

use vstd::prelude::*;

verus! {

// ---------------------------------------------------------------------------
// Character classes
// ---------------------------------------------------------------------------

/// The Unicode `White_Space` code points, the set that `char::is_whitespace`
/// recognizes.
pub open spec fn is_ws_char(c: char) -> bool {
    let u = c as u32;
    u == 0x09 || u == 0x0A || u == 0x0B || u == 0x0C || u == 0x0D || u == 0x20
        || u == 0x85 || u == 0xA0 || u == 0x1680
        || (0x2000 <= u && u <= 0x200A)
        || u == 0x2028 || u == 0x2029 || u == 0x202F || u == 0x205F || u == 0x3000
}

/// An ASCII decimal digit, `0` through `9`.
pub open spec fn is_digit_char(c: char) -> bool {
    0x30 <= c as u32 && c as u32 <= 0x39
}

/// A leading character of a binary operator.
pub open spec fn is_op_char(c: char) -> bool {
    c == '+' || c == '-' || c == '*' || c == '/'
}

/// A character that may stand inside a number literal.
pub open spec fn is_num_elem(c: char) -> bool {
    is_digit_char(c) || c == '.'
}

/// A character that ends a symbol read: whitespace or a parenthesis.
pub open spec fn is_sym_term(c: char) -> bool {
    is_ws_char(c) || c == '(' || c == ')'
}

/// Whether a character has the Unicode `Alphabetic` property, as decided by
/// `char::is_alphabetic`.
pub uninterp spec fn alpha_char(c: char) -> bool;

/// Relies on `char::is_alphabetic`: it decides the Unicode `Alphabetic`
/// property, a function of the character alone; among ASCII characters
/// exactly the letters `a`-`z` and `A`-`Z` have it.
pub assume_specification[ char::is_alphabetic ](c: char) -> (r: bool)
    ensures
        r == alpha_char(c),
        c as u32 <= 0x7F ==> r == ((0x41 <= c as u32 && c as u32 <= 0x5A) || (0x61 <= c as u32
            && c as u32 <= 0x7A)),
;

/// Relies on `String::push`: it appends the given character at the end.
pub assume_specification[ std::string::String::push ](s: &mut String, c: char)
    ensures
        final(s)@ == old(s)@.push(c),
;

/// Decides membership in the Unicode `White_Space` set.
pub fn whitespace_char(c: char) -> (r: bool)
    ensures
        r == is_ws_char(c),
{
    let u = c as u32;
    u == 0x09 || u == 0x0A || u == 0x0B || u == 0x0C || u == 0x0D || u == 0x20 || u == 0x85 || u
        == 0xA0 || u == 0x1680 || (0x2000 <= u && u <= 0x200A) || u == 0x2028 || u == 0x2029 || u
        == 0x202F || u == 0x205F || u == 0x3000
}

/// Decides whether a character is an ASCII decimal digit.
pub fn digit_char(c: char) -> (r: bool)
    ensures
        r == is_digit_char(c),
{
    let u = c as u32;
    0x30 <= u && u <= 0x39
}

/// Decides whether a character can begin a binary operator.
pub fn op_char(c: char) -> (r: bool)
    ensures
        r == is_op_char(c),
{
    c == '+' || c == '-' || c == '*' || c == '/'
}

// ---------------------------------------------------------------------------
// The reserved words
// ---------------------------------------------------------------------------

/// The characters of the reserved word `define`.
pub open spec fn define_chars() -> Seq<char> {
    seq!['d', 'e', 'f', 'i', 'n', 'e']
}

/// The characters of the reserved word `if`.
pub open spec fn if_chars() -> Seq<char> {
    seq!['i', 'f']
}

/// Whether a read text is one of the reserved keywords.
pub open spec fn is_keyword(s: Seq<char>) -> bool {
    s == define_chars() || s == if_chars()
}

// ---------------------------------------------------------------------------
// Maximal runs
// ---------------------------------------------------------------------------

/// Length of the leading run of whitespace characters.
pub open spec fn ws_run(s: Seq<char>) -> int
    decreases s.len(),
{
    if s.len() == 0 {
        0
    } else if is_ws_char(s[0]) {
        1 + ws_run(s.drop_first())
    } else {
        0
    }
}

/// Length of the leading run of number characters (digits and `.`).
pub open spec fn num_run(s: Seq<char>) -> int
    decreases s.len(),
{
    if s.len() == 0 {
        0
    } else if is_num_elem(s[0]) {
        1 + num_run(s.drop_first())
    } else {
        0
    }
}

/// Length of the leading run of symbol characters, those that no whitespace
/// or parenthesis has ended yet.
pub open spec fn sym_run(s: Seq<char>) -> int
    decreases s.len(),
{
    if s.len() == 0 {
        0
    } else if !is_sym_term(s[0]) {
        1 + sym_run(s.drop_first())
    } else {
        0
    }
}

/// Length of the body of a string literal: the characters before the first
/// closing quote, or all of `s` when no quote follows.
pub open spec fn str_run(s: Seq<char>) -> int
    decreases s.len(),
{
    if s.len() == 0 {
        0
    } else if s[0] == '"' {
        0
    } else {
        1 + str_run(s.drop_first())
    }
}

/// The leading whitespace run lies within `s`, consists of whitespace, and is
/// maximal.
pub proof fn lemma_ws_run_bounds(s: Seq<char>)
    ensures
        0 <= ws_run(s) <= s.len(),
        forall|j: int| 0 <= j < ws_run(s) ==> is_ws_char(s[j]),
        ws_run(s) < s.len() ==> !is_ws_char(s[ws_run(s)]),
    decreases s.len(),
{
    if s.len() > 0 && is_ws_char(s[0]) {
        let t = s.drop_first();
        lemma_ws_run_bounds(t);
        assert forall|j: int| 0 <= j < ws_run(s) implies is_ws_char(s[j]) by {
            if j > 0 {
                assert(s[j] == t[j - 1]);
            }
        }
        if ws_run(s) < s.len() {
            assert(s[ws_run(s)] == t[ws_run(s) - 1]);
        }
    }
}

/// The leading number run lies within `s`, consists of number characters, and
/// is maximal.
pub proof fn lemma_num_run_bounds(s: Seq<char>)
    ensures
        0 <= num_run(s) <= s.len(),
        s.len() > 0 && is_num_elem(s[0]) ==> 1 <= num_run(s),
        forall|j: int| 0 <= j < num_run(s) ==> is_num_elem(s[j]),
        num_run(s) < s.len() ==> !is_num_elem(s[num_run(s)]),
    decreases s.len(),
{
    if s.len() > 0 && is_num_elem(s[0]) {
        let t = s.drop_first();
        lemma_num_run_bounds(t);
        assert forall|j: int| 0 <= j < num_run(s) implies is_num_elem(s[j]) by {
            if j > 0 {
                assert(s[j] == t[j - 1]);
            }
        }
        if num_run(s) < s.len() {
            assert(s[num_run(s)] == t[num_run(s) - 1]);
        }
    }
}

/// The leading symbol run lies within `s`, avoids the terminators, and is
/// maximal.
pub proof fn lemma_sym_run_bounds(s: Seq<char>)
    ensures
        0 <= sym_run(s) <= s.len(),
        s.len() > 0 && !is_sym_term(s[0]) ==> 1 <= sym_run(s),
        forall|j: int| 0 <= j < sym_run(s) ==> !is_sym_term(s[j]),
        sym_run(s) < s.len() ==> is_sym_term(s[sym_run(s)]),
    decreases s.len(),
{
    if s.len() > 0 && !is_sym_term(s[0]) {
        let t = s.drop_first();
        lemma_sym_run_bounds(t);
        assert forall|j: int| 0 <= j < sym_run(s) implies !is_sym_term(s[j]) by {
            if j > 0 {
                assert(s[j] == t[j - 1]);
            }
        }
        if sym_run(s) < s.len() {
            assert(s[sym_run(s)] == t[sym_run(s) - 1]);
        }
    }
}

/// The string body lies within `s`, holds no quote, and ends at a quote when
/// one follows.
pub proof fn lemma_str_run_bounds(s: Seq<char>)
    ensures
        0 <= str_run(s) <= s.len(),
        forall|j: int| 0 <= j < str_run(s) ==> s[j] != '"',
        str_run(s) < s.len() ==> s[str_run(s)] == '"',
    decreases s.len(),
{
    if s.len() > 0 && s[0] != '"' {
        let t = s.drop_first();
        lemma_str_run_bounds(t);
        assert forall|j: int| 0 <= j < str_run(s) implies s[j] != '"' by {
            if j > 0 {
                assert(s[j] == t[j - 1]);
            }
        }
        if str_run(s) < s.len() {
            assert(s[str_run(s)] == t[str_run(s) - 1]);
        }
    }
}

// ---------------------------------------------------------------------------
// Integer literals
// ---------------------------------------------------------------------------

/// The numeric value of one decimal digit character.
pub open spec fn digit_val(c: char) -> int {
    c as u32 - 0x30
}

/// The value of a run of decimal digit characters, most significant first.
pub open spec fn digits_value(s: Seq<char>) -> int
    decreases s.len(),
{
    if s.len() == 0 {
        0
    } else {
        10 * digits_value(s.drop_last()) + digit_val(s.last())
    }
}

/// Skipping the leading whitespace run changes no token.
pub proof fn lemma_tokenize_skip_ws(s: Seq<char>)
    ensures
        spec_tokenize(s.skip(ws_run(s))) == spec_tokenize(s),
    decreases s.len(),
{
    lemma_ws_run_bounds(s);
    if s.len() > 0 && is_ws_char(s[0]) {
        let t = s.drop_first();
        lemma_ws_run_bounds(t);
        lemma_tokenize_skip_ws(t);
        assert(s.skip(ws_run(s)) =~= t.skip(ws_run(t)));
    } else {
        assert(s.skip(0) =~= s);
    }
}

/// The value of a digit run is never negative.
pub proof fn lemma_digits_value_nonneg(s: Seq<char>)
    requires
        forall|j: int| 0 <= j < s.len() ==> is_digit_char(s[j]),
    ensures
        digits_value(s) >= 0,
    decreases s.len(),
{
    if s.len() > 0 {
        let t = s.drop_last();
        assert(forall|j: int| 0 <= j < t.len() ==> t[j] == s[j]);
        lemma_digits_value_nonneg(t);
    }
}

/// Extending a digit run to the right never lowers its value.
pub proof fn lemma_digits_value_prefix(s: Seq<char>, n: int)
    requires
        0 <= n <= s.len(),
        forall|j: int| 0 <= j < s.len() ==> is_digit_char(s[j]),
    ensures
        digits_value(s.take(n)) <= digits_value(s),
    decreases s.len() - n,
{
    if n < s.len() {
        assert(s.take(n + 1).drop_last() =~= s.take(n));
        assert(s.take(n + 1).last() == s[n]);
        assert(forall|j: int| 0 <= j < n ==> s.take(n)[j] == s[j]);
        lemma_digits_value_nonneg(s.take(n));
        lemma_digits_value_prefix(s, n + 1);
    } else {
        assert(s.take(n) =~= s);
    }
}

// ---------------------------------------------------------------------------
// Tokens
// ---------------------------------------------------------------------------

/// One classified lexical unit. `Float` carries the literal text of the
/// number (a digit run containing a `.`); every other text-bearing variant
/// carries the exact characters that were read for it.
#[derive(Debug, Clone, PartialEq)]
pub enum Token {
    Float(String),
    Integer(i64),
    Symbol(String),
    LeftParenthesis,
    RightParenthesis,
    String(String),
    BinaryOp(String),
    Keyword(String),
}

/// The mathematical image of a `Token`: the same variants over character
/// sequences and unbounded integers.
pub enum SpecToken {
    Float(Seq<char>),
    Integer(int),
    Symbol(Seq<char>),
    LeftParenthesis,
    RightParenthesis,
    String(Seq<char>),
    BinaryOp(Seq<char>),
    Keyword(Seq<char>),
}

impl View for Token {
    type V = SpecToken;

    open spec fn view(&self) -> SpecToken {
        match self {
            Token::Float(t) => SpecToken::Float(t@),
            Token::Integer(v) => SpecToken::Integer(*v as int),
            Token::Symbol(t) => SpecToken::Symbol(t@),
            Token::LeftParenthesis => SpecToken::LeftParenthesis,
            Token::RightParenthesis => SpecToken::RightParenthesis,
            Token::String(t) => SpecToken::String(t@),
            Token::BinaryOp(t) => SpecToken::BinaryOp(t@),
            Token::Keyword(t) => SpecToken::Keyword(t@),
        }
    }
}

impl DeepView for Token {
    type V = SpecToken;

    open spec fn deep_view(&self) -> SpecToken {
        self.view()
    }
}

/// How a completed symbol read is classified: a reserved word becomes a
/// `Keyword`, a text led by an operator character becomes a `BinaryOp`
/// carrying the whole text, anything else a `Symbol`.
pub open spec fn classify_symbol(text: Seq<char>) -> SpecToken {
    if is_keyword(text) {
        SpecToken::Keyword(text)
    } else if text.len() > 0 && is_op_char(text[0]) {
        SpecToken::BinaryOp(text)
    } else {
        SpecToken::Symbol(text)
    }
}

// ---------------------------------------------------------------------------
// The scan
// ---------------------------------------------------------------------------

/// The tokens of `s`, in the order they are read. Whitespace is skipped; a
/// parenthesis is one token; a `"` opens a string literal that runs to the
/// next `"` (or to the end of input, unterminated); a digit opens a number
/// read over digits and `.`; an alphabetic or operator character opens a
/// symbol read up to the next whitespace or parenthesis; any other character
/// ends the scan as if the input were exhausted.
pub open spec fn spec_tokenize(s: Seq<char>) -> Seq<SpecToken>
    decreases s.len(),
    via spec_tokenize_decreases
{
    if s.len() == 0 {
        Seq::empty()
    } else if is_ws_char(s[0]) {
        spec_tokenize(s.drop_first())
    } else if s[0] == '(' {
        seq![SpecToken::LeftParenthesis] + spec_tokenize(s.drop_first())
    } else if s[0] == ')' {
        seq![SpecToken::RightParenthesis] + spec_tokenize(s.drop_first())
    } else if s[0] == '"' {
        let body = s.drop_first();
        let k = str_run(body);
        let rest = if k < body.len() {
            body.skip(k + 1)
        } else {
            body.skip(k)
        };
        seq![SpecToken::String(body.take(k))] + spec_tokenize(rest)
    } else if is_digit_char(s[0]) {
        let k = num_run(s);
        let text = s.take(k);
        let tok = if text.contains('.') {
            SpecToken::Float(text)
        } else {
            SpecToken::Integer(digits_value(text))
        };
        seq![tok] + spec_tokenize(s.skip(k))
    } else if alpha_char(s[0]) || is_op_char(s[0]) {
        let k = sym_run(s);
        seq![classify_symbol(s.take(k))] + spec_tokenize(s.skip(k))
    } else {
        Seq::empty()
    }
}

#[via_fn]
proof fn spec_tokenize_decreases(s: Seq<char>) {
    if s.len() > 0 {
        lemma_str_run_bounds(s.drop_first());
        lemma_num_run_bounds(s);
        lemma_sym_run_bounds(s);
    }
}

/// An `Integer` token's value is representable in `i64`. (Values are never
/// negative: the scan reads no sign.)
pub open spec fn int_token_fits(t: SpecToken) -> bool {
    t matches SpecToken::Integer(v) ==> v <= i64::MAX
}

/// Every `Integer` token among `toks` is representable in `i64`.
pub open spec fn int_tokens_fit(toks: Seq<SpecToken>) -> bool {
    forall|i: int| 0 <= i < toks.len() ==> int_token_fits(#[trigger] toks[i])
}

/// If the next token of `s` is an integer literal, its value is representable
/// in `i64`. This speaks only of the characters: after the leading
/// whitespace, either no digit follows, or the number run has a `.` in it (a
/// float), or its digits' value fits.
pub open spec fn head_number_fits(s: Seq<char>) -> bool {
    let t = s.skip(ws_run(s));
    (t.len() > 0 && is_digit_char(t[0]) && !t.take(num_run(t)).contains('.'))
        ==> digits_value(t.take(num_run(t))) <= i64::MAX
}

// ---------------------------------------------------------------------------
// The tokenizer
// ---------------------------------------------------------------------------

/// Transient scanning state: the text under scan and a cursor into it. The
/// character at the cursor is the lookahead; the scan never looks behind it.
pub struct Tokenizer {
    chars: Vec<char>,
    pos: usize,
}

impl Tokenizer {
    /// The cursor has not run past the end of the text.
    pub closed spec fn wf(&self) -> bool {
        self.pos <= self.chars@.len()
    }

    /// The full text under scan.
    pub closed spec fn text(&self) -> Seq<char> {
        self.chars@
    }

    /// The unread part of the text, from the lookahead on.
    pub closed spec fn remaining(&self) -> Seq<char> {
        self.chars@.skip(self.pos as int)
    }

    /// The lookahead: the next unconsumed character, or `None` at end of
    /// input.
    pub closed spec fn spec_lookahead(&self) -> Option<char> {
        if self.pos < self.chars@.len() {
            Some(self.chars@[self.pos as int])
        } else {
            None
        }
    }

    /// Makes a tokenizer over the full input text, with the lookahead on the
    /// first character.
    #[verifier::loop_isolation(false)]
    pub fn new(input: &str) -> (t: Tokenizer)
        ensures
            t.wf(),
            t.text() == input@,
            t.remaining() == input@,
    {
        let len = input.unicode_len();
        let mut chars: Vec<char> = Vec::new();
        let mut i: usize = 0;
        while i < len
            invariant
                i <= len,
                chars@.len() == i as int,
                forall|j: int| 0 <= j < i as int ==> chars@[j] == input@[j],
            decreases len - i,
        {
            let c = input.get_char(i);
            chars.push(c);
            i = i + 1;
        }
        proof {
            assert(chars@ =~= input@);
        }
        let t = Tokenizer { chars, pos: 0 };
        proof {
            assert(t.remaining() =~= input@);
        }
        t
    }

    /// Reads the lookahead without moving the cursor.
    fn lookahead(&self) -> (r: Option<char>)
        requires
            self.wf(),
        ensures
            r == self.spec_lookahead(),
            r is Some <==> self.remaining().len() > 0,
            r matches Some(c) ==> c == self.remaining()[0],
    {
        if self.pos < self.chars.len() {
            Some(self.chars[self.pos])
        } else {
            None
        }
    }

    /// Moves the lookahead to the next input character; at end of input it
    /// stays put. Returns the new lookahead.
    pub fn advance(&mut self) -> (r: Option<char>)
        requires
            old(self).wf(),
        ensures
            final(self).wf(),
            final(self).text() == old(self).text(),
            old(self).remaining().len() > 0 ==> final(self).remaining() == old(
                self,
            ).remaining().drop_first(),
            old(self).remaining().len() == 0 ==> *final(self) == *old(self),
            r == final(self).spec_lookahead(),
    {
        if self.pos < self.chars.len() {
            let ghost pre = *self;
            self.pos = self.pos + 1;
            proof {
                assert(self.remaining() =~= pre.remaining().drop_first());
            }
        }
        self.lookahead()
    }

    /// Advances the lookahead past the maximal leading run of whitespace
    /// characters; no token is produced.
    pub fn eat_whitespace(&mut self)
        requires
            old(self).wf(),
        ensures
            final(self).wf(),
            final(self).text() == old(self).text(),
            final(self).remaining() == old(self).remaining().skip(
                ws_run(old(self).remaining()),
            ),
    {
        let ghost s0 = self.remaining();
        let ghost text0 = self.text();
        let ghost start = self.pos as int;
        proof {
            lemma_ws_run_bounds(s0);
            assert(s0.skip(0) =~= s0);
        }
        loop
            invariant
                self.wf(),
                self.text() == text0,
                start <= self.pos as int <= start + ws_run(s0),
                self.remaining() == s0.skip(self.pos as int - start),
            ensures
                self.wf(),
                self.text() == text0,
                self.remaining() == s0.skip(ws_run(s0)),
            decreases self.chars@.len() - self.pos,
        {
            let ghost j = self.pos as int - start;
            proof {
                lemma_ws_run_bounds(s0);
            }
            match self.lookahead() {
                Some(c) => {
                    if whitespace_char(c) {
                        proof {
                            assert(c == s0[j]);
                            assert(j < ws_run(s0));
                        }
                        self.advance();
                        proof {
                            assert(self.remaining() =~= s0.skip(j + 1));
                        }
                    } else {
                        proof {
                            assert(c == s0[j]);
                            assert(j == ws_run(s0));
                        }
                        break ;
                    }
                },
                None => {
                    proof {
                        assert(j == ws_run(s0));
                    }
                    break ;
                },
            }
        }
    }

    /// Reads the maximal run of characters up to the next whitespace or
    /// parenthesis, consuming it; the terminator, if any, stays as the
    /// lookahead.
    pub fn read_symbol(&mut self) -> (r: String)
        requires
            old(self).wf(),
        ensures
            final(self).wf(),
            final(self).text() == old(self).text(),
            r@ == old(self).remaining().take(sym_run(old(self).remaining())),
            final(self).remaining() == old(self).remaining().skip(
                sym_run(old(self).remaining()),
            ),
    {
        let ghost s0 = self.remaining();
        let ghost text0 = self.text();
        proof {
            lemma_sym_run_bounds(s0);
            assert(s0.skip(0) =~= s0);
            assert(s0.take(0) =~= Seq::<char>::empty());
        }
        let mut symbol = String::new();
        loop
            invariant
                self.wf(),
                self.text() == text0,
                symbol@.len() <= sym_run(s0),
                symbol@ == s0.take(symbol@.len() as int),
                self.remaining() == s0.skip(symbol@.len() as int),
            ensures
                self.wf(),
                self.text() == text0,
                symbol@ == s0.take(sym_run(s0)),
                self.remaining() == s0.skip(sym_run(s0)),
            decreases self.chars@.len() - self.pos,
        {
            let ghost j = symbol@.len() as int;
            proof {
                lemma_sym_run_bounds(s0);
            }
            match self.lookahead() {
                Some(c) => {
                    if whitespace_char(c) || c == '(' || c == ')' {
                        proof {
                            assert(c == s0[j]);
                            assert(j == sym_run(s0));
                        }
                        break ;
                    }
                    proof {
                        assert(c == s0[j]);
                        assert(j < sym_run(s0));
                    }
                    symbol.push(c);
                    self.advance();
                    proof {
                        assert(symbol@ =~= s0.take(j + 1));
                        assert(self.remaining() =~= s0.skip(j + 1));
                    }
                },
                None => {
                    proof {
                        assert(j == sym_run(s0));
                    }
                    break ;
                },
            }
        }
        symbol
    }

    /// Reads the maximal run of digits and `.` characters, consuming it; the
    /// first other character, if any, stays as the lookahead.
    pub fn read_number(&mut self) -> (r: String)
        requires
            old(self).wf(),
        ensures
            final(self).wf(),
            final(self).text() == old(self).text(),
            r@ == old(self).remaining().take(num_run(old(self).remaining())),
            final(self).remaining() == old(self).remaining().skip(
                num_run(old(self).remaining()),
            ),
    {
        let ghost s0 = self.remaining();
        let ghost text0 = self.text();
        proof {
            lemma_num_run_bounds(s0);
            assert(s0.skip(0) =~= s0);
            assert(s0.take(0) =~= Seq::<char>::empty());
        }
        let mut number = String::new();
        loop
            invariant
                self.wf(),
                self.text() == text0,
                number@.len() <= num_run(s0),
                number@ == s0.take(number@.len() as int),
                self.remaining() == s0.skip(number@.len() as int),
            ensures
                self.wf(),
                self.text() == text0,
                number@ == s0.take(num_run(s0)),
                self.remaining() == s0.skip(num_run(s0)),
            decreases self.chars@.len() - self.pos,
        {
            let ghost j = number@.len() as int;
            proof {
                lemma_num_run_bounds(s0);
            }
            match self.lookahead() {
                Some(c) => {
                    if !digit_char(c) && c != '.' {
                        proof {
                            assert(c == s0[j]);
                            assert(j == num_run(s0));
                        }
                        break ;
                    }
                    proof {
                        assert(c == s0[j]);
                        assert(j < num_run(s0));
                    }
                    number.push(c);
                    self.advance();
                    proof {
                        assert(number@ =~= s0.take(j + 1));
                        assert(self.remaining() =~= s0.skip(j + 1));
                    }
                },
                None => {
                    proof {
                        assert(j == num_run(s0));
                    }
                    break ;
                },
            }
        }
        number
    }

    /// Consumes the opening quote, then accumulates characters until a
    /// closing quote is consumed or the input ends; the quotes are not part
    /// of the result. At end of input the read returns empty and consumes
    /// nothing.
    pub fn read_string(&mut self) -> (r: String)
        requires
            old(self).wf(),
        ensures
            final(self).wf(),
            final(self).text() == old(self).text(),
            old(self).remaining().len() == 0 ==> r@ == Seq::<char>::empty() && *final(self)
                == *old(self),
            old(self).remaining().len() > 0 ==> ({
                let body = old(self).remaining().drop_first();
                let k = str_run(body);
                r@ == body.take(k) && final(self).remaining() == (if k < body.len() {
                    body.skip(k + 1)
                } else {
                    body.skip(k)
                })
            }),
    {
        let mut string = String::new();
        if self.pos >= self.chars.len() {
            return string;
        }
        self.advance();
        let ghost body = old(self).remaining().drop_first();
        let ghost text0 = self.text();
        proof {
            lemma_str_run_bounds(body);
            assert(self.remaining() =~= body.skip(0));
            assert(body.take(0) =~= Seq::<char>::empty());
        }
        loop
            invariant_except_break
                self.remaining() == body.skip(string@.len() as int),
            invariant
                self.wf(),
                self.text() == text0,
                string@.len() <= str_run(body),
                string@ == body.take(string@.len() as int),
            ensures
                self.wf(),
                self.text() == text0,
                string@ == body.take(str_run(body)),
                self.remaining() == (if str_run(body) < body.len() {
                    body.skip(str_run(body) + 1)
                } else {
                    body.skip(str_run(body))
                }),
            decreases self.chars@.len() - self.pos,
        {
            let ghost j = string@.len() as int;
            proof {
                lemma_str_run_bounds(body);
            }
            match self.lookahead() {
                Some(c) => {
                    if c == '"' {
                        proof {
                            assert(c == body[j]);
                            assert(j == str_run(body));
                        }
                        self.advance();
                        proof {
                            assert(self.remaining() =~= body.skip(j + 1));
                        }
                        break ;
                    }
                    proof {
                        assert(c == body[j]);
                        assert(j < str_run(body));
                    }
                    string.push(c);
                    self.advance();
                    proof {
                        assert(string@ =~= body.take(j + 1));
                        assert(self.remaining() =~= body.skip(j + 1));
                    }
                },
                None => {
                    proof {
                        assert(j == str_run(body));
                        assert(self.remaining() =~= body.skip(j));
                    }
                    break ;
                },
            }
        }
        string
    }

    /// Decides, without consuming input, whether an upcoming integer literal
    /// has a value representable in `i64` (trivially so when no integer
    /// literal comes next).
    fn peek_number_fits(&self) -> (b: bool)
        requires
            self.wf(),
        ensures
            b == head_number_fits(self.remaining()),
    {
        let ghost rem = self.remaining();
        let ghost t = rem.skip(ws_run(rem));
        let mut probe = Tokenizer { chars: self.chars.clone(), pos: self.pos };
        proof {
            assert(probe.chars@ =~= self.chars@);
            assert(probe.remaining() == rem);
        }
        probe.eat_whitespace();
        match probe.lookahead() {
            None => {
                proof {
                    assert(t.len() == 0);
                }
                true
            },
            Some(c) => {
                proof {
                    assert(c == t[0]);
                }
                if !digit_char(c) {
                    true
                } else {
                    proof {
                        lemma_num_run_bounds(t);
                    }
                    let text = probe.read_number();
                    let ghost k = num_run(t);
                    if contains_dot(&text) {
                        true
                    } else {
                        proof {
                            assert(text@ == t.take(k));
                            assert forall|j: int| 0 <= j < text@.len() implies is_digit_char(
                                text@[j],
                            ) by {
                                assert(text@[j] == t[j]);
                                assert(is_num_elem(t[j]));
                                if t[j] == '.' {
                                    assert(text@.contains('.'));
                                }
                            }
                        }
                        let opt = checked_parse(&text);
                        opt.is_some()
                    }
                }
            },
        }
    }

    /// Produces the next token and advances past it; returns `None` once the
    /// remaining input holds no further token (input exhausted, or an
    /// unrecognized character reached), and idempotently `None` on every call
    /// thereafter. An upcoming integer literal must be representable in
    /// `i64`: `tokenizer` tests exactly that before each call and reports a
    /// `TokenError` instead of calling.
    pub fn next_token(&mut self) -> (r: Option<Token>)
        requires
            old(self).wf(),
            head_number_fits(old(self).remaining()),
        ensures
            final(self).wf(),
            final(self).text() == old(self).text(),
            ({
                let toks = spec_tokenize(old(self).remaining());
                match r {
                    Some(t) => toks.len() > 0 && t@ == toks[0] && spec_tokenize(
                        final(self).remaining(),
                    ) == toks.drop_first(),
                    None => toks.len() == 0 && final(self).remaining() == old(
                        self,
                    ).remaining().skip(ws_run(old(self).remaining())) && spec_tokenize(
                        final(self).remaining(),
                    ) == toks,
                }
            }),
    {
        let ghost s_start = self.remaining();
        self.eat_whitespace();
        let ghost s = self.remaining();
        proof {
            lemma_ws_run_bounds(s_start);
            lemma_tokenize_skip_ws(s_start);
            assert(s == s_start.skip(ws_run(s_start)));
            if s.len() > 0 {
                assert(s[0] == s_start[ws_run(s_start)]);
                assert(!is_ws_char(s[0]));
            }
        }
        match self.lookahead() {
            None => {
                proof {
                    assert(s.len() == 0);
                }
                None
            },
            Some(c) => {
                proof {
                    assert(c == s[0]);
                }
                if c == '(' {
                    self.advance();
                    proof {
                        assert(spec_tokenize(s) == seq![SpecToken::LeftParenthesis]
                            + spec_tokenize(s.drop_first()));
                        assert(spec_tokenize(s)[0] == SpecToken::LeftParenthesis);
                        assert(spec_tokenize(s).drop_first() =~= spec_tokenize(s.drop_first()));
                    }
                    Some(Token::LeftParenthesis)
                } else if c == ')' {
                    self.advance();
                    proof {
                        assert(spec_tokenize(s) == seq![SpecToken::RightParenthesis]
                            + spec_tokenize(s.drop_first()));
                        assert(spec_tokenize(s)[0] == SpecToken::RightParenthesis);
                        assert(spec_tokenize(s).drop_first() =~= spec_tokenize(s.drop_first()));
                    }
                    Some(Token::RightParenthesis)
                } else if c == '"' {
                    let text = self.read_string();
                    proof {
                        let body = s.drop_first();
                        let k = str_run(body);
                        let rest = if k < body.len() {
                            body.skip(k + 1)
                        } else {
                            body.skip(k)
                        };
                        assert(spec_tokenize(s) == seq![SpecToken::String(body.take(k))]
                            + spec_tokenize(rest));
                        assert(spec_tokenize(s)[0] == SpecToken::String(body.take(k)));
                        assert(spec_tokenize(s).drop_first() =~= spec_tokenize(rest));
                    }
                    Some(Token::String(text))
                } else if digit_char(c) {
                    proof {
                        lemma_num_run_bounds(s);
                    }
                    let text = self.read_number();
                    let ghost k = num_run(s);
                    proof {
                        assert(text@ == s.take(k));
                    }
                    if contains_dot(&text) {
                        proof {
                            assert(spec_tokenize(s) == seq![SpecToken::Float(s.take(k))]
                                + spec_tokenize(s.skip(k)));
                            assert(spec_tokenize(s)[0] == SpecToken::Float(s.take(k)));
                            assert(spec_tokenize(s).drop_first() =~= spec_tokenize(s.skip(k)));
                        }
                        Some(Token::Float(text))
                    } else {
                        proof {
                            assert forall|j: int| 0 <= j < text@.len() implies is_digit_char(
                                text@[j],
                            ) by {
                                assert(text@[j] == s[j]);
                                assert(is_num_elem(s[j]));
                                if s[j] == '.' {
                                    assert(text@.contains('.'));
                                }
                            }
                            assert(digits_value(text@) <= i64::MAX);
                        }
                        let opt = checked_parse(&text);
                        let v = match opt {
                            Some(v) => v,
                            None => {
                                proof {
                                    assert(false);
                                }
                                0
                            },
                        };
                        proof {
                            assert(spec_tokenize(s) == seq![
                                SpecToken::Integer(digits_value(s.take(k))),
                            ] + spec_tokenize(s.skip(k)));
                            assert(spec_tokenize(s)[0] == SpecToken::Integer(
                                digits_value(s.take(k)),
                            ));
                            assert(spec_tokenize(s).drop_first() =~= spec_tokenize(s.skip(k)));
                        }
                        Some(Token::Integer(v))
                    }
                } else if c.is_alphabetic() || op_char(c) {
                    proof {
                        lemma_sym_run_bounds(s);
                        assert(!is_sym_term(s[0]));
                    }
                    let sym = self.read_symbol();
                    let ghost k = sym_run(s);
                    proof {
                        assert(sym@ == s.take(k));
                        assert(1 <= k && sym@.len() == k);
                        assert(spec_tokenize(s) == seq![classify_symbol(s.take(k))]
                            + spec_tokenize(s.skip(k)));
                        assert(spec_tokenize(s)[0] == classify_symbol(s.take(k)));
                        assert(spec_tokenize(s).drop_first() =~= spec_tokenize(s.skip(k)));
                        assert(sym@[0] == s[0]);
                    }
                    if keyword_text(&sym) {
                        Some(Token::Keyword(sym))
                    } else {
                        let first = sym.as_str().get_char(0);
                        if op_char(first) {
                            Some(Token::BinaryOp(sym))
                        } else {
                            Some(Token::Symbol(sym))
                        }
                    }
                } else {
                    proof {
                        assert(spec_tokenize(s).len() == 0);
                    }
                    None
                }
            },
        }
    }
}


// ---------------------------------------------------------------------------
// Converting and classifying read texts
// ---------------------------------------------------------------------------

/// Decides whether a read text contains a `.` character.
fn contains_dot(text: &String) -> (r: bool)
    ensures
        r == text@.contains('.'),
{
    let s = text.as_str();
    let n = s.unicode_len();
    let mut i: usize = 0;
    while i < n
        invariant
            i <= n,
            n == text@.len(),
            s@ == text@,
            forall|j: int| 0 <= j < i as int ==> text@[j] != '.',
        decreases n - i,
    {
        let c = s.get_char(i);
        if c == '.' {
            proof {
                assert(text@[i as int] == '.');
            }
            return true;
        }
        i = i + 1;
    }
    proof {
        if text@.contains('.') {
            let w = choose|w: int| 0 <= w < text@.len() && text@[w] == '.';
            assert(text@[w] != '.');
        }
    }
    false
}

/// Decides whether a read text is one of the reserved keywords.
fn keyword_text(text: &String) -> (r: bool)
    ensures
        r == is_keyword(text@),
{
    proof {
        reveal_strlit("define");
        reveal_strlit("if");
        assert("define"@ =~= define_chars());
        assert("if"@ =~= if_chars());
    }
    let define_s: String = "define".to_owned();
    let if_s: String = "if".to_owned();
    text.eq(&define_s) || text.eq(&if_s)
}

/// Converts a run of decimal digit characters to its value, when that value
/// is representable in `i64`.
fn checked_parse(text: &String) -> (r: Option<i64>)
    requires
        forall|j: int| 0 <= j < text@.len() ==> is_digit_char(text@[j]),
    ensures
        r matches Some(v) ==> v == digits_value(text@),
        r is Some <==> digits_value(text@) <= i64::MAX,
{
    proof {
        lemma_digits_value_nonneg(text@);
    }
    let s = text.as_str();
    let n = s.unicode_len();
    let mut v: i64 = 0;
    let mut i: usize = 0;
    while i < n
        invariant
            i <= n,
            n == text@.len(),
            s@ == text@,
            forall|j: int| 0 <= j < text@.len() ==> is_digit_char(text@[j]),
            0 <= v,
            v == digits_value(text@.take(i as int)),
        decreases n - i,
    {
        let c = s.get_char(i);
        let ghost gi = i as int;
        proof {
            assert(text@.take(gi + 1).drop_last() =~= text@.take(gi));
            assert(text@.take(gi + 1).last() == text@[gi]);
            assert(forall|j: int| 0 <= j < gi + 1 ==> text@.take(gi + 1)[j] == text@[j]);
            lemma_digits_value_nonneg(text@.take(gi + 1));
        }
        let u = c as u32;
        let d = (u - 0x30) as i64;
        let limit = i64::MAX / 10;
        if v > limit || (v == limit && d > i64::MAX % 10) {
            proof {
                assert(digits_value(text@.take(gi + 1)) > i64::MAX);
                lemma_digits_value_prefix(text@, gi + 1);
            }
            return None;
        }
        v = v * 10 + d;
        i = i + 1;
    }
    proof {
        assert(text@.take(n as int) =~= text@);
    }
    Some(v)
}

// ---------------------------------------------------------------------------
// Errors
// ---------------------------------------------------------------------------

/// The error a failed tokenization reports. The one path that produces it is
/// an integer literal whose value does not fit in `i64`; the error kind
/// otherwise stays reserved for future validation.
#[derive(Debug)]
pub struct TokenError {
    err: String,
}

impl View for TokenError {
    type V = Seq<char>;

    closed spec fn view(&self) -> Seq<char> {
        self.err@
    }
}

impl TokenError {
    /// The error's message text.
    pub fn message(&self) -> (m: &String)
        ensures
            m@ == self@,
    {
        &self.err
    }
}

// ---------------------------------------------------------------------------
// Draining the tokenizer
// ---------------------------------------------------------------------------

/// Tokenizes the whole input: constructs a `Tokenizer` and drains it,
/// collecting the tokens in production order. Succeeds exactly when every
/// integer literal that the scan reads has a value representable in `i64`,
/// and then returns precisely the tokens of `spec_tokenize`; an oversized
/// integer literal is reported as a `TokenError` instead.
pub fn tokenizer(input: &str) -> (r: Result<Vec<Token>, TokenError>)
    ensures
        int_tokens_fit(spec_tokenize(input@)) ==> (r matches Ok(toks) && toks.deep_view()
            == spec_tokenize(input@)),
        !int_tokens_fit(spec_tokenize(input@)) ==> r is Err,
{
    let ghost all = spec_tokenize(input@);
    let mut tok = Tokenizer::new(input);
    let mut tokens: Vec<Token> = Vec::new();
    proof {
        assert(tokens.deep_view() =~= all.take(0));
        assert(all.skip(0) =~= all);
        assert(int_tokens_fit(all.take(0)));
    }
    loop
        invariant
            tok.wf(),
            all == spec_tokenize(input@),
            0 <= tokens@.len() <= all.len(),
            tokens.deep_view() == all.take(tokens@.len() as int),
            spec_tokenize(tok.remaining()) == all.skip(tokens@.len() as int),
            int_tokens_fit(all.take(tokens@.len() as int)),
        decreases all.len() - tokens@.len(),
    {
        let ghost n = tokens@.len() as int;
        if !tok.peek_number_fits() {
            proof {
                let rem = tok.remaining();
                let t = rem.skip(ws_run(rem));
                lemma_ws_run_bounds(rem);
                lemma_tokenize_skip_ws(rem);
                lemma_num_run_bounds(t);
                assert(t.len() > 0 && is_digit_char(t[0]) && !t.take(num_run(t)).contains('.')
                    && digits_value(t.take(num_run(t))) > i64::MAX);
                assert(spec_tokenize(t) == seq![
                    SpecToken::Integer(digits_value(t.take(num_run(t)))),
                ] + spec_tokenize(t.skip(num_run(t))));
                assert(spec_tokenize(rem)[0] == SpecToken::Integer(
                    digits_value(t.take(num_run(t))),
                ));
                assert(all.skip(n)[0] == all[n]);
                assert(!int_token_fits(all[n]));
                assert(!int_tokens_fit(all));
            }
            return Err(TokenError { err: "integer literal out of range".to_owned() });
        }
        let ghost pre_deep = tokens.deep_view();
        match tok.next_token() {
            Some(t) => {
                proof {
                    assert(all.skip(n)[0] == all[n]);
                }
                tokens.push(t);
                proof {
                    assert(tokens.deep_view() =~= pre_deep.push(t@));
                    assert(all.take(n + 1) =~= all.take(n).push(all[n]));
                    assert(all.skip(n).drop_first() =~= all.skip(n + 1));
                    assert(int_tokens_fit(all.take(n + 1)));
                }
            },
            None => {
                proof {
                    assert(all.skip(n).len() == 0);
                    assert(n == all.len());
                    assert(tokens.deep_view() =~= all);
                    assert(int_tokens_fit(all));
                }
                return Ok(tokens);
            },
        }
    }
}

} // verus!
