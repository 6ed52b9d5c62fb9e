//! The mathematical model of the tokenizer: a lexer state over the whole
//! input, and the effect of one call of the tokenizer on it.
use crate::chars::{is_ascii_alpha, is_decimal_digit, is_unicode_whitespace, partner};
use crate::token::{ErrorView, NumericHint, PunctuationKind, StepView, TokenView};
use vstd::prelude::*;

verus! {

/// Line and column of the next character after reading `p`: a newline
/// moves to the start of the next line, any other character one column on.
pub open spec fn line_col(p: Seq<char>) -> (int, int)
    decreases p.len(),
{
    if p.len() == 0 {
        (1, 1)
    } else {
        let lc = line_col(p.drop_last());
        if p.last() == '\n' {
            (lc.0 + 1, 1)
        } else {
            (lc.0, lc.1 + 1)
        }
    }
}

/// Number of newline characters in `p`.
pub open spec fn newlines(p: Seq<char>) -> nat {
    p.filter(|c: char| c == '\n').len()
}

/// Length of the run of whitespace that `s` starts with.
pub open spec fn ws_prefix_len(s: Seq<char>) -> nat
    decreases s.len(),
{
    if s.len() > 0 && is_unicode_whitespace(s[0]) {
        1 + ws_prefix_len(s.drop_first())
    } else {
        0
    }
}

/// What the numeric recognizer does with a lexeme that starts at `t[0]`.
/// Positions are counted from `t[0]`: `end` is where reading stopped, and
/// a failure reports the lexeme `t[0..raw_end]`.
pub enum NumScan {
    Done { end: int, floating: bool },
    Fail { end: int, raw_end: int },
}

/// A digit demanded at `t[j]`: when something else is there it is read and
/// the lexeme so far is reported.
pub open spec fn demand_digit(t: Seq<char>, j: int, dot: bool, exp: bool) -> NumScan
    decreases t.len() - j, 1int,
{
    if j < t.len() && is_decimal_digit(t[j]) {
        scan_tail(t, j + 1, dot, exp)
    } else if j < t.len() {
        NumScan::Fail { end: j + 1, raw_end: j }
    } else {
        NumScan::Fail { end: j, raw_end: j }
    }
}

/// The recognizer's loop, with `t[0..k]` read and the flags for a dot and
/// an exponent seen so far.
pub open spec fn scan_tail(t: Seq<char>, k: int, dot: bool, exp: bool) -> NumScan
    decreases t.len() - k, 0int,
{
    if k < 0 || k >= t.len() {
        NumScan::Done { end: k, floating: dot || exp }
    } else {
        let c = t[k];
        if c == '.' && !dot && !exp {
            scan_tail(t, k + 1, true, exp)
        } else if (c == 'e' || c == 'E') && !exp {
            if k + 1 < t.len() && (t[k + 1] == '+' || t[k + 1] == '-') {
                demand_digit(t, k + 2, dot, true)
            } else {
                demand_digit(t, k + 1, dot, true)
            }
        } else if is_decimal_digit(c) {
            scan_tail(t, k + 1, dot, exp)
        } else if is_ascii_alpha(c) {
            NumScan::Fail { end: k, raw_end: k + 1 }
        } else {
            NumScan::Done { end: k, floating: dot || exp }
        }
    }
}

/// The recognizer on a lexeme whose first character, a digit or a dot, is
/// `t[0]`.
pub open spec fn scan_number(t: Seq<char>) -> NumScan {
    if t.len() > 0 && t[0] == '.' {
        demand_digit(t, 1, true, false)
    } else {
        scan_tail(t, 1, false, false)
    }
}

/// The state of a lexer: its input, how much of it is read, the position
/// of the next character, and the open depth of each opener.
pub struct LexState {
    pub input: Seq<char>,
    pub offset: int,
    pub line: int,
    pub col: int,
    pub paren: int,
    pub bracket: int,
    pub brace: int,
}

impl LexState {
    /// The unread part of the input.
    pub open spec fn rest(self) -> Seq<char> {
        self.input.subrange(self.offset, self.input.len() as int)
    }

    /// The input from position `i` on.
    pub open spec fn from(self, i: int) -> Seq<char> {
        self.input.subrange(i, self.input.len() as int)
    }

    /// The open depth of an opener.
    pub open spec fn depth(self, o: char) -> int {
        if o == '(' {
            self.paren
        } else if o == '[' {
            self.bracket
        } else {
            self.brace
        }
    }

    pub open spec fn with_depth(self, o: char, d: int) -> LexState {
        if o == '(' {
            LexState { paren: d, ..self }
        } else if o == '[' {
            LexState { bracket: d, ..self }
        } else {
            LexState { brace: d, ..self }
        }
    }

    /// The state with the input read up to `o`.
    pub open spec fn at(self, o: int) -> LexState {
        let lc = line_col(self.input.take(o));
        LexState { offset: o, line: lc.0, col: lc.1, ..self }
    }

    /// A state that some sequence of calls can reach.
    pub open spec fn wf(self) -> bool {
        &&& 0 <= self.offset <= self.input.len() <= i32::MAX
        &&& line_col(self.input.take(self.offset)) == (self.line, self.col)
        &&& 0 <= self.paren <= self.offset
        &&& 0 <= self.bracket <= self.offset
        &&& 0 <= self.brace <= self.offset
    }
}

/// The state of a fresh lexer on `input`.
pub open spec fn initial(input: Seq<char>) -> LexState {
    LexState { input, offset: 0, line: 1, col: 1, paren: 0, bracket: 0, brace: 0 }
}

pub open spec fn hint_of(floating: bool) -> NumericHint {
    if floating {
        NumericHint::FloatingPoint
    } else {
        NumericHint::Integer
    }
}

/// How many characters the recognizer reads from `t`, and what it returns.
pub open spec fn number_token(t: Seq<char>) -> (int, StepView) {
    match scan_number(t) {
        NumScan::Done { end, floating } => (
            end,
            Ok(TokenView::Numeric { raw: t.take(end), hint: hint_of(floating) }),
        ),
        NumScan::Fail { end, raw_end } => (
            end,
            Err(ErrorView::NumericLiteralInvalidChar { raw: t.take(raw_end) }),
        ),
    }
}

/// The token for the character `t[0]`, which is not whitespace: how many
/// characters it reads, what it returns, and the state with the depths
/// that it leaves.
pub open spec fn dispatch(t: Seq<char>, st: LexState) -> (int, StepView, LexState) {
    let c = t[0];
    if c == '(' || c == '[' {
        let d = st.depth(c);
        (
            1,
            Ok(TokenView::Punctuation { raw: c, kind: PunctuationKind::Open(d as i32) }),
            st.with_depth(c, d + 1),
        )
    } else if c == ')' || c == ']' {
        let o = partner(c);
        let d = st.depth(o);
        if d >= 1 {
            (
                1,
                Ok(TokenView::Punctuation { raw: c, kind: PunctuationKind::Close((d - 1) as i32) }),
                st.with_depth(o, d - 1),
            )
        } else {
            (1, Err(ErrorView::MisbalancedSymbol { symbol: c, open: o }), st)
        }
    } else if is_decimal_digit(c) || c == '.' {
        let (m, res) = number_token(t);
        (m, res, st)
    } else {
        (1, Err(ErrorView::UnknownSymbol { symbol: seq![c] }), st)
    }
}

/// One call of the tokenizer: skip whitespace, then read one token or
/// report one error.
pub open spec fn lex_step(st: LexState) -> (LexState, StepView) {
    let n = ws_prefix_len(st.rest());
    let t = st.rest().skip(n as int);
    if t.len() == 0 {
        (st.at(st.offset + n), Ok(TokenView::EOF))
    } else {
        let (m, res, st2) = dispatch(t, st);
        (st2.at(st.offset + n + m), res)
    }
}

/// The state after `k` calls.
pub open spec fn run(st: LexState, k: nat) -> LexState
    decreases k,
{
    if k == 0 {
        st
    } else {
        lex_step(run(st, (k - 1) as nat)).0
    }
}

/// What the call numbered `k` (from 0) returns.
pub open spec fn result_at(st: LexState, k: nat) -> StepView {
    lex_step(run(st, k)).1
}

} // verus!
