//! The tokenizer: a cursor over the input's characters, the bracket depth
//! table, the numeric recognizer and the dispatcher.
use crate::chars::{is_alpha, is_closer, is_decimal_digit, is_digit, is_opener, is_whitespace, partner};
use crate::laws::lemma_step_wf;
use crate::model::{
    demand_digit, dispatch, initial, lex_step, line_col, number_token, scan_number,
    scan_tail, ws_prefix_len, LexState, NumScan,
};
use crate::token::{
    result_view, BalancingDepthType, ErrorView, LexerError, NumericHint, PunctuationKind,
    TokenType,
};
use vstd::prelude::*;
use vstd::std_specs::iter::IteratorSpec;

verus! {

/// Relies on String::push: the character is appended at the end.
#[verifier::external_body]
fn push_char(s: &mut String, c: char)
    ensures
        final(s)@ == old(s)@.push(c),
{
    s.push(c)
}

/// Open depth of each opener.
struct Balance {
    paren: i32,
    bracket: i32,
    brace: i32,
}

pub struct Lexer {
    /// Line of the next character, from 1.
    pub cur_line: usize,
    /// Column of the next character, from 1.
    pub cur_col: usize,
    /// Number of characters read.
    pub codepoint_offset: usize,
    chars: Vec<char>,
    balancing_state: Balance,
}

impl View for Lexer {
    type V = LexState;

    closed spec fn view(&self) -> LexState {
        LexState {
            input: self.chars@,
            offset: self.codepoint_offset as int,
            line: self.cur_line as int,
            col: self.cur_col as int,
            paren: self.balancing_state.paren as int,
            bracket: self.balancing_state.bracket as int,
            brace: self.balancing_state.brace as int,
        }
    }
}

proof fn lemma_line_col_bounds(p: Seq<char>)
    ensures
        1 <= line_col(p).0 <= p.len() + 1,
        1 <= line_col(p).1 <= p.len() + 1,
    decreases p.len(),
{
    if p.len() > 0 {
        lemma_line_col_bounds(p.drop_last());
    }
}

impl Lexer {
    /// The lexer's state is reachable, and the public counters show it.
    pub closed spec fn wf(&self) -> bool {
        &&& self@.wf()
        &&& self.cur_line as int == self@.line
        &&& self.cur_col as int == self@.col
        &&& self.codepoint_offset as int == self@.offset
    }

    /// Line of the next character, from 1.
    pub fn line(&self) -> (r: usize)
        ensures
            r as int == self@.line,
    {
        self.cur_line
    }

    /// Column of the next character on its line, from 1.
    pub fn col(&self) -> (r: usize)
        ensures
            r as int == self@.col,
    {
        self.cur_col
    }

    /// Number of characters read so far, whitespace included.
    pub fn offset(&self) -> (r: usize)
        ensures
            r as int == self@.offset,
    {
        self.codepoint_offset
    }

    /// A lexer at the start of `chars`. The open depths are `i32`, which
    /// bounds the input's length.
    pub fn new(chars: &str) -> (r: Lexer)
        requires
            chars@.len() <= i32::MAX,
        ensures
            r.wf(),
            r@ == initial(chars@),
            r@.wf(),
            r@.line == 1,
            r@.col == 1,
            r@.offset == 0,
    {
        broadcast use vstd::string::group_string_axioms;

        let mut v: Vec<char> = Vec::new();
        let mut it = chars.chars();
        loop
            invariant
                v@ + it.remaining() == chars@,
                it.obeys_prophetic_iter_laws(),
                it.decrease() is Some,
            ensures
                v@ == chars@,
            decreases it.decrease()->0,
        {
            match it.next() {
                Some(c) => v.push(c),
                None => {
                    assert(v@ =~= v@ + it.remaining());
                    break;
                },
            }
        }
        let r = Lexer {
            cur_col: 1,
            cur_line: 1,
            codepoint_offset: 0,
            chars: v,
            balancing_state: Balance { paren: 0, bracket: 0, brace: 0 },
        };
        r
    }

    /// The partner of a bracket.
    fn map_balance(c: char) -> (r: char)
        requires
            is_opener(c) || is_closer(c),
        ensures
            r == partner(c),
    {
        match c {
            '}' => '{',
            '{' => '}',
            ']' => '[',
            '[' => ']',
            ')' => '(',
            _ => ')',
        }
    }

    /// Opens one more `c` and returns how many were open before.
    fn push_symbol(&mut self, c: char) -> (r: BalancingDepthType)
        requires
            is_opener(c),
            old(self)@.depth(c) < i32::MAX,
        ensures
            r as int == old(self)@.depth(c),
            final(self)@ == old(self)@.with_depth(c, old(self)@.depth(c) + 1),
            final(self).cur_line == old(self).cur_line,
            final(self).cur_col == old(self).cur_col,
            final(self).codepoint_offset == old(self).codepoint_offset,
    {
        if c == '(' {
            self.balancing_state.paren = self.balancing_state.paren + 1;
            self.balancing_state.paren - 1
        } else if c == '[' {
            self.balancing_state.bracket = self.balancing_state.bracket + 1;
            self.balancing_state.bracket - 1
        } else {
            self.balancing_state.brace = self.balancing_state.brace + 1;
            self.balancing_state.brace - 1
        }
    }

    /// Closes one opener partnered with `c`, returning how many stay open,
    /// or reports `c` as misbalanced when none is open.
    fn pop_symbol(&mut self, c: char) -> (r: Result<BalancingDepthType, LexerError>)
        requires
            is_closer(c),
            old(self)@.depth(partner(c)) >= 0,
        ensures
            final(self).cur_line == old(self).cur_line,
            final(self).cur_col == old(self).cur_col,
            final(self).codepoint_offset == old(self).codepoint_offset,
            old(self)@.depth(partner(c)) >= 1 ==> r == Ok::<BalancingDepthType, LexerError>(
                (old(self)@.depth(partner(c)) - 1) as i32,
            ) && final(self)@ == old(self)@.with_depth(
                partner(c),
                old(self)@.depth(partner(c)) - 1,
            ),
            old(self)@.depth(partner(c)) < 1 ==> r is Err && r->Err_0@ == (
            ErrorView::MisbalancedSymbol { symbol: c, open: partner(c) }) && final(self)@ == old(
                self,
            )@,
    {
        let o = Lexer::map_balance(c);
        let v = if o == '(' {
            self.balancing_state.paren
        } else if o == '[' {
            self.balancing_state.bracket
        } else {
            self.balancing_state.brace
        };
        if v >= 1 {
            if o == '(' {
                self.balancing_state.paren = v - 1;
            } else if o == '[' {
                self.balancing_state.bracket = v - 1;
            } else {
                self.balancing_state.brace = v - 1;
            }
            Ok(v - 1)
        } else {
            Err(LexerError::MisbalancedSymbol { symbol: c, open: o })
        }
    }

    /// The next character, left unread.
    fn peek(&self) -> (r: Option<char>)
        requires
            self.wf(),
        ensures
            self@.offset < self@.input.len() ==> r == Some(self@.input[self@.offset]),
            self@.offset >= self@.input.len() ==> r is None,
    {
        if self.codepoint_offset < self.chars.len() {
            Some(self.chars[self.codepoint_offset])
        } else {
            None
        }
    }

    /// Reads the next character and moves the position past it.
    fn consume_char(&mut self) -> (r: Option<char>)
        requires
            old(self).wf(),
        ensures
            final(self).wf(),
            old(self)@.offset < old(self)@.input.len() ==> r == Some(
                old(self)@.input[old(self)@.offset],
            ) && final(self)@ == old(self)@.at(old(self)@.offset + 1),
            old(self)@.offset >= old(self)@.input.len() ==> r is None && final(self)@ == old(
                self,
            )@,
    {
        if self.codepoint_offset < self.chars.len() {
            let c = self.chars[self.codepoint_offset];
            proof {
                let p = self@.input.take(self@.offset);
                lemma_line_col_bounds(p);
                assert(self@.input.take(self@.offset + 1).drop_last() =~= p);
            }
            self.cur_col = self.cur_col + 1;
            if c == '\n' {
                self.cur_line = self.cur_line + 1;
                self.cur_col = 1;
            }
            self.codepoint_offset = self.codepoint_offset + 1;
            Some(c)
        } else {
            None
        }
    }

    /// Reads past the whitespace at the position.
    fn skip_whitespace(&mut self)
        requires
            old(self).wf(),
        ensures
            final(self).wf(),
            final(self)@ == old(self)@.at(old(self)@.offset + ws_prefix_len(old(self)@.rest())),
    {
        let ghost s0 = self@;
        loop
            invariant
                self.wf(),
                s0.offset <= self@.offset,
                self@ == s0.at(self@.offset),
                ws_prefix_len(s0.rest()) == (self@.offset - s0.offset) + ws_prefix_len(
                    self@.rest(),
                ),
            ensures
                self@ == s0.at(s0.offset + ws_prefix_len(s0.rest())),
            decreases self@.input.len() - self@.offset,
        {
            let p = self.peek();
            match p {
                Some(c) => {
                    if !is_whitespace(c) {
                        break;
                    }
                    proof {
                        assert(self@.rest().drop_first() =~= self@.at(self@.offset + 1).rest());
                    }
                    self.consume_char();
                },
                None => {
                    break;
                },
            }
        }
    }

    /// Reads the next character, which must be a decimal digit; `raw` is
    /// the lexeme reported when it is not.
    fn consume_digit(&mut self, raw: &String) -> (r: Result<char, LexerError>)
        requires
            old(self).wf(),
        ensures
            final(self).wf(),
            old(self)@.offset < old(self)@.input.len() ==> final(self)@ == old(self)@.at(
                old(self)@.offset + 1,
            ),
            old(self)@.offset >= old(self)@.input.len() ==> final(self)@ == old(self)@,
            digit_next(old(self)@) ==> r == Ok::<char, LexerError>(
                old(self)@.input[old(self)@.offset],
            ),
            !digit_next(old(self)@) ==> r is Err && r->Err_0@ == (
            ErrorView::NumericLiteralInvalidChar { raw: raw@ }),
    {
        match self.consume_char() {
            None => Err(LexerError::NumericLiteralInvalidChar { raw: raw.clone() }),
            Some(c) => {
                if !is_digit(c) {
                    Err(LexerError::NumericLiteralInvalidChar { raw: raw.clone() })
                } else {
                    Ok(c)
                }
            },
        }
    }

    /// Recognizes a decimal literal whose first character `start`, a digit
    /// or a dot, has just been read.
    fn parse_number(&mut self, start: char) -> (r: Result<TokenType, LexerError>)
        requires
            old(self).wf(),
            1 <= old(self)@.offset,
            old(self)@.input[old(self)@.offset - 1] == start,
        ensures
            final(self).wf(),
            final(self)@ == old(self)@.at(
                old(self)@.offset - 1 + number_token(old(self)@.from(old(self)@.offset - 1)).0,
            ),
            result_view(r) == number_token(old(self)@.from(old(self)@.offset - 1)).1,
    {
        let ghost s0 = self@;
        let ghost b = s0.offset - 1;
        let ghost t = s0.from(b);
        let mut seen_dot = false;
        let mut seen_exp = false;
        let mut num = String::new();
        push_char(&mut num, start);
        assert(num@ =~= t.take(1));
        assert(t[0] == start);
        if start == '.' {
            assert(scan_number(t) == demand_digit(t, 1, true, false));
            match self.consume_digit(&num) {
                Ok(d) => push_char(&mut num, d),
                Err(e) => {
                    return Err(e);
                },
            }
            seen_dot = true;
            assert(num@ =~= t.take(2));
        }
        loop
            invariant
                self.wf(),
                1 <= s0.offset <= self@.offset <= s0.input.len(),
                s0 == old(self)@,
                b == s0.offset - 1,
                self@ == s0.at(self@.offset),
                t == s0.from(b),
                num@ == t.take(self@.offset - b),
                scan_number(t) == scan_tail(t, self@.offset - b, seen_dot, seen_exp),
            decreases self@.input.len() - self@.offset,
        {
            let ghost k = self@.offset - b;
            let p = self.peek();
            match p {
                Some(c) => {
                    assert(t[k] == c);
                    if c == '.' && !seen_dot && !seen_exp {
                        push_char(&mut num, c);
                        self.consume_char();
                        seen_dot = true;
                        assert(num@ =~= t.take(k + 1));
                    } else if (c == 'e' || c == 'E') && !seen_exp {
                        push_char(&mut num, c);
                        self.consume_char();
                        seen_exp = true;
                        assert(num@ =~= t.take(k + 1));
                        match self.peek() {
                            Some(sign) => {
                                assert(t[k + 1] == sign);
                                if sign == '+' || sign == '-' {
                                    push_char(&mut num, sign);
                                    self.consume_char();
                                    assert(num@ =~= t.take(k + 2));
                                }
                            },
                            None => {},
                        }
                        let ghost j = self@.offset - b;
                        assert(num@ == t.take(j));
                        assert(scan_number(t) == demand_digit(t, j, seen_dot, true));
                        let ghost before = self@;
                        assert(before.offset == b + j);
                        assert(j < t.len() ==> t[j] == before.input[before.offset]);
                        match self.consume_digit(&num) {
                            Ok(d) => push_char(&mut num, d),
                            Err(e) => {
                                proof {
                                    assert(!digit_next(before));
                                    if j < t.len() {
                                        assert(scan_number(t) == NumScan::Fail { end: j + 1, raw_end: j });
                                    } else {
                                        assert(scan_number(t) == NumScan::Fail { end: j, raw_end: j });
                                    }
                                }
                                return Err(e);
                            },
                        }
                        assert(num@ =~= t.take(j + 1));
                    } else if is_digit(c) {
                        push_char(&mut num, c);
                        self.consume_char();
                        assert(num@ =~= t.take(k + 1));
                    } else if is_alpha(c) {
                        push_char(&mut num, c);
                        assert(num@ =~= t.take(k + 1));
                        assert(scan_number(t) == NumScan::Fail { end: k, raw_end: k + 1 });
                        return Err(LexerError::NumericLiteralInvalidChar { raw: num });
                    } else {
                        let hint = if seen_dot || seen_exp {
                            NumericHint::FloatingPoint
                        } else {
                            NumericHint::Integer
                        };
                        assert(scan_number(t) == NumScan::Done { end: k, floating: seen_dot || seen_exp });
                        return Ok(TokenType::Numeric { raw: num, hint });
                    }
                },
                None => {
                    let hint = if seen_dot || seen_exp {
                        NumericHint::FloatingPoint
                    } else {
                        NumericHint::Integer
                    };
                    return Ok(TokenType::Numeric { raw: num, hint });
                },
            }
        }
    }

    /// Turns the character `c`, just read, into a token.
    fn transform_to_type(&mut self, c: char) -> (r: Result<TokenType, LexerError>)
        requires
            old(self).wf(),
            1 <= old(self)@.offset,
            old(self)@.input[old(self)@.offset - 1] == c,
            old(self)@.paren < old(self)@.offset,
            old(self)@.bracket < old(self)@.offset,
            old(self)@.brace < old(self)@.offset,
        ensures
            final(self).wf(),
            final(self)@ == dispatch(old(self)@.from(old(self)@.offset - 1), old(self)@).2.at(
                old(self)@.offset - 1 + dispatch(old(self)@.from(old(self)@.offset - 1), old(self)@).0,
            ),
            result_view(r) == dispatch(old(self)@.from(old(self)@.offset - 1), old(self)@).1,
    {
        let ghost t = self@.from(self@.offset - 1);
        assert(t[0] == c);
        if c == '(' || c == '[' {
            let d = self.push_symbol(c);
            Ok(TokenType::Punctuation { raw: c, kind: PunctuationKind::Open(d) })
        } else if c == ')' || c == ']' {
            match self.pop_symbol(c) {
                Ok(d) => Ok(TokenType::Punctuation { raw: c, kind: PunctuationKind::Close(d) }),
                Err(e) => Err(e),
            }
        } else if is_digit(c) || c == '.' {
            self.parse_number(c)
        } else {
            let mut symbol = String::new();
            push_char(&mut symbol, c);
            assert(symbol@ =~= seq![c]);
            Err(LexerError::UnknownSymbol { symbol })
        }
    }

    /// Skips whitespace, then reads one token or reports one error; at the
    /// end of the input it returns `EOF`, again on every later call.
    pub fn next_token(&mut self) -> (r: Result<TokenType, LexerError>)
        requires
            old(self).wf(),
        ensures
            final(self).wf(),
            final(self)@.wf(),
            (final(self)@, result_view(r)) == lex_step(old(self)@),
            old(self)@.offset <= final(self)@.offset,
            final(self)@.input == old(self)@.input,
    {
        proof {
            lemma_step_wf(self@);
        }
        let ghost s0 = self@;
        self.skip_whitespace();
        let ghost s1 = self@;
        proof {
            assert(s0.rest().skip(ws_prefix_len(s0.rest()) as int) =~= s1.from(s1.offset));
        }
        match self.consume_char() {
            Some(c) => {
                let r = self.transform_to_type(c);
                r
            },
            None => Ok(TokenType::EOF),
        }
    }
}

/// The next character exists and is a decimal digit.
pub open spec fn digit_next(st: LexState) -> bool {
    st.offset < st.input.len() && is_decimal_digit(st.input[st.offset])
}

} // verus!
