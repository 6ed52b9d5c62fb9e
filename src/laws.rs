//! Laws of the tokenizer, stated over the model that `Lexer::next_token`
//! follows, and proved.
use crate::chars::{is_ascii_alpha, is_decimal_digit, is_unicode_whitespace, partner};
use crate::model::{
    demand_digit, dispatch, lex_step, line_col, newlines, number_token, result_at, run,
    scan_number, scan_tail, ws_prefix_len, LexState, NumScan,
};
use crate::token::{ErrorView, NumericHint, PunctuationKind, StepView, TokenView};
use vstd::prelude::*;

verus! {

proof fn lemma_ws_prefix(s: Seq<char>)
    ensures
        ws_prefix_len(s) <= s.len(),
        forall|i: int| 0 <= i < ws_prefix_len(s) ==> is_unicode_whitespace(#[trigger] s[i]),
        ws_prefix_len(s) < s.len() ==> !is_unicode_whitespace(s[ws_prefix_len(s) as int]),
    decreases s.len(),
{
    if s.len() > 0 && is_unicode_whitespace(s[0]) {
        lemma_ws_prefix(s.drop_first());
        assert forall|i: int| 0 <= i < ws_prefix_len(s) implies is_unicode_whitespace(
            #[trigger] s[i],
        ) by {
            if i > 0 {
                assert(s[i] == s.drop_first()[i - 1]);
            }
        }
    }
}

/// Where the numeric loop stops lies between where it starts and the end.
proof fn lemma_scan_tail_bounds(t: Seq<char>, k: int, dot: bool, exp: bool)
    requires
        0 <= k <= t.len(),
    ensures
        match scan_tail(t, k, dot, exp) {
            NumScan::Done { end, floating } => k <= end <= t.len(),
            NumScan::Fail { end, raw_end } => k <= end <= t.len() && raw_end <= t.len(),
        },
    decreases t.len() - k,
{
    if k < t.len() {
        let c = t[k];
        if c == '.' && !dot && !exp {
            lemma_scan_tail_bounds(t, k + 1, true, exp);
        } else if (c == 'e' || c == 'E') && !exp {
            let j = if k + 1 < t.len() && (t[k + 1] == '+' || t[k + 1] == '-') {
                k + 2
            } else {
                k + 1
            };
            assert(scan_tail(t, k, dot, exp) == demand_digit(t, j, dot, true));
            if j < t.len() && is_decimal_digit(t[j]) {
                assert(demand_digit(t, j, dot, true) == scan_tail(t, j + 1, dot, true));
                lemma_scan_tail_bounds(t, j + 1, dot, true);
            }
        } else if is_decimal_digit(c) {
            lemma_scan_tail_bounds(t, k + 1, dot, exp);
        }
    }
}

proof fn lemma_number_bounds(t: Seq<char>)
    requires
        t.len() > 0,
    ensures
        1 <= number_token(t).0 <= t.len(),
        number_token(t).1 matches Ok(TokenView::Numeric { raw, hint }) ==> raw.len()
            == number_token(t).0,
{
    if t[0] == '.' {
        if 1 < t.len() && is_decimal_digit(t[1]) {
            lemma_scan_tail_bounds(t, 2, true, false);
        }
    } else {
        lemma_scan_tail_bounds(t, 1, false, false);
    }
}

proof fn lemma_at_twice(st: LexState, o: int)
    ensures
        st.at(o).at(o) == st.at(o),
{
}

/// One call keeps a reachable state reachable, keeps the input, and moves
/// the position forward by what it read.
pub proof fn lemma_step_wf(st: LexState)
    requires
        st.wf(),
    ensures
        lex_step(st).0.wf(),
        lex_step(st).0.input == st.input,
        st.offset <= lex_step(st).0.offset <= st.input.len(),
        lex_step(st).0.line == line_col(st.input.take(lex_step(st).0.offset)).0,
        lex_step(st).0.col == line_col(st.input.take(lex_step(st).0.offset)).1,
{
    let r = st.rest();
    lemma_ws_prefix(r);
    let n = ws_prefix_len(r);
    let t = r.skip(n as int);
    if t.len() > 0 {
        let c = t[0];
        if is_decimal_digit(c) || c == '.' {
            lemma_number_bounds(t);
        }
    }
}

/// The state after any number of calls is reachable, with the same input.
pub proof fn lemma_run_wf(st: LexState, k: nat)
    requires
        st.wf(),
    ensures
        run(st, k).wf(),
        run(st, k).input == st.input,
    decreases k,
{
    if k > 0 {
        lemma_run_wf(st, (k - 1) as nat);
        lemma_step_wf(run(st, (k - 1) as nat));
    }
}

/// Over any sequence of calls the number of characters read never goes
/// down, and what has been read is always a prefix of the input.
pub proof fn lemma_offset_monotone(st: LexState, m: nat, n: nat)
    requires
        st.wf(),
        m <= n,
    ensures
        run(st, m).offset <= run(st, n).offset <= st.input.len(),
    decreases n,
{
    lemma_run_wf(st, n);
    if m < n {
        lemma_offset_monotone(st, m, (n - 1) as nat);
        lemma_run_wf(st, (n - 1) as nat);
        lemma_step_wf(run(st, (n - 1) as nat));
    }
}

/// The line is one more than the number of newlines read.
pub proof fn lemma_line_counts_newlines(p: Seq<char>)
    ensures
        line_col(p).0 == 1 + newlines(p),
        (forall|i: int| 0 <= i < p.len() ==> p[i] != '\n') ==> newlines(p) == 0,
    decreases p.len(),
{
    reveal(Seq::filter);
    if p.len() > 0 {
        lemma_line_counts_newlines(p.drop_last());
        if forall|i: int| 0 <= i < p.len() ==> p[i] != '\n' {
            assert forall|i: int| 0 <= i < p.drop_last().len() implies p.drop_last()[i] != '\n' by {
                assert(p.drop_last()[i] == p[i]);
            }
        }
    }
}

/// In any reachable state the line is one more than the number of newlines
/// read so far; with no newline read it is 1.
pub proof fn lemma_line_of_state(st: LexState, k: nat)
    requires
        st.wf(),
    ensures
        run(st, k).line == 1 + newlines(st.input.take(run(st, k).offset)),
        (forall|i: int| 0 <= i < st.input.len() ==> st.input[i] != '\n') ==> run(st, k).line
            == 1,
{
    lemma_run_wf(st, k);
    let p = st.input.take(run(st, k).offset);
    lemma_line_counts_newlines(p);
    if forall|i: int| 0 <= i < st.input.len() ==> st.input[i] != '\n' {
        assert forall|i: int| 0 <= i < p.len() implies p[i] != '\n' by {
            assert(p[i] == st.input[i]);
        }
    }
}

/// Once a call returns `EOF`, the next call returns `EOF` again and
/// changes nothing.
pub proof fn lemma_eof_idempotent(st: LexState)
    requires
        st.wf(),
        lex_step(st).1 == Ok::<TokenView, crate::token::ErrorView>(TokenView::EOF),
    ensures
        lex_step(lex_step(st).0) == lex_step(st),
{
    let r = st.rest();
    lemma_ws_prefix(r);
    let n = ws_prefix_len(r);
    let t = r.skip(n as int);
    if t.len() > 0 {
        let c = t[0];
        if is_decimal_digit(c) || c == '.' {
            lemma_number_bounds(t);
        }
    }
    assert(t.len() == 0);
    let s1 = lex_step(st).0;
    assert(s1.rest() =~= Seq::<char>::empty());
    lemma_at_twice(st, st.offset + n);
}

/// In every reachable state, and so after any sequence of calls, every
/// open depth is at least zero.
pub proof fn lemma_depths_nonnegative(st: LexState, k: nat)
    requires
        st.wf(),
    ensures
        run(st, k).depth('(') >= 0,
        run(st, k).depth('[') >= 0,
        run(st, k).depth('{') >= 0,
{
    lemma_run_wf(st, k);
}


/// How a result moves the open depth of the opener `o`.
pub open spec fn depth_change(r: StepView, o: char) -> int {
    match r {
        Ok(TokenView::Punctuation { raw, kind: PunctuationKind::Open(_) }) => if raw == o {
            1int
        } else {
            0int
        },
        Ok(TokenView::Punctuation { raw, kind: PunctuationKind::Close(_) }) => if raw == partner(
            o,
        ) {
            -1int
        } else {
            0int
        },
        _ => 0int,
    }
}

/// Opened minus closed brackets of the opener `o` over the calls numbered
/// `lo` to `hi - 1`.
pub open spec fn net_depth(st: LexState, o: char, lo: nat, hi: nat) -> int
    decreases hi,
{
    if hi <= lo {
        0
    } else {
        net_depth(st, o, lo, (hi - 1) as nat) + depth_change(result_at(st, (hi - 1) as nat), o)
    }
}

proof fn lemma_step_depth(st: LexState, o: char)
    requires
        st.wf(),
        o == '(' || o == '[' || o == '{',
    ensures
        lex_step(st).0.depth(o) == st.depth(o) + depth_change(lex_step(st).1, o),
{
    lemma_step_wf(st);
}

/// The open depth after some calls is the depth before them plus what
/// they opened minus what they closed.
pub proof fn lemma_depth_counts(st: LexState, o: char, lo: nat, hi: nat)
    requires
        st.wf(),
        o == '(' || o == '[' || o == '{',
        lo <= hi,
    ensures
        run(st, hi).depth(o) == run(st, lo).depth(o) + net_depth(st, o, lo, hi),
    decreases hi,
{
    if lo < hi {
        lemma_depth_counts(st, o, lo, (hi - 1) as nat);
        lemma_run_wf(st, (hi - 1) as nat);
        lemma_step_depth(run(st, (hi - 1) as nat), o);
    }
}

/// A bracket opened by call 0 as `Open(d)` and closed by call `n` as
/// `Close(e)`, with as many brackets of its kind opened as closed in
/// between, has `e == d`.
pub proof fn lemma_depth_round_trip(st: LexState, o: char, n: nat, d: i32, e: i32)
    requires
        st.wf(),
        o == '(' || o == '[',
        1 <= n,
        result_at(st, 0) == Ok::<TokenView, crate::token::ErrorView>(
            TokenView::Punctuation { raw: o, kind: PunctuationKind::Open(d) },
        ),
        result_at(st, n) == Ok::<TokenView, crate::token::ErrorView>(
            TokenView::Punctuation { raw: partner(o), kind: PunctuationKind::Close(e) },
        ),
        net_depth(st, o, 1, n) == 0,
    ensures
        e == d,
{
    lemma_run_wf(st, n);
    lemma_step_depth(st, o);
    assert(run(st, 1) == lex_step(run(st, 0)).0);
    lemma_depth_counts(st, o, 1, n);
    lemma_step_depth(run(st, n), o);
}

/// The lexeme of a numeric token is exactly the input that the call read
/// after the whitespace it skipped.
pub proof fn lemma_numeric_lexeme(st: LexState)
    requires
        st.wf(),
        lex_step(st).1 is Ok,
        lex_step(st).1->Ok_0 is Numeric,
    ensures
        ({
            let raw = lex_step(st).1->Ok_0->Numeric_raw;
            let end = lex_step(st).0.offset;
            &&& st.offset + raw.len() <= end
            &&& raw == st.input.subrange(end - raw.len(), end)
            &&& forall|i: int|
                st.offset <= i < end - raw.len() ==> is_unicode_whitespace(#[trigger] st.input[i])
        }),
{
    let r = st.rest();
    lemma_ws_prefix(r);
    let n = ws_prefix_len(r);
    let t = r.skip(n as int);
    lemma_number_bounds(t);
    let raw = lex_step(st).1->Ok_0->Numeric_raw;
    let end = lex_step(st).0.offset;
    assert(raw =~= st.input.subrange(end - raw.len(), end));
    assert forall|i: int| st.offset <= i < end - raw.len() implies is_unicode_whitespace(
        #[trigger] st.input[i],
    ) by {
        assert(st.input[i] == r[i - st.offset]);
    }
}

pub open spec fn is_float_mark(c: char) -> bool {
    c == '.' || c == 'e' || c == 'E'
}

proof fn lemma_scan_tail_floating(t: Seq<char>, k: int, dot: bool, exp: bool)
    requires
        0 <= k <= t.len(),
    ensures
        scan_tail(t, k, dot, exp) matches NumScan::Done { end, floating } ==> floating == (dot
            || exp || exists|i: int| k <= i < end && is_float_mark(#[trigger] t[i])),
    decreases t.len() - k,
{
    if k < t.len() {
        let c = t[k];
        if c == '.' && !dot && !exp {
            lemma_scan_tail_floating(t, k + 1, true, exp);
            lemma_scan_tail_bounds(t, k + 1, true, exp);
            assert(is_float_mark(t[k]));
        } else if (c == 'e' || c == 'E') && !exp {
            let j = if k + 1 < t.len() && (t[k + 1] == '+' || t[k + 1] == '-') {
                k + 2
            } else {
                k + 1
            };
            assert(scan_tail(t, k, dot, exp) == demand_digit(t, j, dot, true));
            if j < t.len() && is_decimal_digit(t[j]) {
                assert(demand_digit(t, j, dot, true) == scan_tail(t, j + 1, dot, true));
                lemma_scan_tail_floating(t, j + 1, dot, true);
                lemma_scan_tail_bounds(t, j + 1, dot, true);
                assert(is_float_mark(t[k]));
            }
        } else if is_decimal_digit(c) {
            lemma_scan_tail_floating(t, k + 1, dot, exp);
            lemma_scan_tail_bounds(t, k + 1, dot, exp);
            match scan_tail(t, k, dot, exp) {
                NumScan::Done { end, floating } => {
                    if exists|i: int| k <= i < end && is_float_mark(#[trigger] t[i]) {
                        let i = choose|i: int| k <= i < end && is_float_mark(#[trigger] t[i]);
                        assert(i != k);
                    }
                },
                _ => {},
            }
        }
    }
}

/// A numeric token is `FloatingPoint` exactly when its lexeme holds a dot
/// or an exponent marker, and `Integer` otherwise.
pub proof fn lemma_numeric_hint(st: LexState)
    requires
        st.wf(),
        lex_step(st).1 is Ok,
        lex_step(st).1->Ok_0 is Numeric,
    ensures
        ({
            let raw = lex_step(st).1->Ok_0->Numeric_raw;
            let hint = lex_step(st).1->Ok_0->Numeric_hint;
            &&& (hint == NumericHint::FloatingPoint) == exists|i: int|
                0 <= i < raw.len() && is_float_mark(#[trigger] raw[i])
            &&& (hint == NumericHint::FloatingPoint || hint == NumericHint::Integer)
        }),
{
    let r = st.rest();
    lemma_ws_prefix(r);
    let n = ws_prefix_len(r);
    let t = r.skip(n as int);
    lemma_number_bounds(t);
    let raw = lex_step(st).1->Ok_0->Numeric_raw;
    if t[0] == '.' {
        lemma_scan_tail_floating(t, 2, true, false);
        assert(is_float_mark(raw[0]));
    } else {
        lemma_scan_tail_floating(t, 1, false, false);
        lemma_scan_tail_bounds(t, 1, false, false);
        if exists|i: int| 0 <= i < raw.len() && is_float_mark(#[trigger] raw[i]) {
            let i = choose|i: int| 0 <= i < raw.len() && is_float_mark(#[trigger] raw[i]);
            assert(raw[i] == t[i]);
        }
        match scan_number(t) {
            NumScan::Done { end, floating } => {
                if floating {
                    let i = choose|i: int| 1 <= i < end && is_float_mark(#[trigger] t[i]);
                    assert(raw[i] == t[i]);
                }
            },
            _ => {},
        }
    }
}


proof fn lemma_ws_prefix_concat(w: Seq<char>, r: Seq<char>)
    requires
        forall|i: int| 0 <= i < w.len() ==> is_unicode_whitespace(#[trigger] w[i]),
    ensures
        ws_prefix_len(w + r) == w.len() + ws_prefix_len(r),
    decreases w.len(),
{
    if w.len() > 0 {
        assert((w + r)[0] == w[0]);
        assert((w + r).drop_first() =~= w.drop_first() + r);
        assert forall|i: int| 0 <= i < w.drop_first().len() implies is_unicode_whitespace(
            #[trigger] w.drop_first()[i],
        ) by {
            assert(w.drop_first()[i] == w[i + 1]);
        }
        lemma_ws_prefix_concat(w.drop_first(), r);
    } else {
        assert(w + r =~= r);
    }
}

/// Two reachable states with the same unread input and the same depths
/// give the same result, and again agree after the call.
proof fn lemma_step_congruent(a: LexState, b: LexState)
    requires
        a.wf(),
        b.wf(),
        a.rest() == b.rest(),
        a.paren == b.paren,
        a.bracket == b.bracket,
        a.brace == b.brace,
    ensures
        lex_step(a).1 == lex_step(b).1,
        lex_step(a).0.rest() == lex_step(b).0.rest(),
        lex_step(a).0.paren == lex_step(b).0.paren,
        lex_step(a).0.bracket == lex_step(b).0.bracket,
        lex_step(a).0.brace == lex_step(b).0.brace,
{
    lemma_step_wf(a);
    lemma_step_wf(b);
    let r = a.rest();
    let n = ws_prefix_len(r);
    let t = r.skip(n as int);
    let na = lex_step(a).0;
    let nb = lex_step(b).0;
    let da = na.offset - a.offset;
    assert(da == nb.offset - b.offset);
    assert forall|i: int| 0 <= i < na.rest().len() implies na.rest()[i] == nb.rest()[i] by {
        assert(na.rest()[i] == r[da + i]);
        assert(nb.rest()[i] == b.rest()[da + i]);
    }
    assert(na.rest() =~= nb.rest());
}

proof fn lemma_run_shift(st: LexState, k: nat)
    ensures
        run(st, k + 1) == run(lex_step(st).0, k),
    decreases k,
{
    assert(run(st, 0) == st);
    if k > 0 {
        lemma_run_shift(st, (k - 1) as nat);
        assert(run(st, k + 1) == lex_step(run(st, k)).0);
        assert(run(lex_step(st).0, k) == lex_step(run(lex_step(st).0, (k - 1) as nat)).0);
    } else {
        assert(run(st, 1) == lex_step(run(st, 0)).0);
    }
}

/// States that agree on the unread input and the depths agree on every
/// later result.
pub proof fn lemma_results_congruent(a: LexState, b: LexState, k: nat)
    requires
        a.wf(),
        b.wf(),
        a.rest() == b.rest(),
        a.paren == b.paren,
        a.bracket == b.bracket,
        a.brace == b.brace,
    ensures
        result_at(a, k) == result_at(b, k),
    decreases k,
{
    lemma_step_congruent(a, b);
    if k > 0 {
        lemma_step_wf(a);
        lemma_step_wf(b);
        lemma_results_congruent(lex_step(a).0, lex_step(b).0, (k - 1) as nat);
        lemma_run_shift(a, (k - 1) as nat);
        lemma_run_shift(b, (k - 1) as nat);
    }
}

/// The state with the whitespace `w` inserted into the input where the
/// next call starts.
pub open spec fn insert_at_cursor(st: LexState, w: Seq<char>) -> LexState {
    LexState { input: st.input.take(st.offset) + w + st.rest(), ..st }
}

/// Inserting any whitespace where the next call starts changes neither the
/// result of that call nor of any call after it.
pub proof fn lemma_whitespace_transparent(st: LexState, w: Seq<char>, k: nat)
    requires
        st.wf(),
        st.input.len() + w.len() <= i32::MAX,
        forall|i: int| 0 <= i < w.len() ==> is_unicode_whitespace(#[trigger] w[i]),
    ensures
        result_at(insert_at_cursor(st, w), k) == result_at(st, k),
{
    let sw = insert_at_cursor(st, w);
    assert(sw.input.take(sw.offset) =~= st.input.take(st.offset));
    assert(sw.rest() =~= w + st.rest());
    lemma_ws_prefix_concat(w, st.rest());
    lemma_ws_prefix(st.rest());
    let n = ws_prefix_len(st.rest());
    assert(sw.rest().skip((w.len() + n) as int) =~= st.rest().skip(n as int));
    lemma_step_wf(st);
    lemma_step_wf(sw);
    let a = lex_step(sw).0;
    let b = lex_step(st).0;
    assert(a.rest() =~= b.rest()) by {
        assert forall|i: int| 0 <= i < a.rest().len() implies a.rest()[i] == b.rest()[i] by {
            assert(a.rest()[i] == sw.rest()[a.offset - sw.offset + i]);
            assert(b.rest()[i] == st.rest()[b.offset - st.offset + i]);
        }
    }
    if k > 0 {
        lemma_results_congruent(a, b, (k - 1) as nat);
        lemma_run_shift(sw, (k - 1) as nat);
        lemma_run_shift(st, (k - 1) as nat);
    }
}


/// `[0-9]*`
pub open spec fn all_digits(s: Seq<char>) -> bool {
    forall|i: int| 0 <= i < s.len() ==> is_decimal_digit(#[trigger] s[i])
}

/// `[0-9]+`
pub open spec fn digits(s: Seq<char>) -> bool {
    s.len() > 0 && all_digits(s)
}

/// `[0-9]+ '.' [0-9]*  |  '.' [0-9]+  |  [0-9]+`
pub open spec fn mantissa(s: Seq<char>) -> bool {
    ||| digits(s)
    ||| exists|i: int|
        0 < i < s.len() && #[trigger] s[i] == '.' && digits(s.take(i)) && all_digits(
            s.skip(i + 1),
        )
    ||| (s.len() > 1 && s[0] == '.' && digits(s.skip(1)))
}

/// `[eE] [+-]? [0-9]+`
pub open spec fn exponent(s: Seq<char>) -> bool {
    &&& s.len() > 0
    &&& (s[0] == 'e' || s[0] == 'E')
    &&& (digits(s.skip(1)) || (s.len() > 1 && (s[1] == '+' || s[1] == '-') && digits(s.skip(2))))
}

/// A decimal literal: a mantissa, optionally followed by an exponent.
pub open spec fn numeric_lexeme(s: Seq<char>) -> bool {
    mantissa(s) || exists|k: int| 0 < k < s.len() && mantissa(s.take(k)) && #[trigger] exponent(
        s.skip(k),
    )
}

/// What the characters `t[0..k]` read so far form, given the flags.
spec fn scanned(t: Seq<char>, k: int, dot: bool, exp: bool) -> bool {
    if exp {
        exists|m: int| 0 < m < k && mantissa(t.take(m)) && #[trigger] exponent(t.subrange(m, k))
    } else if dot {
        mantissa(t.take(k))
    } else {
        digits(t.take(k))
    }
}

proof fn lemma_digit_extends(t: Seq<char>, k: int, dot: bool, exp: bool)
    requires
        1 <= k < t.len(),
        is_decimal_digit(t[k]),
        scanned(t, k, dot, exp),
    ensures
        scanned(t, k + 1, dot, exp),
{
    let a = t.take(k);
    let b = t.take(k + 1);
    assert(b.take(k) =~= a);
    if exp {
        let m = choose|m: int| 0 < m < k && mantissa(t.take(m)) && #[trigger] exponent(t.subrange(m, k));
        let e = t.subrange(m, k);
        let e2 = t.subrange(m, k + 1);
        assert(e2.skip(1) =~= e.skip(1).push(t[k]));
        if e.len() > 1 {
            assert(e2.skip(2) =~= e.skip(2).push(t[k]));
        }
        assert(exponent(e2));
    } else if dot {
        if digits(a) {
        } else if exists|i: int|
            0 < i < a.len() && #[trigger] a[i] == '.' && digits(a.take(i)) && all_digits(a.skip(i + 1)) {
            let i = choose|i: int|
                0 < i < a.len() && #[trigger] a[i] == '.' && digits(a.take(i)) && all_digits(a.skip(i + 1));
            assert(b.take(i) =~= a.take(i));
            assert(b.skip(i + 1) =~= a.skip(i + 1).push(t[k]));
            assert(b[i] == '.');
        } else {
            assert(b.skip(1) =~= a.skip(1).push(t[k]));
        }
    }
}

proof fn lemma_scan_tail_grammar(t: Seq<char>, k: int, dot: bool, exp: bool)
    requires
        1 <= k <= t.len(),
        scanned(t, k, dot, exp),
    ensures
        scan_tail(t, k, dot, exp) matches NumScan::Done { end, floating } ==> numeric_lexeme(
            t.take(end),
        ),
    decreases t.len() - k,
{
    if k < t.len() {
        let c = t[k];
        if c == '.' && !dot && !exp {
            let b = t.take(k + 1);
            assert(b.take(k) =~= t.take(k));
            assert(b.skip(k + 1) =~= Seq::<char>::empty());
            assert(b[k] == '.');
            lemma_scan_tail_grammar(t, k + 1, true, exp);
        } else if (c == 'e' || c == 'E') && !exp {
            let j = if k + 1 < t.len() && (t[k + 1] == '+' || t[k + 1] == '-') {
                k + 2
            } else {
                k + 1
            };
            assert(scan_tail(t, k, dot, exp) == demand_digit(t, j, dot, true));
            if j < t.len() && is_decimal_digit(t[j]) {
                assert(demand_digit(t, j, dot, true) == scan_tail(t, j + 1, dot, true));
                let e = t.subrange(k, j + 1);
                if j == k + 1 {
                    assert(e.skip(1) =~= seq![t[j]]);
                } else {
                    assert(e.skip(2) =~= seq![t[j]]);
                }
                assert(exponent(e));
                assert(mantissa(t.take(k)));
                assert(scanned(t, j + 1, dot, true));
                lemma_scan_tail_grammar(t, j + 1, dot, true);
            }
        } else if is_decimal_digit(c) {
            lemma_digit_extends(t, k, dot, exp);
            lemma_scan_tail_grammar(t, k + 1, dot, exp);
        }
    }
    match scan_tail(t, k, dot, exp) {
        NumScan::Done { end, floating } => {
            if end == k {
                let s = t.take(k);
                if exp {
                    let m = choose|m: int|
                        0 < m < k && mantissa(t.take(m)) && #[trigger] exponent(t.subrange(m, k));
                    assert(s.take(m) =~= t.take(m));
                    assert(s.skip(m) =~= t.subrange(m, k));
                }
            }
        },
        _ => {},
    }
}

pub open spec fn demands_digit(c: char) -> bool {
    c == '.' || c == 'e' || c == 'E' || c == '+' || c == '-'
}

proof fn lemma_scan_tail_failure(t: Seq<char>, k: int, dot: bool, exp: bool)
    requires
        1 <= k <= t.len(),
    ensures
        scan_tail(t, k, dot, exp) matches NumScan::Fail { end, raw_end } ==> 1 <= raw_end <= t.len()
            && ((end == raw_end - 1 && is_ascii_alpha(t[raw_end - 1])) || (demands_digit(
            t[raw_end - 1]) && (raw_end == t.len() || !is_decimal_digit(t[raw_end])))),
    decreases t.len() - k,
{
    if k < t.len() {
        let c = t[k];
        if c == '.' && !dot && !exp {
            lemma_scan_tail_failure(t, k + 1, true, exp);
        } else if (c == 'e' || c == 'E') && !exp {
            let j = if k + 1 < t.len() && (t[k + 1] == '+' || t[k + 1] == '-') {
                k + 2
            } else {
                k + 1
            };
            assert(scan_tail(t, k, dot, exp) == demand_digit(t, j, dot, true));
            if j < t.len() && is_decimal_digit(t[j]) {
                assert(demand_digit(t, j, dot, true) == scan_tail(t, j + 1, dot, true));
                lemma_scan_tail_failure(t, j + 1, dot, true);
            }
        } else if is_decimal_digit(c) {
            lemma_scan_tail_failure(t, k + 1, dot, exp);
        }
    }
}

/// A numeric token's lexeme is a decimal literal of the grammar
/// `[0-9]+ '.' [0-9]* | '.' [0-9]+ | [0-9]+`, optionally followed by
/// `[eE] [+-]? [0-9]+`. A numeric error comes from one of two causes: a
/// digit demanded after a leading dot or an exponent marker (and its sign)
/// is missing, or an ASCII letter follows the literal read so far, and the
/// reported lexeme then ends with that letter.
pub proof fn lemma_numeric_grammar(st: LexState)
    requires
        st.wf(),
    ensures
        lex_step(st).1 matches Ok(TokenView::Numeric { raw, hint }) ==> numeric_lexeme(raw),
        lex_step(st).1 matches Err(ErrorView::NumericLiteralInvalidChar { raw }) ==> raw.len() >= 1
            && (is_ascii_alpha(raw.last()) || demands_digit(raw.last())),
{
    let r = st.rest();
    lemma_ws_prefix(r);
    let n = ws_prefix_len(r);
    let t = r.skip(n as int);
    if t.len() > 0 && (is_decimal_digit(t[0]) || t[0] == '.') {
        lemma_number_bounds(t);
        if t[0] == '.' {
            if 1 < t.len() && is_decimal_digit(t[1]) {
                let b = t.take(2);
                assert(b.skip(1) =~= seq![t[1]]);
                assert(scanned(t, 2, true, false));
                lemma_scan_tail_grammar(t, 2, true, false);
                lemma_scan_tail_failure(t, 2, true, false);
            }
        } else {
            assert(t.take(1) =~= seq![t[0]]);
            assert(scanned(t, 1, false, false));
            lemma_scan_tail_grammar(t, 1, false, false);
            lemma_scan_tail_failure(t, 1, false, false);
        }
    }
}


pub open spec fn is_exp_mark(c: char) -> bool {
    c == 'e' || c == 'E'
}

/// What every literal of the grammar looks like character by character:
/// digits, dots and exponent markers, a sign only right after an exponent
/// marker, and a dot only where no dot or exponent marker comes before it.
pub open spec fn lexeme_shape(s: Seq<char>) -> bool {
    forall|p: int|
        0 <= p < s.len() ==> {
            &&& (is_decimal_digit(#[trigger] s[p]) || s[p] == '.' || is_exp_mark(s[p]) || ((s[p]
                == '+' || s[p] == '-') && p >= 1 && is_exp_mark(s[p - 1])))
            &&& (s[p] == '.' ==> forall|q: int| 0 <= q < p ==> !is_float_mark(s[q]))
        }
}

proof fn lemma_mantissa_shape(s: Seq<char>)
    requires
        mantissa(s),
    ensures
        forall|p: int|
            0 <= p < s.len() ==> (is_decimal_digit(#[trigger] s[p]) || (s[p] == '.' && forall|q: int|
                0 <= q < p ==> is_decimal_digit(s[q]))),
{
    if digits(s) {
    } else if exists|i: int|
        0 < i < s.len() && #[trigger] s[i] == '.' && digits(s.take(i)) && all_digits(s.skip(i + 1)) {
        let i = choose|i: int|
            0 < i < s.len() && #[trigger] s[i] == '.' && digits(s.take(i)) && all_digits(s.skip(i + 1));
        assert forall|p: int| 0 <= p < s.len() implies (is_decimal_digit(#[trigger] s[p]) || (s[p]
            == '.' && forall|q: int| 0 <= q < p ==> is_decimal_digit(s[q]))) by {
            if p < i {
                assert(s[p] == s.take(i)[p]);
            } else if p > i {
                assert(s[p] == s.skip(i + 1)[p - i - 1]);
            } else {
                assert forall|q: int| 0 <= q < p implies is_decimal_digit(s[q]) by {
                    assert(s[q] == s.take(i)[q]);
                }
            }
        }
    } else {
        assert forall|p: int| 0 <= p < s.len() implies (is_decimal_digit(#[trigger] s[p]) || (s[p]
            == '.' && forall|q: int| 0 <= q < p ==> is_decimal_digit(s[q]))) by {
            if p > 0 {
                assert(s[p] == s.skip(1)[p - 1]);
            }
        }
    }
}

proof fn lemma_lexeme_shape(s: Seq<char>)
    requires
        numeric_lexeme(s),
    ensures
        lexeme_shape(s),
{
    if mantissa(s) {
        lemma_mantissa_shape(s);
    } else {
        let k = choose|k: int| 0 < k < s.len() && mantissa(s.take(k)) && #[trigger] exponent(s.skip(k));
        let m = s.take(k);
        let x = s.skip(k);
        lemma_mantissa_shape(m);
        assert forall|p: int| 0 <= p < s.len() implies {
            &&& (is_decimal_digit(#[trigger] s[p]) || s[p] == '.' || is_exp_mark(s[p]) || ((s[p]
                == '+' || s[p] == '-') && p >= 1 && is_exp_mark(s[p - 1])))
            &&& (s[p] == '.' ==> forall|q: int| 0 <= q < p ==> !is_float_mark(s[q]))
        } by {
            if p < k {
                assert(s[p] == m[p]);
                if s[p] == '.' {
                    assert forall|q: int| 0 <= q < p implies !is_float_mark(s[q]) by {
                        assert(s[q] == m[q]);
                    }
                }
            } else if p == k {
                assert(s[p] == x[0]);
            } else {
                assert(s[p] == x[p - k]);
                if digits(x.skip(1)) {
                    assert(x[p - k] == x.skip(1)[p - k - 1]);
                } else if p == k + 1 {
                    assert(s[p - 1] == x[0]);
                } else {
                    assert(x[p - k] == x.skip(2)[p - k - 2]);
                }
            }
        }
    }
}

/// Where the numeric loop stops successfully: at the end of the input, or
/// at a character that is neither a digit nor a letter, that is a dot only
/// after a dot or exponent marker was read, and that follows a digit or a
/// dot.
proof fn lemma_scan_tail_stop(t: Seq<char>, k: int, dot: bool, exp: bool)
    requires
        1 <= k <= t.len(),
        dot ==> exists|p: int| 0 <= p < k && #[trigger] is_float_mark(t[p]),
        exp ==> exists|p: int| 0 <= p < k && #[trigger] is_float_mark(t[p]),
        is_decimal_digit(t[k - 1]) || t[k - 1] == '.',
    ensures
        scan_tail(t, k, dot, exp) matches NumScan::Done { end, floating } ==> end == t.len() || ({
            &&& !is_decimal_digit(t[end])
            &&& !is_ascii_alpha(t[end])
            &&& (t[end] == '.' ==> exists|p: int| 0 <= p < end && #[trigger] is_float_mark(t[p]))
            &&& (is_decimal_digit(t[end - 1]) || t[end - 1] == '.')
        }),
    decreases t.len() - k,
{
    if k < t.len() {
        let c = t[k];
        if c == '.' && !dot && !exp {
            assert(is_float_mark(t[k]));
            lemma_scan_tail_stop(t, k + 1, true, exp);
        } else if (c == 'e' || c == 'E') && !exp {
            let j = if k + 1 < t.len() && (t[k + 1] == '+' || t[k + 1] == '-') {
                k + 2
            } else {
                k + 1
            };
            assert(scan_tail(t, k, dot, exp) == demand_digit(t, j, dot, true));
            if j < t.len() && is_decimal_digit(t[j]) {
                assert(demand_digit(t, j, dot, true) == scan_tail(t, j + 1, dot, true));
                assert(is_float_mark(t[k]));
                if dot {
                    let p = choose|p: int| 0 <= p < k && #[trigger] is_float_mark(t[p]);
                }
                lemma_scan_tail_stop(t, j + 1, dot, true);
            }
        } else if is_decimal_digit(c) {
            if dot || exp {
                let p = choose|p: int| 0 <= p < k && #[trigger] is_float_mark(t[p]);
                assert(0 <= p < k + 1 && is_float_mark(t[p]));
            }
            lemma_scan_tail_stop(t, k + 1, dot, exp);
        }
    }
}

/// The lexeme of a numeric token is the longest prefix of what follows the
/// skipped whitespace that is a decimal literal of the grammar.
pub proof fn lemma_numeric_longest(st: LexState)
    requires
        st.wf(),
    ensures
        lex_step(st).1 matches Ok(TokenView::Numeric { raw, hint }) ==> forall|e: int|
            raw.len() < e <= st.rest().skip(ws_prefix_len(st.rest()) as int).len() ==> !numeric_lexeme(
                #[trigger] st.rest().skip(ws_prefix_len(st.rest()) as int).take(e),
            ),
{
    let r = st.rest();
    lemma_ws_prefix(r);
    let n = ws_prefix_len(r);
    let t = r.skip(n as int);
    if t.len() > 0 && (is_decimal_digit(t[0]) || t[0] == '.') {
        lemma_number_bounds(t);
        if t[0] == '.' {
            if 1 < t.len() && is_decimal_digit(t[1]) {
                assert(is_float_mark(t[0]));
                lemma_scan_tail_stop(t, 2, true, false);
            }
        } else {
            lemma_scan_tail_stop(t, 1, false, false);
        }
        match scan_number(t) {
            NumScan::Done { end, floating } => {
                assert forall|e: int| end < e <= t.len() implies !numeric_lexeme(
                    #[trigger] t.take(e),
                ) by {
                    let s = t.take(e);
                    if numeric_lexeme(s) {
                        lemma_lexeme_shape(s);
                        assert(s[end] == t[end]);
                        assert(s[end - 1] == t[end - 1]);
                        if t[end] == '.' {
                            let p = choose|p: int| 0 <= p < end && #[trigger] is_float_mark(t[p]);
                            assert(s[p] == t[p]);
                        }
                    }
                }
            },
            _ => {},
        }
    }
}


/// The state with the whitespace `w` inserted into the input at `p`.
pub open spec fn insert_at(st: LexState, p: int, w: Seq<char>) -> LexState {
    LexState { input: st.input.take(p) + w + st.input.skip(p), ..st }
}

proof fn lemma_ws_prefix_agree(a: Seq<char>, b: Seq<char>)
    requires
        ws_prefix_len(a) < a.len(),
        ws_prefix_len(a) < b.len(),
        forall|i: int| 0 <= i <= ws_prefix_len(a) ==> a[i] == b[i],
    ensures
        ws_prefix_len(b) == ws_prefix_len(a),
    decreases a.len(),
{
    if is_unicode_whitespace(a[0]) {
        assert forall|i: int| 0 <= i <= ws_prefix_len(a.drop_first()) implies a.drop_first()[i]
            == b.drop_first()[i] by {
            assert(a.drop_first()[i] == a[i + 1]);
            assert(b.drop_first()[i] == b[i + 1]);
        }
        lemma_ws_prefix_agree(a.drop_first(), b.drop_first());
    }
}

/// A successful numeric loop looks at nothing past where it stops, and it
/// stops as well at whitespace found there instead.
proof fn lemma_scan_tail_agree(t: Seq<char>, u: Seq<char>, k: int, dot: bool, exp: bool)
    requires
        0 <= k <= t.len(),
        scan_tail(t, k, dot, exp) is Done,
        ({
            let end = scan_tail(t, k, dot, exp)->Done_end;
            &&& end <= u.len()
            &&& forall|i: int| 0 <= i < end ==> #[trigger] u[i] == t[i]
            &&& end < u.len() ==> (end < t.len() && u[end] == t[end]) || is_unicode_whitespace(u[end])
        }),
    ensures
        scan_tail(u, k, dot, exp) == scan_tail(t, k, dot, exp),
    decreases t.len() - k,
{
    lemma_scan_tail_bounds(t, k, dot, exp);
    let end = scan_tail(t, k, dot, exp)->Done_end;
    if k < end {
        let c = t[k];
        assert(u[k] == c);
        if c == '.' && !dot && !exp {
            lemma_scan_tail_agree(t, u, k + 1, true, exp);
        } else if (c == 'e' || c == 'E') && !exp {
            let j = if k + 1 < t.len() && (t[k + 1] == '+' || t[k + 1] == '-') {
                k + 2
            } else {
                k + 1
            };
            assert(scan_tail(t, k, dot, exp) == demand_digit(t, j, dot, true));
            assert(demand_digit(t, j, dot, true) == scan_tail(t, j + 1, dot, true));
            lemma_scan_tail_bounds(t, j + 1, dot, true);
            assert(u[k + 1] == t[k + 1]);
            assert(u[j] == t[j]);
            lemma_scan_tail_agree(t, u, j + 1, dot, true);
            assert(scan_tail(u, k, dot, exp) == demand_digit(u, j, dot, true));
            assert(demand_digit(u, j, dot, true) == scan_tail(u, j + 1, dot, true));
        } else {
            assert(is_decimal_digit(c));
            assert(scan_tail(t, k, dot, exp) == scan_tail(t, k + 1, dot, exp));
            lemma_scan_tail_agree(t, u, k + 1, dot, exp);
            assert(scan_tail(u, k, dot, exp) == scan_tail(u, k + 1, dot, exp));
        }
    } else {
        assert(end == k);
        if k < t.len() {
            let c = t[k];
            if c == '.' && !dot && !exp {
                lemma_scan_tail_bounds(t, k + 1, true, exp);
            } else if (c == 'e' || c == 'E') && !exp {
                let j = if k + 1 < t.len() && (t[k + 1] == '+' || t[k + 1] == '-') {
                    k + 2
                } else {
                    k + 1
                };
                assert(scan_tail(t, k, dot, exp) == demand_digit(t, j, dot, true));
                if j < t.len() && is_decimal_digit(t[j]) {
                    lemma_scan_tail_bounds(t, j + 1, dot, true);
                }
            } else if is_decimal_digit(c) {
                lemma_scan_tail_bounds(t, k + 1, dot, exp);
            }
        }
        assert(scan_tail(t, k, dot, exp) == NumScan::Done { end: k, floating: dot || exp });
    }
    if end == k && end < u.len() {
        let x = u[end];
        if end < t.len() && x == t[end] {
            assert(scan_tail(u, k, dot, exp) == NumScan::Done { end: k, floating: dot || exp });
        } else {
            assert(is_unicode_whitespace(x));
            assert(x != '.' && x != 'e' && x != 'E');
            assert(!is_decimal_digit(x));
            assert(!is_ascii_alpha(x));
            assert(scan_tail(u, k, dot, exp) == NumScan::Done { end: k, floating: dot || exp });
        }
    }
}

/// Whitespace inserted at or after where a successful call stops changes
/// neither its result nor what it reads.
proof fn lemma_step_insert_after(st: LexState, p: int, w: Seq<char>)
    requires
        st.wf(),
        lex_step(st).1 is Ok,
        lex_step(st).1 != Ok::<TokenView, ErrorView>(TokenView::EOF),
        lex_step(st).0.offset <= p <= st.input.len(),
        st.input.len() + w.len() <= i32::MAX,
        forall|i: int| 0 <= i < w.len() ==> is_unicode_whitespace(#[trigger] w[i]),
    ensures
        insert_at(st, p, w).wf(),
        lex_step(insert_at(st, p, w)).1 == lex_step(st).1,
        lex_step(insert_at(st, p, w)).0 == insert_at(lex_step(st).0, p, w),
{
    lemma_step_wf(st);
    let sw = insert_at(st, p, w);
    assert(sw.input.take(st.offset) =~= st.input.take(st.offset));
    let r = st.rest();
    let rw = sw.rest();
    lemma_ws_prefix(r);
    let n = ws_prefix_len(r);
    let t = r.skip(n as int);
    let q = p - st.offset;
    assert forall|i: int| 0 <= i < q implies rw[i] == r[i] by {
        assert(rw[i] == sw.input[st.offset + i]);
    }
    assert(q < rw.len() ==> rw[q] == (if w.len() > 0 { w[0] } else { r[q] })) by {
        if q < rw.len() {
            assert(rw[q] == sw.input[p]);
        }
    }
    lemma_number_bounds(t);
    assert(t.len() > 0);
    let m = dispatch(t, st).0;
    assert(n + m <= q);
    lemma_ws_prefix_agree(r, rw);
    let tw = rw.skip(n as int);
    assert forall|i: int| 0 <= i < q - n implies #[trigger] tw[i] == t[i] by {
        assert(tw[i] == rw[n + i]);
        assert(t[i] == r[n + i]);
    }
    let c = t[0];
    if is_decimal_digit(c) || c == '.' {
        let end = m;
        if end < tw.len() {
            assert(tw[end] == rw[n + end]);
            if n + end < q {
                assert(t[end] == r[n + end]);
            }
        }
        if c == '.' {
            assert(1 < t.len() && is_decimal_digit(t[1]));
            lemma_scan_tail_bounds(t, 2, true, false);
            assert(tw[1] == t[1]);
            assert(scan_number(t) == scan_tail(t, 2, true, false));
            lemma_scan_tail_agree(t, tw, 2, true, false);
        } else {
            lemma_scan_tail_agree(t, tw, 1, false, false);
        }
        assert(tw.take(end) =~= t.take(end));
    }
    let o = st.offset + n + m;
    assert(sw.input.take(o) =~= st.input.take(o));
}

/// Inserting any whitespace at the end of a token that a successful call
/// returned, at any point of a sequence of calls that all returned tokens,
/// changes no result of any call.
pub proof fn lemma_whitespace_between_tokens(st: LexState, k: nat, w: Seq<char>, i: nat)
    requires
        st.wf(),
        st.input.len() + w.len() <= i32::MAX,
        forall|j: int| 0 <= j < w.len() ==> is_unicode_whitespace(#[trigger] w[j]),
        forall|j: nat|
            j < k ==> #[trigger] result_at(st, j) is Ok && result_at(st, j) != Ok::<
                TokenView,
                ErrorView,
            >(TokenView::EOF),
    ensures
        result_at(insert_at(st, run(st, k).offset, w), i) == result_at(st, i),
    decreases k,
{
    let p = run(st, k).offset;
    lemma_offset_monotone(st, 0, k);
    if k == 0 {
        assert(insert_at(st, p, w) == insert_at_cursor(st, w)) by {
            assert(st.input.skip(st.offset) =~= st.rest());
        }
        lemma_whitespace_transparent(st, w, i);
    } else {
        assert(result_at(st, 0) is Ok);
        lemma_offset_monotone(st, 1, k);
        assert(run(st, 1) == lex_step(st).0) by {
            assert(run(st, 0) == st);
        }
        lemma_step_insert_after(st, p, w);
        let s1 = lex_step(st).0;
        lemma_step_wf(st);
        assert forall|j: nat| j < (k - 1) as nat implies #[trigger] result_at(s1, j) is Ok
            && result_at(s1, j) != Ok::<TokenView, ErrorView>(TokenView::EOF) by {
            lemma_run_shift(st, j);
            assert(result_at(st, j + 1) == result_at(s1, j));
        }
        lemma_run_shift(st, (k - 1) as nat);
        assert(run(s1, (k - 1) as nat).offset == p);
        let sw = insert_at(st, p, w);
        if i > 0 {
            lemma_whitespace_between_tokens(s1, (k - 1) as nat, w, (i - 1) as nat);
            lemma_run_shift(sw, (i - 1) as nat);
            lemma_run_shift(st, (i - 1) as nat);
        } else {
            assert(run(sw, 0) == sw);
            assert(run(st, 0) == st);
        }
    }
}

} // verus!
