//! The lexer: turns score text into an ordered sequence of [`Token`]s, or
//! fails with the first invalid construct found.
//!
//! The function [`lex_from`] is the specification: it says, character by
//! character, which tokens a text denotes. [`scan`] is proved to return
//! exactly what [`lex_from`] says.

use vstd::prelude::*;
use vstd::string::StrSliceExecFns;
use crate::error::{MetrumError, TokenError};

verus! {

/// One notation symbol of the score language.
#[derive(Debug, Clone, Copy, PartialEq)]
pub enum Token {
    /// `|`: closes the current bar.
    Barline,
    /// A note value as a fraction of a whole note, e.g. `q` is `Ratio(1, 4)`.
    Ratio(u16, u16),
    /// `xN`: repeat the previous note N times in total.
    NoteRepeat(u16),
    /// `%N`: repeat the previous bar N times in total.
    BarRepeat(u16),
    /// A bare integer; only meaningful directly after `=` as a tempo value.
    Number(u16),
    /// `=`: introduces a tempo specification.
    Equal,
    /// `.`: extends the preceding note value by half of the last increment.
    Dot,
}

/// An ASCII decimal digit.
pub open spec fn is_digit(c: char) -> bool {
    48 <= c as u32 <= 57
}

/// The first position at or after `i` that does not hold a digit (the end of
/// the digit run starting at `i`).
pub open spec fn run_end(s: Seq<char>, i: int) -> int
    decreases s.len() - i,
{
    if 0 <= i < s.len() && is_digit(s[i]) {
        run_end(s, i + 1)
    } else {
        i
    }
}

/// The numeric value of the digits `s[i..j]`.
pub open spec fn run_val(s: Seq<char>, i: int, j: int) -> int
    decreases j - i,
{
    if j <= i {
        0
    } else {
        run_val(s, i, j - 1) * 10 + (s[j - 1] as u32 - 48)
    }
}

pub proof fn lemma_run_end(s: Seq<char>, i: int)
    requires
        0 <= i <= s.len(),
    ensures
        i <= run_end(s, i) <= s.len(),
        forall |k: int| i <= k < run_end(s, i) ==> is_digit(#[trigger] s[k]),
        run_end(s, i) == s.len() || !is_digit(s[run_end(s, i)]),
    decreases s.len() - i,
{
    if i < s.len() && is_digit(s[i]) {
        lemma_run_end(s, i + 1);
    }
}

pub proof fn lemma_run_val_nonneg(s: Seq<char>, i: int, j: int)
    requires
        forall |m: int| i <= m < j ==> is_digit(#[trigger] s[m]),
    ensures
        0 <= run_val(s, i, j),
    decreases j - i,
{
    if j > i {
        lemma_run_val_nonneg(s, i, j - 1);
        let v = run_val(s, i, j - 1);
        assert(0 <= v * 10) by (nonlinear_arith)
            requires 0 <= v;
    }
}

pub proof fn lemma_run_val_mono(s: Seq<char>, i: int, j: int, k: int)
    requires
        i <= j <= k,
        forall |m: int| i <= m < k ==> is_digit(#[trigger] s[m]),
    ensures
        run_val(s, i, j) <= run_val(s, i, k),
    decreases k - j,
{
    if j < k {
        lemma_run_val_mono(s, i, j, k - 1);
        lemma_run_val_nonneg(s, i, k - 1);
        let v = run_val(s, i, k - 1);
        assert(v <= v * 10) by (nonlinear_arith)
            requires 0 <= v;
    }
}

/// `i` starts a maximal digit run of `s`.
pub open spec fn run_start(s: Seq<char>, i: int) -> bool {
    0 <= i < s.len() && is_digit(s[i]) && (i == 0 || !is_digit(s[i - 1]))
}

/// Every maximal digit run of `s` has a numeric value that fits in `u16`;
/// the lexer parses each such run as one `u16`.
pub open spec fn digit_runs_fit(s: Seq<char>) -> bool {
    forall |i: int| #[trigger] run_start(s, i) ==> run_val(s, i, run_end(s, i)) <= 65535
}

/// Prepends one token to the tokens of a lexer outcome.
pub open spec fn lex_cons(t: Token, rest: Result<Seq<Token>, MetrumError>) -> Result<
    Seq<Token>,
    MetrumError,
> {
    match rest {
        Ok(ts) => Ok(seq![t] + ts),
        Err(e) => Err(e),
    }
}

/// What the lexer returns for the text `s` from position `i` on: the
/// remaining tokens, or the first error.
pub open spec fn lex_from(s: Seq<char>, i: int) -> Result<Seq<Token>, MetrumError>
    decreases s.len() - i,
    via lex_from_dec
{
    if i < 0 || i >= s.len() {
        Ok(Seq::empty())
    } else {
        let c = s[i];
        if c == ' ' || c == '\n' || c == '\r' {
            lex_from(s, i + 1)
        } else if c == '.' {
            lex_cons(Token::Dot, lex_from(s, i + 1))
        } else if c == '=' {
            lex_cons(Token::Equal, lex_from(s, i + 1))
        } else if c == '|' {
            lex_cons(Token::Barline, lex_from(s, i + 1))
        } else if c == 'w' {
            lex_cons(Token::Ratio(1, 1), lex_from(s, i + 1))
        } else if c == 'h' {
            lex_cons(Token::Ratio(1, 2), lex_from(s, i + 1))
        } else if c == 'q' {
            lex_cons(Token::Ratio(1, 4), lex_from(s, i + 1))
        } else if c == 'e' {
            lex_cons(Token::Ratio(1, 8), lex_from(s, i + 1))
        } else if c == 's' {
            lex_cons(Token::Ratio(1, 16), lex_from(s, i + 1))
        } else if c == 't' {
            lex_cons(Token::Ratio(1, 32), lex_from(s, i + 1))
        } else if c == 'x' || c == '%' {
            let j = run_end(s, i + 1);
            if j == i + 1 {
                Err(MetrumError::TokenError(TokenError::MissingRepetition(c)))
            } else {
                let v = run_val(s, i + 1, j);
                if v <= 1 {
                    Err(MetrumError::TokenError(TokenError::NotEnoughRepeats))
                } else if c == 'x' {
                    lex_cons(Token::NoteRepeat(v as u16), lex_from(s, j))
                } else {
                    lex_cons(Token::BarRepeat(v as u16), lex_from(s, j))
                }
            }
        } else if c == '/' {
            Err(MetrumError::TokenError(TokenError::LeadingSlash))
        } else if is_digit(c) {
            let j = run_end(s, i);
            let v = run_val(s, i, j);
            if v == 0 {
                Err(MetrumError::TokenError(TokenError::Zero))
            } else if j < s.len() && s[j] == '/' {
                if j + 1 < s.len() && is_digit(s[j + 1]) {
                    let k = run_end(s, j + 1);
                    let v2 = run_val(s, j + 1, k);
                    if v2 == 0 {
                        Err(MetrumError::TokenError(TokenError::Zero))
                    } else {
                        lex_cons(Token::Ratio(v as u16, v2 as u16), lex_from(s, k))
                    }
                } else {
                    Err(MetrumError::TokenError(TokenError::IncompleteRatio))
                }
            } else {
                lex_cons(Token::Number(v as u16), lex_from(s, j))
            }
        } else {
            Err(MetrumError::TokenError(TokenError::InvalidCharacter(c)))
        }
    }
}

#[via_fn]
proof fn lex_from_dec(s: Seq<char>, i: int) {
    if 0 <= i < s.len() {
        lemma_run_end(s, i);
        lemma_run_end(s, i + 1);
        let j = run_end(s, i);
        if j < s.len() {
            lemma_run_end(s, j + 1);
        }
    }
}

/// The tokens of a whole text, or its first error.
pub open spec fn lex(s: Seq<char>) -> Result<Seq<Token>, MetrumError> {
    lex_from(s, 0)
}

/// A lexer outcome with tokens already emitted in front of it.
spec fn lex_prepend(pre: Seq<Token>, r: Result<Seq<Token>, MetrumError>) -> Result<
    Seq<Token>,
    MetrumError,
> {
    match r {
        Ok(ts) => Ok(pre + ts),
        Err(e) => Err(e),
    }
}

proof fn lemma_prepend_push(pre: Seq<Token>, t: Token, r: Result<Seq<Token>, MetrumError>)
    ensures
        lex_prepend(pre, lex_cons(t, r)) == lex_prepend(pre.push(t), r),
{
    match r {
        Ok(ts) => {
            assert(pre + (seq![t] + ts) =~= pre.push(t) + ts);
        },
        Err(_) => {},
    }
}

/// Whether `c` is an ASCII decimal digit.
fn digit_char(c: char) -> (b: bool)
    ensures
        b == is_digit(c),
{
    let u = c as u32;
    48 <= u && u <= 57
}

/// Collects the digit run of `s` starting at `start`, returning its value and
/// its end position. `start` must not sit in the middle of a run, and every
/// maximal run of `s` must fit in `u16`.
fn scan_digits(s: &str, n: usize, start: usize) -> (res: (u16, usize))
    requires
        digit_runs_fit(s@),
        n == s@.len(),
        start <= n,
        start == 0 || !is_digit(s@[start as int - 1]),
    ensures
        res.1 as int == run_end(s@, start as int),
        res.0 as int == run_val(s@, start as int, run_end(s@, start as int)),
        start <= res.1 <= n,
{
    proof {
        lemma_run_end(s@, start as int);
    }
    let mut p = start;
    let mut val: u16 = 0;
    while p < n && digit_char(s.get_char(p))
        invariant
            digit_runs_fit(s@),
            n == s@.len(),
            start <= n,
            start == 0 || !is_digit(s@[start as int - 1]),
            start <= p <= run_end(s@, start as int),
            val as int == run_val(s@, start as int, p as int),
        decreases n - p,
    {
        let c = s.get_char(p);
        proof {
            lemma_run_end(s@, start as int);
            assert(p < run_end(s@, start as int));
            assert(is_digit(s@[start as int]));
            assert(run_start(s@, start as int));
            lemma_run_val_mono(s@, start as int, p as int + 1, run_end(s@, start as int));
            lemma_run_val_nonneg(s@, start as int, p as int);
        }
        let u = c as u32;
        let d: u16 = (u - 48) as u16;
        val = val * 10 + d;
        p = p + 1;
    }
    proof {
        lemma_run_end(s@, start as int);
    }
    (val, p)
}

/// Walks one digit run, clamping the accumulated value once it passes
/// `u16`: returns whether the run's value fits, and the run's end.
fn check_run(s: &str, n: usize, start: usize) -> (res: (bool, usize))
    requires
        n == s@.len(),
        start < n,
        is_digit(s@[start as int]),
    ensures
        res.1 as int == run_end(s@, start as int),
        res.0 == (run_val(s@, start as int, run_end(s@, start as int)) <= 65535),
        start < res.1 <= n,
{
    proof {
        lemma_run_end(s@, start as int);
    }
    let mut p = start;
    let mut val: u32 = 0;
    while p < n && digit_char(s.get_char(p))
        invariant
            n == s@.len(),
            start < n,
            is_digit(s@[start as int]),
            start <= p <= run_end(s@, start as int),
            run_val(s@, start as int, p as int) <= 65535 ==> val == run_val(
                s@,
                start as int,
                p as int,
            ),
            run_val(s@, start as int, p as int) > 65535 ==> val == 66000,
            val <= 66000,
        decreases n - p,
    {
        let c = s.get_char(p);
        proof {
            lemma_run_end(s@, start as int);
            assert(p < run_end(s@, start as int));
            lemma_run_val_nonneg(s@, start as int, p as int);
            let v = run_val(s@, start as int, p as int);
            assert(v <= v * 10) by (nonlinear_arith)
                requires 0 <= v;
        }
        let u = c as u32;
        let d = u - 48;
        let cand = val * 10 + d;
        val = if cand > 65535 {
            66000
        } else {
            cand
        };
        p = p + 1;
    }
    proof {
        lemma_run_end(s@, start as int);
    }
    (val <= 65535, p)
}

/// Decides [`digit_runs_fit`]: whether every maximal digit run of the text
/// has a value that fits in `u16`, as [`scan`] requires of its input.
pub fn digits_fit(text: &str) -> (b: bool)
    ensures
        b == digit_runs_fit(text@),
{
    let n = text.unicode_len();
    let mut i: usize = 0;
    while i < n
        invariant
            n == text@.len(),
            i <= n,
            i == 0 || i >= n || !is_digit(text@[i as int - 1]) || !is_digit(text@[i as int]),
            forall |m: int| 0 <= m < i && #[trigger] run_start(text@, m) ==> run_val(
                text@,
                m,
                run_end(text@, m),
            ) <= 65535,
        decreases n - i,
    {
        let c = text.get_char(i);
        if digit_char(c) {
            let (fits, j) = check_run(text, n, i);
            if !fits {
                proof {
                    assert(run_start(text@, i as int));
                    assert(!digit_runs_fit(text@));
                }
                return false;
            }
            proof {
                lemma_run_end(text@, i as int);
            }
            i = j;
        } else {
            i = i + 1;
        }
    }
    true
}

/// Consumes the score text character by character and emits its tokens, or
/// fails with a `TokenError` at the first invalid construct. Returns exactly
/// what [`lex`] says of the text.
pub fn scan(score: String) -> (r: Result<Vec<Token>, MetrumError>)
    requires
        digit_runs_fit(score@),
    ensures
        match r {
            Ok(toks) => lex(score@) == Ok::<Seq<Token>, MetrumError>(toks@),
            Err(e) => lex(score@) == Err::<Seq<Token>, MetrumError>(e),
        },
{
    let s = score.as_str();
    let n = s.unicode_len();
    let mut tokens: Vec<Token> = Vec::new();
    let mut i: usize = 0;
    while i < n
        invariant
            digit_runs_fit(s@),
            s@ == score@,
            n == s@.len(),
            i <= n,
            i == 0 || i >= n || !is_digit(s@[i as int - 1]) || !is_digit(s@[i as int]),
            lex_from(s@, 0) == lex_prepend(tokens@, lex_from(s@, i as int)),
        decreases n - i,
    {
        let c = s.get_char(i);
        let ghost prev = tokens@;
        if c == ' ' || c == '\n' || c == '\r' {
            proof {
                assert(' ' as u32 == 32);
                assert(!is_digit(c));
            }
            i = i + 1;
        } else if c == '.' {
            tokens.push(Token::Dot);
            proof {
                assert(!is_digit(c));
                lemma_prepend_push(prev, Token::Dot, lex_from(s@, i as int + 1));
            }
            i = i + 1;
        } else if c == '=' {
            tokens.push(Token::Equal);
            proof {
                assert(!is_digit(c));
                lemma_prepend_push(prev, Token::Equal, lex_from(s@, i as int + 1));
            }
            i = i + 1;
        } else if c == '|' {
            tokens.push(Token::Barline);
            proof {
                assert(!is_digit(c));
                lemma_prepend_push(prev, Token::Barline, lex_from(s@, i as int + 1));
            }
            i = i + 1;
        } else if c == 'w' {
            tokens.push(Token::Ratio(1, 1));
            proof {
                assert(!is_digit(c));
                lemma_prepend_push(prev, Token::Ratio(1, 1), lex_from(s@, i as int + 1));
            }
            i = i + 1;
        } else if c == 'h' {
            tokens.push(Token::Ratio(1, 2));
            proof {
                assert(!is_digit(c));
                lemma_prepend_push(prev, Token::Ratio(1, 2), lex_from(s@, i as int + 1));
            }
            i = i + 1;
        } else if c == 'q' {
            tokens.push(Token::Ratio(1, 4));
            proof {
                assert(!is_digit(c));
                lemma_prepend_push(prev, Token::Ratio(1, 4), lex_from(s@, i as int + 1));
            }
            i = i + 1;
        } else if c == 'e' {
            tokens.push(Token::Ratio(1, 8));
            proof {
                assert(!is_digit(c));
                lemma_prepend_push(prev, Token::Ratio(1, 8), lex_from(s@, i as int + 1));
            }
            i = i + 1;
        } else if c == 's' {
            tokens.push(Token::Ratio(1, 16));
            proof {
                assert(!is_digit(c));
                lemma_prepend_push(prev, Token::Ratio(1, 16), lex_from(s@, i as int + 1));
            }
            i = i + 1;
        } else if c == 't' {
            tokens.push(Token::Ratio(1, 32));
            proof {
                assert(!is_digit(c));
                lemma_prepend_push(prev, Token::Ratio(1, 32), lex_from(s@, i as int + 1));
            }
            i = i + 1;
        } else if c == 'x' || c == '%' {
            let (v, j) = scan_digits(s, n, i + 1);
            if j == i + 1 {
                return Err(MetrumError::TokenError(TokenError::MissingRepetition(c)));
            }
            if v <= 1 {
                return Err(MetrumError::TokenError(TokenError::NotEnoughRepeats));
            }
            let tok = if c == 'x' {
                Token::NoteRepeat(v)
            } else {
                Token::BarRepeat(v)
            };
            tokens.push(tok);
            proof {
                lemma_run_end(s@, i as int + 1);
                lemma_prepend_push(prev, tok, lex_from(s@, j as int));
            }
            i = j;
        } else if c == '/' {
            return Err(MetrumError::TokenError(TokenError::LeadingSlash));
        } else if digit_char(c) {
            let (v, j) = scan_digits(s, n, i);
            if v == 0 {
                return Err(MetrumError::TokenError(TokenError::Zero));
            }
            proof {
                lemma_run_end(s@, i as int);
            }
            if j < n && s.get_char(j) == '/' {
                let has_bottom = j + 1 < n && digit_char(s.get_char(j + 1));
                if has_bottom {
                    let (v2, k) = scan_digits(s, n, j + 1);
                    if v2 == 0 {
                        return Err(MetrumError::TokenError(TokenError::Zero));
                    }
                    tokens.push(Token::Ratio(v, v2));
                    proof {
                        lemma_run_end(s@, j as int + 1);
                        lemma_prepend_push(prev, Token::Ratio(v, v2), lex_from(s@, k as int));
                    }
                    i = k;
                } else {
                    return Err(MetrumError::TokenError(TokenError::IncompleteRatio));
                }
            } else {
                tokens.push(Token::Number(v));
                proof {
                    lemma_prepend_push(prev, Token::Number(v), lex_from(s@, j as int));
                }
                i = j;
            }
        } else {
            return Err(MetrumError::TokenError(TokenError::InvalidCharacter(c)));
        }
    }
    proof {
        assert(tokens@ + Seq::<Token>::empty() =~= tokens@);
    }
    Ok(tokens)
}

} // verus!
