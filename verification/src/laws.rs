//! Properties of the lexer and the score builder proved once and for all:
//! the well-formedness of every token the lexer emits, the accent shape of
//! every built bar, the effect and the failure modes of the two repeat
//! mechanisms, and the bar count of repeat-free scores.

use vstd::prelude::*;
use crate::error::{MetrumError, ParseError};
use crate::scanner::{digit_runs_fit, is_digit, lex, lex_from, lemma_run_end,
    lemma_run_val_nonneg, run_end, run_start, run_val, Token};
use crate::score::{build, build_from, dot_run_end, init_state, lemma_dot_run_end, weak_of,
    BuildState, DurModel, Tempo};
use crate::units::{dots_in_range, dots_iter, dur_den, dur_num, relative_beats};

verus! {

/// The shape of every token the lexer emits: ratios have both fields at
/// least 1, repeat counts are at least 2, bare numbers are at least 1.
pub open spec fn valid_token(t: Token) -> bool {
    match t {
        Token::Ratio(a, b) => a >= 1 && b >= 1,
        Token::NoteRepeat(n) => n >= 2,
        Token::BarRepeat(n) => n >= 2,
        Token::Number(n) => n >= 1,
        _ => true,
    }
}

proof fn lemma_cons_valid(t: Token, rest: Seq<Token>, ts: Seq<Token>)
    requires
        valid_token(t),
        forall |m: int| 0 <= m < rest.len() ==> valid_token(#[trigger] rest[m]),
        ts == seq![t] + rest,
    ensures
        forall |m: int| 0 <= m < ts.len() ==> valid_token(#[trigger] ts[m]),
{
    assert forall |m: int| 0 <= m < ts.len() implies valid_token(#[trigger] ts[m]) by {
        if m == 0 {
            assert(ts[0] == t);
        } else {
            assert(ts[m] == rest[m - 1]);
        }
    }
}

proof fn lemma_lex_from_valid(s: Seq<char>, i: int, ts: Seq<Token>)
    requires
        digit_runs_fit(s),
        0 <= i,
        i == 0 || i >= s.len() || !is_digit(s[i - 1]) || !is_digit(s[i]),
        lex_from(s, i) == Ok::<Seq<Token>, MetrumError>(ts),
    ensures
        forall |m: int| 0 <= m < ts.len() ==> valid_token(#[trigger] ts[m]),
    decreases s.len() - i,
{
    if i >= s.len() {
    } else {
        let c = s[i];
        if c == ' ' || c == '\n' || c == '\r' {
            lemma_lex_from_valid(s, i + 1, ts);
        } else if c == '.' || c == '=' || c == '|' || c == 'w' || c == 'h' || c == 'q' || c == 'e'
            || c == 's' || c == 't' {
            if let Ok(rest) = lex_from(s, i + 1) {
                lemma_lex_from_valid(s, i + 1, rest);
                lemma_cons_valid(ts[0], rest, ts);
            }
        } else if c == 'x' || c == '%' {
            lemma_run_end(s, i + 1);
            let j = run_end(s, i + 1);
            if j > i + 1 {
                let v = run_val(s, i + 1, j);
                if v > 1 {
                    assert(run_start(s, i + 1));
                    lemma_run_val_nonneg(s, i + 1, j);
                    if let Ok(rest) = lex_from(s, j) {
                        lemma_lex_from_valid(s, j, rest);
                        lemma_cons_valid(ts[0], rest, ts);
                    }
                }
            }
        } else if c == '/' {
        } else if is_digit(c) {
            lemma_run_end(s, i);
            let j = run_end(s, i);
            let v = run_val(s, i, j);
            assert(run_start(s, i));
            lemma_run_val_nonneg(s, i, j);
            if v != 0 {
                if j < s.len() && s[j] == '/' {
                    if j + 1 < s.len() && is_digit(s[j + 1]) {
                        lemma_run_end(s, j + 1);
                        let k = run_end(s, j + 1);
                        let v2 = run_val(s, j + 1, k);
                        assert(run_start(s, j + 1));
                        lemma_run_val_nonneg(s, j + 1, k);
                        if v2 != 0 {
                            if let Ok(rest) = lex_from(s, k) {
                                lemma_lex_from_valid(s, k, rest);
                                lemma_cons_valid(ts[0], rest, ts);
                            }
                        }
                    }
                } else {
                    if let Ok(rest) = lex_from(s, j) {
                        lemma_lex_from_valid(s, j, rest);
                        lemma_cons_valid(ts[0], rest, ts);
                    }
                }
            }
        }
    }
}

/// No zero ratio field, no repeat count below 2 and no zero bare number ever
/// reaches the parser: every token the lexer emits is well-formed.
pub proof fn lemma_scan_tokens_valid(s: Seq<char>, ts: Seq<Token>)
    requires
        digit_runs_fit(s),
        lex(s) == Ok::<Seq<Token>, MetrumError>(ts),
    ensures
        forall |m: int| 0 <= m < ts.len() ==> valid_token(#[trigger] ts[m]),
{
    lemma_lex_from_valid(s, 0, ts);
}

/// A bar as the builder shapes it: non-empty, its first duration strong,
/// every later one weak.
pub open spec fn well_accented(bar: Seq<DurModel>) -> bool {
    bar.len() >= 1 && partial_accented(bar)
}

/// Each duration of the bar is strong exactly when it is the first.
pub open spec fn partial_accented(bar: Seq<DurModel>) -> bool {
    forall |m: int| 0 <= m < bar.len() ==> (#[trigger] bar[m]).strong == (m == 0)
}

proof fn lemma_build_accented(toks: Seq<Token>, i: int, st: BuildState, bars: Seq<Seq<DurModel>>)
    requires
        forall |k: int| 0 <= k < st.bars.len() ==> well_accented(#[trigger] st.bars[k]),
        partial_accented(st.bar),
        build_from(toks, i, st) == Some(Ok::<Seq<Seq<DurModel>>, MetrumError>(bars)),
    ensures
        forall |k: int| 0 <= k < bars.len() ==> well_accented(#[trigger] bars[k]),
    decreases toks.len() - i,
{
    if i < 0 || i >= toks.len() {
    } else {
        let cur = toks[i];
        match cur {
            Token::Barline => {
                let st1 = BuildState {
                    bars: if st.bar.len() > 0 {
                        st.bars.push(st.bar)
                    } else {
                        st.bars
                    },
                    bar: Seq::empty(),
                    tempo: st.tempo,
                    last: Some(cur),
                };
                lemma_build_accented(toks, i + 1, st1, bars);
            },
            Token::Ratio(top, bottom) => {
                lemma_dot_run_end(toks, i + 1);
                let j = dot_run_end(toks, i + 1);
                if j < toks.len() && toks[j] == Token::Equal {
                    if j + 1 < toks.len() {
                        match toks[j + 1] {
                            Token::Number(n) => {
                                lemma_build_accented(
                                    toks,
                                    j + 2,
                                    BuildState {
                                        tempo: Tempo { beat: (top, bottom), num_beats: n },
                                        last: Some(cur),
                                        ..st
                                    },
                                    bars,
                                );
                            },
                            Token::Ratio(top2, bottom2) => {
                                lemma_dot_run_end(toks, j + 2);
                                let k = dot_run_end(toks, j + 2);
                                let nd = (j - (i + 1)) as nat;
                                let nd2 = (k - (j + 2)) as nat;
                                if nd <= 14 && nd2 <= 14 && dots_in_range(
                                    top as int,
                                    bottom as int,
                                    nd,
                                ) && dots_in_range(top2 as int, bottom2 as int, nd2)
                                    && st.tempo.beat.1 >= 1 && dots_iter(
                                    top as int,
                                    bottom as int,
                                    nd,
                                ).0 >= 1 {
                                    let a1 = dots_iter(top as int, bottom as int, nd);
                                    let a2 = dots_iter(top2 as int, bottom2 as int, nd2);
                                    lemma_build_accented(
                                        toks,
                                        k,
                                        BuildState {
                                            tempo: Tempo {
                                                beat: (a2.0 as u16, a2.2 as u16),
                                                num_beats: relative_beats(
                                                    st.tempo,
                                                    a1.0,
                                                    a1.2,
                                                ) as u16,
                                            },
                                            last: Some(cur),
                                            ..st
                                        },
                                        bars,
                                    );
                                }
                            },
                            _ => {},
                        }
                    }
                } else {
                    let d = DurModel {
                        num: dur_num(top, st.tempo, (j - (i + 1)) as nat),
                        den: dur_den(bottom, st.tempo, (j - (i + 1)) as nat),
                        strong: st.bar.len() == 0,
                    };
                    if j - (i + 1) <= 14 {
                        lemma_build_accented(
                            toks,
                            j,
                            BuildState { bar: st.bar.push(d), last: Some(cur), ..st },
                            bars,
                        );
                    }
                }
            },
            Token::NoteRepeat(n) => {
                if st.bar.len() >= 1 && n >= 1 {
                    lemma_build_accented(
                        toks,
                        i + 1,
                        BuildState {
                            bar: st.bar + Seq::new((n - 1) as nat, |m: int| weak_of(st.bar.last())),
                            last: Some(cur),
                            ..st
                        },
                        bars,
                    );
                }
            },
            Token::BarRepeat(n) => {
                if st.last == Some(Token::Barline) && st.bars.len() >= 1 && n >= 1 {
                    lemma_build_accented(
                        toks,
                        i + 1,
                        BuildState {
                            bars: st.bars + Seq::new((n - 1) as nat, |m: int| st.bars.last()),
                            last: Some(cur),
                            ..st
                        },
                        bars,
                    );
                }
            },
            _ => {},
        }
    }
}

/// In every bar of a score the builder returns, the first duration is strong
/// and all later ones are weak, and no bar is empty; this survives note and
/// bar repeat expansion.
pub proof fn lemma_score_bars_accented(toks: Seq<Token>, bars: Seq<Seq<DurModel>>)
    requires
        build(toks) == Some(Ok::<Seq<Seq<DurModel>>, MetrumError>(bars)),
    ensures
        forall |k: int| 0 <= k < bars.len() ==> well_accented(#[trigger] bars[k]),
{
    lemma_build_accented(toks, 0, init_state(), bars);
}

/// A `NoteRepeat(n)` step on a bar holding `k >= 1` durations leaves
/// `k + (n - 1)` durations in that bar: the first `k` unchanged, the
/// appended ones value-equal to the bar's previous last duration but weak.
/// On an empty bar the step fails with `NothingToRepeat`.
pub proof fn lemma_note_repeat_step(toks: Seq<Token>, i: int, st: BuildState, n: u16)
    requires
        0 <= i < toks.len(),
        toks[i] == Token::NoteRepeat(n),
        n >= 1,
    ensures
        st.bar.len() >= 1 ==> {
            let nb = st.bar + Seq::new((n - 1) as nat, |m: int| weak_of(st.bar.last()));
            &&& build_from(toks, i, st) == build_from(
                toks,
                i + 1,
                BuildState { bar: nb, last: Some(toks[i]), ..st },
            )
            &&& nb.len() == st.bar.len() + (n - 1)
            &&& (forall |m: int| st.bar.len() <= m < nb.len() ==> #[trigger] nb[m] == weak_of(
                st.bar.last(),
            ))
            &&& (forall |m: int| 0 <= m < st.bar.len() ==> #[trigger] nb[m] == st.bar[m])
        },
        st.bar.len() == 0 ==> build_from(toks, i, st) == Some(
            Err::<Seq<Seq<DurModel>>, MetrumError>(
                MetrumError::ParseError(ParseError::NothingToRepeat),
            ),
        ),
{
}

/// A `BarRepeat(n)` step directly after a barline, with at least one bar
/// completed, appends `n - 1` copies of the most recently completed bar.
/// Anywhere else it fails with `BarRepeat`; with no prior token or no
/// completed bar it fails with `NothingToRepeat`.
pub proof fn lemma_bar_repeat_step(toks: Seq<Token>, i: int, st: BuildState, n: u16)
    requires
        0 <= i < toks.len(),
        toks[i] == Token::BarRepeat(n),
        n >= 1,
    ensures
        st.last == Some(Token::Barline) && st.bars.len() >= 1 ==> {
            let nbs = st.bars + Seq::new((n - 1) as nat, |m: int| st.bars.last());
            &&& build_from(toks, i, st) == build_from(
                toks,
                i + 1,
                BuildState { bars: nbs, last: Some(toks[i]), ..st },
            )
            &&& nbs.len() == st.bars.len() + (n - 1)
            &&& (forall |m: int| st.bars.len() <= m < nbs.len() ==> #[trigger] nbs[m]
                == st.bars.last())
            &&& (forall |m: int| 0 <= m < st.bars.len() ==> #[trigger] nbs[m] == st.bars[m])
        },
        st.last == Some(Token::Barline) && st.bars.len() == 0 ==> build_from(toks, i, st) == Some(
            Err::<Seq<Seq<DurModel>>, MetrumError>(
                MetrumError::ParseError(ParseError::NothingToRepeat),
            ),
        ),
        st.last is None ==> build_from(toks, i, st) == Some(
            Err::<Seq<Seq<DurModel>>, MetrumError>(
                MetrumError::ParseError(ParseError::NothingToRepeat),
            ),
        ),
        (st.last matches Some(t) && t != Token::Barline) ==> build_from(toks, i, st) == Some(
            Err::<Seq<Seq<DurModel>>, MetrumError>(MetrumError::ParseError(ParseError::BarRepeat)),
        ),
{
}

/// Counts the Barline-delimited segments of the tokens from `i` on that
/// produce at least one beat; `in_seg` says whether the current segment has
/// produced one already.
pub open spec fn seg_count_from(toks: Seq<Token>, i: int, in_seg: bool) -> int
    decreases toks.len() - i,
    via seg_count_from_dec
{
    if i < 0 || i >= toks.len() {
        if in_seg {
            1int
        } else {
            0int
        }
    } else {
        match toks[i] {
            Token::Barline => (
                if in_seg {
                    1int
                } else {
                    0int
                }
            ) + seg_count_from(toks, i + 1, false),
            Token::Ratio(_, _) => {
                let j = dot_run_end(toks, i + 1);
                if j < toks.len() && toks[j] == Token::Equal {
                    if j + 1 < toks.len() {
                        match toks[j + 1] {
                            Token::Number(_) => seg_count_from(toks, j + 2, in_seg),
                            Token::Ratio(_, _) => seg_count_from(
                                toks,
                                dot_run_end(toks, j + 2),
                                in_seg,
                            ),
                            _ => 0,
                        }
                    } else {
                        0
                    }
                } else {
                    seg_count_from(toks, j, true)
                }
            },
            Token::NoteRepeat(_) => seg_count_from(toks, i + 1, in_seg),
            _ => 0,
        }
    }
}

#[via_fn]
proof fn seg_count_from_dec(toks: Seq<Token>, i: int, in_seg: bool) {
    if 0 <= i < toks.len() {
        lemma_dot_run_end(toks, i + 1);
        let j = dot_run_end(toks, i + 1);
        if j + 1 < toks.len() {
            lemma_dot_run_end(toks, j + 2);
        }
    }
}

proof fn lemma_build_seg_count(toks: Seq<Token>, i: int, st: BuildState, bars: Seq<Seq<DurModel>>)
    requires
        build_from(toks, i, st) == Some(Ok::<Seq<Seq<DurModel>>, MetrumError>(bars)),
        forall |m: int| i <= m < toks.len() ==> !(#[trigger] toks[m] matches Token::BarRepeat(_)),
    ensures
        bars.len() == st.bars.len() + seg_count_from(toks, i, st.bar.len() > 0),
    decreases toks.len() - i,
{
    if i < 0 || i >= toks.len() {
    } else {
        let cur = toks[i];
        match cur {
            Token::Barline => {
                let st1 = BuildState {
                    bars: if st.bar.len() > 0 {
                        st.bars.push(st.bar)
                    } else {
                        st.bars
                    },
                    bar: Seq::empty(),
                    tempo: st.tempo,
                    last: Some(cur),
                };
                lemma_build_seg_count(toks, i + 1, st1, bars);
            },
            Token::Ratio(top, bottom) => {
                lemma_dot_run_end(toks, i + 1);
                let j = dot_run_end(toks, i + 1);
                if j < toks.len() && toks[j] == Token::Equal {
                    if j + 1 < toks.len() {
                        match toks[j + 1] {
                            Token::Number(n) => {
                                lemma_build_seg_count(
                                    toks,
                                    j + 2,
                                    BuildState {
                                        tempo: Tempo { beat: (top, bottom), num_beats: n },
                                        last: Some(cur),
                                        ..st
                                    },
                                    bars,
                                );
                            },
                            Token::Ratio(top2, bottom2) => {
                                lemma_dot_run_end(toks, j + 2);
                                let k = dot_run_end(toks, j + 2);
                                let nd = (j - (i + 1)) as nat;
                                let nd2 = (k - (j + 2)) as nat;
                                if nd <= 14 && nd2 <= 14 && dots_in_range(
                                    top as int,
                                    bottom as int,
                                    nd,
                                ) && dots_in_range(top2 as int, bottom2 as int, nd2)
                                    && st.tempo.beat.1 >= 1 && dots_iter(
                                    top as int,
                                    bottom as int,
                                    nd,
                                ).0 >= 1 {
                                    let a1 = dots_iter(top as int, bottom as int, nd);
                                    let a2 = dots_iter(top2 as int, bottom2 as int, nd2);
                                    lemma_build_seg_count(
                                        toks,
                                        k,
                                        BuildState {
                                            tempo: Tempo {
                                                beat: (a2.0 as u16, a2.2 as u16),
                                                num_beats: relative_beats(
                                                    st.tempo,
                                                    a1.0,
                                                    a1.2,
                                                ) as u16,
                                            },
                                            last: Some(cur),
                                            ..st
                                        },
                                        bars,
                                    );
                                }
                            },
                            _ => {},
                        }
                    }
                } else {
                    let d = DurModel {
                        num: dur_num(top, st.tempo, (j - (i + 1)) as nat),
                        den: dur_den(bottom, st.tempo, (j - (i + 1)) as nat),
                        strong: st.bar.len() == 0,
                    };
                    if j - (i + 1) <= 14 {
                        lemma_build_seg_count(
                            toks,
                            j,
                            BuildState { bar: st.bar.push(d), last: Some(cur), ..st },
                            bars,
                        );
                    }
                }
            },
            Token::NoteRepeat(n) => {
                if st.bar.len() >= 1 && n >= 1 {
                    lemma_build_seg_count(
                        toks,
                        i + 1,
                        BuildState {
                            bar: st.bar + Seq::new((n - 1) as nat, |m: int| weak_of(st.bar.last())),
                            last: Some(cur),
                            ..st
                        },
                        bars,
                    );
                }
            },
            _ => {},
        }
    }
}

/// For scores free of bar repeats, the number of bars the builder returns
/// equals the number of Barline-delimited input segments that produce at
/// least one beat; a trailing unterminated segment still forms a final bar.
pub proof fn lemma_bar_count(toks: Seq<Token>, bars: Seq<Seq<DurModel>>)
    requires
        build(toks) == Some(Ok::<Seq<Seq<DurModel>>, MetrumError>(bars)),
        forall |m: int| 0 <= m < toks.len() ==> !(#[trigger] toks[m] matches Token::BarRepeat(_)),
    ensures
        bars.len() == seg_count_from(toks, 0, false),
{
    lemma_build_seg_count(toks, 0, init_state(), bars);
}

} // verus!
