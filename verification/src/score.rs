//! The score data model: tempos, accented durations, bars and the score
//! itself, together with the builder that folds a token sequence into a score.

use vstd::prelude::*;
use crate::error::{MetrumError, ParseError, ConversionError};
use crate::scanner::Token;
use crate::units::{dur_num, dur_den, dots_iter, dots_in_range, relative_beats,
    lemma_dots_iter_nonneg, dots_check};

verus! {

/// A tempo represents how fast music is going and is often represented in
/// terms of *how many of this kind of beat per minute*. For example 140
/// quarter notes per minute.
#[derive(Debug, PartialEq, Clone, Copy)]
pub struct Tempo {
    /// A tuple representing the kind of beat as a ratio. For example, the
    /// tuple `(1, 4)` would represent a quarter (1/4) note.
    pub beat: (u16, u16),
    /// The number of [`Tempo::beat`] per minute.
    pub num_beats: u16,
}

impl Tempo {
    pub fn new(beat: (u16, u16), num_beats: u16) -> (t: Self)
        ensures
            t == (Tempo { beat, num_beats }),
    {
        Tempo { beat, num_beats }
    }
}

/// The length of one beat in milliseconds, held as an exact fraction
/// `ms.0 / ms.1`, and whether the beat is strong or weak.
#[derive(Debug, Clone, Copy)]
pub struct Duration {
    /// Milliseconds as an exact fraction: numerator, then denominator.
    pub ms: (u128, u128),
    pub strong: bool,
}

/// The mathematical value of a [`Duration`]: an unbounded fraction of
/// milliseconds plus the accent flag.
pub ghost struct DurModel {
    pub num: int,
    pub den: int,
    pub strong: bool,
}

impl View for Duration {
    type V = DurModel;

    open spec fn view(&self) -> DurModel {
        DurModel { num: self.ms.0 as int, den: self.ms.1 as int, strong: self.strong }
    }
}

impl Duration {
    /// Creates a weak [`Duration`] from any duration.
    pub fn to_weak(&self) -> (d: Self)
        ensures
            d@ == (DurModel { strong: false, ..self@ }),
    {
        Duration { ms: self.ms, strong: false }
    }
}

/// One measure: an ordered list of durations, insertion order = play order.
#[derive(Debug)]
pub struct Bar {
    pub durations: Vec<Duration>,
}

/// The durations of a bar as their mathematical values.
pub open spec fn durs_view(ds: Seq<Duration>) -> Seq<DurModel> {
    ds.map(|i: int, d: Duration| d@)
}

impl View for Bar {
    type V = Seq<DurModel>;

    open spec fn view(&self) -> Seq<DurModel> {
        durs_view(self.durations@)
    }
}

impl Bar {
    pub fn new() -> (b: Self)
        ensures
            b@ == Seq::<DurModel>::empty(),
    {
        Bar { durations: Vec::new() }
    }
}

/// A score contains a vector of bars, which in turn contain durations. A
/// score represents rhythm as a collection of accented durations, which are
/// later rendered into a click track.
#[derive(Debug)]
pub struct Score {
    pub bars: Vec<Bar>,
}

/// The bars of a score as sequences of duration values.
pub open spec fn bars_view(bs: Seq<Bar>) -> Seq<Seq<DurModel>> {
    bs.map(|i: int, b: Bar| b@)
}

impl View for Score {
    type V = Seq<Seq<DurModel>>;

    open spec fn view(&self) -> Seq<Seq<DurModel>> {
        bars_view(self.bars@)
    }
}

/// `d` with its accent turned weak.
pub open spec fn weak_of(d: DurModel) -> DurModel {
    DurModel { strong: false, ..d }
}

/// The builder's state between tokens: the completed bars, the bar in
/// progress, the active tempo and the most recently consumed top-level token
/// (the one a bar repeat must find to be a barline).
pub ghost struct BuildState {
    pub bars: Seq<Seq<DurModel>>,
    pub bar: Seq<DurModel>,
    pub tempo: Tempo,
    pub last: Option<Token>,
}

/// The state a build starts from: nothing built, the default tempo of 120
/// quarter notes per minute, no token seen.
pub open spec fn init_state() -> BuildState {
    BuildState {
        bars: Seq::empty(),
        bar: Seq::empty(),
        tempo: Tempo { beat: (1, 4), num_beats: 120 },
        last: None,
    }
}

/// The first position at or after `i` that does not hold a `Dot` token.
pub open spec fn dot_run_end(toks: Seq<Token>, i: int) -> int
    decreases toks.len() - i,
{
    if 0 <= i < toks.len() && toks[i] == Token::Dot {
        dot_run_end(toks, i + 1)
    } else {
        i
    }
}

pub proof fn lemma_dot_run_end(toks: Seq<Token>, i: int)
    requires
        0 <= i <= toks.len(),
    ensures
        i <= dot_run_end(toks, i) <= toks.len(),
        forall |k: int| i <= k < dot_run_end(toks, i) ==> #[trigger] toks[k] == Token::Dot,
        dot_run_end(toks, i) == toks.len() || toks[dot_run_end(toks, i)] != Token::Dot,
    decreases toks.len() - i,
{
    if i < toks.len() && toks[i] == Token::Dot {
        lemma_dot_run_end(toks, i + 1);
    }
}

/// What the builder makes of the tokens from position `i` on, started in
/// state `st`: the bars of the finished score, or the first error. `None`
/// stands for the inputs on which the exact `u16`/`u128` arithmetic cannot
/// represent the result: more than 14 dots on one note, a dotted tempo ratio
/// growing past `u16`, a relative tempo change under a tempo or ratio with a
/// zero where the rate divides by it, or a repeat count of zero. Tokens the
/// lexer emits avoid the zeros by construction; [`Score::new`] asks its
/// callers to stay away from all of these, and [`tokens_supported`] decides
/// them.
pub open spec fn build_from(toks: Seq<Token>, i: int, st: BuildState) -> Option<
    Result<Seq<Seq<DurModel>>, MetrumError>,
>
    decreases toks.len() - i,
    via build_from_dec
{
    if i < 0 || i >= toks.len() {
        Some(
            Ok(
                if st.bar.len() > 0 {
                    st.bars.push(st.bar)
                } else {
                    st.bars
                },
            ),
        )
    } else {
        let cur = toks[i];
        match cur {
            Token::Barline => build_from(
                toks,
                i + 1,
                BuildState {
                    bars: if st.bar.len() > 0 {
                        st.bars.push(st.bar)
                    } else {
                        st.bars
                    },
                    bar: Seq::empty(),
                    tempo: st.tempo,
                    last: Some(cur),
                },
            ),
            Token::Ratio(top, bottom) => {
                let j = dot_run_end(toks, i + 1);
                let nd = j - (i + 1);
                if j < toks.len() && toks[j] == Token::Equal {
                    if j + 1 < toks.len() {
                        match toks[j + 1] {
                            Token::Number(n) => build_from(
                                toks,
                                j + 2,
                                BuildState {
                                    tempo: Tempo { beat: (top, bottom), num_beats: n },
                                    last: Some(cur),
                                    ..st
                                },
                            ),
                            Token::Ratio(top2, bottom2) => {
                                let k = dot_run_end(toks, j + 2);
                                let nd2 = k - (j + 2);
                                if nd <= 14 && nd2 <= 14 && dots_in_range(
                                    top as int,
                                    bottom as int,
                                    nd as nat,
                                ) && dots_in_range(top2 as int, bottom2 as int, nd2 as nat)
                                    && st.tempo.beat.1 >= 1 && dots_iter(
                                    top as int,
                                    bottom as int,
                                    nd as nat,
                                ).0 >= 1 {
                                    let a1 = dots_iter(top as int, bottom as int, nd as nat);
                                    let a2 = dots_iter(top2 as int, bottom2 as int, nd2 as nat);
                                    build_from(
                                        toks,
                                        k,
                                        BuildState {
                                            tempo: Tempo {
                                                beat: (a2.0 as u16, a2.2 as u16),
                                                num_beats: relative_beats(
                                                    st.tempo,
                                                    a1.0,
                                                    a1.2,
                                                ) as u16,
                                            },
                                            last: Some(cur),
                                            ..st
                                        },
                                    )
                                } else {
                                    None
                                }
                            },
                            _ => Some(
                                Err(MetrumError::ParseError(ParseError::MissingTempoSpecifier)),
                            ),
                        }
                    } else {
                        Some(Err(MetrumError::ParseError(ParseError::MissingTempoSpecifier)))
                    }
                } else {
                    if nd <= 14 {
                        let d = DurModel {
                            num: dur_num(top, st.tempo, nd as nat),
                            den: dur_den(bottom, st.tempo, nd as nat),
                            strong: st.bar.len() == 0,
                        };
                        build_from(
                            toks,
                            j,
                            BuildState { bar: st.bar.push(d), last: Some(cur), ..st },
                        )
                    } else {
                        None
                    }
                }
            },
            Token::NoteRepeat(n) => {
                if st.bar.len() == 0 {
                    Some(Err(MetrumError::ParseError(ParseError::NothingToRepeat)))
                } else if n >= 1 {
                    build_from(
                        toks,
                        i + 1,
                        BuildState {
                            bar: st.bar + Seq::new((n - 1) as nat, |k: int| weak_of(st.bar.last())),
                            last: Some(cur),
                            ..st
                        },
                    )
                } else {
                    None
                }
            },
            Token::BarRepeat(n) => {
                match st.last {
                    Option::None => Some(Err(MetrumError::ParseError(ParseError::NothingToRepeat))),
                    Option::Some(Token::Barline) => {
                        if st.bars.len() == 0 {
                            Some(Err(MetrumError::ParseError(ParseError::NothingToRepeat)))
                        } else if n >= 1 {
                            build_from(
                                toks,
                                i + 1,
                                BuildState {
                                    bars: st.bars + Seq::new(
                                        (n - 1) as nat,
                                        |k: int| st.bars.last(),
                                    ),
                                    last: Some(cur),
                                    ..st
                                },
                            )
                        } else {
                            None
                        }
                    },
                    Option::Some(_) => Some(Err(MetrumError::ParseError(ParseError::BarRepeat))),
                }
            },
            Token::Number(_) => Some(Err(MetrumError::ParseError(ParseError::Number))),
            Token::Equal => Some(Err(MetrumError::ParseError(ParseError::Equal))),
            Token::Dot => Some(Err(MetrumError::ParseError(ParseError::Dot))),
        }
    }
}

#[via_fn]
proof fn build_from_dec(toks: Seq<Token>, i: int, st: BuildState) {
    if 0 <= i < toks.len() {
        lemma_dot_run_end(toks, i + 1);
        let j = dot_run_end(toks, i + 1);
        if j + 1 < toks.len() {
            lemma_dot_run_end(toks, j + 2);
        }
    }
}

/// What the builder makes of a whole token sequence.
pub open spec fn build(toks: Seq<Token>) -> Option<Result<Seq<Seq<DurModel>>, MetrumError>> {
    build_from(toks, 0, init_state())
}

/// The builder state the executable values stand for.
spec fn st_of(bars: Seq<Bar>, bar: Bar, tempo: Tempo, last: Option<Token>) -> BuildState {
    BuildState { bars: bars_view(bars), bar: bar@, tempo, last }
}

proof fn lemma_bars_view_push(bs: Seq<Bar>, b: Bar)
    ensures
        bars_view(bs.push(b)) == bars_view(bs).push(b@),
{
    assert(bars_view(bs.push(b)) =~= bars_view(bs).push(b@));
}

proof fn lemma_durs_view_push(ds: Seq<Duration>, d: Duration)
    ensures
        durs_view(ds.push(d)) == durs_view(ds).push(d@),
{
    assert(durs_view(ds.push(d)) =~= durs_view(ds).push(d@));
}

fn token_is_dot(t: &Token) -> (b: bool)
    ensures
        b == (*t == Token::Dot),
{
    match t {
        Token::Dot => true,
        _ => false,
    }
}

fn token_is_equal(t: &Token) -> (b: bool)
    ensures
        b == (*t == Token::Equal),
{
    match t {
        Token::Equal => true,
        _ => false,
    }
}

/// A value-equal copy of a bar.
fn bar_clone(b: &Bar) -> (r: Bar)
    ensures
        r@ == b@,
{
    let mut ds: Vec<Duration> = Vec::new();
    let mut k: usize = 0;
    while k < b.durations.len()
        invariant
            k <= b.durations.len(),
            ds@ == b.durations@.subrange(0, k as int),
        decreases b.durations.len() - k,
    {
        let d = b.durations[k];
        ds.push(d);
        k = k + 1;
        proof {
            assert(ds@ =~= b.durations@.subrange(0, k as int));
        }
    }
    proof {
        assert(b.durations@.subrange(0, b.durations@.len() as int) =~= b.durations@);
    }
    Bar { durations: ds }
}

impl Score {
    /// Takes in a list of [tokens][crate::scanner::Token] produced by the
    /// [scanner][crate::scanner] and folds it into a [`Score`]: bars of
    /// accented durations, or the first parse error. Returns exactly what
    /// [`build`] says of the token sequence.
    #[verifier::rlimit(100)]
    pub fn new(tokens: Vec<Token>) -> (r: Result<Self, MetrumError>)
        requires
            build(tokens@) is Some,
        ensures
            match r {
                Ok(score) => build(tokens@) == Some(
                    Ok::<Seq<Seq<DurModel>>, MetrumError>(score@),
                ),
                Err(e) => build(tokens@) == Some(Err::<Seq<Seq<DurModel>>, MetrumError>(e)),
            },
    {
        let n = tokens.len();
        let mut bars: Vec<Bar> = Vec::new();
        let mut bar: Bar = Bar::new();
        let mut tempo: Tempo = Tempo::new((1, 4), 120);
        let mut last: Option<Token> = None;
        let mut i: usize = 0;
        proof {
            assert(bars_view(bars@) =~= Seq::<Seq<DurModel>>::empty());
            assert(st_of(bars@, bar, tempo, last) == init_state());
        }
        while i < n
            invariant
                n == tokens@.len(),
                i <= n,
                build(tokens@) is Some,
                build(tokens@) == build_from(tokens@, i as int, st_of(bars@, bar, tempo, last)),
            decreases n - i,
        {
            let ghost st = st_of(bars@, bar, tempo, last);
            let cur = tokens[i];
            match cur {
                Token::Barline => {
                    let ghost st1 = BuildState {
                        bars: if st.bar.len() > 0 {
                            st.bars.push(st.bar)
                        } else {
                            st.bars
                        },
                        bar: Seq::empty(),
                        tempo: st.tempo,
                        last: Some(cur),
                    };
                    proof {
                        assert(build_from(tokens@, i as int, st) == build_from(
                            tokens@,
                            i as int + 1,
                            st1,
                        ));
                    }
                    if bar.durations.len() > 0 {
                        proof {
                            lemma_bars_view_push(bars@, bar);
                        }
                        bars.push(bar);
                        bar = Bar::new();
                    } else {
                        proof {
                            assert(bar@ =~= Seq::<DurModel>::empty());
                        }
                    }
                    last = Some(cur);
                    i = i + 1;
                    proof {
                        assert(st_of(bars@, bar, tempo, last) == st1);
                    }
                },
                Token::Ratio(top, bottom) => {
                    let mut j = i + 1;
                    while j < n && token_is_dot(&tokens[j])
                        invariant
                            n == tokens@.len(),
                            i + 1 <= j <= n,
                            forall |m: int| i + 1 <= m < j ==> #[trigger] tokens@[m]
                                == Token::Dot,
                        decreases n - j,
                    {
                        j = j + 1;
                    }
                    proof {
                        lemma_dot_run_end(tokens@, i as int + 1);
                        assert(j as int == dot_run_end(tokens@, i as int + 1));
                    }
                    let nd_us = j - (i + 1);
                    let is_eq = j < n && token_is_equal(&tokens[j]);
                    if is_eq {
                        if j + 1 < n {
                            let spec_tok = tokens[j + 1];
                            match spec_tok {
                                Token::Number(nb) => {
                                    let ghost st1 = BuildState {
                                        tempo: Tempo { beat: (top, bottom), num_beats: nb },
                                        last: Some(cur),
                                        ..st
                                    };
                                    proof {
                                        assert(build_from(tokens@, i as int, st) == build_from(
                                            tokens@,
                                            j as int + 2,
                                            st1,
                                        ));
                                    }
                                    tempo = Tempo::new((top, bottom), nb);
                                    last = Some(cur);
                                    i = j + 2;
                                    proof {
                                        assert(st_of(bars@, bar, tempo, last) == st1);
                                    }
                                },
                                Token::Ratio(top2, bottom2) => {
                                    let mut k = j + 2;
                                    while k < n && token_is_dot(&tokens[k])
                                        invariant
                                            n == tokens@.len(),
                                            j + 2 <= k <= n,
                                            forall |m: int| j + 2 <= m < k ==> #[trigger] tokens@[m]
                                                == Token::Dot,
                                        decreases n - k,
                                    {
                                        k = k + 1;
                                    }
                                    proof {
                                        lemma_dot_run_end(tokens@, j as int + 2);
                                        assert(k as int == dot_run_end(tokens@, j as int + 2));
                                        assert(nd_us <= 14 && (k - (j + 2)) <= 14 && dots_in_range(
                                            top as int,
                                            bottom as int,
                                            nd_us as nat,
                                        ) && dots_in_range(
                                            top2 as int,
                                            bottom2 as int,
                                            (k - (j + 2)) as nat,
                                        ) && tempo.beat.1 >= 1 && dots_iter(
                                            top as int,
                                            bottom as int,
                                            nd_us as nat,
                                        ).0 >= 1);
                                        assert(dots_iter(
                                            top as int,
                                            bottom as int,
                                            nd_us as nat,
                                        ).0 <= 65535 && dots_iter(
                                            top as int,
                                            bottom as int,
                                            nd_us as nat,
                                        ).2 <= 65535);
                                    }
                                    let nd: u16 = nd_us as u16;
                                    let nd2: u16 = (k - (j + 2)) as u16;
                                    let ghost a1 = dots_iter(top as int, bottom as int, nd as nat);
                                    let ghost a2 = dots_iter(
                                        top2 as int,
                                        bottom2 as int,
                                        nd2 as nat,
                                    );
                                    let ghost st1 = BuildState {
                                        tempo: Tempo {
                                            beat: (a2.0 as u16, a2.2 as u16),
                                            num_beats: relative_beats(st.tempo, a1.0, a1.2) as u16,
                                        },
                                        last: Some(cur),
                                        ..st
                                    };
                                    proof {
                                        lemma_dots_iter_nonneg(top as int, bottom as int, nd as nat);
                                        lemma_dots_iter_nonneg(
                                            top2 as int,
                                            bottom2 as int,
                                            nd2 as nat,
                                        );
                                        assert(build_from(tokens@, i as int, st) == build_from(
                                            tokens@,
                                            k as int,
                                            st1,
                                        ));
                                    }
                                    let tok1 = match cur.apply_dots(nd) {
                                        Ok(t) => t,
                                        Err(e) => {
                                            proof {
                                                assert(false);
                                            }
                                            return Err(e);
                                        },
                                    };
                                    let tok2 = match Token::Ratio(top2, bottom2).apply_dots(nd2) {
                                        Ok(t) => t,
                                        Err(e) => {
                                            proof {
                                                assert(false);
                                            }
                                            return Err(e);
                                        },
                                    };
                                    tempo = match tempo.relative_to(&tok1, &tok2) {
                                        Ok(t) => t,
                                        Err(e) => {
                                            proof {
                                                assert(false);
                                            }
                                            return Err(e);
                                        },
                                    };
                                    last = Some(cur);
                                    i = k;
                                    proof {
                                        assert(st_of(bars@, bar, tempo, last) == st1);
                                    }
                                },
                                _ => {
                                    return Err(
                                        MetrumError::ParseError(ParseError::MissingTempoSpecifier),
                                    );
                                },
                            }
                        } else {
                            return Err(
                                MetrumError::ParseError(ParseError::MissingTempoSpecifier),
                            );
                        }
                    } else {
                        proof {
                            assert(nd_us <= 14);
                        }
                        let nd: u16 = nd_us as u16;
                        let ghost dm = DurModel {
                            num: dur_num(top, st.tempo, nd as nat),
                            den: dur_den(bottom, st.tempo, nd as nat),
                            strong: st.bar.len() == 0,
                        };
                        let ghost st1 = BuildState {
                            bar: st.bar.push(dm),
                            last: Some(cur),
                            ..st
                        };
                        proof {
                            assert(build_from(tokens@, i as int, st) == build_from(
                                tokens@,
                                j as int,
                                st1,
                            ));
                        }
                        match cur.as_duration_ms(&tempo, nd) {
                            Ok(p) => {
                                let strong = bar.durations.len() == 0;
                                proof {
                                    lemma_durs_view_push(
                                        bar.durations@,
                                        Duration { ms: p, strong },
                                    );
                                }
                                bar.durations.push(Duration { ms: p, strong });
                            },
                            Err(e) => {
                                proof {
                                    assert(false);
                                }
                                return Err(MetrumError::ConversionError(e));
                            },
                        }
                        last = Some(cur);
                        i = j;
                        proof {
                            assert(st_of(bars@, bar, tempo, last) == st1);
                        }
                    }
                },
                Token::NoteRepeat(nr) => {
                    if bar.durations.len() == 0 {
                        return Err(MetrumError::ParseError(ParseError::NothingToRepeat));
                    }
                    proof {
                        assert(nr >= 1);
                    }
                    let ghost st1 = BuildState {
                        bar: st.bar + Seq::new((nr - 1) as nat, |m: int| weak_of(st.bar.last())),
                        last: Some(cur),
                        ..st
                    };
                    proof {
                        assert(build_from(tokens@, i as int, st) == build_from(
                            tokens@,
                            i as int + 1,
                            st1,
                        ));
                    }
                    let w = bar.durations[bar.durations.len() - 1].to_weak();
                    let ghost bar0 = bar@;
                    proof {
                        assert(w@ == weak_of(bar0.last()));
                        assert(bar@ =~= bar0 + Seq::new(0nat, |m: int| weak_of(bar0.last())));
                    }
                    let mut c: u16 = 0;
                    while c < nr - 1
                        invariant
                            nr >= 1,
                            c <= nr - 1,
                            w@ == weak_of(bar0.last()),
                            bar@ == bar0 + Seq::new(c as nat, |m: int| weak_of(bar0.last())),
                        decreases nr - 1 - c,
                    {
                        proof {
                            lemma_durs_view_push(bar.durations@, w);
                        }
                        bar.durations.push(w);
                        c = c + 1;
                        proof {
                            assert(bar@ =~= bar0 + Seq::new(c as nat, |m: int| weak_of(bar0.last())));
                        }
                    }
                    last = Some(cur);
                    i = i + 1;
                    proof {
                        assert(st_of(bars@, bar, tempo, last) == st1);
                    }
                },
                Token::BarRepeat(nb) => {
                    match last {
                        Option::None => {
                            return Err(MetrumError::ParseError(ParseError::NothingToRepeat));
                        },
                        Option::Some(Token::Barline) => {
                            if bars.len() == 0 {
                                return Err(MetrumError::ParseError(ParseError::NothingToRepeat));
                            }
                            proof {
                                assert(nb >= 1);
                            }
                            let ghost st1 = BuildState {
                                bars: st.bars + Seq::new((nb - 1) as nat, |m: int| st.bars.last()),
                                last: Some(cur),
                                ..st
                            };
                            proof {
                                assert(build_from(tokens@, i as int, st) == build_from(
                                    tokens@,
                                    i as int + 1,
                                    st1,
                                ));
                            }
                            let ghost bars0 = bars_view(bars@);
                            proof {
                                assert(bars_view(bars@) =~= bars0 + Seq::new(
                                    0nat,
                                    |m: int| bars0.last(),
                                ));
                            }
                            let mut c: u16 = 0;
                            while c < nb - 1
                                invariant
                                    nb >= 1,
                                    c <= nb - 1,
                                    bars.len() >= 1,
                                    bars0.len() >= 1,
                                    bars_view(bars@) == bars0 + Seq::new(
                                        c as nat,
                                        |m: int| bars0.last(),
                                    ),
                                decreases nb - 1 - c,
                            {
                                let bc = bar_clone(&bars[bars.len() - 1]);
                                proof {
                                    assert(bc@ == bars_view(bars@).last());
                                    assert(bc@ == bars0.last());
                                    lemma_bars_view_push(bars@, bc);
                                }
                                bars.push(bc);
                                c = c + 1;
                                proof {
                                    assert(bars_view(bars@) =~= bars0 + Seq::new(
                                        c as nat,
                                        |m: int| bars0.last(),
                                    ));
                                }
                            }
                            last = Some(cur);
                            i = i + 1;
                            proof {
                                assert(st_of(bars@, bar, tempo, last) == st1);
                            }
                        },
                        Option::Some(_) => {
                            return Err(MetrumError::ParseError(ParseError::BarRepeat));
                        },
                    }
                },
                Token::Number(_) => {
                    return Err(MetrumError::ParseError(ParseError::Number));
                },
                Token::Equal => {
                    return Err(MetrumError::ParseError(ParseError::Equal));
                },
                Token::Dot => {
                    return Err(MetrumError::ParseError(ParseError::Dot));
                },
            }
        }
        if bar.durations.len() > 0 {
            proof {
                lemma_bars_view_push(bars@, bar);
            }
            bars.push(bar);
        }
        Ok(Score { bars })
    }
}

/// Decides whether [`build`] is defined for this token sequence: whether the
/// builder's exact arithmetic stays within its integer ranges throughout.
/// [`Score::new`] requires this of its input; token sequences that [`scan`]
/// emits fail it only through extreme dot or repeat constructs.
#[verifier::rlimit(100)]
pub fn tokens_supported(tokens: &Vec<Token>) -> (ok: bool)
    ensures
        ok == (build(tokens@) is Some),
{
    let n = tokens.len();
    let mut bars: Vec<Bar> = Vec::new();
    let mut bar: Bar = Bar::new();
    let mut tempo: Tempo = Tempo::new((1, 4), 120);
    let mut last: Option<Token> = None;
    let mut i: usize = 0;
    proof {
        assert(bars_view(bars@) =~= Seq::<Seq<DurModel>>::empty());
        assert(st_of(bars@, bar, tempo, last) == init_state());
    }
    while i < n
        invariant
            n == tokens@.len(),
            i <= n,
            build(tokens@) == build_from(tokens@, i as int, st_of(bars@, bar, tempo, last)),
        decreases n - i,
    {
        let ghost st = st_of(bars@, bar, tempo, last);
        let cur = tokens[i];
        match cur {
            Token::Barline => {
                let ghost st1 = BuildState {
                    bars: if st.bar.len() > 0 {
                        st.bars.push(st.bar)
                    } else {
                        st.bars
                    },
                    bar: Seq::empty(),
                    tempo: st.tempo,
                    last: Some(cur),
                };
                proof {
                    assert(build_from(tokens@, i as int, st) == build_from(
                        tokens@,
                        i as int + 1,
                        st1,
                    ));
                }
                if bar.durations.len() > 0 {
                    proof {
                        lemma_bars_view_push(bars@, bar);
                    }
                    bars.push(bar);
                    bar = Bar::new();
                } else {
                    proof {
                        assert(bar@ =~= Seq::<DurModel>::empty());
                    }
                }
                last = Some(cur);
                i = i + 1;
                proof {
                    assert(st_of(bars@, bar, tempo, last) == st1);
                }
            },
            Token::Ratio(top, bottom) => {
                let mut j = i + 1;
                while j < n && token_is_dot(&tokens[j])
                    invariant
                        n == tokens@.len(),
                        i + 1 <= j <= n,
                        forall |m: int| i + 1 <= m < j ==> #[trigger] tokens@[m] == Token::Dot,
                    decreases n - j,
                {
                    j = j + 1;
                }
                proof {
                    lemma_dot_run_end(tokens@, i as int + 1);
                    assert(j as int == dot_run_end(tokens@, i as int + 1));
                }
                let nd_us = j - (i + 1);
                let is_eq = j < n && token_is_equal(&tokens[j]);
                if is_eq {
                    if j + 1 < n {
                        let spec_tok = tokens[j + 1];
                        match spec_tok {
                            Token::Number(nb) => {
                                let ghost st1 = BuildState {
                                    tempo: Tempo { beat: (top, bottom), num_beats: nb },
                                    last: Some(cur),
                                    ..st
                                };
                                proof {
                                    assert(build_from(tokens@, i as int, st) == build_from(
                                        tokens@,
                                        j as int + 2,
                                        st1,
                                    ));
                                }
                                tempo = Tempo::new((top, bottom), nb);
                                last = Some(cur);
                                i = j + 2;
                                proof {
                                    assert(st_of(bars@, bar, tempo, last) == st1);
                                }
                            },
                            Token::Ratio(top2, bottom2) => {
                                let mut k = j + 2;
                                while k < n && token_is_dot(&tokens[k])
                                    invariant
                                        n == tokens@.len(),
                                        j + 2 <= k <= n,
                                        forall |m: int| j + 2 <= m < k ==> #[trigger] tokens@[m]
                                            == Token::Dot,
                                    decreases n - k,
                                {
                                    k = k + 1;
                                }
                                proof {
                                    lemma_dot_run_end(tokens@, j as int + 2);
                                    assert(k as int == dot_run_end(tokens@, j as int + 2));
                                }
                                if nd_us > 14 || k - (j + 2) > 14 {
                                    return false;
                                }
                                let nd: u16 = nd_us as u16;
                                let nd2: u16 = (k - (j + 2)) as u16;
                                let tr1 = match dots_check(top, bottom, nd) {
                                    Some(t) => t,
                                    None => {
                                        return false;
                                    },
                                };
                                let tr2 = match dots_check(top2, bottom2, nd2) {
                                    Some(t) => t,
                                    None => {
                                        return false;
                                    },
                                };
                                if tempo.beat.1 < 1 {
                                    return false;
                                }
                                if tr1.0 < 1 {
                                    return false;
                                }
                                let ghost a1 = dots_iter(top as int, bottom as int, nd as nat);
                                let ghost a2 = dots_iter(top2 as int, bottom2 as int, nd2 as nat);
                                let ghost st1 = BuildState {
                                    tempo: Tempo {
                                        beat: (a2.0 as u16, a2.2 as u16),
                                        num_beats: relative_beats(st.tempo, a1.0, a1.2) as u16,
                                    },
                                    last: Some(cur),
                                    ..st
                                };
                                proof {
                                    lemma_dots_iter_nonneg(top as int, bottom as int, nd as nat);
                                    lemma_dots_iter_nonneg(top2 as int, bottom2 as int, nd2 as nat);
                                    assert(build_from(tokens@, i as int, st) == build_from(
                                        tokens@,
                                        k as int,
                                        st1,
                                    ));
                                }
                                tempo = match tempo.relative_to(
                                    &Token::Ratio(tr1.0, tr1.2),
                                    &Token::Ratio(tr2.0, tr2.2),
                                ) {
                                    Ok(t) => t,
                                    Err(e) => {
                                        proof {
                                            assert(false);
                                        }
                                        return false;
                                    },
                                };
                                last = Some(cur);
                                i = k;
                                proof {
                                    assert(st_of(bars@, bar, tempo, last) == st1);
                                }
                            },
                            _ => {
                                return true;
                            },
                        }
                    } else {
                        return true;
                    }
                } else {
                    if nd_us > 14 {
                        return false;
                    }
                    let nd: u16 = nd_us as u16;
                    let ghost dm = DurModel {
                        num: dur_num(top, st.tempo, nd as nat),
                        den: dur_den(bottom, st.tempo, nd as nat),
                        strong: st.bar.len() == 0,
                    };
                    let ghost st1 = BuildState { bar: st.bar.push(dm), last: Some(cur), ..st };
                    proof {
                        assert(build_from(tokens@, i as int, st) == build_from(
                            tokens@,
                            j as int,
                            st1,
                        ));
                    }
                    match cur.as_duration_ms(&tempo, nd) {
                        Ok(p) => {
                            let strong = bar.durations.len() == 0;
                            proof {
                                lemma_durs_view_push(bar.durations@, Duration { ms: p, strong });
                            }
                            bar.durations.push(Duration { ms: p, strong });
                        },
                        Err(e) => {
                            proof {
                                assert(false);
                            }
                            return false;
                        },
                    }
                    last = Some(cur);
                    i = j;
                    proof {
                        assert(st_of(bars@, bar, tempo, last) == st1);
                    }
                }
            },
            Token::NoteRepeat(nr) => {
                if bar.durations.len() == 0 {
                    return true;
                }
                if nr < 1 {
                    return false;
                }
                let ghost st1 = BuildState {
                    bar: st.bar + Seq::new((nr - 1) as nat, |m: int| weak_of(st.bar.last())),
                    last: Some(cur),
                    ..st
                };
                proof {
                    assert(build_from(tokens@, i as int, st) == build_from(
                        tokens@,
                        i as int + 1,
                        st1,
                    ));
                }
                let w = bar.durations[bar.durations.len() - 1].to_weak();
                let ghost bar0 = bar@;
                proof {
                    assert(w@ == weak_of(bar0.last()));
                    assert(bar@ =~= bar0 + Seq::new(0nat, |m: int| weak_of(bar0.last())));
                }
                let mut c: u16 = 0;
                while c < nr - 1
                    invariant
                        nr >= 1,
                        c <= nr - 1,
                        w@ == weak_of(bar0.last()),
                        bar@ == bar0 + Seq::new(c as nat, |m: int| weak_of(bar0.last())),
                    decreases nr - 1 - c,
                {
                    proof {
                        lemma_durs_view_push(bar.durations@, w);
                    }
                    bar.durations.push(w);
                    c = c + 1;
                    proof {
                        assert(bar@ =~= bar0 + Seq::new(c as nat, |m: int| weak_of(bar0.last())));
                    }
                }
                last = Some(cur);
                i = i + 1;
                proof {
                    assert(st_of(bars@, bar, tempo, last) == st1);
                }
            },
            Token::BarRepeat(nb) => {
                match last {
                    Option::None => {
                        return true;
                    },
                    Option::Some(Token::Barline) => {
                        if bars.len() == 0 {
                            return true;
                        }
                        if nb < 1 {
                            return false;
                        }
                        let ghost st1 = BuildState {
                            bars: st.bars + Seq::new((nb - 1) as nat, |m: int| st.bars.last()),
                            last: Some(cur),
                            ..st
                        };
                        proof {
                            assert(build_from(tokens@, i as int, st) == build_from(
                                tokens@,
                                i as int + 1,
                                st1,
                            ));
                        }
                        let ghost bars0 = bars_view(bars@);
                        proof {
                            assert(bars_view(bars@) =~= bars0 + Seq::new(0nat, |m: int| bars0.last()));
                        }
                        let mut c: u16 = 0;
                        while c < nb - 1
                            invariant
                                nb >= 1,
                                c <= nb - 1,
                                bars.len() >= 1,
                                bars0.len() >= 1,
                                bars_view(bars@) == bars0 + Seq::new(c as nat, |m: int| bars0.last()),
                            decreases nb - 1 - c,
                        {
                            let bc = bar_clone(&bars[bars.len() - 1]);
                            proof {
                                assert(bc@ == bars_view(bars@).last());
                                assert(bc@ == bars0.last());
                                lemma_bars_view_push(bars@, bc);
                            }
                            bars.push(bc);
                            c = c + 1;
                            proof {
                                assert(bars_view(bars@) =~= bars0 + Seq::new(
                                    c as nat,
                                    |m: int| bars0.last(),
                                ));
                            }
                        }
                        last = Some(cur);
                        i = i + 1;
                        proof {
                            assert(st_of(bars@, bar, tempo, last) == st1);
                        }
                    },
                    Option::Some(_) => {
                        return true;
                    },
                }
            },
            Token::Number(_) => {
                return true;
            },
            Token::Equal => {
                return true;
            },
            Token::Dot => {
                return true;
            },
        }
    }
    true
}

} // verus!
