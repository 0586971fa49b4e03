//! Tempo and duration arithmetic over exact integer fractions: whole-note
//! rates, dot augmentation and relative tempo changes.

use vstd::prelude::*;
use crate::error::{ConversionError, MetrumError};
use crate::scanner::Token;
use crate::score::Tempo;

verus! {

/// `2^k` over the integers.
pub open spec fn two_pow(k: nat) -> int
    decreases k,
{
    if k == 0 {
        1
    } else {
        2 * two_pow((k - 1) as nat)
    }
}

pub proof fn lemma_two_pow_pos(k: nat)
    ensures
        1 <= two_pow(k),
    decreases k,
{
    if k > 0 {
        lemma_two_pow_pos((k - 1) as nat);
    }
}

pub proof fn lemma_two_pow_mono(k: nat, m: nat)
    requires
        k <= m,
    ensures
        two_pow(k) <= two_pow(m),
    decreases m,
{
    if k < m {
        lemma_two_pow_mono(k, (m - 1) as nat);
        lemma_two_pow_pos((m - 1) as nat);
    }
}

pub proof fn lemma_two_pow_15()
    ensures
        two_pow(15) == 32768,
{
    assert(two_pow(0) == 1);
    assert(two_pow(1) == 2);
    assert(two_pow(2) == 4);
    assert(two_pow(3) == 8);
    assert(two_pow(4) == 16);
    assert(two_pow(5) == 32);
    assert(two_pow(6) == 64);
    assert(two_pow(7) == 128);
    assert(two_pow(8) == 256);
    assert(two_pow(9) == 512);
    assert(two_pow(10) == 1024);
    assert(two_pow(11) == 2048);
    assert(two_pow(12) == 4096);
    assert(two_pow(13) == 8192);
    assert(two_pow(14) == 16384);
    assert(two_pow(15) == 32768);
}

/// Numerator of the dot multiplier `1 + sum_{i=0}^{d-1} 0.5/(i+1)` held as an
/// exact fraction over [`dot_mult_den`]; each dot extends a note by half of
/// the previous increment's value under this multiplier.
pub open spec fn dot_mult_num(d: nat) -> int
    decreases d,
{
    if d == 0 {
        1
    } else {
        dot_mult_num((d - 1) as nat) * (2 * d as int) + dot_mult_den((d - 1) as nat)
    }
}

/// Denominator of the dot multiplier.
pub open spec fn dot_mult_den(d: nat) -> int
    decreases d,
{
    if d == 0 {
        1
    } else {
        dot_mult_den((d - 1) as nat) * (2 * d as int)
    }
}

pub proof fn lemma_dot_mult_pos(d: nat)
    ensures
        1 <= dot_mult_den(d),
        dot_mult_den(d) <= dot_mult_num(d),
    decreases d,
{
    if d > 0 {
        lemma_dot_mult_pos((d - 1) as nat);
        let pn = dot_mult_num((d - 1) as nat);
        let pd = dot_mult_den((d - 1) as nat);
        assert(1 * 1 <= pd * (2 * d as int) && pd * (2 * d as int) <= pn * (2 * d as int))
            by (nonlinear_arith)
            requires 1 <= pd, pd <= pn, 1 <= d;
    }
}

/// Both components of the dot multiplier grow with the dot count, and at 14
/// dots they are still below `2^52`.
pub proof fn lemma_dot_mult_bounds(d: nat)
    requires
        d <= 14,
    ensures
        dot_mult_num(d) <= dot_mult_num(14),
        dot_mult_den(d) <= dot_mult_den(14),
        dot_mult_num(14) == 3750479706193920,
        dot_mult_den(14) == 1428329123020800,
    decreases 14 - d,
{
    assert(dot_mult_num(0) == 1 && dot_mult_den(0) == 1);
    assert(dot_mult_num(1) == 3 && dot_mult_den(1) == 2);
    assert(dot_mult_num(2) == 14 && dot_mult_den(2) == 8);
    assert(dot_mult_num(3) == 92 && dot_mult_den(3) == 48);
    assert(dot_mult_num(4) == 784 && dot_mult_den(4) == 384);
    assert(dot_mult_num(5) == 8224 && dot_mult_den(5) == 3840);
    assert(dot_mult_num(6) == 102528 && dot_mult_den(6) == 46080);
    assert(dot_mult_num(7) == 1481472 && dot_mult_den(7) == 645120);
    assert(dot_mult_num(8) == 24348672 && dot_mult_den(8) == 10321920);
    assert(dot_mult_num(9) == 448598016 && dot_mult_den(9) == 185794560);
    assert(dot_mult_num(10) == 9157754880 && dot_mult_den(10) == 3715891200);
    assert(dot_mult_num(11) == 205186498560 && dot_mult_den(11) == 81749606400);
    assert(dot_mult_num(12) == 5006225571840 && dot_mult_den(12) == 1961990553600);
    assert(dot_mult_num(13) == 132123855421440 && dot_mult_den(13) == 51011754393600);
    assert(dot_mult_num(14) == 3750479706193920 && dot_mult_den(14) == 1428329123020800);
    if d < 14 {
        lemma_dot_mult_pos(d);
        let n = dot_mult_num(d);
        let dn = dot_mult_den(d);
        assert(n <= n * (2 * (d + 1) as int) && dn <= dn * (2 * (d + 1) as int))
            by (nonlinear_arith)
            requires 1 <= dn, dn <= n, 0 <= d;
        lemma_dot_mult_bounds((d + 1) as nat);
    }
}

/// Numerator of the exact length in milliseconds of a whole note under `t`.
pub open spec fn whole_ms_num(t: Tempo) -> int {
    60000 * t.beat.1 as int
}

/// Denominator of the exact length in milliseconds of a whole note under `t`.
pub open spec fn whole_ms_den(t: Tempo) -> int {
    t.beat.0 as int * t.num_beats as int
}

/// Numerator of the exact length in milliseconds of a `top/bottom` note with
/// `d` dots under `tempo`.
pub open spec fn dur_num(top: u16, tempo: Tempo, d: nat) -> int {
    whole_ms_num(tempo) * top as int * dot_mult_num(d)
}

/// Denominator of the exact length in milliseconds of a `top/bottom` note
/// with `d` dots under `tempo`.
pub open spec fn dur_den(bottom: u16, tempo: Tempo, d: nat) -> int {
    whole_ms_den(tempo) * bottom as int * dot_mult_den(d)
}

/// The beats-per-minute value a relative tempo directive derives: the old
/// whole-note rate divided by the note value `top1/bottom1`, rounded down and
/// clamped to `u16`.
pub open spec fn relative_beats(t: Tempo, top1: int, bottom1: int) -> int {
    let q = (t.beat.0 as int * t.num_beats as int * bottom1) / (t.beat.1 as int * top1);
    if q > 65535 {
        65535
    } else {
        q
    }
}

impl Tempo {
    /// How many whole notes per minute under this tempo, as the exact
    /// fraction `r.0 / r.1`.
    pub fn wholes_per_min(&self) -> (r: (u64, u64))
        ensures
            r.0 == self.beat.0 as int * self.num_beats as int,
            r.1 == self.beat.1 as int,
    {
        proof {
            assert(self.beat.0 as int * self.num_beats as int <= 65535 * 65535)
                by (nonlinear_arith)
                requires self.beat.0 <= 65535, self.num_beats <= 65535;
        }
        ((self.beat.0 as u64) * (self.num_beats as u64), self.beat.1 as u64)
    }

    /// The length of a whole note under this tempo in milliseconds, as the
    /// exact fraction `r.0 / r.1`.
    pub fn duration_of_whole(&self) -> (r: (u64, u64))
        ensures
            r.0 == whole_ms_num(*self),
            r.1 == whole_ms_den(*self),
    {
        proof {
            assert(self.beat.0 as int * self.num_beats as int <= 65535 * 65535)
                by (nonlinear_arith)
                requires self.beat.0 <= 65535, self.num_beats <= 65535;
        }
        (60000 * (self.beat.1 as u64), (self.beat.0 as u64) * (self.num_beats as u64))
    }

    /// Derives the tempo in which `ratio1` keeps the real-time rate it has
    /// under `self`, with `ratio2` as the newly named beat unit; the derived
    /// beats-per-minute value is rounded down. Fails with `NonRatio` unless
    /// both arguments are `Ratio` tokens.
    pub fn relative_to(&self, ratio1: &Token, ratio2: &Token) -> (r: Result<Self, MetrumError>)
        requires
            self.beat.1 >= 1,
            ratio1 matches Token::Ratio(t1, _) ==> t1 >= 1,
        ensures
            match (*ratio1, *ratio2) {
                (Token::Ratio(t1, b1), Token::Ratio(t2, b2)) => r matches Ok(t) && t == (Tempo {
                    beat: (t2, b2),
                    num_beats: relative_beats(*self, t1 as int, b1 as int) as u16,
                }),
                _ => r == Err::<Tempo, MetrumError>(
                    MetrumError::ConversionError(ConversionError::NonRatio),
                ),
            },
    {
        match (*ratio1, *ratio2) {
            (Token::Ratio(t1, b1), Token::Ratio(t2, b2)) => {
                proof {
                    assert(self.beat.0 as int * self.num_beats as int <= 65535 * 65535
                        && self.beat.0 as int * self.num_beats as int * b1 as int
                            <= 65535 * 65535 * 65535
                        && 1 <= self.beat.1 as int * t1 as int
                        && self.beat.1 as int * t1 as int <= 65535 * 65535)
                        by (nonlinear_arith)
                        requires
                            self.beat.0 <= 65535,
                            self.num_beats <= 65535,
                            b1 <= 65535,
                            self.beat.1 >= 1,
                            t1 >= 1;
                }
                let num: u64 = (self.beat.0 as u64) * (self.num_beats as u64) * (b1 as u64);
                let den: u64 = (self.beat.1 as u64) * (t1 as u64);
                let q: u64 = num / den;
                let nb: u16 = if q > 65535 {
                    65535
                } else {
                    q as u16
                };
                Ok(Tempo { beat: (t2, b2), num_beats: nb })
            }
            _ => Err(MetrumError::ConversionError(ConversionError::NonRatio)),
        }
    }
}

/// Computes the dot multiplier as the exact fraction `r.0 / r.1`.
fn dot_multiplier(d: u16) -> (r: (u128, u128))
    requires
        d <= 14,
    ensures
        r.0 == dot_mult_num(d as nat),
        r.1 == dot_mult_den(d as nat),
{
    let mut mn: u128 = 1;
    let mut md: u128 = 1;
    let mut i: u16 = 0;
    while i < d
        invariant
            i <= d,
            d <= 14,
            mn == dot_mult_num(i as nat),
            md == dot_mult_den(i as nat),
        decreases d - i,
    {
        proof {
            lemma_dot_mult_pos(i as nat);
            lemma_dot_mult_pos((i + 1) as nat);
            lemma_dot_mult_bounds((i + 1) as nat);
        }
        let step: u128 = 2 * ((i + 1) as u128);
        mn = mn * step + md;
        md = md * step;
        i = i + 1;
    }
    (mn, md)
}

impl Token {
    /// Converts a ratio to an exact duration in milliseconds under `tempo`,
    /// extended by `num_dots` dots, as the fraction `p.0 / p.1` of the `Ok`
    /// value. If the token is not a ratio, returns a conversion error.
    pub fn as_duration_ms(&self, tempo: &Tempo, num_dots: u16) -> (r: Result<
        (u128, u128),
        ConversionError,
    >)
        requires
            self matches Token::Ratio(t, b) ==> num_dots <= 14,
        ensures
            match *self {
                Token::Ratio(top, bottom) => r matches Ok(p) && p.0 == dur_num(
                    top,
                    *tempo,
                    num_dots as nat,
                ) && p.1 == dur_den(bottom, *tempo, num_dots as nat),
                _ => r == Err::<(u128, u128), ConversionError>(ConversionError::NonRatioToDuration),
            },
    {
        match *self {
            Token::Ratio(top, bottom) => {
                let (mn, md) = dot_multiplier(num_dots);
                proof {
                    lemma_dot_mult_pos(num_dots as nat);
                    lemma_dot_mult_bounds(num_dots as nat);
                    assert(60000 * (tempo.beat.1 as int) * (top as int) <= 60000 * 65535 * 65535
                        && 60000 * (tempo.beat.1 as int) * (top as int) >= 0)
                        by (nonlinear_arith)
                        requires tempo.beat.1 <= 65535, top <= 65535;
                    assert(60000 * (tempo.beat.1 as int) * (top as int) * (mn as int)
                        <= 60000 * 65535 * 65535 * 3750479706193920)
                        by (nonlinear_arith)
                        requires
                            0 <= 60000 * (tempo.beat.1 as int) * (top as int),
                            60000 * (tempo.beat.1 as int) * (top as int) <= 60000 * 65535 * 65535,
                            0 <= mn as int,
                            mn as int <= 3750479706193920;
                    assert(tempo.beat.0 as int * (tempo.num_beats as int) <= 65535 * 65535
                        && tempo.beat.0 as int * (tempo.num_beats as int) * (bottom as int)
                            <= 65535 * 65535 * 65535
                        && tempo.beat.0 as int * (tempo.num_beats as int) * (bottom as int) >= 0)
                        by (nonlinear_arith)
                        requires
                            tempo.beat.0 <= 65535,
                            tempo.num_beats <= 65535,
                            bottom <= 65535;
                    assert(tempo.beat.0 as int * (tempo.num_beats as int) * (bottom as int) * (
                    md as int) <= 65535 * 65535 * 65535 * 1428329123020800)
                        by (nonlinear_arith)
                        requires
                            0 <= tempo.beat.0 as int * (tempo.num_beats as int) * (bottom as int),
                            tempo.beat.0 as int * (tempo.num_beats as int) * (bottom as int)
                                <= 65535 * 65535 * 65535,
                            0 <= md as int,
                            md as int <= 1428329123020800;
                }
                let num: u128 = 60000 * (tempo.beat.1 as u128) * (top as u128) * mn;
                let den: u128 = (tempo.beat.0 as u128) * (tempo.num_beats as u128) * (bottom
                    as u128) * md;
                Ok((num, den))
            },
            _ => Err(ConversionError::NonRatioToDuration),
        }
    }
}

/// The dot-augmentation recurrence after `k` dots, over unbounded integers:
/// the triple (result numerator, running numerator, running denominator).
/// Whenever the running numerator is not evenly divisible by the current
/// power-of-two divisor, all three values double; then a further
/// `numerator / divisor` accumulates into the result numerator.
pub open spec fn dots_iter(top0: int, bottom0: int, k: nat) -> (int, int, int)
    decreases k,
{
    if k == 0 {
        (top0, top0, bottom0)
    } else {
        let prev = dots_iter(top0, bottom0, (k - 1) as nat);
        let div = two_pow(k);
        if prev.1 % div != 0 {
            (prev.0 * 2 + (prev.1 * 2) / div, prev.1 * 2, prev.2 * 2)
        } else {
            (prev.0 + prev.1 / div, prev.1, prev.2)
        }
    }
}

pub proof fn lemma_dots_iter_nonneg(top0: int, bottom0: int, k: nat)
    requires
        0 <= top0,
        0 <= bottom0,
    ensures
        0 <= dots_iter(top0, bottom0, k).0,
        0 <= dots_iter(top0, bottom0, k).1,
        0 <= dots_iter(top0, bottom0, k).2,
    decreases k,
{
    if k > 0 {
        lemma_dots_iter_nonneg(top0, bottom0, (k - 1) as nat);
        lemma_two_pow_pos(k);
    }
}

/// All values of the dot recurrence up to `d` dots stay within `u16`.
pub open spec fn dots_in_range(top0: int, bottom0: int, d: nat) -> bool {
    forall |k: nat| k <= d ==> {
        let s = #[trigger] dots_iter(top0, bottom0, k);
        s.0 <= 65535 && s.1 <= 65535 && s.2 <= 65535
    }
}

/// The number of whole samples that cover a duration of `ms.0 / ms.1`
/// milliseconds at `sample_rate` samples per second:
/// `floor(ms / 1000 * sample_rate)`. `None` when the fraction has a zero
/// denominator or the computation leaves `u128` or `u64` range.
pub fn ms_to_samples(ms: (u128, u128), sample_rate: u32) -> (r: Option<u64>)
    ensures
        match r {
            Some(v) => ms.1 >= 1 && ms.0 * sample_rate <= u128::MAX && ms.1 * 1000 <= u128::MAX
                && v == (ms.0 * sample_rate) / (ms.1 * 1000),
            None => ms.1 == 0 || ms.0 * sample_rate > u128::MAX || ms.1 * 1000 > u128::MAX || (
            ms.0 * sample_rate) / (ms.1 * 1000) > u64::MAX,
        },
{
    if ms.1 == 0 {
        return None;
    }
    let num = match ms.0.checked_mul(sample_rate as u128) {
        Some(n) => n,
        None => {
            return None;
        },
    };
    let den = match ms.1.checked_mul(1000) {
        Some(d) => d,
        None => {
            return None;
        },
    };
    let q = num / den;
    if q > u64::MAX as u128 {
        None
    } else {
        Some(q as u64)
    }
}

/// Runs the dot recurrence with `u16` range checks: `Some` with the final
/// triple when every step stays within `u16`, `None` otherwise.
pub(crate) fn dots_check(top0: u16, bottom0: u16, d: u16) -> (r: Option<(u16, u16, u16)>)
    requires
        d <= 14,
    ensures
        r is Some <==> dots_in_range(top0 as int, bottom0 as int, d as nat),
        r matches Some(t) ==> {
            let s = dots_iter(top0 as int, bottom0 as int, d as nat);
            t.0 == s.0 && t.1 == s.1 && t.2 == s.2
        },
{
    let mut nt: u32 = top0 as u32;
    let mut t: u32 = top0 as u32;
    let mut b: u32 = bottom0 as u32;
    let mut div: u32 = 2;
    let mut i: u16 = 0;
    proof {
        assert(two_pow(0) == 1);
        assert(two_pow(1) == 2);
    }
    while i < d
        invariant
            i <= d,
            d <= 14,
            nt as int == dots_iter(top0 as int, bottom0 as int, i as nat).0,
            t as int == dots_iter(top0 as int, bottom0 as int, i as nat).1,
            b as int == dots_iter(top0 as int, bottom0 as int, i as nat).2,
            nt <= 65535,
            t <= 65535,
            b <= 65535,
            div as int == two_pow((i + 1) as nat),
            forall |k: nat| k <= i ==> {
                let s = #[trigger] dots_iter(top0 as int, bottom0 as int, k);
                s.0 <= 65535 && s.1 <= 65535 && s.2 <= 65535
            },
        decreases d - i,
    {
        proof {
            lemma_two_pow_pos((i + 1) as nat);
            lemma_two_pow_mono((i + 2) as nat, 15);
            lemma_two_pow_15();
            lemma_dots_iter_nonneg(top0 as int, bottom0 as int, (i + 1) as nat);
            assert((t as int) * 2 / (div as int) <= (t as int) * 2) by (nonlinear_arith)
                requires 0 <= (t as int) * 2, 1 <= div as int;
            assert((t as int) / (div as int) <= t as int) by (nonlinear_arith)
                requires 0 <= t as int, 1 <= div as int;
        }
        let nnt: u32;
        let nt2: u32;
        let nb2: u32;
        if t % div != 0 {
            nnt = nt * 2 + (t * 2) / div;
            nt2 = t * 2;
            nb2 = b * 2;
        } else {
            nnt = nt + t / div;
            nt2 = t;
            nb2 = b;
        }
        if nnt > 65535 || nt2 > 65535 || nb2 > 65535 {
            proof {
                let s = dots_iter(top0 as int, bottom0 as int, (i + 1) as nat);
                assert(s.0 > 65535 || s.1 > 65535 || s.2 > 65535);
                assert(!dots_in_range(top0 as int, bottom0 as int, d as nat));
            }
            return None;
        }
        nt = nnt;
        t = nt2;
        b = nb2;
        div = div * 2;
        i = i + 1;
    }
    Some((nt as u16, t as u16, b as u16))
}

impl Token {
    /// Produces the ratio extended by `num_dots` dots as an equivalent exact
    /// ratio, by the doubling recurrence of [`dots_iter`]. If the token is
    /// not a ratio, returns a conversion error.
    pub fn apply_dots(&self, num_dots: u16) -> (r: Result<Token, MetrumError>)
        requires
            self matches Token::Ratio(t, b) ==> num_dots <= 14 && dots_in_range(
                t as int,
                b as int,
                num_dots as nat,
            ),
        ensures
            match *self {
                Token::Ratio(t, b) => r matches Ok(tok) && tok == Token::Ratio(
                    dots_iter(t as int, b as int, num_dots as nat).0 as u16,
                    dots_iter(t as int, b as int, num_dots as nat).2 as u16,
                ),
                _ => r == Err::<Token, MetrumError>(
                    MetrumError::ConversionError(ConversionError::NonRatio),
                ),
            },
    {
        match *self {
            Token::Ratio(top0, bottom0) => {
                let mut top = top0;
                let mut new_top = top0;
                let mut bottom = bottom0;
                let mut divisor: u16 = 2;
                let mut i: u16 = 0;
                proof {
                    assert(two_pow(0) == 1);
                    assert(two_pow(1) == 2);
                }
                while i < num_dots
                    invariant
                        i <= num_dots,
                        num_dots <= 14,
                        dots_in_range(top0 as int, bottom0 as int, num_dots as nat),
                        new_top as int == dots_iter(top0 as int, bottom0 as int, i as nat).0,
                        top as int == dots_iter(top0 as int, bottom0 as int, i as nat).1,
                        bottom as int == dots_iter(top0 as int, bottom0 as int, i as nat).2,
                        divisor as int == two_pow((i + 1) as nat),
                    decreases num_dots - i,
                {
                    proof {
                        lemma_two_pow_pos((i + 1) as nat);
                        lemma_two_pow_mono((i + 2) as nat, 15);
                        lemma_two_pow_15();
                        let s1 = dots_iter(top0 as int, bottom0 as int, (i + 1) as nat);
                        assert(s1.0 <= 65535 && s1.1 <= 65535 && s1.2 <= 65535);
                    }
                    if top % divisor != 0 {
                        new_top = new_top * 2;
                        top = top * 2;
                        bottom = bottom * 2;
                    }
                    new_top = new_top + top / divisor;
                    divisor = divisor * 2;
                    i = i + 1;
                }
                Ok(Token::Ratio(new_top, bottom))
            },
            _ => Err(MetrumError::ConversionError(ConversionError::NonRatio)),
        }
    }
}

} // verus!
