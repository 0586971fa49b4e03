use metrome::error::{ConversionError, MetrumError};
use metrome::scanner::Token;
use metrome::score::Tempo;
use metrome::units::ms_to_samples;

fn frac(p: (u64, u64)) -> f64 {
    p.0 as f64 / p.1 as f64
}

#[test]
fn whole_duration() {
    let data = vec![
        (Tempo::new((1, 4), 120), 2000.0),
        (Tempo::new((1, 1), 60), 1000.0),
        (Tempo::new((1, 2), 60), 2000.0),
        (Tempo::new((1, 4), 60), 4000.0),
        (Tempo::new((1, 8), 60), 8000.0),
    ];
    for (tempo, duration) in data.iter() {
        assert_eq!(frac(tempo.duration_of_whole()), *duration);
    }
}

#[test]
fn relative_tempo_change() {
    let data = vec![
        (
            Tempo::new((1, 4), 120),
            Token::Ratio(1, 4),
            Token::Ratio(2, 4),
            Tempo::new((2, 4), 120),
        ),
        (
            Tempo::new((1, 2), 60),
            Token::Ratio(1, 4),
            Token::Ratio(3, 8),
            Tempo::new((3, 8), 120),
        ),
    ];
    for (tempo1, ratio1, ratio2, tempo2) in data.iter() {
        assert_eq!(tempo1.relative_to(ratio1, ratio2).unwrap(), *tempo2);
    }
}

#[test]
fn quarter_equals_half() {
    // the tempo directive `q=h`: the old count of 120 quarters per minute
    // transfers to the half note, so a quarter afterwards plays in 250 ms
    let old = Tempo::new((1, 4), 120);
    let new = old
        .relative_to(&Token::Ratio(1, 4), &Token::Ratio(1, 2))
        .unwrap();
    assert_eq!(new, Tempo::new((1, 2), 120));
    let p = Token::Ratio(1, 4).as_duration_ms(&new, 0).unwrap();
    assert_eq!(p.0 as f64 / p.1 as f64, 250.0);
}

#[test]
fn duration() {
    let data = vec![
        (Tempo::new((1, 4), 120), Token::Ratio(1, 4), 0, 500.0),
        (Tempo::new((1, 4), 120), Token::Ratio(1, 4), 1, 750.0),
        (Tempo::new((1, 4), 60), Token::Ratio(1, 4), 0, 1000.0),
        (Tempo::new((1, 4), 60), Token::Ratio(1, 4), 2, 1750.0),
        (Tempo::new((1, 4), 240), Token::Ratio(1, 4), 0, 250.0),
        (Tempo::new((1, 4), 120), Token::Ratio(5, 4), 0, 2500.0),
        (Tempo::new((1, 4), 120), Token::Ratio(10, 8), 0, 2500.0),
    ];
    for (tempo, ratio, num_dots, duration) in data.iter() {
        let p = ratio.as_duration_ms(tempo, *num_dots).unwrap();
        assert_eq!(p.0 as f64 / p.1 as f64, *duration);
    }
}

#[test]
fn dot_application() {
    let data = vec![
        (Token::Ratio(1, 4), 1, Token::Ratio(3, 8)),
        (Token::Ratio(1, 4), 2, Token::Ratio(7, 16)),
        (Token::Ratio(3, 8), 1, Token::Ratio(9, 16)),
    ];
    for (ratio1, num_dots, ratio2) in data.iter() {
        assert_eq!(ratio1.apply_dots(*num_dots).unwrap(), *ratio2);
    }
}

#[test]
fn non_dyadic_tempo_is_exact() {
    // 120 third-notes per minute: a whole lasts 1500 ms, a quarter 375 ms
    let t = Tempo::new((1, 3), 120);
    assert_eq!(frac(t.duration_of_whole()), 1500.0);
    let p = Token::Ratio(1, 4).as_duration_ms(&t, 0).unwrap();
    assert_eq!(p.0 as f64 / p.1 as f64, 375.0);
}

#[test]
fn third_dot_follows_the_running_sum() {
    // the duration multiplier for three dots is 1 + 1/2 + 1/4 + 1/6 = 23/12,
    // so a quarter at 120 bpm with three dots lasts exactly 500 * 23/12 ms
    let t = Tempo::new((1, 4), 120);
    let p = Token::Ratio(1, 4).as_duration_ms(&t, 3).unwrap();
    assert_eq!(p.0 * 12, 500 * 23 * p.1);
    // the exact ratio augmentation, by contrast, doubles each increment:
    // three dots on a quarter give 15/32
    assert_eq!(
        Token::Ratio(1, 4).apply_dots(3).unwrap(),
        Token::Ratio(15, 32)
    );
}

#[test]
fn wholes_per_minute() {
    let t = Tempo::new((1, 4), 120);
    let r = t.wholes_per_min();
    assert_eq!(r.0 as f64 / r.1 as f64, 30.0);
}

#[test]
fn conversions_need_ratios() {
    let t = Tempo::new((1, 4), 120);
    assert_eq!(
        Token::Barline.as_duration_ms(&t, 0).unwrap_err(),
        ConversionError::NonRatioToDuration
    );
    assert_eq!(
        Token::Equal.apply_dots(1).unwrap_err(),
        MetrumError::ConversionError(ConversionError::NonRatio)
    );
    assert_eq!(
        t.relative_to(&Token::Number(3), &Token::Ratio(1, 2))
            .unwrap_err(),
        MetrumError::ConversionError(ConversionError::NonRatio)
    );
    assert_eq!(
        t.relative_to(&Token::Ratio(1, 2), &Token::Dot).unwrap_err(),
        MetrumError::ConversionError(ConversionError::NonRatio)
    );
}

#[test]
fn num_samples_from_duration() {
    let data = vec![
        ((1000, 1), 44100, 44100),
        ((500, 1), 44100, 22050),
        ((2000, 1), 44100, 88200),
    ];
    for (dur, sample_rate, num_samples) in data.iter() {
        assert_eq!(ms_to_samples(*dur, *sample_rate), Some(*num_samples));
    }
    // 500 ms as the builder stores it for a quarter note at 120 bpm
    assert_eq!(ms_to_samples((240000, 480), 44100), Some(22050));
    // the floor of the exact value, not a rounding
    assert_eq!(ms_to_samples((1, 3), 44100), Some(14));
    assert_eq!(ms_to_samples((1, 0), 44100), None);
}

#[test]
fn derived_tempo_rounds_down_and_clamps() {
    // 30 wholes per minute against a 7/8 note: 240/7 rounds down to 34
    let t = Tempo::new((1, 4), 120);
    let new = t
        .relative_to(&Token::Ratio(7, 8), &Token::Ratio(1, 4))
        .unwrap();
    assert_eq!(new.num_beats, 34);
    // an extreme ratio clamps at u16::MAX
    let t = Tempo::new((100, 1), 65535);
    let new = t
        .relative_to(&Token::Ratio(1, 100), &Token::Ratio(1, 4))
        .unwrap();
    assert_eq!(new.num_beats, 65535);
}
