use metrome::error::{MetrumError, ParseError};
use metrome::scanner::{scan, Token};
use metrome::score::{Duration, Score, Tempo, tokens_supported};

fn ms(d: &Duration) -> f64 {
    d.ms.0 as f64 / d.ms.1 as f64
}

fn total_duration(score: &Score) -> f64 {
    score
        .bars
        .iter()
        .map(|bar| bar.durations.iter().map(ms).sum::<f64>())
        .sum()
}

#[test]
fn missing_tempo() {
    let toks = scan("q =".to_string()).unwrap();
    let score = Score::new(toks);
    assert_eq!(
        score.unwrap_err(),
        MetrumError::ParseError(ParseError::MissingTempoSpecifier)
    );
}

#[test]
fn tempo_changes() {
    let data = vec![
        ("| q q=h q|", 250.0),
        ("|q q=q. q.|", 500.0),
        ("|q q=1/4. q.|", 500.0),
        ("|q 1/4=1/4. q.|", 500.0),
        ("|h 2/4=2/4. h.|", 1000.0),
        ("|q q.=q q|", 750.0),
    ];
    for (s, duration) in data.iter() {
        let toks = scan(s.to_string()).unwrap();
        let score = Score::new(toks).unwrap();
        let note = &score.bars[0].durations[1];
        assert_eq!(ms(note), *duration);
    }
}

#[test]
fn setting_tempo() {
    let data = vec!["q = 140", "1/3=120", "q. = 80", "1/5.=200"];
    for d in data.iter() {
        let toks = scan(d.to_string()).unwrap();
        let score = Score::new(toks);
        assert!(score.is_ok());
    }
}

#[test]
fn total_durations() {
    let data = vec![
        ("| qx4 |", 2000.0),
        ("q=60 | qx4 |", 4000.0),
        ("q=240 | qx4 |", 1000.0),
        ("| qx3 |", 1500.0),
    ];
    for (d, dur) in data.iter() {
        let toks = scan(d.to_string()).unwrap();
        let score = Score::new(toks).unwrap();
        assert_eq!(total_duration(&score), *dur);
    }
}

#[test]
fn bar_repeats() {
    let data = vec![("| q |%2", 2)];
    for (d, num_bars) in data.iter() {
        let toks = scan(d.to_string()).unwrap();
        let score = Score::new(toks).unwrap();
        assert_eq!(score.bars.len(), *num_bars);
    }
}

#[test]
fn note_repeats() {
    let data = vec![("| qx4 |", 4), ("| qx4 hx2 |", 6), ("| qx100 |", 100)];
    for (d, num_notes) in data.iter() {
        let toks = scan(d.to_string()).unwrap();
        let score = Score::new(toks).unwrap();
        assert_eq!(score.bars[0].durations.len(), *num_notes);
        assert!(score.bars[0].durations[0].strong);
        for i in 1..score.bars[0].durations.len() {
            assert!(
                !score.bars[0].durations[i].strong,
                "The rest of the beats in a bar must be weak"
            );
        }
    }
}

#[test]
fn single_bar() {
    let toks = scan("| q q q q |".to_string()).unwrap();
    let score = Score::new(toks);
    assert!(score.is_ok());
    assert_eq!(score.as_ref().unwrap().bars.len(), 1);
    assert_eq!(
        score
            .as_ref()
            .unwrap()
            .bars
            .first()
            .unwrap()
            .durations
            .len(),
        4
    );
    assert!(
        score
            .as_ref()
            .unwrap()
            .bars
            .first()
            .unwrap()
            .durations
            .first()
            .unwrap()
            .strong
    );
    assert!(
        !score
            .as_ref()
            .unwrap()
            .bars
            .first()
            .unwrap()
            .durations
            .get(1)
            .unwrap()
            .strong
    )
}

#[test]
fn four_quarters_are_500_ms_each() {
    let toks = scan("| q q q q |".to_string()).unwrap();
    let score = Score::new(toks).unwrap();
    assert_eq!(score.bars.len(), 1);
    let durs = &score.bars[0].durations;
    assert_eq!(durs.len(), 4);
    for (i, d) in durs.iter().enumerate() {
        assert_eq!(ms(d), 500.0);
        assert_eq!(d.strong, i == 0);
    }
}

#[test]
fn note_repeat_bakes_values() {
    let toks = scan("| qx4 |".to_string()).unwrap();
    let score = Score::new(toks).unwrap();
    assert_eq!(score.bars.len(), 1);
    let durs = &score.bars[0].durations;
    assert_eq!(durs.len(), 4);
    for d in durs.iter() {
        assert_eq!(ms(d), 500.0);
    }
    assert!(durs[0].strong);
    assert!(durs[1..].iter().all(|d| !d.strong));
    assert_eq!(total_duration(&score), 2000.0);
}

#[test]
fn bar_repeat_copies_completed_bar() {
    let toks = scan("| q |%2".to_string()).unwrap();
    let score = Score::new(toks).unwrap();
    assert_eq!(score.bars.len(), 2);
    for bar in score.bars.iter() {
        assert_eq!(bar.durations.len(), 1);
        assert_eq!(ms(&bar.durations[0]), 500.0);
        assert!(bar.durations[0].strong);
    }
}

#[test]
fn bar_repeat_placement_errors() {
    let err = |s: &str| Score::new(scan(s.to_string()).unwrap()).unwrap_err();
    // not directly after a barline
    assert_eq!(
        err("| q q %2"),
        MetrumError::ParseError(ParseError::BarRepeat)
    );
    // nothing completed yet
    assert_eq!(
        err("| %2"),
        MetrumError::ParseError(ParseError::NothingToRepeat)
    );
    // no prior token at all
    assert_eq!(
        err("%2"),
        MetrumError::ParseError(ParseError::NothingToRepeat)
    );
}

#[test]
fn stray_token_errors() {
    let err = |s: &str| Score::new(scan(s.to_string()).unwrap()).unwrap_err();
    assert_eq!(err("120"), MetrumError::ParseError(ParseError::Number));
    assert_eq!(err("="), MetrumError::ParseError(ParseError::Equal));
    assert_eq!(err("."), MetrumError::ParseError(ParseError::Dot));
    assert_eq!(err("x2"), MetrumError::ParseError(ParseError::NothingToRepeat));
    assert_eq!(err("| x2"), MetrumError::ParseError(ParseError::NothingToRepeat));
}

#[test]
fn trailing_content_forms_final_bar() {
    let toks = scan("q q | h".to_string()).unwrap();
    let score = Score::new(toks).unwrap();
    assert_eq!(score.bars.len(), 2);
    assert_eq!(score.bars[0].durations.len(), 2);
    assert_eq!(score.bars[1].durations.len(), 1);
    assert_eq!(ms(&score.bars[1].durations[0]), 1000.0);
}

#[test]
fn empty_bars_are_dropped() {
    let score = Score::new(scan("||   | |".to_string()).unwrap()).unwrap();
    assert_eq!(score.bars.len(), 0);
    let score = Score::new(scan("| q || h |".to_string()).unwrap()).unwrap();
    assert_eq!(score.bars.len(), 2);
}

#[test]
fn dotted_durations() {
    // one dot multiplies by 1.5, two dots by 1.75
    let score = Score::new(scan("| q. q.. |".to_string()).unwrap()).unwrap();
    assert_eq!(ms(&score.bars[0].durations[0]), 750.0);
    assert_eq!(ms(&score.bars[0].durations[1]), 875.0);
}

#[test]
fn supported_tokens() {
    let toks = scan("q=120 | q. hx3 |%2".to_string()).unwrap();
    assert!(tokens_supported(&toks));
    // fifteen dots on one note pass the lexer but exceed the builder's
    // exact-arithmetic range
    let toks = scan("q...............".to_string()).unwrap();
    assert!(!tokens_supported(&toks));
    // a repeat count of zero never comes from the lexer
    assert!(!tokens_supported(&vec![
        Token::Ratio(1, 4),
        Token::NoteRepeat(0)
    ]));
}

#[test]
fn empty_input_builds_empty_score() {
    let score = Score::new(Vec::new()).unwrap();
    assert_eq!(score.bars.len(), 0);
    let score = Score::new(scan(String::new()).unwrap()).unwrap();
    assert_eq!(score.bars.len(), 0);
}

#[test]
fn tempo_constructor() {
    let t = Tempo::new((3, 8), 90);
    assert_eq!(t, Tempo { beat: (3, 8), num_beats: 90 });
}

#[test]
fn weak_copies() {
    let d = Duration { ms: (500, 1), strong: true };
    let w = d.to_weak();
    assert_eq!(w.ms, (500, 1));
    assert!(!w.strong);
}
