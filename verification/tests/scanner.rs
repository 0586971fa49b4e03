use metrome::error::{MetrumError, TokenError};
use metrome::scanner::{digits_fit, scan, Token};

#[test]
fn single_tokens() {
    let data = vec![
        (".", Token::Dot),
        ("=", Token::Equal),
        ("|", Token::Barline),
        ("w", Token::Ratio(1, 1)),
        ("h", Token::Ratio(1, 2)),
        ("q", Token::Ratio(1, 4)),
        ("e", Token::Ratio(1, 8)),
        ("s", Token::Ratio(1, 16)),
        ("t", Token::Ratio(1, 32)),
    ];
    for (s, tok) in data.iter() {
        let output = scan(s.to_string());
        assert!(output.is_ok());
        assert_eq!(output.clone().unwrap().len(), 1);
        assert_eq!(output.clone().unwrap()[0], *tok);
    }
}

#[test]
fn numbers() {
    let data = vec![
        ("123", 1, vec![Token::Number(123)]),
        (
            "1 2 3",
            3,
            vec![Token::Number(1), Token::Number(2), Token::Number(3)],
        ),
    ];
    for (s, l, tokens) in data.iter() {
        let output = scan(s.to_string());
        assert!(output.is_ok(), "{}", output.clone().unwrap_err().message());
        assert_eq!(output.clone().unwrap().len(), *l);
        assert_eq!(output.clone().unwrap(), *tokens);
    }
}

#[test]
fn ratios() {
    let data = vec![
        ("1/2", 1, vec![Token::Ratio(1, 2)]),
        ("1/2 1/2", 2, vec![Token::Ratio(1, 2), Token::Ratio(1, 2)]),
    ];
    for (s, l, tokens) in data.iter() {
        let output = scan(s.to_string());
        assert!(output.is_ok(), "{}", output.clone().unwrap_err().message());
        assert_eq!(output.clone().unwrap().len(), *l);
        assert_eq!(output.clone().unwrap(), *tokens);
    }
}

#[test]
fn repeats() {
    let data = vec![
        ("x2", 1, vec![Token::NoteRepeat(2)]),
        ("x2 x5", 2, vec![Token::NoteRepeat(2), Token::NoteRepeat(5)]),
        ("%2", 1, vec![Token::BarRepeat(2)]),
        ("x2 %5", 2, vec![Token::NoteRepeat(2), Token::BarRepeat(5)]),
    ];

    for (s, l, tokens) in data.iter() {
        let output = scan(s.to_string());
        assert!(output.is_ok(), "{}", output.clone().unwrap_err().message());
        assert_eq!(output.clone().unwrap().len(), *l);
        assert_eq!(output.clone().unwrap(), *tokens);
    }
}

#[test]
fn invalid_scores() {
    let data = vec![
        "i", "ul", "/", "/8", "1/2/4", "1/ 2", "1 /2", "x 1", "% 1", "|q|%1", "qx1", "qx0",
    ];
    for s in data.iter() {
        let output = scan(s.to_string());
        assert!(output.is_err());
    }
}

#[test]
fn repeat_errors_are_precise() {
    assert_eq!(
        scan("qx1".to_string()).unwrap_err(),
        MetrumError::TokenError(TokenError::NotEnoughRepeats)
    );
    assert_eq!(
        scan("qx".to_string()).unwrap_err(),
        MetrumError::TokenError(TokenError::MissingRepetition('x'))
    );
    assert_eq!(
        scan("| q q q |%".to_string()).unwrap_err(),
        MetrumError::TokenError(TokenError::MissingRepetition('%'))
    );
}

#[test]
fn zero_and_slash_errors() {
    assert_eq!(
        scan("0".to_string()).unwrap_err(),
        MetrumError::TokenError(TokenError::Zero)
    );
    assert_eq!(
        scan("1/0".to_string()).unwrap_err(),
        MetrumError::TokenError(TokenError::Zero)
    );
    assert_eq!(
        scan("1/".to_string()).unwrap_err(),
        MetrumError::TokenError(TokenError::IncompleteRatio)
    );
    assert_eq!(
        scan("/4".to_string()).unwrap_err(),
        MetrumError::TokenError(TokenError::LeadingSlash)
    );
    assert_eq!(
        scan("y".to_string()).unwrap_err(),
        MetrumError::TokenError(TokenError::InvalidCharacter('y'))
    );
}

#[test]
fn empty_and_whitespace_scores() {
    assert_eq!(scan(String::new()).unwrap(), Vec::<Token>::new());
    assert_eq!(scan(" \r\n ".to_string()).unwrap(), Vec::<Token>::new());
}

#[test]
fn leading_zeros_keep_their_value() {
    assert_eq!(
        scan("q=00090".to_string()).unwrap(),
        vec![Token::Ratio(1, 4), Token::Equal, Token::Number(90)]
    );
}

#[test]
fn digit_run_check() {
    assert!(digits_fit("q=120 | 3/4 x12 |%2"));
    assert!(digits_fit(""));
    assert!(digits_fit("65535"));
    assert!(!digits_fit("65536"));
    assert!(!digits_fit("q=99999"));
    assert!(digits_fit("0000065535"));
}

#[test]
fn error_messages() {
    assert_eq!(
        scan("y".to_string()).unwrap_err().message(),
        "Use of Invalid Character: y"
    );
    assert_eq!(
        scan("qx".to_string()).unwrap_err().message(),
        "The number of repetitions must be specified directly after the x character"
    );
    assert_eq!(
        scan("qx1".to_string()).unwrap_err().message(),
        "The number of repeats must be greater than 1"
    );
}
