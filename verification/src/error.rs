//! The error taxonomy: lexing, parsing and unit-conversion failures, all
//! surfaced to callers through the single tagged union [`MetrumError`].

use vstd::prelude::*;

verus! {

/// Errors that occur when parsing the tokens and creating a score.
#[derive(Debug, PartialEq, Clone)]
pub enum ParseError {
    /// Occurs when specifying a tempo without the numbers per minute.
    /// For example: `q =`
    MissingTempoSpecifier,
    /// Occurs when a number is used outside of the context of ratios or tempo
    /// specifications.
    Number,
    /// Occurs when a dot is found outside of the context of extending ratio
    /// duration.
    Dot,
    /// Occurs when an equal character is found outside the context of tempo
    /// specification.
    Equal,
    /// Occurs when a repeat is specified but there is nothing to repeat.
    NothingToRepeat,
    /// Occurs when a bar repeat occurs anywhere else but after a barline.
    BarRepeat,
}

/// Errors that occur when converting between units.
#[derive(Debug, PartialEq, Clone)]
pub enum ConversionError {
    /// Occurs when trying to convert a token to a duration that isn't a ratio.
    NonRatioToDuration,
    /// Occurs when using a non ratio in a conversion that requires one.
    NonRatio,
}

/// Errors that occur when tokenizing the score.
#[derive(Debug, PartialEq, Clone)]
pub enum TokenError {
    /// Occurs when trying to use 0 as a number or in a ratio.
    Zero,
    /// Occurs when an invalid character is found in the score.
    InvalidCharacter(char),
    /// Occurs when the number of repeats is not specified after a repetition
    /// character. Example: `qx` or `| q q q |%`
    MissingRepetition(char),
    /// Occurs when the bottom part of a ratio is missing.
    IncompleteRatio,
    /// Occurs when a '/' is found before a number is found.
    LeadingSlash,
    /// Occurs when the number of repeats is less than 2 (i.e. 1).
    NotEnoughRepeats,
}

/// The single error union every public entry point reports through.
#[derive(Debug, PartialEq, Clone)]
pub enum MetrumError {
    ParseError(ParseError),
    ConversionError(ConversionError),
    TokenError(TokenError),
}

/// Relies on `String::push`: appends exactly the one character.
#[verifier::external_body]
fn push_char(s: &mut String, c: char)
    ensures
        final(s)@ == old(s)@.push(c),
{
    s.push(c);
}

impl MetrumError {
    /// The text [`MetrumError::message`] returns for this error.
    pub open spec fn message_spec(&self) -> Seq<char> {
        match *self {
            MetrumError::ParseError(pe) => match pe {
                ParseError::MissingTempoSpecifier =>
                    "A number must come after '=' when specifying tempo"@,
                ParseError::Number =>
                    "A number can only be used in the context of ratios or tempo specifications"@,
                ParseError::Dot => "A dot can only be used after a ratio or duration"@,
                ParseError::Equal =>
                    "An equal character can only be used when specifying a tempo"@,
                ParseError::NothingToRepeat => "There is nothing to repeat!"@,
                ParseError::BarRepeat => "A bar repeat must come directly after a barline"@,
            },
            MetrumError::ConversionError(ce) => match ce {
                ConversionError::NonRatioToDuration =>
                    "Cannot convert a non ratio to a duration"@,
                ConversionError::NonRatio => "Cannot use a non ratio in this conversion"@,
            },
            MetrumError::TokenError(te) => match te {
                TokenError::Zero => "Use of 0 as a number of a ratio is not allowed"@,
                TokenError::InvalidCharacter(c) => "Use of Invalid Character: "@.push(c),
                TokenError::MissingRepetition(c) =>
                    "The number of repetitions must be specified directly after the "@.push(c)
                        + " character"@,
                TokenError::IncompleteRatio =>
                    "A number must come directly after a '/' in ratios"@,
                TokenError::LeadingSlash =>
                    "A '/' cannot come on its own without a number preceding it"@,
                TokenError::NotEnoughRepeats => "The number of repeats must be greater than 1"@,
            },
        }
    }

    /// A human-readable description of the error.
    pub fn message(&self) -> (r: String)
        ensures
            r@ == self.message_spec(),
    {
        match self {
            MetrumError::ParseError(pe) => match pe {
                ParseError::MissingTempoSpecifier => String::from_str(
                    "A number must come after '=' when specifying tempo",
                ),
                ParseError::Number => String::from_str(
                    "A number can only be used in the context of ratios or tempo specifications",
                ),
                ParseError::Dot => String::from_str(
                    "A dot can only be used after a ratio or duration",
                ),
                ParseError::Equal => String::from_str(
                    "An equal character can only be used when specifying a tempo",
                ),
                ParseError::NothingToRepeat => String::from_str("There is nothing to repeat!"),
                ParseError::BarRepeat => String::from_str(
                    "A bar repeat must come directly after a barline",
                ),
            },
            MetrumError::ConversionError(ce) => match ce {
                ConversionError::NonRatioToDuration => String::from_str(
                    "Cannot convert a non ratio to a duration",
                ),
                ConversionError::NonRatio => String::from_str(
                    "Cannot use a non ratio in this conversion",
                ),
            },
            MetrumError::TokenError(te) => match te {
                TokenError::Zero => String::from_str(
                    "Use of 0 as a number of a ratio is not allowed",
                ),
                TokenError::InvalidCharacter(c) => {
                    let mut s = String::from_str("Use of Invalid Character: ");
                    push_char(&mut s, *c);
                    s
                },
                TokenError::MissingRepetition(c) => {
                    let mut s = String::from_str(
                        "The number of repetitions must be specified directly after the ",
                    );
                    push_char(&mut s, *c);
                    s.concat(" character")
                },
                TokenError::IncompleteRatio => String::from_str(
                    "A number must come directly after a '/' in ratios",
                ),
                TokenError::LeadingSlash => String::from_str(
                    "A '/' cannot come on its own without a number preceding it",
                ),
                TokenError::NotEnoughRepeats => String::from_str(
                    "The number of repeats must be greater than 1",
                ),
            },
        }
    }
}

} // verus!
