//! What can go wrong while a text is translated.
use vstd::prelude::*;
use vstd::string::StringExecFns;

verus! {

/// Why a translation failed.
#[derive(Debug)]
pub enum TranslationError {
    /// The request could not be made or answered.
    Network(String),
    /// The answer could not be understood.
    Parse(String),
    /// The provider asks for fewer requests.
    RateLimited,
    /// The translation lost a placeholder.
    PlaceholderMismatch,
}

/// What a [`TranslationError`] holds.
pub ghost enum Failure {
    Network(Seq<char>),
    Parse(Seq<char>),
    RateLimited,
    PlaceholderMismatch,
}

impl View for TranslationError {
    type V = Failure;

    open spec fn view(&self) -> Failure {
        match self {
            TranslationError::Network(text) => Failure::Network(text@),
            TranslationError::Parse(text) => Failure::Parse(text@),
            TranslationError::RateLimited => Failure::RateLimited,
            TranslationError::PlaceholderMismatch => Failure::PlaceholderMismatch,
        }
    }
}

impl Failure {
    /// The failure in words.
    pub open spec fn message(self) -> Seq<char> {
        match self {
            Failure::Network(text) => "network error: "@ + text,
            Failure::Parse(text) => "parse error: "@ + text,
            Failure::RateLimited => "rate limited (HTTP 429)"@,
            Failure::PlaceholderMismatch => "placeholder mismatch after translation"@,
        }
    }
}

impl TranslationError {
    /// The error in words.
    pub fn message(&self) -> (message: String)
        ensures
            message@ == self@.message(),
    {
        match self {
            TranslationError::Network(text) => {
                let mut message = "network error: ".to_owned();
                message.append(text.as_str());
                message
            },
            TranslationError::Parse(text) => {
                let mut message = "parse error: ".to_owned();
                message.append(text.as_str());
                message
            },
            TranslationError::RateLimited => "rate limited (HTTP 429)".to_owned(),
            TranslationError::PlaceholderMismatch => "placeholder mismatch after translation".to_owned(),
        }
    }
}

} // verus!
