//! The one error type: a failure names the offending key and the reason.

use vstd::prelude::*;

verus! {

/// The ghost model of a [`ConfigError`].
pub ghost struct ErrorModel {
    pub key: Seq<char>,
    pub why: Seq<char>,
}

/// A recoverable configuration failure: the offending key (or argument)
/// and a human-readable reason.
#[derive(Debug)]
pub struct ConfigError {
    key: String,
    why: String,
}

impl View for ConfigError {
    type V = ErrorModel;

    closed spec fn view(&self) -> ErrorModel {
        ErrorModel { key: self.key@, why: self.why@ }
    }
}

/// The full report of an error: `config key '<key>' <why>`.
pub open spec fn spec_message(e: ErrorModel) -> Seq<char> {
    "config key '"@ + e.key + "' "@ + e.why
}

impl ConfigError {
    pub fn new(key: &str, why: &str) -> (r: ConfigError)
        ensures
            r@.key == key@,
            r@.why == why@,
    {
        ConfigError { key: key.to_owned(), why: why.to_owned() }
    }

    /// The offending key.
    pub fn key(&self) -> (r: &str)
        ensures
            r@ == self@.key,
    {
        self.key.as_str()
    }

    /// The reason the key was rejected.
    pub fn why(&self) -> (r: &str)
        ensures
            r@ == self@.why,
    {
        self.why.as_str()
    }

    /// The error rendered for reporting, as [`spec_message`] describes.
    pub fn message(&self) -> (r: String)
        ensures
            r@ == spec_message(self@),
    {
        let mut out = "config key '".to_owned();
        out.append(self.key.as_str());
        out.append("' ");
        out.append(self.why.as_str());
        proof {
            assert(out@ =~= spec_message(self@));
        }
        out
    }
}

} // verus!
