//! The settings of a running service: tokens, storage directory, fallback address.

use vstd::prelude::*;
use crate::text::same_text;

verus! {

/// The settings that the service is started with.
pub struct Settings {
    pub verification_token: String,
    pub api_token: String,
    pub data_path: String,
    pub fallback_url: Option<String>,
}

impl Settings {
    /// Settings made of their four values.
    pub fn new(
        verification_token: String,
        api_token: String,
        data_path: String,
        fallback_url: Option<String>,
    ) -> (r: Settings)
        ensures
            r.verification_token@ == verification_token@,
            r.api_token@ == api_token@,
            r.data_path@ == data_path@,
            crate::entry::opt_view(r.fallback_url) == crate::entry::opt_view(fallback_url),
    {
        Settings { verification_token, api_token, data_path, fallback_url }
    }

    /// Whether `other` is the verification token.
    pub fn verify(&self, other: &str) -> (r: bool)
        ensures
            r == (self.verification_token@ == other@),
    {
        same_text(self.verification_token.as_str(), other)
    }

    /// The token for calls to the chat platform.
    pub fn token(&self) -> (r: &str)
        ensures
            r@ == self.api_token@,
    {
        self.api_token.as_str()
    }

    /// The storage directory.
    pub fn data_path(&self) -> (r: &str)
        ensures
            r@ == self.data_path@,
    {
        self.data_path.as_str()
    }

    /// The fallback address, where one is set.
    pub fn fallback_url(&self) -> (r: Option<&str>)
        ensures
            r matches Some(u) ==> self.fallback_url matches Some(f) && u@ == f@,
            r is None ==> self.fallback_url is None,
    {
        match &self.fallback_url {
            Some(u) => Some(u.as_str()),
            None => None,
        }
    }
}

} // verus!
