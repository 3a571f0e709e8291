pub mod cli;
pub mod config;
pub mod diff;
pub mod error;
pub mod json;
pub mod json_parse;
pub mod json_text;
pub mod request;
pub mod response;
pub mod strutil;
pub mod urlext;

pub use config::{ConfigValidate, DiffConfig, DiffProfile, RequestConfig};
pub use diff::diff_text;
pub use error::XdiffError;
pub use request::RequestProfile;
pub use response::{RawResponse, ResponseProfile};

use vstd::prelude::*;

verus! {

/// Runtime overrides applied on top of a request template before it is sent:
/// ordered `(key, value)` lists for headers, query parameters and body fields.
pub struct ExtraArgs {
    pub headers: Vec<(String, String)>,
    pub query: Vec<(String, String)>,
    pub body: Vec<(String, String)>,
}

impl ExtraArgs {
    /// An override set that changes nothing.
    pub fn new() -> (r: ExtraArgs)
        ensures
            r.headers@.len() == 0,
            r.query@.len() == 0,
            r.body@.len() == 0,
    {
        ExtraArgs { headers: Vec::new(), query: Vec::new(), body: Vec::new() }
    }
}

impl Default for ExtraArgs {
    fn default() -> (r: ExtraArgs)
        ensures
            r.headers@.len() == 0,
            r.query@.len() == 0,
            r.body@.len() == 0,
    {
        ExtraArgs::new()
    }
}

/// Whether a value equals its type's default.
pub fn is_default<T: Default + PartialEq>(t: &T) -> bool {
    t == &T::default()
}

} // verus!
