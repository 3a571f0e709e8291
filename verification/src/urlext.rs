use vstd::prelude::*;

verus! {

/// What parsing yields for a given URL string is a function of that string
/// alone; these names stand for the outside parser's results.
pub uninterp spec fn url_parse_ok(s: Seq<char>) -> bool;

/// The parsed URL, re-serialized with its query (and fragment) removed.
pub uninterp spec fn url_base_of(s: Seq<char>) -> Seq<char>;

/// The URL's query string, decoded into its form-urlencoded key/value pairs,
/// in order.
pub uninterp spec fn url_pairs_of(s: Seq<char>) -> Seq<(Seq<char>, Seq<char>)>;

/// Relies on `url::Url::parse`: it accepts exactly the absolute URLs, as a
/// deterministic function of the input, and `set_query(None)` and
/// `set_fragment(None)` remove the query and the fragment from the
/// serialization.
#[verifier::external_body]
pub fn url_without_query(s: &str) -> (r: Option<String>)
    ensures
        (r is Some) == url_parse_ok(s@),
        r matches Some(t) ==> t@ == url_base_of(s@),
{
    match url::Url::parse(s) {
        Ok(mut u) => {
            u.set_query(None);
            u.set_fragment(None);
            Some(u.as_str().to_string())
        },
        Err(_) => None,
    }
}

/// Relies on `url::Url::parse` and `Url::query_pairs`: the query string is
/// split at `&` into `key=value` pairs and percent-decoded, in order.
#[verifier::external_body]
pub fn url_query_pairs(s: &str) -> (r: Option<Vec<(String, String)>>)
    ensures
        (r is Some) == url_parse_ok(s@),
        r matches Some(ps) ==> ps@.len() == url_pairs_of(s@).len() && (forall|i: int|
            0 <= i < ps@.len() ==> (#[trigger] ps@[i]).0@ == url_pairs_of(s@)[i].0
                && ps@[i].1@ == url_pairs_of(s@)[i].1),
{
    match url::Url::parse(s) {
        Ok(u) => Some(u.query_pairs().map(|(k, v)| (k.into_owned(), v.into_owned())).collect()),
        Err(_) => None,
    }
}

} // verus!
