//! Trusted boundary to the `url` crate: assembling and validating the final
//! URI text. Each wrapper's contract states only what url's own source shows.

use vstd::prelude::*;

use crate::strkit::join_pairs;
use crate::strkit::plain_chars;
use crate::params::pairs_text_len;
use crate::params::plain_pairs;

verus! {

/// The string that `url::Url::parse` serializes a given input to.
pub uninterp spec fn url_norm(base: Seq<char>) -> Seq<char>;

/// Whether `url::Url::parse` accepts a given input: its verdict, like its
/// serialization, is a function of the input text alone.
pub uninterp spec fn url_accepts(base: Seq<char>) -> bool;

/// The string that `url::Url::parse_with_params` serializes a given input and
/// given query pairs to.
pub uninterp spec fn url_with_params(base: Seq<char>, pairs: Seq<(Seq<char>, Seq<char>)>) -> Seq<
    char,
>;

#[verifier::external_type_specification]
#[verifier::external_body]
pub struct ExParseError(url::ParseError);

/// A URI of the shape `bitcoin:` followed by unreserved characters only: such
/// an input is already in the url crate's normal form, so parsing keeps it
/// verbatim, and appended query pairs of unreserved characters are kept
/// verbatim too.
pub open spec fn plain_base(s: Seq<char>) -> bool {
    s.len() >= 8 && s.subrange(0, 8) == "bitcoin:"@ && plain_chars(s.subrange(8, s.len() as int))
}

/// Relies on url::Url::parse and Url::as_str: the verdict and the output are
/// functions of the input text alone; parsing succeeds on a `bitcoin:`-schemed
/// input of unreserved characters and keeps it verbatim (lowercase known
/// scheme, opaque path, nothing to trim, escape or reorder); any overflow of
/// the crate's 32-bit offsets surfaces as an error, never a panic.
#[verifier::external_body]
pub(crate) fn url_parse_norm(base: &str) -> (r: Result<String, url::ParseError>)
    requires
        base@.len() < 0x4000_0000,
    ensures
        (match r {
            Ok(s) => url_accepts(base@) && s@ == url_norm(base@) && (plain_base(base@) ==> s@
                == base@),
            Err(_) => !url_accepts(base@) && !plain_base(base@),
        }),
{
    match url::Url::parse(base) {
        Ok(u) => Ok(u.as_str().to_string()),
        Err(e) => Err(e),
    }
}

/// Relies on url::Url::parse_with_params and Url::as_str: it fails exactly
/// when url::Url::parse fails on the base, and otherwise appends the pairs as
/// a form-urlencoded query; verdict and output are functions of the input text
/// and pairs alone. On a plain base with pairs of unreserved characters the
/// result is exactly the base, `?`, and the pairs joined as `key=value`
/// tokens separated by `&` (unreserved characters pass the form-urlencoded
/// byte serializer unchanged). The length bound covers the base and the pairs
/// together, so the whole serialization — parsed base, appended query, and a
/// restored fragment when the base held a `#` — stays under the crate's
/// 32-bit offsets even when every character percent-encodes to twelve bytes,
/// and no offset conversion on this path can hit its overflow panic.
#[verifier::external_body]
pub(crate) fn url_append_params(base: &str, pairs: &Vec<(String, String)>) -> (r: Result<
    String,
    url::ParseError,
>)
    requires
        base@.len() + pairs_text_len(pairs.deep_view()) < 0x1000_0000,
    ensures
        (match r {
            Ok(s) => url_accepts(base@) && s@ == url_with_params(base@, pairs.deep_view()) && (
            plain_base(base@) && plain_pairs(pairs.deep_view()) && pairs.deep_view().len() > 0
                ==> s@ == base@ + "?"@ + join_pairs(pairs.deep_view())),
            Err(_) => !url_accepts(base@) && !(plain_base(base@) && plain_pairs(pairs.deep_view())
                && pairs.deep_view().len() > 0),
        }),
{
    match url::Url::parse_with_params(base, pairs) {
        Ok(u) => Ok(u.as_str().to_string()),
        Err(e) => Err(e),
    }
}

} // verus!
