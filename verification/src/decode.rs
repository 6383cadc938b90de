//! The decoder: from URI text back to a structured payment request.

use vstd::prelude::*;
use vstd::string::StrSliceExecFns;
use vstd::string::StringExecFns;

use crate::amount::Amount;
use crate::amount::spec_is_negative;
use crate::amount::spec_is_numeric;
use crate::params::insert_token;
use crate::params::lookup;
use crate::params::lookup_exec;
use crate::params::raw_params;
use crate::params::raw_params_from;
use crate::params::remove_key;
use crate::params::remove_key_exec;
use crate::params::upsert_exec;
use crate::request::Error;
use crate::request::ReqModel;
use crate::request::URIResources;
use crate::strkit::find_char_from;
use crate::strkit::find_first;
use crate::strkit::lemma_find_first;
use crate::strkit::split_exec;
use crate::strkit::split_on;
use crate::strkit::str_eq;

verus! {

/// The input splits on `:` into exactly two pieces, the first being the
/// supported scheme.
pub open spec fn scheme_ok(s: Seq<char>) -> bool {
    split_on(s, ':').len() == 2 && split_on(s, ':')[0] == "bitcoin"@
}

/// The characters between the scheme separator and the first `?`, or the
/// whole remainder when there is no `?`; taken verbatim.
pub open spec fn spec_address(uri: Seq<char>, urn: Seq<char>) -> Seq<char> {
    uri.subrange(urn.len() as int + 1, find_first(uri, '?'))
}

/// The raw key/value mapping of the query part: the text after the `?`, split
/// on `&`, each `key=value` token contributing an entry, malformed tokens
/// contributing nothing, later keys overwriting earlier ones.
pub open spec fn spec_raw_params(uri: Seq<char>, urn: Seq<char>, addr: Seq<char>) -> Seq<
    (Seq<char>, Seq<char>),
> {
    let idx = urn.len() + addr.len() + 2;
    if uri.len() < idx {
        Seq::empty()
    } else {
        raw_params(split_on(uri.subrange(idx as int, uri.len() as int), '&'))
    }
}

/// What the decoder returns on any input: the rejection, or the model of the
/// request it builds.
pub open spec fn parse_outcome(s: Seq<char>) -> Result<ReqModel, Error> {
    if !scheme_ok(s) {
        Err(Error::InvalidUrnErr)
    } else {
        let addr = spec_address(s, "bitcoin"@);
        let raw = spec_raw_params(s, "bitcoin"@, addr);
        let extras = remove_key(remove_key(remove_key(raw, "amount"@), "label"@), "message"@);
        match lookup(raw, "amount"@) {
            Some(a) => if !spec_is_numeric(a) {
                Err(Error::InvalidAmountErr)
            } else if spec_is_negative(a) {
                Err(Error::NegativeAmountErr)
            } else {
                Ok(
                    ReqModel {
                        scheme: "bitcoin"@,
                        address: addr,
                        amount: Some(a),
                        label: lookup(raw, "label"@),
                        message: lookup(raw, "message"@),
                        extras: Some(extras),
                    },
                )
            },
            None => Ok(
                ReqModel {
                    scheme: "bitcoin"@,
                    address: addr,
                    amount: None,
                    label: lookup(raw, "label"@),
                    message: lookup(raw, "message"@),
                    extras: Some(extras),
                },
            ),
        }
    }
}

/// Validate amount text: not numeric is `InvalidAmountErr`, numeric but below
/// zero is `NegativeAmountErr`, anything else is the amount.
pub fn parse_amount(amount: &str) -> (r: Result<Amount, Error>)
    ensures
        !spec_is_numeric(amount@) ==> r == Err::<Amount, Error>(Error::InvalidAmountErr),
        spec_is_numeric(amount@) && spec_is_negative(amount@) ==> r == Err::<Amount, Error>(
            Error::NegativeAmountErr,
        ),
        spec_is_numeric(amount@) && !spec_is_negative(amount@) ==> (r matches Ok(a) && a@
            == amount@),
{
    match Amount::new(String::from_str(amount)) {
        Some(a) => {
            if a.is_negative() {
                Err(Error::NegativeAmountErr)
            } else {
                Ok(a)
            }
        },
        None => Err(Error::InvalidAmountErr),
    }
}

/// The address part of `uri`, between the scheme separator and the first `?`.
pub fn parse_address(uri: &str, urn: &str) -> (r: String)
    requires
        urn@.len() + 1 <= find_first(uri@, '?'),
    ensures
        r@ == spec_address(uri@, urn@),
{
    proof {
        lemma_find_first(uri@, '?');
    }
    let q = find_char_from(uri, '?', 0);
    proof {
        assert(uri@.subrange(0, uri@.len() as int) =~= uri@);
        assert(q as int == find_first(uri@, '?'));
    }
    let start = urn.unicode_len() + 1;
    String::from_str(uri.substring_char(start, q))
}

/// The raw query mapping of `uri`, given its scheme and address parts.
pub fn parse_params(uri: &str, urn: &str, address: &str) -> (r: Vec<(String, String)>)
    requires
        urn@.len() + address@.len() + 2 <= usize::MAX,
    ensures
        r.deep_view() == spec_raw_params(uri@, urn@, address@),
{
    let mut ps: Vec<(String, String)> = Vec::new();
    let idx = urn.unicode_len() + 1 + address.unicode_len() + 1;
    let n = uri.unicode_len();
    if n < idx {
        proof {
            assert(ps.deep_view() =~= spec_raw_params(uri@, urn@, address@));
        }
        return ps;
    }
    let qp = uri.substring_char(idx, n);
    let tokens = split_exec(qp, '&');
    let ghost toks = tokens.deep_view();
    let m = tokens.len();
    proof {
        assert(toks.subrange(0, m as int) =~= toks);
        assert(ps.deep_view() =~= Seq::<(Seq<char>, Seq<char>)>::empty());
    }
    let mut i: usize = 0;
    while i < m
        invariant
            i <= m,
            m == tokens.len(),
            toks == tokens.deep_view(),
            raw_params(toks) == raw_params_from(ps.deep_view(), toks.subrange(i as int, m as int)),
        decreases m - i,
    {
        let ghost cur = ps.deep_view();
        proof {
            assert(tokens.deep_view()[i as int] == tokens@[i as int]@);
        }
        let pieces = split_exec(tokens[i].as_str(), '=');
        if pieces.len() == 2 {
            proof {
                assert(pieces.deep_view()[0] == pieces@[0]@);
                assert(pieces.deep_view()[1] == pieces@[1]@);
            }
            let k = pieces[0].clone();
            let v = pieces[1].clone();
            upsert_exec(&mut ps, k, v);
        }
        proof {
            let rem = toks.subrange(i as int, m as int);
            assert(rem[0] == toks[i as int]);
            assert(rem.drop_first() =~= toks.subrange(i as int + 1, m as int));
            assert(ps.deep_view() == insert_token(cur, toks[i as int]));
            assert(raw_params_from(cur, rem) == raw_params_from(
                insert_token(cur, rem[0]),
                rem.drop_first(),
            ));
        }
        i += 1;
    }
    proof {
        assert(toks.subrange(m as int, m as int) =~= Seq::<Seq<char>>::empty());
    }
    ps
}

/// Decode a URI into a payment request, or reject it exactly as
/// `parse_outcome` says. Amount values are finite-decimal-number texts: the
/// infinity and not-a-number words, which name no payable quantity, are
/// rejected as `InvalidAmountErr`, and a minus sign over a nonzero mantissa
/// digit counts as negative even where floating-point rounding would flush
/// the value to zero.
pub fn parse(uri: String) -> (result: Result<URIResources, Error>)
    ensures
        (match result {
            Ok(r) => parse_outcome(uri@) == Ok::<ReqModel, Error>(r@),
            Err(e) => parse_outcome(uri@) == Err::<ReqModel, Error>(e),
        }),
{
    let pieces = split_exec(uri.as_str(), ':');
    if pieces.len() != 2 {
        return Err(Error::InvalidUrnErr);
    }
    proof {
        assert(pieces.deep_view()[0] == pieces@[0]@);
    }
    if !str_eq(pieces[0].as_str(), "bitcoin") {
        return Err(Error::InvalidUrnErr);
    }
    let urn = pieces[0].clone();
    proof {
        reveal_strlit("bitcoin");
        lemma_find_first(uri@, ':');
        let ff = find_first(uri@, ':');
        assert(0 <= ff < uri@.len());
        assert(split_on(uri@, ':')[0] == uri@.subrange(0, ff));
        assert(uri@.subrange(0, ff).len() == 7);
        assert(ff == 7);
        lemma_find_first(uri@, '?');
        let fq = find_first(uri@, '?');
        assert forall|j: int| 0 <= j < 8 implies uri@[j] != '?' by {
            if j < 7 {
                assert(uri@[j] == uri@.subrange(0, 7)[j]);
                assert(uri@[j] == "bitcoin"@[j]);
            } else {
                assert(uri@[j] == ':');
            }
        }
        assert(fq >= 8);
    }
    let address = parse_address(uri.as_str(), urn.as_str());
    let n = uri.as_str().unicode_len();
    let q = find_char_from(uri.as_str(), '?', 0);
    proof {
        assert(uri@.subrange(0, uri@.len() as int) =~= uri@);
        assert(q as int == find_first(uri@, '?'));
    }
    let mut raw: Vec<(String, String)> = if q < n {
        parse_params(uri.as_str(), urn.as_str(), address.as_str())
    } else {
        Vec::new()
    };
    proof {
        if q >= n {
            assert(uri@.len() < "bitcoin"@.len() + spec_address(uri@, "bitcoin"@).len() + 2);
            assert(raw.deep_view() =~= spec_raw_params(
                uri@,
                "bitcoin"@,
                spec_address(uri@, "bitcoin"@),
            ));
        }
    }
    let am_opt = lookup_exec(&raw, "amount");
    let lb_opt = lookup_exec(&raw, "label");
    let ms_opt = lookup_exec(&raw, "message");
    let amount: Option<Amount> = match am_opt {
        Some(a) => match parse_amount(a.as_str()) {
            Ok(x) => Some(x),
            Err(e) => {
                return Err(e);
            },
        },
        None => None,
    };
    remove_key_exec(&mut raw, "amount");
    remove_key_exec(&mut raw, "label");
    remove_key_exec(&mut raw, "message");
    let u = URIResources::new(urn, address, amount, lb_opt, ms_opt, Some(raw));
    Ok(u)
}

} // verus!
