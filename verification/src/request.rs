//! The payment request itself and its encoder.

use vstd::prelude::*;
use vstd::string::StringExecFns;

use crate::amount::Amount;
use crate::amount::spec_is_negative;
use crate::params::pairs_text_len;
use crate::params::plain_pairs;
use crate::params::upsert;
use crate::params::lemma_upsert_plain;
use crate::params::lemma_upsert_text_len;
use crate::params::upsert_exec;
use crate::strkit::join_pairs;
use crate::strkit::plain_chars;
use crate::strkit::str_eq;
use crate::urlcall::plain_base;
use crate::urlcall::url_accepts;
use crate::urlcall::url_norm;
use crate::urlcall::url_with_params;
use crate::urlcall::url_parse_norm;
use crate::urlcall::url_append_params;

verus! {

#[derive(Debug, PartialEq, Eq)]
pub enum Error {
    InvalidUrnErr,
    NegativeAmountErr,
    UrlParseError,
    InvalidAmountErr,
}

/// Mathematical content of a payment request: every field as character
/// sequences, the amount as the decimal text that names it.
pub ghost struct ReqModel {
    pub scheme: Seq<char>,
    pub address: Seq<char>,
    pub amount: Option<Seq<char>>,
    pub label: Option<Seq<char>>,
    pub message: Option<Seq<char>>,
    pub extras: Option<Seq<(Seq<char>, Seq<char>)>>,
}

#[derive(Debug)]
pub struct URIResources {
    pub urn_scheme: String,
    pub address: String,
    pub amount: Option<Amount>,
    pub label: Option<String>,
    pub message: Option<String>,
    pub params: Option<Vec<(String, String)>>,
}

impl View for URIResources {
    type V = ReqModel;

    open spec fn view(&self) -> ReqModel {
        ReqModel {
            scheme: self.urn_scheme@,
            address: self.address@,
            amount: match self.amount {
                Some(a) => Some(a@),
                None => None,
            },
            label: match self.label {
                Some(l) => Some(l@),
                None => None,
            },
            message: match self.message {
                Some(m) => Some(m@),
                None => None,
            },
            extras: match self.params {
                Some(ref p) => Some(p.deep_view()),
                None => None,
            },
        }
    }
}

/// Add the entry only when the optional value is present.
pub open spec fn with_opt(
    ps: Seq<(Seq<char>, Seq<char>)>,
    k: Seq<char>,
    v: Option<Seq<char>>,
) -> Seq<(Seq<char>, Seq<char>)> {
    match v {
        Some(x) => upsert(ps, k, x),
        None => ps,
    }
}

/// Fold the extra parameters in, in order, each overwriting any earlier entry
/// of the same key.
pub open spec fn upsert_all(
    ps: Seq<(Seq<char>, Seq<char>)>,
    es: Seq<(Seq<char>, Seq<char>)>,
) -> Seq<(Seq<char>, Seq<char>)>
    decreases es.len(),
{
    if es.len() == 0 {
        ps
    } else {
        upsert_all(upsert(ps, es[0].0, es[0].1), es.drop_first())
    }
}

/// The query pairs the encoder serializes: amount, label and message in that
/// order, then the extra parameters, extras overwriting named entries.
pub open spec fn build_pairs(m: ReqModel) -> Seq<(Seq<char>, Seq<char>)> {
    let p = with_opt(
        with_opt(with_opt(Seq::empty(), "amount"@, m.amount), "label"@, m.label),
        "message"@,
        m.message,
    );
    match m.extras {
        Some(es) => upsert_all(p, es),
        None => p,
    }
}

/// The scheme, a colon, and the address, before any query.
pub open spec fn base_of(m: ReqModel) -> Seq<char> {
    m.scheme + ":"@ + m.address
}

/// The URI the encoder produces on plain input: the base alone when there are
/// no pairs, otherwise the base, `?`, and the joined pairs.
pub open spec fn built_plain(m: ReqModel) -> Seq<char> {
    if build_pairs(m).len() == 0 {
        base_of(m)
    } else {
        base_of(m) + "?"@ + join_pairs(build_pairs(m))
    }
}

pub open spec fn opt_text_len(v: Option<Seq<char>>) -> int {
    match v {
        Some(s) => s.len() as int,
        None => 0,
    }
}

pub open spec fn extras_text_len(m: ReqModel) -> int {
    match m.extras {
        Some(es) => pairs_text_len(es),
        None => 0,
    }
}

/// All the text a request carries beside its fixed scheme: what bounds the
/// size of the URI serialized from it.
pub open spec fn request_text_len(m: ReqModel) -> int {
    m.address.len() + opt_text_len(m.amount) + opt_text_len(m.label) + opt_text_len(m.message)
        + extras_text_len(m)
}

proof fn lemma_upsert_all_text_len(
    ps: Seq<(Seq<char>, Seq<char>)>,
    es: Seq<(Seq<char>, Seq<char>)>,
)
    ensures
        pairs_text_len(upsert_all(ps, es)) <= pairs_text_len(ps) + pairs_text_len(es),
    decreases es.len(),
{
    if es.len() > 0 {
        lemma_upsert_text_len(ps, es[0].0, es[0].1);
        lemma_upsert_all_text_len(upsert(ps, es[0].0, es[0].1), es.drop_first());
    }
}

/// The serialized pairs carry at most the request's own text, the three named
/// keys, and two separators per entry.
pub proof fn lemma_build_pairs_text_len(m: ReqModel)
    ensures
        pairs_text_len(build_pairs(m)) <= opt_text_len(m.amount) + opt_text_len(m.label)
            + opt_text_len(m.message) + extras_text_len(m) + 24,
{
    reveal_strlit("amount");
    reveal_strlit("label");
    reveal_strlit("message");
    assert("amount"@.len() == 6 && "label"@.len() == 5 && "message"@.len() == 7);
    let p0 = Seq::<(Seq<char>, Seq<char>)>::empty();
    assert(pairs_text_len(p0) == 0);
    let p1 = with_opt(p0, "amount"@, m.amount);
    if m.amount is Some {
        lemma_upsert_text_len(p0, "amount"@, m.amount->Some_0);
    }
    let p2 = with_opt(p1, "label"@, m.label);
    if m.label is Some {
        lemma_upsert_text_len(p1, "label"@, m.label->Some_0);
    }
    let p3 = with_opt(p2, "message"@, m.message);
    if m.message is Some {
        lemma_upsert_text_len(p2, "message"@, m.message->Some_0);
    }
    if m.extras is Some {
        lemma_upsert_all_text_len(p3, m.extras->Some_0);
    }
}

pub open spec fn amount_negative(m: ReqModel) -> bool {
    match m.amount {
        Some(a) => spec_is_negative(a),
        None => false,
    }
}

/// The encoder's two early rejections are both passed.
pub open spec fn proceeds(m: ReqModel) -> bool {
    m.scheme == "bitcoin"@ && !amount_negative(m)
}

pub open spec fn plain_opt(v: Option<Seq<char>>) -> bool {
    match v {
        Some(s) => plain_chars(s),
        None => true,
    }
}

/// A request whose every textual part consists of plain characters; on such a
/// request the url crate keeps the encoder's text verbatim.
pub open spec fn plain_request(m: ReqModel) -> bool {
    &&& m.scheme == "bitcoin"@
    &&& plain_chars(m.address)
    &&& plain_opt(m.amount)
    &&& plain_opt(m.label)
    &&& plain_opt(m.message)
    &&& match m.extras {
        Some(es) => plain_pairs(es),
        None => true,
    }
}

proof fn lemma_upsert_all_plain(ps: Seq<(Seq<char>, Seq<char>)>, es: Seq<(Seq<char>, Seq<char>)>)
    requires
        plain_pairs(ps),
        plain_pairs(es),
    ensures
        plain_pairs(upsert_all(ps, es)),
    decreases es.len(),
{
    if es.len() > 0 {
        assert(plain_chars(es[0].0) && plain_chars(es[0].1));
        lemma_upsert_plain(ps, es[0].0, es[0].1);
        assert forall|i: int| 0 <= i < es.drop_first().len() implies plain_chars(
            #[trigger] es.drop_first()[i].0,
        ) && plain_chars(es.drop_first()[i].1) by {
            assert(es.drop_first()[i] == es[i + 1]);
        }
        lemma_upsert_all_plain(upsert(ps, es[0].0, es[0].1), es.drop_first());
    }
}

/// On a plain request every serialized pair is plain.
pub proof fn lemma_build_pairs_plain(m: ReqModel)
    requires
        plain_request(m),
    ensures
        plain_pairs(build_pairs(m)),
{
    reveal_strlit("amount");
    reveal_strlit("label");
    reveal_strlit("message");
    assert(plain_chars("amount"@));
    assert(plain_chars("label"@));
    assert(plain_chars("message"@));
    let p0 = Seq::<(Seq<char>, Seq<char>)>::empty();
    assert(plain_pairs(p0));
    let p1 = with_opt(p0, "amount"@, m.amount);
    if m.amount is Some {
        lemma_upsert_plain(p0, "amount"@, m.amount->Some_0);
    }
    let p2 = with_opt(p1, "label"@, m.label);
    if m.label is Some {
        lemma_upsert_plain(p1, "label"@, m.label->Some_0);
    }
    let p3 = with_opt(p2, "message"@, m.message);
    if m.message is Some {
        lemma_upsert_plain(p2, "message"@, m.message->Some_0);
    }
    if m.extras is Some {
        lemma_upsert_all_plain(p3, m.extras->Some_0);
    }
}

impl URIResources {
    /// Bare construction from the field values; nothing is validated here.
    pub fn new(
        urn_scheme: String,
        address: String,
        amount: Option<Amount>,
        label: Option<String>,
        message: Option<String>,
        params: Option<Vec<(String, String)>>,
    ) -> (r: URIResources)
        ensures
            r@ == (ReqModel {
                scheme: urn_scheme@,
                address: address@,
                amount: match amount {
                    Some(a) => Some(a@),
                    None => None,
                },
                label: match label {
                    Some(l) => Some(l@),
                    None => None,
                },
                message: match message {
                    Some(m) => Some(m@),
                    None => None,
                },
                extras: match params {
                    Some(ref p) => Some(p.deep_view()),
                    None => None,
                },
            }),
    {
        URIResources { urn_scheme, address, amount, label, message, params }
    }

    /// Serialize the request as a URI, or reject it: a scheme other than
    /// `bitcoin` as `InvalidUrnErr`, an amount below zero as
    /// `NegativeAmountErr`, and a base text the url crate does not accept as
    /// `UrlParseError` — exactly then, so success is owed whenever the url
    /// crate accepts the base. On plain input the output is exactly
    /// `built_plain`.
    pub fn build_uri(&self) -> (result: Result<String, Error>)
        requires
            request_text_len(self@) + 32 < 0x1000_0000,
        ensures
            match result {
                Ok(s) => proceeds(self@) && url_accepts(base_of(self@)) && s@ == (if build_pairs(
                    self@,
                ).len() == 0 {
                    url_norm(base_of(self@))
                } else {
                    url_with_params(base_of(self@), build_pairs(self@))
                }),
                Err(Error::InvalidUrnErr) => self@.scheme != "bitcoin"@,
                Err(Error::NegativeAmountErr) => self@.scheme == "bitcoin"@ && amount_negative(
                    self@,
                ),
                Err(Error::UrlParseError) => proceeds(self@) && !url_accepts(base_of(self@))
                    && !plain_request(self@),
                Err(Error::InvalidAmountErr) => false,
            },
            proceeds(self@) && plain_request(self@) ==> (result matches Ok(s) && s@ == built_plain(
                self@,
            )),
    {
        if !str_eq(self.urn_scheme.as_str(), "bitcoin") {
            return Err(Error::InvalidUrnErr);
        }
        let mut base = self.urn_scheme.clone();
        base.append(":");
        base.append(self.address.as_str());
        assert(base@ =~= base_of(self@));

        let mut pairs: Vec<(String, String)> = Vec::new();
        let ghost p0 = Seq::<(Seq<char>, Seq<char>)>::empty();
        proof {
            assert(pairs.deep_view() =~= p0);
        }
        match &self.amount {
            Some(a) => {
                if a.is_negative() {
                    return Err(Error::NegativeAmountErr);
                }
                upsert_exec(&mut pairs, String::from_str("amount"), String::from_str(
                    a.as_text(),
                ));
                proof {
                    assert(self@.amount == Some(a@));
                }
            },
            None => {},
        }
        assert(pairs.deep_view() == with_opt(p0, "amount"@, self@.amount));
        let ghost p1 = with_opt(p0, "amount"@, self@.amount);
        match &self.label {
            Some(l) => {
                upsert_exec(&mut pairs, String::from_str("label"), l.clone());
            },
            None => {},
        }
        assert(pairs.deep_view() == with_opt(p1, "label"@, self@.label));
        let ghost p2 = with_opt(p1, "label"@, self@.label);
        match &self.message {
            Some(msg) => {
                upsert_exec(&mut pairs, String::from_str("message"), msg.clone());
            },
            None => {},
        }
        assert(pairs.deep_view() == with_opt(p2, "message"@, self@.message));
        let ghost p3 = with_opt(p2, "message"@, self@.message);

        match &self.params {
            Some(ps) => {
                let ghost es = ps.deep_view();
                let n = ps.len();
                proof {
                    assert(es.subrange(0, n as int) =~= es);
                }
                let mut i: usize = 0;
                while i < n
                    invariant
                        i <= n,
                        n == ps.len(),
                        es == ps.deep_view(),
                        upsert_all(pairs.deep_view(), es.subrange(i as int, n as int)) == upsert_all(
                            p3,
                            es,
                        ),
                    decreases n - i,
                {
                    let ghost cur = pairs.deep_view();
                    let key = ps[i].0.clone();
                    let val = ps[i].1.clone();
                    proof {
                        assert(ps.deep_view()[i as int] == (ps@[i as int].0@, ps@[i as int].1@));
                    }
                    upsert_exec(&mut pairs, key, val);
                    proof {
                        let rem = es.subrange(i as int, n as int);
                        assert(rem[0] == es[i as int]);
                        assert(rem.drop_first() =~= es.subrange(i as int + 1, n as int));
                        assert(upsert_all(cur, rem) == upsert_all(
                            upsert(cur, es[i as int].0, es[i as int].1),
                            es.subrange(i as int + 1, n as int),
                        ));
                    }
                    i += 1;
                }
                proof {
                    assert(es.subrange(n as int, n as int) =~= Seq::<(Seq<char>, Seq<char>)>::empty());
                    assert(pairs.deep_view() == upsert_all(p3, es));
                }
            },
            None => {},
        }
        assert(pairs.deep_view() == build_pairs(self@));

        proof {
            reveal_strlit("bitcoin");
            reveal_strlit(":");
            assert(base@.len() == 8 + self@.address.len());
            lemma_build_pairs_text_len(self@);
            if plain_request(self@) {
                reveal_strlit("bitcoin:");
                assert(base@.subrange(0, 8) =~= "bitcoin:"@);
                assert(base@.subrange(8, base@.len() as int) =~= self@.address);
                assert(plain_base(base@));
                lemma_build_pairs_plain(self@);
            }
        }
        if pairs.len() == 0 {
            match url_parse_norm(base.as_str()) {
                Ok(s) => Ok(s),
                Err(_) => Err(Error::UrlParseError),
            }
        } else {
            match url_append_params(base.as_str(), &pairs) {
                Ok(s) => Ok(s),
                Err(_) => Err(Error::UrlParseError),
            }
        }
    }
}

} // verus!
