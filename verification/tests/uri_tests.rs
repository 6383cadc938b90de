use bitcoin_uri::parse;
use bitcoin_uri::parse_amount;
use bitcoin_uri::Amount;
use bitcoin_uri::Error;
use bitcoin_uri::URIResources;
use url::Url;

fn amt(text: &str) -> Amount {
    Amount::new(String::from(text)).unwrap()
}

fn extras(pairs: &[(&str, &str)]) -> Vec<(String, String)> {
    pairs.iter().map(|(k, v)| (String::from(*k), String::from(*v))).collect()
}

fn get<'a>(params: &'a [(String, String)], key: &str) -> Option<&'a str> {
    params.iter().find(|(k, _)| k == key).map(|(_, v)| v.as_str())
}

#[test]
fn test_build_uri() {
    let params = extras(&[("somethingyoudontunderstan", "50"), ("somethingelseyoudontget", "999")]);
    let uri = URIResources::new(
        String::from("bitcoin"),
        String::from("175tWpb8K1S7NmH4Zx6rewF9WQrcZv245W"),
        Some(amt("100")),
        Some(String::from("Luke-Jr")),
        Some(String::from("message")),
        Some(params),
    );
    let url = Url::parse(&uri.build_uri().unwrap()).unwrap();
    assert_eq!(url.scheme(), "bitcoin");
    assert_eq!(url.path(), "175tWpb8K1S7NmH4Zx6rewF9WQrcZv245W");
    assert_eq!(url.query_pairs().count(), 5);
}

#[test]
fn test_parse() {
    let p = parse(String::from("bitcoin:175tWpb8K1S7NmH4Zx6rewF9WQrcZv245W?amount=50&label=Luke-Jr&message=Donation for project&req-somethingelseyoudontget=999")).unwrap();
    assert_eq!(p.urn_scheme, String::from("bitcoin"));
    assert_eq!(p.address, String::from("175tWpb8K1S7NmH4Zx6rewF9WQrcZv245W"));
    assert_eq!(p.amount.as_ref().unwrap().as_text(), "50");
    assert_eq!(p.label, Some(String::from("Luke-Jr")));
    assert_eq!(p.message, Some(String::from("Donation for project")));
    assert_eq!(
        get(p.params.as_ref().unwrap(), "req-somethingelseyoudontget"),
        Some("999")
    );
}

#[test]
fn round_trip_full_request() {
    let uri = URIResources::new(
        String::from("bitcoin"),
        String::from("175tWpb8K1S7NmH4Zx6rewF9WQrcZv245W"),
        Some(amt("0.5")),
        Some(String::from("Luke-Jr")),
        Some(String::from("thanks")),
        Some(extras(&[("ref", "42"), ("tag", "x_1")])),
    );
    let text = uri.build_uri().unwrap();
    let back = parse(text).unwrap();
    assert_eq!(back.urn_scheme, "bitcoin");
    assert_eq!(back.address, "175tWpb8K1S7NmH4Zx6rewF9WQrcZv245W");
    assert_eq!(back.amount.as_ref().unwrap().as_text(), "0.5");
    assert_eq!(back.label, Some(String::from("Luke-Jr")));
    assert_eq!(back.message, Some(String::from("thanks")));
    let params = back.params.unwrap();
    assert_eq!(params.len(), 2);
    assert_eq!(get(&params, "ref"), Some("42"));
    assert_eq!(get(&params, "tag"), Some("x_1"));
}

#[test]
fn round_trip_bare_request() {
    let uri = URIResources::new(String::from("bitcoin"), String::from("addr1"), None, None, None, None);
    let text = uri.build_uri().unwrap();
    assert_eq!(text, "bitcoin:addr1");
    let back = parse(text).unwrap();
    assert_eq!(back.address, "addr1");
    assert!(back.amount.is_none());
    assert!(back.label.is_none());
    assert!(back.message.is_none());
    assert_eq!(back.params, Some(Vec::new()));
}

#[test]
fn build_exact_output() {
    let uri = URIResources::new(
        String::from("bitcoin"),
        String::from("addr1"),
        Some(amt("50")),
        Some(String::from("Luke-Jr")),
        None,
        None,
    );
    assert_eq!(uri.build_uri().unwrap(), "bitcoin:addr1?amount=50&label=Luke-Jr");
}

#[test]
fn build_rejects_other_scheme() {
    let uri = URIResources::new(String::from("ethereum"), String::from("0xabc"), None, None, None, None);
    assert_eq!(uri.build_uri(), Err(Error::InvalidUrnErr));
}

#[test]
fn parse_rejects_other_scheme() {
    assert!(matches!(parse(String::from("ethereum:0xabc")), Err(Error::InvalidUrnErr)));
}

#[test]
fn parse_rejects_missing_or_extra_colon() {
    assert!(matches!(parse(String::from("bitcoin")), Err(Error::InvalidUrnErr)));
    assert!(matches!(parse(String::from("bitcoin:a:b")), Err(Error::InvalidUrnErr)));
}

#[test]
fn build_rejects_negative_amount() {
    let uri = URIResources::new(
        String::from("bitcoin"),
        String::from("addr1"),
        Some(amt("-1")),
        None,
        None,
        None,
    );
    assert_eq!(uri.build_uri(), Err(Error::NegativeAmountErr));
}

#[test]
fn parse_rejects_negative_amount() {
    assert!(matches!(
        parse(String::from("bitcoin:ADDR?amount=-1")),
        Err(Error::NegativeAmountErr)
    ));
}

#[test]
fn parse_rejects_non_numeric_amount() {
    assert!(matches!(
        parse(String::from("bitcoin:ADDR?amount=abc")),
        Err(Error::InvalidAmountErr)
    ));
}

#[test]
fn parse_skips_malformed_tokens() {
    let p = parse(String::from("bitcoin:ADDR?amount=50&garbage&label=X")).unwrap();
    assert_eq!(p.amount.as_ref().unwrap().as_text(), "50");
    assert_eq!(p.label, Some(String::from("X")));
    assert_eq!(p.params, Some(Vec::new()));
}

#[test]
fn extras_override_named_amount() {
    let uri = URIResources::new(
        String::from("bitcoin"),
        String::from("addr1"),
        Some(amt("1")),
        None,
        None,
        Some(extras(&[("amount", "999")])),
    );
    assert_eq!(uri.build_uri().unwrap(), "bitcoin:addr1?amount=999");
}

#[test]
fn later_duplicate_key_wins_on_parse() {
    let p = parse(String::from("bitcoin:A?x=1&x=2")).unwrap();
    assert_eq!(get(p.params.as_ref().unwrap(), "x"), Some("2"));
    assert_eq!(p.params.as_ref().unwrap().len(), 1);
}

#[test]
fn query_values_are_percent_encoded_on_build() {
    let uri = URIResources::new(
        String::from("bitcoin"),
        String::from("addr1"),
        None,
        Some(String::from("Donation for project")),
        None,
        None,
    );
    assert_eq!(uri.build_uri().unwrap(), "bitcoin:addr1?label=Donation+for+project");
}

#[test]
fn build_reports_url_syntax_failure() {
    let uri = URIResources::new(String::from("bitcoin"), String::from("//["), None, None, None, None);
    assert_eq!(uri.build_uri(), Err(Error::UrlParseError));
}

#[test]
fn address_with_reserved_characters_is_lossy() {
    // The address is neither percent-encoded on build nor decoded on parse, so
    // a `?` inside it is read back as the start of the query.
    let uri = URIResources::new(String::from("bitcoin"), String::from("pay?x"), None, None, None, None);
    let text = uri.build_uri().unwrap();
    assert_eq!(text, "bitcoin:pay?x");
    let back = parse(text).unwrap();
    assert_eq!(back.address, "pay");
    assert_eq!(back.params, Some(Vec::new()));
}

#[test]
fn hash_in_address_becomes_fragment_after_query() {
    // A `#` in the address is read by the url crate as a fragment start; the
    // query pairs are inserted before it and the fragment is restored after.
    let uri = URIResources::new(
        String::from("bitcoin"),
        String::from("a#b"),
        None,
        Some(String::from("x")),
        None,
        None,
    );
    assert_eq!(uri.build_uri().unwrap(), "bitcoin:a?label=x#b");
}

#[test]
fn parse_empty_query_is_empty_mapping() {
    let p = parse(String::from("bitcoin:ADDR?")).unwrap();
    assert_eq!(p.address, "ADDR");
    assert_eq!(p.params, Some(Vec::new()));
}

#[test]
fn amount_text_validation() {
    assert!(Amount::new(String::from("50")).is_some());
    assert!(Amount::new(String::from("0.5")).is_some());
    assert!(Amount::new(String::from("-1")).is_some());
    assert!(Amount::new(String::from("1.")).is_some());
    assert!(Amount::new(String::from(".5")).is_some());
    assert!(Amount::new(String::from("1e3")).is_some());
    assert!(Amount::new(String::from("2.5E-7")).is_some());
    assert!(Amount::new(String::from("+.5e+2")).is_some());
    assert!(Amount::new(String::from("abc")).is_none());
    assert!(Amount::new(String::from("")).is_none());
    assert!(Amount::new(String::from(".")).is_none());
    assert!(Amount::new(String::from("1e")).is_none());
    assert!(Amount::new(String::from("1e+")).is_none());
    assert!(Amount::new(String::from("e3")).is_none());
    assert!(Amount::new(String::from("1.2.3")).is_none());
    assert!(Amount::new(String::from("1e3e4")).is_none());
    assert!(Amount::new(String::from("inf")).is_none());
    assert!(Amount::new(String::from("NaN")).is_none());
    assert!(amt("-1").is_negative());
    assert!(amt("-1e9").is_negative());
    assert!(amt("-.01").is_negative());
    assert!(!amt("-0.0").is_negative());
    assert!(!amt("-0e9").is_negative());
    assert!(!amt("0.5").is_negative());
}

#[test]
fn asterisk_passes_through_unencoded() {
    let uri = URIResources::new(
        String::from("bitcoin"),
        String::from("addr1"),
        None,
        Some(String::from("a*b")),
        None,
        None,
    );
    let text = uri.build_uri().unwrap();
    assert_eq!(text, "bitcoin:addr1?label=a*b");
    let back = parse(text).unwrap();
    assert_eq!(back.label, Some(String::from("a*b")));
}

#[test]
fn parse_accepts_exponent_amount() {
    let p = parse(String::from("bitcoin:ADDR?amount=1e3")).unwrap();
    assert_eq!(p.amount.as_ref().unwrap().as_text(), "1e3");
    assert!(matches!(
        parse(String::from("bitcoin:ADDR?amount=-1e3")),
        Err(Error::NegativeAmountErr)
    ));
}

#[test]
fn parse_helpers_work_directly() {
    let addr = bitcoin_uri::parse_address("bitcoin:abc?x=1", "bitcoin");
    assert_eq!(addr, "abc");
    let ps = bitcoin_uri::parse_params("bitcoin:abc?x=1&y=2", "bitcoin", "abc");
    assert_eq!(ps, extras(&[("x", "1"), ("y", "2")]));
    let none = bitcoin_uri::parse_params("bitcoin:abc", "bitcoin", "abc");
    assert_eq!(none, Vec::new());
}

#[test]
fn scheme_match_is_case_sensitive() {
    assert!(matches!(parse(String::from("Bitcoin:ADDR")), Err(Error::InvalidUrnErr)));
    let uri = URIResources::new(String::from("Bitcoin"), String::from("ADDR"), None, None, None, None);
    assert_eq!(uri.build_uri(), Err(Error::InvalidUrnErr));
}

#[test]
fn negative_zero_amount_is_not_negative() {
    let uri = URIResources::new(
        String::from("bitcoin"),
        String::from("addr1"),
        Some(amt("-0.0")),
        None,
        None,
        None,
    );
    assert_eq!(uri.build_uri().unwrap(), "bitcoin:addr1?amount=-0.0");
    let p = parse(String::from("bitcoin:addr1?amount=-0.0")).unwrap();
    assert_eq!(p.amount.as_ref().unwrap().as_text(), "-0.0");
}

#[test]
fn parse_amount_error_split() {
    assert!(matches!(parse_amount("abc"), Err(Error::InvalidAmountErr)));
    assert!(matches!(parse_amount("-2"), Err(Error::NegativeAmountErr)));
    assert_eq!(parse_amount("2.25").unwrap().as_text(), "2.25");
}
