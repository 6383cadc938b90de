//! Laws relating the encoder and the decoder.

use vstd::prelude::*;

use crate::amount::spec_is_negative;
use crate::amount::spec_is_numeric;
use crate::decode::parse_outcome;
use crate::decode::scheme_ok;
use crate::decode::spec_address;
use crate::decode::spec_raw_params;
use crate::params::distinct_keys;
use crate::params::lemma_lookup_absent;
use crate::params::lemma_lookup_append;
use crate::params::lemma_raw_params_clean;
use crate::params::lemma_remove_key_absent;
use crate::params::lemma_remove_key_append;
use crate::params::lemma_upsert_push;
use crate::params::lookup;
use crate::params::plain_pairs;
use crate::params::remove_key;
use crate::params::upsert;
use crate::request::Error;
use crate::request::ReqModel;
use crate::request::build_pairs;
use crate::request::built_plain;
use crate::request::plain_request;
use crate::request::upsert_all;
use crate::request::with_opt;
use crate::strkit::join_pairs;
use crate::strkit::lacks;
use crate::strkit::lemma_find_first_absent;
use crate::strkit::lemma_find_first_is;
use crate::strkit::lemma_join_lacks;
use crate::strkit::lemma_join_pairs_len;
use crate::strkit::lemma_plain_lacks;
use crate::strkit::lemma_split_concat;
use crate::strkit::lemma_split_join;
use crate::strkit::lemma_split_on_none;
use crate::strkit::plain_chars;

verus! {

/// The singleton entry a present optional field contributes, or nothing.
pub open spec fn opt_entry(k: Seq<char>, v: Option<Seq<char>>) -> Seq<(Seq<char>, Seq<char>)> {
    match v {
        Some(x) => seq![(k, x)],
        None => Seq::empty(),
    }
}

/// The extra parameters, an empty sequence standing in for an absent mapping.
pub open spec fn extras_seq(m: ReqModel) -> Seq<(Seq<char>, Seq<char>)> {
    match m.extras {
        Some(es) => es,
        None => Seq::empty(),
    }
}

/// The request as the decoder reconstructs it: identical, except that an
/// absent extra-parameter mapping comes back as an empty one.
pub open spec fn normalize_extras(m: ReqModel) -> ReqModel {
    ReqModel {
        scheme: m.scheme,
        address: m.address,
        amount: m.amount,
        label: m.label,
        message: m.message,
        extras: Some(extras_seq(m)),
    }
}

/// A request the encoder serializes verbatim and the decoder can read back
/// whole: plain characters throughout, a numeric non-negative amount, and
/// extra parameters with distinct keys, none of them a reserved key.
pub open spec fn round_trippable(m: ReqModel) -> bool {
    &&& plain_request(m)
    &&& match m.amount {
        Some(a) => spec_is_numeric(a) && !spec_is_negative(a),
        None => true,
    }
    &&& distinct_keys(extras_seq(m))
    &&& forall|i: int|
        0 <= i < extras_seq(m).len() ==> (#[trigger] extras_seq(m)[i]).0 != "amount"@ && extras_seq(
            m,
        )[i].0 != "label"@ && extras_seq(m)[i].0 != "message"@
}

proof fn lemma_opt_entry_lookup(k: Seq<char>, v: Option<Seq<char>>, k2: Seq<char>)
    ensures
        lookup(opt_entry(k, v), k2) == (match v {
            Some(x) => if k == k2 {
                Some(x)
            } else {
                None::<Seq<char>>
            },
            None => None::<Seq<char>>,
        }),
{
    match v {
        Some(x) => {
            let s = seq![(k, x)];
            if k != k2 {
                assert(s.drop_first() =~= Seq::<(Seq<char>, Seq<char>)>::empty());
                assert(lookup(s.drop_first(), k2) == None::<Seq<char>>);
            }
        },
        None => {
            assert(opt_entry(k, v) =~= Seq::<(Seq<char>, Seq<char>)>::empty());
        },
    }
}

proof fn lemma_upsert_all_pushes(
    ps: Seq<(Seq<char>, Seq<char>)>,
    es: Seq<(Seq<char>, Seq<char>)>,
)
    requires
        distinct_keys(es),
        forall|i: int, j: int|
            0 <= i < es.len() && 0 <= j < ps.len() ==> (#[trigger] ps[j]).0 != (#[trigger] es[i]).0,
    ensures
        upsert_all(ps, es) == ps + es,
    decreases es.len(),
{
    if es.len() == 0 {
        assert(ps + es =~= ps);
    } else {
        assert forall|j: int| 0 <= j < ps.len() implies (#[trigger] ps[j]).0 != es[0].0 by {}
        lemma_upsert_push(ps, es[0].0, es[0].1);
        let ps1 = ps.push((es[0].0, es[0].1));
        assert(ps1 =~= ps.push(es[0]));
        let rest = es.drop_first();
        assert forall|i: int, j: int|
            0 <= i < rest.len() && 0 <= j < ps1.len() implies (#[trigger] ps1[j]).0
            != (#[trigger] rest[i]).0 by {
            assert(rest[i] == es[i + 1]);
            if j < ps.len() {
                assert(ps1[j] == ps[j]);
            } else {
                assert(ps1[j] == es[0]);
            }
        }
        assert forall|i: int, j: int| 0 <= i < j < rest.len() implies rest[i].0 != rest[j].0 by {
            assert(rest[i] == es[i + 1]);
            assert(rest[j] == es[j + 1]);
        }
        lemma_upsert_all_pushes(ps1, rest);
        assert(ps1 + rest =~= ps + es);
    }
}

proof fn lemma_lookup_upsert_same(ps: Seq<(Seq<char>, Seq<char>)>, k: Seq<char>, v: Seq<char>)
    ensures
        lookup(upsert(ps, k, v), k) == Some(v),
    decreases ps.len(),
{
    if ps.len() == 0 {
    } else if ps[0].0 == k {
    } else {
        lemma_lookup_upsert_same(ps.drop_first(), k, v);
        assert((seq![ps[0]] + upsert(ps.drop_first(), k, v)).drop_first() =~= upsert(
            ps.drop_first(),
            k,
            v,
        ));
    }
}

proof fn lemma_lookup_upsert_other(
    ps: Seq<(Seq<char>, Seq<char>)>,
    k: Seq<char>,
    v: Seq<char>,
    k2: Seq<char>,
)
    requires
        k2 != k,
    ensures
        lookup(upsert(ps, k, v), k2) == lookup(ps, k2),
    decreases ps.len(),
{
    if ps.len() == 0 {
        assert((seq![(k, v)]).drop_first() =~= Seq::<(Seq<char>, Seq<char>)>::empty());
        assert(lookup(Seq::<(Seq<char>, Seq<char>)>::empty(), k2) == None::<Seq<char>>);
    } else if ps[0].0 == k {
        assert((seq![(k, v)] + ps.drop_first()).drop_first() =~= ps.drop_first());
    } else {
        lemma_lookup_upsert_other(ps.drop_first(), k, v, k2);
        assert((seq![ps[0]] + upsert(ps.drop_first(), k, v)).drop_first() =~= upsert(
            ps.drop_first(),
            k,
            v,
        ));
    }
}

proof fn lemma_lookup_upsert_all(
    ps: Seq<(Seq<char>, Seq<char>)>,
    es: Seq<(Seq<char>, Seq<char>)>,
    k: Seq<char>,
)
    requires
        distinct_keys(es),
    ensures
        lookup(upsert_all(ps, es), k) == (if lookup(es, k) is Some {
            lookup(es, k)
        } else {
            lookup(ps, k)
        }),
    decreases es.len(),
{
    if es.len() > 0 {
        let k0 = es[0].0;
        let v0 = es[0].1;
        let ps1 = upsert(ps, k0, v0);
        let rest = es.drop_first();
        assert forall|i: int, j: int| 0 <= i < j < rest.len() implies rest[i].0 != rest[j].0 by {
            assert(rest[i] == es[i + 1]);
            assert(rest[j] == es[j + 1]);
        }
        lemma_lookup_upsert_all(ps1, rest, k);
        if k == k0 {
            assert forall|i: int| 0 <= i < rest.len() implies (#[trigger] rest[i]).0 != k by {
                assert(rest[i] == es[i + 1]);
            }
            lemma_lookup_absent(rest, k);
            lemma_lookup_upsert_same(ps, k0, v0);
        } else {
            lemma_lookup_upsert_other(ps, k0, v0, k);
        }
    }
}

/// Law: an extra parameter always wins. Whatever key the extras carry, the
/// serialized query maps it to the extras' value, named field or not.
pub proof fn lemma_extras_win(m: ReqModel, k: Seq<char>)
    requires
        distinct_keys(extras_seq(m)),
        lookup(extras_seq(m), k) is Some,
    ensures
        lookup(build_pairs(m), k) == lookup(extras_seq(m), k),
{
    let e = extras_seq(m);
    if m.extras is None {
        assert(e.len() == 0);
    }
    let p = with_opt(
        with_opt(with_opt(Seq::empty(), "amount"@, m.amount), "label"@, m.label),
        "message"@,
        m.message,
    );
    lemma_lookup_upsert_all(p, e, k);
}

/// The serialized pairs of a round-trippable request are its named entries in
/// order, then its extras.
proof fn lemma_build_pairs_shape(m: ReqModel)
    requires
        round_trippable(m),
    ensures
        build_pairs(m) == opt_entry("amount"@, m.amount) + opt_entry("label"@, m.label) + opt_entry(
            "message"@,
            m.message,
        ) + extras_seq(m),
{
    reveal_strlit("amount");
    reveal_strlit("label");
    reveal_strlit("message");
    assert("amount"@.len() == 6 && "label"@.len() == 5 && "message"@.len() == 7);
    let a = opt_entry("amount"@, m.amount);
    let b = opt_entry("label"@, m.label);
    let c = opt_entry("message"@, m.message);
    let e = extras_seq(m);
    let p0 = Seq::<(Seq<char>, Seq<char>)>::empty();
    let p1 = with_opt(p0, "amount"@, m.amount);
    assert(p1 =~= a);
    let p2 = with_opt(p1, "label"@, m.label);
    if m.label is Some {
        assert forall|j: int| 0 <= j < p1.len() implies (#[trigger] p1[j]).0 != "label"@ by {
            assert(p1[j].0 == "amount"@);
        }
        lemma_upsert_push(p1, "label"@, m.label->Some_0);
    }
    assert(p2 =~= a + b);
    let p3 = with_opt(p2, "message"@, m.message);
    if m.message is Some {
        assert forall|j: int| 0 <= j < p2.len() implies (#[trigger] p2[j]).0 != "message"@ by {
            if j < a.len() {
                assert(p2[j].0 == "amount"@);
            } else {
                assert(p2[j].0 == "label"@);
            }
        }
        lemma_upsert_push(p2, "message"@, m.message->Some_0);
    }
    assert(p3 =~= a + b + c);
    if m.extras is Some {
        assert forall|i: int, j: int|
            0 <= i < e.len() && 0 <= j < p3.len() implies (#[trigger] p3[j]).0
            != (#[trigger] e[i]).0 by {
            if j < a.len() {
                assert(p3[j].0 == "amount"@);
            } else if j < a.len() + b.len() {
                assert(p3[j].0 == "label"@);
            } else {
                assert(p3[j].0 == "message"@);
            }
        }
        lemma_upsert_all_pushes(p3, e);
        assert(build_pairs(m) =~= a + b + c + e);
    } else {
        assert(e =~= Seq::<(Seq<char>, Seq<char>)>::empty());
        assert(build_pairs(m) =~= a + b + c + e);
    }
}

/// Decoding what the encoder wrote for a round-trippable request yields the
/// request back, with an absent extras mapping normalized to an empty one.
pub proof fn lemma_round_trip(m: ReqModel)
    requires
        round_trippable(m),
    ensures
        parse_outcome(built_plain(m)) == Ok::<ReqModel, Error>(normalize_extras(m)),
{
    reveal_strlit("bitcoin");
    reveal_strlit("bitcoin:");
    reveal_strlit(":");
    reveal_strlit("?");
    reveal_strlit("amount");
    reveal_strlit("label");
    reveal_strlit("message");
    let a = opt_entry("amount"@, m.amount);
    let b = opt_entry("label"@, m.label);
    let c = opt_entry("message"@, m.message);
    let e = extras_seq(m);
    let pairs = build_pairs(m);
    lemma_build_pairs_shape(m);
    let na = a.len() as int;
    let nb = b.len() as int;
    let nc = c.len() as int;
    let base_e = na + nb + nc;
    assert(pairs.len() == base_e + e.len());
    assert forall|i: int| 0 <= i < pairs.len() implies ((i < na ==> pairs[i] == a[0]) && (na <= i
        < na + nb ==> pairs[i] == b[0]) && (na + nb <= i < base_e ==> pairs[i] == c[0]) && (base_e
        <= i ==> pairs[i] == e[i - base_e])) by {}
    assert(na == 1 ==> a[0].0 == "amount"@);
    assert(nb == 1 ==> b[0].0 == "label"@);
    assert(nc == 1 ==> c[0].0 == "message"@);
    assert("amount"@.len() == 6 && "label"@.len() == 5 && "message"@.len() == 7);
    assert(distinct_keys(pairs)) by {
        assert forall|i: int, j: int| 0 <= i < j < pairs.len() implies pairs[i].0 != pairs[j].0 by {
            if base_e <= i {
                assert(pairs[i] == e[i - base_e] && pairs[j] == e[j - base_e]);
            } else if base_e <= j {
                assert(pairs[j] == e[j - base_e]);
            }
        }
    }
    // every key and value is plain, hence free of the structural characters
    crate::request::lemma_build_pairs_plain(m);
    assert forall|i: int| 0 <= i < pairs.len() implies lacks(#[trigger] pairs[i].0, '&') && lacks(
        pairs[i].1,
        '&',
    ) && lacks(pairs[i].0, '=') && lacks(pairs[i].1, '=') && lacks(pairs[i].0, ':') && lacks(
        pairs[i].1,
        ':',
    ) && lacks(pairs[i].0, '?') && lacks(pairs[i].1, '?') by {
        assert(plain_chars(pairs[i].0) && plain_chars(pairs[i].1));
        lemma_plain_lacks(pairs[i].0, '&');
        lemma_plain_lacks(pairs[i].1, '&');
        lemma_plain_lacks(pairs[i].0, '=');
        lemma_plain_lacks(pairs[i].1, '=');
        lemma_plain_lacks(pairs[i].0, ':');
        lemma_plain_lacks(pairs[i].1, ':');
        lemma_plain_lacks(pairs[i].0, '?');
        lemma_plain_lacks(pairs[i].1, '?');
    }
    let addr = m.address;
    lemma_plain_lacks(addr, ':');
    lemma_plain_lacks(addr, '?');
    lemma_plain_lacks(addr, '&');
    lemma_plain_lacks(addr, '=');
    assert(lacks("bitcoin"@, ':'));
    assert(lacks("bitcoin"@, '?'));
    let built = built_plain(m);
    let s = built;

    if pairs.len() == 0 {
        assert(na == 0 && nb == 0 && nc == 0 && e.len() == 0);
        assert(m.amount is None && m.label is None && m.message is None);
        assert(s =~= "bitcoin"@ + seq![':'] + addr);
        // scheme
        lemma_split_on_none(addr, ':');
        lemma_split_concat("bitcoin"@, addr, ':');
        assert(scheme_ok(s));
        // address: no `?` anywhere
        assert forall|j: int| 0 <= j < s.len() implies s[j] != '?' by {
            if j < 7 {
                assert(s[j] == "bitcoin"@[j]);
            } else if j == 7 {
                assert(s[j] == ':');
            } else {
                assert(s[j] == addr[j - 8]);
            }
        }
        lemma_find_first_absent(s, '?');
        assert(spec_address(s, "bitcoin"@) =~= addr);
        // query: none
        let raw = spec_raw_params(s, "bitcoin"@, addr);
        assert(s.len() < "bitcoin"@.len() + addr.len() + 2);
        assert(raw =~= Seq::<(Seq<char>, Seq<char>)>::empty());
        lemma_lookup_absent(raw, "amount"@);
        lemma_lookup_absent(raw, "label"@);
        lemma_lookup_absent(raw, "message"@);
        lemma_remove_key_absent(raw, "amount"@);
        lemma_remove_key_absent(raw, "label"@);
        lemma_remove_key_absent(raw, "message"@);
        assert(parse_outcome(s) == Ok::<ReqModel, Error>(normalize_extras(m)));
    } else {
        let join = join_pairs(pairs);
        lemma_join_pairs_len(pairs);
        lemma_join_lacks(pairs, ':');
        lemma_join_lacks(pairs, '?');
        let tail = addr + seq!['?'] + join;
        assert(s =~= "bitcoin"@ + seq![':'] + tail);
        // scheme
        assert forall|j: int| 0 <= j < tail.len() implies tail[j] != ':' by {
            if j < addr.len() {
                assert(tail[j] == addr[j]);
            } else if j == addr.len() {
                assert(tail[j] == '?');
            } else {
                assert(tail[j] == join[j - addr.len() - 1]);
            }
        }
        lemma_split_on_none(tail, ':');
        lemma_split_concat("bitcoin"@, tail, ':');
        assert(scheme_ok(s));
        // the first `?` sits right after the address
        let fq = 8 + addr.len() as int;
        assert(s[fq] == '?');
        assert forall|j: int| 0 <= j < fq implies s[j] != '?' by {
            if j < 7 {
                assert(s[j] == "bitcoin"@[j]);
            } else if j == 7 {
                assert(s[j] == ':');
            } else {
                assert(s[j] == addr[j - 8]);
            }
        }
        lemma_find_first_is(s, '?', fq);
        assert(spec_address(s, "bitcoin"@) =~= addr);
        // the query part is exactly the joined pairs
        let idx = "bitcoin"@.len() + addr.len() + 2;
        assert(s.len() == fq + 1 + join.len());
        assert(s.len() >= idx);
        assert(s.subrange(idx as int, s.len() as int) =~= join);
        let raw = spec_raw_params(s, "bitcoin"@, addr);
        lemma_split_join(pairs);
        lemma_raw_params_clean(Seq::empty(), pairs);
        assert(Seq::<(Seq<char>, Seq<char>)>::empty() + pairs =~= pairs);
        assert(raw == pairs);
        // lookups find the named fields, removals leave the extras
        let r3 = c + e;
        let r2 = b + r3;
        assert(pairs =~= a + r2);
        lemma_lookup_append(a, r2, "amount"@);
        lemma_lookup_append(b, r3, "amount"@);
        lemma_lookup_append(c, e, "amount"@);
        lemma_lookup_append(a, r2, "label"@);
        lemma_lookup_append(b, r3, "label"@);
        lemma_lookup_append(c, e, "label"@);
        lemma_lookup_append(a, r2, "message"@);
        lemma_lookup_append(b, r3, "message"@);
        lemma_lookup_append(c, e, "message"@);
        assert forall|i: int| 0 <= i < e.len() implies (#[trigger] e[i]).0 != "amount"@ && e[i].0
            != "label"@ && e[i].0 != "message"@ by {}
        lemma_lookup_absent(e, "amount"@);
        lemma_lookup_absent(e, "label"@);
        lemma_lookup_absent(e, "message"@);
        lemma_opt_entry_lookup("amount"@, m.amount, "amount"@);
        lemma_opt_entry_lookup("label"@, m.label, "amount"@);
        lemma_opt_entry_lookup("message"@, m.message, "amount"@);
        lemma_opt_entry_lookup("amount"@, m.amount, "label"@);
        lemma_opt_entry_lookup("label"@, m.label, "label"@);
        lemma_opt_entry_lookup("message"@, m.message, "label"@);
        lemma_opt_entry_lookup("amount"@, m.amount, "message"@);
        lemma_opt_entry_lookup("label"@, m.label, "message"@);
        lemma_opt_entry_lookup("message"@, m.message, "message"@);
        assert(lookup(raw, "amount"@) == m.amount);
        assert(lookup(raw, "label"@) == m.label);
        assert(lookup(raw, "message"@) == m.message);
        lemma_remove_key_append(a, r2, "amount"@);
        if m.amount is Some {
            assert(remove_key(a, "amount"@) =~= Seq::<(Seq<char>, Seq<char>)>::empty());
            assert(remove_key(a, "amount"@) + r2 =~= r2);
        } else {
            assert(a + remove_key(r2, "amount"@) =~= remove_key(r2, "amount"@));
            lemma_remove_key_append(b, r3, "amount"@);
            lemma_remove_key_append(c, e, "amount"@);
            lemma_remove_key_absent(e, "amount"@);
            assert(b + (c + e) =~= r2);
        }
        assert(remove_key(raw, "amount"@) == r2);
        lemma_remove_key_append(b, r3, "label"@);
        if m.label is Some {
            assert(remove_key(b, "label"@) =~= Seq::<(Seq<char>, Seq<char>)>::empty());
            assert(remove_key(b, "label"@) + r3 =~= r3);
        } else {
            assert(b + remove_key(r3, "label"@) =~= remove_key(r3, "label"@));
            lemma_remove_key_append(c, e, "label"@);
            lemma_remove_key_absent(e, "label"@);
            assert(c + e =~= r3);
        }
        assert(remove_key(r2, "label"@) == r3);
        lemma_remove_key_append(c, e, "message"@);
        if m.message is Some {
            assert(remove_key(c, "message"@) =~= Seq::<(Seq<char>, Seq<char>)>::empty());
            assert(remove_key(c, "message"@) + e =~= e);
        } else {
            assert(c + remove_key(e, "message"@) =~= remove_key(e, "message"@));
            lemma_remove_key_absent(e, "message"@);
        }
        lemma_remove_key_absent(e, "message"@);
        assert(remove_key(r3, "message"@) == e);
        assert(parse_outcome(s) == Ok::<ReqModel, Error>(normalize_extras(m)));
    }
}

} // verus!
