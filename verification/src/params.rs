//! Query parameters as an association list of key/value pairs: the
//! mathematical model (`lookup`, `upsert`, `remove_key`, `raw_params`) and the
//! executable operations on `Vec<(String, String)>` proved against it.

use vstd::prelude::*;
use vstd::pervasive::VecAdditionalExecFns;

use crate::strkit::split_on;
use crate::strkit::str_eq;
use crate::strkit::token_of;
use crate::strkit::lacks;
use crate::strkit::plain_chars;
use crate::strkit::lemma_split_token;

verus! {

/// Value of the first entry with key `k`, if any.
pub open spec fn lookup(ps: Seq<(Seq<char>, Seq<char>)>, k: Seq<char>) -> Option<Seq<char>>
    decreases ps.len(),
{
    if ps.len() == 0 {
        None
    } else if ps[0].0 == k {
        Some(ps[0].1)
    } else {
        lookup(ps.drop_first(), k)
    }
}

/// Replace the value of the first entry with key `k`, or append a new entry.
pub open spec fn upsert(ps: Seq<(Seq<char>, Seq<char>)>, k: Seq<char>, v: Seq<char>) -> Seq<
    (Seq<char>, Seq<char>),
>
    decreases ps.len(),
{
    if ps.len() == 0 {
        seq![(k, v)]
    } else if ps[0].0 == k {
        seq![(k, v)] + ps.drop_first()
    } else {
        seq![ps[0]] + upsert(ps.drop_first(), k, v)
    }
}

/// Drop the first entry with key `k`, if any.
pub open spec fn remove_key(ps: Seq<(Seq<char>, Seq<char>)>, k: Seq<char>) -> Seq<
    (Seq<char>, Seq<char>),
>
    decreases ps.len(),
{
    if ps.len() == 0 {
        Seq::empty()
    } else if ps[0].0 == k {
        ps.drop_first()
    } else {
        seq![ps[0]] + remove_key(ps.drop_first(), k)
    }
}

/// No two entries share a key.
pub open spec fn distinct_keys(ps: Seq<(Seq<char>, Seq<char>)>) -> bool {
    forall|i: int, j: int| 0 <= i < j < ps.len() ==> ps[i].0 != ps[j].0
}

/// Combined text length of the pairs, with two characters of separators per
/// entry: what bounds the length of their serialized form.
pub open spec fn pairs_text_len(ps: Seq<(Seq<char>, Seq<char>)>) -> int
    decreases ps.len(),
{
    if ps.len() == 0 {
        0
    } else {
        ps[0].0.len() + ps[0].1.len() + 2 + pairs_text_len(ps.drop_first())
    }
}

/// An upsert grows the combined text length by at most the new entry's own.
pub proof fn lemma_upsert_text_len(ps: Seq<(Seq<char>, Seq<char>)>, k: Seq<char>, v: Seq<char>)
    ensures
        pairs_text_len(upsert(ps, k, v)) <= pairs_text_len(ps) + k.len() + v.len() + 2,
    decreases ps.len(),
{
    if ps.len() == 0 {
        let r = seq![(k, v)];
        assert(r[0] == (k, v));
        assert(r.drop_first() =~= Seq::<(Seq<char>, Seq<char>)>::empty());
        assert(pairs_text_len(r.drop_first()) == 0);
        assert(pairs_text_len(r) == k.len() + v.len() + 2);
    } else if ps[0].0 == k {
        let r = seq![(k, v)] + ps.drop_first();
        assert(r[0] == (k, v));
        assert(r.drop_first() =~= ps.drop_first());
        assert(pairs_text_len(r) == k.len() + v.len() + 2 + pairs_text_len(ps.drop_first()));
        assert(pairs_text_len(ps) == ps[0].0.len() + ps[0].1.len() + 2 + pairs_text_len(
            ps.drop_first(),
        ));
    } else {
        lemma_upsert_text_len(ps.drop_first(), k, v);
        let r = seq![ps[0]] + upsert(ps.drop_first(), k, v);
        assert(r[0] == ps[0]);
        assert(r.drop_first() =~= upsert(ps.drop_first(), k, v));
        assert(pairs_text_len(r) == ps[0].0.len() + ps[0].1.len() + 2 + pairs_text_len(
            upsert(ps.drop_first(), k, v),
        ));
        assert(pairs_text_len(ps) == ps[0].0.len() + ps[0].1.len() + 2 + pairs_text_len(
            ps.drop_first(),
        ));
    }
}

/// Every key and every value consists of plain characters only.
pub open spec fn plain_pairs(ps: Seq<(Seq<char>, Seq<char>)>) -> bool {
    forall|i: int|
        0 <= i < ps.len() ==> plain_chars(#[trigger] ps[i].0) && plain_chars(ps[i].1)
}

pub proof fn lemma_upsert_plain(ps: Seq<(Seq<char>, Seq<char>)>, k: Seq<char>, v: Seq<char>)
    requires
        plain_pairs(ps),
        plain_chars(k),
        plain_chars(v),
    ensures
        plain_pairs(upsert(ps, k, v)),
    decreases ps.len(),
{
    if ps.len() == 0 {
    } else if ps[0].0 == k {
        let r = upsert(ps, k, v);
        assert forall|i: int| 0 <= i < r.len() implies plain_chars(#[trigger] r[i].0) && plain_chars(
            r[i].1,
        ) by {
            if i > 0 {
                assert(r[i] == ps[i]);
            }
        }
    } else {
        assert forall|i: int| 0 <= i < ps.drop_first().len() implies plain_chars(
            #[trigger] ps.drop_first()[i].0,
        ) && plain_chars(ps.drop_first()[i].1) by {
            assert(ps.drop_first()[i] == ps[i + 1]);
        }
        lemma_upsert_plain(ps.drop_first(), k, v);
        let r = upsert(ps, k, v);
        let r1 = upsert(ps.drop_first(), k, v);
        assert forall|i: int| 0 <= i < r.len() implies plain_chars(#[trigger] r[i].0) && plain_chars(
            r[i].1,
        ) by {
            if i > 0 {
                assert(r[i] == r1[i - 1]);
            }
        }
    }
}

/// Effect of one raw query token: a token with exactly one `=` contributes its
/// two pieces, any other token contributes nothing.
pub open spec fn insert_token(ps: Seq<(Seq<char>, Seq<char>)>, t: Seq<char>) -> Seq<
    (Seq<char>, Seq<char>),
> {
    let pieces = split_on(t, '=');
    if pieces.len() == 2 {
        upsert(ps, pieces[0], pieces[1])
    } else {
        ps
    }
}

pub open spec fn raw_params_from(
    ps: Seq<(Seq<char>, Seq<char>)>,
    tokens: Seq<Seq<char>>,
) -> Seq<(Seq<char>, Seq<char>)>
    decreases tokens.len(),
{
    if tokens.len() == 0 {
        ps
    } else {
        raw_params_from(insert_token(ps, tokens[0]), tokens.drop_first())
    }
}

/// The key/value mapping that a sequence of raw query tokens produces, later
/// tokens overwriting earlier ones of the same key.
pub open spec fn raw_params(tokens: Seq<Seq<char>>) -> Seq<(Seq<char>, Seq<char>)> {
    raw_params_from(Seq::empty(), tokens)
}

pub proof fn lemma_upsert_push(ps: Seq<(Seq<char>, Seq<char>)>, k: Seq<char>, v: Seq<char>)
    requires
        forall|i: int| 0 <= i < ps.len() ==> (#[trigger] ps[i]).0 != k,
    ensures
        upsert(ps, k, v) == ps.push((k, v)),
    decreases ps.len(),
{
    if ps.len() == 0 {
        assert(upsert(ps, k, v) =~= ps.push((k, v)));
    } else {
        assert forall|i: int| 0 <= i < ps.drop_first().len() implies (#[trigger] ps.drop_first()[i]).0
            != k by {
            assert(ps.drop_first()[i] == ps[i + 1]);
        }
        lemma_upsert_push(ps.drop_first(), k, v);
        assert(upsert(ps, k, v) =~= ps.push((k, v)));
    }
}

pub proof fn lemma_upsert_update(ps: Seq<(Seq<char>, Seq<char>)>, k: Seq<char>, v: Seq<char>, i: int)
    requires
        0 <= i < ps.len(),
        ps[i].0 == k,
        forall|j: int| 0 <= j < i ==> (#[trigger] ps[j]).0 != k,
    ensures
        upsert(ps, k, v) == ps.update(i, (k, v)),
    decreases ps.len(),
{
    if i == 0 {
        assert(upsert(ps, k, v) =~= ps.update(0, (k, v)));
    } else {
        assert(ps[0].0 != k);
        assert forall|j: int| 0 <= j < i - 1 implies (#[trigger] ps.drop_first()[j]).0 != k by {
            assert(ps.drop_first()[j] == ps[j + 1]);
        }
        assert(ps.drop_first()[i - 1] == ps[i]);
        lemma_upsert_update(ps.drop_first(), k, v, i - 1);
        assert(upsert(ps, k, v) =~= ps.update(i, (k, v)));
    }
}

pub proof fn lemma_lookup_at(ps: Seq<(Seq<char>, Seq<char>)>, k: Seq<char>, i: int)
    requires
        0 <= i < ps.len(),
        ps[i].0 == k,
        forall|j: int| 0 <= j < i ==> (#[trigger] ps[j]).0 != k,
    ensures
        lookup(ps, k) == Some(ps[i].1),
    decreases ps.len(),
{
    if i > 0 {
        assert forall|j: int| 0 <= j < i - 1 implies (#[trigger] ps.drop_first()[j]).0 != k by {
            assert(ps.drop_first()[j] == ps[j + 1]);
        }
        assert(ps.drop_first()[i - 1] == ps[i]);
        lemma_lookup_at(ps.drop_first(), k, i - 1);
    }
}

pub proof fn lemma_lookup_absent(ps: Seq<(Seq<char>, Seq<char>)>, k: Seq<char>)
    requires
        forall|i: int| 0 <= i < ps.len() ==> (#[trigger] ps[i]).0 != k,
    ensures
        lookup(ps, k) == None::<Seq<char>>,
    decreases ps.len(),
{
    if ps.len() > 0 {
        assert forall|i: int| 0 <= i < ps.drop_first().len() implies (#[trigger] ps.drop_first()[i]).0
            != k by {
            assert(ps.drop_first()[i] == ps[i + 1]);
        }
        lemma_lookup_absent(ps.drop_first(), k);
    }
}

/// Looking a key up in a concatenation tries the front part first.
pub proof fn lemma_lookup_append(
    a: Seq<(Seq<char>, Seq<char>)>,
    b: Seq<(Seq<char>, Seq<char>)>,
    k: Seq<char>,
)
    ensures
        lookup(a + b, k) == (if lookup(a, k) is Some {
            lookup(a, k)
        } else {
            lookup(b, k)
        }),
    decreases a.len(),
{
    if a.len() == 0 {
        assert(a + b =~= b);
    } else {
        assert((a + b)[0] == a[0]);
        assert((a + b).drop_first() =~= a.drop_first() + b);
        lemma_lookup_append(a.drop_first(), b, k);
    }
}

pub proof fn lemma_remove_key_absent(ps: Seq<(Seq<char>, Seq<char>)>, k: Seq<char>)
    requires
        forall|i: int| 0 <= i < ps.len() ==> (#[trigger] ps[i]).0 != k,
    ensures
        remove_key(ps, k) == ps,
    decreases ps.len(),
{
    if ps.len() > 0 {
        assert forall|i: int| 0 <= i < ps.drop_first().len() implies (#[trigger] ps.drop_first()[i]).0
            != k by {
            assert(ps.drop_first()[i] == ps[i + 1]);
        }
        lemma_remove_key_absent(ps.drop_first(), k);
        assert(remove_key(ps, k) =~= ps);
    }
}

/// Removing a key from a concatenation removes it from the front part when it
/// occurs there, and from the back part otherwise.
pub proof fn lemma_remove_key_append(
    a: Seq<(Seq<char>, Seq<char>)>,
    b: Seq<(Seq<char>, Seq<char>)>,
    k: Seq<char>,
)
    ensures
        remove_key(a + b, k) == (if lookup(a, k) is Some {
            remove_key(a, k) + b
        } else {
            a + remove_key(b, k)
        }),
    decreases a.len(),
{
    if a.len() == 0 {
        assert(a + b =~= b);
        assert(a + remove_key(b, k) =~= remove_key(b, k));
    } else {
        assert((a + b)[0] == a[0]);
        assert((a + b).drop_first() =~= a.drop_first() + b);
        lemma_remove_key_append(a.drop_first(), b, k);
        if a[0].0 == k {
            assert(remove_key(a + b, k) =~= remove_key(a, k) + b);
        } else if lookup(a.drop_first(), k) is Some {
            assert(remove_key(a + b, k) =~= remove_key(a, k) + b);
        } else {
            assert(remove_key(a + b, k) =~= a + remove_key(b, k));
        }
    }
}

/// First entry with key `k` sits at `i`: removal excises exactly that entry.
pub proof fn lemma_remove_key_at(ps: Seq<(Seq<char>, Seq<char>)>, k: Seq<char>, i: int)
    requires
        0 <= i < ps.len(),
        ps[i].0 == k,
        forall|j: int| 0 <= j < i ==> (#[trigger] ps[j]).0 != k,
    ensures
        remove_key(ps, k) == ps.subrange(0, i) + ps.subrange(i + 1, ps.len() as int),
    decreases ps.len(),
{
    if i == 0 {
        assert(remove_key(ps, k) =~= ps.subrange(0, 0) + ps.subrange(1, ps.len() as int));
    } else {
        assert forall|j: int| 0 <= j < i - 1 implies (#[trigger] ps.drop_first()[j]).0 != k by {
            assert(ps.drop_first()[j] == ps[j + 1]);
        }
        assert(ps.drop_first()[i - 1] == ps[i]);
        lemma_remove_key_at(ps.drop_first(), k, i - 1);
        assert(remove_key(ps, k) =~= ps.subrange(0, i) + ps.subrange(i + 1, ps.len() as int));
    }
}

/// Tokens of distinct-keyed pairs whose keys and values hold no `=` rebuild,
/// appended to `acc`, exactly those pairs.
pub proof fn lemma_raw_params_clean(
    acc: Seq<(Seq<char>, Seq<char>)>,
    ps: Seq<(Seq<char>, Seq<char>)>,
)
    requires
        forall|i: int| 0 <= i < ps.len() ==> lacks(#[trigger] ps[i].0, '=') && lacks(ps[i].1, '='),
        distinct_keys(ps),
        forall|i: int, j: int|
            0 <= i < ps.len() && 0 <= j < acc.len() ==> (#[trigger] acc[j]).0 != (#[trigger] ps[i]).0,
    ensures
        raw_params_from(acc, Seq::new(ps.len() as nat, |i: int| token_of(ps[i]))) == acc + ps,
    decreases ps.len(),
{
    let toks = Seq::new(ps.len() as nat, |i: int| token_of(ps[i]));
    if ps.len() == 0 {
        assert(acc + ps =~= acc);
    } else {
        let k0 = ps[0].0;
        let v0 = ps[0].1;
        lemma_split_token(k0, v0);
        assert(toks[0] == token_of(ps[0]));
        assert(split_on(toks[0], '=') == seq![k0, v0]);
        assert(split_on(toks[0], '=').len() == 2);
        assert(split_on(toks[0], '=')[0] == k0);
        assert(split_on(toks[0], '=')[1] == v0);
        assert forall|j: int| 0 <= j < acc.len() implies (#[trigger] acc[j]).0 != k0 by {}
        lemma_upsert_push(acc, k0, v0);
        assert(insert_token(acc, toks[0]) == acc.push((k0, v0)));
        let acc1 = acc.push((k0, v0));
        let rest = ps.drop_first();
        assert(acc1 =~= acc + seq![ps[0]]);
        assert forall|i: int| 0 <= i < rest.len() implies lacks(#[trigger] rest[i].0, '=') && lacks(
            rest[i].1,
            '=',
        ) by {
            assert(rest[i] == ps[i + 1]);
        }
        assert forall|i: int, j: int| 0 <= i < j < rest.len() implies rest[i].0 != rest[j].0 by {
            assert(rest[i] == ps[i + 1]);
            assert(rest[j] == ps[j + 1]);
        }
        assert forall|i: int, j: int|
            0 <= i < rest.len() && 0 <= j < acc1.len() implies (#[trigger] acc1[j]).0
            != (#[trigger] rest[i]).0 by {
            assert(rest[i] == ps[i + 1]);
            if j < acc.len() {
                assert(acc1[j] == acc[j]);
            } else {
                assert(acc1[j] == ps[0]);
            }
        }
        lemma_raw_params_clean(acc1, rest);
        assert(toks.drop_first() =~= Seq::new(rest.len() as nat, |i: int| token_of(rest[i])));
        assert(acc1 + rest =~= acc + ps);
    }
}

/// Replace the value under `k`, or append the entry, in place.
pub fn upsert_exec(ps: &mut Vec<(String, String)>, k: String, v: String)
    ensures
        final(ps).deep_view() == upsert(old(ps).deep_view(), k@, v@),
{
    let n = ps.len();
    let mut i: usize = 0;
    while i < n
        invariant
            i <= n,
            n == ps.len(),
            *ps == *old(ps),
            forall|j: int| 0 <= j < i ==> (#[trigger] ps.deep_view()[j]).0 != k@,
        decreases n - i,
    {
        if str_eq(ps[i].0.as_str(), k.as_str()) {
            proof {
                assert(ps.deep_view()[i as int].0 == k@);
                lemma_upsert_update(ps.deep_view(), k@, v@, i as int);
            }
            let ghost before = ps.deep_view();
            ps.set(i, (k, v));
            proof {
                assert(ps.deep_view() =~= before.update(i as int, (k@, v@)));
            }
            return ;
        }
        proof {
            assert(ps.deep_view()[i as int].0 == ps@[i as int].0@);
        }
        i += 1;
    }
    proof {
        lemma_upsert_push(ps.deep_view(), k@, v@);
    }
    let ghost before = ps.deep_view();
    ps.push((k, v));
    proof {
        assert(ps.deep_view() =~= before.push((k@, v@)));
    }
}

/// Value under `k`, cloned, if any entry carries it.
pub fn lookup_exec(ps: &Vec<(String, String)>, k: &str) -> (r: Option<String>)
    ensures
        match r {
            Some(v) => lookup(ps.deep_view(), k@) == Some(v@),
            None => lookup(ps.deep_view(), k@) == None::<Seq<char>>,
        },
{
    let n = ps.len();
    let mut i: usize = 0;
    while i < n
        invariant
            i <= n,
            n == ps.len(),
            forall|j: int| 0 <= j < i ==> (#[trigger] ps.deep_view()[j]).0 != k@,
        decreases n - i,
    {
        if str_eq(ps[i].0.as_str(), k) {
            proof {
                assert(ps.deep_view()[i as int].0 == k@);
                lemma_lookup_at(ps.deep_view(), k@, i as int);
            }
            return Some(ps[i].1.clone());
        }
        proof {
            assert(ps.deep_view()[i as int].0 == ps@[i as int].0@);
        }
        i += 1;
    }
    proof {
        lemma_lookup_absent(ps.deep_view(), k@);
    }
    None
}

/// Drop the first entry under `k`, if any, in place.
pub fn remove_key_exec(ps: &mut Vec<(String, String)>, k: &str)
    ensures
        final(ps).deep_view() == remove_key(old(ps).deep_view(), k@),
{
    let n = ps.len();
    let mut i: usize = 0;
    while i < n
        invariant
            i <= n,
            n == ps.len(),
            *ps == *old(ps),
            forall|j: int| 0 <= j < i ==> (#[trigger] ps.deep_view()[j]).0 != k@,
        decreases n - i,
    {
        if str_eq(ps[i].0.as_str(), k) {
            proof {
                assert(ps.deep_view()[i as int].0 == k@);
                lemma_remove_key_at(ps.deep_view(), k@, i as int);
            }
            let ghost before = ps.deep_view();
            ps.remove(i);
            proof {
                assert(ps.deep_view() =~= before.subrange(0, i as int) + before.subrange(
                    i as int + 1,
                    before.len() as int,
                ));
            }
            return ;
        }
        proof {
            assert(ps.deep_view()[i as int].0 == ps@[i as int].0@);
        }
        i += 1;
    }
    proof {
        lemma_remove_key_absent(ps.deep_view(), k@);
    }
}

} // verus!
