//! Character-sequence tools: locating a separator, splitting on it, and
//! joining key/value pairs into a query string, with executable counterparts.

use vstd::prelude::*;
use vstd::string::StrSliceExecFns;
use vstd::string::StringExecFns;

verus! {

/// Index of the first occurrence of `c` in `s`, or `s.len()` when `c` is absent.
pub open spec fn find_first(s: Seq<char>, c: char) -> int
    decreases s.len(),
{
    if s.len() == 0 {
        0
    } else if s[0] == c {
        0
    } else {
        1 + find_first(s.drop_first(), c)
    }
}

/// `c` occurs nowhere in `s`.
pub open spec fn lacks(s: Seq<char>, c: char) -> bool {
    forall|i: int| 0 <= i < s.len() ==> s[i] != c
}

/// A character that URI query encoding and opaque-path parsing keep verbatim,
/// and that serves no structural role in the format: an ASCII letter, a
/// digit, `-`, `.`, `_` or `*`.
pub open spec fn plain_char(c: char) -> bool {
    ('a' <= c && c <= 'z') || ('A' <= c && c <= 'Z') || ('0' <= c && c <= '9') || c == '-' || c
        == '.' || c == '_' || c == '*'
}

pub open spec fn plain_chars(s: Seq<char>) -> bool {
    forall|i: int| 0 <= i < s.len() ==> plain_char(#[trigger] s[i])
}

/// Plain text holds none of the format's structural characters.
pub proof fn lemma_plain_lacks(s: Seq<char>, c: char)
    requires
        plain_chars(s),
        !plain_char(c),
    ensures
        lacks(s, c),
{
}

pub proof fn lemma_find_first(s: Seq<char>, c: char)
    ensures
        0 <= find_first(s, c) <= s.len(),
        find_first(s, c) < s.len() ==> s[find_first(s, c)] == c,
        forall|j: int| 0 <= j < find_first(s, c) ==> s[j] != c,
    decreases s.len(),
{
    if s.len() > 0 && s[0] != c {
        lemma_find_first(s.drop_first(), c);
        assert forall|j: int| 0 <= j < find_first(s, c) implies s[j] != c by {
            if j > 0 {
                assert(s.drop_first()[j - 1] == s[j]);
            }
        }
    }
}

pub proof fn lemma_find_first_is(s: Seq<char>, c: char, i: int)
    requires
        0 <= i < s.len(),
        s[i] == c,
        forall|j: int| 0 <= j < i ==> s[j] != c,
    ensures
        find_first(s, c) == i,
    decreases s.len(),
{
    if i > 0 {
        assert(s[0] != c);
        assert forall|j: int| 0 <= j < i - 1 implies s.drop_first()[j] != c by {
            assert(s.drop_first()[j] == s[j + 1]);
        }
        assert(s.drop_first()[i - 1] == s[i]);
        lemma_find_first_is(s.drop_first(), c, i - 1);
    }
}

pub proof fn lemma_find_first_absent(s: Seq<char>, c: char)
    requires
        lacks(s, c),
    ensures
        find_first(s, c) == s.len(),
    decreases s.len(),
{
    if s.len() > 0 {
        assert forall|j: int| 0 <= j < s.drop_first().len() implies s.drop_first()[j] != c by {
            assert(s.drop_first()[j] == s[j + 1]);
        }
        lemma_find_first_absent(s.drop_first(), c);
    }
}

/// Pieces of `s` between occurrences of `c`, in order; always at least one piece.
pub open spec fn split_on(s: Seq<char>, c: char) -> Seq<Seq<char>>
    decreases s.len(),
{
    let i = find_first(s, c);
    if 0 <= i < s.len() {
        seq![s.subrange(0, i)] + split_on(s.subrange(i + 1, s.len() as int), c)
    } else {
        seq![s]
    }
}

/// When `c` does not occur, the only piece is `s` itself.
pub proof fn lemma_split_on_none(s: Seq<char>, c: char)
    requires
        lacks(s, c),
    ensures
        split_on(s, c) == seq![s],
{
    lemma_find_first_absent(s, c);
}

/// Splitting `a + [c] + b` where `a` lacks `c` peels off `a` as the first piece.
pub proof fn lemma_split_concat(a: Seq<char>, b: Seq<char>, c: char)
    requires
        lacks(a, c),
    ensures
        split_on(a + seq![c] + b, c) == seq![a] + split_on(b, c),
{
    let s = a + seq![c] + b;
    assert(s[a.len() as int] == c);
    assert forall|j: int| 0 <= j < a.len() implies s[j] != c by {
        assert(s[j] == a[j]);
    }
    lemma_find_first_is(s, c, a.len() as int);
    assert(s.subrange(0, a.len() as int) =~= a);
    assert(s.subrange(a.len() as int + 1, s.len() as int) =~= b);
}

/// One key/value pair as a `key=value` token.
pub open spec fn token_of(p: (Seq<char>, Seq<char>)) -> Seq<char> {
    p.0 + seq!['='] + p.1
}

/// Tokens of the pairs joined with `&` separators.
pub open spec fn join_pairs(ps: Seq<(Seq<char>, Seq<char>)>) -> Seq<char>
    decreases ps.len(),
{
    if ps.len() == 0 {
        Seq::empty()
    } else if ps.len() == 1 {
        token_of(ps[0])
    } else {
        token_of(ps[0]) + seq!['&'] + join_pairs(ps.drop_first())
    }
}

pub proof fn lemma_join_pairs_len(ps: Seq<(Seq<char>, Seq<char>)>)
    requires
        ps.len() > 0,
    ensures
        join_pairs(ps).len() >= 1,
    decreases ps.len(),
{
    if ps.len() > 1 {
        lemma_join_pairs_len(ps.drop_first());
    }
}

/// A character that occurs in neither the key nor the value, and is not the
/// `=` separator, occurs nowhere in the pair's token.
pub proof fn lemma_token_lacks(p: (Seq<char>, Seq<char>), c: char)
    requires
        c != '=',
        lacks(p.0, c),
        lacks(p.1, c),
    ensures
        lacks(token_of(p), c),
{
    assert forall|j: int| 0 <= j < token_of(p).len() implies token_of(p)[j] != c by {
        let k = p.0;
        let v = p.1;
        if j < k.len() {
            assert(token_of(p)[j] == k[j]);
        } else if j == k.len() {
            assert(token_of(p)[j] == '=');
        } else {
            assert(token_of(p)[j] == v[j - k.len() - 1]);
        }
    }
}

/// A character other than the separators themselves that occurs in no key and
/// no value occurs nowhere in the joined string.
pub proof fn lemma_join_lacks(ps: Seq<(Seq<char>, Seq<char>)>, c: char)
    requires
        c != '&',
        c != '=',
        forall|i: int| 0 <= i < ps.len() ==> lacks(#[trigger] ps[i].0, c) && lacks(ps[i].1, c),
    ensures
        lacks(join_pairs(ps), c),
    decreases ps.len(),
{
    if ps.len() == 0 {
    } else if ps.len() == 1 {
        lemma_token_lacks(ps[0], c);
    } else {
        assert forall|i: int| 0 <= i < ps.drop_first().len() implies lacks(
            #[trigger] ps.drop_first()[i].0,
            c,
        ) && lacks(ps.drop_first()[i].1, c) by {
            assert(ps.drop_first()[i] == ps[i + 1]);
        }
        lemma_join_lacks(ps.drop_first(), c);
        lemma_token_lacks(ps[0], c);
        let head = token_of(ps[0]);
        let rest = join_pairs(ps.drop_first());
        assert forall|j: int| 0 <= j < join_pairs(ps).len() implies join_pairs(ps)[j] != c by {
            if j < head.len() {
                assert(join_pairs(ps)[j] == head[j]);
            } else if j == head.len() {
                assert(join_pairs(ps)[j] == '&');
            } else {
                assert(join_pairs(ps)[j] == rest[j - head.len() - 1]);
            }
        }
    }
}

/// Splitting the joined string on `&` recovers exactly the tokens, one per pair.
pub proof fn lemma_split_join(ps: Seq<(Seq<char>, Seq<char>)>)
    requires
        ps.len() > 0,
        forall|i: int| 0 <= i < ps.len() ==> lacks(#[trigger] ps[i].0, '&') && lacks(ps[i].1, '&'),
        forall|i: int| 0 <= i < ps.len() ==> lacks(#[trigger] ps[i].0, '=') && lacks(ps[i].1, '='),
    ensures
        split_on(join_pairs(ps), '&') == Seq::new(ps.len() as nat, |i: int| token_of(ps[i])),
    decreases ps.len(),
{
    let toks = Seq::new(ps.len() as nat, |i: int| token_of(ps[i]));
    if ps.len() == 1 {
        lemma_token_lacks(ps[0], '&');
        lemma_split_on_none(join_pairs(ps), '&');
        assert(split_on(join_pairs(ps), '&') =~= toks);
    } else {
        let head = token_of(ps[0]);
        let rest = ps.drop_first();
        lemma_token_lacks(ps[0], '&');
        assert(lacks(head, '&'));
        lemma_split_concat(head, join_pairs(rest), '&');
        assert forall|i: int| 0 <= i < rest.len() implies lacks(#[trigger] rest[i].0, '&')
            && lacks(rest[i].1, '&') && lacks(rest[i].0, '=') && lacks(rest[i].1, '=') by {
            assert(rest[i] == ps[i + 1]);
        }
        lemma_split_join(rest);
        assert(split_on(join_pairs(ps), '&') =~= toks);
    }
}

/// Splitting a single `key=value` token on `=` yields the key and the value.
pub proof fn lemma_split_token(k: Seq<char>, v: Seq<char>)
    requires
        lacks(k, '='),
        lacks(v, '='),
    ensures
        split_on(token_of((k, v)), '=') == seq![k, v],
{
    lemma_split_concat(k, v, '=');
    lemma_split_on_none(v, '=');
    assert(seq![k] + seq![v] =~= seq![k, v]);
}

/// Index of the first occurrence of `c` in `s` at or after `from`, as an offset
/// into the suffix; `s@.len()` is returned when `c` is absent there.
pub fn find_char_from(s: &str, c: char, from: usize) -> (r: usize)
    requires
        from <= s@.len(),
    ensures
        from <= r <= s@.len(),
        r - from == find_first(s@.subrange(from as int, s@.len() as int), c),
        r < s@.len() ==> s@[r as int] == c,
        forall|j: int| from <= j < r ==> s@[j] != c,
{
    let n = s.unicode_len();
    let mut i = from;
    while i < n
        invariant
            from <= i <= n,
            n == s@.len(),
            from <= s@.len(),
            forall|j: int| from <= j < i ==> s@[j] != c,
        decreases n - i,
    {
        if s.get_char(i) == c {
            proof {
                let sub = s@.subrange(from as int, n as int);
                assert(sub[i - from] == s@[i as int]);
                assert forall|j: int| 0 <= j < i - from implies sub[j] != c by {
                    assert(sub[j] == s@[from + j]);
                }
                lemma_find_first_is(sub, c, i - from);
            }
            return i;
        }
        i += 1;
    }
    proof {
        let sub = s@.subrange(from as int, n as int);
        assert forall|j: int| 0 <= j < sub.len() implies sub[j] != c by {
            assert(sub[j] == s@[from + j]);
        }
        lemma_find_first_absent(sub, c);
    }
    n
}

/// The pieces of `s` between occurrences of `c`, as owned strings.
pub fn split_exec(s: &str, c: char) -> (r: Vec<String>)
    ensures
        r.deep_view() == split_on(s@, c),
{
    let n = s.unicode_len();
    let mut acc: Vec<String> = Vec::new();
    let mut pos: usize = 0;
    proof {
        assert(s@.subrange(0, n as int) =~= s@);
        assert(acc.deep_view() + split_on(s@, c) =~= split_on(s@, c));
    }
    loop
        invariant_except_break
            pos <= n,
            n == s@.len(),
            split_on(s@, c) == acc.deep_view() + split_on(s@.subrange(pos as int, n as int), c),
        ensures
            acc.deep_view() == split_on(s@, c),
        decreases n - pos,
    {
        let ghost acc0 = acc.deep_view();
        let ghost rem = s@.subrange(pos as int, n as int);
        let j = find_char_from(s, c, pos);
        let piece = String::from_str(s.substring_char(pos, j));
        acc.push(piece);
        proof {
            assert(acc.deep_view() =~= acc0.push(s@.subrange(pos as int, j as int)));
        }
        if j == n {
            proof {
                assert(find_first(rem, c) == rem.len());
                assert(split_on(rem, c) == seq![rem]);
                assert(rem =~= s@.subrange(pos as int, j as int));
                assert(acc.deep_view() =~= acc0 + seq![rem]);
            }
            break;
        }
        proof {
            let i = find_first(rem, c);
            assert(i == j - pos);
            assert(rem.subrange(0, i) =~= s@.subrange(pos as int, j as int));
            assert(rem.subrange(i + 1, rem.len() as int) =~= s@.subrange(j + 1, n as int));
            assert(split_on(rem, c) == seq![s@.subrange(pos as int, j as int)] + split_on(
                s@.subrange(j + 1, n as int),
                c,
            ));
            assert(acc.deep_view() + split_on(s@.subrange(j + 1, n as int), c) =~= acc0 + split_on(
                rem,
                c,
            ));
        }
        pos = j + 1;
    }
    acc
}

/// String-slice equality, reflected into the views.
pub fn str_eq(a: &str, b: &str) -> (r: bool)
    ensures
        r == (a@ == b@),
{
    let sa = String::from_str(a);
    let sb = String::from_str(b);
    sa == sb
}

} // verus!
