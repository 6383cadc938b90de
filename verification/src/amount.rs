//! The amount carried by a payment request, kept as validated numeric text.
//! The grammar is the finite-number text form of floating-point values: an
//! optional sign, digits with at most one dot (and at least one digit), and
//! an optional exponent. The infinity and not-a-number words denote no
//! payable quantity and are rejected.

use vstd::prelude::*;
use vstd::string::StrSliceExecFns;
use vstd::string::StringExecFns;

use crate::strkit::find_first;
use crate::strkit::lemma_find_first;
use crate::strkit::lemma_find_first_absent;
use crate::strkit::lemma_find_first_is;

verus! {

pub open spec fn is_digit_char(c: char) -> bool {
    '0' <= c && c <= '9'
}

pub open spec fn is_exp_char(c: char) -> bool {
    c == 'e' || c == 'E'
}

/// Decimal digits only; the empty sequence qualifies.
pub open spec fn digits_only(s: Seq<char>) -> bool {
    forall|i: int| 0 <= i < s.len() ==> is_digit_char(#[trigger] s[i])
}

/// A non-empty run of decimal digits.
pub open spec fn all_digits(s: Seq<char>) -> bool {
    s.len() > 0 && digits_only(s)
}

/// Index of the first exponent marker (`e` or `E`), or `s.len()`.
pub open spec fn find_exp(s: Seq<char>) -> int
    decreases s.len(),
{
    if s.len() == 0 {
        0
    } else if is_exp_char(s[0]) {
        0
    } else {
        1 + find_exp(s.drop_first())
    }
}

pub proof fn lemma_find_exp(s: Seq<char>)
    ensures
        0 <= find_exp(s) <= s.len(),
        find_exp(s) < s.len() ==> is_exp_char(s[find_exp(s)]),
        forall|j: int| 0 <= j < find_exp(s) ==> !is_exp_char(#[trigger] s[j]),
    decreases s.len(),
{
    if s.len() > 0 && !is_exp_char(s[0]) {
        lemma_find_exp(s.drop_first());
        assert forall|j: int| 0 <= j < find_exp(s) implies !is_exp_char(#[trigger] s[j]) by {
            if j > 0 {
                assert(s.drop_first()[j - 1] == s[j]);
            }
        }
    }
}

pub proof fn lemma_find_exp_is(s: Seq<char>, i: int)
    requires
        0 <= i < s.len(),
        is_exp_char(s[i]),
        forall|j: int| 0 <= j < i ==> !is_exp_char(#[trigger] s[j]),
    ensures
        find_exp(s) == i,
    decreases s.len(),
{
    if i > 0 {
        assert(!is_exp_char(s[0]));
        assert forall|j: int| 0 <= j < i - 1 implies !is_exp_char(#[trigger] s.drop_first()[j]) by {
            assert(s.drop_first()[j] == s[j + 1]);
        }
        assert(s.drop_first()[i - 1] == s[i]);
        lemma_find_exp_is(s.drop_first(), i - 1);
    }
}

pub proof fn lemma_find_exp_absent(s: Seq<char>)
    requires
        forall|j: int| 0 <= j < s.len() ==> !is_exp_char(#[trigger] s[j]),
    ensures
        find_exp(s) == s.len(),
    decreases s.len(),
{
    if s.len() > 0 {
        assert forall|j: int| 0 <= j < s.drop_first().len() implies !is_exp_char(
            #[trigger] s.drop_first()[j],
        ) by {
            assert(s.drop_first()[j] == s[j + 1]);
        }
        lemma_find_exp_absent(s.drop_first());
    }
}

/// Digits with at most one dot, and at least one digit.
pub open spec fn mantissa_ok(t: Seq<char>) -> bool {
    let d = find_first(t, '.');
    if d == t.len() {
        all_digits(t)
    } else {
        digits_only(t.subrange(0, d)) && digits_only(t.subrange(d + 1, t.len() as int)) && t.len()
            >= 2
    }
}

/// An optional sign before a non-empty run of digits.
pub open spec fn exp_ok(t: Seq<char>) -> bool {
    if t.len() > 0 && (t[0] == '-' || t[0] == '+') {
        all_digits(t.drop_first())
    } else {
        all_digits(t)
    }
}

/// A mantissa, optionally followed by an exponent marker and an exponent.
pub open spec fn numeric_body(s: Seq<char>) -> bool {
    let e = find_exp(s);
    if e == s.len() {
        mantissa_ok(s)
    } else {
        mantissa_ok(s.subrange(0, e)) && exp_ok(s.subrange(e + 1, s.len() as int))
    }
}

/// Finite-decimal-number text: an optional sign before a numeric body.
pub open spec fn spec_is_numeric(s: Seq<char>) -> bool {
    if s.len() > 0 && (s[0] == '-' || s[0] == '+') {
        numeric_body(s.drop_first())
    } else {
        numeric_body(s)
    }
}

/// Text denoting a value below zero: a `-` sign and some nonzero digit in the
/// mantissa (a nonzero exponent over a zero mantissa still denotes zero, and
/// text such as `-0.0` denotes zero and does not count as negative).
pub open spec fn spec_is_negative(s: Seq<char>) -> bool {
    s.len() > 0 && s[0] == '-' && exists|i: int|
        1 <= i < find_exp(s) && '1' <= #[trigger] s[i] && s[i] <= '9'
}

/// Index of the first non-digit at or after `from`, or the length of `s`.
fn scan_digit_run(s: &str, from: usize) -> (r: usize)
    requires
        from <= s@.len(),
    ensures
        from <= r <= s@.len(),
        forall|j: int| from <= j < r ==> is_digit_char(#[trigger] s@[j]),
        r < s@.len() ==> !is_digit_char(s@[r as int]),
{
    let n = s.unicode_len();
    let mut i = from;
    while i < n
        invariant
            from <= i <= n,
            n == s@.len(),
            forall|j: int| from <= j < i ==> is_digit_char(#[trigger] s@[j]),
        decreases n - i,
    {
        let c = s.get_char(i);
        if !('0' <= c && c <= '9') {
            return i;
        }
        i += 1;
    }
    i
}

/// Whether `s` is finite-decimal-number text.
#[verifier::rlimit(80)]
pub fn check_numeric(s: &str) -> (r: bool)
    ensures
        r == spec_is_numeric(s@),
{
    let n = s.unicode_len();
    let start: usize = if n > 0 && (s.get_char(0) == '-' || s.get_char(0) == '+') {
        1
    } else {
        0
    };
    let ghost body = s@.subrange(start as int, n as int);
    proof {
        assert(spec_is_numeric(s@) == numeric_body(body)) by {
            if n > 0 && (s@[0] == '-' || s@[0] == '+') {
                assert(body =~= s@.drop_first());
            } else {
                assert(body =~= s@);
            }
        }
        lemma_find_exp(body);
        lemma_find_first(body, '.');
    }
    if start >= n {
        proof {
            assert(body.len() == 0);
            assert(!mantissa_ok(body));
        }
        return false;
    }
    // the mantissa: digits, then at most one dot with digits after it
    let i = scan_digit_run(s, start);
    let ghost dot_at: Option<int> = None;
    let mut pos = i;
    let mut have = i > start;
    if pos < n && s.get_char(pos) == '.' {
        let j = scan_digit_run(s, pos + 1);
        if j > pos + 1 {
            have = true;
        }
        proof {
            dot_at = Some(pos - start);
        }
        pos = j;
    }
    // ghost summary of the scan: digits everywhere in [start, pos) except a
    // single dot, whose relative position dot_at records
    proof {
        assert(match dot_at {
            Some(d) => start + d < pos && body[d] == '.' && (forall|x: int|
                0 <= x < pos - start && x != d ==> is_digit_char(#[trigger] body[x])),
            None => forall|x: int| 0 <= x < pos - start ==> is_digit_char(#[trigger] body[x]),
        }) by {
            assert forall|x: int| 0 <= x < pos - start implies body[x] == s@[start + x] by {}
        }
    }
    if !have {
        // no digit at all before the exponent position
        proof {
            let me = find_exp(body);
            let t = if me == body.len() {
                body
            } else {
                body.subrange(0, me)
            };
            assert(!mantissa_ok(t)) by {
                lemma_find_first(t, '.');
                let d = find_first(t, '.');
                match dot_at {
                    Some(dd) => {
                        // the text begins with the dot and no digit follows it
                        assert(dd == 0);
                        assert(body[0] == '.');
                        if t.len() >= 2 {
                            assert(t[1] == body[1]);
                            assert(body[1] == s@[start + 1]);
                            assert(!is_digit_char(body[1]));
                            assert(t[0] == '.');
                            lemma_find_first_is(t, '.', 0);
                            assert(t.subrange(1, t.len() as int)[0] == t[1]);
                            assert(!digits_only(t.subrange(1, t.len() as int)));
                        } else {
                            assert(t[0] == '.');
                            lemma_find_first_is(t, '.', 0);
                            assert(!all_digits(t));
                        }
                    },
                    None => {
                        // the very first character is no digit, dot or marker
                        assert(pos == start && i == start);
                        assert(t.len() > 0 ==> t[0] == body[0]);
                        if t.len() == 0 {
                            assert(!all_digits(t));
                            assert(d == 0 == t.len());
                        } else {
                            assert(!is_digit_char(body[0]) && body[0] != '.' && !is_exp_char(
                                body[0],
                            ));
                            if d == t.len() {
                                assert(!all_digits(t));
                            } else {
                                assert(t[d] == '.');
                                assert(d > 0);
                                assert(t.subrange(0, d)[0] == t[0]);
                                assert(!digits_only(t.subrange(0, d)));
                            }
                        }
                    },
                }
            }
        }
        return false;
    }
    if pos == n {
        // the whole body is a mantissa with no exponent
        proof {
            assert forall|j: int| 0 <= j < body.len() implies !is_exp_char(#[trigger] body[j]) by {}
            lemma_find_exp_absent(body);
            assert(mantissa_ok(body)) by {
                match dot_at {
                    Some(d) => {
                        assert forall|x: int| 0 <= x < d implies body[x] != '.' by {}
                        lemma_find_first_is(body, '.', d);
                        assert(digits_only(body.subrange(0, d))) by {
                            assert forall|x: int| 0 <= x < d implies is_digit_char(
                                #[trigger] body.subrange(0, d)[x],
                            ) by {
                                assert(body.subrange(0, d)[x] == body[x]);
                            }
                        }
                        assert(digits_only(body.subrange(d + 1, body.len() as int))) by {
                            assert forall|x: int| 0 <= x < body.len() - d - 1 implies is_digit_char(
                                #[trigger] body.subrange(d + 1, body.len() as int)[x],
                            ) by {
                                assert(body.subrange(d + 1, body.len() as int)[x] == body[d + 1 + x]);
                            }
                        }
                        assert(body.len() >= 2);
                    },
                    None => {
                        assert forall|x: int| 0 <= x < body.len() implies body[x] != '.' by {}
                        lemma_find_first_absent(body, '.');
                        assert(all_digits(body));
                    },
                }
            }
        }
        return true;
    }
    let marker = s.get_char(pos);
    let ghost mrel = pos - start;
    proof {
        assert(body[mrel] == s@[pos as int]);
        assert(!is_digit_char(body[mrel]));
        assert(match dot_at {
            Some(d) => d != mrel,
            None => true,
        });
    }
    if !(marker == 'e' || marker == 'E') {
        // a stray character ends the mantissa without starting an exponent
        proof {
            let me = find_exp(body);
            assert(me != mrel);
            let t = if me == body.len() {
                body
            } else {
                body.subrange(0, me)
            };
            assert(!mantissa_ok(t)) by {
                lemma_find_first(t, '.');
                let d = find_first(t, '.');
                if me < mrel {
                    // an exponent marker hides inside the scanned mantissa:
                    // impossible, every scanned character is a digit or a dot
                    assert(is_exp_char(body[me]));
                    assert(false);
                } else {
                    assert(t.len() > mrel);
                    assert(t[mrel] == body[mrel]);
                    match dot_at {
                        Some(dd) => {
                            assert forall|x: int| 0 <= x < dd implies t[x] != '.' by {
                                assert(t[x] == body[x]);
                            }
                            assert(t[dd] == '.');
                            lemma_find_first_is(t, '.', dd);
                            assert(t.subrange(dd + 1, t.len() as int)[mrel - dd - 1] == t[mrel]);
                            assert(!digits_only(t.subrange(dd + 1, t.len() as int)));
                        },
                        None => {
                            if body[mrel] == '.' {
                                // the scan would have entered the dot branch
                                assert(false);
                            }
                            if d == t.len() {
                                assert(!all_digits(t));
                            } else {
                                assert(t[d] == '.');
                                assert(d > mrel);
                                assert(t.subrange(0, d)[mrel] == t[mrel]);
                                assert(!digits_only(t.subrange(0, d)));
                            }
                        },
                    }
                }
            }
        }
        return false;
    }
    // the exponent: an optional sign, then at least one digit, to the end
    proof {
        assert(is_exp_char(body[mrel]));
        assert forall|j: int| 0 <= j < mrel implies !is_exp_char(#[trigger] body[j]) by {}
        lemma_find_exp_is(body, mrel);
        assert(mantissa_ok(body.subrange(0, mrel))) by {
            let t = body.subrange(0, mrel);
            lemma_find_first(t, '.');
            match dot_at {
                Some(d) => {
                    assert forall|x: int| 0 <= x < d implies t[x] != '.' by {
                        assert(t[x] == body[x]);
                    }
                    assert(t[d] == body[d]);
                    lemma_find_first_is(t, '.', d);
                    assert(digits_only(t.subrange(0, d))) by {
                        assert forall|x: int| 0 <= x < d implies is_digit_char(
                            #[trigger] t.subrange(0, d)[x],
                        ) by {
                            assert(t.subrange(0, d)[x] == body[x]);
                        }
                    }
                    assert(digits_only(t.subrange(d + 1, t.len() as int))) by {
                        assert forall|x: int| 0 <= x < t.len() - d - 1 implies is_digit_char(
                            #[trigger] t.subrange(d + 1, t.len() as int)[x],
                        ) by {
                            assert(t.subrange(d + 1, t.len() as int)[x] == body[d + 1 + x]);
                        }
                    }
                    assert(t.len() >= 2);
                },
                None => {
                    assert forall|x: int| 0 <= x < t.len() implies is_digit_char(
                        #[trigger] t[x],
                    ) by {
                        assert(t[x] == body[x]);
                    }
                    assert forall|x: int| 0 <= x < t.len() implies t[x] != '.' by {}
                    lemma_find_first_absent(t, '.');
                    assert(all_digits(t));
                },
            }
        }
    }
    let ghost et = body.subrange(mrel + 1, body.len() as int);
    proof {
        assert forall|x: int| 0 <= x < et.len() implies et[x] == s@[pos + 1 + x] by {}
    }
    let mut epos = pos + 1;
    if epos < n {
        let sign = s.get_char(epos);
        if sign == '-' || sign == '+' {
            epos += 1;
        }
    }
    let ghost digits_part = if epos > pos + 1 {
        et.drop_first()
    } else {
        et
    };
    proof {
        assert(exp_ok(et) == all_digits(digits_part)) by {
            if epos > pos + 1 {
                assert(et[0] == s@[pos + 1]);
                assert(et[0] == '-' || et[0] == '+');
            } else if et.len() > 0 {
                assert(et[0] == s@[pos + 1]);
                assert(!(et[0] == '-' || et[0] == '+'));
            }
        }
        assert forall|x: int| 0 <= x < digits_part.len() implies digits_part[x] == s@[epos + x] by {
            if epos > pos + 1 {
                assert(digits_part[x] == et[x + 1]);
            }
        }
        assert(digits_part.len() == n - epos);
    }
    if epos >= n {
        // an exponent marker, or marker and sign, with no digits after it
        proof {
            assert(digits_part.len() == 0);
            assert(!all_digits(digits_part));
        }
        return false;
    }
    let k = scan_digit_run(s, epos);
    proof {
        if k == n {
            assert(all_digits(digits_part)) by {
                assert forall|x: int| 0 <= x < digits_part.len() implies is_digit_char(
                    #[trigger] digits_part[x],
                ) by {}
            }
        } else {
            assert(digits_part[k - epos] == s@[k as int]);
            assert(!all_digits(digits_part));
        }
    }
    k == n
}

/// Whether `s` denotes a value below zero.
pub fn check_negative(s: &str) -> (r: bool)
    ensures
        r == spec_is_negative(s@),
{
    let n = s.unicode_len();
    if n == 0 || !(s.get_char(0) == '-') {
        return false;
    }
    proof {
        lemma_find_exp(s@);
    }
    let mut i: usize = 1;
    while i < n
        invariant
            1 <= i <= n,
            n == s@.len(),
            s@[0] == '-',
            forall|j: int| 1 <= j < i ==> !('1' <= #[trigger] s@[j] && s@[j] <= '9'),
            forall|j: int| 0 <= j < i ==> !is_exp_char(#[trigger] s@[j]),
        decreases n - i,
    {
        let c = s.get_char(i);
        if c == 'e' || c == 'E' {
            proof {
                lemma_find_exp_is(s@, i as int);
            }
            return false;
        }
        if '1' <= c && c <= '9' {
            proof {
                lemma_find_exp(s@);
                assert(find_exp(s@) > i) by {
                    if find_exp(s@) <= i {
                        assert(is_exp_char(s@[find_exp(s@)]));
                    }
                }
                assert(1 <= i && (i as int) < find_exp(s@) && '1' <= s@[i as int] && s@[i as int]
                    <= '9');
            }
            return true;
        }
        i += 1;
    }
    proof {
        lemma_find_exp(s@);
    }
    false
}

/// An amount, held as the decimal text that names it. Values are only ever
/// built from text that passes the numeric grammar; the sign may be negative,
/// which the encoder and the decoder reject in their own ways.
#[derive(Debug)]
pub struct Amount {
    text: String,
}

impl View for Amount {
    type V = Seq<char>;

    closed spec fn view(&self) -> Seq<char> {
        self.text@
    }
}

impl Amount {
    #[verifier::type_invariant]
    spec fn numeric_text(self) -> bool {
        spec_is_numeric(self.text@)
    }

    /// Accepts exactly the finite-decimal-number texts.
    pub fn new(text: String) -> (r: Option<Amount>)
        ensures
            match r {
                Some(a) => spec_is_numeric(text@) && a@ == text@,
                None => !spec_is_numeric(text@),
            },
    {
        if check_numeric(text.as_str()) {
            Some(Amount { text })
        } else {
            None
        }
    }

    /// The decimal text itself.
    pub fn as_text(&self) -> (r: &str)
        ensures
            r@ == self@,
    {
        self.text.as_str()
    }

    pub fn is_negative(&self) -> (r: bool)
        ensures
            r == spec_is_negative(self@),
    {
        check_negative(self.text.as_str())
    }
}

} // verus!
