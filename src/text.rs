//! Character-level helpers: decimal integer parsing, prefix and substring tests.
use vstd::prelude::*;

verus! {

/// Whether `c` is an ASCII decimal digit.
pub open spec fn is_digit(c: char) -> bool {
    '0' <= c && c <= '9'
}

/// Numeric value of an ASCII decimal digit.
pub open spec fn digit_value(c: char) -> int {
    (c as int) - ('0' as int)
}

/// Whether `s` is a non-empty run of decimal digits.
pub open spec fn all_digits(s: Seq<char>) -> bool {
    s.len() > 0 && forall|i: int| 0 <= i < s.len() ==> is_digit(#[trigger] s[i])
}

/// Value of a run of decimal digits, most significant first.
pub open spec fn digits_value(s: Seq<char>) -> int
    decreases s.len(),
{
    if s.len() == 0 {
        0
    } else {
        10 * digits_value(s.drop_last()) + digit_value(s.last())
    }
}

/// The signed decimal integer that `s` spells, if any: an optional `+` or `-`
/// followed by one or more digits, with no other characters.
pub open spec fn decimal_of(s: Seq<char>) -> Option<int> {
    if s.len() > 0 && s[0] == '-' {
        if all_digits(s.drop_first()) {
            Some(-digits_value(s.drop_first()))
        } else {
            None
        }
    } else if s.len() > 0 && s[0] == '+' {
        if all_digits(s.drop_first()) {
            Some(digits_value(s.drop_first()))
        } else {
            None
        }
    } else if all_digits(s) {
        Some(digits_value(s))
    } else {
        None
    }
}

/// The `i32` that `s` spells: `None` when `s` is not a decimal integer or the
/// value does not fit in an `i32`.
pub open spec fn parse_i32(s: Seq<char>) -> Option<int> {
    match decimal_of(s) {
        Some(v) => if i32::MIN <= v <= i32::MAX {
            Some(v)
        } else {
            None
        },
        None => None,
    }
}

/// The `i32` that `s` spells, or zero when it spells none.
pub open spec fn int_or_zero(s: Seq<char>) -> int {
    match parse_i32(s) {
        Some(v) => v,
        None => 0,
    }
}

proof fn lemma_digits_value_nonneg(s: Seq<char>)
    requires
        forall|i: int| 0 <= i < s.len() ==> is_digit(#[trigger] s[i]),
    ensures
        digits_value(s) >= 0,
    decreases s.len(),
{
    if s.len() > 0 {
        lemma_digits_value_nonneg(s.drop_last());
    }
}

proof fn lemma_digits_value_grows(s: Seq<char>, n: int)
    requires
        0 <= n <= s.len(),
        forall|i: int| 0 <= i < s.len() ==> is_digit(#[trigger] s[i]),
    ensures
        digits_value(s.take(n)) <= digits_value(s),
    decreases s.len() - n,
{
    if n < s.len() {
        lemma_digits_value_grows(s, n + 1);
        assert(s.take(n + 1).drop_last() =~= s.take(n));
        lemma_digits_value_nonneg(s.take(n));
    } else {
        assert(s.take(n) =~= s);
    }
}

/// Reads the digits of `s` from position `start` on. Returns the value when
/// every character there is a digit and the value is at most `limit`.
fn digits_up_to(s: &str, start: usize, limit: i64) -> (r: Option<i64>)
    requires
        start <= s@.len(),
        9 <= limit <= i32::MAX + 1,
    ensures
        match r {
            Some(v) => {
                &&& forall|i: int| start <= i < s@.len() ==> is_digit(#[trigger] s@[i])
                &&& v == digits_value(s@.skip(start as int))
                &&& 0 <= v <= limit
            },
            None => !(forall|i: int| start <= i < s@.len() ==> is_digit(#[trigger] s@[i]))
                || digits_value(s@.skip(start as int)) > limit,
        },
{
    let n = s.unicode_len();
    let ghost t = s@.skip(start as int);
    let mut acc: i64 = 0;
    let mut i: usize = start;
    while i < n
        invariant
            n == s@.len(),
            t == s@.skip(start as int),
            start <= i <= n,
            9 <= limit <= i32::MAX + 1,
            forall|k: int| start <= k < i ==> is_digit(#[trigger] s@[k]),
            acc == digits_value(t.take(i - start)),
            0 <= acc <= limit,
        decreases n - i,
    {
        let c = s.get_char(i);
        if !('0' <= c && c <= '9') {
            return None;
        }
        let d = (c as u32 - '0' as u32) as i64;
        proof {
            assert(t.take(i + 1 - start).drop_last() =~= t.take(i - start));
            assert(t.take(i + 1 - start).last() == c);
        }
        if acc > (limit - d) / 10 {
            proof {
                assert(10 * acc + d > limit) by (nonlinear_arith)
                    requires
                        acc > (limit - d) / 10,
                        0 <= d <= 9,
                ;
                if forall|k: int| start <= k < s@.len() ==> is_digit(#[trigger] s@[k]) {
                    assert forall|k: int| 0 <= k < t.len() implies is_digit(#[trigger] t[k]) by {
                        assert(t[k] == s@[start + k]);
                    }
                    lemma_digits_value_grows(t, i + 1 - start);
                }
            }
            return None;
        }
        assert(10 * acc + d <= limit) by (nonlinear_arith)
            requires
                acc <= (limit - d) / 10,
                0 <= d <= 9,
                0 <= acc,
        ;
        acc = 10 * acc + d;
        i = i + 1;
    }
    proof {
        assert(t.take(i - start) =~= t);
    }
    Some(acc)
}

/// Parses `s` as a decimal `i32` (an optional sign, then digits).
pub fn parse_i32_decimal(s: &str) -> (r: Option<i32>)
    ensures
        r is Some ==> parse_i32(s@) == Some(r->0 as int),
        r is None ==> parse_i32(s@) is None,
{
    let n = s.unicode_len();
    if n == 0 {
        return None;
    }
    let c = s.get_char(0);
    if c == '-' || c == '+' {
        if n == 1 {
            return None;
        }
        proof {
            assert(s@.skip(1) =~= s@.drop_first());
            if all_digits(s@.drop_first()) {
                assert forall|i: int| 1 <= i < s@.len() implies is_digit(#[trigger] s@[i]) by {
                    assert(s@[i] == s@.drop_first()[i - 1]);
                }
            }
        }
        if c == '-' {
            match digits_up_to(s, 1, 2147483648) {
                Some(v) => {
                    assert(all_digits(s@.drop_first()));
                    assert(decimal_of(s@) == Some(-v));
                    Some((-v) as i32)
                },
                None => None,
            }
        } else {
            match digits_up_to(s, 1, 2147483647) {
                Some(v) => {
                    assert(all_digits(s@.drop_first()));
                    assert(decimal_of(s@) == Some(v as int));
                    Some(v as i32)
                },
                None => None,
            }
        }
    } else {
        proof {
            assert(s@.skip(0) =~= s@);
        }
        match digits_up_to(s, 0, 2147483647) {
            Some(v) => {
                assert(all_digits(s@));
                assert(decimal_of(s@) == Some(v as int));
                Some(v as i32)
            },
            None => None,
        }
    }
}

/// Parses `s` as a decimal `i32`, falling back to zero when it is not one.
pub fn parse_int_or_zero(s: &str) -> (r: i32)
    ensures
        r == int_or_zero(s@),
{
    match parse_i32_decimal(s) {
        Some(v) => v,
        None => 0,
    }
}

/// Whether `p` occurs in `s` starting at position `i`.
pub open spec fn occurs_at(s: Seq<char>, p: Seq<char>, i: int) -> bool {
    0 <= i && i + p.len() <= s.len() && s.subrange(i, i + p.len()) == p
}

/// Whether `s` begins with `p`.
pub open spec fn has_prefix(s: Seq<char>, p: Seq<char>) -> bool {
    occurs_at(s, p, 0)
}

/// Whether `p` occurs anywhere in `s` (the empty sequence occurs in every `s`).
pub open spec fn has_substring(s: Seq<char>, p: Seq<char>) -> bool {
    exists|i: int| occurs_at(s, p, i)
}

/// Whether `p` occurs in `s` at character position `i`.
fn matches_at(s: &str, p: &str, i: usize) -> (r: bool)
    requires
        i <= s@.len(),
    ensures
        r == occurs_at(s@, p@, i as int),
{
    let n = s.unicode_len();
    let m = p.unicode_len();
    if m > n - i {
        return false;
    }
    let mut k: usize = 0;
    while k < m
        invariant
            n == s@.len(),
            m == p@.len(),
            i + m <= n,
            0 <= k <= m,
            forall|j: int| 0 <= j < k ==> s@[i + j] == #[trigger] p@[j],
        decreases m - k,
    {
        if s.get_char(i + k) != p.get_char(k) {
            proof {
                assert(s@.subrange(i as int, i + m)[k as int] != p@[k as int]);
            }
            return false;
        }
        k = k + 1;
    }
    proof {
        assert(s@.subrange(i as int, i + m) =~= p@);
    }
    true
}

/// Whether `s` begins with `p`.
pub fn starts_with(s: &str, p: &str) -> (r: bool)
    ensures
        r == has_prefix(s@, p@),
{
    matches_at(s, p, 0)
}

/// Whether `s` and `p` are the same text.
pub fn same_text(s: &str, p: &str) -> (r: bool)
    ensures
        r == (s@ == p@),
{
    let b = s.unicode_len() == p.unicode_len() && matches_at(s, p, 0);
    proof {
        if s@.len() == p@.len() {
            assert(s@.subrange(0, p@.len() as int) =~= s@);
        }
    }
    b
}

/// Whether `p` occurs anywhere in `s`.
pub fn contains_text(s: &str, p: &str) -> (r: bool)
    ensures
        r == has_substring(s@, p@),
{
    let n = s.unicode_len();
    let m = p.unicode_len();
    if m > n {
        return false;
    }
    let mut i: usize = 0;
    loop
        invariant
            n == s@.len(),
            m == p@.len(),
            m <= n,
            0 <= i <= n - m,
            forall|j: int| 0 <= j < i ==> !occurs_at(s@, p@, j),
        ensures
            forall|j: int| !occurs_at(s@, p@, j),
        decreases n - m - i,
    {
        if matches_at(s, p, i) {
            return true;
        }
        if i == n - m {
            proof {
                assert forall|j: int| !occurs_at(s@, p@, j) by {
                    if j < i {
                    }
                }
            }
            break;
        }
        i = i + 1;
    }
    false
}

} // verus!
