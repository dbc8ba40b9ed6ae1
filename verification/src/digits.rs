//! Decimal numerals: rendering and parsing of integers written in ASCII digits.
use vstd::prelude::*;

verus! {

pub open spec fn is_digit(b: u8) -> bool {
    48 <= b <= 57
}

pub open spec fn all_digits(s: Seq<u8>) -> bool {
    forall|i: int| 0 <= i < s.len() ==> is_digit(#[trigger] s[i])
}

/// The number written by a sequence of ASCII digits, most significant first.
pub open spec fn digits_value(s: Seq<u8>) -> int
    decreases s.len(),
{
    if s.len() == 0 {
        0
    } else {
        digits_value(s.drop_last()) * 10 + (s.last() - 48)
    }
}

/// The shortest decimal numeral of a natural number.
pub open spec fn decimal_nat(n: nat) -> Seq<u8>
    decreases n,
{
    if n < 10 {
        seq![(n + 48) as u8]
    } else {
        decimal_nat(n / 10).push((n % 10 + 48) as u8)
    }
}

/// The decimal numeral of an integer, with a leading `-` when it is negative.
pub open spec fn decimal_int(n: int) -> Seq<u8> {
    if n < 0 {
        seq![45u8] + decimal_nat((-n) as nat)
    } else {
        decimal_nat(n as nat)
    }
}

/// What Rust's `from_str` for a signed integer type accepts, before the range check:
/// an optional `+` or `-`, then one or more ASCII digits.
pub open spec fn parse_signed(s: Seq<u8>) -> Option<int> {
    if s.len() == 0 {
        None
    } else if s[0] == 45 {
        let t = s.drop_first();
        if t.len() > 0 && all_digits(t) {
            Some(-digits_value(t))
        } else {
            None
        }
    } else if s[0] == 43 {
        let t = s.drop_first();
        if t.len() > 0 && all_digits(t) {
            Some(digits_value(t))
        } else {
            None
        }
    } else if all_digits(s) {
        Some(digits_value(s))
    } else {
        None
    }
}

/// What Rust's `from_str` for an unsigned integer type accepts, before the range check:
/// an optional `+`, then one or more ASCII digits.
pub open spec fn parse_unsigned(s: Seq<u8>) -> Option<int> {
    if s.len() == 0 {
        None
    } else if s[0] == 43 {
        let t = s.drop_first();
        if t.len() > 0 && all_digits(t) {
            Some(digits_value(t))
        } else {
            None
        }
    } else if all_digits(s) {
        Some(digits_value(s))
    } else {
        None
    }
}

/// `isize::from_str`: the signed grammar and the range of `isize`.
pub open spec fn parse_isize(s: Seq<u8>) -> Option<int> {
    match parse_signed(s) {
        Some(n) => if isize::MIN <= n <= isize::MAX {
            Some(n)
        } else {
            None
        },
        None => None,
    }
}

/// `from_str` of an unsigned type whose largest value is `max`.
pub open spec fn parse_bounded(s: Seq<u8>, max: int) -> Option<int> {
    match parse_unsigned(s) {
        Some(n) => if n <= max {
            Some(n)
        } else {
            None
        },
        None => None,
    }
}

pub proof fn lemma_digits_value_nonneg(s: Seq<u8>)
    requires
        all_digits(s),
    ensures
        digits_value(s) >= 0,
    decreases s.len(),
{
    if s.len() > 0 {
        lemma_digits_value_nonneg(s.drop_last());
    }
}

/// Reading more digits never makes the number smaller.
pub proof fn lemma_digits_value_prefix(s: Seq<u8>, i: int)
    requires
        all_digits(s),
        0 <= i <= s.len(),
    ensures
        digits_value(s.take(i)) <= digits_value(s),
    decreases s.len() - i,
{
    if i < s.len() {
        lemma_digits_value_prefix(s, i + 1);
        assert(s.take(i + 1).drop_last() =~= s.take(i));
        lemma_digits_value_nonneg(s.take(i));
    } else {
        assert(s.take(i) =~= s);
    }
}

pub proof fn lemma_decimal_nat(n: nat)
    ensures
        decimal_nat(n).len() >= 1,
        all_digits(decimal_nat(n)),
        digits_value(decimal_nat(n)) == n,
    decreases n,
{
    if n >= 10 {
        lemma_decimal_nat(n / 10);
        let s = decimal_nat(n);
        assert(s.drop_last() =~= decimal_nat(n / 10));
        assert(0 <= n % 10 < 10);
        assert(s.last() as int == n % 10 + 48);
        assert(n == (n / 10) * 10 + n % 10);
        assert(digits_value(s) == digits_value(s.drop_last()) * 10 + (s.last() - 48));
        assert forall|i: int| 0 <= i < s.len() implies is_digit(#[trigger] s[i]) by {
            if i < s.len() - 1 {
                assert(s[i] == decimal_nat(n / 10)[i]);
            }
        }
    } else {
        let s = decimal_nat(n);
        assert(s.drop_last() =~= Seq::<u8>::empty());
        assert(s.last() as int == n + 48);
        assert(digits_value(s.drop_last()) == 0);
    }
}

/// Reading back the numeral of an integer gives the integer.
pub proof fn lemma_parse_decimal_int(n: int)
    ensures
        parse_signed(decimal_int(n)) == Some(n),
{
    if n < 0 {
        let m = (-n) as nat;
        lemma_decimal_nat(m);
        let s = decimal_int(n);
        assert(s.drop_first() =~= decimal_nat(m));
    } else {
        lemma_decimal_nat(n as nat);
        let s = decimal_nat(n as nat);
        assert(is_digit(s[0]));
    }
}

/// Reading back the numeral of a natural number with the unsigned grammar gives the number.
pub proof fn lemma_parse_decimal_nat(n: nat)
    ensures
        parse_unsigned(decimal_nat(n)) == Some(n as int),
{
    lemma_decimal_nat(n);
    assert(is_digit(decimal_nat(n)[0]));
}

/// Parses `s[start..end]` as ASCII digits whose value is at most `limit`.
pub fn digits_at_most(s: &[u8], start: usize, end: usize, limit: u64) -> (res: Option<u64>)
    requires
        start <= end <= s@.len(),
    ensures
        ({
            let t = s@.subrange(start as int, end as int);
            match res {
                Some(v) => all_digits(t) && v == digits_value(t) && v <= limit,
                None => !(all_digits(t) && digits_value(t) <= limit),
            }
        }),
{
    let ghost t = s@.subrange(start as int, end as int);
    let mut v: u128 = 0;
    let mut i = start;
    while i < end
        invariant
            start <= i <= end <= s@.len(),
            t == s@.subrange(start as int, end as int),
            all_digits(t.take(i - start)),
            v == digits_value(t.take(i - start)),
            v <= limit,
        decreases end - i,
    {
        let b = s[i];
        if b < 48 || b > 57 {
            assert(!is_digit(t[i - start]));
            return None;
        }
        let next: u128 = v * 10 + (b - 48) as u128;
        proof {
            assert(t.take(i - start + 1).drop_last() =~= t.take(i - start));
            assert(t.take(i - start + 1).last() == b);
        }
        if next > limit as u128 {
            proof {
                if all_digits(t) {
                    lemma_digits_value_prefix(t, i - start + 1);
                }
            }
            return None;
        }
        v = next;
        i = i + 1;
        proof {
            assert forall|k: int| 0 <= k < t.take(i - start).len() implies is_digit(
                #[trigger] t.take(i - start)[k],
            ) by {
                if k < i - start - 1 {
                    assert(t.take(i - start)[k] == t.take(i - start - 1)[k]);
                }
            }
        }
    }
    assert(t.take(end - start) =~= t);
    Some(v as u64)
}

/// Reads `s[start..end]` with Rust's grammar for unsigned integers, keeping
/// only values at most `max`.
pub fn parse_unsigned_range(s: &[u8], start: usize, end: usize, max: u64) -> (res: Option<u64>)
    requires
        start <= end <= s@.len(),
    ensures
        ({
            let t = s@.subrange(start as int, end as int);
            match res {
                Some(v) => parse_bounded(t, max as int) == Some(v as int),
                None => parse_bounded(t, max as int) is None,
            }
        }),
{
    let ghost t = s@.subrange(start as int, end as int);
    if start == end {
        return None;
    }
    if s[start] == 43u8 {
        assert(t.drop_first() =~= s@.subrange(start + 1, end as int));
        if start + 1 == end {
            return None;
        }
        digits_at_most(s, start + 1, end, max)
    } else {
        proof {
            if all_digits(t) {
                lemma_digits_value_nonneg(t);
            }
        }
        digits_at_most(s, start, end, max)
    }
}

/// Reads `s[start..end]` as `isize::from_str` does.
pub fn parse_isize_range(s: &[u8], start: usize, end: usize) -> (res: Option<isize>)
    requires
        start <= end <= s@.len(),
    ensures
        ({
            let t = s@.subrange(start as int, end as int);
            match res {
                Some(v) => parse_isize(t) == Some(v as int),
                None => parse_isize(t) is None,
            }
        }),
{
    let ghost t = s@.subrange(start as int, end as int);
    if start == end {
        return None;
    }
    let max: u64 = isize::MAX as u64;
    if s[start] == 45u8 {
        assert(t.drop_first() =~= s@.subrange(start + 1, end as int));
        if start + 1 == end {
            return None;
        }
        match digits_at_most(s, start + 1, end, max + 1) {
            Some(m) => {
                let r: i128 = -(m as i128);
                Some(r as isize)
            },
            None => None,
        }
    } else if s[start] == 43u8 {
        assert(t.drop_first() =~= s@.subrange(start + 1, end as int));
        if start + 1 == end {
            return None;
        }
        match digits_at_most(s, start + 1, end, max) {
            Some(m) => Some(m as isize),
            None => {
                proof {
                    let u = s@.subrange(start + 1, end as int);
                    if all_digits(u) {
                        lemma_digits_value_nonneg(u);
                    }
                }
                None
            },
        }
    } else {
        match digits_at_most(s, start, end, max) {
            Some(m) => Some(m as isize),
            None => {
                proof {
                    if all_digits(t) {
                        lemma_digits_value_nonneg(t);
                    }
                }
                None
            },
        }
    }
}

} // verus!
