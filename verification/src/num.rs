//! Decimal parsing and formatting for the numeric fields of the two logs:
//! ids (`u128`), timestamps (`i64`) and vector dimensions (`usize`).
//!
//! Parsing accepts what the standard integer parsers accept: an optional
//! sign (`+` only for the unsigned kinds), then at least one digit, and a
//! value that fits the type.

use vstd::prelude::*;

verus! {

pub open spec fn is_digit(c: char) -> bool {
    48 <= c as u32 && c as u32 <= 57
}

pub open spec fn digit_val(c: char) -> int {
    c as u32 - 48
}

pub open spec fn all_digits(s: Seq<char>) -> bool {
    forall|i: int| 0 <= i < s.len() ==> is_digit(s[i])
}

/// The value of a digit string, most significant digit first.
pub open spec fn digits_val(s: Seq<char>) -> int
    decreases s.len(),
{
    if s.len() == 0 {
        0
    } else {
        digits_val(s.drop_last()) * 10 + digit_val(s.last())
    }
}

/// The digit part of an unsigned number: an optional leading `+` dropped.
pub open spec fn unsigned_body(s: Seq<char>) -> Seq<char> {
    if s.len() > 0 && s[0] == '+' {
        s.drop_first()
    } else {
        s
    }
}

/// An unsigned decimal that fits below `max`.
pub open spec fn unsigned_ok(s: Seq<char>, max: int) -> bool {
    let b = unsigned_body(s);
    b.len() > 0 && all_digits(b) && digits_val(b) <= max
}

pub open spec fn parse_u128_spec(s: Seq<char>) -> Option<u128> {
    if unsigned_ok(s, u128::MAX as int) {
        Some(digits_val(unsigned_body(s)) as u128)
    } else {
        None
    }
}

pub open spec fn parse_usize_spec(s: Seq<char>) -> Option<usize> {
    if unsigned_ok(s, usize::MAX as int) {
        Some(digits_val(unsigned_body(s)) as usize)
    } else {
        None
    }
}

/// The digit part of a signed number: an optional leading `+` or `-` dropped.
pub open spec fn signed_body(s: Seq<char>) -> Seq<char> {
    if s.len() > 0 && (s[0] == '+' || s[0] == '-') {
        s.drop_first()
    } else {
        s
    }
}

pub open spec fn signed_neg(s: Seq<char>) -> bool {
    s.len() > 0 && s[0] == '-'
}

/// The signed value of a decimal with an optional sign.
pub open spec fn signed_val(s: Seq<char>) -> int {
    if signed_neg(s) {
        -digits_val(signed_body(s))
    } else {
        digits_val(signed_body(s))
    }
}

pub open spec fn parse_i64_spec(s: Seq<char>) -> Option<i64> {
    let b = signed_body(s);
    if b.len() > 0 && all_digits(b) && i64::MIN <= signed_val(s) && signed_val(s) <= i64::MAX {
        Some(signed_val(s) as i64)
    } else {
        None
    }
}

proof fn lemma_digits_val_nonneg(s: Seq<char>)
    requires
        all_digits(s),
    ensures
        digits_val(s) >= 0,
    decreases s.len(),
{
    if s.len() > 0 {
        assert(all_digits(s.drop_last())) by {
            assert(forall|i: int|
                0 <= i < s.drop_last().len() ==> s.drop_last()[i] == s[i] && is_digit(s[i]));
        }
        lemma_digits_val_nonneg(s.drop_last());
    }
}

/// Appending digits never shrinks the value.
proof fn lemma_digits_val_monotone(s: Seq<char>, i: int)
    requires
        all_digits(s),
        0 <= i <= s.len(),
    ensures
        digits_val(s) >= digits_val(s.take(i)),
    decreases s.len(),
{
    if i == s.len() {
        assert(s.take(i) =~= s);
    } else {
        let d = s.drop_last();
        assert(all_digits(d)) by {
            assert(forall|k: int| 0 <= k < d.len() ==> d[k] == s[k] && is_digit(s[k]));
        }
        lemma_digits_val_monotone(d, i);
        assert(d.take(i) =~= s.take(i));
        lemma_digits_val_nonneg(d);
        assert(digits_val(s) == digits_val(d) * 10 + digit_val(s.last()));
        assert(is_digit(s.last()));
        assert(digits_val(s) >= digits_val(d));
    }
}

proof fn lemma_digits_val_push(s: Seq<char>, c: char)
    ensures
        digits_val(s.push(c)) == digits_val(s) * 10 + digit_val(c),
{
    assert(s.push(c).drop_last() =~= s);
    assert(s.push(c).last() == c);
}

/// Parses an unsigned decimal the way `u128::from_str` does: an optional
/// `+`, then one or more digits, rejecting overflow.
pub fn parse_u128(s: &Vec<char>) -> (r: Option<u128>)
    ensures
        r == parse_u128_spec(s@),
{
    let mut i: usize = 0;
    if s.len() > 0 && s[0] == '+' {
        i = 1;
    }
    let ghost start = i as int;
    let ghost b = unsigned_body(s@);
    proof {
        assert(b =~= s@.skip(start));
    }
    if i == s.len() {
        return None;
    }
    let mut acc: u128 = 0;
    while i < s.len()
        invariant
            0 <= start <= 1,
            start <= i <= s.len(),
            b == s@.skip(start),
            b == unsigned_body(s@),
            b.len() == s@.len() - start,
            all_digits(b.take(i - start)),
            acc == digits_val(b.take(i - start)),
        decreases s.len() - i,
    {
        let ghost k = i - start;
        let c = s[i];
        proof {
            assert(b[k] == s@.skip(start)[k]);
            assert(s@.skip(start)[k] == s@[k + start]);
            assert(b[k] == c);
        }
        let u = c as u32;
        if u < 48 || u > 57 {
            proof {
                assert(!is_digit(b[k]));
                assert(!all_digits(b));
            }
            return None;
        }
        let d = (u - 48) as u128;
        proof {
            assert(b.take(k + 1) =~= b.take(k).push(b[k]));
            lemma_digits_val_push(b.take(k), b[k]);
        }
        if acc > u128::MAX / 10 || d > u128::MAX - (acc * 10) {
            proof {
                if acc > u128::MAX / 10 {
                    assert(acc >= u128::MAX / 10 + 1);
                    assert(acc * 10 >= (u128::MAX / 10 + 1) * 10);
                    assert(acc * 10 > u128::MAX);
                }
                assert(acc * 10 + digit_val(b[k]) > u128::MAX);
                assert(digits_val(b.take(k + 1)) > u128::MAX);
                if all_digits(b) {
                    lemma_digits_val_monotone(b, k + 1);
                    assert(digits_val(b) > u128::MAX);
                }
            }
            return None;
        }
        acc = acc * 10 + d;
        i = i + 1;
    }
    proof {
        assert(b.take(s@.len() - start) =~= b);
    }
    Some(acc)
}

/// Parses a `usize` the way `usize::from_str` does.
pub fn parse_usize(s: &Vec<char>) -> (r: Option<usize>)
    ensures
        r == parse_usize_spec(s@),
{
    match parse_u128(s) {
        Some(v) => {
            proof {
                lemma_digits_val_nonneg(unsigned_body(s@));
            }
            if v <= usize::MAX as u128 {
                proof {
                    assert(unsigned_ok(s@, usize::MAX as int));
                    assert(v as usize == digits_val(unsigned_body(s@)) as usize);
                }
                Some(v as usize)
            } else {
                proof {
                    assert(digits_val(unsigned_body(s@)) > usize::MAX as int);
                }
                None
            }
        },
        None => {
            proof {
                if unsigned_ok(s@, usize::MAX as int) {
                    lemma_digits_val_nonneg(unsigned_body(s@));
                    assert(usize::MAX as int <= u128::MAX as int);
                    assert(unsigned_ok(s@, u128::MAX as int));
                }
            }
            None
        },
    }
}

/// Parses a signed decimal the way `i64::from_str` does: an optional `+`
/// or `-`, then one or more digits, rejecting overflow.
pub fn parse_i64(s: &Vec<char>) -> (r: Option<i64>)
    ensures
        r == parse_i64_spec(s@),
{
    let mut i: usize = 0;
    let mut neg = false;
    if s.len() > 0 && (s[0] == '+' || s[0] == '-') {
        neg = s[0] == '-';
        i = 1;
    }
    let ghost start = i as int;
    let ghost b = signed_body(s@);
    proof {
        assert(b =~= s@.skip(start));
        assert(neg == signed_neg(s@));
    }
    if i == s.len() {
        return None;
    }
    let limit: u64 = if neg {
        9223372036854775808
    } else {
        9223372036854775807
    };
    let mut acc: u64 = 0;
    while i < s.len()
        invariant
            0 <= start <= 1,
            start <= i <= s.len(),
            b == s@.skip(start),
            b == signed_body(s@),
            neg == signed_neg(s@),
            b.len() == s@.len() - start,
            limit == if neg {
                9223372036854775808u64
            } else {
                9223372036854775807u64
            },
            all_digits(b.take(i - start)),
            acc == digits_val(b.take(i - start)),
            acc <= limit,
        decreases s.len() - i,
    {
        let ghost k = i - start;
        let c = s[i];
        proof {
            assert(b[k] == s@.skip(start)[k]);
            assert(s@.skip(start)[k] == s@[k + start]);
            assert(b[k] == c);
        }
        let u = c as u32;
        if u < 48 || u > 57 {
            proof {
                assert(!is_digit(b[k]));
                assert(!all_digits(b));
            }
            return None;
        }
        let d = (u - 48) as u64;
        proof {
            assert(b.take(k + 1) =~= b.take(k).push(b[k]));
            lemma_digits_val_push(b.take(k), b[k]);
        }
        if acc > limit / 10 || d > limit - (acc * 10) {
            proof {
                if acc > limit / 10 {
                    assert(acc >= limit / 10 + 1);
                    assert(acc * 10 >= (limit / 10 + 1) * 10);
                    assert(acc * 10 > limit);
                }
                assert(acc * 10 + digit_val(b[k]) > limit);
                assert(digits_val(b.take(k + 1)) > limit);
                if all_digits(b) {
                    lemma_digits_val_monotone(b, k + 1);
                    assert(digits_val(b) > limit);
                }
            }
            return None;
        }
        acc = acc * 10 + d;
        i = i + 1;
    }
    proof {
        assert(b.take(s@.len() - start) =~= b);
    }
    if neg {
        if acc == 9223372036854775808 {
            Some(i64::MIN)
        } else {
            Some(-(acc as i64))
        }
    } else {
        Some(acc as i64)
    }
}

/// The decimal digits of a non-negative value, most significant first.
pub open spec fn dec_digits(n: int) -> Seq<char>
    decreases n,
{
    if n < 0 {
        Seq::empty()
    } else if n <= 9 {
        seq![((48 + n) as u8) as char]
    } else {
        dec_digits(n / 10) + seq![((48 + n % 10) as u8) as char]
    }
}

/// A signed value in decimal: a leading `-` for a negative one.
pub open spec fn int_digits(v: int) -> Seq<char> {
    if v < 0 {
        seq!['-'] + dec_digits(-v)
    } else {
        dec_digits(v)
    }
}

/// The decimal form of a value is digits only, at least one, and reads
/// back as the value.
pub proof fn lemma_dec_digits_props(n: int)
    requires
        n >= 0,
    ensures
        dec_digits(n).len() >= 1,
        all_digits(dec_digits(n)),
        digits_val(dec_digits(n)) == n,
    decreases n,
{
    if n <= 9 {
        let s = dec_digits(n);
        assert(s =~= seq![((48 + n) as u8) as char]);
        assert(s[0] as u32 == 48 + n);
        assert(is_digit(s[0]));
        assert(s.drop_last() =~= Seq::<char>::empty());
        assert(s.last() == s[0]);
        assert(digits_val(Seq::<char>::empty()) == 0);
        assert(digits_val(s) == digits_val(s.drop_last()) * 10 + digit_val(s.last()));
        assert(digits_val(s) == digit_val(s[0]));
    } else {
        let c = ((48 + n % 10) as u8) as char;
        let s = dec_digits(n);
        let h = dec_digits(n / 10);
        lemma_dec_digits_props(n / 10);
        assert(s == h + seq![c]);
        assert(s.drop_last() =~= h);
        assert(s.last() == c);
        assert(c as u32 == 48 + n % 10);
        assert(is_digit(c));
        assert(forall|i: int|
            0 <= i < s.len() ==> s[i] == (if i < h.len() {
                h[i]
            } else {
                c
            }));
        assert(all_digits(s));
        assert(digits_val(s) == digits_val(h) * 10 + digit_val(c));
        assert(digits_val(s) == (n / 10) * 10 + n % 10);
        assert((n / 10) * 10 + n % 10 == n) by (nonlinear_arith)
            requires
                n >= 0,
        ;
    }
}

/// `Display` then `parse` gives an unsigned value back.
pub proof fn lemma_parse_u128_digits(n: u128)
    ensures
        parse_u128_spec(dec_digits(n as int)) == Some(n),
{
    let s = dec_digits(n as int);
    lemma_dec_digits_props(n as int);
    assert(is_digit(s[0]));
    assert(s[0] as u32 >= 48);
    assert(s[0] != '+');
    assert(unsigned_body(s) == s);
    assert(unsigned_ok(s, u128::MAX as int));
}

/// `Display` then `parse` gives a dimension back.
pub proof fn lemma_parse_usize_digits(n: usize)
    ensures
        parse_usize_spec(dec_digits(n as int)) == Some(n),
{
    let s = dec_digits(n as int);
    lemma_dec_digits_props(n as int);
    assert(s[0] as u32 >= 48);
    assert(s[0] != '+');
    assert(unsigned_body(s) == s);
    assert(unsigned_ok(s, usize::MAX as int));
}

/// `Display` then `parse` gives a timestamp back.
pub proof fn lemma_parse_i64_digits(v: i64)
    ensures
        parse_i64_spec(int_digits(v as int)) == Some(v),
{
    let s = int_digits(v as int);
    if v < 0 {
        let m = dec_digits(-(v as int));
        lemma_dec_digits_props(-(v as int));
        assert(s == seq!['-'] + m);
        assert(s[0] == '-');
        assert(signed_body(s) =~= m);
        assert(signed_neg(s));
        assert(signed_val(s) == v as int);
    } else {
        lemma_dec_digits_props(v as int);
        assert(s == dec_digits(v as int));
        assert(is_digit(s[0]));
        assert(s[0] as u32 >= 48);
        assert(s[0] != '+' && s[0] != '-');
        assert(signed_body(s) == s);
        assert(!signed_neg(s));
        assert(signed_val(s) == v as int);
    }
}

/// Formats an unsigned value in decimal, as `Display` does.
pub fn format_u128(n: u128) -> (r: Vec<char>)
    ensures
        r@ == dec_digits(n as int),
{
    let mut out: Vec<char> = Vec::new();
    if n == 0 {
        out.push('0');
        proof {
            assert(out@ =~= dec_digits(0));
        }
        return out;
    }
    let mut m = n;
    proof {
        assert(dec_digits(n as int) + Seq::<char>::empty() =~= dec_digits(n as int));
    }
    while m > 0
        invariant
            m > 0 ==> dec_digits(n as int) == dec_digits(m as int) + out@,
            m == 0 ==> dec_digits(n as int) == out@,
        decreases m,
    {
        let ghost prev = out@;
        let d = (m % 10) as u8;
        let c = (48 + d) as char;
        out.insert(0, c);
        proof {
            assert(out@ =~= seq![c] + prev);
            if m <= 9 {
                assert(dec_digits(m as int) =~= seq![c]);
                assert(seq![c] + prev =~= dec_digits(m as int) + prev);
            } else {
                assert(dec_digits(m as int) == dec_digits(m as int / 10) + seq![c]);
                assert(dec_digits(m as int / 10) + (seq![c] + prev) =~= (dec_digits(
                    m as int / 10,
                ) + seq![c]) + prev);
                assert(m as int / 10 == (m / 10) as int);
            }
        }
        m = m / 10;
    }
    out
}

/// Formats a signed value in decimal, as `Display` does.
pub fn format_i64(v: i64) -> (r: Vec<char>)
    ensures
        r@ == int_digits(v as int),
{
    if v < 0 {
        let m = (-(v as i128)) as u128;
        let mut out = format_u128(m);
        let ghost digits = out@;
        out.insert(0, '-');
        proof {
            assert(out@ =~= seq!['-'] + digits);
        }
        out
    } else {
        format_u128(v as u128)
    }
}

} // verus!
