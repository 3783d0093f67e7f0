use vstd::prelude::*;
use vstd::string::*;

use crate::literal::JsNumber;

verus! {

/// The largest integer below which every integer is exactly a double: 2^53.
pub const EXACT_INTEGER_LIMIT: u64 = 0x20_0000_0000_0000u64;

/// 2^52, the weight of the leading mantissa bit of a double.
pub const MANTISSA_LEAD: u64 = 0x10_0000_0000_0000u64;

/// The character of a decimal digit.
pub open spec fn digit_char(d: nat) -> char {
    if d == 0 { '0' } else if d == 1 { '1' } else if d == 2 { '2' } else if d == 3 { '3' }
    else if d == 4 { '4' } else if d == 5 { '5' } else if d == 6 { '6' } else if d == 7 { '7' }
    else if d == 8 { '8' } else { '9' }
}

/// Whether `c` is a decimal digit.
pub open spec fn is_digit(c: char) -> bool {
    '0' <= c && c <= '9'
}

/// The value of a decimal digit character.
pub open spec fn digit_value(c: char) -> nat {
    (c as int - 48) as nat
}

/// The decimal text of a natural number, without leading zeros.
pub open spec fn decimal_text(n: nat) -> Seq<char>
    decreases n,
{
    if n < 10 {
        seq![digit_char(n)]
    } else {
        decimal_text(n / 10).push(digit_char(n % 10))
    }
}

/// The value of a sequence of decimal digits.
pub open spec fn decimal_value(d: Seq<char>) -> nat
    decreases d.len(),
{
    if d.len() == 0 {
        0
    } else {
        decimal_value(d.drop_last()) * 10 + digit_value(d.last())
    }
}

/// Whether every character is a decimal digit.
pub open spec fn all_digits(d: Seq<char>) -> bool {
    forall|i: int| 0 <= i < d.len() ==> is_digit(#[trigger] d[i])
}

/// The digits part of an unsigned integer text: everything after an
/// optional leading `+`.
pub open spec fn unsigned_digits(s: Seq<char>) -> Seq<char> {
    if s.len() > 0 && s[0] == '+' {
        s.skip(1)
    } else {
        s
    }
}

/// What parsing `s` as a `usize` gives: its value when `s` is an optional
/// `+` followed by at least one decimal digit and the value fits.
pub open spec fn parse_usize_spec(s: Seq<char>) -> Option<usize> {
    let d = unsigned_digits(s);
    if d.len() > 0 && all_digits(d) && decimal_value(d) <= usize::MAX {
        Some(decimal_value(d) as usize)
    } else {
        None
    }
}

/// A decimal digit as a one-character string.
fn digit_str(d: usize) -> (r: &'static str)
    requires
        d < 10,
    ensures
        r@ == seq![digit_char(d as nat)],
{
    proof {
        reveal_strlit("0");
        reveal_strlit("1");
        reveal_strlit("2");
        reveal_strlit("3");
        reveal_strlit("4");
        reveal_strlit("5");
        reveal_strlit("6");
        reveal_strlit("7");
        reveal_strlit("8");
        reveal_strlit("9");
    }
    if d == 0 {
        "0"
    } else if d == 1 {
        "1"
    } else if d == 2 {
        "2"
    } else if d == 3 {
        "3"
    } else if d == 4 {
        "4"
    } else if d == 5 {
        "5"
    } else if d == 6 {
        "6"
    } else if d == 7 {
        "7"
    } else if d == 8 {
        "8"
    } else {
        "9"
    }
}

/// The decimal text of `n`.
pub fn usize_to_decimal(n: usize) -> (r: String)
    ensures
        r@ == decimal_text(n as nat),
    decreases n,
{
    if n < 10 {
        String::from_str(digit_str(n))
    } else {
        let mut s = usize_to_decimal(n / 10);
        s.append(digit_str(n % 10));
        s
    }
}

proof fn lemma_decimal_text_digits(n: nat)
    ensures
        all_digits(decimal_text(n)),
        decimal_text(n).len() > 0,
        decimal_value(decimal_text(n)) == n,
        decimal_text(n)[0] != '+',
    decreases n,
{
    if n < 10 {
        assert(digit_value(digit_char(n)) == n);
        let t = decimal_text(n);
        assert(t.drop_last() =~= Seq::<char>::empty());
        assert(decimal_value(t.drop_last()) == 0);
        assert(t.last() == digit_char(n));
        assert(decimal_value(t) == decimal_value(t.drop_last()) * 10 + digit_value(t.last()));
    } else {
        lemma_decimal_text_digits(n / 10);
        let t = decimal_text(n);
        assert(t.drop_last() =~= decimal_text(n / 10));
        assert(t.last() == digit_char(n % 10));
        assert(t.len() > 0);
        assert(decimal_value(t) == decimal_value(t.drop_last()) * 10 + digit_value(t.last()));
        assert(n == (n / 10) * 10 + n % 10);
        assert(decimal_value(t.drop_last()) == n / 10);
        assert(digit_value(digit_char(n % 10)) == n % 10);
        assert forall|i: int| 0 <= i < t.len() implies is_digit(#[trigger] t[i]) by {
            if i < t.len() - 1 {
                assert(t[i] == decimal_text(n / 10)[i]);
            }
        }
        assert(t[0] == decimal_text(n / 10)[0]);
    }
}

/// Parsing the decimal text of a number gives the number back.
pub proof fn law_parse_usize_of_decimal(n: usize)
    ensures
        parse_usize_spec(decimal_text(n as nat)) == Some(n),
{
    lemma_decimal_text_digits(n as nat);
    assert(unsigned_digits(decimal_text(n as nat)) == decimal_text(n as nat));
}

proof fn lemma_decimal_value_monotone(d: Seq<char>, k: int)
    requires
        0 <= k <= d.len(),
        all_digits(d),
    ensures
        decimal_value(d.subrange(0, k)) <= decimal_value(d),
    decreases d.len() - k,
{
    if k < d.len() {
        lemma_decimal_value_monotone(d, k + 1);
        let p = d.subrange(0, k + 1);
        assert(p.drop_last() =~= d.subrange(0, k));
        assert(decimal_value(p) == decimal_value(d.subrange(0, k)) * 10 + digit_value(p.last()));
    } else {
        assert(d.subrange(0, k) =~= d);
    }
}

/// Parses `s` as Rust's `usize::from_str` does.
pub fn parse_usize(s: &str) -> (r: Option<usize>)
    ensures
        r == parse_usize_spec(s@),
{
    let n = s.unicode_len();
    let mut i: usize = 0;
    if n > 0 && s.get_char(0) == '+' {
        i = 1;
    }
    let start = i;
    let ghost d = unsigned_digits(s@);
    proof {
        assert(d =~= s@.skip(start as int));
    }
    if i == n {
        proof {
            assert(d.len() == 0);
        }
        return None;
    }
    let mut v: usize = 0;
    while i < n
        invariant
            n == s@.len(),
            start <= i <= n,
            d =~= s@.skip(start as int),
            d == unsigned_digits(s@),
            all_digits(s@.subrange(start as int, i as int)),
            v as nat == decimal_value(s@.subrange(start as int, i as int)),
        decreases n - i,
    {
        let c = s.get_char(i);
        if !('0' <= c && c <= '9') {
            proof {
                assert(d[i - start] == c);
                assert(!is_digit(d[i - start]));
                assert(!all_digits(d));
            }
            return None;
        }
        let dv: usize = (c as u32 - 48u32) as usize;
        let ghost p = s@.subrange(start as int, i + 1);
        proof {
            assert(p.drop_last() =~= s@.subrange(start as int, i as int));
            assert(p.last() == c);
        }
        match v.checked_mul(10) {
            Some(v10) => match v10.checked_add(dv) {
                Some(nv) => {
                    v = nv;
                },
                None => {
                    proof {
                        lemma_first_bad_or_big(s@, start as int, i + 1, d);
                    }
                    return None;
                },
            },
            None => {
                proof {
                    assert(decimal_value(p) >= v * 10);
                    lemma_first_bad_or_big(s@, start as int, i + 1, d);
                }
                return None;
            },
        }
        i = i + 1;
        proof {
            assert forall|j: int| 0 <= j < s@.subrange(start as int, i as int).len() implies is_digit(
                #[trigger] s@.subrange(start as int, i as int)[j],
            ) by {
                if j < i - 1 - start {
                    assert(s@.subrange(start as int, i as int)[j] == s@.subrange(start as int, i - 1)[j]);
                }
            }
        }
    }
    proof {
        assert(s@.subrange(start as int, n as int) =~= d);
    }
    Some(v)
}

/// When a prefix of the digits already exceeds `usize::MAX`, the whole text
/// does not parse.
proof fn lemma_first_bad_or_big(s: Seq<char>, start: int, k: int, d: Seq<char>)
    requires
        d == unsigned_digits(s),
        0 <= start < k <= s.len(),
        d =~= s.skip(start),
        all_digits(s.subrange(start, k)),
        decimal_value(s.subrange(start, k)) > usize::MAX,
    ensures
        parse_usize_spec(s) is None,
{
    if all_digits(d) && d.len() > 0 {
        assert(d.subrange(0, k - start) =~= s.subrange(start, k));
        lemma_decimal_value_monotone(d, k - start);
    }
}

/// Normalizes `m * 2^(e - 52)` until the mantissa `m` has its top (53rd)
/// bit set or the exponent runs out.
pub open spec fn normalize(m: nat, e: nat) -> (nat, nat)
    decreases e,
{
    if m >= MANTISSA_LEAD || e == 0 {
        (m, e)
    } else {
        normalize(2 * m, (e - 1) as nat)
    }
}

/// The IEEE double bit pattern of an integer `n` below 2^53: biased
/// exponent `1023 + e` and the mantissa without its leading bit.
pub open spec fn index_bits(n: nat) -> nat {
    if n == 0 {
        0
    } else {
        let (m, e) = normalize(n, 52);
        ((1023 + e) * MANTISSA_LEAD + m - MANTISSA_LEAD) as nat
    }
}

impl JsNumber {
    /// The number `n`, for `n` below 2^53 (where every integer is exactly a
    /// double): its bit pattern and its decimal text.
    pub fn from_index(n: u64) -> (r: JsNumber)
        requires
            n < EXACT_INTEGER_LIMIT,
        ensures
            r.bits == index_bits(n as nat),
            r.text@ == decimal_text(n as nat),
    {
        let text = usize_to_decimal_u64(n);
        if n == 0 {
            return JsNumber { bits: 0, text };
        }
        let mut m: u64 = n;
        let mut e: u64 = 52;
        let ghost mut scale: nat = 1;
        while m < MANTISSA_LEAD && e > 0
            invariant
                0 < n < EXACT_INTEGER_LIMIT,
                0 < m < EXACT_INTEGER_LIMIT,
                e <= 52,
                normalize(m as nat, e as nat) == normalize(n as nat, 52),
            decreases e,
        {
            m = m * 2;
            e = e - 1;
        }
        proof {
            assert(normalize(m as nat, e as nat) == (m as nat, e as nat));
            assert(m >= MANTISSA_LEAD) by {
                if m < MANTISSA_LEAD {
                    lemma_normalize_reaches(n as nat);
                }
            }
        }
        let bits = (1023 + e) * MANTISSA_LEAD + m - MANTISSA_LEAD;
        JsNumber { bits, text }
    }
}

/// Normalizing a positive integer below 2^53 with 52 exponent steps ends
/// with the mantissa's top bit set.
proof fn lemma_normalize_reaches(n: nat)
    requires
        0 < n < EXACT_INTEGER_LIMIT,
    ensures
        normalize(n, 52).0 >= MANTISSA_LEAD,
        normalize(n, 52).0 < EXACT_INTEGER_LIMIT,
{
    lemma_pow2_52();
    assert(n * MANTISSA_LEAD >= MANTISSA_LEAD) by (nonlinear_arith)
        requires
            n >= 1,
    ;
    lemma_normalize_general(n, 52);
}

proof fn lemma_normalize_general(m: nat, e: nat)
    requires
        0 < m < EXACT_INTEGER_LIMIT,
        e <= 52,
        m * pow2_nat(e) >= MANTISSA_LEAD,
    ensures
        normalize(m, e).0 >= MANTISSA_LEAD,
        normalize(m, e).0 < EXACT_INTEGER_LIMIT,
    decreases e,
{
    if m >= MANTISSA_LEAD || e == 0 {
        if e == 0 {
            assert(pow2_nat(0) == 1);
            let p = pow2_nat(0);
            assert(m * p == m) by (nonlinear_arith)
                requires
                    p == 1,
            ;
        }
    } else {
        assert(pow2_nat(e) == 2 * pow2_nat((e - 1) as nat));
        assert(m * (2 * pow2_nat((e - 1) as nat)) == (2 * m) * pow2_nat((e - 1) as nat)) by (nonlinear_arith);
        lemma_normalize_general(2 * m, (e - 1) as nat);
    }
}

/// `n` written as `m * 2^(e - 52)` with `m` a 53-bit mantissa whose top
/// bit is set: the binary exponent `e` and mantissa `m` of the double `n`.
pub open spec fn normalized(n: nat, e: nat, m: nat) -> bool {
    &&& e <= 52
    &&& MANTISSA_LEAD <= m < EXACT_INTEGER_LIMIT
    &&& m == n * pow2_nat((52 - e) as nat)
}

/// 2 to the power `k`.
pub open spec fn pow2_nat(k: nat) -> nat
    decreases k,
{
    if k == 0 {
        1
    } else {
        2 * pow2_nat((k - 1) as nat)
    }
}

proof fn lemma_pow2_52()
    ensures
        pow2_nat(52) == MANTISSA_LEAD,
{
    reveal_with_fuel(pow2_nat, 53);
}

/// The decimal text of a 64-bit number.
pub fn usize_to_decimal_u64(n: u64) -> (r: String)
    ensures
        r@ == decimal_text(n as nat),
    decreases n,
{
    if n < 10 {
        String::from_str(digit_str(n as usize))
    } else {
        let mut s = usize_to_decimal_u64(n / 10);
        s.append(digit_str((n % 10) as usize));
        s
    }
}

} // verus!
