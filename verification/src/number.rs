//! Numbers written in decimal and in hexadecimal.
use vstd::prelude::*;
use vstd::arithmetic::div_mod::lemma_fundamental_div_mod;
use vstd::slice::slice_subrange;

verus! {

/// The digit of value `d`, in lower case; it means something below sixteen.
pub open spec fn digit_char(d: nat) -> char {
    if d < 10 {
        (d + '0' as nat) as char
    } else {
        (d - 10 + 'a' as nat) as char
    }
}

/// The value of a digit; `None` for what is no digit in base `base`.
pub open spec fn digit_value(c: char, base: nat) -> Option<nat> {
    let d = if '0' <= c <= '9' {
        (c as nat - '0' as nat) as nat
    } else if 'a' <= c <= 'f' {
        (c as nat - 'a' as nat + 10) as nat
    } else {
        16
    };
    if d < base && d < 16 {
        Some(d)
    } else {
        None
    }
}

/// `n` written in base `base`, with no leading zero but for zero itself.
pub open spec fn digits(n: nat, base: nat) -> Seq<char>
    decreases n,
{
    if n < base || base < 2 {
        seq![digit_char(n)]
    } else {
        proof {
            lemma_quotient_less(n, base);
        }
        digits(n / base, base).push(digit_char(n % base))
    }
}

/// Every character is a digit, and there is at least one.
pub open spec fn is_numeral(s: Seq<char>, base: nat) -> bool {
    &&& s.len() > 0
    &&& forall|i: int| 0 <= i < s.len() ==> digit_value(#[trigger] s[i], base) is Some
}

/// The number that a string of digits denotes.
pub open spec fn numeral_value(s: Seq<char>, base: nat) -> nat
    decreases s.len(),
{
    if s.len() == 0 {
        0
    } else {
        numeral_value(s.drop_last(), base) * base + digit_value(s.last(), base)->0
    }
}

/// Dividing by a base makes a number smaller.
pub proof fn lemma_quotient_less(n: nat, base: nat)
    requires
        base >= 2,
        n >= base,
    ensures
        n / base < n,
{
    assert(n / base < n) by (nonlinear_arith)
        requires
            base >= 2,
            n >= base,
    ;
}

/// What a number is written as reads back as that number.
pub proof fn lemma_digits_read_back(n: nat, base: nat)
    requires
        2 <= base <= 16,
    ensures
        is_numeral(digits(n, base), base),
        numeral_value(digits(n, base), base) == n,
    decreases n,
{
    if n < base {
        let s = digits(n, base);
        assert(s.drop_last() =~= seq![]);
        assert(digit_value(s[0], base) == Some(n));
        assert(numeral_value(s.drop_last(), base) == 0);
        assert(numeral_value(s, base) == 0 * base + n);
        assert(0 * base == 0) by (nonlinear_arith);
    } else {
        lemma_quotient_less(n, base);
        lemma_digits_read_back(n / base, base);
        lemma_fundamental_div_mod(n as int, base as int);
        let s = digits(n, base);
        let high = digits(n / base, base);
        assert(s.drop_last() =~= high);
        assert(n % base < base) by (nonlinear_arith)
            requires
                base >= 2,
        ;
        assert(digit_value(s.last(), base) == Some(n % base));
        assert((n / base) * base == base * (n / base)) by (nonlinear_arith);
        assert forall|i: int| 0 <= i < s.len() implies digit_value(#[trigger] s[i], base) is Some by {
            if i < high.len() {
                assert(s[i] == high[i]);
            }
        }
    }
}

/// A prefix of a numeral denotes no more than the whole.
proof fn lemma_prefix_value(s: Seq<char>, base: nat, k: int)
    requires
        base >= 1,
        0 <= k <= s.len(),
    ensures
        numeral_value(s.take(k), base) <= numeral_value(s, base),
    decreases s.len(),
{
    if k < s.len() {
        lemma_prefix_value(s.drop_last(), base, k);
        assert(s.drop_last().take(k) =~= s.take(k));
        let v = numeral_value(s.drop_last(), base);
        assert(v <= v * base) by (nonlinear_arith)
            requires
                base >= 1,
        ;
    } else {
        assert(s.take(k) =~= s);
    }
}

/// The number that `s` denotes as an unsigned decimal of at most `max`: an
/// optional plus sign, then digits only.
pub open spec fn parse_decimal(s: Seq<char>, max: nat) -> Option<nat> {
    let d = if s.len() > 0 && s[0] == '+' {
        s.skip(1)
    } else {
        s
    };
    if is_numeral(d, 10) && numeral_value(d, 10) <= max {
        Some(numeral_value(d, 10))
    } else {
        None
    }
}

/// A number that fits is read back from its decimal digits.
pub proof fn lemma_decimal_read_back(n: nat, max: nat)
    requires
        n <= max,
    ensures
        parse_decimal(digits(n, 10), max) == Some(n),
{
    lemma_digits_read_back(n, 10);
    let s = digits(n, 10);
    assert(digit_value(s[0], 10) is Some);
    assert(digit_value('+', 10) is None);
}

/// The number that the characters denote as an unsigned decimal of at most
/// `max`.
pub fn decimal(s: &[char], max: u64) -> (r: Option<u64>)
    ensures
        match r {
            Some(n) => parse_decimal(s@, max as nat) == Some(n as nat),
            None => parse_decimal(s@, max as nat) is None,
        },
{
    let start: usize = if s.len() > 0 && s[0] == '+' {
        1
    } else {
        0
    };
    let d = slice_subrange(s, start, s.len());
    assert(d@ =~= if start == 1 {
        s@.skip(1)
    } else {
        s@
    });
    if d.len() == 0 {
        return None;
    }
    let mut n: u64 = 0;
    let mut i: usize = 0;
    while i < d.len()
        invariant
            i <= d.len(),
            n <= max,
            n == numeral_value(d@.take(i as int), 10),
            forall|j: int| 0 <= j < i ==> digit_value(#[trigger] d@[j], 10) is Some,
            d@ == (if s@.len() > 0 && s@[0] == '+' {
                s@.skip(1)
            } else {
                s@
            }),
        decreases d.len() - i,
    {
        let c = d[i];
        if c < '0' || c > '9' {
            assert(digit_value(d@[i as int], 10) is None);
            return None;
        }
        let v: u64 = (c as u64) - ('0' as u64);
        proof {
            assert(d@.take(i + 1).drop_last() =~= d@.take(i as int));
            assert(digit_value(c, 10) == Some(v as nat));
            assert(numeral_value(d@.take(i + 1), 10) == n * 10 + v);
            lemma_prefix_value(d@, 10, i + 1);
        }
        if v > max || n > (max - v) / 10 {
            return None;
        }
        n = n * 10 + v;
        i += 1;
    }
    assert(d@.take(i as int) =~= d@);
    Some(n)
}

/// The digit of value `d`, in lower case.
fn digit(d: u64) -> (c: char)
    requires
        d < 16,
    ensures
        c == digit_char(d as nat),
{
    if d < 10 {
        ((d as u8) + ('0' as u8)) as char
    } else {
        ((d as u8) - 10 + ('a' as u8)) as char
    }
}

/// Appends `n` in base `base` to `out`.
pub fn push_digits(out: &mut String, n: u64, base: u64)
    requires
        2 <= base <= 16,
    ensures
        final(out)@ == old(out)@ + digits(n as nat, base as nat),
    decreases n,
{
    if n < base {
        out.push(digit(n));
        assert(out@ =~= old(out)@ + digits(n as nat, base as nat));
    } else {
        proof {
            lemma_quotient_less(n as nat, base as nat);
            lemma_fundamental_div_mod(n as int, base as int);
            assert(n as nat / base as nat == (n / base) as nat);
            assert(n as nat % base as nat == (n % base) as nat);
        }
        push_digits(out, n / base, base);
        out.push(digit(n % base));
        assert(out@ =~= old(out)@ + digits(n as nat, base as nat));
    }
}

/// How a number is written: its digits are those of its quotient by the base,
/// if there is one, and then that of its remainder, from `0` to `9` and on
/// from `a` in lower case.
pub proof fn lemma_digits(n: nat, base: nat)
    requires
        2 <= base <= 16,
    ensures
        digits(n, base).last() == "0123456789abcdef"@[(n % base) as int],
        n < base ==> digits(n, base).len() == 1,
        n >= base ==> digits(n, base).drop_last() == digits(n / base, base),
{
    reveal_strlit("0123456789abcdef");
    let d = n % base;
    assert(0 <= d < base) by (nonlinear_arith)
        requires
            base >= 2,
            d == n % base,
    ;
    if n < base {
        assert(d == n) by (nonlinear_arith)
            requires
                0 <= n < base,
                d == n % base,
        ;
    } else {
        assert(digits(n, base).drop_last() =~= digits(n / base, base));
    }
    assert(digit_char(d) == "0123456789abcdef"@[d as int]);
}

/// That many zeros.
pub open spec fn zeros(k: nat) -> Seq<char> {
    Seq::new(k, |i: int| '0')
}

/// A number that fits is read from its digits, with any zeros and a plus sign
/// in front, and one that does not fit is not read.
pub proof fn lemma_decimal_read(k: nat, n: nat, max: nat)
    ensures
        ({
            let read = if n <= max {
                Some(n)
            } else {
                None
            };
            &&& parse_decimal(zeros(k) + digits(n, 10), max) == read
            &&& parse_decimal(seq!['+'] + zeros(k) + digits(n, 10), max) == read
        }),
{
    let s = zeros(k) + digits(n, 10);
    lemma_zeros_value(k, n);
    assert(digit_value(s[0], 10) is Some);
    assert(digit_value('+', 10) is None);
    let signed = seq!['+'] + zeros(k) + digits(n, 10);
    assert(signed.skip(1) =~= s);
}

/// Zeros in front of digits change nothing.
proof fn lemma_zeros_value(k: nat, n: nat)
    ensures
        is_numeral(zeros(k) + digits(n, 10), 10),
        numeral_value(zeros(k) + digits(n, 10), 10) == n,
{
    let d = digits(n, 10);
    let s = zeros(k) + d;
    lemma_digits_read_back(n, 10);
    assert forall|i: int| 0 <= i < s.len() implies digit_value(#[trigger] s[i], 10) is Some by {
        if i < k {
            assert(s[i] == '0');
        } else {
            assert(s[i] == d[i - k]);
        }
    }
    lemma_zeros_prefix(k, d);
}

/// Zeros in front of a text leave the number that it denotes.
proof fn lemma_zeros_prefix(k: nat, d: Seq<char>)
    ensures
        numeral_value(zeros(k) + d, 10) == numeral_value(d, 10),
    decreases k + d.len(),
{
    let s = zeros(k) + d;
    if d.len() > 0 {
        assert(s.drop_last() =~= zeros(k) + d.drop_last());
        assert(s.last() == d.last());
        lemma_zeros_prefix(k, d.drop_last());
    } else if k > 0 {
        assert(s.drop_last() =~= zeros((k - 1) as nat) + d);
        assert(s.last() == '0');
        lemma_zeros_prefix((k - 1) as nat, d);
    } else {
        assert(s =~= d);
    }
}

/// Nothing else is read: a text that is read as a number is an optional plus
/// sign, any zeros and the digits of that number, and the number fits.
pub proof fn lemma_decimal_only(s: Seq<char>, max: nat)
    requires
        parse_decimal(s, max) is Some,
    ensures
        parse_decimal(s, max)->0 <= max,
        exists|k: nat|
            s == #[trigger] zeros(k) + digits(parse_decimal(s, max)->0, 10) || s == seq!['+']
                + zeros(k) + digits(parse_decimal(s, max)->0, 10),
{
    let d = if s.len() > 0 && s[0] == '+' {
        s.skip(1)
    } else {
        s
    };
    let k = lemma_numeral_form(d);
    if s.len() > 0 && s[0] == '+' {
        assert(s =~= seq!['+'] + d);
        assert(seq!['+'] + zeros(k) + digits(parse_decimal(s, max)->0, 10) =~= seq!['+'] + (zeros(k)
            + digits(parse_decimal(s, max)->0, 10)));
    }
}

/// A string of decimal digits is some zeros and the digits of its number.
proof fn lemma_numeral_form(s: Seq<char>) -> (k: nat)
    requires
        is_numeral(s, 10),
    ensures
        s == zeros(k) + digits(numeral_value(s, 10), 10),
    decreases s.len(),
{
    let init = s.drop_last();
    let d = digit_value(s.last(), 10)->0;
    let n = numeral_value(s, 10);
    let high = numeral_value(init, 10);
    assert(digit_char(d) == s.last());
    assert(n == high * 10 + d);
    if init.len() == 0 {
        assert(high == 0);
        assert(s =~= zeros(0) + digits(n, 10));
        0
    } else {
        assert forall|i: int| 0 <= i < init.len() implies digit_value(#[trigger] init[i], 10) is Some by {
            assert(init[i] == s[i]);
        }
        let k = lemma_numeral_form(init);
        assert(s =~= init.push(s.last()));
        if high == 0 {
            assert(digits(0, 10) =~= seq!['0']);
            assert(init =~= zeros(k + 1));
            assert(digits(n, 10) =~= seq![s.last()]);
            assert(s =~= zeros(k + 1) + digits(n, 10));
            k + 1
        } else {
            assert(n / 10 == high && n % 10 == d);
            assert(digits(n, 10) =~= digits(high, 10).push(digit_char(d)));
            assert((zeros(k) + digits(high, 10)).push(s.last()) =~= zeros(k) + digits(n, 10));
            k
        }
    }
}

} // verus!
