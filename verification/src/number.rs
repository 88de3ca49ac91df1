//! Decimal numbers: reading them as `str::parse` does for unsigned integer
//! types, and writing them as `ToString` does.
use vstd::prelude::*;

verus! {

/// Whether `c` is one of the ASCII digits `0` to `9`.
pub open spec fn is_digit(c: char) -> bool {
    48 <= (c as u32) <= 57
}

/// The value of the ASCII digit `c`.
pub open spec fn digit_value(c: char) -> nat {
    ((c as u32) - 48) as nat
}

/// The ASCII digit whose value is `d`, for `d` below ten.
pub open spec fn digit_char(d: nat) -> char {
    ((d + 48) as u32) as char
}

/// Whether every character of `s` is an ASCII digit.
pub open spec fn all_digits(s: Seq<char>) -> bool {
    forall|i: int| 0 <= i < s.len() ==> is_digit(#[trigger] s[i])
}

/// The value of the digits `s`, read in base ten, most significant first.
pub open spec fn digits_value(s: Seq<char>) -> nat
    decreases s.len(),
{
    if s.len() == 0 {
        0
    } else {
        10 * digits_value(s.drop_last()) + digit_value(s.last())
    }
}

/// `s` without one leading `+`, where it has one.
pub open spec fn unsigned_digits(s: Seq<char>) -> Seq<char> {
    if s.len() > 0 && s[0] == '+' {
        s.drop_first()
    } else {
        s
    }
}

/// What `str::parse` gives for an unsigned integer type whose largest value
/// is `max`: the value where `s` is an optional `+` followed by one or more
/// ASCII digits whose value is at most `max`, and nothing otherwise.
pub open spec fn parse_unsigned(s: Seq<char>, max: nat) -> Option<nat> {
    let d = unsigned_digits(s);
    if d.len() > 0 && all_digits(d) && digits_value(d) <= max {
        Some(digits_value(d))
    } else {
        None
    }
}

/// What `str::parse::<u16>` gives, without its error.
pub open spec fn parse_u16_value(s: Seq<char>) -> Option<u16> {
    match parse_unsigned(s, u16::MAX as nat) {
        Some(v) => Some(v as u16),
        None => None,
    }
}

/// What `str::parse::<u32>` gives, without its error.
pub open spec fn parse_u32_value(s: Seq<char>) -> Option<u32> {
    match parse_unsigned(s, u32::MAX as nat) {
        Some(v) => Some(v as u32),
        None => None,
    }
}

/// The decimal digits of `n`, without leading zeros, as `ToString` writes
/// an unsigned integer.
pub open spec fn decimal_digits(n: nat) -> Seq<char>
    decreases n,
{
    if n < 10 {
        seq![digit_char(n)]
    } else {
        decimal_digits(n / 10).push(digit_char(n % 10))
    }
}

/// Reading more digits never lowers the value.
pub proof fn lemma_digits_value_prefix(s: Seq<char>, k: int)
    requires
        all_digits(s),
        0 <= k <= s.len(),
    ensures
        digits_value(s.take(k)) <= digits_value(s),
    decreases s.len(),
{
    if k < s.len() {
        let t = s.drop_last();
        assert(all_digits(t)) by {
            assert forall|i: int| 0 <= i < t.len() implies is_digit(#[trigger] t[i]) by {
                assert(t[i] == s[i]);
            }
        }
        lemma_digits_value_prefix(t, k);
        assert(t.take(k) =~= s.take(k));
    } else {
        assert(s.take(k) =~= s);
    }
}

/// Reads `s` as an unsigned decimal number no larger than `max`, as
/// `str::parse` does for the unsigned type whose largest value is `max`.
pub fn parse_unsigned_at_most(s: &[char], max: u64) -> (r: Option<u64>)
    requires
        max <= u32::MAX,
    ensures
        match r {
            Some(v) => parse_unsigned(s@, max as nat) == Some(v as nat),
            None => parse_unsigned(s@, max as nat) is None,
        },
{
    let n = s.len();
    let start: usize = if n > 0 && s[0] == '+' {
        1
    } else {
        0
    };
    let ghost d = unsigned_digits(s@);
    proof {
        assert(d =~= s@.subrange(start as int, n as int));
    }
    if start == n {
        return None;
    }
    let mut acc: u64 = 0;
    let mut k: usize = start;
    while k < n
        invariant
            n == s@.len(),
            start <= k <= n,
            d == s@.subrange(start as int, n as int),
            d == unsigned_digits(s@),
            all_digits(d.take(k - start)),
            acc == digits_value(d.take(k - start)),
            acc <= max,
            max <= u32::MAX,
        decreases n - k,
    {
        let c = s[k];
        let code = c as u32;
        if code < 48 || code > 57 {
            proof {
                assert(d[k - start] == c);
                assert(!all_digits(d));
                assert(parse_unsigned(s@, max as nat) is None);
            }
            return None;
        }
        let ghost prev = d.take(k - start);
        let ghost next = d.take(k + 1 - start);
        proof {
            assert(next.drop_last() =~= prev);
            assert(next.last() == c);
            assert(all_digits(next)) by {
                assert forall|i: int| 0 <= i < next.len() implies is_digit(#[trigger] next[i]) by {
                    if i < prev.len() {
                        assert(next[i] == prev[i]);
                    }
                }
            }
        }
        acc = acc * 10 + (code as u64 - 48);
        if acc > max {
            proof {
                if all_digits(d) {
                    lemma_digits_value_prefix(d, k + 1 - start);
                }
            }
            return None;
        }
        k = k + 1;
    }
    proof {
        assert(d.take(n - start) =~= d);
    }
    Some(acc)
}

/// `str::parse::<u16>`, with the error dropped.
pub fn parse_u16(s: &[char]) -> (r: Option<u16>)
    ensures
        r == parse_u16_value(s@),
{
    match parse_unsigned_at_most(s, 65535) {
        Some(v) => Some(v as u16),
        None => None,
    }
}

/// `str::parse::<u32>`, with the error dropped.
pub fn parse_u32(s: &[char]) -> (r: Option<u32>)
    ensures
        r == parse_u32_value(s@),
{
    match parse_unsigned_at_most(s, 4294967295) {
        Some(v) => Some(v as u32),
        None => None,
    }
}

/// Appends one character to a string: `String::push`.
#[verifier::external_body]
pub(crate) fn push_char(s: &mut String, c: char)
    ensures
        final(s)@ == old(s)@.push(c),
{
    s.push(c);
}

/// Appends the decimal digits of `n` to `s`.
pub fn push_decimal(s: &mut String, n: u64)
    ensures
        final(s)@ == old(s)@ + decimal_digits(n as nat),
    decreases n,
{
    if n >= 10 {
        push_decimal(s, n / 10);
    }
    let d = n % 10;
    let c = ((d + 48) as u8) as char;
    push_char(s, c);
    proof {
        assert(c == digit_char(d as nat));
        if n >= 10 {
            assert(decimal_digits(n as nat) == decimal_digits((n / 10) as nat).push(
                digit_char((n % 10) as nat),
            ));
        }
    }
    assert(final(s)@ =~= old(s)@ + decimal_digits(n as nat));
}

/// The decimal digits of `n`, as `n.to_string()` writes them.
pub fn decimal(n: u64) -> (s: String)
    ensures
        s@ == decimal_digits(n as nat),
{
    let mut s = String::new();
    push_decimal(&mut s, n);
    proof {
        assert(s@ =~= decimal_digits(n as nat));
    }
    s
}

/// Writing a number in decimal and reading it back gives the number.
pub proof fn lemma_decimal_round_trip(n: nat, max: nat)
    requires
        n <= max,
    ensures
        parse_unsigned(decimal_digits(n), max) == Some(n),
{
    lemma_decimal_digits(n);
}

/// The decimal digits of `n` are ASCII digits, do not start with `+`, and
/// have the value `n`.
pub proof fn lemma_decimal_digits(n: nat)
    ensures
        decimal_digits(n).len() > 0,
        all_digits(decimal_digits(n)),
        decimal_digits(n)[0] != '+',
        digits_value(decimal_digits(n)) == n,
    decreases n,
{
    let s = decimal_digits(n);
    if n < 10 {
        assert(s.drop_last() =~= Seq::<char>::empty());
        assert(digit_value(digit_char(n)) == n);
        assert(digits_value(s) == 10 * digits_value(s.drop_last()) + digit_value(s.last()));
    } else {
        lemma_decimal_digits(n / 10);
        let t = decimal_digits(n / 10);
        assert(s.drop_last() =~= t);
        assert(s[0] == t[0]);
        assert forall|i: int| 0 <= i < s.len() implies is_digit(#[trigger] s[i]) by {
            if i < t.len() {
                assert(s[i] == t[i]);
            }
        }
        assert(n == 10 * (n / 10) + n % 10);
        assert(digit_value(digit_char(n % 10)) == n % 10);
        assert(digits_value(s) == 10 * digits_value(t) + digit_value(s.last()));
        assert(s.last() == digit_char(n % 10));
    }
}

} // verus!

verus! {

/// A leading zero does not change the value of digits.
proof fn lemma_digits_value_zero_prefix(d: Seq<char>)
    ensures
        digits_value(seq!['0'] + d) == digits_value(d),
    decreases d.len(),
{
    let z = seq!['0'] + d;
    if d.len() == 0 {
        assert(z =~= seq!['0']);
        assert(z.drop_last() =~= Seq::<char>::empty());
        assert(digit_value('0') == 0);
        assert(digits_value(z) == 10 * digits_value(z.drop_last()) + digit_value(z.last()));
    } else {
        lemma_digits_value_zero_prefix(d.drop_last());
        assert(z.drop_last() =~= seq!['0'] + d.drop_last());
        assert(z.last() == d.last());
        assert(digits_value(z) == 10 * digits_value(z.drop_last()) + digit_value(z.last()));
    }
}

/// How `str::parse` reads unsigned numbers: a leading `+` and leading zeros
/// are accepted, a number above the largest value is refused, and so are
/// empty text, a lone `+` and a leading `-`.
pub proof fn lemma_parse_unsigned_forms(n: nat, max: nat)
    ensures
        n <= max ==> parse_unsigned(seq!['+'] + decimal_digits(n), max) == Some(n),
        n <= max ==> parse_unsigned(seq!['0'] + decimal_digits(n), max) == Some(n),
        n > max ==> parse_unsigned(decimal_digits(n), max) is None,
        parse_unsigned(Seq::empty(), max) is None,
        parse_unsigned(seq!['+'], max) is None,
        parse_unsigned(seq!['-'] + decimal_digits(n), max) is None,
{
    let d = decimal_digits(n);
    lemma_decimal_digits(n);
    assert((seq!['+'] + d).drop_first() =~= d);
    lemma_digits_value_zero_prefix(d);
    let z = seq!['0'] + d;
    assert(z[0] == '0');
    assert forall|i: int| 0 <= i < z.len() implies is_digit(#[trigger] z[i]) by {
        if i > 0 {
            assert(z[i] == d[i - 1]);
        }
    }
    assert(seq!['+'].drop_first() =~= Seq::<char>::empty());
    let m = seq!['-'] + d;
    assert(m[0] == '-');
    assert(!is_digit(m[0]));
}

/// The decimal digits of a number have no leading zero, except the single
/// digit of zero itself.
pub proof fn lemma_decimal_no_leading_zero(n: nat)
    ensures
        n == 0 ==> decimal_digits(n) == seq!['0'],
        n > 0 ==> decimal_digits(n)[0] != '0',
    decreases n,
{
    if n == 0 {
        assert(decimal_digits(0) =~= seq!['0']);
    } else if n >= 10 {
        lemma_decimal_no_leading_zero(n / 10);
        lemma_decimal_digits(n / 10);
        assert(decimal_digits(n)[0] == decimal_digits(n / 10)[0]);
    }
}

} // verus!
