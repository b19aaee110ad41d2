//! Decimal numbers as text.
use vstd::prelude::*;

verus! {

/// The character of the decimal digit `d`, for `d < 10`.
pub open spec fn digit(d: nat) -> char {
    ((d + 48) as u8) as char
}

/// The shortest decimal notation of `n`.
pub open spec fn decimal(n: nat) -> Seq<char>
    decreases n,
{
    if n < 10 {
        seq![digit(n)]
    } else {
        decimal(n / 10).push(digit(n % 10))
    }
}

/// Whether `c` is one of `0` to `9`.
pub open spec fn is_digit(c: char) -> bool {
    '0' <= c && c <= '9'
}

/// Whether every character of `s` is a decimal digit.
pub open spec fn all_digits(s: Seq<char>) -> bool {
    forall|i: int| 0 <= i < s.len() ==> is_digit(#[trigger] s[i])
}

/// The number that the digits of `s` denote, leading zeros allowed.
pub open spec fn digits_value(s: Seq<char>) -> nat
    decreases s.len(),
{
    if s.len() == 0 {
        0
    } else {
        digits_value(s.drop_last()) * 10 + ((s.last() as u32 - 48) as nat)
    }
}

/// `s` without one plus sign at its start.
pub open spec fn unsigned_part(s: Seq<char>) -> Seq<char> {
    if s.len() > 0 && s[0] == '+' {
        s.drop_first()
    } else {
        s
    }
}

/// The number below `limit` that `s` denotes: an optional plus sign and then at
/// least one decimal digit, nothing else.
pub open spec fn parsed_below(s: Seq<char>, limit: nat) -> Option<nat> {
    let d = unsigned_part(s);
    if d.len() > 0 && all_digits(d) && digits_value(d) < limit {
        Some(digits_value(d))
    } else {
        None
    }
}

/// The 16-bit number that `s` denotes, if it denotes one.
pub open spec fn parsed_u16(s: Seq<char>) -> Option<u16> {
    match parsed_below(s, 0x1_0000) {
        Some(n) => Some(n as u16),
        None => None,
    }
}

/// The 32-bit number that `s` denotes, if it denotes one.
pub open spec fn parsed_u32(s: Seq<char>) -> Option<u32> {
    match parsed_below(s, 0x1_0000_0000) {
        Some(n) => Some(n as u32),
        None => None,
    }
}

/// The 64-bit number that `s` denotes, if it denotes one.
pub open spec fn parsed_u64(s: Seq<char>) -> Option<u64> {
    match parsed_below(s, 0x1_0000_0000_0000_0000) {
        Some(n) => Some(n as u64),
        None => None,
    }
}

/// The value of a digit string never shrinks when digits are appended.
pub proof fn lemma_digits_value_grows(s: Seq<char>, i: int)
    requires
        0 <= i <= s.len(),
        all_digits(s),
    ensures
        digits_value(s.take(i)) <= digits_value(s),
    decreases s.len() - i,
{
    if i < s.len() {
        let t = s.take(i + 1);
        assert(t.drop_last() =~= s.take(i));
        assert(is_digit(s[i]));
        assert(t.last() == s[i]);
        assert(digits_value(t) >= digits_value(s.take(i))) by (nonlinear_arith)
            requires
                digits_value(t) == digits_value(s.take(i)) * 10 + ((s[i] as u32 - 48) as nat),
        ;
        lemma_digits_value_grows(s, i + 1);
    } else {
        assert(s.take(i) =~= s);
    }
}

/// Decimal notation consists of digits, and denotes the number it was made from.
pub proof fn lemma_decimal(n: nat)
    ensures
        decimal(n).len() >= 1,
        all_digits(decimal(n)),
        digits_value(decimal(n)) == n,
    decreases n,
{
    if n < 10 {
        let s = decimal(n);
        assert(s.drop_last() =~= Seq::<char>::empty());
        assert(digits_value(s.drop_last()) == 0);
        assert(s.last() == digit(n));
    } else {
        lemma_decimal(n / 10);
        let s = decimal(n);
        assert(s.drop_last() =~= decimal(n / 10));
        assert(s.last() == digit(n % 10));
        assert forall|i: int| 0 <= i < s.len() implies is_digit(#[trigger] s[i]) by {
            if i < s.len() - 1 {
                assert(s[i] == decimal(n / 10)[i]);
            }
        }
    }
}

/// A number written in decimal notation is read back as itself.
pub proof fn decimal_round_trip(n: nat, limit: nat)
    requires
        n < limit,
    ensures
        parsed_below(decimal(n), limit) == Some(n),
{
    lemma_decimal(n);
    let s = decimal(n);
    assert(is_digit(s[0]));
    assert(unsigned_part(s) == s);
}

/// Appends the decimal notation of `n` to `out`.
pub fn push_decimal(out: &mut Vec<char>, n: u128)
    ensures
        final(out)@ == old(out)@ + decimal(n as nat),
    decreases n,
{
    if n >= 10 {
        push_decimal(out, n / 10);
    }
    let d: u8 = (n % 10) as u8;
    out.push((d + 48) as char);
    proof {
        if n >= 10 {
            assert(final(out)@ =~= old(out)@ + decimal(n as nat));
        } else {
            assert(final(out)@ =~= old(out)@ + decimal(n as nat));
        }
    }
}

/// The decimal notation of `n`.
pub fn decimal_chars(n: u64) -> (out: Vec<char>)
    ensures
        out@ == decimal(n as nat),
{
    wide_decimal_chars(n as u128)
}

/// The decimal notation of `n`.
pub fn wide_decimal_chars(n: u128) -> (out: Vec<char>)
    ensures
        out@ == decimal(n as nat),
{
    let mut out: Vec<char> = Vec::new();
    push_decimal(&mut out, n);
    assert(Seq::<char>::empty() + decimal(n as nat) =~= decimal(n as nat));
    out
}

/// The number below `limit` that `s` denotes, if it denotes one.
pub fn parse_below(s: &[char], limit: u128) -> (r: Option<u128>)
    requires
        0 < limit <= 0x1_0000_0000_0000_0000,
    ensures
        match r {
            Some(n) => parsed_below(s@, limit as nat) == Some(n as nat),
            None => parsed_below(s@, limit as nat) is None,
        },
{
    let start: usize = if s.len() > 0 && s[0] == '+' {
        1
    } else {
        0
    };
    let ghost d = unsigned_part(s@);
    assert(d =~= s@.skip(start as int));
    if start == s.len() {
        return None;
    }
    let mut acc: u128 = 0;
    let mut i: usize = start;
    assert(d.take(0) =~= Seq::<char>::empty());
    while i < s.len()
        invariant
            start <= i <= s.len(),
            d == s@.skip(start as int),
            d == unsigned_part(s@),
            all_digits(d.take(i - start)),
            acc == digits_value(d.take(i - start)),
            acc < limit,
            limit <= 0x1_0000_0000_0000_0000,
        decreases s.len() - i,
    {
        let c = s[i];
        let ghost t = d.take(i - start + 1);
        proof {
            assert(c == d[i - start]);
            assert(t.drop_last() =~= d.take(i - start));
            assert(t.last() == c);
        }
        if !('0' <= c && c <= '9') {
            assert(!is_digit(d[i - start]));
            assert(!all_digits(d));
            return None;
        }
        let v: u128 = (c as u32 - 48) as u128;
        let next: u128 = acc * 10 + v;
        proof {
            assert forall|k: int| 0 <= k < t.len() implies is_digit(#[trigger] t[k]) by {
                if k < t.len() - 1 {
                    assert(t[k] == d.take(i - start)[k]);
                }
            }
            assert(next == digits_value(t));
        }
        if next >= limit {
            proof {
                if all_digits(d) {
                    lemma_digits_value_grows(d, i - start + 1);
                    assert(digits_value(d) >= limit);
                }

            }
            return None;
        }
        acc = next;
        i += 1;
    }
    assert(d.take(i - start) =~= d);
    Some(acc)
}

/// The 16-bit number that `s` denotes, if it denotes one.
pub fn parse_u16(s: &[char]) -> (r: Option<u16>)
    ensures
        r == parsed_u16(s@),
{
    match parse_below(s, 0x1_0000) {
        Some(n) => Some(n as u16),
        None => None,
    }
}

/// The 32-bit number that `s` denotes, if it denotes one.
pub fn parse_u32(s: &[char]) -> (r: Option<u32>)
    ensures
        r == parsed_u32(s@),
{
    match parse_below(s, 0x1_0000_0000) {
        Some(n) => Some(n as u32),
        None => None,
    }
}

/// The 64-bit number that `s` denotes, if it denotes one.
pub fn parse_u64(s: &[char]) -> (r: Option<u64>)
    ensures
        r == parsed_u64(s@),
{
    match parse_below(s, 0x1_0000_0000_0000_0000) {
        Some(n) => Some(n as u64),
        None => None,
    }
}

} // verus!
