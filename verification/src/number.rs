//! Numbers in text and in bytes.

use vstd::arithmetic::power::*;
use vstd::prelude::*;

use crate::text::chars_of;

verus! {

/// The digit for a value under 10.
pub open spec fn digit(d: nat) -> char {
    (48 + d) as char
}

/// A number in decimal, without leading zeros.
pub open spec fn decimal(n: nat) -> Seq<char>
    decreases n,
{
    if n < 10 {
        seq![digit(n)]
    } else {
        decimal(n / 10).push(digit(n % 10))
    }
}

/// Whether a character is a decimal digit.
pub open spec fn is_digit(c: char) -> bool {
    '0' <= c && c <= '9'
}

/// The value of a run of decimal digits.
pub open spec fn digits_value(s: Seq<char>) -> nat
    decreases s.len(),
{
    if s.len() == 0 {
        0
    } else {
        10 * digits_value(s.drop_last()) + (s.last() as nat - 48) as nat
    }
}

/// A text without the plus sign at its start.
pub open spec fn without_plus(s: Seq<char>) -> Seq<char> {
    if s.len() > 0 && s[0] == '+' {
        s.drop_first()
    } else {
        s
    }
}

/// What a text reads as a number: decimal digits, at least one, behind an
/// optional plus sign.
pub open spec fn parsed(s: Seq<char>) -> Option<nat> {
    let d = without_plus(s);
    if d.len() > 0 && forall|i: int| 0 <= i < d.len() ==> is_digit(#[trigger] d[i]) {
        Some(digits_value(d))
    } else {
        None
    }
}

/// The digits of a number have its value.
pub proof fn lemma_decimal_digits(n: nat)
    ensures
        decimal(n).len() > 0,
        forall|i: int| 0 <= i < decimal(n).len() ==> is_digit(#[trigger] decimal(n)[i]),
        digits_value(decimal(n)) == n,
    decreases n,
{
    if n < 10 {
        assert(decimal(n).drop_last() == Seq::<char>::empty());
        assert(digit(n) as nat == 48 + n);
        assert(digits_value(decimal(n).drop_last()) == 0);
    } else {
        lemma_decimal_digits(n / 10);
        assert(decimal(n).drop_last() == decimal(n / 10));
        assert(digit(n % 10) as nat == 48 + n % 10);
    }
}

/// A number in decimal reads as itself.
pub proof fn law_decimal_parses(n: nat)
    ensures
        parsed(decimal(n)) == Some(n),
{
    lemma_decimal_digits(n);
    assert(is_digit(decimal(n)[0]));
}

/// Appends a number in decimal.
pub fn push_decimal(out: &mut String, n: u128)
    ensures
        final(out)@ == old(out)@ + decimal(n as nat),
    decreases n,
{
    let ghost before = out@;
    if n >= 10 {
        push_decimal(out, n / 10);
    }
    let d: u8 = 48 + (n % 10) as u8;
    out.push(d as char);
    proof {
        assert(d as char == digit(n as nat % 10));
        assert(out@ == before + decimal(n as nat));
    }
}

/// A number in decimal.
pub fn decimal_string(n: u128) -> (r: String)
    ensures
        r@ == decimal(n as nat),
{
    let mut out = String::new();
    push_decimal(&mut out, n);
    assert(Seq::<char>::empty() + decimal(n as nat) == decimal(n as nat));
    out
}

/// More digits make no smaller value.
proof fn lemma_digits_value_grows(s: Seq<char>, i: int)
    requires
        0 <= i <= s.len(),
        forall|k: int| 0 <= k < s.len() ==> is_digit(#[trigger] s[k]),
    ensures
        digits_value(s.take(i)) <= digits_value(s),
    decreases s.len() - i,
{
    if i < s.len() {
        let t = s.take(i + 1);
        assert(t.drop_last() == s.take(i));
        assert(t.last() == s[i]);
        assert(is_digit(s[i]));
        lemma_digits_value_grows(s, i + 1);
    } else {
        assert(s.take(i) == s);
    }
}

/// Reads a number that fits in 64 bits.
pub fn parse_u64(s: &str) -> (r: Option<u64>)
    ensures
        match r {
            Some(n) => parsed(s@) == Some(n as nat),
            None => match parsed(s@) {
                Some(n) => n > u64::MAX,
                None => true,
            },
        },
{
    let cs = chars_of(s);
    let start: usize = if cs.len() > 0 && cs[0] == '+' {
        1
    } else {
        0
    };
    let ghost d = without_plus(s@);
    proof {
        assert(d == cs@.skip(start as int));
    }
    if cs.len() == start {
        return None;
    }
    let mut value: u64 = 0;
    let mut i: usize = start;
    assert(d.take(0) == Seq::<char>::empty());
    while i < cs.len()
        invariant
            start <= i <= cs@.len(),
            d == cs@.skip(start as int),
            d == without_plus(s@),
            value == digits_value(d.take(i - start)),
            forall|k: int| 0 <= k < i - start ==> is_digit(#[trigger] d[k]),
        decreases cs@.len() - i,
    {
        let c = cs[i];
        proof {
            assert(d[i - start] == c);
            assert(d.take(i - start + 1).drop_last() == d.take(i - start));
            assert(d.take(i - start + 1).last() == c);
        }
        if c < '0' || c > '9' {
            proof {
                assert(!is_digit(d[i - start]));
            }
            return None;
        }
        let v: u64 = (c as u32 - 48) as u64;
        if value > (u64::MAX - v) / 10 {
            proof {
                if forall|k: int| 0 <= k < d.len() ==> is_digit(#[trigger] d[k]) {
                    lemma_digits_value_grows(d, i - start + 1);
                }
            }
            return None;
        }
        value = value * 10 + v;
        i = i + 1;
    }
    proof {
        assert(d.take(d.len() as int) == d);
    }
    Some(value)
}

/// Reads a number that fits in a `usize`.
pub fn parse_usize(s: &str) -> (r: Option<usize>)
    ensures
        match r {
            Some(n) => parsed(s@) == Some(n as nat),
            None => match parsed(s@) {
                Some(n) => n > usize::MAX,
                None => true,
            },
        },
{
    match parse_u64(s) {
        Some(n) => {
            if n <= usize::MAX as u64 {
                Some(n as usize)
            } else {
                None
            }
        },
        None => None,
    }
}

/// The low `n` bytes of a number, least significant first.
pub open spec fn le(x: nat, n: nat) -> Seq<u8>
    decreases n,
{
    if n == 0 {
        Seq::empty()
    } else {
        seq![(x % 256) as u8] + le(x / 256, (n - 1) as nat)
    }
}

/// The number that a run of bytes holds, least significant first.
pub open spec fn le_value(s: Seq<u8>) -> nat
    decreases s.len(),
{
    if s.len() == 0 {
        0
    } else {
        s[0] as nat + 256 * le_value(s.drop_first())
    }
}

/// `n` bytes are `n` bytes.
pub proof fn lemma_le_len(x: nat, n: nat)
    ensures
        le(x, n).len() == n,
    decreases n,
{
    if n > 0 {
        lemma_le_len(x / 256, (n - 1) as nat);
    }
}

/// Reading what was written gives the number back, if it fits.
pub proof fn law_le_reads_back(x: nat, n: nat)
    requires
        x < pow(256, n),
    ensures
        le_value(le(x, n)) == x,
    decreases n,
{
    reveal(pow);
    if n > 0 {
        let rest = le(x / 256, (n - 1) as nat);
        assert(le(x, n).drop_first() == rest);
        assert(x / 256 < pow(256, (n - 1) as nat)) by {
            assert(pow(256, n) == 256 * pow(256, (n - 1) as nat));
        }
        law_le_reads_back(x / 256, (n - 1) as nat);
    }
}

/// Writing what was read gives the bytes back.
pub proof fn law_le_writes_back(s: Seq<u8>)
    ensures
        le(le_value(s), s.len()) == s,
        le_value(s) < pow(256, s.len()),
    decreases s.len(),
{
    reveal(pow);
    if s.len() > 0 {
        let rest = s.drop_first();
        law_le_writes_back(rest);
        let v = le_value(rest);
        assert((s[0] as nat + 256 * v) % 256 == s[0] as nat);
        assert((s[0] as nat + 256 * v) / 256 == v);
        assert(s == seq![s[0]] + rest);
    }
}

/// The sizes that the file formats use.
pub proof fn lemma_le_bounds()
    ensures
        pow(256, 2) == 0x1_0000,
        pow(256, 4) == 0x1_0000_0000,
        pow(256, 8) == 0x1_0000_0000_0000_0000,
{
    reveal_with_fuel(pow, 9);
}

/// Appends the low `n` bytes of a number, least significant first.
pub fn push_le(out: &mut Vec<u8>, x: u64, n: usize)
    ensures
        final(out)@ == old(out)@ + le(x as nat, n as nat),
    decreases n,
{
    let ghost before = out@;
    if n > 0 {
        out.push((x % 256) as u8);
        push_le(out, x / 256, n - 1);
        proof {
            assert(out@ == before + le(x as nat, n as nat));
        }
    } else {
        assert(before + Seq::<u8>::empty() == before);
    }
}

/// Reads the number that `n` bytes hold, least significant first.
pub fn read_le(bytes: &[u8], at: usize, n: usize) -> (r: u64)
    requires
        at + n <= bytes@.len(),
        n <= 8,
    ensures
        r == le_value(bytes@.subrange(at as int, at + n)),
        r < pow(256, n as nat),
    decreases n,
{
    proof {
        law_le_writes_back(bytes@.subrange(at as int, at + n));
        assert(bytes.len() == bytes@.len());
    }
    if n == 0 {
        return 0;
    }
    let rest: u64 = read_le(bytes, at + 1, n - 1);
    proof {
        let s = bytes@.subrange(at as int, at + n);
        assert(s.drop_first() == bytes@.subrange(at + 1, at + n));
        assert(s[0] == bytes@[at as int]);
        assert(pow(256, (n - 1) as nat) <= 0x100_0000_0000_0000) by {
            reveal_with_fuel(pow, 9);
        }
    }
    bytes[at] as u64 + 256 * rest
}

/// The digit at each place of a number in decimal is the one that the place
/// calls for, counted from the last, and there is no leading zero.
pub proof fn law_decimal_places(n: nat, i: nat)
    requires
        i < decimal(n).len(),
    ensures
        decimal(n)[decimal(n).len() - 1 - i] as int - 48 == (n as int / pow(10, i)) % 10,
        n < pow(10, decimal(n).len()),
        decimal(n).len() > 1 ==> n >= pow(10, (decimal(n).len() - 1) as nat),
    decreases n,
{
    lemma_decimal_digits(n);
    reveal(pow);
    if n < 10 {
        assert(pow(10, 0) == 1);
        assert(pow(10, 1) == 10 * pow(10, 0));
        assert(digit(n) as nat == 48 + n);
    } else {
        let m = n / 10;
        let short = decimal(m);
        lemma_decimal_digits(m);
        let last = (short.len() - 1) as nat;
        law_decimal_places(m, last);
        assert(pow(10, decimal(n).len()) == 10 * pow(10, short.len()));
        assert(pow(10, short.len()) == 10 * pow(10, last));
        assert(n < 10 * pow(10, short.len()));
        if short.len() == 1 {
            assert(pow(10, 0) == 1);
        }
        assert(digit(n % 10) as nat == 48 + n % 10);
        if i == 0 {
            assert(pow(10, 0) == 1);
        } else {
            let j = (i - 1) as nat;
            law_decimal_places(m, j);
            assert(decimal(n)[decimal(n).len() - 1 - i] == short[short.len() - 1 - j]);
            assert(pow(10, i) == 10 * pow(10, j));
            vstd::arithmetic::power::lemma_pow_positive(10, j);
            vstd::arithmetic::div_mod::lemma_div_denominator(n as int, 10, pow(10, j));
        }
    }
}

/// Digits are read by their places: what stands before others counts ten times
/// for each of them, and one digit counts what it shows.
pub proof fn law_digits_by_place(a: Seq<char>, b: Seq<char>, c: char)
    requires
        is_digit(c),
    ensures
        digits_value(a + b) == digits_value(a) * pow(10, b.len()) + digits_value(b),
        digits_value(seq![c]) == c as int - '0' as int,
    decreases b.len(),
{
    reveal(pow);
    assert(seq![c].drop_last() == Seq::<char>::empty());
    assert(digits_value(seq![c].drop_last()) == 0);
    if b.len() == 0 {
        assert(a + b == a);
        assert(pow(10, 0) == 1);
    } else {
        let t = b.drop_last();
        law_digits_by_place(a, t, c);
        assert((a + b).drop_last() == a + t);
        assert((a + b).last() == b.last());
        assert(pow(10, b.len()) == 10 * pow(10, t.len()));
        let v = digits_value(a);
        let w = pow(10, t.len());
        assert(10 * (v * w) == v * (10 * w)) by (nonlinear_arith);
    }
}

/// A text that holds anything but decimal digits behind an optional plus sign
/// reads as no number, and one that holds digits alone reads as their value.
pub proof fn law_only_digits_parse(s: Seq<char>)
    ensures
        s.len() == 0 ==> parsed(s) is None,
        s == seq!['+'] ==> parsed(s) is None,
        forall|i: int|
            0 <= i < s.len() && !('0' <= #[trigger] s[i] <= '9') && (i > 0 || s[i] != '+')
                ==> parsed(s) is None,
        s.len() > 0 && (forall|i: int| 0 <= i < s.len() ==> '0' <= #[trigger] s[i] <= '9') ==> {
            &&& parsed(s) == Some(digits_value(s))
            &&& parsed(seq!['+'] + s) == parsed(s)
        },
{
    let d = without_plus(s);
    assert forall|i: int|
        0 <= i < s.len() && !('0' <= #[trigger] s[i] <= '9') && (i > 0 || s[i] != '+') implies parsed(
        s,
    ) is None by {
        if s[0] == '+' {
            assert(d[i - 1] == s[i]);
            assert(!is_digit(d[i - 1]));
        } else {
            assert(!is_digit(d[i]));
        }
    }
    if s.len() > 0 && forall|i: int| 0 <= i < s.len() ==> '0' <= #[trigger] s[i] <= '9' {
        assert('0' <= s[0] <= '9');
        assert forall|i: int| 0 <= i < s.len() implies is_digit(#[trigger] s[i]) by {}
        assert((seq!['+'] + s).drop_first() == s);
        assert(without_plus(seq!['+'] + s) == s);
    }
}

/// Each byte of a number stands at its place, least significant first.
pub proof fn law_le_places(x: nat, n: nat, i: nat)
    requires
        i < n,
    ensures
        le(x, n).len() == n,
        le(x, n)[i as int] as int == (x as int / pow(256, i)) % 256,
    decreases n,
{
    lemma_le_len(x, n);
    reveal(pow);
    if i == 0 {
        assert(pow(256, 0) == 1);
    } else {
        let j = (i - 1) as nat;
        law_le_places(x / 256, (n - 1) as nat, j);
        assert(le(x, n)[i as int] == le(x / 256, (n - 1) as nat)[j as int]);
        assert(pow(256, i) == 256 * pow(256, j));
        vstd::arithmetic::power::lemma_pow_positive(256, j);
        vstd::arithmetic::div_mod::lemma_div_denominator(x as int, 256, pow(256, j));
    }
}

} // verus!
