//! Decimal numerals: how the wire format writes integers, and how it reads them.

use vstd::prelude::*;

verus! {

/// `String::push`, whose contract is taken on trust: it appends `ch` to the
/// end of the string.
pub assume_specification[ std::string::String::push ](s: &mut std::string::String, ch: char)
    ensures
        final(s)@ == old(s)@.push(ch),
;

/// The character that writes the digit `d`.
pub open spec fn digit_char(d: nat) -> char
    recommends
        d < 10,
{
    (48 + d) as u8 as char
}

/// The digits of `n`, most significant first, without leading zeros.
pub open spec fn digits(n: nat) -> Seq<char>
    decreases n,
{
    if n < 10 {
        seq![digit_char(n)]
    } else {
        digits(n / 10).push(digit_char(n % 10))
    }
}

/// The decimal numeral of `n`: a minus sign for a negative number, then the
/// digits of its magnitude.
pub open spec fn decimal(n: int) -> Seq<char> {
    if n < 0 {
        seq!['-'] + digits((-n) as nat)
    } else {
        digits(n as nat)
    }
}

/// Appends the digits of `n` to `out`.
pub fn push_digits(out: &mut String, n: u64)
    ensures
        final(out)@ == old(out)@ + digits(n as nat),
{
    // The digits come out least significant first.
    let mut low: Vec<char> = Vec::new();
    low.push((48u8 + (n % 10) as u8) as char);
    let mut rest: u64 = n / 10;
    while rest > 0
        invariant
            low@.len() > 0,
            digits(n as nat) == if rest > 0 {
                digits(rest as nat) + low@.reverse()
            } else {
                low@.reverse()
            },
        decreases rest,
    {
        let ghost before = low@;
        low.push((48u8 + (rest % 10) as u8) as char);
        proof {
            let d = digit_char((rest % 10) as nat);
            assert(low@.reverse() =~= seq![d] + before.reverse());
            if rest / 10 > 0 {
                assert(digits(rest as nat) + before.reverse() =~= digits((rest / 10) as nat)
                    + (seq![d] + before.reverse()));
            } else {
                assert(digits(rest as nat) + before.reverse() =~= seq![d] + before.reverse());
            }
        }
        rest = rest / 10;
    }
    let mut i: usize = low.len();
    while i > 0
        invariant
            i <= low@.len(),
            out@ == old(out)@ + low@.reverse().take(low@.len() - i),
        decreases i,
    {
        i = i - 1;
        out.push(low[i]);
        proof {
            let r = low@.reverse();
            let k = low@.len() - i;
            assert(r.take(k) =~= r.take(k - 1).push(low@[i as int]));
        }
    }
    assert(low@.reverse().take(low@.len() as int) =~= low@.reverse());
}

/// Appends the decimal numeral of `n` to `out`.
pub fn push_decimal(out: &mut String, n: i64)
    ensures
        final(out)@ == old(out)@ + decimal(n as int),
{
    if n < 0 {
        out.push('-');
        // `-(n + 1)` cannot overflow, even for the least `i64`.
        let magnitude: u64 = (-(n + 1)) as u64 + 1;
        push_digits(out, magnitude);
        assert(out@ =~= old(out)@ + decimal(n as int));
    } else {
        push_digits(out, n as u64);
    }
}

/// Whether the byte `b` is one of the characters `0` to `9`.
pub open spec fn is_digit(b: u8) -> bool {
    48 <= b <= 57
}

/// Whether `s` holds decimal digits and nothing else.
pub open spec fn all_digits(s: Seq<u8>) -> bool {
    forall|i: int| 0 <= i < s.len() ==> is_digit(#[trigger] s[i])
}

/// The number that the decimal digits `s` write, most significant first.
pub open spec fn digits_value(s: Seq<u8>) -> nat
    decreases s.len(),
{
    if s.len() == 0 {
        0
    } else {
        10 * digits_value(s.drop_last()) + (s.last() - 48) as nat
    }
}

/// The integer that the numeral `s` writes: an optional sign (`+` or `-`)
/// followed by one or more decimal digits, whose value fits in an `i64`.
/// `None` for every other text.
pub open spec fn numeral_value(s: Seq<u8>) -> Option<int> {
    let negative = s.len() > 0 && s[0] == 45;
    let signed = s.len() > 0 && (s[0] == 45 || s[0] == 43);
    let ds = if signed {
        s.skip(1)
    } else {
        s
    };
    let value = if negative {
        -(digits_value(ds) as int)
    } else {
        digits_value(ds) as int
    };
    if ds.len() > 0 && all_digits(ds) && i64::MIN <= value <= i64::MAX {
        Some(value)
    } else {
        None
    }
}

/// A numeral's value is at least that of each of its prefixes.
proof fn lemma_digits_value_prefix(s: Seq<u8>, n: int)
    requires
        0 <= n <= s.len(),
        all_digits(s),
    ensures
        digits_value(s.take(n)) <= digits_value(s),
    decreases s.len(),
{
    if n == s.len() {
        assert(s.take(n) =~= s);
    } else {
        assert(s.drop_last().take(n) =~= s.take(n));
        lemma_digits_value_prefix(s.drop_last(), n);
    }
}

/// Reads the numeral `s`.
pub fn parse_i64(s: &[u8]) -> (value: Option<i64>)
    ensures
        match value {
            Some(v) => numeral_value(s@) == Some(v as int),
            None => numeral_value(s@) is None,
        },
{
    let negative = s.len() > 0 && s[0] == 45;
    let signed = s.len() > 0 && (s[0] == 45 || s[0] == 43);
    let start: usize = if signed {
        1
    } else {
        0
    };
    if start == s.len() {
        return None;
    }
    let limit: u64 = if negative {
        9223372036854775808
    } else {
        9223372036854775807
    };
    let ghost ds = s@.skip(start as int);
    assert(s@.skip(0) =~= s@);
    let mut magnitude: u64 = 0;
    let mut i: usize = start;
    while i < s.len()
        invariant
            start <= i <= s@.len(),
            ds == s@.skip(start as int),
            start == 0 ==> ds == s@,
            all_digits(ds.take(i - start)),
            magnitude == digits_value(ds.take(i - start)),
            magnitude <= limit,
            negative == (s@.len() > 0 && s@[0] == 45),
            signed == (s@.len() > 0 && (s@[0] == 45 || s@[0] == 43)),
            start == if signed { 1usize } else { 0usize },
            limit == if negative { 9223372036854775808u64 } else { 9223372036854775807u64 },
        decreases s@.len() - i,
    {
        let b = s[i];
        if b < 48 || b > 57 {
            assert(!is_digit(ds[i - start]));
            return None;
        }
        let d: u64 = (b - 48) as u64;
        proof {
            let next = ds.take(i - start + 1);
            assert(next.drop_last() =~= ds.take(i - start));
            assert(next.last() == b);
            assert(digits_value(next) == 10 * magnitude + d);
            assert forall|j: int| 0 <= j < next.len() implies is_digit(#[trigger] next[j]) by {
                if j < i - start {
                    assert(next[j] == ds.take(i - start)[j]);
                }
            }
        }
        if magnitude > (limit - d) / 10 {
            proof {
                if all_digits(ds) {
                    lemma_digits_value_prefix(ds, i - start + 1);
                }
            }
            return None;
        }
        magnitude = magnitude * 10 + d;
        i = i + 1;
    }
    assert(ds.take(i - start) =~= ds);
    if negative {
        if magnitude == 9223372036854775808 {
            Some(i64::MIN)
        } else {
            Some(-(magnitude as i64))
        }
    } else {
        Some(magnitude as i64)
    }
}

/// The bytes of the decimal numeral of `n`.
pub open spec fn numeral(n: int) -> Seq<u8> {
    decimal(n).map_values(|c: char| c as u8)
}

/// The digits of a number are decimal digits, at least one, and write it.
proof fn lemma_digits(n: nat)
    ensures
        digits(n).len() > 0,
        all_digits(digits(n).map_values(|c: char| c as u8)),
        digits_value(digits(n).map_values(|c: char| c as u8)) == n,
    decreases n,
{
    let bytes = digits(n).map_values(|c: char| c as u8);
    if n < 10 {
        assert(bytes.drop_last() =~= Seq::<u8>::empty());
        assert(digits_value(bytes.drop_last()) == 0);
    } else {
        lemma_digits(n / 10);
        let high = digits(n / 10).map_values(|c: char| c as u8);
        assert(bytes.drop_last() =~= high);
        assert(bytes.last() == 48 + n % 10);
        assert forall|i: int| 0 <= i < bytes.len() implies is_digit(#[trigger] bytes[i]) by {
            if i < high.len() {
                assert(bytes[i] == high[i]);
            }
        }
    }
}

/// A numeral reads back as the number that it was written for, and holds
/// digits and a minus sign only.
pub proof fn lemma_numeral_value(n: int)
    requires
        i64::MIN <= n <= i64::MAX,
    ensures
        numeral_value(numeral(n)) == Some(n),
        numeral(n).len() > 0,
        forall|i: int|
            0 <= i < numeral(n).len() ==> is_digit(#[trigger] numeral(n)[i]) || numeral(n)[i]
                == 45,
{
    let s = numeral(n);
    if n < 0 {
        let m = (-n) as nat;
        lemma_digits(m);
        let ds = digits(m).map_values(|c: char| c as u8);
        assert(s =~= seq![45u8] + ds);
        assert(s.skip(1) =~= ds);
        assert forall|i: int| 0 <= i < s.len() implies is_digit(#[trigger] s[i]) || s[i] == 45 by {
            if i > 0 {
                assert(s[i] == ds[i - 1]);
            }
        }
    } else {
        lemma_digits(n as nat);
        assert(is_digit(s[0]));
    }
}

} // verus!
