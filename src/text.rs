//! Digits: rendering numbers in decimal and reading hexadecimal and decimal
//! numerals the way `from_str_radix` reads them.
use vstd::prelude::*;

verus! {

/// The character of the decimal digit `d` (`d < 10`).
pub open spec fn digit_char(d: nat) -> char {
    ((d + 48) as u8) as char
}

/// The decimal numeral of `n`, without leading zeros.
pub open spec fn decimal(n: nat) -> Seq<char>
    decreases n,
{
    if n < 10 {
        seq![digit_char(n)]
    } else {
        decimal(n / 10).push(digit_char(n % 10))
    }
}

fn digit_text(d: u64) -> (r: &'static str)
    requires
        d < 10,
    ensures
        r@ == seq![digit_char(d as nat)],
{
    proof {
        reveal_strlit("0");
        reveal_strlit("1");
        reveal_strlit("2");
        reveal_strlit("3");
        reveal_strlit("4");
        reveal_strlit("5");
        reveal_strlit("6");
        reveal_strlit("7");
        reveal_strlit("8");
        reveal_strlit("9");
    }
    if d == 0 {
        "0"
    } else if d == 1 {
        "1"
    } else if d == 2 {
        "2"
    } else if d == 3 {
        "3"
    } else if d == 4 {
        "4"
    } else if d == 5 {
        "5"
    } else if d == 6 {
        "6"
    } else if d == 7 {
        "7"
    } else if d == 8 {
        "8"
    } else {
        "9"
    }
}

/// Appends the decimal numeral of `n` to `out`.
pub fn push_decimal(out: &mut String, n: u64)
    ensures
        final(out)@ == old(out)@ + decimal(n as nat),
    decreases n,
{
    if n >= 10 {
        push_decimal(out, n / 10);
    }
    out.append(digit_text(n % 10));
}

/// The value of a hexadecimal digit (either case), if `c` is one.
pub open spec fn hex_digit(c: u8) -> Option<nat> {
    if 48 <= c <= 57 {
        Some((c - 48) as nat)
    } else if 97 <= c <= 102 {
        Some((c - 87) as nat)
    } else if 65 <= c <= 70 {
        Some((c - 55) as nat)
    } else {
        None
    }
}

pub open spec fn all_hex(s: Seq<u8>) -> bool {
    forall|i: int| 0 <= i < s.len() ==> (#[trigger] hex_digit(s[i])) is Some
}

/// The value of a string of hexadecimal digits, most significant first.
pub open spec fn hex_value(s: Seq<u8>) -> nat
    decreases s.len(),
{
    if s.len() == 0 {
        0
    } else {
        hex_value(s.drop_last()) * 16 + hex_digit(s.last()).unwrap_or(0)
    }
}

/// The digits of a numeral after an optional leading `+`.
pub open spec fn unsigned_digits<T>(s: Seq<T>, plus: T) -> Seq<T> {
    if s.len() > 0 && s[0] == plus {
        s.drop_first()
    } else {
        s
    }
}

/// A hexadecimal numeral as `from_str_radix(_, 16)` reads it for an unsigned
/// type whose largest value is `max`: an optional `+`, then at least one digit,
/// and a value that fits.
pub open spec fn hex_number(s: Seq<u8>, max: nat) -> Option<nat> {
    let d = unsigned_digits(s, 43u8);
    if d.len() > 0 && all_hex(d) && hex_value(d) <= max {
        Some(hex_value(d))
    } else {
        None
    }
}

proof fn lemma_hex_value_grows(s: Seq<u8>, i: int)
    requires
        0 <= i <= s.len(),
    ensures
        hex_value(s.take(i)) <= hex_value(s),
    decreases s.len() - i,
{
    if i < s.len() {
        lemma_hex_value_grows(s, i + 1);
        assert(s.take(i + 1).drop_last() =~= s.take(i));
    } else {
        assert(s.take(i) =~= s);
    }
}

/// Reads `b[lo..hi]` as a hexadecimal numeral bounded by `max`.
pub fn parse_hex(b: &[u8], lo: usize, hi: usize, max: u64) -> (r: Option<u64>)
    requires
        lo <= hi <= b@.len(),
        max <= u32::MAX,
    ensures
        match r {
            Some(v) => hex_number(b@.subrange(lo as int, hi as int), max as nat) == Some(v as nat),
            None => hex_number(b@.subrange(lo as int, hi as int), max as nat) is None,
        },
{
    let ghost s = b@.subrange(lo as int, hi as int);
    let mut start = lo;
    if lo < hi && b[lo] == 43u8 {
        start = lo + 1;
    }
    let ghost d = b@.subrange(start as int, hi as int);
    assert(d =~= unsigned_digits(s, 43u8));
    if start == hi {
        return None;
    }
    let mut v: u64 = 0;
    let mut i = start;
    while i < hi
        invariant
            lo <= start <= i <= hi <= b@.len(),
            d == b@.subrange(start as int, hi as int),
            s == b@.subrange(lo as int, hi as int),
            d == unsigned_digits(s, 43u8),
            all_hex(d.take(i - start)),
            v as nat == hex_value(d.take(i - start)),
            v <= max,
            max <= u32::MAX,
        decreases hi - i,
    {
        let c = b[i];
        let dv: u64 = if 48 <= c && c <= 57 {
            (c - 48) as u64
        } else if 97 <= c && c <= 102 {
            (c - 87) as u64
        } else if 65 <= c && c <= 70 {
            (c - 55) as u64
        } else {
            assert(d[i - start] == c);
            assert(hex_digit(d[i - start]) is None);
            return None;
        };
        let ghost k = i - start;
        assert(d.take(k + 1).drop_last() =~= d.take(k));
        assert(d.take(k + 1).last() == c);
        v = v * 16 + dv;
        assert(all_hex(d.take(k + 1))) by {
            assert forall|j: int| 0 <= j < k + 1 implies (#[trigger] hex_digit(d.take(k + 1)[j])) is Some by {
                if j < k {
                    assert(d.take(k + 1)[j] == d.take(k)[j]);
                }
            }
        }
        i = i + 1;
        if v > max {
            proof {
                lemma_hex_value_grows(d, i - start);
            }
            return None;
        }
    }
    assert(d.take(i - start) =~= d);
    Some(v)
}

/// The character of the hexadecimal digit `d` (`d < 16`), in lower case.
pub open spec fn hex_char(d: nat) -> char {
    if d < 10 {
        digit_char(d)
    } else {
        ((d + 87) as u8) as char
    }
}

/// The lower-case hexadecimal numeral of `n`, without leading zeros.
pub open spec fn hex_text(n: nat) -> Seq<char>
    decreases n,
{
    if n < 16 {
        seq![hex_char(n)]
    } else {
        hex_text(n / 16).push(hex_char(n % 16))
    }
}

fn hex_digit_text(d: u64) -> (r: &'static str)
    requires
        d < 16,
    ensures
        r@ == seq![hex_char(d as nat)],
{
    if d < 10 {
        return digit_text(d);
    }
    proof {
        reveal_strlit("a");
        reveal_strlit("b");
        reveal_strlit("c");
        reveal_strlit("d");
        reveal_strlit("e");
        reveal_strlit("f");
    }
    if d == 10 {
        "a"
    } else if d == 11 {
        "b"
    } else if d == 12 {
        "c"
    } else if d == 13 {
        "d"
    } else if d == 14 {
        "e"
    } else {
        "f"
    }
}

/// Appends the lower-case hexadecimal numeral of `n` to `out`.
pub fn push_hex(out: &mut String, n: u64)
    ensures
        final(out)@ == old(out)@ + hex_text(n as nat),
    decreases n,
{
    if n >= 16 {
        push_hex(out, n / 16);
    }
    out.append(hex_digit_text(n % 16));
}

pub open spec fn pow16(k: nat) -> nat
    decreases k,
{
    if k == 0 {
        1
    } else {
        16 * pow16((k - 1) as nat)
    }
}

/// Reads the eight hexadecimal digits `b[lo..lo + 8]`, with no sign.
pub fn hex_word(b: &[u8], lo: usize) -> (r: Option<u32>)
    requires
        lo + 8 <= b@.len(),
    ensures
        match r {
            Some(w) => all_hex(b@.subrange(lo as int, lo + 8)) && w as nat == hex_value(
                b@.subrange(lo as int, lo + 8),
            ),
            None => !all_hex(b@.subrange(lo as int, lo + 8)),
        },
{
    let ghost d = b@.subrange(lo as int, lo + 8);
    let n = b.len();
    let mut v: u64 = 0;
    let mut k: usize = 0;
    while k < 8
        invariant
            k <= 8,
            n == b@.len(),
            lo + 8 <= b@.len(),
            d == b@.subrange(lo as int, lo + 8),
            all_hex(d.take(k as int)),
            v as nat == hex_value(d.take(k as int)),
            v < pow16(k as nat),
            pow16(k as nat) <= 4294967296,
        decreases 8 - k,
    {
        let c = b[lo + k];
        assert(d[k as int] == c);
        let dv: u64 = if 48 <= c && c <= 57 {
            (c - 48) as u64
        } else if 97 <= c && c <= 102 {
            (c - 87) as u64
        } else if 65 <= c && c <= 70 {
            (c - 55) as u64
        } else {
            assert(hex_digit(d[k as int]) is None);
            return None;
        };
        assert(d.take(k + 1).drop_last() =~= d.take(k as int));
        assert(d.take(k + 1).last() == c);
        assert(all_hex(d.take(k + 1))) by {
            assert forall|j: int| 0 <= j < k + 1 implies (#[trigger] hex_digit(d.take(k + 1)[j])) is Some by {
                if j < k {
                    assert(d.take(k + 1)[j] == d.take(k as int)[j]);
                }
            }
        }
        let ghost p = pow16(k as nat);
        assert(v * 16 + dv < 16 * p) by (nonlinear_arith)
            requires
                v < p,
                dv < 16,
        ;
        assert(pow16((k + 1) as nat) == 16 * p);
        proof {
            if k < 7 {
                reveal_with_fuel(pow16, 9);
                assert(pow16(8) == 4294967296);
                lemma_pow16_grows((k + 1) as nat, 8);
            }
        }
        v = v * 16 + dv;
        k = k + 1;
    }
    assert(d.take(8) =~= d);
    Some(v as u32)
}

proof fn lemma_pow16_grows(a: nat, b: nat)
    requires
        a <= b,
    ensures
        pow16(a) <= pow16(b),
    decreases b - a,
{
    if a < b {
        lemma_pow16_grows(a, (b - 1) as nat);
        assert(pow16(b) == 16 * pow16((b - 1) as nat));
    }
}

} // verus!
