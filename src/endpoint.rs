//! Endpoints as text: `host:port`, the host possibly in brackets.
use vstd::prelude::*;
use crate::text::{decimal, push_decimal, unsigned_digits};

verus! {

/// The index of the last `:` in `s`, or -1.
pub open spec fn last_colon(s: Seq<char>) -> int
    decreases s.len(),
{
    if s.len() == 0 {
        -1
    } else if s.last() == ':' {
        s.len() - 1
    } else {
        last_colon(s.drop_last())
    }
}

/// The address part of an endpoint: the text before its port, or all of it
/// where it has no port.
pub open spec fn ip_part(s: Seq<char>) -> Seq<char> {
    if last_colon(s) < 0 {
        s
    } else {
        s.take(last_colon(s))
    }
}

/// A host with the brackets that set off an IPv6 address removed.
pub open spec fn unbracket(h: Seq<char>) -> Seq<char> {
    if h.len() >= 2 && h[0] == '[' && h.last() == ']' {
        h.subrange(1, h.len() - 1)
    } else {
        h
    }
}

pub open spec fn dec_digit(c: char) -> bool {
    '0' <= c <= '9'
}

/// The value of a string of decimal digits.
pub open spec fn dec_value(s: Seq<char>) -> nat
    decreases s.len(),
{
    if s.len() == 0 {
        0
    } else {
        dec_value(s.drop_last()) * 10 + (s.last() as nat - 48) as nat
    }
}

/// A port number as `u16::from_str` reads it: an optional `+`, at least one
/// decimal digit, and a value below 65536.
pub open spec fn port_number(s: Seq<char>) -> Option<nat> {
    let d = unsigned_digits(s, '+');
    if d.len() > 0 && (forall|i: int| 0 <= i < d.len() ==> dec_digit(#[trigger] d[i])) && dec_value(d)
        <= 65535 {
        Some(dec_value(d))
    } else {
        None
    }
}

/// The host and port of an endpoint: split at the last `:`; the host is not
/// empty and loses its brackets.
pub open spec fn socket_parts(s: Seq<char>) -> Option<(Seq<char>, nat)> {
    let i = last_colon(s);
    if i < 0 || unbracket(s.take(i)).len() == 0 {
        None
    } else {
        match port_number(s.skip(i + 1)) {
            Some(p) => Some((unbracket(s.take(i)), p)),
            None => None,
        }
    }
}

/// The canonical text of a host and port.
pub open spec fn endpoint_text(host: Seq<char>, port: nat) -> Seq<char> {
    host + seq![':'] + decimal(port)
}

proof fn lemma_last_colon_bounds(s: Seq<char>)
    ensures
        -1 <= last_colon(s) < s.len(),
        last_colon(s) >= 0 ==> s[last_colon(s)] == ':',
        forall|j: int| last_colon(s) < j < s.len() ==> s[j] != ':',
    decreases s.len(),
{
    if s.len() > 0 && s.last() != ':' {
        lemma_last_colon_bounds(s.drop_last());
        assert forall|j: int| last_colon(s) < j < s.len() implies s[j] != ':' by {
            if j < s.len() - 1 {
                assert(s.drop_last()[j] == s[j]);
            }
        }
    }
}

fn find_last_colon(s: &str) -> (r: Option<usize>)
    ensures
        match r {
            Some(i) => last_colon(s@) == i as int,
            None => last_colon(s@) < 0,
        },
{
    let n = s.unicode_len();
    let mut i = n;
    assert(s@.take(n as int) =~= s@);
    while i > 0
        invariant
            i <= n == s@.len(),
            last_colon(s@) == last_colon(s@.take(i as int)),
        decreases i,
    {
        assert(s@.take(i as int).drop_last() =~= s@.take(i - 1));
        if s.get_char(i - 1) == ':' {
            return Some(i - 1);
        }
        i = i - 1;
    }
    None
}

/// The address part of an endpoint, as statistics count it.
pub fn ip_of(endpoint: &str) -> (r: String)
    ensures
        r@ == ip_part(endpoint@),
{
    proof {
        lemma_last_colon_bounds(endpoint@);
    }
    match find_last_colon(endpoint) {
        Some(i) => String::from_str(endpoint.substring_char(0, i)),
        None => String::from_str(endpoint),
    }
}

proof fn lemma_dec_value_grows(s: Seq<char>, i: int)
    requires
        0 <= i <= s.len(),
        forall|j: int| 0 <= j < s.len() ==> dec_digit(#[trigger] s[j]),
    ensures
        dec_value(s.take(i)) <= dec_value(s),
    decreases s.len() - i,
{
    if i < s.len() {
        lemma_dec_value_grows(s, i + 1);
        assert(s.take(i + 1).drop_last() =~= s.take(i));
    } else {
        assert(s.take(i) =~= s);
    }
}

fn parse_port(s: &str) -> (r: Option<u16>)
    ensures
        match r {
            Some(p) => port_number(s@) == Some(p as nat),
            None => port_number(s@) is None,
        },
{
    let n = s.unicode_len();
    let mut start: usize = 0;
    if n > 0 && s.get_char(0) == '+' {
        start = 1;
    }
    let ghost d = s@.skip(start as int);
    assert(d =~= unsigned_digits(s@, '+'));
    if start == n {
        return None;
    }
    let mut i = start;
    while i < n
        invariant
            start <= i <= n == s@.len(),
            d == s@.skip(start as int),
            d == unsigned_digits(s@, '+'),
            forall|j: int| 0 <= j < i - start ==> dec_digit(#[trigger] d[j]),
        decreases n - i,
    {
        if !('0' <= s.get_char(i) && s.get_char(i) <= '9') {
            assert(!dec_digit(d[i - start]));
            return None;
        }
        i = i + 1;
    }
    let mut v: u32 = 0;
    let mut i = start;
    while i < n
        invariant
            start <= i <= n == s@.len(),
            d == s@.skip(start as int),
            d == unsigned_digits(s@, '+'),
            forall|j: int| 0 <= j < d.len() ==> dec_digit(#[trigger] d[j]),
            v as nat == dec_value(d.take(i - start)),
            v <= 65535,
        decreases n - i,
    {
        let c = s.get_char(i);
        let ghost k = i - start;
        assert(d.take(k + 1).drop_last() =~= d.take(k));
        assert(d[k] == c);
        v = v * 10 + (c as u32 - 48);
        i = i + 1;
        if v > 65535 {
            proof {
                lemma_dec_value_grows(d, i - start);
            }
            return None;
        }
    }
    assert(d.take(i - start) =~= d);
    Some(v as u16)
}

/// Splits an endpoint into its host (brackets removed) and port.
pub fn split_endpoint(endpoint: &str) -> (r: Option<(String, u16)>)
    ensures
        match r {
            Some((h, p)) => socket_parts(endpoint@) == Some((h@, p as nat)),
            None => socket_parts(endpoint@) is None,
        },
{
    proof {
        lemma_last_colon_bounds(endpoint@);
    }
    let n = endpoint.unicode_len();
    let i = match find_last_colon(endpoint) {
        Some(i) => i,
        None => return None,
    };
    let mut lo: usize = 0;
    let mut hi: usize = i;
    if i >= 2 && endpoint.get_char(0) == '[' && endpoint.get_char(i - 1) == ']' {
        lo = 1;
        hi = i - 1;
    }
    assert(endpoint@.subrange(lo as int, hi as int) =~= unbracket(endpoint@.take(i as int)));
    if lo == hi {
        return None;
    }
    let port_text = endpoint.substring_char(i + 1, n);
    assert(port_text@ =~= endpoint@.skip(i + 1));
    match parse_port(port_text) {
        Some(p) => Some((String::from_str(endpoint.substring_char(lo, hi)), p)),
        None => None,
    }
}

/// The canonical text `host:port`.
pub fn render_endpoint(host: &str, port: u16) -> (r: String)
    ensures
        r@ == endpoint_text(host@, port as nat),
{
    let mut r = String::from_str(host);
    proof {
        reveal_strlit(":");
    }
    r.append(":");
    push_decimal(&mut r, port as u64);
    r
}

} // verus!
