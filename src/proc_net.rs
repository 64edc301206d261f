//! Remote endpoints from the kernel's TCP connection tables
//! (`/proc/<pid>/net/tcp` and `tcp6`).
use vstd::prelude::*;
use crate::cache::opt_text;
use crate::split::{field_ranges, fields, line_ranges, lines, slices};
use crate::tally::{contains_text, lemma_push_fresh_no_dup, lemma_text_set_push, text_set, texts};
use crate::text::{all_hex, decimal, hex_digit, hex_number, hex_text, hex_value, hex_word, parse_hex, push_decimal, push_hex};

verus! {

/// The index of the first `c` in `s`, or -1.
pub open spec fn first_index(s: Seq<u8>, c: u8) -> int
    decreases s.len(),
{
    if s.len() == 0 {
        -1
    } else if s[0] == c {
        0
    } else if first_index(s.drop_first(), c) < 0 {
        -1
    } else {
        first_index(s.drop_first(), c) + 1
    }
}

/// The four bytes of an address word as the kernel stores them: the table
/// prints each 32-bit word of an address as a number in the machine's byte
/// order, so on a little-endian machine the first byte is the lowest digit
/// pair.
pub open spec fn octets(w: nat, little_endian: bool) -> Seq<u8> {
    if little_endian {
        seq![(w % 256) as u8, (w / 256 % 256) as u8, (w / 65536 % 256) as u8, (w / 16777216 % 256) as u8]
    } else {
        seq![(w / 16777216 % 256) as u8, (w / 65536 % 256) as u8, (w / 256 % 256) as u8, (w % 256) as u8]
    }
}

/// The bytes of an address written as words of eight hexadecimal digits.
pub open spec fn address_bytes(a: Seq<u8>, little_endian: bool) -> Seq<u8>
    decreases a.len(),
{
    if a.len() < 8 {
        seq![]
    } else {
        octets(hex_value(a.take(8)), little_endian) + address_bytes(a.skip(8), little_endian)
    }
}

/// Dotted text of the four bytes `o[0..4]`.
pub open spec fn dotted(o: Seq<u8>) -> Seq<char> {
    decimal(o[0] as nat) + seq!['.'] + decimal(o[1] as nat) + seq!['.'] + decimal(o[2] as nat)
        + seq!['.'] + decimal(o[3] as nat)
}

/// An IPv6 address that carries an IPv4 one: ten zero bytes, then two 0xff.
pub open spec fn v4_mapped(by: Seq<u8>) -> bool {
    (forall|i: int| 0 <= i < 10 ==> by[i] == 0) && by[10] == 255 && by[11] == 255
}

/// The 16-bit groups `k..8` of an IPv6 address, in hexadecimal, each after a
/// colon but the first.
pub open spec fn groups_from(by: Seq<u8>, k: nat) -> Seq<char>
    decreases 8 - k,
{
    if k >= 8 {
        seq![]
    } else {
        (if k > 0 {
            seq![':']
        } else {
            seq![]
        }) + hex_text(by[(2 * k) as int] as nat * 256 + by[(2 * k + 1) as int] as nat) + groups_from(by, k + 1)
    }
}

/// Every digit is zero: the address of no peer.
pub open spec fn all_zero_digits(a: Seq<u8>) -> bool {
    forall|i: int| 0 <= i < a.len() ==> a[i] == 48
}

/// The text of a remote address field: eight digits for IPv4, 32 for IPv6.
/// An all-zero address is no peer. An IPv6 address carrying an IPv4 one reads
/// as the IPv4 address, so both tables name a peer alike; other IPv6
/// addresses read as eight groups in brackets.
pub open spec fn address_text(a: Seq<u8>, little_endian: bool) -> Option<Seq<char>> {
    if !((a.len() == 8 || a.len() == 32) && all_hex(a)) || all_zero_digits(a) {
        None
    } else {
        let by = address_bytes(a, little_endian);
        if a.len() == 8 {
            Some(dotted(by))
        } else if v4_mapped(by) {
            Some(dotted(by.skip(12)))
        } else {
            Some(seq!['['] + groups_from(by, 0) + seq![']'])
        }
    }
}

/// The connection states that count: established (`01`) and opening (`02`).
pub open spec fn active_state(st: Seq<u8>) -> bool {
    st == seq![48u8, 49u8] || st == seq![48u8, 50u8]
}

/// The remote endpoint of one table row. The third field is the remote
/// address and port (`address:port`, both hexadecimal), the fourth the state.
/// Rows with fewer fields, in another state, without a peer, or whose address
/// does not read are skipped.
pub open spec fn row_endpoint(row: Seq<u8>, little_endian: bool) -> Option<Seq<char>> {
    let f = fields(row);
    if f.len() < 4 || !active_state(f[3]) {
        None
    } else {
        let r = f[2];
        let c = first_index(r, 58);
        if c < 0 {
            None
        } else {
            match (address_text(r.take(c), little_endian), hex_number(r.skip(c + 1), 0xffff)) {
                (Some(a), Some(p)) => Some(a + seq![':'] + decimal(p)),
                _ => None,
            }
        }
    }
}

/// The endpoints of rows, in order.
pub open spec fn rows_endpoints(rows: Seq<Seq<u8>>, little_endian: bool) -> Seq<Seq<char>>
    decreases rows.len(),
{
    if rows.len() == 0 {
        seq![]
    } else {
        let e = rows_endpoints(rows.drop_last(), little_endian);
        match row_endpoint(rows.last(), little_endian) {
            Some(x) => e.push(x),
            None => e,
        }
    }
}

/// The endpoints of a table: every line after the header.
pub open spec fn table_endpoints(t: Seq<u8>, little_endian: bool) -> Seq<Seq<char>> {
    if lines(t).len() == 0 {
        seq![]
    } else {
        rows_endpoints(lines(t).drop_first(), little_endian)
    }
}

proof fn lemma_first_index_bounds(s: Seq<u8>, c: u8)
    ensures
        -1 <= first_index(s, c) < s.len(),
        first_index(s, c) >= 0 ==> s[first_index(s, c)] == c,
        forall|j: int| 0 <= j < s.len() && (first_index(s, c) < 0 || j < first_index(s, c)) ==> s[j] != c,
    decreases s.len(),
{
    if s.len() > 0 && s[0] != c {
        lemma_first_index_bounds(s.drop_first(), c);
        assert forall|j: int| 0 <= j < s.len() && (first_index(s, c) < 0 || j < first_index(s, c)) implies s[j] != c by {
            if j > 0 {
                assert(s.drop_first()[j - 1] == s[j]);
            }
        }
    }
}

fn find_byte(b: &[u8], lo: usize, hi: usize, c: u8) -> (r: Option<usize>)
    requires
        lo <= hi <= b@.len(),
    ensures
        match r {
            Some(i) => lo <= i < hi && first_index(b@.subrange(lo as int, hi as int), c) == i - lo,
            None => first_index(b@.subrange(lo as int, hi as int), c) < 0,
        },
{
    let ghost s = b@.subrange(lo as int, hi as int);
    proof {
        lemma_first_index_bounds(s, c);
    }
    let mut i = lo;
    while i < hi
        invariant
            lo <= i <= hi <= b@.len(),
            s == b@.subrange(lo as int, hi as int),
            -1 <= first_index(s, c) < s.len(),
            first_index(s, c) >= 0 ==> s[first_index(s, c)] == c,
            forall|j: int| 0 <= j < s.len() && (first_index(s, c) < 0 || j < first_index(s, c)) ==> s[j] != c,
            forall|j: int| lo <= j < i ==> b@[j] != c,
        decreases hi - i,
    {
        if b[i] == c {
            assert(s[i - lo] == c);
            return Some(i);
        }
        i = i + 1;
    }
    proof {
        if first_index(s, c) >= 0 {
            assert(b@[lo + first_index(s, c)] == c);
        }
    }
    None
}

fn push_octets(w: u32, little_endian: bool, out: &mut Vec<u8>)
    ensures
        final(out)@ == old(out)@ + octets(w as nat, little_endian),
{
    let ghost before = out@;
    let b0 = (w % 256) as u8;
    let b1 = (w / 256 % 256) as u8;
    let b2 = (w / 65536 % 256) as u8;
    let b3 = (w / 16777216 % 256) as u8;
    if little_endian {
        out.push(b0);
        out.push(b1);
        out.push(b2);
        out.push(b3);
    } else {
        out.push(b3);
        out.push(b2);
        out.push(b1);
        out.push(b0);
    }
    assert(out@ =~= before + octets(w as nat, little_endian));
}

/// The bytes of the address `b[lo..hi]`, made of `words` words.
fn address_bytes_of(b: &[u8], lo: usize, hi: usize, words: usize, little_endian: bool) -> (r:
    Option<Vec<u8>>)
    requires
        lo <= hi <= b@.len(),
        hi - lo == 8 * words,
    ensures
        match r {
            Some(v) => all_hex(b@.subrange(lo as int, hi as int)) && v@ == address_bytes(
                b@.subrange(lo as int, hi as int),
                little_endian,
            ) && v@.len() == 4 * words,
            None => !all_hex(b@.subrange(lo as int, hi as int)),
        },
{
    let ghost a = b@.subrange(lo as int, hi as int);
    let mut v: Vec<u8> = Vec::new();
    let mut j: usize = 0;
    let mut pos = lo;
    assert(b@.subrange(lo as int, lo as int) =~= Seq::<u8>::empty());
    assert(b@.subrange(pos as int, hi as int) =~= a);
    while j < words
        invariant
            lo <= pos <= hi <= b@.len(),
            hi - lo == 8 * words,
            pos == lo + 8 * j,
            j <= words,
            a == b@.subrange(lo as int, hi as int),
            v@.len() == 4 * j,
            all_hex(b@.subrange(lo as int, pos as int)),
            v@ + address_bytes(b@.subrange(pos as int, hi as int), little_endian) == address_bytes(
                a,
                little_endian,
            ),
        decreases words - j,
    {
        let ghost rest = b@.subrange(pos as int, hi as int);
        let ghost chunk = b@.subrange(pos as int, pos + 8);
        match hex_word(b, pos) {
            Some(w) => {
                assert(rest.take(8) =~= chunk);
                assert(rest.skip(8) =~= b@.subrange(pos + 8, hi as int));
                let ghost old_v = v@;
                push_octets(w, little_endian, &mut v);
                assert(v@ + address_bytes(b@.subrange(pos + 8, hi as int), little_endian) =~= old_v
                    + address_bytes(rest, little_endian));
                assert(all_hex(b@.subrange(lo as int, pos + 8))) by {
                    assert forall|i: int| 0 <= i < pos + 8 - lo implies (#[trigger] hex_digit(
                        b@.subrange(lo as int, pos + 8)[i],
                    )) is Some by {
                        if i < pos - lo {
                            assert(b@.subrange(lo as int, pos + 8)[i] == b@.subrange(
                                lo as int,
                                pos as int,
                            )[i]);
                        } else {
                            assert(b@.subrange(lo as int, pos + 8)[i] == chunk[i - (pos - lo)]);
                        }
                    }
                }
            },
            None => {
                proof {
                    let i = choose|i: int| 0 <= i < 8 && !(#[trigger] hex_digit(chunk[i]) is Some);
                    assert(a[pos - lo + i] == chunk[i]);
                }
                return None;
            },
        }
        pos = pos + 8;
        j = j + 1;
    }
    assert(b@.subrange(pos as int, hi as int) =~= Seq::<u8>::empty());
    assert(v@ + Seq::<u8>::empty() =~= v@);
    Some(v)
}

fn all_zero(b: &[u8], lo: usize, hi: usize) -> (r: bool)
    requires
        lo <= hi <= b@.len(),
    ensures
        r == all_zero_digits(b@.subrange(lo as int, hi as int)),
{
    let mut i = lo;
    while i < hi
        invariant
            lo <= i <= hi <= b@.len(),
            forall|j: int| lo <= j < i ==> b@[j] == 48,
        decreases hi - i,
    {
        if b[i] != 48 {
            assert(b@.subrange(lo as int, hi as int)[i - lo] != 48);
            return false;
        }
        i = i + 1;
    }
    assert forall|j: int| 0 <= j < hi - lo implies b@.subrange(lo as int, hi as int)[j] == 48 by {
        assert(b@.subrange(lo as int, hi as int)[j] == b@[lo + j]);
    }
    true
}

fn render_dotted(by: &Vec<u8>, at: usize) -> (r: String)
    requires
        at <= 12,
        by@.len() == 16 || (at == 0 && by@.len() == 4),
    ensures
        r@ == dotted(by@.skip(at as int)),
{
    proof {
        reveal_strlit(".");
    }
    let ghost o = by@.skip(at as int);
    let mut r = String::new();
    push_decimal(&mut r, by[at] as u64);
    r.append(".");
    push_decimal(&mut r, by[at + 1] as u64);
    r.append(".");
    push_decimal(&mut r, by[at + 2] as u64);
    r.append(".");
    push_decimal(&mut r, by[at + 3] as u64);
    assert(o[0] == by@[at as int] && o[1] == by@[at + 1] && o[2] == by@[at + 2] && o[3] == by@[at + 3]);
    r
}

fn is_v4_mapped(by: &Vec<u8>) -> (r: bool)
    requires
        by@.len() == 16,
    ensures
        r == v4_mapped(by@),
{
    let mut i: usize = 0;
    while i < 10
        invariant
            i <= 10,
            by@.len() == 16,
            forall|j: int| 0 <= j < i ==> by@[j] == 0,
        decreases 10 - i,
    {
        if by[i] != 0 {
            return false;
        }
        i = i + 1;
    }
    by[10] == 255 && by[11] == 255
}

fn render_v6(by: &Vec<u8>) -> (r: String)
    requires
        by@.len() == 16,
    ensures
        r@ == seq!['['] + groups_from(by@, 0) + seq![']'],
{
    proof {
        reveal_strlit("[");
        reveal_strlit("]");
        reveal_strlit(":");
    }
    let mut r = String::new();
    r.append("[");
    let mut k: usize = 0;
    assert(r@ + groups_from(by@, 0) =~= seq!['['] + groups_from(by@, 0));
    while k < 8
        invariant
            k <= 8,
            by@.len() == 16,
            r@ + groups_from(by@, k as nat) == seq!['['] + groups_from(by@, 0),
        decreases 8 - k,
    {
        proof {
            reveal_strlit(":");
        }
        let ghost before = r@;
        let ghost sep: Seq<char> = if k > 0 {
            seq![':']
        } else {
            seq![]
        };
        if k > 0 {
            r.append(":");
        }
        assert(r@ =~= before + sep);
        let ghost mid = r@;
        let group: u64 = by[2 * k] as u64 * 256 + by[2 * k + 1] as u64;
        push_hex(&mut r, group);
        assert(group as nat == by@[(2 * k) as int] as nat * 256 + by@[(2 * k + 1) as int] as nat);
        assert(groups_from(by@, k as nat) == (if k > 0 {
            seq![':']
        } else {
            seq![]
        }) + hex_text(group as nat) + groups_from(by@, (k + 1) as nat));
        assert(r@ == mid + hex_text(group as nat));
        assert(r@ + groups_from(by@, (k + 1) as nat) =~= before + (sep + hex_text(group as nat)
            + groups_from(by@, (k + 1) as nat)));
        k = k + 1;
    }
    assert(groups_from(by@, 8) =~= Seq::<char>::empty());
    assert(r@ =~= seq!['['] + groups_from(by@, 0));
    r.append("]");
    r
}

fn address_text_of(b: &[u8], lo: usize, hi: usize, little_endian: bool) -> (r: Option<String>)
    requires
        lo <= hi <= b@.len(),
    ensures
        opt_text(r) == address_text(b@.subrange(lo as int, hi as int), little_endian),
{
    let ghost a = b@.subrange(lo as int, hi as int);
    let n = hi - lo;
    if n != 8 && n != 32 {
        return None;
    }
    let words: usize = if n == 8 {
        1
    } else {
        4
    };
    let by = match address_bytes_of(b, lo, hi, words, little_endian) {
        Some(v) => v,
        None => return None,
    };
    if all_zero(b, lo, hi) {
        return None;
    }
    if n == 8 {
        assert(by@.skip(0) =~= by@);
        return Some(render_dotted(&by, 0));
    }
    if is_v4_mapped(&by) {
        Some(render_dotted(&by, 12))
    } else {
        Some(render_v6(&by))
    }
}

fn is_active_state(b: &[u8], lo: usize, hi: usize) -> (r: bool)
    requires
        lo <= hi <= b@.len(),
    ensures
        r == active_state(b@.subrange(lo as int, hi as int)),
{
    let ghost st = b@.subrange(lo as int, hi as int);
    if hi - lo != 2 {
        assert(st.len() != 2);
        return false;
    }
    let r = b[lo] == 48 && (b[lo + 1] == 49 || b[lo + 1] == 50);
    assert(st[0] == b@[lo as int] && st[1] == b@[lo + 1]);
    if r {
        assert(st =~= seq![48u8, 49u8] || st =~= seq![48u8, 50u8]);
    } else {
        assert(st != seq![48u8, 49u8] && st != seq![48u8, 50u8]) by {
            if st == seq![48u8, 49u8] {
                assert(st[0] == 48 && st[1] == 49);
            }
            if st == seq![48u8, 50u8] {
                assert(st[0] == 48 && st[1] == 50);
            }
        }
    }
    r
}

fn row_endpoint_of(b: &[u8], lo: usize, hi: usize, little_endian: bool) -> (r: Option<String>)
    requires
        lo <= hi <= b@.len(),
    ensures
        opt_text(r) == row_endpoint(b@.subrange(lo as int, hi as int), little_endian),
{
    let ghost row = b@.subrange(lo as int, hi as int);
    let f = field_ranges(b, lo, hi);
    if f.len() < 4 {
        return None;
    }
    let (s3, e3) = f[3];
    assert(slices(b@, f@)[3] == b@.subrange(s3 as int, e3 as int));
    if !is_active_state(b, s3, e3) {
        return None;
    }
    let (s, e) = f[2];
    assert(slices(b@, f@)[2] == b@.subrange(s as int, e as int));
    let ghost r = fields(row)[2];
    let c = match find_byte(b, s, e, 58) {
        Some(c) => c,
        None => return None,
    };
    assert(r.take(c - s) =~= b@.subrange(s as int, c as int));
    assert(r.skip(c - s + 1) =~= b@.subrange(c + 1, e as int));
    let addr = address_text_of(b, s, c, little_endian);
    let port = parse_hex(b, c + 1, e, 0xffff);
    match (addr, port) {
        (Some(a), Some(p)) => {
            proof {
                reveal_strlit(":");
            }
            let mut text = a;
            text.append(":");
            push_decimal(&mut text, p);
            Some(text)
        },
        _ => None,
    }
}

/// Adds to `out` the endpoints of table `t` that it does not hold yet.
fn collect_table(t: &[u8], little_endian: bool, out: &mut Vec<String>)
    requires
        texts(old(out)@).no_duplicates(),
    ensures
        texts(final(out)@).no_duplicates(),
        text_set(final(out)@) == text_set(old(out)@) + table_endpoints(t@, little_endian).to_set(),
{
    let rows = line_ranges(t);
    let ghost ls = lines(t@);
    if rows.len() == 0 {
        assert(table_endpoints(t@, little_endian).to_set() =~= Set::<Seq<char>>::empty());
        assert(text_set(out@) =~= text_set(out@) + Set::<Seq<char>>::empty());
        return;
    }
    let ghost body = ls.drop_first();
    let ghost start = text_set(out@);
    let mut k: usize = 1;
    assert(body.take(0) =~= Seq::<Seq<u8>>::empty());
    assert(start =~= start + rows_endpoints(body.take(0), little_endian).to_set());
    while k < rows.len()
        invariant
            1 <= k <= rows@.len(),
            slices(t@, rows@) == ls,
            ls == lines(t@),
            body == ls.drop_first(),
            crate::split::ranges_within(rows@, 0, t@.len() as int),
            texts(out@).no_duplicates(),
            text_set(out@) == start + rows_endpoints(body.take(k - 1), little_endian).to_set(),
        decreases rows@.len() - k,
    {
        let (lo, hi) = rows[k];
        assert(slices(t@, rows@)[k as int] == t@.subrange(lo as int, hi as int));
        assert(body.take(k as int).drop_last() =~= body.take(k - 1));
        assert(body.take(k as int).last() == ls[k as int]);
        let ghost before = rows_endpoints(body.take(k - 1), little_endian);
        match row_endpoint_of(t, lo, hi, little_endian) {
            Some(ep) => {
                assert(rows_endpoints(body.take(k as int), little_endian) == before.push(ep@));
                assert(before.push(ep@).to_set() =~= before.to_set().insert(ep@)) by {
                    Seq::lemma_to_set_insert_commutes(before, ep@);
                    assert(before.push(ep@) =~= before + seq![ep@]);
                }
                if !contains_text(out, &ep) {
                    proof {
                        lemma_push_fresh_no_dup(out@, ep);
                        lemma_text_set_push(out@, ep);
                    }
                    out.push(ep);
                }
                assert(text_set(out@) =~= start + rows_endpoints(body.take(k as int), little_endian).to_set());
            },
            None => {
                assert(rows_endpoints(body.take(k as int), little_endian) == before);
            },
        }
        k = k + 1;
    }
    assert(body.take(k - 1) =~= body);
}

/// The distinct remote endpoints of the established or opening connections
/// in the two connection tables of a process (IPv4 and IPv6; the header line
/// of each is skipped). `little_endian` tells the machine's byte order, in
/// which the tables write addresses.
pub fn proc_net_endpoints(tcp: &[u8], tcp6: &[u8], little_endian: bool) -> (r: Vec<String>)
    ensures
        texts(r@).no_duplicates(),
        text_set(r@) == (table_endpoints(tcp@, little_endian) + table_endpoints(tcp6@, little_endian)).to_set(),
{
    let mut r: Vec<String> = Vec::new();
    assert(texts(r@) =~= Seq::<Seq<char>>::empty());
    collect_table(tcp, little_endian, &mut r);
    collect_table(tcp6, little_endian, &mut r);
    proof {
        assert(text_set(Seq::<String>::empty()) =~= Set::<Seq<char>>::empty());
        assert((table_endpoints(tcp@, little_endian) + table_endpoints(tcp6@, little_endian)).to_set() =~= table_endpoints(tcp@, little_endian).to_set() + table_endpoints(tcp6@, little_endian).to_set()) by {
            let a = table_endpoints(tcp@, little_endian);
            let b = table_endpoints(tcp6@, little_endian);
            assert forall|x| (a + b).to_set().contains(x) implies a.to_set().contains(x)
                || b.to_set().contains(x) by {
                let i = choose|i: int| 0 <= i < (a + b).len() && (a + b)[i] == x;
                if i < a.len() {
                    assert(a[i] == x);
                } else {
                    assert(b[i - a.len()] == x);
                }
            }
            assert forall|x| a.to_set().contains(x) implies (a + b).to_set().contains(x) by {
                let i = choose|i: int| 0 <= i < a.len() && a[i] == x;
                assert((a + b)[i] == x);
            }
            assert forall|x| b.to_set().contains(x) implies (a + b).to_set().contains(x) by {
                let i = choose|i: int| 0 <= i < b.len() && b[i] == x;
                assert((a + b)[a.len() + i] == x);
            }
        }
    }
    r
}

/// Endpoints where no connection table can be read: none.
pub fn unsupported_endpoints(_pid: u32) -> (r: Vec<String>)
    ensures
        r@.len() == 0,
{
    Vec::new()
}

} // verus!
