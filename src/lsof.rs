//! Remote endpoints from the output of `lsof -i -n -P -p <pid>`.
use vstd::prelude::*;
use crate::split::{field_ranges, fields, line_ranges, lines, ranges_within, slices};
use crate::tally::{contains_text, lemma_push_fresh_no_dup, lemma_text_set_push, text_set, texts};

verus! {

/// The text that `String::from_utf8_lossy` makes of `b`.
pub uninterp spec fn lossy_text(b: Seq<u8>) -> Seq<char>;

/// ASCII bytes, each as its character.
pub open spec fn ascii_chars(b: Seq<u8>) -> Seq<char> {
    b.map_values(|c: u8| c as char)
}

/// Relies on `String::from_utf8_lossy`: the text of the bytes, with each
/// invalid sequence replaced; valid UTF-8, and so ASCII, is kept as it is.
#[verifier::external_body]
fn text_from_bytes(b: &[u8]) -> (r: String)
    ensures
        r@ == lossy_text(b@),
        (forall|i: int| 0 <= i < b@.len() ==> b@[i] < 128) ==> r@ == ascii_chars(b@),
{
    String::from_utf8_lossy(b).into_owned()
}

/// `pat` stands in `s` at `i`.
pub open spec fn occurs_at(s: Seq<u8>, pat: Seq<u8>, i: int) -> bool {
    0 <= i && i + pat.len() <= s.len() && s.subrange(i, i + pat.len()) == pat
}

/// The first place at or after `i` where `pat` stands in `s`, or -1.
pub open spec fn find_from(s: Seq<u8>, pat: Seq<u8>, i: int) -> int
    decreases s.len() + 1 - i,
{
    if i < 0 || i + pat.len() > s.len() {
        -1
    } else if occurs_at(s, pat, i) {
        i
    } else {
        find_from(s, pat, i + 1)
    }
}

pub open spec fn has(s: Seq<u8>, pat: Seq<u8>) -> bool {
    find_from(s, pat, 0) >= 0
}

/// `->`, between the local and the remote address.
pub open spec fn arrow() -> Seq<u8> {
    seq![45u8, 62u8]
}

/// `ESTABLISHED`
pub open spec fn established() -> Seq<u8> {
    seq![69u8, 83u8, 84u8, 65u8, 66u8, 76u8, 73u8, 83u8, 72u8, 69u8, 68u8]
}

/// `SYN_SENT`
pub open spec fn syn_sent() -> Seq<u8> {
    seq![83u8, 89u8, 78u8, 95u8, 83u8, 69u8, 78u8, 84u8]
}

/// The first field that holds an arrow.
pub open spec fn first_arrow_field(fs: Seq<Seq<u8>>) -> Option<Seq<u8>>
    decreases fs.len(),
{
    if fs.len() == 0 {
        None
    } else if has(fs[0], arrow()) {
        Some(fs[0])
    } else {
        first_arrow_field(fs.drop_first())
    }
}

/// What follows the first arrow of `f`, up to a second arrow if there is one.
pub open spec fn after_arrow(f: Seq<u8>) -> Seq<u8> {
    let rest = f.skip(find_from(f, arrow(), 0) + 2);
    let j = find_from(rest, arrow(), 0);
    if j < 0 {
        rest
    } else {
        rest.take(j)
    }
}

/// The remote endpoint of one line: only lines of established or opening
/// connections count, and the endpoint follows the arrow of the address field.
pub open spec fn line_endpoint(line: Seq<u8>) -> Option<Seq<char>> {
    if has(line, established()) || has(line, syn_sent()) {
        match first_arrow_field(fields(line)) {
            Some(f) => Some(lossy_text(after_arrow(f))),
            None => None,
        }
    } else {
        None
    }
}

/// The endpoints of lines, in order.
pub open spec fn lines_endpoints(ls: Seq<Seq<u8>>) -> Seq<Seq<char>>
    decreases ls.len(),
{
    if ls.len() == 0 {
        seq![]
    } else {
        let e = lines_endpoints(ls.drop_last());
        match line_endpoint(ls.last()) {
            Some(x) => e.push(x),
            None => e,
        }
    }
}

proof fn lemma_find_from_bounds(s: Seq<u8>, pat: Seq<u8>, i: int)
    ensures
        find_from(s, pat, i) == -1 || (i <= find_from(s, pat, i) && occurs_at(
            s,
            pat,
            find_from(s, pat, i),
        )),
    decreases s.len() + 1 - i,
{
    if !(i < 0 || i + pat.len() > s.len()) && !occurs_at(s, pat, i) {
        lemma_find_from_bounds(s, pat, i + 1);
    }
}

/// The first place in `b[lo..hi]`, counted from `lo`, where `pat` stands.
fn find_pattern(b: &[u8], lo: usize, hi: usize, pat: &Vec<u8>) -> (r: Option<usize>)
    requires
        lo <= hi <= b@.len(),
        pat@.len() > 0,
    ensures
        match r {
            Some(i) => find_from(b@.subrange(lo as int, hi as int), pat@, 0) == i as int,
            None => find_from(b@.subrange(lo as int, hi as int), pat@, 0) == -1,
        },
{
    let ghost s = b@.subrange(lo as int, hi as int);
    let n = hi - lo;
    let m = pat.len();
    let mut i: usize = 0;
    while m <= n - i
        invariant
            i <= n,
            s == b@.subrange(lo as int, hi as int),
            n == s.len(),
            m == pat@.len(),
            m > 0,
            lo <= hi <= b@.len(),
            find_from(s, pat@, 0) == find_from(s, pat@, i as int),
        decreases n - i,
    {
        let mut j: usize = 0;
        while j < m && b[lo + i + j] == pat[j]
            invariant
                i + m <= n,
                i <= n,
                s == b@.subrange(lo as int, hi as int),
                n == s.len(),
                m == pat@.len(),
                lo <= hi <= b@.len(),
                j <= m,
                forall|k: int| 0 <= k < j ==> s[i + k] == pat@[k],
            decreases m - j,
        {
            j = j + 1;
        }
        if j == m {
            assert(s.subrange(i as int, i + m) =~= pat@);
            return Some(i);
        }
        assert(s.subrange(i as int, i + m)[j as int] != pat@[j as int]);
        i = i + 1;
    }
    None
}

fn arrow_bytes() -> (r: Vec<u8>)
    ensures
        r@ == arrow(),
{
    let r = vec![45u8, 62u8];
    assert(r@ =~= arrow());
    r
}

fn established_bytes() -> (r: Vec<u8>)
    ensures
        r@ == established(),
{
    let r = vec![69u8, 83u8, 84u8, 65u8, 66u8, 76u8, 73u8, 83u8, 72u8, 69u8, 68u8];
    assert(r@ =~= established());
    r
}

fn syn_sent_bytes() -> (r: Vec<u8>)
    ensures
        r@ == syn_sent(),
{
    let r = vec![83u8, 89u8, 78u8, 95u8, 83u8, 69u8, 78u8, 84u8];
    assert(r@ =~= syn_sent());
    r
}

fn copy_range(b: &[u8], lo: usize, hi: usize) -> (r: Vec<u8>)
    requires
        lo <= hi <= b@.len(),
    ensures
        r@ == b@.subrange(lo as int, hi as int),
{
    let mut r: Vec<u8> = Vec::new();
    let mut i = lo;
    while i < hi
        invariant
            lo <= i <= hi <= b@.len(),
            r@ == b@.subrange(lo as int, i as int),
        decreases hi - i,
    {
        r.push(b[i]);
        assert(r@ =~= b@.subrange(lo as int, i + 1));
        i = i + 1;
    }
    r
}

fn line_endpoint_of(b: &[u8], lo: usize, hi: usize) -> (r: Option<String>)
    requires
        lo <= hi <= b@.len(),
    ensures
        crate::cache::opt_text(r) == line_endpoint(b@.subrange(lo as int, hi as int)),
{
    let ghost line = b@.subrange(lo as int, hi as int);
    let est = established_bytes();
    let syn = syn_sent_bytes();
    let found_est = find_pattern(b, lo, hi, &est);
    let found_syn = find_pattern(b, lo, hi, &syn);
    if found_est.is_none() && found_syn.is_none() {
        return None;
    }
    assert(has(line, established()) || has(line, syn_sent()));
    let arrow_pat = arrow_bytes();
    let f = field_ranges(b, lo, hi);
    let ghost fs = fields(line);
    let mut k: usize = 0;
    assert(fs.skip(0) =~= fs);
    while k < f.len()
        invariant
            k <= f@.len(),
            slices(b@, f@) == fs,
            ranges_within(f@, lo as int, hi as int),
            lo <= hi <= b@.len(),
            arrow_pat@ == arrow(),
            first_arrow_field(fs) == first_arrow_field(fs.skip(k as int)),
            line == b@.subrange(lo as int, hi as int),
            fs == fields(line),
            has(line, established()) || has(line, syn_sent()),
        decreases f@.len() - k,
    {
        let (s, e) = f[k];
        assert(slices(b@, f@)[k as int] == b@.subrange(s as int, e as int));
        assert(fs.skip(k as int)[0] == fs[k as int]);
        assert(fs.skip(k as int).drop_first() =~= fs.skip(k + 1));
        match find_pattern(b, s, e, &arrow_pat) {
            Some(a) => {
                let ghost fld = b@.subrange(s as int, e as int);
                proof {
                    lemma_find_from_bounds(fld, arrow(), 0);
                }
                let start = s + a + 2;
                let ghost rest = fld.skip(a + 2);
                assert(rest =~= b@.subrange(start as int, e as int));
                let end = match find_pattern(b, start, e, &arrow_pat) {
                    Some(j) => {
                        proof {
                            lemma_find_from_bounds(rest, arrow(), 0);
                        }
                        assert(rest.take(j as int) =~= b@.subrange(start as int, start + j));
                        start + j
                    },
                    None => e,
                };
                let piece = copy_range(b, start, end);
                assert(has(fld, arrow()));
                assert(fs[k as int] == fld);
                assert(first_arrow_field(fs.skip(k as int)) == Some(fld));
                assert(after_arrow(fld) == piece@);
                let text = text_from_bytes(piece.as_slice());
                assert(line_endpoint(line) == Some(lossy_text(piece@)));
                return Some(text);
            },
            None => {},
        }
        k = k + 1;
    }
    assert(fs.skip(k as int) =~= Seq::<Seq<u8>>::empty());
    None
}

/// The distinct remote endpoints that `lsof` lists for established or
/// opening connections; none where it did not succeed.
pub fn lsof_endpoints(output: &[u8], success: bool) -> (r: Vec<String>)
    ensures
        texts(r@).no_duplicates(),
        !success ==> r@.len() == 0,
        success ==> text_set(r@) == lines_endpoints(lines(output@)).to_set(),
{
    let mut out: Vec<String> = Vec::new();
    assert(texts(out@) =~= Seq::<Seq<char>>::empty());
    if !success {
        return out;
    }
    let rows = line_ranges(output);
    let ghost ls = lines(output@);
    let mut k: usize = 0;
    assert(ls.take(0) =~= Seq::<Seq<u8>>::empty());
    assert(text_set(out@) =~= Set::<Seq<char>>::empty());
    assert(lines_endpoints(ls.take(0)).to_set() =~= Set::<Seq<char>>::empty());
    while k < rows.len()
        invariant
            k <= rows@.len(),
            slices(output@, rows@) == ls,
            ranges_within(rows@, 0, output@.len() as int),
            texts(out@).no_duplicates(),
            text_set(out@) == lines_endpoints(ls.take(k as int)).to_set(),
        decreases rows@.len() - k,
    {
        let (lo, hi) = rows[k];
        assert(slices(output@, rows@)[k as int] == output@.subrange(lo as int, hi as int));
        assert(ls.take(k + 1).drop_last() =~= ls.take(k as int));
        assert(ls.take(k + 1).last() == ls[k as int]);
        let ghost before = lines_endpoints(ls.take(k as int));
        match line_endpoint_of(output, lo, hi) {
            Some(ep) => {
                assert(lines_endpoints(ls.take(k + 1)) == before.push(ep@));
                assert(before.push(ep@).to_set() =~= before.to_set().insert(ep@)) by {
                    Seq::lemma_to_set_insert_commutes(before, ep@);
                    assert(before.push(ep@) =~= before + seq![ep@]);
                }
                if !contains_text(&out, &ep) {
                    proof {
                        lemma_push_fresh_no_dup(out@, ep);
                        lemma_text_set_push(out@, ep);
                    }
                    out.push(ep);
                }
                assert(text_set(out@) =~= lines_endpoints(ls.take(k + 1)).to_set());
            },
            None => {
                assert(lines_endpoints(ls.take(k + 1)) == before);
            },
        }
        k = k + 1;
    }
    assert(ls.take(k as int) =~= ls);
    out
}

} // verus!
