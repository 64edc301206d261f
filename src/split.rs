//! Splitting bytes into lines and lines into whitespace-separated fields.
//! Pieces are given as index ranges into the input.
use vstd::prelude::*;

verus! {

/// ASCII whitespace: space, tab, line feed, vertical tab, form feed, return.
pub open spec fn is_space(c: u8) -> bool {
    c == 32 || (9 <= c <= 13)
}

/// The fields of `b` where `cur` is the field being read when `b` begins.
pub open spec fn fields_acc(b: Seq<u8>, cur: Seq<u8>) -> Seq<Seq<u8>>
    decreases b.len(),
{
    if b.len() == 0 {
        if cur.len() > 0 {
            seq![cur]
        } else {
            seq![]
        }
    } else if is_space(b[0]) {
        (if cur.len() > 0 {
            seq![cur]
        } else {
            seq![]
        }) + fields_acc(b.drop_first(), seq![])
    } else {
        fields_acc(b.drop_first(), cur.push(b[0]))
    }
}

/// The maximal runs of non-whitespace bytes of `b`, in order.
pub open spec fn fields(b: Seq<u8>) -> Seq<Seq<u8>> {
    fields_acc(b, seq![])
}

/// The lines of `b` where `cur` is the line being read when `b` begins.
pub open spec fn lines_acc(b: Seq<u8>, cur: Seq<u8>) -> Seq<Seq<u8>>
    decreases b.len(),
{
    if b.len() == 0 {
        if cur.len() > 0 {
            seq![cur]
        } else {
            seq![]
        }
    } else if b[0] == 10 {
        seq![cur] + lines_acc(b.drop_first(), seq![])
    } else {
        lines_acc(b.drop_first(), cur.push(b[0]))
    }
}

/// The lines of `b`: separated by line feeds, with no empty line after a
/// final line feed.
pub open spec fn lines(b: Seq<u8>) -> Seq<Seq<u8>> {
    lines_acc(b, seq![])
}

/// The pieces of `b` that index ranges stand for.
pub open spec fn slices(b: Seq<u8>, r: Seq<(usize, usize)>) -> Seq<Seq<u8>> {
    r.map_values(|p: (usize, usize)| b.subrange(p.0 as int, p.1 as int))
}

pub open spec fn ranges_within(r: Seq<(usize, usize)>, lo: int, hi: int) -> bool {
    forall|k: int| 0 <= k < r.len() ==> lo <= (#[trigger] r[k]).0 <= r[k].1 <= hi
}

proof fn lemma_slices_push(b: Seq<u8>, r: Seq<(usize, usize)>, p: (usize, usize))
    ensures
        slices(b, r.push(p)) == slices(b, r).push(b.subrange(p.0 as int, p.1 as int)),
{
    assert(slices(b, r.push(p)) =~= slices(b, r).push(b.subrange(p.0 as int, p.1 as int)));
}

/// The fields of `b[lo..hi]`.
pub fn field_ranges(b: &[u8], lo: usize, hi: usize) -> (r: Vec<(usize, usize)>)
    requires
        lo <= hi <= b@.len(),
    ensures
        ranges_within(r@, lo as int, hi as int),
        slices(b@, r@) == fields(b@.subrange(lo as int, hi as int)),
{
    let ghost whole = b@.subrange(lo as int, hi as int);
    let mut r: Vec<(usize, usize)> = Vec::new();
    let mut start = lo;
    let mut i = lo;
    assert(slices(b@, r@) =~= Seq::<Seq<u8>>::empty());
    assert(b@.subrange(lo as int, lo as int) =~= Seq::<u8>::empty());
    while i < hi
        invariant
            lo <= start <= i <= hi <= b@.len(),
            whole == b@.subrange(lo as int, hi as int),
            ranges_within(r@, lo as int, hi as int),
            slices(b@, r@) + fields_acc(
                b@.subrange(i as int, hi as int),
                b@.subrange(start as int, i as int),
            ) == fields(whole),
        decreases hi - i,
    {
        let ghost rest = b@.subrange(i as int, hi as int);
        let ghost cur = b@.subrange(start as int, i as int);
        assert(rest.drop_first() =~= b@.subrange(i + 1, hi as int));
        assert(rest[0] == b[i as int]);
        if b[i] == 32 || (9 <= b[i] && b[i] <= 13) {
            if start < i {
                proof {
                    lemma_slices_push(b@, r@, (start, i));
                }
                r.push((start, i));
                assert(slices(b@, r@) + fields_acc(b@.subrange(i + 1, hi as int), seq![]) =~= 
                    slices(b@, r@).drop_last() + fields_acc(rest, cur));
            } else {
                assert(cur.len() == 0);
                assert(slices(b@, r@) + fields_acc(b@.subrange(i + 1, hi as int), seq![]) =~= 
                    slices(b@, r@) + fields_acc(rest, cur));
            }
            start = i + 1;
            assert(b@.subrange(start as int, start as int) =~= Seq::<u8>::empty());
        } else {
            assert(cur.push(b[i as int]) =~= b@.subrange(start as int, i + 1));
        }
        i = i + 1;
    }
    assert(b@.subrange(i as int, hi as int) =~= Seq::<u8>::empty());
    if start < hi {
        proof {
            lemma_slices_push(b@, r@, (start, hi));
        }
        r.push((start, hi));
        assert(slices(b@, r@) =~= slices(b@, r@).drop_last() + seq![b@.subrange(start as int, hi as int)]);
    } else {
        assert(slices(b@, r@) =~= slices(b@, r@) + Seq::<Seq<u8>>::empty());
    }
    r
}

/// The lines of `b`.
pub fn line_ranges(b: &[u8]) -> (r: Vec<(usize, usize)>)
    ensures
        ranges_within(r@, 0, b@.len() as int),
        slices(b@, r@) == lines(b@),
{
    let mut r: Vec<(usize, usize)> = Vec::new();
    let mut start: usize = 0;
    let mut i: usize = 0;
    let n = b.len();
    assert(b@.subrange(0, n as int) =~= b@);
    assert(slices(b@, r@) =~= Seq::<Seq<u8>>::empty());
    assert(b@.subrange(0, 0) =~= Seq::<u8>::empty());
    while i < n
        invariant
            start <= i <= n == b@.len(),
            ranges_within(r@, 0, n as int),
            slices(b@, r@) + lines_acc(
                b@.subrange(i as int, n as int),
                b@.subrange(start as int, i as int),
            ) == lines(b@),
        decreases n - i,
    {
        let ghost rest = b@.subrange(i as int, n as int);
        let ghost cur = b@.subrange(start as int, i as int);
        assert(rest.drop_first() =~= b@.subrange(i + 1, n as int));
        assert(rest[0] == b[i as int]);
        if b[i] == 10 {
            proof {
                lemma_slices_push(b@, r@, (start, i));
            }
            r.push((start, i));
            assert(slices(b@, r@) + lines_acc(b@.subrange(i + 1, n as int), seq![]) =~= 
                slices(b@, r@).drop_last() + lines_acc(rest, cur));
            start = i + 1;
            assert(b@.subrange(start as int, start as int) =~= Seq::<u8>::empty());
        } else {
            assert(cur.push(b[i as int]) =~= b@.subrange(start as int, i + 1));
        }
        i = i + 1;
    }
    assert(b@.subrange(i as int, n as int) =~= Seq::<u8>::empty());
    if start < n {
        proof {
            lemma_slices_push(b@, r@, (start, n));
        }
        r.push((start, n));
        assert(slices(b@, r@) =~= slices(b@, r@).drop_last() + seq![b@.subrange(start as int, n as int)]);
    } else {
        assert(slices(b@, r@) =~= slices(b@, r@) + Seq::<Seq<u8>>::empty());
    }
    r
}

} // verus!
