//! Byte-string helpers: separator splitting, concatenation and comparison.
use vstd::prelude::*;

verus! {

/// The pieces of `s` between occurrences of `sep`, as `str::split` yields
/// them: there is always at least one piece, and an empty `s` gives one
/// empty piece.
pub open spec fn split_on(s: Seq<u8>, sep: u8) -> Seq<Seq<u8>>
    decreases s.len(),
{
    if s.len() == 0 {
        seq![Seq::<u8>::empty()]
    } else {
        let init = split_on(s.drop_last(), sep);
        if s.last() == sep {
            init.push(Seq::<u8>::empty())
        } else {
            init.update(init.len() - 1, init.last().push(s.last()))
        }
    }
}

/// Byte views of a vector of byte vectors.
pub open spec fn views(v: Seq<Vec<u8>>) -> Seq<Seq<u8>> {
    v.map_values(|b: Vec<u8>| b@)
}

pub proof fn lemma_split_nonempty(s: Seq<u8>, sep: u8)
    ensures
        split_on(s, sep).len() >= 1,
    decreases s.len(),
{
    if s.len() > 0 {
        lemma_split_nonempty(s.drop_last(), sep);
    }
}

/// The first piece of a split is the prefix before the first separator; there
/// is a second piece exactly when a separator occurs.
pub proof fn lemma_split_head(s: Seq<u8>, sep: u8)
    ensures
        split_on(s, sep).len() >= 1,
        split_on(s, sep)[0].len() <= s.len(),
        split_on(s, sep)[0] == s.take(split_on(s, sep)[0].len() as int),
        forall|i: int| 0 <= i < split_on(s, sep)[0].len() ==> s[i] != sep,
        split_on(s, sep)[0].len() < s.len() ==> s[split_on(s, sep)[0].len() as int] == sep,
        split_on(s, sep)[0].len() < s.len() <==> split_on(s, sep).len() >= 2,
    decreases s.len(),
{
    if s.len() == 0 {
        assert(s.take(0) =~= Seq::<u8>::empty());
    } else {
        let d = s.drop_last();
        lemma_split_head(d, sep);
        let init = split_on(d, sep);
        let h = init[0];
        assert forall|i: int| 0 <= i < h.len() implies s[i] != sep by {
            assert(s[i] == d[i]);
        }
        if init.len() == 1 {
            if s.last() == sep {
                assert(split_on(s, sep)[0] == h);
                assert(h =~= s.take(h.len() as int));
            } else {
                assert(split_on(s, sep)[0] == h.push(s.last()));
                assert(h.push(s.last()) =~= s.take(s.len() as int));
            }
        } else {
            assert(split_on(s, sep)[0] == h);
            assert(h =~= s.take(h.len() as int));
        }
    }
}

/// The last piece is whatever follows the last separator.
pub proof fn lemma_split_last(x: Seq<u8>, sep: u8, b: Seq<u8>)
    requires
        forall|i: int| 0 <= i < b.len() ==> b[i] != sep,
    ensures
        split_on(x.push(sep) + b, sep).last() == b,
    decreases b.len(),
{
    lemma_split_nonempty(x, sep);
    if b.len() == 0 {
        assert(x.push(sep) + b =~= x.push(sep));
        assert((x.push(sep)).drop_last() =~= x);
    } else {
        let y = x.push(sep) + b;
        lemma_split_last(x, sep, b.drop_last());
        assert(y.drop_last() =~= x.push(sep) + b.drop_last());
        assert(y.last() == b.last());
        lemma_split_nonempty(y.drop_last(), sep);
        assert(b.drop_last().push(b.last()) =~= b);
    }
}

/// Splits `s` at every `sep`.
pub fn split_bytes(s: &[u8], sep: u8) -> (pieces: Vec<Vec<u8>>)
    ensures
        views(pieces@) == split_on(s@, sep),
{
    let mut pieces: Vec<Vec<u8>> = Vec::new();
    let mut cur: Vec<u8> = Vec::new();
    let mut i: usize = 0;
    assert(s@.take(0) =~= Seq::<u8>::empty());
    assert(views(pieces@).push(cur@) =~= split_on(s@.take(0), sep));
    while i < s.len()
        invariant
            i <= s@.len(),
            views(pieces@).push(cur@) == split_on(s@.take(i as int), sep),
        decreases s@.len() - i,
    {
        let b = s[i];
        proof {
            lemma_split_nonempty(s@.take(i as int), sep);
            assert(s@.take(i as int + 1).drop_last() =~= s@.take(i as int));
            assert(s@.take(i as int + 1).last() == b);
        }
        let ghost old_pieces = views(pieces@);
        let ghost old_cur = cur@;
        if b == sep {
            let done = cur;
            pieces.push(done);
            cur = Vec::new();
            assert(views(pieces@) =~= old_pieces.push(old_cur));
            assert(views(pieces@).push(cur@) =~= split_on(s@.take(i as int + 1), sep));
        } else {
            cur.push(b);
            assert(views(pieces@) =~= old_pieces);
            assert(views(pieces@).push(cur@) =~= split_on(s@.take(i as int + 1), sep));
        }
        i = i + 1;
    }
    assert(s@.take(s@.len() as int) =~= s@);
    let ghost before = views(pieces@);
    pieces.push(cur);
    assert(views(pieces@) =~= before.push(cur@));
    pieces
}

/// Appends `src` to `dst`.
pub fn append_bytes(dst: &mut Vec<u8>, src: &[u8])
    ensures
        final(dst)@ == old(dst)@ + src@,
{
    let mut i: usize = 0;
    while i < src.len()
        invariant
            i <= src@.len(),
            dst@ == old(dst)@ + src@.take(i as int),
        decreases src@.len() - i,
    {
        dst.push(src[i]);
        i = i + 1;
        assert(dst@ =~= old(dst)@ + src@.take(i as int));
    }
    assert(src@.take(src@.len() as int) =~= src@);
}

/// Copies a byte slice into a new vector.
pub fn copy_bytes(src: &[u8]) -> (out: Vec<u8>)
    ensures
        out@ == src@,
{
    let mut out: Vec<u8> = Vec::new();
    append_bytes(&mut out, src);
    assert(out@ =~= src@);
    out
}

/// Whether two byte strings are equal.
pub fn bytes_equal(a: &[u8], b: &[u8]) -> (eq: bool)
    ensures
        eq == (a@ == b@),
{
    if a.len() != b.len() {
        return false;
    }
    let mut i: usize = 0;
    while i < a.len()
        invariant
            i <= a@.len(),
            a@.len() == b@.len(),
            forall|j: int| 0 <= j < i ==> a@[j] == b@[j],
        decreases a@.len() - i,
    {
        if a[i] != b[i] {
            return false;
        }
        i = i + 1;
    }
    assert(a@ =~= b@);
    true
}

/// Whether `list` holds an entry equal to `item`.
pub fn contains_bytes(list: &Vec<Vec<u8>>, item: &[u8]) -> (found: bool)
    ensures
        found == views(list@).contains(item@),
{
    let mut i: usize = 0;
    while i < list.len()
        invariant
            i <= list@.len(),
            forall|j: int| 0 <= j < i ==> list@[j]@ != item@,
        decreases list@.len() - i,
    {
        if bytes_equal(list[i].as_slice(), item) {
            assert(views(list@)[i as int] == item@);
            return true;
        }
        i = i + 1;
    }
    proof {
        if views(list@).contains(item@) {
            let k = choose|k: int| 0 <= k < views(list@).len() && views(list@)[k] == item@;
            assert(list@[k]@ == item@);
        }
    }
    false
}

} // verus!
