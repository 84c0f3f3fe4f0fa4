//! Lists of byte keys as one byte key that ranks as the list does.

use crate::text::{bytes_lt, lemma_bytes_lt_irreflexive, lemma_bytes_lt_total};
use vstd::prelude::*;

verus! {

/// Each byte behind a one.
pub open spec fn spaced(b: Seq<u8>) -> Seq<u8>
    decreases b.len(),
{
    if b.len() == 0 {
        Seq::<u8>::empty()
    } else {
        spaced(b.drop_last()).push(1).push(b.last())
    }
}

/// The keys one after the other, each behind a one, spaced, and ended by a zero:
/// a key's end ranks below any byte that could follow, and the list's end below
/// any further key.
pub open spec fn ranked(v: Seq<Seq<u8>>) -> Seq<u8>
    decreases v.len(),
{
    if v.len() == 0 {
        Seq::<u8>::empty()
    } else {
        ranked(v.drop_last()) + seq![1u8] + spaced(v.last()).push(0)
    }
}

/// Lexicographic order on lists of keys: a proper prefix comes first.
pub open spec fn keys_lt(a: Seq<Seq<u8>>, b: Seq<Seq<u8>>) -> bool
    decreases a.len(),
{
    if b.len() == 0 {
        false
    } else if a.len() == 0 {
        true
    } else if a[0] != b[0] {
        bytes_lt(a[0], b[0])
    } else {
        keys_lt(a.drop_first(), b.drop_first())
    }
}

proof fn lemma_spaced_first(b: Seq<u8>)
    requires
        b.len() > 0,
    ensures
        spaced(b) == seq![1u8, b[0]] + spaced(b.drop_first()),
    decreases b.len(),
{
    if b.len() == 1 {
        assert(b.drop_last() == Seq::<u8>::empty());
        assert(b.drop_first() == Seq::<u8>::empty());
        assert(spaced(b.drop_last()) == Seq::<u8>::empty());
        assert(spaced(b) =~= seq![1u8, b[0]]);
    } else {
        lemma_spaced_first(b.drop_last());
        assert(b.drop_last().drop_first() == b.drop_first().drop_last());
        assert(spaced(b) =~= seq![1u8, b[0]] + spaced(b.drop_first()));
    }
}

proof fn lemma_ranked_first(v: Seq<Seq<u8>>)
    requires
        v.len() > 0,
    ensures
        ranked(v) == seq![1u8] + (spaced(v[0]).push(0) + ranked(v.drop_first())),
    decreases v.len(),
{
    if v.len() == 1 {
        assert(v.drop_last() == Seq::<Seq<u8>>::empty());
        assert(v.drop_first() == Seq::<Seq<u8>>::empty());
        assert(ranked(v) =~= seq![1u8] + (spaced(v[0]).push(0) + ranked(v.drop_first())));
    } else {
        lemma_ranked_first(v.drop_last());
        assert(v.drop_last().drop_first() == v.drop_first().drop_last());
        assert(ranked(v) =~= seq![1u8] + (spaced(v[0]).push(0) + ranked(v.drop_first())));
    }
}

/// The same first byte does not decide.
proof fn lemma_same_first(c: u8, x: Seq<u8>, y: Seq<u8>)
    ensures
        bytes_lt(seq![c] + x, seq![c] + y) == bytes_lt(x, y),
{
    assert((seq![c] + x).drop_first() =~= x);
    assert((seq![c] + y).drop_first() =~= y);
}

/// Spaced keys that end rank as the keys do; after equal ones what follows
/// decides.
proof fn lemma_ended_key(x: Seq<u8>, y: Seq<u8>, r: Seq<u8>, s: Seq<u8>)
    ensures
        bytes_lt(spaced(x).push(0) + r, spaced(y).push(0) + s) == (bytes_lt(x, y) || x == y && bytes_lt(r, s)),
    decreases x.len(),
{
    lemma_bytes_lt_irreflexive(x);
    if x.len() == 0 && y.len() == 0 {
        assert(x =~= y);
        assert(spaced(x).push(0) + r =~= seq![0u8] + r);
        assert(spaced(y).push(0) + s =~= seq![0u8] + s);
        lemma_same_first(0, r, s);
    } else if x.len() == 0 {
        lemma_spaced_first(y);
        assert((spaced(x).push(0) + r)[0] == 0);
        assert((spaced(y).push(0) + s)[0] == 1);
    } else if y.len() == 0 {
        lemma_spaced_first(x);
        assert((spaced(x).push(0) + r)[0] == 1);
        assert((spaced(y).push(0) + s)[0] == 0);
    } else {
        lemma_spaced_first(x);
        lemma_spaced_first(y);
        let tx = spaced(x.drop_first()).push(0) + r;
        let ty = spaced(y.drop_first()).push(0) + s;
        assert(spaced(x).push(0) + r =~= seq![1u8] + (seq![x[0]] + tx));
        assert(spaced(y).push(0) + s =~= seq![1u8] + (seq![y[0]] + ty));
        lemma_same_first(1, seq![x[0]] + tx, seq![y[0]] + ty);
        if x[0] == y[0] {
            lemma_same_first(x[0], tx, ty);
            lemma_ended_key(x.drop_first(), y.drop_first(), r, s);
            if x.drop_first() == y.drop_first() {
                assert(x =~= seq![x[0]] + x.drop_first());
                assert(y =~= seq![y[0]] + y.drop_first());
            }
        } else {
            assert((seq![x[0]] + tx)[0] == x[0]);
            assert((seq![y[0]] + ty)[0] == y[0]);
        }
    }
}

/// One list is the other, or comes before or behind it.
proof fn lemma_keys_total(a: Seq<Seq<u8>>, b: Seq<Seq<u8>>)
    ensures
        keys_lt(a, b) || keys_lt(b, a) || a == b,
        !keys_lt(a, a),
    decreases a.len(),
{
    if a.len() > 0 {
        lemma_keys_total(a.drop_first(), if b.len() > 0 {
            b.drop_first()
        } else {
            b
        });
        if b.len() > 0 {
            lemma_bytes_lt_total(a[0], b[0]);
            if a[0] == b[0] && a.drop_first() == b.drop_first() {
                assert(a =~= seq![a[0]] + a.drop_first());
                assert(b =~= seq![b[0]] + b.drop_first());
            }
        }
    } else if b.len() == 0 {
        assert(a =~= b);
    }
}

/// The bytes of two lists rank as the lists do, and are the same only for the
/// same list.
pub proof fn law_ranked(a: Seq<Seq<u8>>, b: Seq<Seq<u8>>)
    ensures
        bytes_lt(ranked(a), ranked(b)) == keys_lt(a, b),
        ranked(a) == ranked(b) <==> a == b,
{
    lemma_ranked(a, b);
    lemma_ranked(b, a);
    lemma_keys_total(a, b);
    lemma_bytes_lt_irreflexive(ranked(a));
}

proof fn lemma_ranked(a: Seq<Seq<u8>>, b: Seq<Seq<u8>>)
    ensures
        bytes_lt(ranked(a), ranked(b)) == keys_lt(a, b),
    decreases a.len(),
{
    if b.len() > 0 {
        lemma_ranked_first(b);
    }
    if a.len() > 0 {
        lemma_ranked_first(a);
    }
    if a.len() > 0 && b.len() > 0 {
        let x = spaced(a[0]).push(0) + ranked(a.drop_first());
        let y = spaced(b[0]).push(0) + ranked(b.drop_first());
        lemma_same_first(1, x, y);
        lemma_ended_key(a[0], b[0], ranked(a.drop_first()), ranked(b.drop_first()));
        lemma_ranked(a.drop_first(), b.drop_first());
        lemma_bytes_lt_irreflexive(a[0]);
    }
}

/// Where a zero ends the bytes of each list, the lists rank first, and after
/// equal lists what follows decides.
pub proof fn law_ranked_ended(a: Seq<Seq<u8>>, b: Seq<Seq<u8>>, r: Seq<u8>, s: Seq<u8>)
    ensures
        bytes_lt(ranked(a).push(0) + r, ranked(b).push(0) + s) == (keys_lt(a, b) || a == b && bytes_lt(r, s)),
    decreases a.len(),
{
    lemma_keys_total(a, a);
    let x = ranked(a).push(0) + r;
    let y = ranked(b).push(0) + s;
    if a.len() == 0 && b.len() == 0 {
        assert(a =~= b);
        assert(x =~= seq![0u8] + r);
        assert(y =~= seq![0u8] + s);
        lemma_same_first(0, r, s);
    } else if a.len() == 0 {
        lemma_ranked_first(b);
        assert(x[0] == 0 && y[0] == 1);
    } else if b.len() == 0 {
        lemma_ranked_first(a);
        assert(x[0] == 1 && y[0] == 0);
    } else {
        lemma_ranked_first(a);
        lemma_ranked_first(b);
        let ra = ranked(a.drop_first()).push(0) + r;
        let rb = ranked(b.drop_first()).push(0) + s;
        assert(x =~= seq![1u8] + (spaced(a[0]).push(0) + ra));
        assert(y =~= seq![1u8] + (spaced(b[0]).push(0) + rb));
        lemma_same_first(1, spaced(a[0]).push(0) + ra, spaced(b[0]).push(0) + rb);
        lemma_ended_key(a[0], b[0], ra, rb);
        law_ranked_ended(a.drop_first(), b.drop_first(), r, s);
        lemma_bytes_lt_irreflexive(a[0]);
        if a[0] == b[0] && a.drop_first() == b.drop_first() {
            assert(a =~= seq![a[0]] + a.drop_first());
            assert(b =~= seq![b[0]] + b.drop_first());
        }
    }
}

/// Adds one more key to the bytes of a list.
pub fn push_key(out: &mut Vec<u8>, key: &[u8])
    ensures
        final(out)@ == old(out)@ + seq![1u8] + spaced(key@).push(0),
{
    out.push(1);
    let ghost start = out@;
    let mut i: usize = 0;
    assert(out@ == start + spaced(key@.take(0)));
    while i < key.len()
        invariant
            i <= key.len(),
            out@ == start + spaced(key@.take(i as int)),
        decreases key.len() - i,
    {
        assert(key@.take(i + 1).drop_last() == key@.take(i as int));
        out.push(1);
        out.push(key[i]);
        assert(out@ == start + spaced(key@.take(i + 1)));
        i = i + 1;
    }
    assert(key@.take(i as int) == key@);
    out.push(0);
    assert(out@ == old(out)@ + seq![1u8] + spaced(key@).push(0));
}

} // verus!
