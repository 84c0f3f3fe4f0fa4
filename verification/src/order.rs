//! Stable sorting by byte keys, and sorted sets of strings.

use crate::text::{
    bytes_before, bytes_lt, lemma_bytes_lt_irreflexive, lemma_bytes_lt_total,
    lemma_bytes_lt_transitive, lemma_utf8_injective, str_eq, str_lt, strs, utf8,
};
use vstd::prelude::*;

verus! {

/// Position `i` comes before position `j`: by key, and among equal keys by
/// position.
pub open spec fn comes_first(keys: Seq<Seq<u8>>, i: int, j: int) -> bool {
    bytes_lt(keys[i], keys[j]) || (keys[i] == keys[j] && i < j)
}

/// `p` lists every position of `keys` once, in stable sorted order.
pub open spec fn is_order(keys: Seq<Seq<u8>>, p: Seq<int>) -> bool {
    &&& p.len() == keys.len()
    &&& forall|a: int| 0 <= a < p.len() ==> 0 <= #[trigger] p[a] < keys.len()
    &&& forall|a: int, b: int| 0 <= a < b < p.len() ==> comes_first(keys, #[trigger] p[a], #[trigger] p[b])
}

/// The stable sorted order of the positions of `keys`.
pub open spec fn sort_order(keys: Seq<Seq<u8>>) -> Seq<int> {
    choose|p: Seq<int>| is_order(keys, p)
}

/// `s` rearranged into the order of `keys`.
pub open spec fn arranged<A>(s: Seq<A>, keys: Seq<Seq<u8>>) -> Seq<A> {
    sort_order(keys).map_values(|i: int| s[i])
}

proof fn lemma_comes_first_strict(keys: Seq<Seq<u8>>, i: int, j: int)
    requires
        comes_first(keys, i, j),
    ensures
        i != j,
        !comes_first(keys, j, i),
{
    lemma_bytes_lt_irreflexive(keys[i]);
    if bytes_lt(keys[i], keys[j]) && bytes_lt(keys[j], keys[i]) {
        lemma_bytes_lt_transitive(keys[i], keys[j], keys[i]);
    }
}

proof fn lemma_comes_first_transitive(keys: Seq<Seq<u8>>, i: int, j: int, k: int)
    requires
        comes_first(keys, i, j),
        comes_first(keys, j, k),
    ensures
        comes_first(keys, i, k),
{
    if bytes_lt(keys[i], keys[j]) && bytes_lt(keys[j], keys[k]) {
        lemma_bytes_lt_transitive(keys[i], keys[j], keys[k]);
    }
}

/// An order lists each position: none is missing.
pub proof fn lemma_order_covers(keys: Seq<Seq<u8>>, p: Seq<int>)
    requires
        is_order(keys, p),
    ensures
        p.no_duplicates(),
        forall|i: int| 0 <= i < keys.len() ==> #[trigger] p.contains(i),
{
    assert forall|a: int, b: int| 0 <= a < p.len() && 0 <= b < p.len() && a != b implies p[a]
        != p[b] by {
        if a < b {
            lemma_comes_first_strict(keys, p[a], p[b]);
        } else {
            lemma_comes_first_strict(keys, p[b], p[a]);
        }
    }
    p.unique_seq_to_set();
    let n = keys.len() as int;
    let all = vstd::set_lib::set_int_range(0, n);
    vstd::set_lib::lemma_int_range(0, n);
    assert(p.to_set().subset_of(all)) by {
        assert forall|x: int| p.to_set().contains(x) implies all.contains(x) by {
            let a = choose|a: int| 0 <= a < p.len() && p[a] == x;
            assert(0 <= p[a] < keys.len());
        }
    }
    vstd::set_lib::lemma_subset_equality(p.to_set(), all);
    assert forall|i: int| 0 <= i < keys.len() implies #[trigger] p.contains(i) by {
        assert(all.contains(i));
        assert(p.to_set().contains(i));
    }
}

/// There is only one stable sorted order.
pub proof fn lemma_order_unique(keys: Seq<Seq<u8>>, p: Seq<int>, q: Seq<int>)
    requires
        is_order(keys, p),
        is_order(keys, q),
    ensures
        p == q,
{
    lemma_order_covers(keys, p);
    lemma_order_covers(keys, q);
    lemma_order_unique_upto(keys, p, q, p.len() as int);
    assert(p == q);
}

proof fn lemma_order_unique_upto(keys: Seq<Seq<u8>>, p: Seq<int>, q: Seq<int>, n: int)
    requires
        is_order(keys, p),
        is_order(keys, q),
        p.no_duplicates(),
        q.no_duplicates(),
        forall|i: int| 0 <= i < keys.len() ==> #[trigger] p.contains(i),
        forall|i: int| 0 <= i < keys.len() ==> #[trigger] q.contains(i),
        0 <= n <= p.len(),
    ensures
        forall|a: int| 0 <= a < n ==> p[a] == q[a],
    decreases n,
{
    if n > 0 {
        lemma_order_unique_upto(keys, p, q, n - 1);
        let m = n - 1;
        if p[m] != q[m] {
            assert(q.contains(p[m]));
            let b = choose|b: int| 0 <= b < q.len() && q[b] == p[m];
            assert(p.contains(q[m]));
            let a = choose|a: int| 0 <= a < p.len() && p[a] == q[m];
            if b < m {
                assert(p[b] == q[b]);
            }
            if a < m {
                assert(p[a] == q[a]);
            }
            assert(comes_first(keys, q[m], q[b]));
            assert(comes_first(keys, p[m], p[a]));
            lemma_comes_first_strict(keys, q[m], q[b]);
        }
    }
}

/// An order that was found is the one that `sort_order` names.
pub proof fn lemma_sort_order(keys: Seq<Seq<u8>>, p: Seq<int>)
    requires
        is_order(keys, p),
    ensures
        sort_order(keys) == p,
        is_order(keys, sort_order(keys)),
{
    lemma_order_unique(keys, p, sort_order(keys));
}

/// Every list of keys has a stable sorted order.
pub proof fn lemma_order_exists(keys: Seq<Seq<u8>>)
    ensures
        is_order(keys, sort_order(keys)),
    decreases keys.len(),
{
    let p = order_witness(keys, keys.len() as int);
    lemma_order_witness(keys, keys.len() as int);
    assert(is_order(keys.take(keys.len() as int), p));
    assert(keys.take(keys.len() as int) == keys);
}

/// The number of leading entries of `p` whose key does not exceed `k`.
spec fn insert_at(keys: Seq<Seq<u8>>, p: Seq<int>, k: Seq<u8>) -> int
    decreases p.len(),
{
    if p.len() == 0 {
        0
    } else if bytes_lt(k, keys[p.last()]) {
        insert_at(keys, p.drop_last(), k)
    } else {
        p.len() as int
    }
}

spec fn order_witness(keys: Seq<Seq<u8>>, n: int) -> Seq<int>
    decreases n,
{
    if n <= 0 {
        Seq::<int>::empty()
    } else {
        let p = order_witness(keys, n - 1);
        p.insert(insert_at(keys, p, keys[n - 1]), n - 1)
    }
}

proof fn lemma_insert_at(keys: Seq<Seq<u8>>, p: Seq<int>, k: Seq<u8>)
    requires
        forall|a: int, b: int| 0 <= a < b < p.len() ==> comes_first(keys, #[trigger] p[a], #[trigger] p[b]),
    ensures
        0 <= insert_at(keys, p, k) <= p.len(),
        forall|a: int| 0 <= a < insert_at(keys, p, k) ==> !bytes_lt(k, keys[#[trigger] p[a]]),
        forall|a: int| insert_at(keys, p, k) <= a < p.len() ==> bytes_lt(k, keys[#[trigger] p[a]]),
    decreases p.len(),
{
    if p.len() > 0 {
        if bytes_lt(k, keys[p.last()]) {
            lemma_insert_at(keys, p.drop_last(), k);
            assert forall|a: int| insert_at(keys, p, k) <= a < p.len() implies bytes_lt(
                k,
                keys[#[trigger] p[a]],
            ) by {
                if a < p.len() - 1 {
                    assert(p.drop_last()[a] == p[a]);
                }
            }
            assert forall|a: int| 0 <= a < insert_at(keys, p, k) implies !bytes_lt(
                k,
                keys[#[trigger] p[a]],
            ) by {
                assert(p.drop_last()[a] == p[a]);
            }
        } else {
            assert forall|a: int| 0 <= a < p.len() implies !bytes_lt(k, keys[#[trigger] p[a]]) by {
                if a < p.len() - 1 && bytes_lt(k, keys[p[a]]) {
                    assert(comes_first(keys, p[a], p[p.len() - 1]));
                    if bytes_lt(keys[p[a]], keys[p.last()]) {
                        lemma_bytes_lt_transitive(k, keys[p[a]], keys[p.last()]);
                    }
                }
            }
        }
    }
}

proof fn lemma_order_witness(keys: Seq<Seq<u8>>, n: int)
    requires
        0 <= n <= keys.len(),
    ensures
        is_order(keys.take(n), order_witness(keys, n)),
    decreases n,
{
    if n > 0 {
        lemma_order_witness(keys, n - 1);
        let p = order_witness(keys, n - 1);
        let k = keys[n - 1];
        assert forall|a: int, b: int| 0 <= a < b < p.len() implies comes_first(
            keys,
            #[trigger] p[a],
            #[trigger] p[b],
        ) by {
            assert(comes_first(keys.take(n - 1), p[a], p[b]));
        }
        lemma_insert_at(keys, p, k);
        let at = insert_at(keys, p, k);
        let q = p.insert(at, n - 1);
        assert forall|a: int, b: int| 0 <= a < b < q.len() implies comes_first(
            keys.take(n),
            #[trigger] q[a],
            #[trigger] q[b],
        ) by {
            if a < at && b < at {
                assert(comes_first(keys, p[a], p[b]));
            } else if a < at && b > at {
                assert(comes_first(keys, p[a], p[b - 1]));
            } else if a > at && b > at {
                assert(comes_first(keys, p[a - 1], p[b - 1]));
            } else if b == at {
                lemma_bytes_lt_total(k, keys[p[a]]);
                assert(0 <= p[a] < n - 1);
            } else {
                assert(bytes_lt(k, keys[p[b - 1]]));
            }
        }
        assert forall|a: int| 0 <= a < q.len() implies 0 <= #[trigger] q[a] < n by {
            if a < at {
                assert(q[a] == p[a]);
            } else if a > at {
                assert(q[a] == p[a - 1]);
            }
        }
    }
}

/// The byte keys of a list.
pub open spec fn key_views(keys: Seq<Vec<u8>>) -> Seq<Seq<u8>> {
    keys.map_values(|k: Vec<u8>| k@)
}

/// Positions as mathematical integers.
pub open spec fn positions(p: Seq<usize>) -> Seq<int> {
    p.map_values(|i: usize| i as int)
}

/// A run of distinct positions in ascending order of their keys.
spec fn is_run(keys: Seq<Seq<u8>>, p: Seq<int>) -> bool {
    &&& forall|a: int| 0 <= a < p.len() ==> 0 <= #[trigger] p[a] < keys.len()
    &&& forall|a: int, b: int| 0 <= a < b < p.len() ==> comes_first(keys, #[trigger] p[a], #[trigger] p[b])
}

/// Sorts the positions `from..to` by key.
fn sort_range(keys: &Vec<Vec<u8>>, from: usize, to: usize) -> (p: Vec<usize>)
    requires
        from <= to <= keys.len(),
    ensures
        p.len() == to - from,
        is_run(key_views(keys@), positions(p@)),
        forall|a: int| 0 <= a < p.len() ==> from <= #[trigger] p@[a] < to,
    decreases to - from,
{
    let mut out: Vec<usize> = Vec::new();
    if to - from <= 1 {
        if from < to {
            out.push(from);
        }
        return out;
    }
    let mid: usize = from + (to - from) / 2;
    let left = sort_range(keys, from, mid);
    let right = sort_range(keys, mid, to);
    let ghost kv = key_views(keys@);
    let mut i: usize = 0;
    let mut j: usize = 0;
    while i < left.len() || j < right.len()
        invariant
            from <= mid <= to <= keys.len(),
            kv == key_views(keys@),
            i <= left.len(),
            j <= right.len(),
            left.len() == mid - from,
            right.len() == to - mid,
            is_run(kv, positions(left@)),
            is_run(kv, positions(right@)),
            forall|a: int| 0 <= a < left.len() ==> from <= #[trigger] left@[a] < mid,
            forall|a: int| 0 <= a < right.len() ==> mid <= #[trigger] right@[a] < to,
            out.len() == i + j,
            is_run(kv, positions(out@)),
            forall|a: int| 0 <= a < out.len() ==> from <= #[trigger] out@[a] < to,
            forall|a: int, b: int| 0 <= a < out.len() && i <= b < left.len() ==> comes_first(kv, #[trigger] out@[a] as int, #[trigger] left@[b] as int),
            forall|a: int, b: int| 0 <= a < out.len() && j <= b < right.len() ==> comes_first(kv, #[trigger] out@[a] as int, #[trigger] right@[b] as int),
        decreases left.len() - i + right.len() - j,
    {
        let take_right: bool = if i == left.len() {
            true
        } else if j == right.len() {
            false
        } else {
            bytes_before(keys[right[j]].as_slice(), keys[left[i]].as_slice())
        };
        let ghost before = out@;
        let x: usize = if take_right {
            right[j]
        } else {
            left[i]
        };
        proof {
            let lp = positions(left@);
            let rp = positions(right@);
            if i < left.len() && j < right.len() {
                assert(kv[left@[i as int] as int] == keys@[left@[i as int] as int]@);
                assert(kv[right@[j as int] as int] == keys@[right@[j as int] as int]@);
                lemma_bytes_lt_total(kv[left@[i as int] as int], kv[right@[j as int] as int]);
                if take_right {
                    assert(comes_first(kv, right@[j as int] as int, left@[i as int] as int));
                } else {
                    assert(comes_first(kv, left@[i as int] as int, right@[j as int] as int));
                }
            }
            assert forall|b: int| (if take_right { i as int } else { i + 1 }) <= b < left.len() implies comes_first(
                kv,
                x as int,
                #[trigger] left@[b] as int,
            ) by {
                if i < b {
                    assert(comes_first(kv, lp[i as int], lp[b]));
                }
                if take_right && b > i {
                    lemma_comes_first_transitive(kv, x as int, lp[i as int], lp[b]);
                }
            }
            assert forall|b: int| (if take_right { j + 1 } else { j as int }) <= b < right.len() implies comes_first(
                kv,
                x as int,
                #[trigger] right@[b] as int,
            ) by {
                if j < b {
                    assert(comes_first(kv, rp[j as int], rp[b]));
                }
                if !take_right && b > j {
                    lemma_comes_first_transitive(kv, x as int, rp[j as int], rp[b]);
                }
            }
            assert forall|a: int| 0 <= a < before.len() implies comes_first(kv, #[trigger] before[a] as int, x as int) by {}
        }
        out.push(x);
        if take_right {
            j = j + 1;
        } else {
            i = i + 1;
        }
        proof {
            let op = positions(out@);
            assert forall|a: int, b: int| 0 <= a < b < op.len() implies comes_first(
                kv,
                #[trigger] op[a],
                #[trigger] op[b],
            ) by {
                if b == op.len() - 1 {
                    assert(op[a] == before[a] as int);
                } else {
                    assert(positions(before)[a] == op[a]);
                    assert(positions(before)[b] == op[b]);
                }
            }
            assert forall|a: int| 0 <= a < out@.len() implies from <= #[trigger] out@[a] < to by {
                if a < before.len() {
                    assert(out@[a] == before[a]);
                }
            }
        }
    }
    out
}

/// The stable sorted order of `keys`.
pub fn sorted_order(keys: &Vec<Vec<u8>>) -> (p: Vec<usize>)
    ensures
        positions(p@) == sort_order(key_views(keys@)),
        is_order(key_views(keys@), positions(p@)),
{
    let p = sort_range(keys, 0, keys.len());
    proof {
        lemma_sort_order(key_views(keys@), positions(p@));
    }
    p
}

/// The encodings of a list of strings.
pub open spec fn encoded(v: Seq<Seq<char>>) -> Seq<Seq<u8>> {
    v.map_values(|s: Seq<char>| utf8(s))
}

/// The strings of `v` in ascending order, repetitions kept.
pub open spec fn sorted_strs(v: Seq<Seq<char>>) -> Seq<Seq<char>> {
    arranged(v, encoded(v))
}

/// Strictly ascending: sorted, and no string twice.
pub open spec fn ascending(v: Seq<Seq<char>>) -> bool {
    forall|i: int, j: int| 0 <= i < j < v.len() ==> str_lt(#[trigger] v[i], #[trigger] v[j])
}

/// The bytes of each string.
pub fn keys_of(v: &Vec<String>) -> (keys: Vec<Vec<u8>>)
    ensures
        key_views(keys@) == encoded(strs(v@)),
{
    let mut keys: Vec<Vec<u8>> = Vec::new();
    let mut i: usize = 0;
    while i < v.len()
        invariant
            i <= v.len(),
            keys.len() == i,
            forall|k: int| 0 <= k < i ==> (#[trigger] keys@[k])@ == utf8(v@[k]@),
        decreases v.len() - i,
    {
        keys.push(vstd::slice::slice_to_vec(v[i].as_str().as_bytes()));
        i = i + 1;
    }
    assert(key_views(keys@) == encoded(strs(v@)));
    keys
}

/// The strings of `v` in ascending order, repetitions kept.
pub fn sort_strings(v: &Vec<String>) -> (r: Vec<String>)
    ensures
        strs(r@) == sorted_strs(strs(v@)),
        forall|x: Seq<char>| strs(r@).contains(x) <==> strs(v@).contains(x),
        r.len() == v.len(),
        forall|i: int, j: int| 0 <= i < j < r.len() ==> !str_lt(#[trigger] strs(r@)[j], #[trigger] strs(r@)[i]),
{
    let keys = keys_of(v);
    let p = sorted_order(&keys);
    let ghost kv = key_views(keys@);
    let ghost pv = positions(p@);
    proof {
        assert forall|a: int| 0 <= a < p.len() implies 0 <= #[trigger] p@[a] < v.len() by {
            assert(0 <= pv[a] < kv.len());
        }
    }
    let mut out: Vec<String> = Vec::new();
    let mut i: usize = 0;
    while i < p.len()
        invariant
            i <= p.len(),
            p.len() == v.len(),
            out.len() == i,
            forall|a: int| 0 <= a < p.len() ==> 0 <= #[trigger] p@[a] < v.len(),
            forall|a: int| 0 <= a < i ==> (#[trigger] out@[a])@ == v@[p@[a] as int]@,
        decreases p.len() - i,
    {
        out.push(v[p[i]].clone());
        i = i + 1;
    }
    assert(forall|a: int| 0 <= a < p.len() ==> pv[a] == p@[a]);
    assert(strs(out@) == arranged(strs(v@), encoded(strs(v@))));
    proof {
        lemma_order_covers(kv, pv);
        assert forall|x: Seq<char>| strs(out@).contains(x) <==> strs(v@).contains(x) by {
            if strs(out@).contains(x) {
                let a = choose|a: int| 0 <= a < out@.len() && strs(out@)[a] == x;
                assert(strs(v@)[pv[a]] == x);
            }
            if strs(v@).contains(x) {
                let b = choose|b: int| 0 <= b < v@.len() && strs(v@)[b] == x;
                assert(pv.contains(b));
                let a = choose|a: int| 0 <= a < pv.len() && pv[a] == b;
                assert(strs(out@)[a] == x);
            }
        }
        assert forall|i: int, j: int| 0 <= i < j < out@.len() implies !str_lt(
            #[trigger] strs(out@)[j],
            #[trigger] strs(out@)[i],
        ) by {
            assert(comes_first(kv, pv[i], pv[j]));
            assert(kv[pv[i]] == utf8(strs(out@)[i]));
            assert(kv[pv[j]] == utf8(strs(out@)[j]));
            lemma_comes_first_strict(kv, pv[i], pv[j]);
            lemma_bytes_lt_irreflexive(kv[pv[i]]);
        }
    }
    out
}

/// The strings of `v` in ascending order, each once.
pub fn sorted_set(v: &Vec<String>) -> (r: Vec<String>)
    ensures
        ascending(strs(r@)),
        forall|x: Seq<char>| strs(r@).contains(x) <==> strs(v@).contains(x),
{
    let s = sort_strings(v);
    let mut out: Vec<String> = Vec::new();
    let mut i: usize = 0;
    while i < s.len()
        invariant
            i <= s.len(),
            forall|a: int, b: int| 0 <= a < b < s.len() ==> !str_lt(#[trigger] strs(s@)[b], #[trigger] strs(s@)[a]),
            ascending(strs(out@)),
            forall|x: Seq<char>| #[trigger] strs(out@).contains(x) <==> strs(s@).take(i as int).contains(x),
            (i > 0) == (out.len() > 0),
            i > 0 ==> strs(out@).last() == strs(s@)[i - 1],
        decreases s.len() - i,
    {
        let fresh: bool = out.len() == 0 || !str_eq(out[out.len() - 1].as_str(), s[i].as_str());
        let ghost before = strs(out@);
        let ghost upto = strs(s@).take(i as int);
        assert(strs(s@).take(i + 1) == upto.push(strs(s@)[i as int]));
        if fresh {
            proof {
                if before.len() > 0 {
                    let l = before.last();
                    let x = strs(s@)[i as int];
                    assert(!str_lt(x, strs(s@)[i - 1]));
                    lemma_bytes_lt_total(utf8(l), utf8(x));
                    if utf8(l) == utf8(x) {
                        lemma_utf8_injective(l, x);
                    }
                    assert(str_lt(l, x));
                    assert forall|a: int| 0 <= a < before.len() implies str_lt(
                        #[trigger] before[a],
                        x,
                    ) by {
                        if a < before.len() - 1 {
                            lemma_bytes_lt_transitive(utf8(before[a]), utf8(l), utf8(x));
                        }
                    }
                }
            }
            out.push(s[i].clone());
            assert(strs(out@) == before.push(strs(s@)[i as int]));
        }
        proof {
            let x0 = strs(s@)[i as int];
            assert forall|x: Seq<char>| #[trigger] strs(out@).contains(x) <==> strs(s@).take(i + 1).contains(x) by {
                lemma_push_contains(upto, x0, x);
                if fresh {
                    lemma_push_contains(before, x0, x);
                } else {
                    assert(before[before.len() - 1] == x0);
                    assert(before.contains(x0));
                }
                assert(before.contains(x) <==> upto.contains(x));
            }
        }
        i = i + 1;
    }
    assert(strs(s@).take(i as int) == strs(s@));
    out
}

/// What a sequence contains after a push.
pub proof fn lemma_push_contains<A>(s: Seq<A>, a: A, x: A)
    ensures
        s.push(a).contains(x) <==> s.contains(x) || x == a,
{
    if s.push(a).contains(x) {
        let i = choose|i: int| 0 <= i < s.push(a).len() && s.push(a)[i] == x;
        if i < s.len() {
            assert(s[i] == x);
        }
    }
    if s.contains(x) {
        let i = choose|i: int| 0 <= i < s.len() && s[i] == x;
        assert(s.push(a)[i] == x);
    }
    if x == a {
        assert(s.push(a)[s.len() as int] == x);
    }
}

/// A set of strings has one ascending listing: two ascending lists with the
/// same members are equal.
pub proof fn lemma_ascending_unique(a: Seq<Seq<char>>, b: Seq<Seq<char>>)
    requires
        ascending(a),
        ascending(b),
        forall|x: Seq<char>| a.contains(x) <==> b.contains(x),
    ensures
        a == b,
{
    lemma_ascending_len(a, b);
    lemma_ascending_len(b, a);
    lemma_ascending_upto(a, b, a.len() as int);
}

proof fn lemma_ascending_distinct(a: Seq<Seq<char>>)
    requires
        ascending(a),
    ensures
        a.no_duplicates(),
{
    assert forall|i: int, j: int| 0 <= i < a.len() && 0 <= j < a.len() && i != j implies a[i]
        != a[j] by {
        lemma_bytes_lt_irreflexive(utf8(a[i]));
        if i < j {
            assert(str_lt(a[i], a[j]));
        } else {
            assert(str_lt(a[j], a[i]));
        }
    }
}

proof fn lemma_ascending_len(a: Seq<Seq<char>>, b: Seq<Seq<char>>)
    requires
        ascending(a),
        ascending(b),
        forall|x: Seq<char>| a.contains(x) <==> b.contains(x),
    ensures
        a.len() <= b.len(),
{
    lemma_ascending_distinct(a);
    lemma_ascending_distinct(b);
    a.unique_seq_to_set();
    b.unique_seq_to_set();
    assert(a.to_set() == b.to_set());
}

proof fn lemma_ascending_upto(a: Seq<Seq<char>>, b: Seq<Seq<char>>, n: int)
    requires
        ascending(a),
        ascending(b),
        a.len() == b.len(),
        forall|x: Seq<char>| a.contains(x) <==> b.contains(x),
        0 <= n <= a.len(),
    ensures
        forall|i: int| 0 <= i < n ==> a[i] == b[i],
    decreases n,
{
    if n > 0 {
        lemma_ascending_upto(a, b, n - 1);
        lemma_ascending_distinct(a);
        lemma_ascending_distinct(b);
        let m = n - 1;
        if a[m] != b[m] {
            assert(a.contains(a[m]));
            assert(b.contains(b[m]));
            let i = choose|i: int| 0 <= i < b.len() && b[i] == a[m];
            let j = choose|j: int| 0 <= j < a.len() && a[j] == b[m];
            if i < m {
                assert(a[i] == b[i]);
            }
            if j < m {
                assert(a[j] == b[j]);
            }
            assert(str_lt(b[m], b[i]));
            assert(str_lt(a[m], a[j]));
            lemma_bytes_lt_transitive(utf8(a[m]), utf8(b[m]), utf8(a[m]));
            lemma_bytes_lt_irreflexive(utf8(a[m]));
        }
    }
}

/// The names of a list of named values.
pub open spec fn names_of<V>(v: Seq<(Seq<char>, V)>) -> Seq<Seq<char>> {
    v.map_values(|p: (Seq<char>, V)| p.0)
}

/// Named values in ascending order of their names.
pub open spec fn sorted_pairs<V>(v: Seq<(Seq<char>, V)>) -> Seq<(Seq<char>, V)> {
    arranged(v, encoded(names_of(v)))
}

/// Sorting keeps the members.
pub proof fn lemma_arranged_members<A>(s: Seq<A>, keys: Seq<Seq<u8>>, x: A)
    requires
        s.len() == keys.len(),
    ensures
        arranged(s, keys).contains(x) <==> s.contains(x),
        arranged(s, keys).len() == s.len(),
{
    lemma_order_exists(keys);
    let p = sort_order(keys);
    lemma_order_covers(keys, p);
    let t = arranged(s, keys);
    if t.contains(x) {
        let a = choose|a: int| 0 <= a < t.len() && t[a] == x;
        assert(s[p[a]] == x);
    }
    if s.contains(x) {
        let b = choose|b: int| 0 <= b < s.len() && s[b] == x;
        assert(p.contains(b));
        let a = choose|a: int| 0 <= a < p.len() && p[a] == b;
        assert(t[a] == x);
    }
}

/// Named values without a name twice sort into ascending names, and none is lost
/// or added.
pub proof fn lemma_sorted_pairs_ascending<V>(v: Seq<(Seq<char>, V)>)
    requires
        names_of(v).no_duplicates(),
    ensures
        ascending(names_of(sorted_pairs(v))),
        forall|x: (Seq<char>, V)| sorted_pairs(v).contains(x) <==> v.contains(x),
{
    let keys = encoded(names_of(v));
    lemma_order_exists(keys);
    let p = sort_order(keys);
    lemma_order_covers(keys, p);
    let t = sorted_pairs(v);
    let nt = names_of(t);
    assert forall|i: int, j: int| 0 <= i < j < nt.len() implies str_lt(#[trigger] nt[i], #[trigger] nt[j]) by {
        assert(comes_first(keys, p[i], p[j]));
        assert(keys[p[i]] == utf8(names_of(v)[p[i]]));
        assert(keys[p[j]] == utf8(names_of(v)[p[j]]));
        assert(nt[i] == names_of(v)[p[i]] && nt[j] == names_of(v)[p[j]]);
        if keys[p[i]] == keys[p[j]] {
            lemma_utf8_injective(nt[i], nt[j]);
            assert(names_of(v)[p[i]] == names_of(v)[p[j]]);
            assert(p[i] == p[j]);
        }
    }
    assert forall|x: (Seq<char>, V)| sorted_pairs(v).contains(x) <==> v.contains(x) by {
        lemma_arranged_members(v, keys, x);
    }
}

/// Named values without a name twice sort into the same list, however they
/// were listed.
pub proof fn lemma_sorted_pairs_unique<V>(a: Seq<(Seq<char>, V)>, b: Seq<(Seq<char>, V)>)
    requires
        names_of(a).no_duplicates(),
        names_of(b).no_duplicates(),
        forall|x: (Seq<char>, V)| a.contains(x) <==> b.contains(x),
    ensures
        sorted_pairs(a) == sorted_pairs(b),
{
    let ta = sorted_pairs(a);
    let tb = sorted_pairs(b);
    lemma_sorted_pairs_ascending(a);
    lemma_sorted_pairs_ascending(b);
    assert forall|n: Seq<char>| names_of(ta).contains(n) <==> names_of(tb).contains(n) by {
        if names_of(ta).contains(n) {
            let i = choose|i: int| 0 <= i < ta.len() && names_of(ta)[i] == n;
            assert(ta.contains(ta[i]));
            assert(a.contains(ta[i]) && b.contains(ta[i]));
            assert(tb.contains(ta[i]));
            let j = choose|j: int| 0 <= j < tb.len() && tb[j] == ta[i];
            assert(names_of(tb)[j] == n);
        }
        if names_of(tb).contains(n) {
            let i = choose|i: int| 0 <= i < tb.len() && names_of(tb)[i] == n;
            assert(tb.contains(tb[i]));
            assert(b.contains(tb[i]) && a.contains(tb[i]));
            assert(ta.contains(tb[i]));
            let j = choose|j: int| 0 <= j < ta.len() && ta[j] == tb[i];
            assert(names_of(ta)[j] == n);
        }
    }
    lemma_ascending_unique(names_of(ta), names_of(tb));
    lemma_ascending_distinct(names_of(tb));
    assert(ta.len() == names_of(ta).len());
    assert forall|i: int| 0 <= i < ta.len() implies ta[i] == tb[i] by {
        assert(ta.contains(ta[i]));
        assert(a.contains(ta[i]) && b.contains(ta[i]));
        assert(tb.contains(ta[i]));
        let j = choose|j: int| 0 <= j < tb.len() && tb[j] == ta[i];
        assert(names_of(tb)[j] == names_of(ta)[i]);
        assert(names_of(tb)[i] == names_of(ta)[i]);
        assert(i == j);
    }
    assert(ta == tb);
}

/// Byte strings in ascending order, repetitions kept.
pub open spec fn sorted_bytes(v: Seq<Seq<u8>>) -> Seq<Seq<u8>> {
    arranged(v, v)
}

/// A rearrangement has the same members, as often.
proof fn lemma_rearranged_multiset<A>(s: Seq<A>, p: Seq<int>)
    requires
        p.len() == s.len(),
        p.no_duplicates(),
        forall|a: int| 0 <= a < p.len() ==> 0 <= #[trigger] p[a] < s.len(),
    ensures
        p.map_values(|i: int| s[i]).to_multiset() == s.to_multiset(),
    decreases s.len(),
{
    broadcast use vstd::seq_lib::group_to_multiset_ensures;
    let t = p.map_values(|i: int| s[i]);
    if s.len() == 0 {
        assert(t == s);
    } else {
        let h = p[0];
        let s2 = s.remove(h);
        let q = p.drop_first().map_values(|i: int| if i > h { i - 1 } else { i });
        assert forall|a: int| 0 <= a < q.len() implies 0 <= #[trigger] q[a] < s2.len() by {
            assert(p[a + 1] != p[0]);
            assert(0 <= p[a + 1] < s.len());
        }
        assert forall|a: int, b: int| 0 <= a < q.len() && 0 <= b < q.len() && a != b implies q[a] != q[b] by {
            assert(p[a + 1] != p[b + 1]);
            assert(p[a + 1] != p[0] && p[b + 1] != p[0]);
        }
        lemma_rearranged_multiset(s2, q);
        let t2 = q.map_values(|i: int| s2[i]);
        assert forall|a: int| 0 <= a < t2.len() implies t2[a] == t[a + 1] by {
            assert(p[a + 1] != p[0]);
            assert(0 <= p[a + 1] < s.len());
        }
        assert(t == seq![s[h]] + t2);
        assert(t.remove(0) == t2);
        vstd::seq_lib::to_multiset_remove(t, 0);
        vstd::seq_lib::to_multiset_remove(s, h);
        assert(t.to_multiset().contains(t[0]));
        assert(s.to_multiset().contains(s[h])) by {
            assert(s.contains(s[h]));
        }
        assert(t.to_multiset() =~= t2.to_multiset().insert(s[h]));
        assert(s.to_multiset() =~= s2.to_multiset().insert(s[h]));
    }
}

/// Lists with the same members, each as often, sort into the same list.
pub proof fn lemma_sorted_bytes_unique(a: Seq<Seq<u8>>, b: Seq<Seq<u8>>)
    requires
        a.to_multiset() == b.to_multiset(),
    ensures
        sorted_bytes(a) == sorted_bytes(b),
{
    lemma_sorted_bytes_properties(a);
    lemma_sorted_bytes_properties(b);
    let leq = |x: Seq<u8>, y: Seq<u8>| !bytes_lt(y, x);
    assert(vstd::relations::total_ordering(leq)) by {
        assert forall|x: Seq<u8>| #[trigger] leq(x, x) by {
            lemma_bytes_lt_irreflexive(x);
        }
        assert forall|x: Seq<u8>, y: Seq<u8>| #[trigger] leq(x, y) && #[trigger] leq(y, x) implies x == y by {
            lemma_bytes_lt_total(x, y);
        }
        assert forall|x: Seq<u8>, y: Seq<u8>, z: Seq<u8>| #[trigger] leq(x, y) && #[trigger] leq(y, z) implies leq(x, z) by {
            lemma_bytes_lt_total(x, y);
            lemma_bytes_lt_total(y, z);
            if bytes_lt(z, x) {
                if bytes_lt(x, y) {
                    lemma_bytes_lt_transitive(z, x, y);
                }
            }
        }
        assert forall|x: Seq<u8>, y: Seq<u8>| #[trigger] leq(x, y) || #[trigger] leq(y, x) by {
            if bytes_lt(x, y) && bytes_lt(y, x) {
                lemma_bytes_lt_transitive(x, y, x);
                lemma_bytes_lt_irreflexive(x);
            }
        }
    }
    vstd::seq_lib::lemma_sorted_unique(sorted_bytes(a), sorted_bytes(b), leq);
}

/// Sorting keeps the members, each as often, and puts them in order.
pub proof fn lemma_sorted_bytes_properties(a: Seq<Seq<u8>>)
    ensures
        sorted_bytes(a).to_multiset() == a.to_multiset(),
        vstd::relations::sorted_by(sorted_bytes(a), |x: Seq<u8>, y: Seq<u8>| !bytes_lt(y, x)),
{
    lemma_order_exists(a);
    let p = sort_order(a);
    lemma_order_covers(a, p);
    lemma_rearranged_multiset(a, p);
    let t = sorted_bytes(a);
    assert(t == p.map_values(|i: int| a[i]));
    assert forall|i: int, j: int| 0 <= i < j < t.len() implies !bytes_lt(t[j], t[i]) by {
        assert(comes_first(a, p[i], p[j]));
        lemma_comes_first_strict(a, p[i], p[j]);
        lemma_bytes_lt_irreflexive(a[p[i]]);
    }
}

/// Sorting texts keeps them, each as often, in order.
pub proof fn lemma_sorted_strs_properties(a: Seq<Seq<char>>)
    ensures
        sorted_strs(a).to_multiset() == a.to_multiset(),
        vstd::relations::sorted_by(sorted_strs(a), |x: Seq<char>, y: Seq<char>| !str_lt(y, x)),
{
    let keys = encoded(a);
    lemma_order_exists(keys);
    let p = sort_order(keys);
    lemma_order_covers(keys, p);
    lemma_rearranged_multiset(a, p);
    let t = sorted_strs(a);
    assert(t == p.map_values(|i: int| a[i]));
    assert forall|i: int, j: int| 0 <= i < j < t.len() implies !str_lt(#[trigger] t[j], #[trigger] t[i]) by {
        assert(comes_first(keys, p[i], p[j]));
        assert(keys[p[i]] == utf8(t[i]) && keys[p[j]] == utf8(t[j]));
        if str_lt(t[j], t[i]) {
            lemma_bytes_lt_irreflexive(utf8(t[i]));
            if bytes_lt(utf8(t[i]), utf8(t[j])) {
                lemma_bytes_lt_transitive(utf8(t[i]), utf8(t[j]), utf8(t[i]));
            }
        }
    }
}

/// Texts with the same members, each as often, sort into the same list.
pub proof fn lemma_sorted_strs_unique(a: Seq<Seq<char>>, b: Seq<Seq<char>>)
    requires
        a.to_multiset() == b.to_multiset(),
    ensures
        sorted_strs(a) == sorted_strs(b),
{
    lemma_sorted_strs_properties(a);
    lemma_sorted_strs_properties(b);
    let leq = |x: Seq<char>, y: Seq<char>| !str_lt(y, x);
    assert(vstd::relations::total_ordering(leq)) by {
        assert forall|x: Seq<char>| #[trigger] leq(x, x) by {
            lemma_bytes_lt_irreflexive(utf8(x));
        }
        assert forall|x: Seq<char>, y: Seq<char>| #[trigger] leq(x, y) && #[trigger] leq(y, x) implies x == y by {
            lemma_bytes_lt_total(utf8(x), utf8(y));
            lemma_utf8_injective(x, y);
        }
        assert forall|x: Seq<char>, y: Seq<char>, z: Seq<char>| #[trigger] leq(x, y) && #[trigger] leq(y, z) implies leq(x, z) by {
            lemma_bytes_lt_total(utf8(x), utf8(y));
            lemma_bytes_lt_total(utf8(y), utf8(z));
            if str_lt(z, x) {
                if str_lt(x, y) {
                    lemma_bytes_lt_transitive(utf8(z), utf8(x), utf8(y));
                }
            }
        }
        assert forall|x: Seq<char>, y: Seq<char>| #[trigger] leq(x, y) || #[trigger] leq(y, x) by {
            if str_lt(x, y) && str_lt(y, x) {
                lemma_bytes_lt_transitive(utf8(x), utf8(y), utf8(x));
                lemma_bytes_lt_irreflexive(utf8(x));
            }
        }
    }
    vstd::seq_lib::lemma_sorted_unique(sorted_strs(a), sorted_strs(b), leq);
}

} // verus!
