//! Stable sorting by keys. A key is a sequence of numbers, and keys are
//! ordered like words in a dictionary.

use crate::text::{chars_of, texts};
use vstd::prelude::*;

verus! {

/// Whether key `a` comes before key `b`.
pub open spec fn key_lt(a: Seq<u64>, b: Seq<u64>) -> bool
    decreases a.len(),
{
    if b.len() == 0 {
        false
    } else if a.len() == 0 {
        true
    } else if a[0] != b[0] {
        a[0] < b[0]
    } else {
        key_lt(a.skip(1), b.skip(1))
    }
}

/// No key comes before itself.
pub proof fn lemma_key_irreflexive(a: Seq<u64>)
    ensures
        !key_lt(a, a),
    decreases a.len(),
{
    if a.len() > 0 {
        lemma_key_irreflexive(a.skip(1));
    }
}

/// The order of keys is transitive.
pub proof fn lemma_key_transitive(a: Seq<u64>, b: Seq<u64>, c: Seq<u64>)
    requires
        key_lt(a, b),
        key_lt(b, c),
    ensures
        key_lt(a, c),
    decreases a.len(),
{
    if a.len() > 0 && a[0] == b[0] && b[0] == c[0] {
        lemma_key_transitive(a.skip(1), b.skip(1), c.skip(1));
    }
}

/// Of two different keys, one comes before the other.
pub proof fn lemma_key_total(a: Seq<u64>, b: Seq<u64>)
    ensures
        key_lt(a, b) || key_lt(b, a) || a == b,
    decreases a.len(),
{
    if a.len() > 0 && b.len() > 0 && a[0] == b[0] {
        lemma_key_total(a.skip(1), b.skip(1));
        if a.skip(1) == b.skip(1) {
            assert(a == seq![a[0]] + a.skip(1));
            assert(b == seq![b[0]] + b.skip(1));
        }
    } else if a.len() == 0 && b.len() == 0 {
        assert(a == b);
    }
}

/// Whether key `a` comes before key `b`.
pub fn key_before(a: &[u64], b: &[u64]) -> (r: bool)
    ensures
        r == key_lt(a@, b@),
{
    let mut i: usize = 0;
    assert(a@.skip(0) == a@ && b@.skip(0) == b@);
    while i < a.len() && i < b.len()
        invariant
            i <= a@.len(),
            i <= b@.len(),
            key_lt(a@, b@) == key_lt(a@.skip(i as int), b@.skip(i as int)),
        decreases a@.len() - i,
    {
        if a[i] != b[i] {
            return a[i] < b[i];
        }
        assert(a@.skip(i as int).skip(1) == a@.skip(i + 1));
        assert(b@.skip(i as int).skip(1) == b@.skip(i + 1));
        i += 1;
    }
    i < b.len()
}

/// The views of a sequence of keys.
pub open spec fn key_views(v: Seq<Vec<u64>>) -> Seq<Seq<u64>> {
    v.map_values(|k: Vec<u64>| k@)
}

/// Whether item `a` sorts before item `b`: by key, and among equal keys by
/// position.
pub open spec fn sorts_before(keys: Seq<Seq<u64>>, a: int, b: int) -> bool {
    key_lt(keys[a], keys[b]) || (keys[a] == keys[b] && a < b)
}

/// Whether `order` lists the items of `keys`, each once, in stable sorted
/// order.
pub open spec fn is_stable_order(order: Seq<usize>, keys: Seq<Seq<u64>>) -> bool {
    &&& order.len() == keys.len()
    &&& forall|i: int| 0 <= i < order.len() ==> 0 <= #[trigger] order[i] < keys.len()
    &&& forall|k: int| 0 <= k < keys.len() ==> #[trigger] order.contains(k as usize)
    &&& forall|i: int, j: int|
        0 <= i < j < order.len() ==> #[trigger] sorts_before(
            keys,
            order[i] as int,
            order[j] as int,
        )
}

/// The stable sorted order of the items of `keys`.
pub open spec fn stable_order_of(keys: Seq<Seq<u64>>) -> Seq<usize> {
    choose|order: Seq<usize>| is_stable_order(order, keys)
}

proof fn lemma_sorts_asymmetric(keys: Seq<Seq<u64>>, a: int, b: int)
    requires
        sorts_before(keys, a, b),
    ensures
        !sorts_before(keys, b, a),
        a != b,
{
    lemma_key_irreflexive(keys[a]);
    if key_lt(keys[a], keys[b]) && key_lt(keys[b], keys[a]) {
        lemma_key_transitive(keys[a], keys[b], keys[a]);
    }
}

proof fn lemma_order_agrees(o1: Seq<usize>, o2: Seq<usize>, keys: Seq<Seq<u64>>, n: nat)
    requires
        is_stable_order(o1, keys),
        is_stable_order(o2, keys),
        n <= keys.len(),
        keys.len() <= usize::MAX,
    ensures
        forall|i: int| 0 <= i < n ==> o1[i] == o2[i],
    decreases n,
{
    if n > 0 {
        let m = (n - 1) as nat;
        lemma_order_agrees(o1, o2, keys, m);
        let i = m as int;
        assert(o2.contains(o1[i] as int as usize));
        assert(o1.contains(o2[i] as int as usize));
        let j = choose|j: int| 0 <= j < o2.len() && o2[j] == o1[i];
        let k = choose|k: int| 0 <= k < o1.len() && o1[k] == o2[i];
        if j < i {
            assert(o1[j] == o2[j]);
            assert(sorts_before(keys, o1[j] as int, o1[i] as int));
            lemma_sorts_asymmetric(keys, o1[j] as int, o1[i] as int);
        } else if k < i {
            assert(o1[k] == o2[k]);
            assert(sorts_before(keys, o2[k] as int, o2[i] as int));
            lemma_sorts_asymmetric(keys, o2[k] as int, o2[i] as int);
        } else if j > i && k > i {
            assert(sorts_before(keys, o2[i] as int, o2[j] as int));
            assert(sorts_before(keys, o1[i] as int, o1[k] as int));
            lemma_sorts_asymmetric(keys, o2[i] as int, o1[i] as int);
        }
    }
}

/// There is only one stable sorted order of the same keys.
pub proof fn law_stable_order_is_unique(order: Seq<usize>, keys: Seq<Seq<u64>>)
    requires
        is_stable_order(order, keys),
        keys.len() <= usize::MAX,
    ensures
        order == stable_order_of(keys),
{
    let other = stable_order_of(keys);
    lemma_order_agrees(order, other, keys, keys.len());
    assert(order =~= other);
}

/// Inserting the next item behind those whose key is no greater keeps the
/// order stable.
proof fn lemma_insert_keeps_order(before_order: Seq<usize>, p: int, n: usize, ks: Seq<Seq<u64>>)
    requires
        n < ks.len(),
        is_stable_order(before_order, ks.take(n as int)),
        0 <= p <= n,
        forall|j: int| p <= j < n ==> key_lt(ks[n as int], ks[#[trigger] before_order[j] as int]),
        p > 0 ==> !key_lt(ks[n as int], ks[before_order[p - 1] as int]),
    ensures
        is_stable_order(before_order.insert(p, n), ks.take(n + 1)),
{
    let before = ks.take(n as int);
    let now = ks.take(n + 1);
    let order = before_order.insert(p, n);
    assert forall|i: int| 0 <= i < order.len() implies 0 <= #[trigger] order[i]
        < now.len() by {
        if i < p {
            assert(order[i] == before_order[i]);
        } else if i > p {
            assert(order[i] == before_order[i - 1]);
        }
    }
    assert forall|k: int| 0 <= k < now.len() implies #[trigger] order.contains(
        k as usize,
    ) by {
        if k == n {
            assert(order[p as int] == n);
        } else {
            assert(before_order.contains(k as usize));
            let i = choose|i: int| 0 <= i < before_order.len() && before_order[i] == k as usize;
            if i < p {
                assert(order[i] == k as usize);
            } else {
                assert(order[i + 1] == k as usize);
            }
        }
    }
    // Everything before the new place has a key no greater.
    assert forall|i: int| 0 <= i < p implies !key_lt(
        ks[n as int],
        ks[#[trigger] before_order[i] as int],
    ) by {
        let last = before_order[p - 1] as int;
        assert(!key_lt(ks[n as int], ks[last]));
        if i < p - 1 && key_lt(ks[n as int], ks[before_order[i] as int]) {
            assert(sorts_before(before, before_order[i] as int, last));
            assert(before[last] == ks[last]);
            assert(before[before_order[i] as int] == ks[before_order[i] as int]);
            if key_lt(ks[before_order[i] as int], ks[last]) {
                lemma_key_transitive(ks[n as int], ks[before_order[i] as int], ks[last]);
            }
        }
    }
    assert forall|i: int, j: int| 0 <= i < j < order.len() implies #[trigger] sorts_before(
        now,
        order[i] as int,
        order[j] as int,
    ) by {
        let oi = if i < p {
            i
        } else {
            i - 1
        };
        let oj = if j < p {
            j
        } else {
            j - 1
        };
        if i != p && j != p {
            assert(order[i] == before_order[oi]);
            assert(order[j] == before_order[oj]);
            assert(sorts_before(before, before_order[oi] as int, before_order[oj] as int));
        } else if i == p {
            assert(order[j] == before_order[oj]);
            assert(key_lt(ks[n as int], ks[before_order[oj] as int]));
        } else {
            assert(order[i] == before_order[oi]);
            lemma_key_total(ks[before_order[oi] as int], ks[n as int]);
        }
    }
}

/// The place behind the items whose key is no greater.
proof fn lemma_place_exists(order: Seq<usize>, n: usize, ks: Seq<Seq<u64>>, q: int) -> (p: int)
    requires
        n < ks.len(),
        is_stable_order(order, ks.take(n as int)),
        0 <= q <= n,
        forall|j: int| q <= j < n ==> key_lt(ks[n as int], ks[#[trigger] order[j] as int]),
    ensures
        0 <= p <= n,
        forall|j: int| p <= j < n ==> key_lt(ks[n as int], ks[#[trigger] order[j] as int]),
        p > 0 ==> !key_lt(ks[n as int], ks[order[p - 1] as int]),
    decreases q,
{
    if q > 0 && key_lt(ks[n as int], ks[order[q - 1] as int]) {
        lemma_place_exists(order, n, ks, q - 1)
    } else {
        q
    }
}

proof fn lemma_prefix_order_exists(ks: Seq<Seq<u64>>, n: nat) -> (order: Seq<usize>)
    requires
        n <= ks.len(),
        ks.len() <= usize::MAX,
    ensures
        is_stable_order(order, ks.take(n as int)),
    decreases n,
{
    if n == 0 {
        Seq::empty()
    } else {
        let m = (n - 1) as usize;
        let before = lemma_prefix_order_exists(ks, (n - 1) as nat);
        let p = lemma_place_exists(before, m, ks, m as int);
        lemma_insert_keeps_order(before, p, m, ks);
        before.insert(p, m)
    }
}

/// Every sequence of keys has a stable sorted order.
pub proof fn law_stable_order_exists(keys: Seq<Seq<u64>>)
    requires
        keys.len() <= usize::MAX,
    ensures
        is_stable_order(stable_order_of(keys), keys),
{
    let order = lemma_prefix_order_exists(keys, keys.len());
    assert(keys.take(keys.len() as int) == keys);
    assert(is_stable_order(order, keys));
}

/// The stable sorted order of the items with the given keys.
pub fn stable_order(keys: &Vec<Vec<u64>>) -> (order: Vec<usize>)
    ensures
        is_stable_order(order@, key_views(keys@)),
        order@ == stable_order_of(key_views(keys@)),
{
    let mut order: Vec<usize> = Vec::new();
    let total: usize = keys.len();
    let ghost ks = key_views(keys@);
    let mut n: usize = 0;
    assert(is_stable_order(order@, ks.take(0)));
    while n < total
        invariant
            n <= total,
            total == keys@.len(),
            ks == key_views(keys@),
            is_stable_order(order@, ks.take(n as int)),
        decreases total - n,
    {
        let mut p: usize = n;
        let ghost before = ks.take(n as int);
        while p > 0 && key_before(keys[n].as_slice(), keys[order[p - 1]].as_slice())
            invariant
                n < total,
                total == keys@.len(),
                ks == key_views(keys@),
                before == ks.take(n as int),
                is_stable_order(order@, before),
                order@.len() == n,
                p <= n,
                forall|j: int| p <= j < n ==> key_lt(ks[n as int], ks[#[trigger] order@[j] as int]),
            decreases p,
        {
            p -= 1;
        }
        proof {
            lemma_insert_keeps_order(order@, p as int, n, ks);
        }
        order.insert(p, n);
        n += 1;
    }
    assert(ks.take(total as int) == ks);
    proof {
        law_stable_order_is_unique(order@, ks);
    }
    order
}

/// The code points of a text, as a key.
pub open spec fn text_key(s: Seq<char>) -> Seq<u64> {
    s.map_values(|c: char| c as u64)
}

pub fn key_of(chars: &[char]) -> (out: Vec<u64>)
    ensures
        out@ == text_key(chars@),
{
    let mut out: Vec<u64> = Vec::new();
    let mut i: usize = 0;
    while i < chars.len()
        invariant
            i <= chars@.len(),
            out@ == text_key(chars@.take(i as int)),
        decreases chars@.len() - i,
    {
        out.push(chars[i] as u64);
        assert(chars@.take(i + 1) == chars@.take(i as int).push(chars@[i as int]));
        i += 1;
    }
    assert(chars@.take(chars@.len() as int) == chars@);
    out
}

/// The sort keys of texts.
pub open spec fn text_keys(all: Seq<Seq<char>>) -> Seq<Seq<u64>> {
    all.map_values(|s: Seq<char>| text_key(s))
}

pub fn keys_of(all: &Vec<String>) -> (keys: Vec<Vec<u64>>)
    ensures
        key_views(keys@) == text_keys(texts(all@)),
{
    let mut keys: Vec<Vec<u64>> = Vec::new();
    let ghost wanted = text_keys(texts(all@));
    let mut i: usize = 0;
    while i < all.len()
        invariant
            i <= all@.len(),
            wanted == text_keys(texts(all@)),
            key_views(keys@) == wanted.take(i as int),
        decreases all@.len() - i,
    {
        let ghost before = keys@;
        keys.push(key_of(chars_of(all[i].as_str()).as_slice()));
        assert(key_views(keys@) == key_views(before).push(wanted[i as int]));
        i += 1;
    }
    assert(wanted.take(all@.len() as int) == wanted);
    keys
}

proof fn lemma_code_injective(a: char, b: char)
    requires
        a as u64 == b as u64,
    ensures
        a == b,
{
}

/// Different texts have different keys.
pub proof fn lemma_text_key_injective(a: Seq<char>, b: Seq<char>)
    requires
        text_key(a) == text_key(b),
    ensures
        a == b,
{
    assert(a.len() == text_key(a).len() && b.len() == text_key(b).len());
    assert forall|i: int| 0 <= i < a.len() implies a[i] == b[i] by {
        assert(text_key(a)[i] == a[i] as u64);
        assert(text_key(b)[i] == b[i] as u64);
        lemma_code_injective(a[i], b[i]);
    }
    assert(a =~= b);
}

} // verus!
