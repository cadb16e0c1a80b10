//! Putting named things in order.

use vstd::prelude::*;

verus! {

/// `a` comes before `b`, byte by byte, from the `i`th byte on.
pub open spec fn less_from(a: Seq<u8>, b: Seq<u8>, i: int) -> bool
    decreases b.len() - i,
{
    if i < 0 || i >= b.len() {
        false
    } else if i >= a.len() {
        true
    } else if a[i] != b[i] {
        a[i] < b[i]
    } else {
        less_from(a, b, i + 1)
    }
}

/// `a` comes before `b`.
pub open spec fn less(a: Seq<u8>, b: Seq<u8>) -> bool {
    less_from(a, b, 0)
}

proof fn lemma_less_transitive(a: Seq<u8>, b: Seq<u8>, c: Seq<u8>, i: int)
    requires
        0 <= i,
        less_from(a, b, i),
        less_from(b, c, i),
    ensures
        less_from(a, c, i),
    decreases c.len() - i,
{
    if i < a.len() && i < b.len() && a[i] == b[i] && i < c.len() && b[i] == c[i] {
        lemma_less_transitive(a, b, c, i + 1);
    }
}

proof fn lemma_less_total(a: Seq<u8>, b: Seq<u8>, i: int)
    requires
        0 <= i,
        i <= a.len(),
        i <= b.len(),
        forall|j: int| 0 <= j < i ==> a[j] == b[j],
        !less_from(a, b, i),
        !less_from(b, a, i),
    ensures
        a == b,
    decreases b.len() - i,
{
    if i < a.len() && i < b.len() {
        lemma_less_total(a, b, i + 1);
    } else {
        assert(a =~= b);
    }
}

proof fn lemma_less_irreflexive(a: Seq<u8>, i: int)
    requires
        0 <= i,
    ensures
        !less_from(a, a, i),
    decreases a.len() - i,
{
    if i < a.len() {
        lemma_less_irreflexive(a, i + 1);
    }
}

/// Compares two byte strings.
pub fn is_less(a: &[u8], b: &[u8]) -> (r: bool)
    ensures
        r == less(a@, b@),
{
    let mut i: usize = 0;
    while i < b.len()
        invariant
            i <= b.len(),
            i <= a.len(),
            less(a@, b@) == less_from(a@, b@, i as int),
        decreases b.len() - i,
    {
        if i >= a.len() {
            return true;
        }
        if a[i] != b[i] {
            return a[i] < b[i];
        }
        i += 1;
    }
    false
}

/// What a thing is ordered by: a group, and a name within the group.
pub struct Key {
    pub group: u8,
    pub name: Vec<u8>,
}

/// A key as plain values.
pub open spec fn key_view(k: Key) -> (u8, Seq<u8>) {
    (k.group, k.name@)
}

pub open spec fn key_less(a: (u8, Seq<u8>), b: (u8, Seq<u8>)) -> bool {
    a.0 < b.0 || (a.0 == b.0 && less(a.1, b.1))
}

/// The keys as plain values.
pub open spec fn key_views(keys: Seq<Key>) -> Seq<(u8, Seq<u8>)> {
    keys.map_values(|k: Key| key_view(k))
}

/// The `a`th comes before the `b`th: by its key, and of equal keys by its
/// number.
pub open spec fn precedes(keys: Seq<(u8, Seq<u8>)>, a: int, b: int) -> bool {
    key_less(keys[a], keys[b]) || (keys[a] == keys[b] && a < b)
}

/// The first `n` numbers, each once, in the order of their keys.
pub open spec fn is_order(keys: Seq<(u8, Seq<u8>)>, order: Seq<int>, n: int) -> bool {
    &&& order.len() == n
    &&& forall|i: int| 0 <= i < n ==> 0 <= #[trigger] order[i] < n
    &&& forall|i: int, j: int|
        0 <= i < j < n ==> precedes(keys, #[trigger] order[i], #[trigger] order[j])
}

proof fn lemma_precedes_transitive(keys: Seq<(u8, Seq<u8>)>, a: int, b: int, c: int)
    requires
        precedes(keys, a, b),
        precedes(keys, b, c),
    ensures
        precedes(keys, a, c),
{
    if keys[a].0 == keys[b].0 && keys[b].0 == keys[c].0 {
        if less(keys[a].1, keys[b].1) && less(keys[b].1, keys[c].1) {
            lemma_less_transitive(keys[a].1, keys[b].1, keys[c].1, 0);
        }
    }
}

/// No two numbers precede each other.
proof fn lemma_precedes_strict(keys: Seq<(u8, Seq<u8>)>, a: int, b: int)
    requires
        precedes(keys, a, b),
    ensures
        !precedes(keys, b, a),
{
    if precedes(keys, b, a) {
        lemma_precedes_transitive(keys, a, b, a);
        lemma_less_irreflexive(keys[a].1, 0);
    }
}

/// An order holds every number.
proof fn lemma_order_is_onto(keys: Seq<(u8, Seq<u8>)>, order: Seq<int>, n: int, x: int)
    requires
        is_order(keys, order, n),
        0 <= x < n,
    ensures
        exists|j: int| 0 <= j < n && order[j] == x,
{
    assert forall|i: int, j: int| 0 <= i < order.len() && 0 <= j < order.len() && i
        != j implies order[i] != order[j] by {
        if i < j {
            lemma_precedes_strict(keys, order[i], order[j]);
        } else {
            lemma_precedes_strict(keys, order[j], order[i]);
        }
    }
    assert(order.no_duplicates());
    order.unique_seq_to_set();
    let all = vstd::set_lib::set_int_range(0, n);
    vstd::set_lib::lemma_int_range(0, n);
    assert(order.to_set().subset_of(all));
    vstd::set_lib::lemma_subset_equality(order.to_set(), all);
    assert(order.to_set().contains(x));
}

/// There is only one order: keys decide where each number comes, and where they are
/// equal the numbers themselves do.
pub proof fn law_there_is_one_order(
    keys: Seq<(u8, Seq<u8>)>,
    a: Seq<int>,
    b: Seq<int>,
    n: int,
)
    requires
        is_order(keys, a, n),
        is_order(keys, b, n),
    ensures
        a == b,
{
    assert forall|k: int| 0 <= k < n implies a[k] == b[k] by {
        lemma_orders_agree(keys, a, b, n, k);
    }
    assert(a =~= b);
}

proof fn lemma_orders_agree(keys: Seq<(u8, Seq<u8>)>, a: Seq<int>, b: Seq<int>, n: int, k: int)
    requires
        is_order(keys, a, n),
        is_order(keys, b, n),
        0 <= k < n,
    ensures
        a[k] == b[k],
    decreases k,
{
    assert forall|i: int| 0 <= i < k implies a[i] == b[i] by {
        lemma_orders_agree(keys, a, b, n, i);
    }
    if a[k] != b[k] {
        lemma_order_is_onto(keys, a, n, b[k]);
        let i = choose|i: int| 0 <= i < n && a[i] == b[k];
        if i < k {
            lemma_precedes_strict(keys, b[i], b[k]);
        }
        lemma_order_is_onto(keys, b, n, a[k]);
        let j = choose|j: int| 0 <= j < n && b[j] == a[k];
        if j < k {
            lemma_precedes_strict(keys, a[j], a[k]);
        }
        lemma_precedes_strict(keys, a[k], a[i]);
    }
}

/// A later number whose key is not smaller comes later.
proof fn lemma_not_less(keys: Seq<(u8, Seq<u8>)>, a: int, b: int)
    requires
        a < b,
        !key_less(keys[b], keys[a]),
    ensures
        precedes(keys, a, b),
{
    if keys[a].0 == keys[b].0 && !less(keys[a].1, keys[b].1) {
        lemma_less_total(keys[a].1, keys[b].1, 0);
    }
}

fn is_key_less(a: &Key, b: &Key) -> (r: bool)
    ensures
        r == key_less(key_view(*a), key_view(*b)),
{
    a.group < b.group || (a.group == b.group && is_less(a.name.as_slice(), b.name.as_slice()))
}

/// A list of numbers.
pub open spec fn numbers(v: Seq<usize>) -> Seq<int> {
    v.map_values(|i: usize| i as int)
}

/// Orders things by their keys; equal ones stay as they were.
pub fn order_of(keys: &Vec<Key>) -> (r: Vec<usize>)
    ensures
        is_order(key_views(keys@), numbers(r@), keys@.len() as int),
        forall|i: int| 0 <= i < r@.len() ==> (#[trigger] r@[i]) < keys@.len(),
{
    let ghost views = key_views(keys@);
    let mut out: Vec<usize> = Vec::new();
    for i in 0..keys.len()
        invariant
            views == key_views(keys@),
            out@.len() == i,
            is_order(views, numbers(out@), i as int),
            forall|k: int| 0 <= k < out@.len() ==> (#[trigger] out@[k]) < i,
    {
        let ghost before = numbers(out@);
        let mut p: usize = out.len();
        let mut moving: bool = p > 0;
        while moving
            invariant
                i < keys@.len(),
                views == key_views(keys@),
                before == numbers(out@),
                out@.len() == i,
                p <= i,
                moving ==> p > 0,
                is_order(views, before, i as int),
                forall|k: int| 0 <= k < out@.len() ==> (#[trigger] out@[k]) < i,
                forall|k: int| p <= k < i ==> key_less(views[i as int], views[#[trigger] before[k]]),
                !moving ==> p == 0 || !key_less(views[i as int], views[before[p - 1]]),
            decreases p + if moving { 1int } else { 0int },
        {
            assert(before[p - 1] == out@[p - 1]);
            if is_key_less(&keys[i], &keys[out[p - 1]]) {
                p = p - 1;
                moving = p > 0;
            } else {
                moving = false;
            }
        }
        out.insert(p, i);
        proof {
            let after = numbers(out@);
            assert(after =~= before.insert(p as int, i as int));
            assert forall|a: int, b: int| 0 <= a < b < after.len() implies precedes(
                views,
                #[trigger] after[a],
                #[trigger] after[b],
            ) by {
                let fa = if a < p {
                    a
                } else {
                    a - 1
                };
                let fb = if b < p {
                    b
                } else {
                    b - 1
                };
                if a != p && b != p {
                    assert(after[a] == before[fa] && after[b] == before[fb]);
                    assert(precedes(views, before[fa], before[fb]));
                } else if b == p {
                    assert(after[a] == before[a]);
                    assert(before[p - 1] < i) by {
                        assert(0 <= before[p - 1] < i);
                    }
                    lemma_not_less(views, before[p - 1], i as int);
                    if a < p - 1 {
                        assert(precedes(views, before[a], before[p - 1]));
                        lemma_precedes_transitive(views, before[a], before[p - 1], i as int);
                    }
                } else {
                    assert(after[b] == before[b - 1]);
                }
            }
            assert forall|k: int| 0 <= k < after.len() implies 0 <= #[trigger] after[k] < i + 1 by {
                let f = if k < p {
                    k
                } else {
                    k - 1
                };
                if k != p {
                    assert(after[k] == before[f]);
                }
            }
            assert forall|k: int| 0 <= k < out@.len() implies (#[trigger] out@[k]) < i + 1 by {
                assert(after[k] == out@[k]);
            }
        }
    }
    out
}

} // verus!
