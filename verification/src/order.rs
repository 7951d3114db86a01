//! Lexicographic order on sequences of numbers and a stable sort of
//! positions by key.
//!
//! Text is ordered by the code points of its characters: `Ord for str`
//! compares UTF-8 bytes, and UTF-8 keeps the order of code points.

use vstd::prelude::*;

verus! {

/// `a` comes strictly before `b` in lexicographic order.
pub open spec fn lex_lt(a: Seq<u64>, b: Seq<u64>) -> bool
    decreases a.len(),
{
    if a.len() == 0 {
        b.len() > 0
    } else if b.len() == 0 {
        false
    } else if a[0] != b[0] {
        a[0] < b[0]
    } else {
        lex_lt(a.drop_first(), b.drop_first())
    }
}

/// `a` comes before `b` or equals it.
pub open spec fn lex_le(a: Seq<u64>, b: Seq<u64>) -> bool {
    lex_lt(a, b) || a == b
}

/// No sequence comes before itself.
pub proof fn lemma_lex_irreflexive(a: Seq<u64>)
    ensures
        !lex_lt(a, a),
    decreases a.len(),
{
    if a.len() > 0 {
        lemma_lex_irreflexive(a.drop_first());
    }
}

/// Of two different sequences exactly one comes first.
pub proof fn lemma_lex_total(a: Seq<u64>, b: Seq<u64>)
    ensures
        a != b ==> (lex_lt(a, b) != lex_lt(b, a)),
        a == b ==> !lex_lt(a, b),
    decreases a.len(),
{
    lemma_lex_irreflexive(a);
    if a.len() > 0 && b.len() > 0 && a[0] == b[0] {
        lemma_lex_total(a.drop_first(), b.drop_first());
        if a.drop_first() == b.drop_first() {
            assert(a == seq![a[0]] + a.drop_first());
            assert(b == seq![b[0]] + b.drop_first());
        }
    }
    if a.len() == 0 && b.len() == 0 {
        assert(a == b);
    }
}

/// The order is transitive.
pub proof fn lemma_lex_trans(a: Seq<u64>, b: Seq<u64>, c: Seq<u64>)
    requires
        lex_lt(a, b),
        lex_lt(b, c),
    ensures
        lex_lt(a, c),
    decreases a.len(),
{
    if a.len() > 0 && b.len() > 0 && c.len() > 0 && a[0] == b[0] && b[0] == c[0] {
        lemma_lex_trans(a.drop_first(), b.drop_first(), c.drop_first());
    }
}

/// `lex_le` is transitive.
pub proof fn lemma_lex_le_trans(a: Seq<u64>, b: Seq<u64>, c: Seq<u64>)
    requires
        lex_le(a, b),
        lex_le(b, c),
    ensures
        lex_le(a, c),
{
    if lex_lt(a, b) && lex_lt(b, c) {
        lemma_lex_trans(a, b, c);
    }
}

/// Whether `a` comes strictly before `b`.
pub fn lex_less(a: &Vec<u64>, b: &Vec<u64>) -> (r: bool)
    ensures
        r == lex_lt(a@, b@),
{
    let mut i: usize = 0;
    assert(a@.skip(0) == a@);
    assert(b@.skip(0) == b@);
    while i < a.len() && i < b.len() && a[i] == b[i]
        invariant
            i <= a@.len(),
            i <= b@.len(),
            lex_lt(a@, b@) == lex_lt(a@.skip(i as int), b@.skip(i as int)),
        decreases a@.len() - i,
    {
        assert(a@.skip(i as int).drop_first() == a@.skip(i + 1));
        assert(b@.skip(i as int).drop_first() == b@.skip(i + 1));
        i = i + 1;
    }
    if i == a.len() {
        i < b.len()
    } else if i == b.len() {
        false
    } else {
        a[i] < b[i]
    }
}

/// The keys of a list, each as its sequence of numbers.
pub open spec fn keys_view(keys: Seq<Vec<u64>>) -> Seq<Seq<u64>> {
    keys.map_values(|k: Vec<u64>| k@)
}

/// Position `x` goes before position `y` when its key comes first, or
/// when the keys are equal and `x` was first: the order of a stable sort.
pub open spec fn goes_before(keys: Seq<Seq<u64>>, x: int, y: int) -> bool {
    lex_lt(keys[x], keys[y]) || (keys[x] == keys[y] && x < y)
}

/// `order` lists every position of `keys` once, in the order of a stable
/// sort by key.
pub open spec fn stable_order(keys: Seq<Seq<u64>>, order: Seq<usize>) -> bool {
    &&& order.len() == keys.len()
    &&& forall|k: int| 0 <= k < order.len() ==> #[trigger] order[k] < keys.len()
    &&& forall|a: int, b: int|
        0 <= a < b < order.len() ==> goes_before(keys, #[trigger] order[a] as int, #[trigger] order[b] as int)
}

/// The positions of `keys` in the order of a stable sort by key.
pub open spec fn sorted_positions(keys: Seq<Seq<u64>>) -> Seq<usize> {
    choose|order: Seq<usize>| stable_order(keys, order)
}

/// Of two different positions exactly one goes before the other.
pub proof fn lemma_goes_before_total(keys: Seq<Seq<u64>>, x: int, y: int)
    ensures
        x != y ==> (goes_before(keys, x, y) != goes_before(keys, y, x)),
        !goes_before(keys, x, x),
{
    lemma_lex_total(keys[x], keys[y]);
    lemma_lex_irreflexive(keys[x]);
}

/// A list of distinct positions below `n`, `n` long, holds every position
/// below `n`.
proof fn lemma_all_positions(order: Seq<usize>, n: nat, j: int)
    requires
        order.len() == n,
        forall|k: int| 0 <= k < n ==> #[trigger] order[k] < n,
        forall|a: int, b: int| 0 <= a < b < n ==> #[trigger] order[a] != #[trigger] order[b],
        0 <= j < n,
    ensures
        exists|k: int| 0 <= k < n && order[k] == j,
{
    let ints = order.map_values(|x: usize| x as int);
    assert forall|a: int, b: int| 0 <= a < ints.len() && 0 <= b < ints.len() && a != b implies ints[a]
        != ints[b] by {
        if a < b {
            assert(order[a] != order[b]);
        } else {
            assert(order[b] != order[a]);
        }
    }
    assert(ints.no_duplicates());
    ints.unique_seq_to_set();
    vstd::set_lib::lemma_int_range(0, n as int);
    let range = vstd::set_lib::set_int_range(0, n as int);
    assert(ints.to_set().subset_of(range)) by {
        assert forall|x: int| ints.to_set().contains(x) implies range.contains(x) by {
            let k = choose|k: int| 0 <= k < ints.len() && ints[k] == x;
            assert(order[k] < n);
        }
    }
    vstd::set_lib::lemma_subset_equality(ints.to_set(), range);
    assert(range.contains(j));
    assert(ints.to_set().contains(j));
    let k = choose|k: int| 0 <= k < ints.len() && ints[k] == j;
    assert(order[k] == j);
}

/// A stable order lists every position of the keys.
pub proof fn lemma_stable_order_complete(keys: Seq<Seq<u64>>, order: Seq<usize>, j: int)
    requires
        stable_order(keys, order),
        0 <= j < keys.len(),
    ensures
        exists|k: int| 0 <= k < order.len() && order[k] == j,
{
    assert forall|a: int, b: int| 0 <= a < b < keys.len() implies #[trigger] order[a] != #[trigger] order[b] by {
        lemma_goes_before_total(keys, order[a] as int, order[a] as int);
    }
    lemma_all_positions(order, keys.len(), j);
}

/// Two stable orders of the same keys agree below `k`.
proof fn lemma_orders_agree(keys: Seq<Seq<u64>>, o1: Seq<usize>, o2: Seq<usize>, k: int)
    requires
        stable_order(keys, o1),
        stable_order(keys, o2),
        0 <= k <= keys.len(),
    ensures
        forall|g: int| 0 <= g < k ==> o1[g] == o2[g],
    decreases k,
{
    let n = keys.len();
    if k > 0 {
        lemma_orders_agree(keys, o1, o2, k - 1);
        let c = k - 1;
        assert forall|a: int, b: int| 0 <= a < b < n implies #[trigger] o1[a] != #[trigger] o1[b] by {
            lemma_goes_before_total(keys, o1[a] as int, o1[a] as int);
        }
        assert forall|a: int, b: int| 0 <= a < b < n implies #[trigger] o2[a] != #[trigger] o2[b] by {
            lemma_goes_before_total(keys, o2[a] as int, o2[a] as int);
        }
        let x = o1[c];
        let y = o2[c];
        if x != y {
            lemma_all_positions(o1, n, y as int);
            let j = choose|j: int| 0 <= j < n && o1[j] == y;
            if j < c {
                assert(o2[j] == y);
                assert(o2[j] != o2[c]);
            }
            assert(j > c);
            assert(goes_before(keys, x as int, y as int));
            lemma_all_positions(o2, n, x as int);
            let i = choose|i: int| 0 <= i < n && o2[i] == x;
            if i < c {
                assert(o1[i] == x);
                assert(o1[i] != o1[c]);
            }
            assert(i > c);
            assert(goes_before(keys, y as int, x as int));
            lemma_goes_before_total(keys, x as int, y as int);
        }
    }
}

/// There is only one stable order of a list of keys.
pub proof fn lemma_stable_order_unique(keys: Seq<Seq<u64>>, o1: Seq<usize>, o2: Seq<usize>)
    requires
        stable_order(keys, o1),
        stable_order(keys, o2),
    ensures
        o1 == o2,
{
    lemma_orders_agree(keys, o1, o2, keys.len() as int);
    assert(o1 =~= o2);
}

/// Where a stable sort puts position `i`, whose key comes after the keys
/// of the positions `order[p..]`: after the last position whose key does
/// not come after it.
proof fn lemma_insertion_point(kv: Seq<Seq<u64>>, order: Seq<usize>, i: int, p: int) -> (q: int)
    requires
        0 <= p <= order.len(),
        forall|k: int| 0 <= k < order.len() ==> #[trigger] order[k] < kv.len(),
        forall|r: int| p <= r < order.len() ==> lex_lt(kv[i], kv[#[trigger] order[r] as int]),
    ensures
        0 <= q <= p,
        forall|r: int| q <= r < order.len() ==> lex_lt(kv[i], kv[#[trigger] order[r] as int]),
        q > 0 ==> !lex_lt(kv[i], kv[order[q - 1] as int]),
    decreases p,
{
    if p > 0 && lex_lt(kv[i], kv[order[p - 1] as int]) {
        lemma_insertion_point(kv, order, i, p - 1)
    } else {
        p
    }
}

/// Every list of keys that positions of type `usize` can count has a
/// stable order.
pub proof fn lemma_stable_order_exists(keys: Seq<Seq<u64>>)
    requires
        keys.len() <= usize::MAX,
    ensures
        stable_order(keys, sorted_positions(keys)),
    decreases keys.len(),
{
    let n = keys.len();
    if n == 0 {
        assert(stable_order(keys, Seq::<usize>::empty()));
    } else {
        let prev = keys.drop_last();
        lemma_stable_order_exists(prev);
        let o = sorted_positions(prev);
        let i = (n - 1) as int;
        assert forall|x: int, y: int| 0 <= x < i && 0 <= y < i implies goes_before(prev, x, y) == goes_before(
            keys,
            x,
            y,
        ) by {
            assert(prev[x] == keys[x] && prev[y] == keys[y]);
        }
        let p = lemma_insertion_point(keys, o, i, o.len() as int);
        if p > 0 {
            let last = o[p - 1] as int;
            lemma_lex_total(keys[i], keys[last]);
            assert(lex_le(keys[last], keys[i]));
            assert forall|a: int| 0 <= a < p implies lex_le(keys[#[trigger] o[a] as int], keys[i]) by {
                if a < p - 1 {
                    assert(goes_before(prev, o[a] as int, o[p - 1] as int));
                    lemma_lex_le_trans(keys[o[a] as int], keys[last], keys[i]);
                }
            }
        }
        let order = o.insert(p, i as usize);
        assert forall|a: int, b: int| 0 <= a < b < order.len() implies goes_before(
            keys,
            #[trigger] order[a] as int,
            #[trigger] order[b] as int,
        ) by {
            if b < p {
                assert(order[a] == o[a] && order[b] == o[b]);
                assert(goes_before(prev, o[a] as int, o[b] as int));
            } else if b == p {
                assert(order[a] == o[a]);
                assert(lex_le(keys[o[a] as int], keys[i]));
            } else if a == p {
                assert(order[b] == o[b - 1]);
                assert(lex_lt(keys[i], keys[o[b - 1] as int]));
            } else if a < p {
                assert(order[a] == o[a] && order[b] == o[b - 1]);
                assert(goes_before(prev, o[a] as int, o[b - 1] as int));
            } else {
                assert(order[a] == o[a - 1] && order[b] == o[b - 1]);
                assert(goes_before(prev, o[a - 1] as int, o[b - 1] as int));
            }
        }
        assert(stable_order(keys, order));
        lemma_stable_order_unique(keys, order, sorted_positions(keys));
    }
}

/// The positions of `keys` in the order of a stable sort by key: by key,
/// and among equal keys in their original order.
pub fn sort_positions(keys: &Vec<Vec<u64>>) -> (order: Vec<usize>)
    ensures
        stable_order(keys_view(keys@), order@),
        order@ == sorted_positions(keys_view(keys@)),
{
    let ghost kv = keys_view(keys@);
    let n = keys.len();
    let mut order: Vec<usize> = Vec::new();
    let mut i: usize = 0;
    while i < n
        invariant
            i <= n,
            n == keys@.len(),
            kv == keys_view(keys@),
            order@.len() == i,
            forall|k: int| 0 <= k < order@.len() ==> #[trigger] order@[k] < i,
            forall|a: int, b: int|
                0 <= a < b < order@.len() ==> goes_before(kv, #[trigger] order@[a] as int, #[trigger] order@[b] as int),
        decreases n - i,
    {
        let mut p: usize = i;
        while p > 0 && lex_less(&keys[i], &keys[order[p - 1]])
            invariant
                p <= i,
                i < n,
                n == keys@.len(),
                kv == keys_view(keys@),
                order@.len() == i,
                forall|k: int| 0 <= k < order@.len() ==> #[trigger] order@[k] < i,
                forall|q: int| p <= q < i ==> lex_lt(kv[i as int], kv[#[trigger] order@[q] as int]),
            decreases p,
        {
            p = p - 1;
        }
        let ghost old_order = order@;
        proof {
            if p > 0 {
                let last = old_order[p - 1] as int;
                lemma_lex_total(kv[i as int], kv[last]);
                assert(lex_le(kv[last], kv[i as int]));
                assert forall|a: int| 0 <= a < p implies lex_le(kv[#[trigger] old_order[a] as int], kv[i as int]) by {
                    if a < p - 1 {
                        assert(goes_before(kv, old_order[a] as int, old_order[p - 1] as int));
                        lemma_lex_le_trans(kv[old_order[a] as int], kv[last], kv[i as int]);
                    }
                }
            }
        }
        order.insert(p, i);
        proof {
            assert forall|a: int, b: int|
                0 <= a < b < order@.len() implies goes_before(kv, #[trigger] order@[a] as int, #[trigger] order@[b] as int) by {
                if b < p {
                    assert(order@[a] == old_order[a] && order@[b] == old_order[b]);
                } else if b == p {
                    assert(order@[a] == old_order[a]);
                    assert(lex_le(kv[old_order[a] as int], kv[i as int]));
                } else if a == p {
                    assert(order@[b] == old_order[b - 1]);
                    assert(lex_lt(kv[i as int], kv[old_order[b - 1] as int]));
                } else if a < p {
                    assert(order@[a] == old_order[a] && order@[b] == old_order[b - 1]);
                } else {
                    assert(order@[a] == old_order[a - 1] && order@[b] == old_order[b - 1]);
                }
            }
        }
        i = i + 1;
    }
    proof {
        assert(stable_order(kv, order@));
        assert(exists|o: Seq<usize>| stable_order(kv, o));
        lemma_stable_order_unique(kv, order@, sorted_positions(kv));
    }
    order
}

} // verus!
