//! Stable orders: the permutation by which a stable sort would list values by a key.
use vstd::prelude::*;

use crate::text::seq_lt;

verus! {

/// `order` lists each index below `n` exactly once.
pub open spec fn is_permutation(order: Seq<usize>, n: nat) -> bool {
    &&& order.len() == n
    &&& forall|i: int| 0 <= i < order.len() ==> #[trigger] order[i] < n
    &&& forall|i: int, j: int| 0 <= i < j < order.len() ==> order[i] != order[j]
}

/// `order` lists the indices of `keys` as a stable sort by `le` would: by key, and
/// indices of equal keys in their original order.
pub open spec fn is_stable_order<K>(order: Seq<usize>, keys: Seq<K>, le: spec_fn(K, K) -> bool) -> bool {
    is_stable_prefix_order(order, keys, keys.len(), le)
}

/// `order` is the stable order of the first `n` keys.
pub open spec fn is_stable_prefix_order<K>(
    order: Seq<usize>,
    keys: Seq<K>,
    n: nat,
    le: spec_fn(K, K) -> bool,
) -> bool {
    &&& n <= keys.len()
    &&& is_permutation(order, n)
    &&& forall|i: int, j: int|
        #![trigger order[i], order[j]]
        0 <= i < j < order.len() ==> le(keys[order[i] as int], keys[order[j] as int])
    &&& forall|i: int, j: int|
        #![trigger order[i], order[j]]
        0 <= i < j < order.len() && le(keys[order[j] as int], keys[order[i] as int]) ==> order[i]
            < order[j]
}

/// The order of numbers.
pub open spec fn number_order() -> spec_fn(usize, usize) -> bool {
    |a: usize, b: usize| a <= b
}

/// The order of names: `a` does not come after `b`.
pub open spec fn name_order() -> spec_fn(Seq<char>, Seq<char>) -> bool {
    |a: Seq<char>, b: Seq<char>| !seq_lt(b, a)
}

/// `seq_lt` is transitive.
pub proof fn lemma_seq_lt_transitive(a: Seq<char>, b: Seq<char>, c: Seq<char>)
    requires
        seq_lt(a, b),
        seq_lt(b, c),
    ensures
        seq_lt(a, c),
    decreases a.len(),
{
    if a.len() > 0 && b.len() > 0 && c.len() > 0 && a[0] == b[0] && b[0] == c[0] {
        lemma_seq_lt_transitive(a.drop_first(), b.drop_first(), c.drop_first());
    }
}

/// Of two different sequences, one comes before the other.
pub proof fn lemma_seq_lt_total(a: Seq<char>, b: Seq<char>)
    requires
        a != b,
    ensures
        seq_lt(a, b) || seq_lt(b, a),
    decreases a.len(),
{
    if a.len() > 0 && b.len() > 0 && a[0] == b[0] {
        if a.drop_first() == b.drop_first() {
            assert(a =~= seq![a[0]] + a.drop_first());
            assert(b =~= seq![b[0]] + b.drop_first());
        }
        lemma_seq_lt_total(a.drop_first(), b.drop_first());
    } else if a.len() == 0 && b.len() == 0 {
        assert(a =~= b);
    }
}

/// No sequence comes before itself.
pub proof fn lemma_seq_lt_irreflexive(a: Seq<char>)
    ensures
        !seq_lt(a, a),
    decreases a.len(),
{
    if a.len() > 0 {
        lemma_seq_lt_irreflexive(a.drop_first());
    }
}

/// `le` orders all values and is transitive, as `<=` on numbers and on names does.
pub open spec fn total_preorder<K>(le: spec_fn(K, K) -> bool) -> bool {
    &&& forall|a: K, b: K| #![trigger le(a, b)] le(a, b) || le(b, a)
    &&& forall|a: K, b: K, c: K| #![trigger le(a, b), le(b, c)] le(a, b) && le(b, c) ==> le(a, c)
}

/// Numbers are totally preordered.
pub proof fn lemma_number_order_total()
    ensures
        total_preorder(number_order()),
{
}

/// Names are totally preordered.
pub proof fn lemma_name_order_total()
    ensures
        total_preorder(name_order()),
{
    let le = name_order();
    assert forall|a: Seq<char>, b: Seq<char>| #![trigger le(a, b)] le(a, b) || le(b, a) by {
        if a != b {
            lemma_seq_lt_total(a, b);
            if seq_lt(a, b) && seq_lt(b, a) {
                lemma_seq_lt_transitive(a, b, a);
                lemma_seq_lt_irreflexive(a);
            }
        } else {
            lemma_seq_lt_irreflexive(a);
        }
    }
    assert forall|a: Seq<char>, b: Seq<char>, c: Seq<char>|
        #![trigger le(a, b), le(b, c)]
        le(a, b) && le(b, c) implies le(a, c) by {
        if seq_lt(c, a) {
            if a == b {
            } else if b == c {
            } else {
                lemma_seq_lt_total(a, b);
                lemma_seq_lt_transitive(c, a, b);
            }
        }
    }
}

/// Inserting the next index where the keys before it are no greater and the key at it
/// is greater keeps the order stable.
pub proof fn lemma_insert_stable<K>(
    order: Seq<usize>,
    keys: Seq<K>,
    k: nat,
    pos: int,
    le: spec_fn(K, K) -> bool,
)
    requires
        total_preorder(le),
        k < keys.len(),
        k <= usize::MAX,
        is_stable_prefix_order(order, keys, k, le),
        0 <= pos <= order.len(),
        forall|i: int| 0 <= i < pos ==> #[trigger] le(keys[order[i] as int], keys[k as int]),
        pos < order.len() ==> !le(keys[order[pos] as int], keys[k as int]),
    ensures
        is_stable_prefix_order(order.insert(pos, k as usize), keys, k + 1, le),
{
    let key = keys[k as int];
    let next = order.insert(pos, k as usize);
    assert(next[pos] == k);
    assert forall|i: int| 0 <= i < next.len() implies #[trigger] next[i] < k + 1 by {
        if i < pos {
            assert(next[i] == order[i]);
        } else if i > pos {
            assert(next[i] == order[i - 1]);
        }
    }
    assert forall|i: int, j: int| 0 <= i < j < next.len() implies next[i] != next[j] by {
        if i < pos && j < pos {
            assert(next[i] == order[i] && next[j] == order[j]);
        } else if i < pos && j == pos {
            assert(order[i] < k);
        } else if i < pos {
            assert(next[i] == order[i] && next[j] == order[j - 1]);
        } else if i == pos {
            assert(order[j - 1] < k);
        } else {
            assert(next[i] == order[i - 1] && next[j] == order[j - 1]);
        }
    }
    assert forall|i: int, j: int|
        #![trigger next[i], next[j]]
        0 <= i < j < next.len() implies le(keys[next[i] as int], keys[next[j] as int]) by {
        if i < pos && j < pos {
            assert(next[i] == order[i] && next[j] == order[j]);
        } else if i < pos && j == pos {
            assert(next[i] == order[i]);
        } else if i < pos {
            assert(next[i] == order[i] && next[j] == order[j - 1]);
        } else if i == pos {
            let first = keys[order[pos] as int];
            let other = keys[order[j - 1] as int];
            assert(next[j] == order[j - 1]);
            assert(le(key, first) || le(first, key));
            if j - 1 > pos {
                assert(le(first, other));
            }
        } else {
            assert(next[i] == order[i - 1] && next[j] == order[j - 1]);
        }
    }
    assert forall|i: int, j: int|
        #![trigger next[i], next[j]]
        0 <= i < j < next.len() && le(keys[next[j] as int], keys[next[i] as int]) implies next[i]
            < next[j] by {
        if i < pos && j < pos {
            assert(next[i] == order[i] && next[j] == order[j]);
        } else if i < pos && j == pos {
            assert(next[i] == order[i]);
            assert(order[i] < k);
        } else if i < pos {
            assert(next[i] == order[i] && next[j] == order[j - 1]);
        } else if i == pos {
            let first = keys[order[pos] as int];
            let other = keys[order[j - 1] as int];
            assert(next[j] == order[j - 1]);
            if j - 1 > pos {
                assert(le(first, other));
            }
            assert(!le(other, key));
        } else {
            assert(next[i] == order[i - 1] && next[j] == order[j - 1]);
        }
    }
}

/// The first position from `i` on whose key is greater than `key`, or the end.
pub open spec fn insertion_point<K>(
    order: Seq<usize>,
    keys: Seq<K>,
    key: K,
    le: spec_fn(K, K) -> bool,
    i: int,
) -> int
    decreases order.len() - i,
{
    if i < 0 || i >= order.len() || !le(keys[order[i] as int], key) {
        i
    } else {
        insertion_point(order, keys, key, le, i + 1)
    }
}

proof fn lemma_insertion_point<K>(
    order: Seq<usize>,
    keys: Seq<K>,
    key: K,
    le: spec_fn(K, K) -> bool,
    i: int,
)
    requires
        0 <= i <= order.len(),
    ensures
        i <= insertion_point(order, keys, key, le, i) <= order.len(),
        forall|j: int| i <= j < insertion_point(order, keys, key, le, i) ==> #[trigger] le(keys[order[j] as int], key),
        insertion_point(order, keys, key, le, i) < order.len() ==> !le(
            keys[order[insertion_point(order, keys, key, le, i)] as int],
            key,
        ),
    decreases order.len() - i,
{
    if i < order.len() && le(keys[order[i] as int], key) {
        lemma_insertion_point(order, keys, key, le, i + 1);
    }
}

/// A stable order of the first `n` keys exists.
proof fn lemma_stable_prefix_exists<K>(keys: Seq<K>, le: spec_fn(K, K) -> bool, n: nat) -> (order: Seq<usize>)
    requires
        total_preorder(le),
        n <= keys.len(),
        keys.len() <= usize::MAX,
    ensures
        is_stable_prefix_order(order, keys, n, le),
    decreases n,
{
    if n == 0 {
        Seq::empty()
    } else {
        let before = lemma_stable_prefix_exists(keys, le, (n - 1) as nat);
        let key = keys[n - 1];
        lemma_insertion_point(before, keys, key, le, 0);
        let pos = insertion_point(before, keys, key, le, 0);
        lemma_insert_stable(before, keys, (n - 1) as nat, pos, le);
        before.insert(pos, (n - 1) as usize)
    }
}

/// A stable sort by a total preorder lists the keys in order, equal keys in their
/// original order: `stable_sort` names such an order.
pub proof fn lemma_stable_sort_exists<K>(keys: Seq<K>, le: spec_fn(K, K) -> bool)
    requires
        total_preorder(le),
        keys.len() <= usize::MAX,
    ensures
        is_stable_order(stable_sort(keys, le), keys, le),
{
    let order = lemma_stable_prefix_exists(keys, le, keys.len());
    lemma_stable_sort_is(order, keys, le);
}

/// Keys already in order are left in place: a stable sort of them is the identity, so
/// sorting a second time changes nothing.
pub proof fn lemma_stable_sort_of_sorted<K>(keys: Seq<K>, le: spec_fn(K, K) -> bool)
    requires
        keys.len() <= usize::MAX,
        forall|i: int, j: int| 0 <= i < j < keys.len() ==> le(#[trigger] keys[i], #[trigger] keys[j]),
    ensures
        stable_sort(keys, le) == Seq::new(keys.len(), |i: int| i as usize),
{
    let identity = Seq::new(keys.len(), |i: int| i as usize);
    assert(is_stable_order(identity, keys, le)) by {
        assert forall|i: int, j: int|
            #![trigger identity[i], identity[j]]
            0 <= i < j < identity.len() implies le(keys[identity[i] as int], keys[identity[j] as int]) by {
            assert(identity[i] as int == i && identity[j] as int == j);
        }
    }
    lemma_stable_sort_is(identity, keys, le);
}

/// The stable order of a list of numbers.
pub fn stable_order_by_number(keys: &Vec<usize>) -> (order: Vec<usize>)
    ensures
        is_stable_order(order@, keys@, number_order()),
{
    let ghost le = number_order();
    proof {
        lemma_number_order_total();
    }
    let mut order: Vec<usize> = Vec::new();
    let mut k: usize = 0;
    while k < keys.len()
        invariant
            0 <= k <= keys@.len(),
            le == number_order(),
            total_preorder(le),
            is_stable_prefix_order(order@, keys@, k as nat, le),
        decreases keys@.len() - k,
    {
        let key = keys[k];
        let mut pos: usize = 0;
        while pos < order.len() && keys[order[pos]] <= key
            invariant
                0 <= k < keys@.len(),
                0 <= pos <= order@.len(),
                le == number_order(),
                is_stable_prefix_order(order@, keys@, k as nat, le),
                key == keys@[k as int],
                forall|i: int| 0 <= i < pos ==> #[trigger] le(keys@[order@[i] as int], key),
            decreases order@.len() - pos,
        {
            pos = pos + 1;
        }
        proof {
            lemma_insert_stable(order@, keys@, k as nat, pos as int, le);
        }
        order.insert(pos, k);
        k = k + 1;
    }
    order
}

/// The stable order of a list of names.
pub fn stable_order_by_name(keys: &Vec<String>) -> (order: Vec<usize>)
    ensures
        is_stable_order(order@, names_of(keys@), name_order()),
{
    let ghost le = name_order();
    let ghost names = names_of(keys@);
    proof {
        lemma_name_order_total();
    }
    let mut order: Vec<usize> = Vec::new();
    let mut k: usize = 0;
    while k < keys.len()
        invariant
            names == names_of(keys@),
            0 <= k <= keys@.len(),
            le == name_order(),
            total_preorder(le),
            is_stable_prefix_order(order@, names, k as nat, le),
        decreases keys@.len() - k,
    {
        let key = &keys[k];
        let mut pos: usize = 0;
        while pos < order.len() && !crate::rules::error_variants::check::string_lt(key, &keys[order[pos]])
            invariant
                names == names_of(keys@),
                0 <= k < keys@.len(),
                0 <= pos <= order@.len(),
                le == name_order(),
                is_stable_prefix_order(order@, names, k as nat, le),
                *key == keys@[k as int],
                forall|i: int| 0 <= i < pos ==> #[trigger] le(names[order@[i] as int], names[k as int]),
            decreases order@.len() - pos,
        {
            pos = pos + 1;
        }
        proof {
            lemma_insert_stable(order@, names, k as nat, pos as int, le);
        }
        order.insert(pos, k);
        k = k + 1;
    }
    order
}

/// The order in which a stable sort by `le` lists the indices of `keys`.
pub open spec fn stable_sort<K>(keys: Seq<K>, le: spec_fn(K, K) -> bool) -> Seq<usize> {
    choose|order: Seq<usize>| is_stable_order(order, keys, le)
}

/// A stable order of the keys is the one that `stable_sort` names.
pub proof fn lemma_stable_sort_is<K>(order: Seq<usize>, keys: Seq<K>, le: spec_fn(K, K) -> bool)
    requires
        is_stable_order(order, keys, le),
    ensures
        stable_sort(keys, le) == order,
{
    assert(exists|o: Seq<usize>| is_stable_order(o, keys, le));
    lemma_stable_order_unique(order, stable_sort(keys, le), keys, le);
}

/// Every index below `n` occurs in a permutation of `n` indices.
pub proof fn lemma_permutation_onto(order: Seq<usize>, n: nat, x: usize)
    requires
        is_permutation(order, n),
        x < n,
    ensures
        exists|i: int| 0 <= i < order.len() && order[i] == x,
{
    broadcast use vstd::seq_lib::seq_to_set_is_finite;

    let values = order.map_values(|v: usize| v as int);
    assert(values.no_duplicates()) by {
        assert forall|i: int, j: int| 0 <= i < values.len() && 0 <= j < values.len() && i != j
            implies values[i] != values[j] by {
            if i < j {
                assert(order[i] != order[j]);
            } else {
                assert(order[j] != order[i]);
            }
        }
    }
    values.unique_seq_to_set();
    vstd::set_lib::lemma_int_range(0, n as int);
    let range = vstd::set_lib::set_int_range(0, n as int);
    assert(values.to_set().subset_of(range)) by {
        assert forall|v: int| values.to_set().contains(v) implies range.contains(v) by {
            let i = choose|i: int| 0 <= i < values.len() && values[i] == v;
            assert(order[i] < n);
        }
    }
    vstd::set_lib::lemma_subset_equality(values.to_set(), range);
    assert(range.contains(x as int));
    assert(values.to_set().contains(x as int));
    let i = choose|i: int| 0 <= i < values.len() && values[i] == x as int;
    assert(order[i] == x);
}

/// Two stable orders of the same keys are the same: a stable sort has one result.
pub proof fn lemma_stable_order_unique<K>(a: Seq<usize>, b: Seq<usize>, keys: Seq<K>, le: spec_fn(K, K) -> bool)
    requires
        is_stable_order(a, keys, le),
        is_stable_order(b, keys, le),
    ensures
        a == b,
{
    assert forall|i: int| 0 <= i < a.len() implies a[i] == b[i] by {
        lemma_stable_orders_agree_at(a, b, keys, le, i);
    }
    assert(a =~= b);
}

/// Two stable orders of the same keys agree at each position, by induction on it.
proof fn lemma_stable_orders_agree_at<K>(a: Seq<usize>, b: Seq<usize>, keys: Seq<K>, le: spec_fn(K, K) -> bool, i: int)
    requires
        is_stable_order(a, keys, le),
        is_stable_order(b, keys, le),
        0 <= i < a.len(),
    ensures
        a[i] == b[i],
    decreases i,
{
    let n = keys.len();
    assert forall|p: int| 0 <= p < i implies a[p] == b[p] by {
        lemma_stable_orders_agree_at(a, b, keys, le, p);
    }
    let x = a[i];
    let y = b[i];
    if x != y {
        lemma_permutation_onto(b, n, x);
        let j = choose|j: int| 0 <= j < b.len() && b[j] == x;
        lemma_permutation_onto(a, n, y);
        let k = choose|k: int| 0 <= k < a.len() && a[k] == y;
        if j < i {
            assert(a[j] == b[j]);
            assert(a[j] != a[i]);
        }
        if k < i {
            assert(a[k] == b[k]);
            assert(b[k] != b[i]);
        }
        assert(j != i && k != i);
        assert(le(keys[a[i] as int], keys[a[k] as int]));
        assert(le(keys[b[i] as int], keys[b[j] as int]));
        assert(x < y);
        assert(y < x);
    }
}

/// The views of a list of names.
pub open spec fn names_of(keys: Seq<String>) -> Seq<Seq<char>> {
    keys.map_values(|s: String| s@)
}

} // verus!
