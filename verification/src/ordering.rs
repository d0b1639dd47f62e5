//! Orderings and selections over integer sort keys, and cutting a
//! sequence into runs.
//!
//! Positions on the page are ordered by keys that keep the order of the
//! coordinates they stand for; a key pair is compared first on its first
//! component, then on its second.
use vstd::prelude::*;

verus! {

/// Key `a` comes strictly before key `b`.
pub open spec fn key_lt(a: (i64, i64), b: (i64, i64)) -> bool {
    a.0 < b.0 || (a.0 == b.0 && a.1 < b.1)
}

/// Key `a` comes no later than key `b`.
pub open spec fn key_le(a: (i64, i64), b: (i64, i64)) -> bool {
    key_lt(a, b) || a == b
}

/// Item `i` comes before item `j` in a stable sort by `keys`: its key is
/// smaller, or the keys are equal and `i` came first.
pub open spec fn sorts_before(keys: Seq<(i64, i64)>, i: int, j: int) -> bool {
    key_lt(keys[i], keys[j]) || (keys[i] == keys[j] && i < j)
}

/// `order` lists every index of `keys` once, in stable sorted order.
pub open spec fn is_stable_order(keys: Seq<(i64, i64)>, order: Seq<usize>) -> bool {
    &&& order.len() == keys.len()
    &&& forall|a: int| 0 <= a < order.len() ==> #[trigger] order[a] < keys.len()
    &&& forall|a: int, b: int|
        0 <= a < b < order.len() ==> sorts_before(keys, #[trigger] order[a] as int, #[trigger] order[b] as int)
    &&& forall|x: int| 0 <= x < keys.len() ==> #[trigger] order.contains(x as usize)
}

/// `items` rearranged by `order`: the item at position `k` of the result
/// is the item at position `order[k]` of `items`. `order` lists distinct
/// positions of `items`.
pub fn permute<T>(items: Vec<T>, order: &Vec<usize>) -> (out: Vec<T>)
    requires
        forall|a: int| 0 <= a < order@.len() ==> #[trigger] order@[a] < items@.len(),
        forall|a: int, b: int| 0 <= a < b < order@.len() ==> #[trigger] order@[a] != #[trigger] order@[b],
    ensures
        out@.len() == order@.len(),
        forall|k: int| 0 <= k < order@.len() ==> #[trigger] out@[k] == items@[order@[k] as int],
{
    let ghost orig = items@;
    let mut rest = items;
    // slots[i] holds item i until it is taken
    let mut slots: Vec<Option<T>> = Vec::new();
    while rest.len() > 0
        invariant
            slots@.len() + rest@.len() == orig.len(),
            forall|i: int| 0 <= i < slots@.len() ==> #[trigger] slots@[i] == Some(orig[i]),
            rest@ == orig.skip(slots@.len() as int),
        decreases rest@.len(),
    {
        let x = rest.remove(0);
        slots.push(Some(x));
        proof {
            assert(rest@ =~= orig.skip(slots@.len() as int));
        }
    }
    let mut out: Vec<T> = Vec::new();
    let mut k: usize = 0;
    while k < order.len()
        invariant
            k <= order@.len(),
            slots@.len() == orig.len(),
            out@.len() == k,
            forall|a: int| 0 <= a < order@.len() ==> #[trigger] order@[a] < orig.len(),
            forall|a: int, b: int| 0 <= a < b < order@.len() ==> #[trigger] order@[a] != #[trigger] order@[b],
            forall|j: int| 0 <= j < k ==> #[trigger] out@[j] == orig[order@[j] as int],
            forall|j: int|
                k <= j < order@.len() ==> slots@[#[trigger] order@[j] as int] == Some(orig[order@[j] as int]),
        decreases order@.len() - k,
    {
        let p = order[k];
        let ghost before = slots@;
        slots.push(None);
        let taken = slots.swap_remove(p);
        proof {
            assert(slots@ =~= before.update(p as int, None));
            assert forall|j: int| k + 1 <= j < order@.len() implies slots@[#[trigger] order@[j] as int] == Some(
                orig[order@[j] as int],
            ) by {
                assert(order@[k as int] != order@[j]);
            }
        }
        out.push(taken.unwrap());
        k = k + 1;
    }
    out
}

/// A stable order lists every index once, by ascending key: the first key
/// components ascend, equal first components are ordered by the second, and
/// items with equal keys keep their input order.
pub proof fn law_stable_order_ascends(keys: Seq<(i64, i64)>, order: Seq<usize>)
    requires
        is_stable_order(keys, order),
    ensures
        order.len() == keys.len(),
        forall|x: int| 0 <= x < keys.len() ==> #[trigger] order.contains(x as usize),
        forall|a: int, b: int|
            0 <= a < b < order.len() ==> {
                let p = keys[#[trigger] order[a] as int];
                let q = keys[#[trigger] order[b] as int];
                p.0 < q.0 || (p.0 == q.0 && p.1 < q.1) || (p == q && order[a] < order[b])
            },
{
    assert forall|a: int, b: int| 0 <= a < b < order.len() implies {
        let p = keys[#[trigger] order[a] as int];
        let q = keys[#[trigger] order[b] as int];
        p.0 < q.0 || (p.0 == q.0 && p.1 < q.1) || (p == q && order[a] < order[b])
    } by {
        assert(sorts_before(keys, order[a] as int, order[b] as int));
    }
}

fn key_le_exec(a: (i64, i64), b: (i64, i64)) -> (r: bool)
    ensures
        r == key_le(a, b),
{
    a.0 < b.0 || (a.0 == b.0 && a.1 <= b.1)
}

/// The stable sort of `0..keys.len()` by `keys`: the order in which a
/// stable sort by key visits the items (equal keys keep their input order).
pub fn stable_order(keys: &Vec<(i64, i64)>) -> (order: Vec<usize>)
    ensures
        is_stable_order(keys@, order@),
        forall|a: int, b: int| 0 <= a < b < order@.len() ==> order@[a] != order@[b],
{
    let n = keys.len();
    let mut order: Vec<usize> = Vec::new();
    let mut i: usize = 0;
    while i < n
        invariant
            n == keys@.len(),
            i <= n,
            order@.len() == i,
            forall|a: int| 0 <= a < order@.len() ==> #[trigger] order@[a] < i,
            forall|x: int| 0 <= x < i ==> #[trigger] order@.contains(x as usize),
            forall|a: int, b: int|
                0 <= a < b < order@.len() ==> sorts_before(
                    keys@,
                    #[trigger] order@[a] as int,
                    #[trigger] order@[b] as int,
                ),
        decreases n - i,
    {
        let ki = keys[i];
        let mut p: usize = 0;
        while p < order.len() && key_le_exec(keys[order[p]], ki)
            invariant
                n == keys@.len(),
                i < n,
                ki == keys@[i as int],
                p <= order@.len(),
                forall|a: int| 0 <= a < order@.len() ==> #[trigger] order@[a] < i,
                forall|a: int| 0 <= a < p ==> key_le(keys@[#[trigger] order@[a] as int], ki),
            decreases order@.len() - p,
        {
            p = p + 1;
        }
        proof {
            assert forall|a: int| p <= a < order@.len() implies key_lt(
                ki,
                keys@[#[trigger] order@[a] as int],
            ) by {
                assert(!key_le(keys@[order@[p as int] as int], ki));
                if a > p {
                    assert(sorts_before(keys@, order@[p as int] as int, order@[a] as int));
                }
            }
        }
        let ghost old_order = order@;
        order.insert(p, i);
        proof {
            assert forall|x: int| 0 <= x < i + 1 implies #[trigger] order@.contains(x as usize) by {
                if x == i {
                    assert(order@[p as int] == i);
                } else {
                    assert(old_order.contains(x as usize));
                    let a = choose|a: int| 0 <= a < old_order.len() && old_order[a] == x as usize;
                    if a < p {
                        assert(order@[a] == x as usize);
                    } else {
                        assert(order@[a + 1] == x as usize);
                    }
                }
            }
            assert forall|a: int, b: int|
                0 <= a < b < order@.len() implies sorts_before(
                keys@,
                #[trigger] order@[a] as int,
                #[trigger] order@[b] as int,
            ) by {
                if a < p && b == p {
                    assert(key_le(keys@[old_order[a] as int], ki));
                } else if a < p && b > p {
                    assert(order@[b] == old_order[b - 1]);
                    assert(sorts_before(keys@, old_order[a] as int, old_order[b - 1] as int));
                } else if a == p {
                    assert(order@[b] == old_order[b - 1]);
                    assert(key_lt(ki, keys@[old_order[b - 1] as int]));
                } else if a > p {
                    assert(order@[a] == old_order[a - 1]);
                    assert(order@[b] == old_order[b - 1]);
                    assert(sorts_before(keys@, old_order[a - 1] as int, old_order[b - 1] as int));
                } else {
                    assert(sorts_before(keys@, old_order[a] as int, old_order[b] as int));
                }
            }
        }
        i = i + 1;
    }
    proof {
        assert forall|a: int, b: int| 0 <= a < b < order@.len() implies order@[a] != order@[b] by {
            assert(sorts_before(keys@, order@[a] as int, order@[b] as int));
        }
    }
    order
}

/// `r` is the index of the last greatest key of `keys` (the item that a
/// maximum search keeping the later of equal items returns).
pub open spec fn is_last_greatest(keys: Seq<(i64, i64)>, r: int) -> bool {
    &&& 0 <= r < keys.len()
    &&& forall|j: int| 0 <= j < keys.len() ==> key_le(#[trigger] keys[j], keys[r])
    &&& forall|j: int| r < j < keys.len() ==> key_lt(#[trigger] keys[j], keys[r])
}

/// The key chosen by `last_greatest` is the lexicographic maximum: every key
/// has a smaller first component, or the same first component and a second
/// component no greater; every later key is strictly smaller in that order,
/// so among equal greatest keys the last is chosen.
pub proof fn law_last_greatest_is_lexicographic_max(keys: Seq<(i64, i64)>, r: int)
    requires
        is_last_greatest(keys, r),
    ensures
        0 <= r < keys.len(),
        forall|j: int|
            0 <= j < keys.len() ==> (#[trigger] keys[j]).0 < keys[r].0 || (keys[j].0 == keys[r].0
                && keys[j].1 <= keys[r].1),
        forall|j: int|
            r < j < keys.len() ==> (#[trigger] keys[j]).0 < keys[r].0 || (keys[j].0 == keys[r].0
                && keys[j].1 < keys[r].1),
{
    assert forall|j: int| 0 <= j < keys.len() implies (#[trigger] keys[j]).0 < keys[r].0 || (keys[j].0
        == keys[r].0 && keys[j].1 <= keys[r].1) by {
        assert(key_le(keys[j], keys[r]));
    }
    assert forall|j: int| r < j < keys.len() implies (#[trigger] keys[j]).0 < keys[r].0 || (keys[j].0
        == keys[r].0 && keys[j].1 < keys[r].1) by {
        assert(key_lt(keys[j], keys[r]));
    }
}

/// With one candidate only, its key cannot matter: it is the one chosen.
pub proof fn law_single_candidate_chosen(keys: Seq<(i64, i64)>)
    requires
        keys.len() == 1,
    ensures
        is_last_greatest(keys, 0),
{
}

/// The index of the greatest key, the last one among equal greatest keys;
/// `None` when there are no keys.
pub fn last_greatest(keys: &Vec<(i64, i64)>) -> (r: Option<usize>)
    ensures
        r is None <==> keys@.len() == 0,
        r matches Some(k) ==> is_last_greatest(keys@, k as int),
{
    if keys.len() == 0 {
        return None;
    }
    let mut best: usize = 0;
    let mut i: usize = 1;
    while i < keys.len()
        invariant
            1 <= i <= keys@.len(),
            best < i,
            forall|j: int| 0 <= j < i ==> key_le(#[trigger] keys@[j], keys@[best as int]),
            forall|j: int| best < j < i ==> key_lt(#[trigger] keys@[j], keys@[best as int]),
        decreases keys@.len() - i,
    {
        if key_le_exec(keys[best], keys[i]) {
            best = i;
        }
        i = i + 1;
    }
    Some(best)
}

/// How many entries of `s` hold.
pub open spec fn count_true(s: Seq<bool>) -> nat
    decreases s.len(),
{
    if s.len() == 0 {
        0
    } else {
        count_true(s.drop_last()) + if s.last() {
            1nat
        } else {
            0nat
        }
    }
}

/// How many entries of `s` do not hold.
pub open spec fn count_false(s: Seq<bool>) -> nat {
    (s.len() - count_true(s)) as nat
}

/// When every entry is `b`, all of them hold or none does.
pub proof fn lemma_count_true_constant(flags: Seq<bool>, b: bool)
    requires
        forall|i: int| 0 <= i < flags.len() ==> #[trigger] flags[i] == b,
    ensures
        count_true(flags) == if b {
            flags.len()
        } else {
            0
        },
    decreases flags.len(),
{
    if flags.len() > 0 {
        let front = flags.drop_last();
        assert forall|i: int| 0 <= i < front.len() implies #[trigger] front[i] == b by {
            assert(front[i] == flags[i]);
        }
        lemma_count_true_constant(front, b);
    }
}

/// At most every entry holds.
pub proof fn lemma_count_true_bound(s: Seq<bool>)
    ensures
        count_true(s) <= s.len(),
    decreases s.len(),
{
    if s.len() > 0 {
        lemma_count_true_bound(s.drop_last());
    }
}

proof fn lemma_count_true_push(s: Seq<bool>, b: bool)
    ensures
        count_true(s.push(b)) == count_true(s) + if b {
            1nat
        } else {
            0nat
        },
{
    assert(s.push(b).drop_last() =~= s);
}

/// Counts the entries of `flags` that hold.
pub fn count_set(flags: &Vec<bool>) -> (c: usize)
    ensures
        c == count_true(flags@),
        c <= flags@.len(),
{
    let mut c: usize = 0;
    let mut i: usize = 0;
    while i < flags.len()
        invariant
            i <= flags@.len(),
            c == count_true(flags@.take(i as int)),
            c <= i,
        decreases flags@.len() - i,
    {
        proof {
            assert(flags@.take(i + 1) =~= flags@.take(i as int).push(flags@[i as int]));
            lemma_count_true_push(flags@.take(i as int), flags@[i as int]);
        }
        if flags[i] {
            c = c + 1;
        }
        i = i + 1;
    }
    proof {
        assert(flags@.take(i as int) =~= flags@);
    }
    c
}

/// `runs` cut `0..n` into consecutive non-empty runs: items `j` and `j + 1`
/// share a run exactly when `joins[j]` holds.
pub open spec fn runs_ok(n: int, joins: Seq<bool>, runs: Seq<(usize, usize)>) -> bool {
    &&& (runs.len() == 0 <==> n == 0)
    &&& runs.len() > 0 ==> runs[0].0 == 0 && runs.last().1 == n
    &&& forall|k: int| 0 <= k < runs.len() ==> (#[trigger] runs[k]).0 < runs[k].1
    &&& forall|k: int| 0 <= k < runs.len() - 1 ==> (#[trigger] runs[k]).1 == runs[k + 1].0
    &&& forall|k: int, j: int|
        0 <= k < runs.len() && (#[trigger] runs[k]).0 <= j < runs[k].1 - 1 ==> #[trigger] joins[j]
    &&& forall|k: int| 0 <= k < runs.len() - 1 ==> !joins[(#[trigger] runs[k]).1 - 1]
}

/// Cuts `n` items into maximal runs; `joins[j]` says whether items `j` and
/// `j + 1` belong together.
pub fn runs(n: usize, joins: &Vec<bool>) -> (result: Vec<(usize, usize)>)
    requires
        n == 0 ==> joins@.len() == 0,
        n > 0 ==> joins@.len() == n - 1,
    ensures
        runs_ok(n as int, joins@, result@),
        n > 0 ==> result@.len() == count_false(joins@) + 1,
{
    let mut result: Vec<(usize, usize)> = Vec::new();
    if n == 0 {
        return result;
    }
    let mut start: usize = 0;
    let mut k: usize = 1;
    while k < n
        invariant
            joins@.len() == n - 1,
            1 <= k <= n,
            start < k,
            result@.len() == 0 ==> start == 0,
            result@.len() > 0 ==> result@[0].0 == 0 && result@.last().1 == start,
            forall|q: int| 0 <= q < result@.len() ==> (#[trigger] result@[q]).0 < result@[q].1,
            forall|q: int|
                0 <= q < result@.len() - 1 ==> (#[trigger] result@[q]).1 == result@[q + 1].0,
            forall|q: int, j: int|
                0 <= q < result@.len() && (#[trigger] result@[q]).0 <= j < result@[q].1 - 1
                    ==> #[trigger] joins@[j],
            forall|q: int| 0 <= q < result@.len() ==> !joins@[(#[trigger] result@[q]).1 - 1],
            forall|j: int| start <= j < k - 1 ==> #[trigger] joins@[j],
            result@.len() == count_false(joins@.take(k - 1)),
        decreases n - k,
    {
        proof {
            assert(joins@.take(k as int) =~= joins@.take(k - 1).push(joins@[k - 1]));
            lemma_count_true_push(joins@.take(k - 1), joins@[k - 1]);
            lemma_count_true_bound(joins@.take(k - 1));
        }
        if !joins[k - 1] {
            result.push((start, k));
            start = k;
        }
        k = k + 1;
    }
    proof {
        assert(joins@.take(k - 1) =~= joins@);
    }
    result.push((start, n));
    result
}

} // verus!
