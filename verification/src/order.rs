//! Sorting by a key without losing the order of equals.

use vstd::prelude::*;

verus! {

/// `a` comes before `b`: by key, and by place where the keys are equal.
pub open spec fn earlier(keys: Seq<i128>, a: int, b: int) -> bool {
    keys[a] < keys[b] || (keys[a] == keys[b] && a < b)
}

/// The places are in the order of their keys; equal keys keep their order.
pub open spec fn in_order(keys: Seq<i128>, order: Seq<usize>) -> bool {
    forall|i: int, j: int|
        0 <= i < j < order.len() ==> earlier(keys, #[trigger] order[i] as int, #[trigger] order[j] as int)
}

pub open spec fn has_place(order: Seq<usize>, p: int) -> bool {
    exists|i: int| 0 <= i < order.len() && #[trigger] order[i] == p
}

/// The list holds exactly the places from `lo` up to `hi`, each once.
pub open spec fn places(order: Seq<usize>, lo: int, hi: int) -> bool {
    &&& order.len() == hi - lo
    &&& forall|i: int| 0 <= i < order.len() ==> lo <= #[trigger] order[i] < hi
    &&& forall|p: int| lo <= p < hi ==> #[trigger] has_place(order, p)
}

fn is_earlier(keys: &[i128], a: usize, b: usize) -> (r: bool)
    requires
        a < keys@.len(),
        b < keys@.len(),
    ensures
        r == earlier(keys@, a as int, b as int),
{
    keys[a] < keys[b] || (keys[a] == keys[b] && a < b)
}

fn merge(keys: &[i128], left: &Vec<usize>, right: &Vec<usize>, lo: usize, mid: usize, hi: usize) -> (r:
    Vec<usize>)
    requires
        lo <= mid <= hi <= keys@.len(),
        places(left@, lo as int, mid as int),
        places(right@, mid as int, hi as int),
        in_order(keys@, left@),
        in_order(keys@, right@),
    ensures
        places(r@, lo as int, hi as int),
        in_order(keys@, r@),
{
    let mut out: Vec<usize> = Vec::new();
    let mut i: usize = 0;
    let mut j: usize = 0;
    let n: usize = hi - lo;
    while out.len() < n
        invariant
            lo <= mid <= hi <= keys@.len(),
            n == hi - lo,
            i <= left@.len(),
            j <= right@.len(),
            left@.len() == mid - lo,
            right@.len() == hi - mid,
            out@.len() == i + j,
            places(left@, lo as int, mid as int),
            places(right@, mid as int, hi as int),
            in_order(keys@, left@),
            in_order(keys@, right@),
            in_order(keys@, out@),
            forall|k: int| 0 <= k < out@.len() ==> lo <= #[trigger] out@[k] < hi,
            forall|k: int, l: int|
                0 <= k < out@.len() && i <= l < left@.len() ==> earlier(
                    keys@,
                    #[trigger] out@[k] as int,
                    #[trigger] left@[l] as int,
                ),
            forall|k: int, l: int|
                0 <= k < out@.len() && j <= l < right@.len() ==> earlier(
                    keys@,
                    #[trigger] out@[k] as int,
                    #[trigger] right@[l] as int,
                ),
            forall|l: int| 0 <= l < i ==> out@.contains(#[trigger] left@[l]),
            forall|l: int| 0 <= l < j ==> out@.contains(#[trigger] right@[l]),
        decreases n - out@.len(),
    {
        let ghost before = out@;
        let take_left = if i == left.len() {
            false
        } else if j == right.len() {
            true
        } else {
            is_earlier(keys, left[i], right[j])
        };
        if take_left {
            let v: usize = left[i];
            out.push(v);
            assert(out@[before.len() as int] == v);
            assert forall|l: int| 0 <= l < i + 1 implies out@.contains(#[trigger] left@[l]) by {
                if l < i {
                    let k = choose|k: int| 0 <= k < before.len() && before[k] == left@[l];
                    assert(out@[k] == left@[l]);
                }
            }
            assert forall|l: int| 0 <= l < j implies out@.contains(#[trigger] right@[l]) by {
                let k = choose|k: int| 0 <= k < before.len() && before[k] == right@[l];
                assert(out@[k] == right@[l]);
            }
            assert forall|l: int| j <= l < right@.len() implies earlier(
                keys@,
                v as int,
                #[trigger] right@[l] as int,
            ) by {
                if l > j {
                    assert(earlier(keys@, right@[j as int] as int, right@[l] as int));
                }
            }
            i += 1;
        } else {
            let v: usize = right[j];
            out.push(v);
            assert(out@[before.len() as int] == v);
            assert forall|l: int| 0 <= l < j + 1 implies out@.contains(#[trigger] right@[l]) by {
                if l < j {
                    let k = choose|k: int| 0 <= k < before.len() && before[k] == right@[l];
                    assert(out@[k] == right@[l]);
                }
            }
            assert forall|l: int| 0 <= l < i implies out@.contains(#[trigger] left@[l]) by {
                let k = choose|k: int| 0 <= k < before.len() && before[k] == left@[l];
                assert(out@[k] == left@[l]);
            }
            assert forall|l: int| i <= l < left@.len() implies earlier(
                keys@,
                v as int,
                #[trigger] left@[l] as int,
            ) by {
                if l > i {
                    assert(earlier(keys@, left@[i as int] as int, left@[l] as int));
                }
                assert(left@[i as int] < mid <= v);
            }
            j += 1;
        }
    }
    proof {
        assert forall|p: int| lo <= p < hi implies #[trigger] has_place(out@, p) by {
            if p < mid {
                assert(has_place(left@, p));
                let l = choose|l: int| 0 <= l < left@.len() && #[trigger] left@[l] == p;
                assert(out@.contains(left@[l]));
            } else {
                assert(has_place(right@, p));
                let l = choose|l: int| 0 <= l < right@.len() && #[trigger] right@[l] == p;
                assert(out@.contains(right@[l]));
            }
        }
    }
    out
}

fn sort_range(keys: &[i128], lo: usize, hi: usize) -> (r: Vec<usize>)
    requires
        lo <= hi <= keys@.len(),
    ensures
        places(r@, lo as int, hi as int),
        in_order(keys@, r@),
    decreases hi - lo,
{
    if hi - lo == 0 {
        Vec::new()
    } else if hi - lo == 1 {
        let mut out: Vec<usize> = Vec::new();
        out.push(lo);
        assert(out@[0] == lo);
        out
    } else {
        let mid: usize = lo + (hi - lo) / 2;
        let left = sort_range(keys, lo, mid);
        let right = sort_range(keys, mid, hi);
        merge(keys, &left, &right, lo, mid, hi)
    }
}

/// The places of the keys in ascending order of the keys; equal keys keep their
/// order.
pub fn sorted_order(keys: &[i128]) -> (r: Vec<usize>)
    ensures
        places(r@, 0, keys@.len() as int),
        in_order(keys@, r@),
{
    sort_range(keys, 0, keys.len())
}

/// Two places of such a list are different.
pub proof fn lemma_order_distinct(keys: Seq<i128>, order: Seq<usize>, i: int, j: int)
    requires
        in_order(keys, order),
        0 <= i < order.len(),
        0 <= j < order.len(),
        order[i] == order[j],
    ensures
        i == j,
{
    if i < j {
        assert(earlier(keys, order[i] as int, order[j] as int));
    } else if j < i {
        assert(earlier(keys, order[j] as int, order[i] as int));
    }
}

/// `r` holds the items of `s` at the places of `o`.
pub open spec fn picked<T>(r: Seq<T>, s: Seq<T>, o: Seq<usize>) -> bool {
    &&& r.len() == o.len()
    &&& forall|i: int| 0 <= i < o.len() ==> #[trigger] r[i] == s[o[i] as int]
}

/// `r` is `s` in the order of the keys; items of one key keep their order.
pub open spec fn is_stable_sort<T>(r: Seq<T>, s: Seq<T>, keys: Seq<i128>) -> bool {
    exists|o: Seq<usize>|
        in_order(keys, o) && places(o, 0, s.len() as int) && #[trigger] picked(r, s, o)
}

proof fn lemma_order_unique(keys: Seq<i128>, a: Seq<usize>, b: Seq<usize>, n: int)
    requires
        in_order(keys, a),
        in_order(keys, b),
        places(a, 0, n),
        places(b, 0, n),
    ensures
        a == b,
{
    assert forall|i: int| 0 <= i < a.len() implies a[i] == b[i] by {
        lemma_order_agrees(keys, a, b, n, i);
    }
    assert(a =~= b);
}

proof fn lemma_order_agrees(keys: Seq<i128>, a: Seq<usize>, b: Seq<usize>, n: int, i: int)
    requires
        in_order(keys, a),
        in_order(keys, b),
        places(a, 0, n),
        places(b, 0, n),
        0 <= i < n,
    ensures
        a[i] == b[i],
    decreases i,
{
    assert forall|j: int| 0 <= j < i implies a[j] == b[j] by {
        lemma_order_agrees(keys, a, b, n, j);
    }
    assert(has_place(b, a[i] as int));
    let j = choose|j: int| 0 <= j < b.len() && #[trigger] b[j] == a[i];
    assert(has_place(a, b[i] as int));
    let k = choose|k: int| 0 <= k < a.len() && #[trigger] a[k] == b[i];
    if j < i {
        assert(a[j] == b[j]);
        lemma_order_distinct(keys, a, i, j);
    }
    if k < i {
        assert(a[k] == b[k]);
        lemma_order_distinct(keys, b, i, k);
    }
    if j > i && k > i {
        assert(earlier(keys, b[i] as int, b[j] as int));
        assert(earlier(keys, a[i] as int, a[k] as int));
    }
}

/// A stable sort has one result only.
pub proof fn law_stable_sort_is_unique<T>(a: Seq<T>, b: Seq<T>, s: Seq<T>, keys: Seq<i128>)
    requires
        is_stable_sort(a, s, keys),
        is_stable_sort(b, s, keys),
    ensures
        a == b,
{
    let x = choose|o: Seq<usize>|
        in_order(keys, o) && places(o, 0, s.len() as int) && #[trigger] picked(a, s, o);
    let y = choose|o: Seq<usize>|
        in_order(keys, o) && places(o, 0, s.len() as int) && #[trigger] picked(b, s, o);
    lemma_order_unique(keys, x, y, s.len() as int);
    assert(a =~= b);
}

/// Sorts items by their keys; items of one key keep their order.
pub fn sort_by_keys<T>(items: Vec<T>, keys: &[i128]) -> (r: Vec<T>)
    requires
        keys@.len() == items@.len(),
    ensures
        is_stable_sort(r@, items@, keys@),
{
    let order = sorted_order(keys);
    let ghost all = items@;
    let mut slots: Vec<Option<T>> = Vec::new();
    let mut rest = items;
    let ghost n = all.len() as int;
    while rest.len() > 0
        invariant
            n == all.len(),
            rest@ == all.take(rest@.len() as int),
            rest@.len() + slots@.len() == n,
            forall|k: int| 0 <= k < slots@.len() ==> #[trigger] slots@[k] == Some(all[n - 1 - k]),
        decreases rest@.len(),
    {
        let e = rest.pop();
        slots.push(e);
        assert(rest@ =~= all.take(rest@.len() as int));
    }
    let count: usize = slots.len();
    let mut out: Vec<T> = Vec::new();
    let mut j: usize = 0;
    while j < order.len()
        invariant
            n == all.len(),
            n == count,
            j <= order@.len(),
            order@.len() == n,
            slots@.len() == n,
            places(order@, 0, n),
            in_order(keys@, order@),
            forall|k: int|
                j <= k < n ==> #[trigger] slots@[n - 1 - order@[k]] == Some(all[order@[k] as int]),
            out@.len() == j,
            forall|k: int| 0 <= k < j ==> #[trigger] out@[k] == all[order@[k] as int],
        decreases order@.len() - j,
    {
        let p: usize = count - 1 - order[j];
        let mut slot: Option<T> = None;
        let ghost before = slots@;
        std::mem::swap(&mut slots[p], &mut slot);
        assert(before[n - 1 - order@[j as int]] == Some(all[order@[j as int] as int]));
        assert(slots@ =~= before.update(p as int, None));
        match slot {
            Some(e) => {
                out.push(e);
            },
            None => {},
        }
        assert forall|k: int| j + 1 <= k < n implies #[trigger] slots@[n - 1 - order@[k]] == Some(
            all[order@[k] as int],
        ) by {
            if order@[k] == order@[j as int] {
                lemma_order_distinct(keys@, order@, k, j as int);
            }
        }
        j += 1;
    }
    proof {
        assert(picked(out@, all, order@));
    }
    out
}

} // verus!
