//! How well a number tells two classes apart.

use crate::order::{self, sorted_order};
use vstd::prelude::*;

verus! {

/// `f(0) + .. + f(n - 1)`.
pub open spec fn sum(n: int, f: spec_fn(int) -> int) -> int
    decreases n,
{
    if n <= 0 {
        0
    } else {
        sum(n - 1, f) + f(n - 1)
    }
}

pub open spec fn one(b: bool) -> int {
    if b {
        1
    } else {
        0
    }
}

/// 1 for each sample of the second class that is below sample `k`.
pub open spec fn below_fn(s: Seq<(i128, bool)>, k: int) -> spec_fn(int) -> int {
    |b: int| one(!s[b].1 && s[b].0 < s[k].0)
}

/// 1 for each sample of the second class that is not above sample `k`.
pub open spec fn not_above_fn(s: Seq<(i128, bool)>, k: int) -> spec_fn(int) -> int {
    |b: int| one(!s[b].1 && s[b].0 <= s[k].0)
}

/// 1 for each sample of a class.
pub open spec fn class_fn(s: Seq<(i128, bool)>, class: bool) -> spec_fn(int) -> int {
    |b: int| one(s[b].1 == class)
}

/// How many samples of the second class are below sample `k`.
pub open spec fn below(s: Seq<(i128, bool)>, k: int) -> int {
    sum(s.len() as int, below_fn(s, k))
}

/// How many samples of the second class are not above sample `k`.
pub open spec fn not_above(s: Seq<(i128, bool)>, k: int) -> int {
    sum(s.len() as int, not_above_fn(s, k))
}

/// What each sample adds to the score.
pub open spec fn part(s: Seq<(i128, bool)>) -> spec_fn(int) -> int {
    |a: int|
        if s[a].1 {
            below(s, a) + not_above(s, a)
        } else {
            0
        }
}

/// Over all pairs of a sample of the first class and one of the second: two
/// where the first is above the second, one where they are equal.
pub open spec fn score(s: Seq<(i128, bool)>) -> int {
    sum(s.len() as int, part(s))
}

/// How many samples are of a class.
pub open spec fn class_size(s: Seq<(i128, bool)>, class: bool) -> int {
    sum(s.len() as int, class_fn(s, class))
}

/// The samples whose number is known.
pub open spec fn known(samples: Seq<(Option<i128>, bool)>) -> Seq<(i128, bool)>
    decreases samples.len(),
{
    if samples.len() == 0 {
        Seq::empty()
    } else {
        let before = known(samples.drop_last());
        match samples.last().0 {
            Some(v) => before.push((v, samples.last().1)),
            None => before,
        }
    }
}

proof fn lemma_sum_same(n: int, f: spec_fn(int) -> int, g: spec_fn(int) -> int)
    requires
        forall|i: int| 0 <= i < n ==> #[trigger] f(i) == g(i),
    ensures
        sum(n, f) == sum(n, g),
    decreases n,
{
    if n > 0 {
        lemma_sum_same(n - 1, f, g);
        assert(f(n - 1) == g(n - 1));
    }
}

/// Taking one place out of a sum.
proof fn lemma_sum_remove(n: int, f: spec_fn(int) -> int, k: int)
    requires
        0 <= k < n,
    ensures
        sum(n, f) == sum(n - 1, without(f, k)) + f(k),
    decreases n,
{
    let g = without(f, k);
    if k == n - 1 {
        assert forall|i: int| 0 <= i < n - 1 implies #[trigger] f(i) == g(i) by {}
        lemma_sum_same(n - 1, f, g);
    } else {
        lemma_sum_remove(n - 1, f, k);
        assert(sum(n - 1, g) == sum(n - 2, g) + g(n - 2));
        assert(g(n - 2) == f(n - 1));
    }
}

/// `f` at the places of `o`.
spec fn through(o: Seq<usize>, f: spec_fn(int) -> int) -> spec_fn(int) -> int {
    |k: int| f(o[k] as int)
}

/// `f` without place `k`.
spec fn without(f: spec_fn(int) -> int, k: int) -> spec_fn(int) -> int {
    |i: int|
        f(
            if i < k {
                i
            } else {
                i + 1
            },
        )
}

/// The order of the places makes no difference to a sum.
proof fn lemma_sum_permuted(n: int, o: Seq<usize>, f: spec_fn(int) -> int)
    requires
        o.len() == n,
        forall|i: int| 0 <= i < n ==> 0 <= #[trigger] o[i] < n,
        forall|i: int, j: int| 0 <= i < j < n ==> #[trigger] o[i] != #[trigger] o[j],
        forall|p: int| 0 <= p < n ==> #[trigger] order::has_place(o, p),
    ensures
        sum(n, through(o, f)) == sum(n, f),
    decreases n,
{
    let g = through(o, f);
    if n > 0 {
        assert(order::has_place(o, n - 1));
        let k = choose|k: int| 0 <= k < o.len() && #[trigger] o[k] == n - 1;
        let rest = o.remove(k);
        assert forall|i: int| 0 <= i < n - 1 implies #[trigger] rest[i] == o[if i < k {
            i
        } else {
            i + 1
        }] by {}
        assert forall|i: int| 0 <= i < n - 1 implies 0 <= #[trigger] rest[i] < n - 1 by {
            let j = if i < k {
                i
            } else {
                i + 1
            };
            assert(rest[i] == o[j]);
            if j < k {
                assert(o[j] != o[k]);
            } else {
                assert(o[k] != o[j]);
            }
        }
        assert forall|i: int, j: int| 0 <= i < j < n - 1 implies #[trigger] rest[i]
            != #[trigger] rest[j] by {
            let x = if i < k {
                i
            } else {
                i + 1
            };
            let y = if j < k {
                j
            } else {
                j + 1
            };
            assert(rest[i] == o[x]);
            assert(rest[j] == o[y]);
        }
        assert forall|p: int| 0 <= p < n - 1 implies #[trigger] order::has_place(rest, p) by {
            assert(order::has_place(o, p));
            let x = choose|x: int| 0 <= x < o.len() && #[trigger] o[x] == p;
            let i = if x < k {
                x
            } else {
                x - 1
            };
            assert(rest[i] == p);
        }
        lemma_sum_permuted(n - 1, rest, f);
        lemma_sum_remove(n, g, k);
        let h = without(g, k);
        let r = through(rest, f);
        assert forall|i: int| 0 <= i < n - 1 implies #[trigger] h(i) == r(i) by {
            assert(rest[i] == o[if i < k {
                i
            } else {
                i + 1
            }]);
        }
        lemma_sum_same(n - 1, h, r);
    }
}

/// The samples in the order of the places.
spec fn arranged(s: Seq<(i128, bool)>, o: Seq<usize>) -> Seq<(i128, bool)> {
    Seq::new(o.len(), |k: int| s[o[k] as int])
}

spec fn keys_of(s: Seq<(i128, bool)>) -> Seq<i128> {
    s.map_values(|x: (i128, bool)| x.0)
}

proof fn lemma_arranged_score(s: Seq<(i128, bool)>, o: Seq<usize>)
    requires
        order::places(o, 0, s.len() as int),
        order::in_order(keys_of(s), o),
    ensures
        score(arranged(s, o)) == score(s),
        class_size(arranged(s, o), true) == class_size(s, true),
        class_size(arranged(s, o), false) == class_size(s, false),
{
    let n = s.len() as int;
    let c = arranged(s, o);
    assert forall|i: int, j: int| 0 <= i < j < n implies #[trigger] o[i] != #[trigger] o[j] by {
        if o[i] == o[j] {
            order::lemma_order_distinct(keys_of(s), o, i, j);
        }
    }
    assert forall|k: int| 0 <= k < n implies #[trigger] below(c, k) == below(s, o[k] as int) by {
        let f = below_fn(s, o[k] as int);
        lemma_sum_permuted(n, o, f);
        lemma_sum_same(n, through(o, f), below_fn(c, k));
    }
    assert forall|k: int| 0 <= k < n implies #[trigger] not_above(c, k) == not_above(
        s,
        o[k] as int,
    ) by {
        let f = not_above_fn(s, o[k] as int);
        lemma_sum_permuted(n, o, f);
        lemma_sum_same(n, through(o, f), not_above_fn(c, k));
    }
    let g = part(s);
    let h = part(c);
    lemma_sum_permuted(n, o, g);
    assert forall|k: int| 0 <= k < n implies #[trigger] h(k) == through(o, g)(k) by {
        assert(below(c, k) == below(s, o[k] as int));
        assert(not_above(c, k) == not_above(s, o[k] as int));
    }
    lemma_sum_same(n, h, through(o, g));
    lemma_sum_permuted(n, o, class_fn(s, true));
    lemma_sum_same(n, through(o, class_fn(s, true)), class_fn(c, true));
    lemma_sum_permuted(n, o, class_fn(s, false));
    lemma_sum_same(n, through(o, class_fn(s, false)), class_fn(c, false));
}

/// How many of the first `n` samples are of a class.
spec fn class_upto(c: Seq<(i128, bool)>, class: bool, n: int) -> int {
    sum(n, class_fn(c, class))
}

spec fn ascends(c: Seq<(i128, bool)>) -> bool {
    forall|i: int, j: int| 0 <= i <= j < c.len() ==> (#[trigger] c[i]).0 <= (#[trigger] c[j]).0
}

proof fn lemma_sum_split(n: int, m: int, f: spec_fn(int) -> int, g: spec_fn(int) -> int)
    requires
        0 <= m <= n,
        forall|i: int| 0 <= i < m ==> #[trigger] f(i) == g(i),
        forall|i: int| m <= i < n ==> #[trigger] f(i) == 0,
    ensures
        sum(n, f) == sum(m, g),
    decreases n,
{
    if n == m {
        lemma_sum_same(n, f, g);
    } else {
        lemma_sum_split(n - 1, m, f, g);
        assert(f(n - 1) == 0);
    }
}

/// In ascending samples, the ones below a run of equals are those before it.
proof fn lemma_run(c: Seq<(i128, bool)>, i: int, j: int, k: int)
    requires
        ascends(c),
        0 <= i <= k < j <= c.len(),
        i > 0 ==> c[i - 1].0 < c[i].0,
        c[k].0 == c[i].0,
        j < c.len() ==> c[j].0 > c[i].0,
        forall|x: int| i <= x < j ==> (#[trigger] c[x]).0 == c[i].0,
    ensures
        below(c, k) == class_upto(c, false, i),
        not_above(c, k) == class_upto(c, false, j),
{
    let n = c.len() as int;
    let f = below_fn(c, k);
    let g = class_fn(c, false);
    assert forall|b: int| 0 <= b < i implies #[trigger] f(b) == g(b) by {
        assert(c[b].0 <= c[i - 1].0);
    }
    assert forall|b: int| i <= b < n implies #[trigger] f(b) == 0 by {
        assert(c[i].0 <= c[b].0);
    }
    lemma_sum_split(n, i, f, g);
    let u = not_above_fn(c, k);
    assert forall|b: int| 0 <= b < j implies #[trigger] u(b) == g(b) by {
        assert(c[b].0 <= c[j - 1].0);
        assert(c[j - 1].0 == c[i].0);
    }
    assert forall|b: int| j <= b < n implies #[trigger] u(b) == 0 by {
        assert(c[j].0 <= c[b].0);
    }
    lemma_sum_split(n, j, u, g);
}

/// What a run of equals adds to the score.
proof fn lemma_run_score(c: Seq<(i128, bool)>, i: int, j: int, k: int)
    requires
        ascends(c),
        0 <= i <= k <= j <= c.len(),
        i < j,
        i > 0 ==> c[i - 1].0 < c[i].0,
        j < c.len() ==> c[j].0 > c[i].0,
        forall|x: int| i <= x < j ==> (#[trigger] c[x]).0 == c[i].0,
    ensures
        sum(k, part(c)) == sum(i, part(c)) + (class_upto(c, true, k) - class_upto(c, true, i)) * (
        class_upto(c, false, i) + class_upto(c, false, j)),
    decreases k - i,
{
    if k > i {
        lemma_run_score(c, i, j, k - 1);
        lemma_run(c, i, j, k - 1);
        let w = class_upto(c, false, i) + class_upto(c, false, j);
        let x = class_upto(c, true, k - 1) - class_upto(c, true, i);
        assert((x + 1) * w == x * w + w) by (nonlinear_arith);
        let f = part(c);
        assert(sum(k, f) == sum(k - 1, f) + f(k - 1));
    } else {
        assert(0int * (class_upto(c, false, i) + class_upto(c, false, j)) == 0);
    }
}

proof fn lemma_class_bounds(c: Seq<(i128, bool)>, n: int)
    requires
        0 <= n <= c.len(),
    ensures
        0 <= class_upto(c, true, n),
        0 <= class_upto(c, false, n),
        class_upto(c, true, n) + class_upto(c, false, n) == n,
    decreases n,
{
    if n > 0 {
        lemma_class_bounds(c, n - 1);
    }
}

proof fn lemma_class_grows(c: Seq<(i128, bool)>, m: int, n: int)
    requires
        0 <= m <= n <= c.len(),
    ensures
        class_upto(c, true, m) <= class_upto(c, true, n),
        class_upto(c, false, m) <= class_upto(c, false, n),
    decreases n - m,
{
    if m < n {
        lemma_class_grows(c, m, n - 1);
    }
}

/// How well a number tells two classes apart.
#[derive(Debug, Clone, Copy, PartialEq, Eq, Structural)]
pub struct AucResult {
    /// Twice the rank statistic.
    pub u_doubled: u128,
    pub n_pos: usize,
    pub n_neg: usize,
    pub n_dropped: usize,
}

pub open spec fn is_auc(r: AucResult, samples: Seq<(Option<i128>, bool)>) -> bool {
    let s = known(samples);
    &&& r.n_pos == class_size(s, true)
    &&& r.n_neg == class_size(s, false)
    &&& r.n_dropped == samples.len() - s.len()
    &&& r.u_doubled == score(s)
}

proof fn lemma_known_len(samples: Seq<(Option<i128>, bool)>)
    ensures
        known(samples).len() <= samples.len(),
    decreases samples.len(),
{
    if samples.len() > 0 {
        lemma_known_len(samples.drop_last());
    }
}

/// The classes divide the known values.
pub proof fn lemma_sizes(samples: Seq<(Option<i128>, bool)>)
    ensures
        class_size(known(samples), true) + class_size(known(samples), false)
            == known(samples).len(),
        class_size(known(samples), true) >= 0,
        class_size(known(samples), false) >= 0,
        known(samples).len() <= samples.len(),
{
    lemma_known_len(samples);
    lemma_class_bounds(known(samples), known(samples).len() as int);
}

fn collect_known(samples: &[(Option<i128>, bool)]) -> (r: Vec<(i128, bool)>)
    ensures
        r@ == known(samples@),
{
    let mut out: Vec<(i128, bool)> = Vec::new();
    let mut i: usize = 0;
    proof {
        assert(samples@.take(0) =~= Seq::empty());
    }
    while i < samples.len()
        invariant
            i <= samples@.len(),
            out@ == known(samples@.take(i as int)),
        decreases samples@.len() - i,
    {
        let (v, label) = samples[i];
        proof {
            assert(samples@.take(i + 1).drop_last() =~= samples@.take(i as int));
            assert(samples@.take(i + 1).last() == samples@[i as int]);
        }
        match v {
            Some(v) => {
                out.push((v, label));
            },
            None => {},
        }
        i += 1;
    }
    proof {
        assert(samples@.take(i as int) =~= samples@);
    }
    out
}

fn sort_samples(s: &Vec<(i128, bool)>) -> (r: Vec<(i128, bool)>)
    ensures
        ascends(r@),
        r@.len() == s@.len(),
        score(r@) == score(s@),
        class_size(r@, true) == class_size(s@, true),
        class_size(r@, false) == class_size(s@, false),
{
    let mut keys: Vec<i128> = Vec::new();
    let mut i: usize = 0;
    while i < s.len()
        invariant
            i <= s@.len(),
            keys@ == keys_of(s@).take(i as int),
        decreases s@.len() - i,
    {
        keys.push(s[i].0);
        assert(keys@ =~= keys_of(s@).take(i + 1));
        i += 1;
    }
    assert(keys@ =~= keys_of(s@));
    let o = sorted_order(keys.as_slice());
    let mut out: Vec<(i128, bool)> = Vec::new();
    let mut j: usize = 0;
    while j < o.len()
        invariant
            j <= o@.len(),
            order::places(o@, 0, s@.len() as int),
            out@ == arranged(s@, o@).take(j as int),
        decreases o@.len() - j,
    {
        out.push(s[o[j]]);
        assert(out@ =~= arranged(s@, o@).take(j + 1));
        j += 1;
    }
    proof {
        assert(out@ =~= arranged(s@, o@));
        lemma_arranged_score(s@, o@);
        assert forall|a: int, b: int| 0 <= a <= b < out@.len() implies (#[trigger] out@[a]).0 <= (
        #[trigger] out@[b]).0 by {
            if a < b {
                assert(order::earlier(keys_of(s@), o@[a] as int, o@[b] as int));
            }
        }
    }
    out
}

/// How well the numbers tell the samples of the first class from those of the
/// second. Samples without a number are passed over.
pub fn compute_auc_and_mwu(samples: &[(Option<i128>, bool)]) -> (r: AucResult)
    requires
        samples@.len() < 0x1_0000_0000_0000,
    ensures
        is_auc(r, samples@),
{
    let clean = collect_known(samples);
    proof {
        lemma_known_len(samples@);
    }
    let c = sort_samples(&clean);
    let n: usize = c.len();
    let mut u: u128 = 0;
    let mut pos: usize = 0;
    let mut neg: usize = 0;
    let mut i: usize = 0;
    let ghost all = c@;
    while i < n
        invariant
            i <= n,
            n == c@.len(),
            n < 0x1_0000_0000_0000,
            all == c@,
            ascends(all),
            i > 0 && i < n ==> all[i - 1].0 < all[i as int].0,
            pos == class_upto(all, true, i as int),
            neg == class_upto(all, false, i as int),
            u == sum(i as int, part(all)),
            u <= i * (2 * n),
        decreases n - i,
    {
        let key: i128 = c[i].0;
        proof {
            lemma_class_bounds(all, i as int);
        }
        let mut j: usize = i;
        let mut p: usize = pos;
        let mut q: usize = neg;
        while j < n && c[j].0 == key
            invariant
                i <= j <= n,
                i < n,
                n == c@.len(),
                all == c@,
                n < 0x1_0000_0000_0000,
                key == all[i as int].0,
                forall|x: int| i <= x < j ==> (#[trigger] all[x]).0 == key,
                p == class_upto(all, true, j as int),
                q == class_upto(all, false, j as int),
                p + q == j,
            decreases n - j,
        {
            if c[j].1 {
                p += 1;
            } else {
                q += 1;
            }
            j += 1;
        }
        proof {
            assert(all[i as int].0 == key);
            if j < n {
                assert(all[i as int].0 <= all[j as int].0);
            }
            assert(j > i);
            lemma_run_score(all, i as int, j as int, j as int);
            lemma_class_bounds(all, i as int);
            lemma_class_bounds(all, j as int);
            lemma_class_grows(all, i as int, j as int);
            assert((p - pos) * (neg + q) <= (j - i) * (2 * n)) by (nonlinear_arith)
                requires
                    0 <= p - pos <= j - i,
                    0 <= neg + q <= 2 * n,
            ;
            assert(i * (2 * n) + (j - i) * (2 * n) == j * (2 * n)) by (nonlinear_arith);
            assert(j * (2 * n) <= 0x1_0000_0000_0000 * (2 * 0x1_0000_0000_0000)) by (nonlinear_arith)
                requires
                    0 <= j <= 0x1_0000_0000_0000,
                    0 <= n <= 0x1_0000_0000_0000,
            ;
            assert((p - pos) * (neg + q) >= 0) by (nonlinear_arith)
                requires
                    0 <= p - pos,
                    0 <= neg + q,
            ;
        }
        u = u + (p - pos) as u128 * (neg as u128 + q as u128);
        pos = p;
        neg = q;
        i = j;
        proof {
            if i < n {
                assert(all[i - 1].0 == key);
            }
        }
    }
    AucResult { u_doubled: u, n_pos: pos, n_neg: neg, n_dropped: samples.len() - clean.len() }
}

proof fn lemma_sum_bound(n: int, f: spec_fn(int) -> int, top: int)
    requires
        n >= 0,
        forall|i: int| 0 <= i < n ==> 0 <= #[trigger] f(i) <= top,
    ensures
        0 <= sum(n, f) <= n * top,
    decreases n,
{
    if n > 0 {
        lemma_sum_bound(n - 1, f, top);
        assert(0 <= f(n - 1) <= top);
        assert((n - 1) * top + top == n * top) by (nonlinear_arith);
    } else {
        assert(n * top == 0) by (nonlinear_arith)
            requires
                n == 0,
        ;
    }
}

proof fn lemma_sum_le(n: int, f: spec_fn(int) -> int, g: spec_fn(int) -> int)
    requires
        forall|i: int| 0 <= i < n ==> #[trigger] f(i) <= g(i),
    ensures
        sum(n, f) <= sum(n, g),
    decreases n,
{
    if n > 0 {
        lemma_sum_le(n - 1, f, g);
        assert(f(n - 1) <= g(n - 1));
    }
}

spec fn scaled(f: spec_fn(int) -> int, k: int) -> spec_fn(int) -> int {
    |i: int| f(i) * k
}

proof fn lemma_sum_scaled(n: int, f: spec_fn(int) -> int, k: int)
    ensures
        sum(n, scaled(f, k)) == sum(n, f) * k,
    decreases n,
{
    let g = scaled(f, k);
    if n > 0 {
        lemma_sum_scaled(n - 1, f, k);
        assert(sum(n - 1, f) * k + f(n - 1) * k == (sum(n - 1, f) + f(n - 1)) * k)
            by (nonlinear_arith);
        assert(g(n - 1) == f(n - 1) * k);
    } else {
        assert(0 * k == 0);
    }
}

/// The statistic lies between 0 and twice the number of pairs: the area that it
/// stands for is a share of 1.
pub proof fn law_score_is_a_share_of_the_pairs(s: Seq<(i128, bool)>)
    ensures
        0 <= score(s) <= 2 * class_size(s, true) * class_size(s, false),
{
    let n = s.len() as int;
    let neg = class_size(s, false);
    let g = class_fn(s, false);
    assert forall|k: int| 0 <= k < n implies 0 <= #[trigger] below(s, k) <= neg by {
        lemma_sum_le(n, below_fn(s, k), g);
        lemma_sum_bound(n, below_fn(s, k), 1);
    }
    assert forall|k: int| 0 <= k < n implies 0 <= #[trigger] not_above(s, k) <= neg by {
        lemma_sum_le(n, not_above_fn(s, k), g);
        lemma_sum_bound(n, not_above_fn(s, k), 1);
    }
    let h = part(s);
    let pos = class_fn(s, true);
    lemma_sum_bound(n, g, 1);
    assert forall|a: int| 0 <= a < n implies 0 <= #[trigger] h(a) <= 2 * neg by {
        assert(0 <= below(s, a) <= neg);
        assert(0 <= not_above(s, a) <= neg);
    }
    lemma_sum_bound(n, h, 2 * neg);
    let top = scaled(pos, 2 * neg);
    assert forall|a: int| 0 <= a < n implies #[trigger] h(a) <= top(a) by {
        assert(0 <= below(s, a) <= neg);
        assert(0 <= not_above(s, a) <= neg);
        assert(pos(a) == 0 ==> pos(a) * (2 * neg) == 0) by (nonlinear_arith);
        assert(pos(a) == 1 ==> pos(a) * (2 * neg) == 2 * neg) by (nonlinear_arith);
    }
    lemma_sum_le(n, h, top);
    lemma_sum_scaled(n, pos, 2 * neg);
    let p = class_size(s, true);
    assert(p * (2 * neg) == 2 * p * neg) by (nonlinear_arith);
}

/// A number that is the class itself tells the classes apart without fail.
pub proof fn law_the_class_itself_is_perfect(s: Seq<(i128, bool)>)
    requires
        forall|i: int|
            0 <= i < s.len() ==> (#[trigger] s[i]).0 == (if s[i].1 {
                1int
            } else {
                0int
            }),
    ensures
        score(s) == 2 * class_size(s, true) * class_size(s, false),
{
    let n = s.len() as int;
    let neg = class_size(s, false);
    let pos = class_fn(s, true);
    let h = part(s);
    let top = scaled(pos, 2 * neg);
    assert forall|a: int| 0 <= a < n implies #[trigger] h(a) == top(a) by {
        assert(s[a].0 == if s[a].1 {
            1int
        } else {
            0int
        });
        if s[a].1 {
            lemma_sum_same(
                n,
                below_fn(s, a),
                class_fn(s, false),
            );
            lemma_sum_same(
                n,
                not_above_fn(s, a),
                class_fn(s, false),
            );
        }
        assert(pos(a) == 0 ==> pos(a) * (2 * neg) == 0) by (nonlinear_arith);
        assert(pos(a) == 1 ==> pos(a) * (2 * neg) == 2 * neg) by (nonlinear_arith);
    }
    lemma_sum_same(n, h, top);
    lemma_sum_scaled(n, pos, 2 * neg);
    let p = class_size(s, true);
    assert(p * (2 * neg) == 2 * p * neg) by (nonlinear_arith);
}

/// A number that is the same for all samples tells nothing.
pub proof fn law_equal_numbers_tell_nothing(s: Seq<(i128, bool)>, v: i128)
    requires
        forall|i: int| 0 <= i < s.len() ==> (#[trigger] s[i]).0 == v,
    ensures
        score(s) == class_size(s, true) * class_size(s, false),
{
    let n = s.len() as int;
    let neg = class_size(s, false);
    let pos = class_fn(s, true);
    let h = part(s);
    let top = scaled(pos, neg);
    assert forall|a: int| 0 <= a < n implies #[trigger] h(a) == top(a) by {
        assert(s[a].0 == v);
        if s[a].1 {
            lemma_sum_zero(n, below_fn(s, a));
            lemma_sum_same(
                n,
                not_above_fn(s, a),
                class_fn(s, false),
            );
        }
        assert(pos(a) == 0 ==> pos(a) * neg == 0) by (nonlinear_arith);
        assert(pos(a) == 1 ==> pos(a) * neg == neg) by (nonlinear_arith);
    }
    lemma_sum_same(n, h, top);
    lemma_sum_scaled(n, pos, neg);
}

proof fn lemma_sum_zero(n: int, f: spec_fn(int) -> int)
    requires
        forall|i: int| 0 <= i < n ==> #[trigger] f(i) == 0,
    ensures
        sum(n, f) == 0,
    decreases n,
{
    if n > 0 {
        lemma_sum_zero(n - 1, f);
        assert(f(n - 1) == 0);
    }
}

} // verus!
