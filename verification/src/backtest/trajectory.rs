//! What a lot could have been sold for over its life.
//!
//! A sample is the time at which a book changed, and what a sale of the whole
//! lot would then have brought, in units of 1e-10 dollars; `None` where the bids
//! did not take the whole lot.

use vstd::prelude::*;

verus! {

pub type Sample = (i64, Option<u128>);

/// The samples before the first one at or after `end`.
pub open spec fn until(samples: Seq<Sample>, end: int) -> Seq<Sample>
    decreases samples.len(),
{
    if samples.len() == 0 || samples[0].0 >= end {
        Seq::empty()
    } else {
        seq![samples[0]] + until(samples.drop_first(), end)
    }
}

/// `n` samples are before `end`, and the one behind them is not.
pub open spec fn reaches(samples: Seq<Sample>, end: int, n: int) -> bool {
    &&& 0 <= n <= samples.len()
    &&& forall|i: int| 0 <= i < n ==> (#[trigger] samples[i]).0 < end
    &&& n < samples.len() ==> samples[n].0 >= end
}

proof fn lemma_until(samples: Seq<Sample>, end: int, n: int)
    requires
        reaches(samples, end, n),
    ensures
        until(samples, end) == samples.take(n),
    decreases samples.len(),
{
    if n > 0 {
        let rest = samples.drop_first();
        assert(samples[0].0 < end);
        assert forall|i: int| 0 <= i < n - 1 implies (#[trigger] rest[i]).0 < end by {
            assert(rest[i] == samples[i + 1]);
        }
        lemma_until(rest, end, n - 1);
        assert(samples.take(n) =~= seq![samples[0]] + rest.take(n - 1));
    } else {
        assert(samples.take(0) =~= Seq::empty());
    }
}

fn count_until(samples: &[Sample], end: i128) -> (r: usize)
    ensures
        reaches(samples@, end as int, r as int),
        until(samples@, end as int) == samples@.take(r as int),
{
    let mut n: usize = 0;
    while n < samples.len() && (samples[n].0 as i128) < end
        invariant
            n <= samples@.len(),
            forall|i: int| 0 <= i < n ==> (#[trigger] samples@[i]).0 < end,
        decreases samples@.len() - n,
    {
        n += 1;
    }
    proof {
        lemma_until(samples@, end as int, n as int);
    }
    n
}

/// The moment `seconds` after `entry_recv_ms`.
pub open spec fn moment(entry_recv_ms: i64, seconds: i64) -> int {
    entry_recv_ms + seconds * 1000
}

/// The samples at or after `start` and before `end`, in the order in which they
/// were recorded.
pub open spec fn between(samples: Seq<Sample>, start: int, end: int) -> Seq<Sample>
    decreases samples.len(),
{
    if samples.len() == 0 {
        Seq::empty()
    } else {
        let before = between(samples.drop_last(), start, end);
        if start <= samples.last().0 < end {
            before.push(samples.last())
        } else {
            before
        }
    }
}

/// The samples of the window that begins at the entry and is open at its end.
pub open spec fn window(samples: Seq<Sample>, entry_recv_ms: i64, window_s: i64) -> Seq<Sample> {
    between(samples, entry_recv_ms as int, moment(entry_recv_ms, window_s))
}

/// The window holds the samples of its time and no other: each of its samples is
/// one of the recorded ones at or after the entry and before the end, and every
/// recorded one of that time is in it.
pub proof fn law_window_is_the_time_between(samples: Seq<Sample>, start: int, end: int)
    ensures
        forall|k: int|
            0 <= k < between(samples, start, end).len() ==> start <= (#[trigger] between(
                samples,
                start,
                end,
            )[k]).0 < end && samples.contains(between(samples, start, end)[k]),
        forall|i: int|
            0 <= i < samples.len() && start <= (#[trigger] samples[i]).0 < end ==> between(
                samples,
                start,
                end,
            ).contains(samples[i]),
    decreases samples.len(),
{
    if samples.len() > 0 {
        let first = samples.drop_last();
        law_window_is_the_time_between(first, start, end);
        let b = between(first, start, end);
        let w = between(samples, start, end);
        assert forall|k: int| 0 <= k < w.len() implies start <= (#[trigger] w[k]).0 < end
            && samples.contains(w[k]) by {
            if k < b.len() {
                assert(w[k] == b[k]);
                let i = choose|i: int| 0 <= i < first.len() && first[i] == b[k];
                assert(samples[i] == first[i]);
            } else {
                assert(w[k] == samples[samples.len() - 1]);
            }
        }
        assert forall|i: int| 0 <= i < samples.len() && start <= (#[trigger] samples[i]).0 < end implies
            w.contains(samples[i]) by {
            if i < first.len() {
                assert(first[i] == samples[i]);
                let k = choose|k: int| 0 <= k < b.len() && b[k] == first[i];
                assert(w[k] == b[k]);
            } else {
                assert(w[w.len() - 1] == samples[i]);
            }
        }
    }
}

/// What the first sample at or after the offset says; `None` where there is no
/// such sample, or it is one without a price.
pub open spec fn value_at(samples: Seq<Sample>, target: int) -> Option<u128> {
    let n = until(samples, target).len();
    if n < samples.len() {
        samples[n as int].1
    } else {
        None
    }
}

pub fn bid_at_offset(trajectory: &[Sample], entry_recv_ms: i64, offset_s: i64) -> (r: Option<u128>)
    ensures
        r == value_at(trajectory@, moment(entry_recv_ms, offset_s)),
{
    let n: usize = count_until(trajectory, entry_recv_ms as i128 + offset_s as i128 * 1000);
    if n < trajectory.len() {
        trajectory[n].1
    } else {
        None
    }
}

/// Of two values the higher one, or the lower one, is the better.
pub open spec fn better(rising: bool, a: int, b: int) -> bool {
    if rising {
        a > b
    } else {
        a < b
    }
}

/// The samples, by their offsets, at which the best value so far was beaten.
pub open spec fn marks(rising: bool, samples: Seq<Sample>, entry_recv_ms: i64) -> Seq<(int, int)>
    decreases samples.len(),
{
    if samples.len() == 0 {
        Seq::empty()
    } else {
        let before = marks(rising, samples.drop_last(), entry_recv_ms);
        let (ms, bid) = samples.last();
        match bid {
            Some(v) if before.len() == 0 || better(rising, v as int, before.last().1) => before.push(
                (ms - entry_recv_ms, v as int),
            ),
            _ => before,
        }
    }
}

/// Marks as plain values.
pub open spec fn plain(v: Seq<(i64, u128)>) -> Seq<(int, int)> {
    v.map_values(|m: (i64, u128)| (m.0 as int, m.1 as int))
}

/// Every offset from the entry fits its type.
pub open spec fn offsets_fit(samples: Seq<Sample>, entry_recv_ms: i64) -> bool {
    forall|i: int|
        0 <= i < samples.len() ==> i64::MIN <= (#[trigger] samples[i]).0 - entry_recv_ms <= i64::MAX
}

fn collect_marks(rising: bool, trajectory: &[Sample], entry_recv_ms: i64, window_s: i64) -> (r: Vec<
    (i64, u128),
>)
    requires
        offsets_fit(trajectory@, entry_recv_ms),
    ensures
        plain(r@) == marks(rising, window(trajectory@, entry_recv_ms, window_s), entry_recv_ms),
{
    let end: i128 = entry_recv_ms as i128 + window_s as i128 * 1000;
    let mut out: Vec<(i64, u128)> = Vec::new();
    let mut i: usize = 0;
    proof {
        assert(trajectory@.take(0) =~= Seq::empty());
        assert(plain(out@) =~= Seq::empty());
    }
    while i < trajectory.len()
        invariant
            i <= trajectory@.len(),
            end == moment(entry_recv_ms, window_s),
            offsets_fit(trajectory@, entry_recv_ms),
            plain(out@) == marks(
                rising,
                between(trajectory@.take(i as int), entry_recv_ms as int, end as int),
                entry_recv_ms,
            ),
        decreases trajectory@.len() - i,
    {
        let (ms, bid) = trajectory[i];
        let ghost before = out@;
        proof {
            assert(trajectory@.take(i + 1).drop_last() =~= trajectory@.take(i as int));
            assert(trajectory@.take(i + 1).last() == trajectory@[i as int]);
            let seen = between(trajectory@.take(i as int), entry_recv_ms as int, end as int);
            assert(seen.push(trajectory@[i as int]).drop_last() =~= seen);
            assert(plain(before).len() == before.len());
        }
        match bid {
            Some(v) if ms >= entry_recv_ms && (ms as i128) < end => {
                let beats = if out.len() == 0 {
                    true
                } else if rising {
                    v > out[out.len() - 1].1
                } else {
                    v < out[out.len() - 1].1
                };
                if beats {
                    out.push((ms - entry_recv_ms, v));
                    assert(plain(out@) =~= plain(before).push((ms - entry_recv_ms, v as int)));
                }
            },
            _ => {},
        }
        i += 1;
    }
    proof {
        assert(trajectory@.take(trajectory@.len() as int) =~= trajectory@);
    }
    out
}

/// The new highs in the window that begins at the entry.
pub fn high_water_marks(trajectory: &[Sample], entry_recv_ms: i64, window_s: i64) -> (r: Vec<
    (i64, u128),
>)
    requires
        offsets_fit(trajectory@, entry_recv_ms),
    ensures
        plain(r@) == marks(true, window(trajectory@, entry_recv_ms, window_s), entry_recv_ms),
{
    collect_marks(true, trajectory, entry_recv_ms, window_s)
}

/// The new lows in the window that begins at the entry.
pub fn low_water_marks(trajectory: &[Sample], entry_recv_ms: i64, window_s: i64) -> (r: Vec<
    (i64, u128),
>)
    requires
        offsets_fit(trajectory@, entry_recv_ms),
    ensures
        plain(r@) == marks(false, window(trajectory@, entry_recv_ms, window_s), entry_recv_ms),
{
    collect_marks(false, trajectory, entry_recv_ms, window_s)
}

/// The marks improve without end; the last one is as good as any sample, and
/// was reached before any sample as good as it.
pub proof fn law_marks_improve_to_the_best(rising: bool, samples: Seq<Sample>, entry_recv_ms: i64)
    ensures
        forall|i: int, j: int|
            0 <= i < j < marks(rising, samples, entry_recv_ms).len() ==> better(
                rising,
                (#[trigger] marks(rising, samples, entry_recv_ms)[j]).1,
                (#[trigger] marks(rising, samples, entry_recv_ms)[i]).1,
            ),
        forall|i: int|
            0 <= i < samples.len() ==> ((#[trigger] samples[i]).1 matches Some(v) ==> marks(
                rising,
                samples,
                entry_recv_ms,
            ).len() > 0 && !better(
                rising,
                v as int,
                marks(rising, samples, entry_recv_ms).last().1,
            )),
        forall|k: int|
            0 <= k < marks(rising, samples, entry_recv_ms).len() ==> is_sample(
                samples,
                entry_recv_ms,
                #[trigger] marks(rising, samples, entry_recv_ms)[k],
            ),
    decreases samples.len(),
{
    if samples.len() > 0 {
        let before = samples.drop_last();
        law_marks_improve_to_the_best(rising, before, entry_recv_ms);
        let b = marks(rising, before, entry_recv_ms);
        let m = marks(rising, samples, entry_recv_ms);
        assert forall|i: int| 0 <= i < samples.len() implies ((#[trigger] samples[i]).1 matches Some(
            v,
        ) ==> m.len() > 0 && !better(rising, v as int, m.last().1)) by {
            if i < samples.len() - 1 {
                assert(before[i] == samples[i]);
            }
        }
        assert forall|k: int| 0 <= k < m.len() implies is_sample(
            samples,
            entry_recv_ms,
            #[trigger] m[k],
        ) by {
            if k < b.len() {
                assert(m[k] == b[k]);
                assert(is_sample(before, entry_recv_ms, b[k]));
                let i = choose|i: int|
                    0 <= i < before.len() && (#[trigger] before[i]).0 - entry_recv_ms == b[k].0
                        && before[i].1 is Some && before[i].1->0 == b[k].1;
                assert(samples[i] == before[i]);
            } else {
                assert(samples[samples.len() - 1].1 is Some);
            }
        }
    }
}

/// A mark stands for a sample.
pub open spec fn is_sample(samples: Seq<Sample>, entry_recv_ms: i64, m: (int, int)) -> bool {
    exists|i: int|
        0 <= i < samples.len() && (#[trigger] samples[i]).0 - entry_recv_ms == m.0
            && samples[i].1 is Some && samples[i].1->0 == m.1
}

/// The best mark of all, with its offset.
pub open spec fn extreme(rising: bool, samples: Seq<Sample>, entry_recv_ms: i64) -> Option<(int, int)> {
    let m = marks(rising, samples, entry_recv_ms);
    if m.len() == 0 {
        None
    } else {
        Some((m.last().1, m.last().0))
    }
}

fn extreme_in_window(rising: bool, trajectory: &[Sample], entry_recv_ms: i64, window_s: i64) -> (r:
    Option<(u128, i64)>)
    requires
        offsets_fit(trajectory@, entry_recv_ms),
    ensures
        extreme(rising, window(trajectory@, entry_recv_ms, window_s), entry_recv_ms)
            == match r {
            Some((v, ms)) => Some((v as int, ms as int)),
            None => None,
        },
{
    let end: i128 = entry_recv_ms as i128 + window_s as i128 * 1000;
    let mut best: Option<(u128, i64)> = None;
    let mut i: usize = 0;
    proof {
        assert(trajectory@.take(0) =~= Seq::empty());
    }
    while i < trajectory.len()
        invariant
            i <= trajectory@.len(),
            end == moment(entry_recv_ms, window_s),
            offsets_fit(trajectory@, entry_recv_ms),
            extreme(
                rising,
                between(trajectory@.take(i as int), entry_recv_ms as int, end as int),
                entry_recv_ms,
            ) == match best {
                Some((v, ms)) => Some((v as int, ms as int)),
                None => None,
            },
        decreases trajectory@.len() - i,
    {
        let (ms, bid) = trajectory[i];
        proof {
            assert(trajectory@.take(i + 1).drop_last() =~= trajectory@.take(i as int));
            assert(trajectory@.take(i + 1).last() == trajectory@[i as int]);
            let seen = between(trajectory@.take(i as int), entry_recv_ms as int, end as int);
            assert(seen.push(trajectory@[i as int]).drop_last() =~= seen);
        }
        match bid {
            Some(v) if ms >= entry_recv_ms && (ms as i128) < end => {
                let beats = match best {
                    None => true,
                    Some((b, _)) => if rising {
                        v > b
                    } else {
                        v < b
                    },
                };
                if beats {
                    best = Some((v, ms - entry_recv_ms));
                }
            },
            _ => {},
        }
        i += 1;
    }
    proof {
        assert(trajectory@.take(trajectory@.len() as int) =~= trajectory@);
    }
    best
}

/// The highest value in the window, with the offset at which it was first had.
pub fn max_bid_in_window(trajectory: &[Sample], entry_recv_ms: i64, window_s: i64) -> (r: Option<
    (u128, i64),
>)
    requires
        offsets_fit(trajectory@, entry_recv_ms),
    ensures
        extreme(true, window(trajectory@, entry_recv_ms, window_s), entry_recv_ms)
            == match r {
            Some((v, ms)) => Some((v as int, ms as int)),
            None => None,
        },
{
    extreme_in_window(true, trajectory, entry_recv_ms, window_s)
}

/// The lowest value in the window, with the offset at which it was first had.
pub fn min_bid_in_window(trajectory: &[Sample], entry_recv_ms: i64, window_s: i64) -> (r: Option<
    (u128, i64),
>)
    requires
        offsets_fit(trajectory@, entry_recv_ms),
    ensures
        extreme(false, window(trajectory@, entry_recv_ms, window_s), entry_recv_ms)
            == match r {
            Some((v, ms)) => Some((v as int, ms as int)),
            None => None,
        },
{
    extreme_in_window(false, trajectory, entry_recv_ms, window_s)
}

} // verus!
