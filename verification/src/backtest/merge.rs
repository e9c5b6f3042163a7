//! Recorded events, and the merge of several streams of them into one timeline.

use crate::backtest::book::BookSide;
use crate::config::Num;
use crate::order::{self, sort_by_keys};
use vstd::prelude::*;

verus! {

/// What happened.
#[derive(Debug)]
pub enum Ev {
    /// A finished one-second candle.
    Kline { asset: String, t_open_ms: i64, close: Num },
    /// All levels of a token's book.
    BookSnapshot { token: String, bids: Vec<(u32, Num)>, asks: Vec<(u32, Num)>, ts_ms: i64 },
    /// The new size of one level.
    PriceChange { token: String, key: u32, size: Num, side: BookSide, ts_ms: i64 },
}

/// An event with the time at which the recorder received it.
#[derive(Debug)]
pub struct TimedEvent {
    pub recv_ms: i64,
    pub ev: Ev,
}

/// The times of events.
pub open spec fn times(s: Seq<TimedEvent>) -> Seq<i128> {
    s.map_values(|e: TimedEvent| e.recv_ms as i128)
}

/// No event is earlier than the one before it.
pub open spec fn monotonic(s: Seq<TimedEvent>) -> bool {
    forall|i: int, j: int|
        0 <= i <= j < s.len() ==> (#[trigger] s[i]).recv_ms <= (#[trigger] s[j]).recv_ms
}

/// `r` is `s` in the order of the times; events of one time keep their order.
pub open spec fn is_stable_sort(r: Seq<TimedEvent>, s: Seq<TimedEvent>) -> bool {
    order::is_stable_sort(r, s, times(s))
}

/// Sorts events by their times; events of one time keep their order.
pub fn sort_events(events: Vec<TimedEvent>) -> (r: Vec<TimedEvent>)
    ensures
        is_stable_sort(r@, events@),
{
    let mut keys: Vec<i128> = Vec::new();
    let mut i: usize = 0;
    while i < events.len()
        invariant
            i <= events@.len(),
            keys@ == times(events@).take(i as int),
        decreases events@.len() - i,
    {
        keys.push(events[i].recv_ms as i128);
        assert(keys@ =~= times(events@).take(i + 1));
        i += 1;
    }
    assert(keys@ =~= times(events@));
    sort_by_keys(events, keys.as_slice())
}

/// Which stream comes first: the one whose next event is earliest; among equals
/// the one with the lowest number.
pub open spec fn first_stream(streams: Seq<Seq<TimedEvent>>, n: int) -> Option<int>
    decreases n,
{
    if n <= 0 {
        None
    } else {
        let best = first_stream(streams, n - 1);
        let s = streams[n - 1];
        if s.len() > 0 && (match best {
            Some(b) => s[0].recv_ms < streams[b][0].recv_ms,
            None => true,
        }) {
            Some(n - 1)
        } else {
            best
        }
    }
}

pub open spec fn total_len(streams: Seq<Seq<TimedEvent>>) -> nat
    decreases streams.len(),
{
    if streams.len() == 0 {
        0
    } else {
        total_len(streams.drop_last()) + streams.last().len()
    }
}

/// All streams one after the other.
pub open spec fn flat(streams: Seq<Seq<TimedEvent>>) -> Seq<TimedEvent>
    decreases streams.len(),
{
    if streams.len() == 0 {
        Seq::empty()
    } else {
        flat(streams.drop_last()) + streams.last()
    }
}

/// The place of a stream's first event among all.
pub open spec fn start(streams: Seq<Seq<TimedEvent>>, i: int) -> int
    decreases i,
{
    if i <= 0 {
        0
    } else {
        start(streams, i - 1) + streams[i - 1].len()
    }
}

proof fn lemma_first_stream(streams: Seq<Seq<TimedEvent>>, n: int)
    requires
        0 <= n <= streams.len(),
    ensures
        match first_stream(streams, n) {
            Some(b) => {
                &&& 0 <= b < n
                &&& streams[b].len() > 0
                &&& forall|j: int|
                    0 <= j < n && (#[trigger] streams[j]).len() > 0 ==> streams[b][0].recv_ms
                        <= streams[j][0].recv_ms && (j < b ==> streams[b][0].recv_ms
                        < streams[j][0].recv_ms)
            },
            None => forall|j: int| 0 <= j < n ==> (#[trigger] streams[j]).len() == 0,
        },
    decreases n,
{
    if n > 0 {
        lemma_first_stream(streams, n - 1);
    }
}

proof fn lemma_total_update(streams: Seq<Seq<TimedEvent>>, i: int, s: Seq<TimedEvent>)
    requires
        0 <= i < streams.len(),
    ensures
        total_len(streams.update(i, s)) == total_len(streams) - streams[i].len() + s.len(),
        total_len(streams) >= streams[i].len(),
    decreases streams.len(),
{
    if i == streams.len() - 1 {
        assert(streams.update(i, s).drop_last() =~= streams.drop_last());
    } else {
        assert(streams.update(i, s).drop_last() =~= streams.drop_last().update(i, s));
        lemma_total_update(streams.drop_last(), i, s);
        assert(streams.drop_last()[i] == streams[i]);
    }
}

/// The merged timeline.
pub open spec fn merged(streams: Seq<Seq<TimedEvent>>) -> Seq<TimedEvent>
    decreases total_len(streams),
    when true
    via merged_decreases
{
    match first_stream(streams, streams.len() as int) {
        Some(b) => seq![streams[b][0]] + merged(streams.update(b, streams[b].drop_first())),
        None => Seq::empty(),
    }
}

#[via_fn]
proof fn merged_decreases(streams: Seq<Seq<TimedEvent>>) {
    lemma_first_stream(streams, streams.len() as int);
    match first_stream(streams, streams.len() as int) {
        Some(b) => {
            lemma_total_update(streams, b, streams[b].drop_first());
        },
        None => {},
    }
}

/// How often an event of a stream is earlier than the one before it.
pub open spec fn descents(last: int, s: Seq<TimedEvent>) -> nat
    decreases s.len(),
{
    if s.len() == 0 {
        0
    } else {
        (if s[0].recv_ms < last {
            1nat
        } else {
            0nat
        }) + descents(s[0].recv_ms as int, s.drop_first())
    }
}

/// A monotonic stream is never counted as out of order.
pub proof fn law_monotonic_streams_have_no_descents(last: int, s: Seq<TimedEvent>)
    requires
        monotonic(s),
        s.len() > 0 ==> last <= s[0].recv_ms,
    ensures
        descents(last, s) == 0,
    decreases s.len(),
{
    if s.len() > 0 {
        assert forall|i: int, j: int| 0 <= i <= j < s.drop_first().len() implies (
        #[trigger] s.drop_first()[i]).recv_ms <= (#[trigger] s.drop_first()[j]).recv_ms by {
            assert(s.drop_first()[i] == s[i + 1]);
            assert(s.drop_first()[j] == s[j + 1]);
        }
        if s.len() > 1 {
            assert(s[0].recv_ms <= s[1].recv_ms);
        }
        law_monotonic_streams_have_no_descents(s[0].recv_ms as int, s.drop_first());
    }
}

// The merge and the sort.

/// What is left of the streams.
spec fn left(streams: Seq<Seq<TimedEvent>>, used: Seq<int>) -> Seq<Seq<TimedEvent>> {
    Seq::new(streams.len(), |i: int| streams[i].skip(used[i]))
}

spec fn used_ok(streams: Seq<Seq<TimedEvent>>, used: Seq<int>) -> bool {
    &&& used.len() == streams.len()
    &&& forall|i: int| 0 <= i < streams.len() ==> 0 <= #[trigger] used[i] <= streams[i].len()
}

/// The places, among all events, in which the merge takes what is left.
spec fn merge_places(streams: Seq<Seq<TimedEvent>>, used: Seq<int>, fuel: nat) -> Seq<usize>
    decreases fuel,
{
    if fuel == 0 {
        Seq::empty()
    } else {
        match first_stream(left(streams, used), streams.len() as int) {
            Some(b) => seq![(start(streams, b) + used[b]) as usize] + merge_places(
                streams,
                used.update(b, used[b] + 1),
                (fuel - 1) as nat,
            ),
            None => Seq::empty(),
        }
    }
}

proof fn lemma_start_total(streams: Seq<Seq<TimedEvent>>, i: int)
    requires
        0 <= i <= streams.len(),
    ensures
        start(streams, i) == total_len(streams.take(i)),
        flat(streams.take(i)).len() == start(streams, i),
        start(streams, i) >= 0,
    decreases i,
{
    if i > 0 {
        lemma_start_total(streams, i - 1);
        assert(streams.take(i).drop_last() =~= streams.take(i - 1));
        assert(streams.take(i).last() == streams[i - 1]);
    }
}

proof fn lemma_start_order(streams: Seq<Seq<TimedEvent>>, i: int, j: int)
    requires
        0 <= i <= j <= streams.len(),
    ensures
        i < j ==> start(streams, i) + streams[i].len() <= start(streams, j),
        start(streams, i) <= start(streams, j),
    decreases j - i,
{
    if i < j {
        lemma_start_order(streams, i, j - 1);
    }
}

proof fn lemma_flat_at(streams: Seq<Seq<TimedEvent>>, i: int, k: int)
    requires
        0 <= i < streams.len(),
        0 <= k < streams[i].len(),
    ensures
        0 <= start(streams, i) + k < flat(streams).len(),
        flat(streams)[start(streams, i) + k] == streams[i][k],
    decreases streams.len(),
{
    let n = streams.len() as int;
    lemma_start_total(streams, n - 1);
    assert(streams.take(n - 1) =~= streams.drop_last());
    if i == n - 1 {
        assert(flat(streams.drop_last()).len() == start(streams, n - 1));
    } else {
        assert(streams.drop_last()[i] == streams[i]);
        lemma_flat_at(streams.drop_last(), i, k);
        lemma_start_local(streams, i);
    }
}

proof fn lemma_start_local(streams: Seq<Seq<TimedEvent>>, i: int)
    requires
        0 <= i < streams.len(),
    ensures
        start(streams.drop_last(), i) == start(streams, i),
    decreases i,
{
    if i > 0 {
        lemma_start_local(streams, i - 1);
        assert(streams.drop_last()[i - 1] == streams[i - 1]);
    }
}

/// Place `p` belongs to what is left.
spec fn left_place(streams: Seq<Seq<TimedEvent>>, used: Seq<int>, p: int, i: int) -> bool {
    &&& 0 <= i < streams.len()
    &&& start(streams, i) + used[i] <= p < start(streams, i) + streams[i].len()
}

spec fn is_left(streams: Seq<Seq<TimedEvent>>, used: Seq<int>, p: int) -> bool {
    exists|i: int| #[trigger] left_place(streams, used, p, i)
}

proof fn lemma_stream_of_place(streams: Seq<Seq<TimedEvent>>, n: int, p: int) -> (i: int)
    requires
        0 <= n <= streams.len(),
        0 <= p < start(streams, n),
    ensures
        0 <= i < n,
        start(streams, i) <= p < start(streams, i) + streams[i].len(),
    decreases n,
{
    if n <= 0 {
        0
    } else if p >= start(streams, n - 1) {
        n - 1
    } else {
        lemma_stream_of_place(streams, n - 1, p)
    }
}

proof fn lemma_merge_places(streams: Seq<Seq<TimedEvent>>, used: Seq<int>, fuel: nat)
    requires
        used_ok(streams, used),
        forall|i: int| 0 <= i < streams.len() ==> monotonic(#[trigger] streams[i]),
        total_len(left(streams, used)) == fuel,
        flat(streams).len() <= usize::MAX,
    ensures
        order::in_order(times(flat(streams)), merge_places(streams, used, fuel)),
        merge_places(streams, used, fuel).len() == fuel,
        forall|x: int|
            0 <= x < fuel ==> is_left(
                streams,
                used,
                #[trigger] merge_places(streams, used, fuel)[x] as int,
            ),
        forall|p: int, i: int| #[trigger]
            left_place(streams, used, p, i) ==> order::has_place(
                merge_places(streams, used, fuel),
                p,
            ),
        order::picked(
            merged(left(streams, used)),
            flat(streams),
            merge_places(streams, used, fuel),
        ),
    decreases fuel,
{
    let l = left(streams, used);
    let n = streams.len() as int;
    lemma_first_stream(l, n);
    let keys = times(flat(streams));
    match first_stream(l, n) {
        None => {
            lemma_all_empty(l);
            assert forall|p: int, i: int| !left_place(streams, used, p, i) by {
                if left_place(streams, used, p, i) {
                    assert(l[i].len() == 0);
                }
            }
        },
        Some(b) => {
            lemma_total_update(l, b, l[b].drop_first());
            let next = used.update(b, used[b] + 1);
            assert(left(streams, next) =~= l.update(b, l[b].drop_first())) by {
                assert(streams[b].skip(used[b]).drop_first() =~= streams[b].skip(used[b] + 1));
            }
            assert(l[b].len() > 0);
            assert(fuel > 0);
            let m = merge_places(streams, used, fuel);
            let rest = merge_places(streams, next, (fuel - 1) as nat);
            lemma_merge_places(streams, next, (fuel - 1) as nat);
            let p0 = start(streams, b) + used[b];
            lemma_flat_at(streams, b, used[b]);
            lemma_start_total(streams, b);
            assert(m =~= seq![p0 as usize] + rest);
            assert(m[0] == p0);
            assert(l[b][0] == streams[b][used[b]]);
            assert forall|x: int, y: int| 0 <= x < y < m.len() implies order::earlier(
                keys,
                #[trigger] m[x] as int,
                #[trigger] m[y] as int,
            ) by {
                if x == 0 {
                    let q = rest[y - 1] as int;
                    assert(m[y] == rest[y - 1]);
                    assert(is_left(streams, next, q));
                    let j = choose|j: int| #[trigger] left_place(streams, next, q, j);
                    let k = q - start(streams, j);
                    lemma_flat_at(streams, j, k);
                    assert(l[j].len() > 0) by {
                        assert(next[j] >= used[j]);
                    }
                    assert(l[j][0] == streams[j][used[j]]);
                    assert(streams[j][used[j]].recv_ms <= streams[j][k].recv_ms);
                    if b < j {
                        lemma_start_order(streams, b, j);
                    }
                    assert(keys[p0] == streams[b][used[b]].recv_ms);
                    assert(keys[q] == streams[j][k].recv_ms);
                } else {
                    assert(m[x] == rest[x - 1]);
                    assert(m[y] == rest[y - 1]);
                }
            }
            assert forall|x: int| 0 <= x < fuel implies is_left(
                streams,
                used,
                #[trigger] m[x] as int,
            ) by {
                if x == 0 {
                    assert(left_place(streams, used, m[0] as int, b));
                } else {
                    assert(m[x] == rest[x - 1]);
                    assert(is_left(streams, next, rest[x - 1] as int));
                    let j = choose|j: int| #[trigger]
                        left_place(streams, next, rest[x - 1] as int, j);
                    assert(left_place(streams, used, m[x] as int, j));
                }
            }
            assert forall|p: int, i: int| #[trigger] left_place(
                streams,
                used,
                p,
                i,
            ) implies order::has_place(m, p) by {
                if p == p0 {
                    assert(m[0] == p);
                } else {
                    assert(left_place(streams, next, p, i));
                    assert(order::has_place(rest, p));
                    let x = choose|x: int| 0 <= x < rest.len() && #[trigger] rest[x] == p;
                    assert(m[x + 1] == p);
                }
            }
            let after = merged(l.update(b, l[b].drop_first()));
            assert(merged(l) == seq![l[b][0]] + after);
            assert forall|x: int| 0 <= x < m.len() implies #[trigger] merged(l)[x] == flat(
                streams,
            )[m[x] as int] by {
                if x > 0 {
                    assert(m[x] == rest[x - 1]);
                    assert(merged(l)[x] == after[x - 1]);
                }
            }
        },
    }
}

proof fn lemma_all_empty(streams: Seq<Seq<TimedEvent>>)
    requires
        forall|j: int| 0 <= j < streams.len() ==> (#[trigger] streams[j]).len() == 0,
    ensures
        total_len(streams) == 0,
    decreases streams.len(),
{
    if streams.len() > 0 {
        assert(streams.last() == streams[streams.len() - 1]);
        assert forall|j: int| 0 <= j < streams.drop_last().len() implies (
        #[trigger] streams.drop_last()[j]).len() == 0 by {
            assert(streams.drop_last()[j] == streams[j]);
        }
        lemma_all_empty(streams.drop_last());
    }
}

/// Where every stream is in the order of its times, the merge is exactly what
/// sorting all the streams, one behind the other, gives: so events of one time
/// come by the number of their stream, and those of one stream as they stand in
/// it.
pub proof fn law_merge_is_the_stable_sort(streams: Seq<Seq<TimedEvent>>)
    requires
        forall|i: int| 0 <= i < streams.len() ==> monotonic(#[trigger] streams[i]),
        flat(streams).len() <= usize::MAX,
    ensures
        is_stable_sort(merged(streams), flat(streams)),
{
    let used = Seq::new(streams.len(), |i: int| 0int);
    let l = left(streams, used);
    assert forall|i: int| 0 <= i < streams.len() implies l[i] == #[trigger] streams[i] by {
        assert(streams[i].skip(0) =~= streams[i]);
    }
    assert(l =~= streams);
    let fuel = total_len(streams);
    lemma_merge_places(streams, used, fuel);
    let o = merge_places(streams, used, fuel);
    let n = streams.len() as int;
    lemma_start_total(streams, n);
    assert(streams.take(n) =~= streams);
    assert forall|p: int| 0 <= p < fuel implies #[trigger] order::has_place(o, p) by {
        let i = lemma_stream_of_place(streams, n, p);
        assert(left_place(streams, used, p, i));
    }
    assert forall|x: int| 0 <= x < o.len() implies 0 <= #[trigger] o[x] < fuel by {
        assert(is_left(streams, used, o[x] as int));
        let i = choose|i: int| #[trigger] left_place(streams, used, o[x] as int, i);
        lemma_start_order(streams, i, n);
    }
    assert(order::places(o, 0, fuel as int));
    assert(order::picked(merged(streams), flat(streams), o));
}

/// The heads of streams that are read one event at a time.
pub struct StreamingMerger {
    heads: Vec<Option<TimedEvent>>,
    last_recv_ms: Vec<i64>,
    ooo_warns: Vec<usize>,
    stream_names: Vec<String>,
}

/// A stream of the event that is ready, or an empty one.
pub open spec fn as_stream(e: Option<TimedEvent>) -> Seq<TimedEvent> {
    match e {
        Some(e) => seq![e],
        None => Seq::empty(),
    }
}

impl StreamingMerger {
    /// The next event of each stream, if it has one.
    pub closed spec fn heads(self) -> Seq<Option<TimedEvent>> {
        self.heads@
    }

    /// The time of the last event that was handed out, for each stream.
    pub closed spec fn last(self) -> Seq<i64> {
        self.last_recv_ms@
    }

    /// How many events of each stream came out of order.
    pub closed spec fn counts(self) -> Seq<usize> {
        self.ooo_warns@
    }

    pub closed spec fn names(self) -> Seq<String> {
        self.stream_names@
    }

    pub open spec fn wf(self) -> bool {
        &&& self.last().len() == self.heads().len()
        &&& self.counts().len() == self.heads().len()
        &&& self.names().len() == self.heads().len()
    }

    /// The stream whose event comes next.
    pub open spec fn next_stream(self) -> Option<int> {
        first_stream(
            self.heads().map_values(|e: Option<TimedEvent>| as_stream(e)),
            self.heads().len() as int,
        )
    }

    /// A merger over streams with these names and first events.
    pub fn new(streams: Vec<(String, Option<TimedEvent>)>) -> (r: StreamingMerger)
        ensures
            r.wf(),
            r.heads() == streams@.map_values(|s: (String, Option<TimedEvent>)| s.1),
            r.names() == streams@.map_values(|s: (String, Option<TimedEvent>)| s.0),
            forall|i: int| 0 <= i < r.counts().len() ==> #[trigger] r.counts()[i] == 0,
            forall|i: int| 0 <= i < r.last().len() ==> #[trigger] r.last()[i] == i64::MIN,
    {
        let mut heads: Vec<Option<TimedEvent>> = Vec::new();
        let mut last_recv_ms: Vec<i64> = Vec::new();
        let mut ooo_warns: Vec<usize> = Vec::new();
        let mut stream_names: Vec<String> = Vec::new();
        let ghost all = streams@;
        let mut rest = streams;
        while rest.len() > 0
            invariant
                heads@.len() + rest@.len() == all.len(),
                rest@ == all.skip(heads@.len() as int),
                last_recv_ms@.len() == heads@.len(),
                ooo_warns@.len() == heads@.len(),
                stream_names@.len() == heads@.len(),
                forall|i: int| 0 <= i < heads@.len() ==> #[trigger] heads@[i] == all[i].1,
                forall|i: int|
                    0 <= i < heads@.len() ==> #[trigger] stream_names@[i] == all[i].0,
                forall|i: int| 0 <= i < heads@.len() ==> #[trigger] ooo_warns@[i] == 0,
                forall|i: int|
                    0 <= i < heads@.len() ==> #[trigger] last_recv_ms@[i] == i64::MIN,
            decreases rest@.len(),
        {
            let (name, head) = rest.remove(0);
            heads.push(head);
            stream_names.push(name);
            ooo_warns.push(0);
            last_recv_ms.push(i64::MIN);
            assert(rest@ =~= all.skip(heads@.len() as int));
        }
        let r = StreamingMerger { heads, last_recv_ms, ooo_warns, stream_names };
        assert(r.heads() =~= all.map_values(|s: (String, Option<TimedEvent>)| s.1));
        assert(r.names() =~= all.map_values(|s: (String, Option<TimedEvent>)| s.0));
        r
    }

    fn first(&self) -> (r: Option<usize>)
        requires
            self.wf(),
        ensures
            match r {
                Some(i) => self.next_stream() == Some(i as int),
                None => self.next_stream() is None,
            },
    {
        let ghost streams = self.heads().map_values(|e: Option<TimedEvent>| as_stream(e));
        let mut best: Option<(usize, i64)> = None;
        let mut i: usize = 0;
        while i < self.heads.len()
            invariant
                i <= self.heads@.len(),
                streams == self.heads().map_values(|e: Option<TimedEvent>| as_stream(e)),
                match best {
                    Some((b, t)) => first_stream(streams, i as int) == Some(b as int) && b < i
                        && streams[b as int].len() > 0 && streams[b as int][0].recv_ms == t,
                    None => first_stream(streams, i as int) is None,
                },
            decreases self.heads@.len() - i,
        {
            assert(streams[i as int] == as_stream(self.heads@[i as int]));
            match &self.heads[i] {
                Some(e) => {
                    let earlier = match best {
                        Some((_, t)) => e.recv_ms < t,
                        None => true,
                    };
                    if earlier {
                        best = Some((i, e.recv_ms));
                    }
                },
                None => {},
            }
            i += 1;
        }
        match best {
            Some((b, _)) => Some(b),
            None => None,
        }
    }

    /// Hands out the next event, with the number of its stream. The stream has
    /// no event ready then, until it is filled again.
    pub fn next(&mut self) -> (r: Option<(usize, TimedEvent)>)
        requires
            old(self).wf(),
            forall|i: int|
                0 <= i < old(self).counts().len() ==> #[trigger] old(self).counts()[i] < usize::MAX,
        ensures
            final(self).wf(),
            final(self).names() == old(self).names(),
            match r {
                Some((i, e)) => {
                    &&& old(self).next_stream() == Some(i as int)
                    &&& i < old(self).heads().len()
                    &&& old(self).heads()[i as int] == Some(e)
                    &&& final(self).heads() == old(self).heads().update(i as int, None)
                    &&& final(self).last() == old(self).last().update(i as int, e.recv_ms)
                    &&& final(self).counts() == old(self).counts().update(
                        i as int,
                        if e.recv_ms < old(self).last()[i as int] {
                            (old(self).counts()[i as int] + 1) as usize
                        } else {
                            old(self).counts()[i as int]
                        },
                    )
                },
                None => old(self).next_stream() is None && *final(self) == *old(self),
            },
    {
        match self.first() {
            None => None,
            Some(i) => {
                proof {
                    lemma_first_stream(
                        self.heads().map_values(|e: Option<TimedEvent>| as_stream(e)),
                        self.heads().len() as int,
                    );
                }
                let mut slot: Option<TimedEvent> = None;
                let ghost before = self.heads@;
                std::mem::swap(&mut self.heads[i], &mut slot);
                assert(self.heads@ =~= before.update(i as int, None));
                match slot {
                    None => None,
                    Some(e) => {
                        let ghost counts = self.ooo_warns@;
                        let ghost last = self.last_recv_ms@;
                        if e.recv_ms < self.last_recv_ms[i] {
                            assert(self.counts()[i as int] < usize::MAX);
                            let n: usize = self.ooo_warns[i] + 1;
                            self.ooo_warns.set(i, n);
                        } else {
                            assert(counts =~= counts.update(i as int, counts[i as int]));
                        }
                        self.last_recv_ms.set(i, e.recv_ms);
                        Some((i, e))
                    },
                }
            },
        }
    }

    /// Gives a stream its next event.
    pub fn refill(&mut self, i: usize, e: Option<TimedEvent>)
        requires
            old(self).wf(),
            i < old(self).heads().len(),
            old(self).heads()[i as int] is None,
        ensures
            final(self).wf(),
            final(self).heads() == old(self).heads().update(i as int, e),
            final(self).last() == old(self).last(),
            final(self).counts() == old(self).counts(),
            final(self).names() == old(self).names(),
    {
        self.heads.set(i, e);
    }

    /// Each stream's name, with how many of its events came out of order.
    pub fn out_of_order_summary(&self) -> (r: Vec<(String, usize)>)
        requires
            self.wf(),
        ensures
            r@.len() == self.names().len(),
            forall|i: int|
                0 <= i < r@.len() ==> (#[trigger] r@[i]).0@ == self.names()[i]@ && r@[i].1
                    == self.counts()[i],
    {
        let mut out: Vec<(String, usize)> = Vec::new();
        let mut i: usize = 0;
        while i < self.stream_names.len()
            invariant
                self.wf(),
                i <= self.stream_names@.len(),
                out@.len() == i,
                forall|k: int|
                    0 <= k < i ==> (#[trigger] out@[k]).0@ == self.names()[k]@ && out@[k].1
                        == self.counts()[k],
            decreases self.stream_names@.len() - i,
        {
            out.push((self.stream_names[i].clone(), self.ooo_warns[i]));
            i += 1;
        }
        out
    }
}

/// The events of named streams.
pub open spec fn contents(streams: Seq<(String, Vec<TimedEvent>)>) -> Seq<Seq<TimedEvent>> {
    streams.map_values(|s: (String, Vec<TimedEvent>)| s.1@)
}

/// What is left of a stream: the event that is ready, and those behind it, of
/// which the next one is last.
spec fn remaining(head: Option<TimedEvent>, behind: Seq<TimedEvent>) -> Seq<TimedEvent> {
    as_stream(head) + behind.reverse()
}

spec fn all_remaining(heads: Seq<Option<TimedEvent>>, behind: Seq<Vec<TimedEvent>>) -> Seq<
    Seq<TimedEvent>,
> {
    Seq::new(heads.len(), |i: int| remaining(heads[i], behind[i]@))
}

/// A stream with nothing ready has nothing left.
spec fn ready(heads: Seq<Option<TimedEvent>>, behind: Seq<Vec<TimedEvent>>) -> bool {
    forall|i: int|
        0 <= i < heads.len() ==> (#[trigger] heads[i] is None ==> behind[i]@.len() == 0)
}

proof fn lemma_same_first(a: Seq<Seq<TimedEvent>>, b: Seq<Seq<TimedEvent>>, n: int)
    requires
        0 <= n <= a.len(),
        a.len() == b.len(),
        forall|i: int|
            0 <= i < n ==> ((#[trigger] a[i]).len() == 0 <==> (#[trigger] b[i]).len() == 0) && (
            a[i].len() > 0 ==> a[i][0] == b[i][0]),
    ensures
        first_stream(a, n) == first_stream(b, n),
    decreases n,
{
    if n > 0 {
        lemma_same_first(a, b, n - 1);
        lemma_first_stream(a, n - 1);
    }
}

/// The first event of a stream is never counted, so the count stays below the
/// number of its events.
spec fn bounded(count: usize, last: i64, left: nat, whole: nat) -> bool {
    &&& left <= whole
    &&& count == 0 || count + left < whole
    &&& left == whole ==> last == i64::MIN
}

fn reversed(v: Vec<TimedEvent>) -> (r: Vec<TimedEvent>)
    ensures
        r@ == v@.reverse(),
{
    let ghost all = v@;
    let mut rest = v;
    let mut out: Vec<TimedEvent> = Vec::new();
    while rest.len() > 0
        invariant
            rest@ == all.take(rest@.len() as int),
            rest@.len() + out@.len() == all.len(),
            out@ == all.skip(rest@.len() as int).reverse(),
        decreases rest@.len(),
    {
        match rest.pop() {
            Some(e) => {
                out.push(e);
            },
            None => {},
        }
        assert(rest@ =~= all.take(rest@.len() as int));
        assert(out@ =~= all.skip(rest@.len() as int).reverse());
    }
    assert(all.skip(0) =~= all);
    out
}

/// The whole merged timeline of streams, and each stream's name with how many
/// of its events came out of order.
pub fn merge_streams(streams: Vec<(String, Vec<TimedEvent>)>) -> (r: (
    Vec<TimedEvent>,
    Vec<(String, usize)>,
))
    ensures
        r.0@ == merged(contents(streams@)),
        r.1@.len() == streams@.len(),
        forall|i: int|
            0 <= i < r.1@.len() ==> (#[trigger] r.1@[i]).0@ == streams@[i].0@ && r.1@[i].1
                == descents(i64::MIN as int, streams@[i].1@),
{
    let ghost all = streams@;
    let ghost whole = contents(all);
    let mut behind: Vec<Vec<TimedEvent>> = Vec::new();
    let mut firsts: Vec<(String, Option<TimedEvent>)> = Vec::new();
    let mut rest = streams;
    while rest.len() > 0
        invariant
            firsts@.len() + rest@.len() == all.len(),
            behind@.len() == firsts@.len(),
            rest@ == all.skip(firsts@.len() as int),
            forall|i: int| 0 <= i < firsts@.len() ==> (#[trigger] firsts@[i]).0 == all[i].0,
            forall|i: int|
                0 <= i < firsts@.len() ==> remaining((#[trigger] firsts@[i]).1, behind@[i]@)
                    == all[i].1@ && (firsts@[i].1 is None ==> behind@[i]@.len() == 0),
        decreases rest@.len(),
    {
        let (name, events) = rest.remove(0);
        let ghost before = events@;
        let mut back = reversed(events);
        let head = back.pop();
        assert(remaining(head, back@) =~= before) by {
            assert(before.reverse().reverse() =~= before);
            if before.len() > 0 {
                assert(head == Some(before[0]));
                assert(back@ =~= before.reverse().drop_last());
                assert(back@.reverse() =~= before.drop_first());
            }
        }
        firsts.push((name, head));
        behind.push(back);
        assert(rest@ =~= all.skip(firsts@.len() as int));
    }
    let mut merger = StreamingMerger::new(firsts);
    let mut out: Vec<TimedEvent> = Vec::new();
    let ghost n = all.len() as int;
    proof {
        assert(all_remaining(merger.heads(), behind@) =~= whole);
        assert forall|i: int| 0 <= i < n implies (#[trigger] merger.heads()[i] is None
            ==> behind@[i]@.len() == 0) by {
            assert(firsts@[i].1 == merger.heads()[i]);
        }
        assert(out@ + merged(whole) =~= merged(whole));
        assert forall|i: int| 0 <= i < n implies (#[trigger] merger.counts()[i]) + descents(
            merger.last()[i] as int,
            whole[i],
        ) == descents(i64::MIN as int, whole[i]) by {}
        assert forall|i: int| 0 <= i < n implies (#[trigger] merger.names()[i])@ == all[i].0@ by {
            assert(firsts@[i].0 == all[i].0);
        }
        assert forall|i: int| 0 <= i < n implies (#[trigger] whole[i]).len() <= usize::MAX by {
            assert(whole[i] == all[i].1@);
            let v = all[i].1;
            assert(v@.len() == v.len());
        }
    }
    loop
        invariant
            n == all.len(),
            whole == contents(all),
            merger.wf(),
            merger.heads().len() == n,
            behind@.len() == n,
            ready(merger.heads(), behind@),
            out@ + merged(all_remaining(merger.heads(), behind@)) == merged(whole),
            forall|i: int|
                0 <= i < n ==> (#[trigger] merger.counts()[i]) + descents(
                    merger.last()[i] as int,
                    all_remaining(merger.heads(), behind@)[i],
                ) == descents(i64::MIN as int, whole[i]),
            forall|i: int|
                0 <= i < n ==> bounded(
                    #[trigger] merger.counts()[i],
                    merger.last()[i],
                    all_remaining(merger.heads(), behind@)[i].len(),
                    whole[i].len(),
                ),
            forall|i: int| 0 <= i < n ==> (#[trigger] merger.names()[i])@ == all[i].0@,
            forall|i: int| 0 <= i < n ==> (#[trigger] whole[i]).len() <= usize::MAX,
        ensures
            merger.wf(),
            merger.heads().len() == n,
            out@ == merged(whole),
            forall|i: int|
                0 <= i < n ==> (#[trigger] merger.counts()[i]) == descents(
                    i64::MIN as int,
                    whole[i],
                ),
            forall|i: int| 0 <= i < n ==> (#[trigger] merger.names()[i])@ == all[i].0@,
        decreases total_len(all_remaining(merger.heads(), behind@)),
    {
        let ghost heads = merger.heads();
        let ghost rem = all_remaining(heads, behind@);
        let ghost tops = heads.map_values(|e: Option<TimedEvent>| as_stream(e));
        let ghost counts = merger.counts();
        let ghost last = merger.last();
        let ghost back = behind@;
        proof {
            assert forall|i: int| 0 <= i < n implies ((#[trigger] tops[i]).len() == 0 <==> (
            #[trigger] rem[i]).len() == 0) && (tops[i].len() > 0 ==> tops[i][0] == rem[i][0]) by {
                assert(heads[i] is None ==> behind@[i]@.len() == 0);
            }
            lemma_same_first(tops, rem, n);
            lemma_first_stream(rem, n);
            assert forall|i: int| 0 <= i < n implies (#[trigger] counts[i]) < usize::MAX by {
                assert(whole[i].len() <= usize::MAX);
                assert(bounded(counts[i], last[i], rem[i].len(), whole[i].len()));
            }
        }
        match merger.next() {
            None => {
                proof {
                    assert(merged(rem) =~= Seq::empty());
                    assert(out@ =~= merged(whole));
                    assert forall|i: int| 0 <= i < n implies (#[trigger] merger.counts()[i])
                        == descents(i64::MIN as int, whole[i]) by {
                        assert(rem[i].len() == 0);
                    }
                }
                break;
            },
            Some((i, e)) => {
                proof {
                    assert(rem[i as int].len() > 0);
                    assert(heads[i as int] == Some(e));
                    assert(rem[i as int][0] == e);
                }
                let mut b: Vec<TimedEvent> = Vec::new();
                std::mem::swap(&mut behind[i], &mut b);
                let ghost old_b = b@;
                let refill = b.pop();
                behind.set(i, b);
                let ghost rest_i = rem[i as int].drop_first();
                proof {
                    assert(rest_i =~= old_b.reverse());
                    assert(remaining(refill, b@) =~= rest_i) by {
                        if old_b.len() > 0 {
                            assert(b@ =~= old_b.drop_last());
                            assert(refill == Some(old_b.last()));
                        }
                    }
                }
                merger.refill(i, refill);
                out.push(e);
                proof {
                    let now = all_remaining(merger.heads(), behind@);
                    assert forall|k: int| 0 <= k < n && k != i implies behind@[k] == back[k] by {}
                    assert(now =~= rem.update(i as int, rest_i));
                    lemma_total_update(rem, i as int, rest_i);
                    assert(merged(rem) == seq![e] + merged(now));
                    assert(out@ + merged(now) =~= merged(whole));
                    assert forall|k: int| 0 <= k < n implies (#[trigger] merger.counts()[k])
                        + descents(merger.last()[k] as int, now[k]) == descents(
                        i64::MIN as int,
                        whole[k],
                    ) by {
                        assert(counts[k] + descents(last[k] as int, rem[k]) == descents(
                            i64::MIN as int,
                            whole[k],
                        ));
                    }
                    assert forall|k: int| 0 <= k < n implies bounded(
                        #[trigger] merger.counts()[k],
                        merger.last()[k],
                        now[k].len(),
                        whole[k].len(),
                    ) by {
                        assert(bounded(counts[k], last[k], rem[k].len(), whole[k].len()));
                    }
                    assert forall|k: int| 0 <= k < n implies (#[trigger] merger.heads()[k] is None
                        ==> behind@[k]@.len() == 0) by {
                        if k != i {
                            assert(heads[k] is None ==> back[k]@.len() == 0);
                        }
                    }
                }
            },
        }
    }
    let summary = merger.out_of_order_summary();
    (out, summary)
}

} // verus!
