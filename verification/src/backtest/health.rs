//! How sound a recorded stream is. Only the times at which lines were received
//! are looked at.

use crate::backtest::record::{self, line_recv_ms};
use crate::json;
use vstd::prelude::*;

verus! {

/// What is known of one stream of one day.
#[derive(Debug, Clone)]
pub struct StreamHealth {
    pub date: String,
    pub stream: String,
    pub file_present: bool,
    pub n_lines: usize,
    pub n_with_recv_ms: usize,
    /// Lines that give no time.
    pub n_skipped: usize,
    /// Lines that are earlier than the one before them.
    pub n_out_of_order: usize,
    pub max_ooo_skew_ms: u64,
    /// Lines that come more than a minute after the one before them.
    pub n_gaps_over_60s: usize,
    /// The longest step forward from one line to the next, whatever its length.
    pub max_gap_ms: u64,
    pub first_recv_ms: Option<i64>,
    pub last_recv_ms: Option<i64>,
}

/// A step of more than this is a gap.
pub const GAP_MS: i128 = 60_000;

pub open spec fn larger(a: int, b: int) -> int {
    if a < b {
        b
    } else {
        a
    }
}

/// The counts after one more line.
pub open spec fn after_line(h: StreamHealth, g: StreamHealth, recv: Option<i64>) -> bool {
    &&& g.date == h.date
    &&& g.stream == h.stream
    &&& g.file_present == h.file_present
    &&& g.n_lines == h.n_lines + 1
    &&& match recv {
        None => {
            &&& g.n_skipped == h.n_skipped + 1
            &&& g.n_with_recv_ms == h.n_with_recv_ms
            &&& g.n_out_of_order == h.n_out_of_order
            &&& g.max_ooo_skew_ms == h.max_ooo_skew_ms
            &&& g.n_gaps_over_60s == h.n_gaps_over_60s
            &&& g.max_gap_ms == h.max_gap_ms
            &&& g.first_recv_ms == h.first_recv_ms
            &&& g.last_recv_ms == h.last_recv_ms
        },
        Some(t) => {
            let step: int = match h.last_recv_ms {
                Some(p) => t - p,
                None => 0,
            };
            &&& g.n_skipped == h.n_skipped
            &&& g.n_with_recv_ms == h.n_with_recv_ms + 1
            &&& g.first_recv_ms == (match h.first_recv_ms {
                Some(f) => Some(f),
                None => Some(t),
            })
            &&& g.last_recv_ms == Some(t)
            &&& g.n_out_of_order == h.n_out_of_order + (if step < 0 {
                1int
            } else {
                0int
            })
            &&& g.max_ooo_skew_ms == (if step < 0 {
                larger(h.max_ooo_skew_ms as int, -step)
            } else {
                h.max_ooo_skew_ms as int
            })
            &&& g.n_gaps_over_60s == h.n_gaps_over_60s + (if step > GAP_MS {
                1int
            } else {
                0int
            })
            &&& g.max_gap_ms == (if step > 0 {
                larger(h.max_gap_ms as int, step)
            } else {
                h.max_gap_ms as int
            })
        },
    }
}

impl StreamHealth {
    /// Every line gives a time or is passed over, and what is counted of lines is
    /// not more than the lines.
    pub open spec fn wf(self) -> bool {
        &&& self.n_with_recv_ms + self.n_skipped == self.n_lines
        &&& self.n_out_of_order + self.n_gaps_over_60s <= self.n_with_recv_ms
        &&& self.first_recv_ms is Some <==> self.n_with_recv_ms > 0
        &&& self.last_recv_ms is Some <==> self.n_with_recv_ms > 0
    }

    /// A stream of which nothing has been read.
    pub fn new(date: String, stream: String, file_present: bool) -> (r: StreamHealth)
        ensures
            r.wf(),
            r.date == date,
            r.stream == stream,
            r.file_present == file_present,
            r.n_lines == 0,
            r.max_ooo_skew_ms == 0,
            r.max_gap_ms == 0,
    {
        StreamHealth {
            date,
            stream,
            file_present,
            n_lines: 0,
            n_with_recv_ms: 0,
            n_skipped: 0,
            n_out_of_order: 0,
            max_ooo_skew_ms: 0,
            n_gaps_over_60s: 0,
            max_gap_ms: 0,
            first_recv_ms: None,
            last_recv_ms: None,
        }
    }

    /// Counts a line that was received at the given time, if it gives one.
    pub fn count_line(&mut self, recv: Option<i64>)
        requires
            old(self).wf(),
            old(self).n_lines < usize::MAX,
        ensures
            final(self).wf(),
            after_line(*old(self), *final(self), recv),
    {
        self.n_lines = self.n_lines + 1;
        match recv {
            None => {
                self.n_skipped = self.n_skipped + 1;
            },
            Some(t) => {
                self.n_with_recv_ms = self.n_with_recv_ms + 1;
                match self.last_recv_ms {
                    Some(p) => {
                        let step: i128 = t as i128 - p as i128;
                        if step < 0 {
                            self.n_out_of_order = self.n_out_of_order + 1;
                            let skew: u64 = (-step) as u64;
                            if self.max_ooo_skew_ms < skew {
                                self.max_ooo_skew_ms = skew;
                            }
                        } else {
                            if step > GAP_MS {
                                self.n_gaps_over_60s = self.n_gaps_over_60s + 1;
                            }
                            let gap: u64 = step as u64;
                            if self.max_gap_ms < gap {
                                self.max_gap_ms = gap;
                            }
                        }
                    },
                    None => {},
                }
                if self.first_recv_ms.is_none() {
                    self.first_recv_ms = Some(t);
                }
                self.last_recv_ms = Some(t);
            },
        }
    }

    /// Counts a line as it was recorded; `None` is a line that could not be read.
    pub fn scan_line(&mut self, line: Option<&str>)
        requires
            old(self).wf(),
            old(self).n_lines < usize::MAX,
        ensures
            final(self).wf(),
            exists|recv: Option<i64>| #[trigger]
                after_line(*old(self), *final(self), recv) && json::opt_int(recv) == match line {
                    Some(l) => record::received_in_line(l@),
                    None => None,
                },
    {
        let recv = match line {
            Some(l) => line_recv_ms(l),
            None => None,
        };
        self.count_line(recv);
    }
}

/// The lines of a stream, one after the other.
pub open spec fn counted(first: StreamHealth, states: Seq<StreamHealth>, recvs: Seq<Option<i64>>) -> bool {
    &&& states.len() == recvs.len() + 1
    &&& states[0] == first
    &&& forall|i: int|
        0 <= i < recvs.len() ==> after_line(#[trigger] states[i], states[i + 1], recvs[i])
}

/// The last time that the first `n` lines give.
pub open spec fn last_time(recvs: Seq<Option<i64>>, n: int) -> Option<i64>
    decreases n,
{
    if n <= 0 {
        None
    } else if recvs[n - 1] is Some {
        recvs[n - 1]
    } else {
        last_time(recvs, n - 1)
    }
}

/// The step from the time before to the time of a line; 0 where there is none.
pub open spec fn step_at(recvs: Seq<Option<i64>>, i: int) -> int {
    match (last_time(recvs, i), recvs[i]) {
        (Some(p), Some(t)) => t - p,
        _ => 0,
    }
}

/// The longest gap of a stream is its largest step forward: no step is larger, and
/// one is as large, unless the stream has no step forward. In the same way the
/// largest skew is its largest step back.
pub proof fn law_longest_gap_is_the_largest_step(
    states: Seq<StreamHealth>,
    recvs: Seq<Option<i64>>,
    n: int,
)
    requires
        0 <= n <= recvs.len(),
        states.len() > 0,
        counted(states[0], states, recvs),
        states[0].n_lines == 0,
        states[0].max_gap_ms == 0,
        states[0].max_ooo_skew_ms == 0,
        states[0].wf(),
    ensures
        states[n].last_recv_ms == last_time(recvs, n),
        forall|i: int| 0 <= i < n ==> #[trigger] step_at(recvs, i) <= states[n].max_gap_ms,
        forall|i: int| 0 <= i < n ==> -(#[trigger] step_at(recvs, i)) <= states[n].max_ooo_skew_ms,
        states[n].max_gap_ms > 0 ==> exists|i: int|
            0 <= i < n && #[trigger] step_at(recvs, i) == states[n].max_gap_ms,
        states[n].max_ooo_skew_ms > 0 ==> exists|i: int|
            0 <= i < n && -(#[trigger] step_at(recvs, i)) == states[n].max_ooo_skew_ms,
    decreases n,
{
    if n > 0 {
        law_longest_gap_is_the_largest_step(states, recvs, n - 1);
        let h = states[n - 1];
        assert(after_line(states[n - 1], states[n - 1 + 1], recvs[n - 1]));
        let step = step_at(recvs, n - 1);
        if h.max_gap_ms > 0 && states[n].max_gap_ms == h.max_gap_ms {
            let i = choose|i: int| 0 <= i < n - 1 && #[trigger] step_at(recvs, i) == h.max_gap_ms;
            assert(step_at(recvs, i) == states[n].max_gap_ms);
        }
        if h.max_ooo_skew_ms > 0 && states[n].max_ooo_skew_ms == h.max_ooo_skew_ms {
            let i = choose|i: int|
                0 <= i < n - 1 && -(#[trigger] step_at(recvs, i)) == h.max_ooo_skew_ms;
            assert(-step_at(recvs, i) == states[n].max_ooo_skew_ms);
        }
    }
}

/// A stream in the order of its times has no line out of order, and its lines
/// were received between its first time and its last.
pub proof fn law_ordered_streams_are_sound(
    states: Seq<StreamHealth>,
    recvs: Seq<Option<i64>>,
    n: int,
)
    requires
        0 <= n <= recvs.len(),
        states.len() > 0,
        counted(states[0], states, recvs),
        states[0].n_lines == 0,
        states[0].n_out_of_order == 0,
        states[0].wf(),
        forall|i: int, j: int|
            0 <= i <= j < recvs.len() ==> ((#[trigger] recvs[i]) matches Some(a) ==> (
            #[trigger] recvs[j] matches Some(b) ==> a <= b)),
    ensures
        states[n].n_out_of_order == 0,
        states[n].n_lines == n,
        states[n].last_recv_ms matches Some(t) ==> exists|k: int|
            0 <= k < n && #[trigger] recvs[k] == Some(t),
    decreases n,
{
    if n > 0 {
        law_ordered_streams_are_sound(states, recvs, n - 1);
        assert(after_line(states[n - 1], states[n - 1 + 1], recvs[n - 1]));
        match states[n - 1].last_recv_ms {
            Some(p) => {
                let k = choose|k: int| 0 <= k < n - 1 && #[trigger] recvs[k] == Some(p);
                assert(recvs[k] == Some(p));
                match recvs[n - 1] {
                    Some(t) => {
                        assert(p <= t);
                        assert(recvs[n - 1] == Some(t));
                    },
                    None => {
                        assert(recvs[k] == Some(p));
                    },
                }
            },
            None => {
                match recvs[n - 1] {
                    Some(t) => {
                        assert(recvs[n - 1] == Some(t));
                    },
                    None => {},
                }
            },
        }
    }
}

} // verus!
