//! Scroll speed that follows the tempo, and the distance scrolled over time.

use crate::chart::tempo::{
    ascending, is_last_max, lemma_span_takes_time, lemma_starts_ascend,
    lemma_time_segment_bounds, lemma_walk_to_start, length_defined, secs_before,
    segment_at_time, segment_at_time_defined, span_seconds, time_segment_from, BpmList, Length,
    Tempo,
};
use crate::ratio::{fits, Ratio};
use vstd::prelude::*;

verus! {

/// The greatest tempo of the timeline; zero where there is no segment.
pub open spec fn greatest_value(s: Seq<Tempo>) -> real
    decreases s.len(),
{
    if s.len() == 0 {
        0real
    } else if s.len() == 1 {
        s[0].value
    } else {
        let before = greatest_value(s.drop_last());
        if s.last().value >= before {
            s.last().value
        } else {
            before
        }
    }
}

/// The greatest tempo is the tempo of a segment, and no segment has a greater.
pub proof fn lemma_greatest_value(s: Seq<Tempo>)
    requires
        s.len() > 0,
    ensures
        forall|j: int| 0 <= j < s.len() ==> (#[trigger] s[j]).value <= greatest_value(s),
        exists|j: int| 0 <= j < s.len() && (#[trigger] s[j]).value == greatest_value(s),
    decreases s.len(),
{
    if s.len() == 1 {
        assert(s[0].value == greatest_value(s));
    } else {
        let t = s.drop_last();
        lemma_greatest_value(t);
        let w = choose|j: int| 0 <= j < t.len() && (#[trigger] t[j]).value == greatest_value(t);
        assert(t[w] == s[w]);
        assert forall|j: int| 0 <= j < s.len() implies (#[trigger] s[j]).value <= greatest_value(
            s,
        ) by {
            if j < t.len() {
                assert(t[j] == s[j]);
            }
        }
        if s.last().value >= greatest_value(t) {
            assert(s[s.len() - 1].value == greatest_value(s));
        } else {
            assert(s[w].value == greatest_value(s));
        }
    }
}

/// The scroll speed at time `t`: the base speed `value`, scaled by the tempo
/// at `t` over the greatest tempo of the timeline.
pub open spec fn speed_at(value: real, s: Seq<Tempo>, t: real) -> real {
    value * (s[segment_at_time(s, t)].value / greatest_value(s))
}

/// Whether the speed at time `t` can be computed: the segment at `t` can be
/// found, the greatest tempo is not zero, and the scale and the speed fit.
pub open spec fn speed_defined(value: real, s: Seq<Tempo>, t: real) -> bool {
    &&& segment_at_time_defined(s, t)
    &&& greatest_value(s) != 0real
    &&& fits(s[segment_at_time(s, t)].value / greatest_value(s))
    &&& fits(speed_at(value, s, t))
}

/// The speed that is used throughout segment `i`: the speed at its start.
pub open spec fn segment_speed(value: real, s: Seq<Tempo>, i: int) -> real {
    speed_at(value, s, secs_before(s, i))
}

/// The distance scrolled from time zero to the start of segment `i`.
pub open spec fn distance_before(value: real, s: Seq<Tempo>, i: int) -> real
    decreases i,
{
    if i <= 0 {
        0real
    } else {
        distance_before(value, s, i - 1) + segment_speed(value, s, i - 1) * span_seconds(
            s[i - 1],
            s[i],
        )
    }
}

/// The distance scrolled from time zero to `time`: the distance over every
/// segment that has ended by then, and the speed of the segment at `time`
/// over the rest. Without segments it is zero.
pub open spec fn distance(value: real, s: Seq<Tempo>, time: real) -> real {
    if s.len() == 0 {
        0real
    } else {
        let k = time_segment_from(s, time, 0);
        distance_before(value, s, k) + segment_speed(value, s, k) * (time - secs_before(s, k))
    }
}

/// Whether segment `i` can be entered: its speed can be computed, and its
/// length where a segment follows.
pub open spec fn sweep_entry_defined(value: real, s: Seq<Tempo>, i: int) -> bool {
    &&& speed_defined(value, s, secs_before(s, i))
    &&& i + 1 < s.len() ==> length_defined(s, i)
}

/// Whether the sums at the start of segment `i` fit: the distance over the
/// segment before it, the distance and the seconds so far, and the time left.
pub open spec fn sweep_sums_defined(value: real, s: Seq<Tempo>, time: real, i: int) -> bool {
    &&& fits(segment_speed(value, s, i - 1) * span_seconds(s[i - 1], s[i]))
    &&& fits(distance_before(value, s, i))
    &&& fits(secs_before(s, i))
    &&& fits(time - secs_before(s, i))
}

/// Whether the distance up to `time` can be computed.
pub open spec fn distance_defined(value: real, s: Seq<Tempo>, time: real) -> bool {
    s.len() == 0 || {
        let k = time_segment_from(s, time, 0);
        &&& forall|i: int| 0 <= i <= k ==> #[trigger] sweep_entry_defined(value, s, i)
        &&& forall|i: int| 0 < i <= k ==> #[trigger] sweep_sums_defined(value, s, time, i)
        &&& fits(segment_speed(value, s, k) * (time - secs_before(s, k)))
        &&& fits(distance(value, s, time))
    }
}

/// The scroll speed throughout a segment is that of its own tempo: on an
/// ascending timeline, the segment at the start of segment `i` is `i`, so
/// the distance adds up the base speed, scaled by the tempo of each segment
/// over the greatest tempo, times the time spent in the segment.
pub proof fn lemma_segment_speed_is_of_its_tempo(value: real, s: Seq<Tempo>, i: int)
    requires
        ascending(s),
        0 <= i < s.len(),
    ensures
        segment_at_time(s, secs_before(s, i)) == i,
        segment_speed(value, s, i) == value * (s[i].value / greatest_value(s)),
{
    lemma_walk_to_start(s, i, 0);
    if i > 0 {
        lemma_starts_ascend(s, 0, i);
        lemma_span_takes_time(s, 0);
    }
}

/// A base scroll speed. The speed on screen follows the tempo: at the
/// greatest tempo of a chart it is the base speed, at half that tempo half of it.
#[derive(Clone, Copy, Debug)]
pub struct AutoVelocity {
    pub value: Ratio,
}

impl AutoVelocity {
    /// The scroll speed at the time `exact_time` in seconds. `None` where it
    /// cannot be computed.
    pub fn at_exact_time(&self, exact_time: Ratio, bpms: &BpmList) -> (r: Option<Ratio>)
        requires
            bpms@.len() > 0,
        ensures
            r is Some <==> speed_defined(self.value@, bpms@, exact_time@),
            r matches Some(v) ==> v@ == speed_at(self.value@, bpms@, exact_time@),
    {
        let now = match bpms.at_exact_time(exact_time) {
            Some(now) => now,
            None => {
                return None;
            },
        };
        let max = bpms.max();
        proof {
            let s = bpms@;
            lemma_greatest_value(s);
            let k = choose|k: int| is_last_max(s, k) && *max == bpms.0[k];
            assert(s[k] == bpms.0[k]@);
            assert(max.value@ == greatest_value(s));
            if !(s.len() == 1 || exact_time@ <= 0real) {
                lemma_time_segment_bounds(s, exact_time@, 0);
            }
            assert(s[segment_at_time(s, exact_time@)] == bpms.0[segment_at_time(
                s,
                exact_time@,
            )]@);
        }
        let scale = match now.value.checked_div(&max.value) {
            Some(scale) => scale,
            None => {
                return None;
            },
        };
        self.value.checked_mul(&scale)
    }

    /// The distance scrolled from time zero to `time` in seconds. `None`
    /// where it cannot be computed.
    pub fn over_time(&self, time: Ratio, bpms: &BpmList) -> (r: Option<Ratio>)
        ensures
            r is Some <==> distance_defined(self.value@, bpms@, time@),
            r matches Some(d) ==> d@ == distance(self.value@, bpms@, time@),
    {
        let n = bpms.0.len();
        let ghost s = bpms@;
        let ghost value = self.value@;
        let mut time_elapsed = Ratio::zero();
        let mut time_remaining = time;
        let mut cumulative = Ratio::zero();
        if n == 0 {
            return Some(cumulative);
        }
        let mut i: usize = 0;
        loop
            invariant
                0 <= i < n,
                n == bpms.0.len(),
                s == bpms@,
                s.len() == n,
                value == self.value@,
                time_elapsed@ == secs_before(s, i as int),
                time_remaining@ == time@ - secs_before(s, i as int),
                cumulative@ == distance_before(value, s, i as int),
                time_segment_from(s, time@, i as int) == time_segment_from(s, time@, 0),
                forall|j: int| 0 <= j < i ==> #[trigger] sweep_entry_defined(value, s, j),
                forall|j: int| 0 < j <= i ==> #[trigger] sweep_sums_defined(value, s, time@, j),
            decreases n - i,
        {
            proof {
                lemma_time_segment_bounds(s, time@, i as int);
            }
            let av = match self.at_exact_time(time_elapsed, bpms) {
                Some(av) => av,
                None => {
                    assert(!sweep_entry_defined(value, s, i as int));
                    return None;
                },
            };
            if i + 1 < n {
                assert(s[i as int] == bpms.0[i as int]@);
                assert(s[i + 1] == bpms.0[i + 1]@);
                let length = match bpms.0[i].length(Some(&bpms.0[i + 1])) {
                    Some(Length::Seconds(length)) => length,
                    _ => {
                        assert(!sweep_entry_defined(value, s, i as int));
                        return None;
                    },
                };
                assert(length_defined(s, i as int));
                assert(sweep_entry_defined(value, s, i as int));
                if !time_remaining.lt(&length) {
                    proof {
                        lemma_time_segment_bounds(s, time@, i + 1);
                    }
                    let covered = match av.checked_mul(&length) {
                        Some(covered) => covered,
                        None => {
                            assert(!sweep_sums_defined(value, s, time@, i + 1));
                            return None;
                        },
                    };
                    cumulative = match cumulative.checked_add(&covered) {
                        Some(cumulative) => cumulative,
                        None => {
                            assert(!sweep_sums_defined(value, s, time@, i + 1));
                            return None;
                        },
                    };
                    time_elapsed = match time_elapsed.checked_add(&length) {
                        Some(time_elapsed) => time_elapsed,
                        None => {
                            assert(!sweep_sums_defined(value, s, time@, i + 1));
                            return None;
                        },
                    };
                    time_remaining = match time_remaining.checked_sub(&length) {
                        Some(time_remaining) => time_remaining,
                        None => {
                            assert(!sweep_sums_defined(value, s, time@, i + 1));
                            return None;
                        },
                    };
                    assert(sweep_sums_defined(value, s, time@, i + 1));
                    i += 1;
                    continue ;
                }
            }
            assert(time_segment_from(s, time@, 0) == i);
            assert(sweep_entry_defined(value, s, i as int));
            let covered = match av.checked_mul(&time_remaining) {
                Some(covered) => covered,
                None => {
                    return None;
                },
            };
            return cumulative.checked_add(&covered);
        }
    }
}

} // verus!
