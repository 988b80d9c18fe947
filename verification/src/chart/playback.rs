//! The chart that is being played, and what is due at a given time.
//!
//! Playing starts a lead-in of eight beats before the first beat of the
//! chart, so that the first notes can scroll into view: the time of the
//! chart is the time since playing started, less the lead-in.

use crate::chart::file::{scalable, scaled, Chart};
use crate::chart::notes::SyncedStructView;
use crate::chart::tempo::{exact_time, exact_time_defined, Beat, BpmList, Tempo};
use crate::ratio::{fits, Ratio};
use crate::velocity::{distance, distance_defined, AutoVelocity};
use vstd::prelude::*;

verus! {

/// What is happening to the chart at hand.
#[derive(Clone, Copy, Debug, PartialEq, Eq, Structural)]
pub enum ChartStatus {
    /// It is not being played.
    Idle,
    /// It is held. Nothing here leads to this state.
    Paused,
    /// It is being played.
    Playing,
}

/// The chart at hand, what is happening to it, and the time in seconds at
/// which playing it started.
#[derive(Clone, Debug)]
pub struct ChartInfo {
    pub chart: Chart,
    pub status: ChartStatus,
    pub start_time: Ratio,
}

/// The seconds of the lead-in: eight beats at the first tempo.
pub open spec fn lead_in(s: Seq<Tempo>) -> real {
    (60real / s[0].value) * 8real
}

/// The time of the chart at the time `now`, when playing started at `start`.
pub open spec fn chart_time(s: Seq<Tempo>, start: real, now: real) -> real {
    now - start - lead_in(s)
}

/// Whether the time of the chart can be computed.
pub open spec fn chart_time_defined(s: Seq<Tempo>, start: real, now: real) -> bool {
    &&& s[0].value != 0real
    &&& fits(60real / s[0].value)
    &&& fits(lead_in(s))
    &&& fits(now - start)
    &&& fits(chart_time(s, start, now))
}

/// How far a note at `beat` is from the line on which it is hit, at the
/// chart time `time`: what has scrolled by at `time`, less what will have
/// scrolled by when the note is due. It is zero when the note is due.
pub open spec fn offset(value: real, s: Seq<Tempo>, time: real, beat: real) -> real {
    distance(value, s, time) - distance(value, s, exact_time(s, beat))
}

/// Whether the offset of a note can be computed.
pub open spec fn offset_defined(value: real, s: Seq<Tempo>, time: real, beat: real) -> bool {
    &&& exact_time_defined(s, beat)
    &&& distance_defined(value, s, exact_time(s, beat))
    &&& distance_defined(value, s, time)
    &&& fits(offset(value, s, time, beat))
}

impl ChartInfo {
    /// The chart `chart` at hand, not yet played.
    pub fn new(chart: Chart) -> (r: ChartInfo)
        ensures
            r.chart == chart,
            r.status == ChartStatus::Idle,
            r.start_time@ == 0real,
    {
        ChartInfo { chart, status: ChartStatus::Idle, start_time: Ratio::zero() }
    }

    /// No chart at hand: the empty chart, not played.
    pub fn none() -> (r: ChartInfo)
        ensures
            r.chart.metadata.bpms@ == Seq::<Tempo>::empty(),
            r.chart.synced_structs@ == Seq::<SyncedStructView>::empty(),
            r.status == ChartStatus::Idle,
            r.start_time@ == 0real,
    {
        ChartInfo { chart: Chart::empty(), status: ChartStatus::Idle, start_time: Ratio::zero() }
    }

    /// Starts playing the chart at the time `now`, at `ratemod` times its
    /// speed. A chart without tempos, or one whose tempos cannot be
    /// multiplied by `ratemod`, is not started: nothing changes and the
    /// answer is `false`.
    pub fn start(&mut self, now: Ratio, ratemod: Ratio) -> (r: bool)
        ensures
            r == (old(self).chart.metadata.bpms@.len() > 0 && scalable(
                old(self).chart.metadata.bpms@,
                ratemod@,
            )),
            r ==> final(self).status == ChartStatus::Playing && final(self).start_time == now
                && final(self).chart.metadata.bpms@ == scaled(
                old(self).chart.metadata.bpms@,
                ratemod@,
            ),
            !r ==> final(self).status == old(self).status && final(self).start_time == old(self).start_time && final(self).chart.metadata.bpms == old(self).chart.metadata.bpms,
            final(self).chart.synced_structs == old(self).chart.synced_structs,
            final(self).chart.audio == old(self).chart.audio,
    {
        if self.chart.metadata.bpms.0.len() == 0 {
            return false;
        }
        if !self.chart.set_ratemod(ratemod) {
            return false;
        }
        self.start_time = now;
        self.status = ChartStatus::Playing;
        true
    }

    /// The time of the chart at the time `now`. `None` where it cannot be
    /// computed.
    pub fn chart_time(&self, now: Ratio) -> (r: Option<Ratio>)
        requires
            self.chart.metadata.bpms@.len() > 0,
        ensures
            r is Some <==> chart_time_defined(self.chart.metadata.bpms@, self.start_time@, now@),
            r matches Some(t) ==> t@ == chart_time(
                self.chart.metadata.bpms@,
                self.start_time@,
                now@,
            ),
    {
        let first = &self.chart.metadata.bpms.0[0];
        assert(self.chart.metadata.bpms@[0] == first@);
        let one_minute = Ratio::from_int(60);
        let one_beat = match one_minute.checked_div(&first.value) {
            Some(one_beat) => one_beat,
            None => {
                return None;
            },
        };
        let lead = match one_beat.checked_mul(&Ratio::from_int(8)) {
            Some(lead) => lead,
            None => {
                return None;
            },
        };
        let since = match now.checked_sub(&self.start_time) {
            Some(since) => since,
            None => {
                return None;
            },
        };
        since.checked_sub(&lead)
    }

    /// Whether the audio is due at the time `now`: the chart is being played
    /// and its lead-in is over. `None` where that cannot be computed.
    pub fn audio_due(&self, now: Ratio) -> (r: Option<bool>)
        requires
            self.status == ChartStatus::Playing ==> self.chart.metadata.bpms@.len() > 0,
        ensures
            self.status != ChartStatus::Playing ==> r == Some(false),
            self.status == ChartStatus::Playing ==> {
                &&& r is Some <==> chart_time_defined(
                    self.chart.metadata.bpms@,
                    self.start_time@,
                    now@,
                )
                &&& r matches Some(due) ==> due == (chart_time(
                    self.chart.metadata.bpms@,
                    self.start_time@,
                    now@,
                ) > 0real)
            },
    {
        match self.status {
            ChartStatus::Playing => match self.chart_time(now) {
                Some(time) => Some(time.is_positive()),
                None => None,
            },
            _ => Some(false),
        }
    }
}

impl AutoVelocity {
    /// How far a note at `beat` is from the line on which it is hit, at the
    /// chart time `time`. It is computed from the two times alone, so no
    /// error adds up from frame to frame. `None` where it cannot be computed.
    pub fn offset(&self, time: Ratio, beat: &Beat, bpms: &BpmList) -> (r: Option<Ratio>)
        ensures
            r is Some <==> offset_defined(self.value@, bpms@, time@, beat@),
            r matches Some(y) ==> y@ == offset(self.value@, bpms@, time@, beat@),
    {
        let due = match beat.to_exact_time(bpms) {
            Some(due) => due,
            None => {
                return None;
            },
        };
        let at_due = match self.over_time(due, bpms) {
            Some(at_due) => at_due,
            None => {
                return None;
            },
        };
        let at_time = match self.over_time(time, bpms) {
            Some(at_time) => at_time,
            None => {
                return None;
            },
        };
        at_time.checked_sub(&at_due)
    }
}

} // verus!
