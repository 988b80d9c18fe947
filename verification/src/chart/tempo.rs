//! The tempo timeline: beats, tempo segments, and the conversion between
//! musical time in beats and real time in seconds.

use crate::chart::error::{
    collect, lemma_collect_error, lemma_collect_step, BpmError, BpmListError, Error,
};
use crate::ratio::{fits, value_at, Ratio};
use crate::sequence::sorted_indices;
use crate::text::{
    chars_of, decimal_result, lemma_split_join, parse_decimal, split, split_chars, views,
};
use vstd::prelude::*;

verus! {

/// A position in musical time, counted in beats.
#[derive(Clone, Copy, Debug, PartialEq, Eq, Structural)]
pub struct Beat(pub Ratio);

impl View for Beat {
    type V = real;

    open spec fn view(&self) -> real {
        self.0@
    }
}

impl Default for Beat {
    fn default() -> (r: Beat)
        ensures
            r@ == 0real,
    {
        Beat(Ratio::zero())
    }
}

impl Beat {
    /// The beat at position `f`, a fraction of 64-bit parts.
    pub fn from_f64(f: Ratio) -> (r: Beat)
        ensures
            r == Beat(f),
    {
        Beat(f)
    }

    /// The beat that lies `other` beats after this one, if it fits.
    pub fn checked_add(&self, other: &Ratio) -> (r: Option<Beat>)
        ensures
            r is Some <==> fits(self@ + other@),
            r matches Some(b) ==> b@ == self@ + other@,
    {
        match self.0.checked_add(other) {
            Some(sum) => Some(Beat(sum)),
            None => None,
        }
    }
}

/// What a tempo segment is in specifications: its tempo in beats per minute
/// and the beat at which it starts.
pub struct Tempo {
    pub value: real,
    pub start_beat: real,
}

/// A tempo segment: `value` beats per minute from `start_beat` on, until the
/// next segment starts.
#[derive(Clone, Copy, Debug, PartialEq, Eq, Structural)]
pub struct Bpm {
    pub value: Ratio,
    pub start_beat: Beat,
}

impl View for Bpm {
    type V = Tempo;

    open spec fn view(&self) -> Tempo {
        Tempo { value: self.value@, start_beat: self.start_beat@ }
    }
}

/// The tempo that the notation `<value>@<start beat>` denotes, or why the
/// notation is refused. The value is read before the start beat is looked for.
pub open spec fn bpm_of(s: Seq<char>) -> Result<Tempo, Error> {
    let parts = split(s, '@');
    if parts.len() > 2 {
        Err(Error::Bpm(BpmError::TooManyParts))
    } else {
        match decimal_result(parts[0]) {
            Err(e) => Err(Error::Number(e)),
            Ok(value) => if parts.len() < 2 {
                Err(Error::Bpm(BpmError::MissingStartBeat))
            } else {
                match decimal_result(parts[1]) {
                    Err(e) => Err(Error::Number(e)),
                    Ok(start_beat) => Ok(Tempo { value, start_beat }),
                }
            },
        }
    }
}

/// One tempo as a list of one, for reading tempos one after the other.
pub open spec fn bpm_item(s: Seq<char>) -> Result<Seq<Tempo>, Error> {
    match bpm_of(s) {
        Err(e) => Err(e),
        Ok(t) => Ok(seq![t]),
    }
}

/// What reading each of the tempos between the commas of `s` comes to.
pub open spec fn bpm_items(s: Seq<char>) -> Seq<Result<Seq<Tempo>, Error>> {
    split(s, ',').map_values(|piece: Seq<char>| bpm_item(piece))
}

/// The tempo list that a notation denotes: tempos separated by commas. The
/// empty notation is refused; the order of the start beats is not looked at.
pub open spec fn bpm_list_of(s: Seq<char>) -> Result<Seq<Tempo>, Error> {
    if s.len() == 0 {
        Err(Error::BpmList(BpmListError::EmptyString))
    } else {
        collect(bpm_items(s))
    }
}

/// A tempo list that was read has a tempo.
pub proof fn lemma_tempo_list_read_is_not_empty(s: Seq<char>)
    requires
        bpm_list_of(s) is Ok,
    ensures
        bpm_list_of(s)->Ok_0.len() > 0,
{
    lemma_split_join(s, ',');
    let all = bpm_items(s);
    assert(all.last() == bpm_item(split(s, ',').last()));
}

impl Bpm {
    /// Reads one tempo from its characters.
    pub fn from_chars(s: &Vec<char>) -> (r: Result<Bpm, Error>)
        ensures
            match r {
                Ok(b) => bpm_of(s@) == Ok::<Tempo, Error>(b@),
                Err(e) => bpm_of(s@) == Err::<Tempo, Error>(e),
            },
    {
        let parts = split_chars(s, '@');
        assert(views(parts@).len() == parts@.len());
        if parts.len() > 2 {
            return Err(Error::Bpm(BpmError::TooManyParts));
        }
        assert(views(parts@)[0] == parts@[0]@);
        let value = match parse_decimal(&parts[0]) {
            Ok(value) => value,
            Err(e) => {
                return Err(Error::Number(e));
            },
        };
        if parts.len() < 2 {
            return Err(Error::Bpm(BpmError::MissingStartBeat));
        }
        assert(views(parts@)[1] == parts@[1]@);
        let start_beat = match parse_decimal(&parts[1]) {
            Ok(start_beat) => start_beat,
            Err(e) => {
                return Err(Error::Number(e));
            },
        };
        Ok(Bpm { value, start_beat: Beat::from_f64(start_beat) })
    }

    /// Reads one tempo from the notation `<value>@<start beat>`, as in `120@0`.
    /// Where several tempos are at hand, read a [`BpmList`].
    pub fn from_string(s: String) -> (r: Result<Bpm, Error>)
        ensures
            match r {
                Ok(b) => bpm_of(s@) == Ok::<Tempo, Error>(b@),
                Err(e) => bpm_of(s@) == Err::<Tempo, Error>(e),
            },
    {
        let chars = chars_of(s.as_str());
        Bpm::from_chars(&chars)
    }
}

/// The tempo segments of a chart, in the order in which they were given.
/// Where the conversions below speak of a timeline, the segments are meant
/// to be in ascending order of their start beats, and the first to start at
/// beat zero; nothing here enforces it.
#[derive(Clone, Debug)]
pub struct BpmList(pub Vec<Bpm>);

impl View for BpmList {
    type V = Seq<Tempo>;

    open spec fn view(&self) -> Seq<Tempo> {
        self.0@.map_values(|b: Bpm| b@)
    }
}

impl Default for BpmList {
    fn default() -> (r: BpmList)
        ensures
            r@ == Seq::<Tempo>::empty(),
    {
        let r = BpmList(Vec::new());
        assert(r@ =~= Seq::<Tempo>::empty());
        r
    }
}

impl BpmList {
    /// The list of the one tempo `value`, a fraction of 64-bit parts, that
    /// starts at beat zero.
    pub fn from_f64(value: Ratio) -> (r: BpmList)
        ensures
            r@ == seq![Tempo { value: value@, start_beat: 0real }],
    {
        let mut v: Vec<Bpm> = Vec::new();
        v.push(Bpm { value, start_beat: Beat::from_f64(Ratio::zero()) });
        let r = BpmList(v);
        assert(r@ =~= seq![Tempo { value: value@, start_beat: 0real }]);
        r
    }

    /// Reads a tempo list from its characters.
    pub fn from_chars(s: &Vec<char>) -> (r: Result<BpmList, Error>)
        ensures
            match r {
                Ok(list) => bpm_list_of(s@) == Ok::<Seq<Tempo>, Error>(list@),
                Err(e) => bpm_list_of(s@) == Err::<Seq<Tempo>, Error>(e),
            },
    {
        if s.len() == 0 {
            return Err(Error::BpmList(BpmListError::EmptyString));
        }
        let pieces = split_chars(s, ',');
        let ghost all = bpm_items(s@);
        let mut v: Vec<Bpm> = Vec::new();
        let mut i: usize = 0;
        assert(all.take(0) =~= Seq::<Result<Seq<Tempo>, Error>>::empty());
        assert(v@.map_values(|b: Bpm| b@) =~= Seq::<Tempo>::empty());
        while i < pieces.len()
            invariant
                i <= pieces.len(),
                s@.len() > 0,
                views(pieces@) == split(s@, ','),
                all == bpm_items(s@),
                all.len() == pieces.len(),
                collect(all.take(i as int)) == Ok::<Seq<Tempo>, Error>(
                    v@.map_values(|b: Bpm| b@),
                ),
            decreases pieces.len() - i,
        {
            proof {
                lemma_collect_step(all, i as int);
                assert(views(pieces@)[i as int] == pieces@[i as int]@);
                assert(all[i as int] == bpm_item(pieces@[i as int]@));
            }
            match Bpm::from_chars(&pieces[i]) {
                Ok(bpm) => {
                    let ghost before = v@.map_values(|b: Bpm| b@);
                    v.push(bpm);
                    assert(v@.map_values(|b: Bpm| b@) =~= before + seq![bpm@]);
                },
                Err(e) => {
                    proof {
                        lemma_collect_error(all, i + 1);
                    }
                    return Err(e);
                },
            }
            i += 1;
        }
        assert(all.take(i as int) == all);
        Ok(BpmList(v))
    }

    /// Reads a tempo list from tempos separated by commas, as in `120@0` or
    /// `120@0,140@16`.
    pub fn from_string(s: String) -> (r: Result<BpmList, Error>)
        ensures
            match r {
                Ok(list) => bpm_list_of(s@) == Ok::<Seq<Tempo>, Error>(list@),
                Err(e) => bpm_list_of(s@) == Err::<Seq<Tempo>, Error>(e),
            },
    {
        let chars = chars_of(s.as_str());
        BpmList::from_chars(&chars)
    }
}

/// How long a tempo segment lasts.
#[derive(Clone, Copy, Debug, PartialEq, Eq, Structural)]
pub enum Length {
    /// So many seconds, until the next segment starts.
    Seconds(Ratio),
    /// Without end: no segment follows.
    Unbounded,
}

/// The seconds that one beat takes at tempo `t`.
pub open spec fn beat_seconds(t: Tempo) -> real {
    60real / t.value
}

/// The beats from the start of segment `a` to the start of the next, `b`.
pub open spec fn span_beats(a: Tempo, b: Tempo) -> real {
    b.start_beat - a.start_beat
}

/// The seconds from the start of segment `a` to the start of the next, `b`.
pub open spec fn span_seconds(a: Tempo, b: Tempo) -> real {
    span_beats(a, b) * beat_seconds(a)
}

/// Whether the length of segment `a` before `b` can be computed: the tempo
/// is not zero, and the beats, the seconds per beat and their product fit.
pub open spec fn span_defined(a: Tempo, b: Tempo) -> bool {
    &&& fits(span_beats(a, b))
    &&& a.value != 0real
    &&& fits(beat_seconds(a))
    &&& fits(span_seconds(a, b))
}

/// The seconds from the start of the first segment to the start of segment `i`.
pub open spec fn secs_before(s: Seq<Tempo>, i: int) -> real
    decreases i,
{
    if i <= 0 {
        0real
    } else {
        secs_before(s, i - 1) + span_seconds(s[i - 1], s[i])
    }
}

/// The beats from the start of the first segment to the start of segment `i`.
pub open spec fn beats_before(s: Seq<Tempo>, i: int) -> real {
    s[i].start_beat - s[0].start_beat
}

/// The first segment from `i` on that the beat falls into: one that ends
/// after the beat, counted from the start of the first segment, or the last.
pub open spec fn beat_segment_from(s: Seq<Tempo>, beat: real, i: int) -> int
    decreases s.len() - i,
{
    if i + 1 >= s.len() || beat - beats_before(s, i) < span_beats(s[i], s[i + 1]) {
        i
    } else {
        beat_segment_from(s, beat, i + 1)
    }
}

/// The segment that a beat falls into.
pub open spec fn segment_of_beat(s: Seq<Tempo>, beat: real) -> int {
    beat_segment_from(s, beat, 0)
}

/// The time in seconds at which a beat falls: the seconds before its segment,
/// and the beats into the segment at the tempo of the segment. The beat is
/// counted from the start of the first segment. Without segments it is zero.
pub open spec fn exact_time(s: Seq<Tempo>, beat: real) -> real {
    if s.len() == 0 {
        0real
    } else {
        let k = segment_of_beat(s, beat);
        secs_before(s, k) + (beat - beats_before(s, k)) * beat_seconds(s[k])
    }
}

/// Whether segment `i` can be worked with: its seconds per beat, and its
/// length where a segment follows.
pub open spec fn step_defined(s: Seq<Tempo>, i: int) -> bool {
    &&& s[i].value != 0real
    &&& fits(beat_seconds(s[i]))
    &&& i + 1 < s.len() ==> span_defined(s[i], s[i + 1])
}

/// Whether the seconds and the beats that remain at the start of segment `i` fit.
pub open spec fn beat_walk_defined(s: Seq<Tempo>, beat: real, i: int) -> bool {
    fits(secs_before(s, i)) && fits(beat - beats_before(s, i))
}

/// Whether the time of a beat can be computed: every quantity on the way to
/// the segment of the beat, and the result, is a fraction that fits.
pub open spec fn exact_time_defined(s: Seq<Tempo>, beat: real) -> bool {
    s.len() == 0 || {
        let k = segment_of_beat(s, beat);
        &&& forall|i: int| 0 <= i <= k ==> #[trigger] step_defined(s, i)
        &&& forall|i: int| 0 < i <= k ==> #[trigger] beat_walk_defined(s, beat, i)
        &&& fits((beat - beats_before(s, k)) * beat_seconds(s[k]))
        &&& fits(exact_time(s, beat))
    }
}

/// The first segment from `i` on that the time `t` falls into: one that ends
/// after `t`, or the last.
pub open spec fn time_segment_from(s: Seq<Tempo>, t: real, i: int) -> int
    decreases s.len() - i,
{
    if i + 1 >= s.len() || t - secs_before(s, i) < span_seconds(s[i], s[i + 1]) {
        i
    } else {
        time_segment_from(s, t, i + 1)
    }
}

/// The segment whose tempo holds at time `t`. A single segment holds at any
/// time, and the first segment holds at zero and before.
pub open spec fn segment_at_time(s: Seq<Tempo>, t: real) -> int {
    if s.len() == 1 || t <= 0real {
        0
    } else {
        time_segment_from(s, t, 0)
    }
}

/// Whether the length of segment `i`, which another follows, can be computed.
pub open spec fn length_defined(s: Seq<Tempo>, i: int) -> bool {
    span_defined(s[i], s[i + 1])
}

/// Whether the time that remains of `t` at the start of segment `i` fits.
pub open spec fn time_walk_defined(s: Seq<Tempo>, t: real, i: int) -> bool {
    fits(t - secs_before(s, i))
}

/// Whether the segment at time `t` can be found: the length of every
/// segment up to it, and the time that remains at each start, fits.
pub open spec fn segment_at_time_defined(s: Seq<Tempo>, t: real) -> bool {
    s.len() == 1 || t <= 0real || {
        let k = time_segment_from(s, t, 0);
        &&& forall|i: int| 0 <= i <= k && i + 1 < s.len() ==> #[trigger] length_defined(s, i)
        &&& forall|i: int| 0 < i <= k ==> #[trigger] time_walk_defined(s, t, i)
    }
}

/// Whether segment `k` has the greatest tempo, and is the last to have it.
pub open spec fn is_last_max(s: Seq<Tempo>, k: int) -> bool {
    &&& 0 <= k < s.len()
    &&& forall|j: int| 0 <= j < s.len() ==> (#[trigger] s[j]).value <= s[k].value
    &&& forall|j: int| k < j < s.len() ==> (#[trigger] s[j]).value < s[k].value
}

/// The segment of a beat lies among the segments.
pub proof fn lemma_beat_segment_bounds(s: Seq<Tempo>, beat: real, i: int)
    requires
        0 <= i < s.len(),
    ensures
        i <= beat_segment_from(s, beat, i) < s.len(),
    decreases s.len() - i,
{
    if !(i + 1 >= s.len() || beat - beats_before(s, i) < span_beats(s[i], s[i + 1])) {
        lemma_beat_segment_bounds(s, beat, i + 1);
    }
}

/// The segment at a time lies among the segments.
pub proof fn lemma_time_segment_bounds(s: Seq<Tempo>, t: real, i: int)
    requires
        0 <= i < s.len(),
    ensures
        i <= time_segment_from(s, t, i) < s.len(),
    decreases s.len() - i,
{
    if !(i + 1 >= s.len() || t - secs_before(s, i) < span_seconds(s[i], s[i + 1])) {
        lemma_time_segment_bounds(s, t, i + 1);
    }
}

/// Where the walk to the segment of a beat stops, the beat falls before the
/// end of the segment, or the segment is the last.
pub proof fn lemma_beat_walk_stops(s: Seq<Tempo>, beat: real, i: int)
    requires
        0 <= i < s.len(),
    ensures
        ({
            let k = beat_segment_from(s, beat, i);
            k + 1 >= s.len() || beat - beats_before(s, k) < span_beats(s[k], s[k + 1])
        }),
    decreases s.len() - i,
{
    if !(i + 1 >= s.len() || beat - beats_before(s, i) < span_beats(s[i], s[i + 1])) {
        lemma_beat_walk_stops(s, beat, i + 1);
    }
}

/// The walk to the segment at a time ends, at the latest, at a segment that
/// ends after the time, or at the last.
pub proof fn lemma_time_walk_stops_by(s: Seq<Tempo>, t: real, i: int, k: int)
    requires
        0 <= i <= k < s.len(),
        k + 1 >= s.len() || t - secs_before(s, k) < span_seconds(s[k], s[k + 1]),
    ensures
        time_segment_from(s, t, i) <= k,
    decreases k - i,
{
    if i < k {
        lemma_time_walk_stops_by(s, t, i + 1, k);
    }
}

/// Whether no segment starts before the one before it.
pub open spec fn sorted_by_start(s: Seq<Tempo>) -> bool {
    forall|i: int, j: int| 0 <= i <= j < s.len() ==> s[i].start_beat <= s[j].start_beat
}

/// From a beat to its time and back: on a timeline in the order of its
/// start beats, the segment at the time of a beat is not later than the
/// segment of the beat, and so does not start after it. The tempo of the
/// segment of the beat must be greater than zero.
pub proof fn lemma_time_of_beat_lies_in_its_segment(s: Seq<Tempo>, beat: real)
    requires
        s.len() > 0,
        sorted_by_start(s),
        s[segment_of_beat(s, beat)].value > 0real,
    ensures
        0 <= segment_at_time(s, exact_time(s, beat)) <= segment_of_beat(s, beat) < s.len(),
        s[segment_at_time(s, exact_time(s, beat))].start_beat <= s[segment_of_beat(
            s,
            beat,
        )].start_beat,
{
    let k = segment_of_beat(s, beat);
    let t = exact_time(s, beat);
    lemma_beat_segment_bounds(s, beat, 0);
    if !(s.len() == 1 || t <= 0real) {
        lemma_time_segment_bounds(s, t, 0);
        lemma_beat_walk_stops(s, beat, 0);
        if k + 1 < s.len() {
            let into = beat - beats_before(s, k);
            let span = span_beats(s[k], s[k + 1]);
            let each = beat_seconds(s[k]);
            assert(each > 0real) by (nonlinear_arith)
                requires
                    each == 60real / s[k].value,
                    s[k].value > 0real,
            ;
            assert(into * each < span * each) by (nonlinear_arith)
                requires
                    into < span,
                    each > 0real,
            ;
        }
        lemma_time_walk_stops_by(s, t, 0, k);
    }
}

/// Whether every segment starts after the one before it, at a tempo greater
/// than zero.
pub open spec fn ascending(s: Seq<Tempo>) -> bool {
    &&& forall|i: int, j: int| 0 <= i < j < s.len() ==> s[i].start_beat < s[j].start_beat
    &&& forall|i: int| 0 <= i < s.len() ==> (#[trigger] s[i]).value > 0real
}

/// On an ascending timeline every segment takes time.
pub proof fn lemma_span_takes_time(s: Seq<Tempo>, i: int)
    requires
        ascending(s),
        0 <= i,
        i + 1 < s.len(),
    ensures
        span_seconds(s[i], s[i + 1]) > 0real,
{
    let beats = s[i + 1].start_beat - s[i].start_beat;
    let value = s[i].value;
    assert(s[i].start_beat < s[i + 1].start_beat);
    assert(beats * (60real / value) > 0real) by (nonlinear_arith)
        requires
            beats > 0real,
            value > 0real,
    ;
}

/// On an ascending timeline a segment starts when the one before it ends,
/// at the earliest.
pub proof fn lemma_starts_ascend(s: Seq<Tempo>, i: int, j: int)
    requires
        ascending(s),
        0 <= i < j < s.len(),
    ensures
        secs_before(s, i) + span_seconds(s[i], s[i + 1]) <= secs_before(s, j),
    decreases j - i,
{
    if i + 1 < j {
        lemma_starts_ascend(s, i, j - 1);
        lemma_span_takes_time(s, j - 1);
    }
}

/// On an ascending timeline the walk from segment `j` to the segment at the
/// start of segment `i` ends at `i`.
pub proof fn lemma_walk_to_start(s: Seq<Tempo>, i: int, j: int)
    requires
        ascending(s),
        0 <= j <= i < s.len(),
    ensures
        time_segment_from(s, secs_before(s, i), j) == i,
    decreases i - j,
{
    if j < i {
        lemma_starts_ascend(s, j, i);
        lemma_walk_to_start(s, i, j + 1);
    } else if i + 1 < s.len() {
        lemma_span_takes_time(s, i);
    }
}

/// The walk to the segment of a beat passes every segment that the beat
/// does not fall into.
pub proof fn lemma_beat_walk_passes(s: Seq<Tempo>, beat: real, i: int, j: int)
    requires
        0 <= i <= j < beat_segment_from(s, beat, i),
        i < s.len(),
    ensures
        j + 1 < s.len(),
        beat - beats_before(s, j) >= span_beats(s[j], s[j + 1]),
    decreases j - i,
{
    if i < j {
        lemma_beat_walk_passes(s, beat, i + 1, j);
    }
}

/// On an ascending timeline the walk to the segment at a time does not end
/// before a segment that has started by then.
pub proof fn lemma_walk_reaches_started(s: Seq<Tempo>, t: real, k: int, j: int)
    requires
        ascending(s),
        0 <= j <= k < s.len(),
        t >= secs_before(s, k),
    ensures
        time_segment_from(s, t, j) >= k,
    decreases k - j,
{
    if j < k {
        lemma_starts_ascend(s, j, k);
        lemma_walk_reaches_started(s, t, k, j + 1);
    } else {
        lemma_time_segment_bounds(s, t, j);
    }
}

/// From a beat to its time and back, exactly: on an ascending timeline the
/// segment at the time of a beat is the segment of the beat.
pub proof fn lemma_segment_at_time_of_beat(s: Seq<Tempo>, beat: real)
    requires
        s.len() > 0,
        ascending(s),
    ensures
        segment_at_time(s, exact_time(s, beat)) == segment_of_beat(s, beat),
{
    let k = segment_of_beat(s, beat);
    let t = exact_time(s, beat);
    lemma_beat_segment_bounds(s, beat, 0);
    assert(sorted_by_start(s)) by {
        assert forall|i: int, j: int| 0 <= i <= j < s.len() implies s[i].start_beat
            <= s[j].start_beat by {
            if i < j {
                assert(s[i].start_beat < s[j].start_beat);
            }
        }
    }
    lemma_time_of_beat_lies_in_its_segment(s, beat);
    if k > 0 {
        lemma_beat_walk_passes(s, beat, 0, k - 1);
        let into = beat - beats_before(s, k);
        let each = beat_seconds(s[k]);
        assert(into * each >= 0real) by (nonlinear_arith)
            requires
                into >= 0real,
                each == 60real / s[k].value,
                s[k].value > 0real,
        ;
        lemma_starts_ascend(s, 0, k);
        lemma_span_takes_time(s, 0);
        lemma_walk_reaches_started(s, t, k, 0);
    }
}

/// A timeline of one segment has that segment at any time.
pub proof fn lemma_single_segment_at_any_time(s: Seq<Tempo>, t: real)
    requires
        s.len() == 1,
    ensures
        segment_at_time_defined(s, t),
        segment_at_time(s, t) == 0,
{
}

impl Bpm {
    /// How long this segment lasts when `next_bpm` follows it: the beats up
    /// to the start of the next segment at this tempo, in seconds. `None`
    /// where that cannot be computed.
    pub fn length(&self, next_bpm: Option<&Bpm>) -> (r: Option<Length>)
        ensures
            match next_bpm {
                None => r == Some(Length::Unbounded),
                Some(next) => {
                    &&& r is Some <==> span_defined(self@, next@)
                    &&& r matches Some(x) ==> x matches Length::Seconds(q) && q@ == span_seconds(
                        self@,
                        next@,
                    )
                },
            },
    {
        let next = match next_bpm {
            None => {
                return Some(Length::Unbounded);
            },
            Some(next) => next,
        };
        let beats = match next.start_beat.0.checked_sub(&self.start_beat.0) {
            Some(beats) => beats,
            None => {
                return None;
            },
        };
        let one_minute = Ratio::from_int(60);
        let one_beat = match one_minute.checked_div(&self.value) {
            Some(one_beat) => one_beat,
            None => {
                return None;
            },
        };
        match beats.checked_mul(&one_beat) {
            Some(seconds) => Some(Length::Seconds(seconds)),
            None => None,
        }
    }
}

impl Beat {
    /// The time in seconds at which this beat falls on the timeline `bpms`.
    /// `None` where it cannot be computed.
    pub fn to_exact_time(&self, bpms: &BpmList) -> (r: Option<Ratio>)
        ensures
            r is Some <==> exact_time_defined(bpms@, self@),
            r matches Some(t) ==> t@ == exact_time(bpms@, self@),
    {
        let n = bpms.0.len();
        let ghost s = bpms@;
        let ghost beat = self@;
        let mut remaining = self.0;
        let mut elapsed = Ratio::zero();
        if n == 0 {
            return Some(elapsed);
        }
        let one_minute = Ratio::from_int(60);
        let mut i: usize = 0;
        loop
            invariant
                0 <= i < n,
                n == bpms.0.len(),
                s == bpms@,
                s.len() == n,
                beat == self@,
                one_minute@ == 60real,
                remaining@ == beat - beats_before(s, i as int),
                elapsed@ == secs_before(s, i as int),
                beat_segment_from(s, beat, i as int) == segment_of_beat(s, beat),
                forall|j: int| 0 <= j < i ==> #[trigger] step_defined(s, j),
                forall|j: int| 0 < j <= i ==> #[trigger] beat_walk_defined(s, beat, j),
            decreases n - i,
        {
            let bpm = &bpms.0[i];
            assert(s[i as int] == bpm@);
            proof {
                lemma_beat_segment_bounds(s, beat, i as int);
            }
            let one_beat = match one_minute.checked_div(&bpm.value) {
                Some(one_beat) => one_beat,
                None => {
                    assert(!step_defined(s, i as int));
                    return None;
                },
            };
            if i + 1 < n {
                let next = &bpms.0[i + 1];
                assert(s[i + 1] == next@);
                let seconds = match bpm.length(Some(next)) {
                    Some(Length::Seconds(seconds)) => seconds,
                    _ => {
                        assert(!step_defined(s, i as int));
                        return None;
                    },
                };
                let beats = match next.start_beat.0.checked_sub(&bpm.start_beat.0) {
                    Some(beats) => beats,
                    None => {
                        return None;
                    },
                };
                assert(step_defined(s, i as int));
                if !remaining.lt(&beats) {
                    proof {
                        lemma_beat_segment_bounds(s, beat, i + 1);
                    }
                    elapsed = match elapsed.checked_add(&seconds) {
                        Some(elapsed) => elapsed,
                        None => {
                            assert(!beat_walk_defined(s, beat, i + 1));
                            return None;
                        },
                    };
                    remaining = match remaining.checked_sub(&beats) {
                        Some(remaining) => remaining,
                        None => {
                            assert(!beat_walk_defined(s, beat, i + 1));
                            return None;
                        },
                    };
                    assert(beat_walk_defined(s, beat, i + 1));
                    i += 1;
                    continue ;
                }
            }
            assert(segment_of_beat(s, beat) == i);
            assert(step_defined(s, i as int));
            let term = match remaining.checked_mul(&one_beat) {
                Some(term) => term,
                None => {
                    return None;
                },
            };
            return elapsed.checked_add(&term);
        }
    }
}

impl BpmList {
    /// The segment whose tempo holds at the time `exact_time` in seconds.
    /// `None` where it cannot be found.
    pub fn at_exact_time(&self, exact_time: Ratio) -> (r: Option<&Bpm>)
        requires
            self@.len() > 0,
        ensures
            r is Some <==> segment_at_time_defined(self@, exact_time@),
            r matches Some(b) ==> *b == self.0[segment_at_time(self@, exact_time@)],
            self@.len() == 1 || exact_time@ <= 0real ==> r == Some(&self.0[0]),
    {
        let n = self.0.len();
        let ghost s = self@;
        let ghost t = exact_time@;
        if n == 1 {
            return Some(&self.0[0]);
        }
        if !exact_time.is_positive() {
            return Some(&self.0[0]);
        }
        let mut i: usize = 0;
        let mut time = exact_time;
        loop
            invariant
                0 <= i < n,
                n == self.0.len(),
                n > 1,
                s == self@,
                s.len() == n,
                t == exact_time@,
                t > 0real,
                time@ == t - secs_before(s, i as int),
                time_segment_from(s, t, i as int) == time_segment_from(s, t, 0),
                forall|j: int| 0 <= j < i ==> #[trigger] length_defined(s, j),
                forall|j: int| 0 < j <= i ==> #[trigger] time_walk_defined(s, t, j),
            decreases n - i,
        {
            proof {
                lemma_time_segment_bounds(s, t, i as int);
            }
            if i + 1 >= n {
                return Some(&self.0[i]);
            }
            assert(s[i as int] == self.0[i as int]@);
            assert(s[i + 1] == self.0[i + 1]@);
            let length = match self.0[i].length(Some(&self.0[i + 1])) {
                Some(Length::Seconds(length)) => length,
                _ => {
                    assert(!length_defined(s, i as int));
                    return None;
                },
            };
            assert(length_defined(s, i as int));
            if time.lt(&length) {
                return Some(&self.0[i]);
            }
            proof {
                lemma_time_segment_bounds(s, t, i + 1);
            }
            time = match time.checked_sub(&length) {
                Some(time) => time,
                None => {
                    assert(!time_walk_defined(s, t, i + 1));
                    return None;
                },
            };
            assert(time_walk_defined(s, t, i + 1));
            i += 1;
        }
    }

    /// The segment of the greatest tempo; where several have it, the last of them.
    pub fn max(&self) -> (r: &Bpm)
        requires
            self@.len() > 0,
        ensures
            exists|k: int| is_last_max(self@, k) && *r == self.0[k],
    {
        let n = self.0.len();
        let mut values: Vec<Ratio> = Vec::new();
        let mut i: usize = 0;
        while i < n
            invariant
                i <= n,
                n == self.0.len(),
                values@.len() == i,
                forall|j: int| 0 <= j < i ==> values@[j] == self.0[j].value,
            decreases n - i,
        {
            values.push(self.0[i].value);
            i += 1;
        }
        let order = sorted_indices(&values);
        let last = order[n - 1];
        proof {
            let s = self@;
            assert(order@.contains(last));
            assert forall|j: int| 0 <= j < s.len() implies (#[trigger] s[j]).value <= s[last as int].value
                && (last < j ==> s[j].value < s[last as int].value) by {
                let ju = j as usize;
                assert(order@.contains(ju));
                let p = choose|p: int| 0 <= p < order@.len() && order@[p] == ju;
                assert(value_at(values@, ju) == s[j].value);
                assert(value_at(values@, last) == s[last as int].value);
                if p < n - 1 {
                    assert(value_at(values@, order@[p]) <= value_at(values@, order@[n - 1]));
                }
            }
            assert(is_last_max(s, last as int));
        }
        &self.0[last]
    }
}

} // verus!
