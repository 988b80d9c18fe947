//! The notes of a chart, and the notation they are read from.
//!
//! The notation lists groups separated by commas. A group is
//! `<hits>[+<holds>:<length>=<ticks>]@<beat>`. Hits and holds are chords
//! separated by `-`; the characters of a chord are the keys pressed together.
//! Every group yields a timing line, then its hits, then its holds, then the
//! ticks of its holds.

use crate::chart::error::{
    collect, lemma_collect_error, lemma_collect_every_piece, lemma_collect_one,
    lemma_collect_scaled, lemma_collect_source, lemma_collect_step, Error,
    SyncedStructListError,
};
use crate::chart::tempo::Beat;
use crate::ratio::{fits, fraction, in_range, lemma_quot_add, quot, Ratio};
use crate::sequence::{all_equal, all_unique};
use crate::text::{
    chars_of, decimal_result, lemma_split_single, natural_result, parse_decimal, parse_natural,
    split, split_chars, subrange, views, NumberError,
};
use crate::traits::{key_at, key_column, key_row, lemma_key_of_column, KeyboardPosition};
use vstd::string::StringExecFns;
use vstd::prelude::*;

verus! {

/// What a hit object asks of the player.
#[derive(Clone, Copy, Debug, PartialEq, Eq, Structural)]
pub enum HitObjectType {
    /// Press the keys.
    Hit,
    /// Press the keys and keep them down.
    Hold,
    /// Still keep the keys down.
    HoldTick,
}

/// A hit object in specifications.
pub struct HitObjectView {
    pub t: HitObjectType,
    pub keys: Seq<char>,
    pub beat: real,
}

/// Keys to press at a beat.
#[derive(Clone, Debug)]
pub struct HitObject {
    pub t: HitObjectType,
    pub keys: Vec<char>,
    pub beat: Beat,
}

impl View for HitObject {
    type V = HitObjectView;

    open spec fn view(&self) -> HitObjectView {
        HitObjectView { t: self.t, keys: self.keys@, beat: self.beat@ }
    }
}

/// A line across the lanes at a beat.
#[derive(Clone, Copy, Debug)]
pub struct TimingLine {
    pub beat: Beat,
}

impl View for TimingLine {
    type V = real;

    open spec fn view(&self) -> real {
        self.beat@
    }
}

/// Something that is tied to a beat, in specifications.
pub enum SyncedStructView {
    HitObject(HitObjectView),
    TimingLine(real),
}

/// Something that is tied to a beat.
#[derive(Clone, Debug)]
pub enum SyncedStruct {
    HitObject(HitObject),
    TimingLine(TimingLine),
}

impl View for SyncedStruct {
    type V = SyncedStructView;

    open spec fn view(&self) -> SyncedStructView {
        match *self {
            SyncedStruct::HitObject(h) => SyncedStructView::HitObject(h@),
            SyncedStruct::TimingLine(l) => SyncedStructView::TimingLine(l@),
        }
    }
}

/// What a sequence of synced structs is in specifications.
pub open spec fn marks(v: Seq<SyncedStruct>) -> Seq<SyncedStructView> {
    v.map_values(|x: SyncedStruct| x@)
}

/// The synced structs of a chart, in the order of the notation: group by
/// group, not sorted by beat.
#[derive(Clone, Debug)]
pub struct SyncedStructList(pub Vec<SyncedStruct>);

impl View for SyncedStructList {
    type V = Seq<SyncedStructView>;

    open spec fn view(&self) -> Seq<SyncedStructView> {
        marks(self.0@)
    }
}

impl Default for SyncedStructList {
    fn default() -> (r: SyncedStructList)
        ensures
            r@ == Seq::<SyncedStructView>::empty(),
    {
        let r = SyncedStructList(Vec::new());
        assert(r@ =~= Seq::<SyncedStructView>::empty());
        r
    }
}

/// Whether no two keys differ in their column.
pub open spec fn same_column(keys: Seq<char>) -> bool {
    forall|i: int, j: int|
        0 <= i < keys.len() && 0 <= j < keys.len() ==> key_column(keys[i]) == key_column(keys[j])
}

/// Whether every key is a key of the column `lane` of the keyboard.
pub open spec fn lies_in_lane(keys: Seq<char>, lane: u8) -> bool {
    forall|j: int| 0 <= j < keys.len() ==> key_column(#[trigger] keys[j]) == Some(lane)
}

/// Whether the keys lie in one lane: they are keys of the keyboard, all in
/// one of its columns.
pub open spec fn in_one_lane(keys: Seq<char>) -> bool {
    keys.len() > 0 && key_column(keys[0]) is Some && same_column(keys)
}

/// The keys that make one hit object: at least one, each once, all in one
/// column of the keyboard.
pub open spec fn is_chord(keys: Seq<char>) -> bool {
    keys.len() > 0 && keys.no_duplicates() && in_one_lane(keys)
}

/// What one chord of the notation comes to: nothing where it is empty, one
/// hit object where its keys are a chord, else the error named. Keys that
/// are not on the keyboard are in no column, so they are refused as keys
/// that are not in one column.
pub open spec fn chord_result(
    member: Seq<char>,
    t: HitObjectType,
    beat: real,
    duplicate: SyncedStructListError,
    multi_column: SyncedStructListError,
) -> Result<Seq<SyncedStructView>, Error> {
    if member.len() == 0 {
        Ok(Seq::empty())
    } else if !member.no_duplicates() {
        Err(Error::SyncedStructList(duplicate))
    } else if !in_one_lane(member) {
        Err(Error::SyncedStructList(multi_column))
    } else {
        Ok(seq![SyncedStructView::HitObject(HitObjectView { t, keys: member, beat })])
    }
}

/// What each of the chords between the dashes of `text` comes to.
pub open spec fn chord_items(
    text: Seq<char>,
    t: HitObjectType,
    beat: real,
    duplicate: SyncedStructListError,
    multi_column: SyncedStructListError,
) -> Seq<Result<Seq<SyncedStructView>, Error>> {
    split(text, '-').map_values(
        |member: Seq<char>| chord_result(member, t, beat, duplicate, multi_column),
    )
}

/// The beat of tick `k` of a hold that starts at `beat` and ticks every `delta` beats.
pub open spec fn tick_beat(beat: real, delta: real, k: int) -> real {
    beat + k as real * delta
}

/// The ticks of one hold of `count` parts: one at the end of each part but
/// the last, so `count - 1` of them, none of them on the start of the hold.
pub open spec fn ticks_of(keys: Seq<char>, beat: real, delta: real, count: nat) -> Seq<
    SyncedStructView,
> {
    Seq::new(
        (count - 1) as nat,
        |k: int|
            SyncedStructView::HitObject(
                HitObjectView {
                    t: HitObjectType::HoldTick,
                    keys,
                    beat: tick_beat(beat, delta, k + 1),
                },
            ),
    )
}

/// Whether the distance between ticks and the beat of every tick can be held.
pub open spec fn ticks_fit(beat: real, length: real, count: nat) -> bool {
    &&& fits(length / count as real)
    &&& forall|k: int| 1 <= k < count ==> fits(#[trigger] tick_beat(beat, length / count as real, k))
}

/// What the ticks of one hold come to. An empty chord is no hold and has no
/// ticks, and a hold of one part or none has no ticks.
pub open spec fn ticks_result(member: Seq<char>, beat: real, length: real, count: nat) -> Result<
    Seq<SyncedStructView>,
    Error,
> {
    if member.len() == 0 || count <= 1 {
        Ok(Seq::empty())
    } else if !ticks_fit(beat, length, count) {
        Err(Error::Number(NumberError::OutOfRange))
    } else {
        Ok(ticks_of(member, beat, length / count as real, count))
    }
}

/// What the ticks of each of the holds between the dashes of `text` come to.
pub open spec fn tick_items(text: Seq<char>, beat: real, length: real, count: nat) -> Seq<
    Result<Seq<SyncedStructView>, Error>,
> {
    split(text, '-').map_values(|member: Seq<char>| ticks_result(member, beat, length, count))
}

/// What the part of a group after its `+` comes to: the holds, then their ticks.
pub open spec fn holds_result(text: Seq<char>, beat: real) -> Result<Seq<SyncedStructView>, Error> {
    let parts = split(text, ':');
    if parts.len() > 2 {
        Err(Error::SyncedStructList(SyncedStructListError::MultipleColons))
    } else if parts.len() < 2 {
        Err(Error::SyncedStructList(SyncedStructListError::MissingHoldInformation))
    } else {
        let info = split(parts[1], '=');
        if info.len() > 2 {
            Err(Error::SyncedStructList(SyncedStructListError::MultipleEqualsSigns))
        } else {
            match decimal_result(info[0]) {
                Err(e) => Err(Error::Number(e)),
                Ok(length) => if info.len() < 2 {
                    Err(Error::SyncedStructList(SyncedStructListError::MissingHoldTickCount))
                } else {
                    match natural_result(info[1], u32::MAX as nat) {
                        Err(e) => Err(Error::Number(e)),
                        Ok(count) => match collect(
                            chord_items(
                                parts[0],
                                HitObjectType::Hold,
                                beat,
                                SyncedStructListError::DuplicateHoldChar,
                                SyncedStructListError::MultiColumnHold,
                            ),
                        ) {
                            Err(e) => Err(e),
                            Ok(holds) => match collect(tick_items(parts[0], beat, length, count)) {
                                Err(e) => Err(e),
                                Ok(ticks) => Ok(holds + ticks),
                            },
                        },
                    }
                },
            }
        }
    }
}

/// What one group of the notation comes to: its timing line, its hits, its
/// holds and their ticks, or the first error met in this order.
pub open spec fn group_result(group: Seq<char>) -> Result<Seq<SyncedStructView>, Error> {
    let parts = split(group, '@');
    if parts.len() > 2 {
        Err(Error::SyncedStructList(SyncedStructListError::MultipleAtSigns))
    } else if parts.len() < 2 {
        Err(Error::SyncedStructList(SyncedStructListError::MissingBeatValue))
    } else {
        match decimal_result(parts[1]) {
            Err(e) => Err(Error::Number(e)),
            Ok(beat) => {
                let sides = split(parts[0], '+');
                if sides.len() > 2 {
                    Err(Error::SyncedStructList(SyncedStructListError::MultiplePlusSigns))
                } else {
                    match collect(
                        chord_items(
                            sides[0],
                            HitObjectType::Hit,
                            beat,
                            SyncedStructListError::DuplicateHitChar,
                            SyncedStructListError::MultiColumnHit,
                        ),
                    ) {
                        Err(e) => Err(e),
                        Ok(hits) => if sides.len() < 2 {
                            Ok(seq![SyncedStructView::TimingLine(beat)] + hits)
                        } else {
                            match holds_result(sides[1], beat) {
                                Err(e) => Err(e),
                                Ok(holds) => Ok(
                                    seq![SyncedStructView::TimingLine(beat)] + hits + holds,
                                ),
                            }
                        },
                    }
                }
            },
        }
    }
}

/// What each of the groups between the commas of `s` comes to.
pub open spec fn group_items(s: Seq<char>) -> Seq<Result<Seq<SyncedStructView>, Error>> {
    split(s, ',').map_values(|group: Seq<char>| group_result(group))
}

/// What the notation of the notes of a chart denotes.
pub open spec fn notes_of(s: Seq<char>) -> Result<Seq<SyncedStructView>, Error> {
    collect(group_items(s))
}

/// The views of two sequences in a row are the view of the row.
pub proof fn lemma_marks_append(a: Seq<SyncedStruct>, b: Seq<SyncedStruct>)
    ensures
        marks(a + b) == marks(a) + marks(b),
{
    assert(marks(a + b) =~= marks(a) + marks(b));
}

/// One step from tick to tick.
pub proof fn lemma_tick_step(beat: real, delta: real, k: int)
    ensures
        tick_beat(beat, delta, k - 1) + delta == tick_beat(beat, delta, k),
{
    let kr = k as real;
    assert((kr - 1real) * delta + delta == kr * delta) by (nonlinear_arith);
}

/// A chord that names a key twice is refused.
pub proof fn lemma_duplicate_is_refused(
    member: Seq<char>,
    t: HitObjectType,
    beat: real,
    duplicate: SyncedStructListError,
    multi_column: SyncedStructListError,
)
    requires
        !member.no_duplicates(),
    ensures
        chord_result(member, t, beat, duplicate, multi_column) == Err::<
            Seq<SyncedStructView>,
            Error,
        >(Error::SyncedStructList(duplicate)),
{
}

/// The chords that are read are chords: every hit object that chords
/// separated by dashes come to has a chord for its keys, and the kind and
/// the beat that were asked for.
pub proof fn lemma_chords_read_are_chords(
    text: Seq<char>,
    t: HitObjectType,
    beat: real,
    duplicate: SyncedStructListError,
    multi_column: SyncedStructListError,
    i: int,
)
    requires
        collect(chord_items(text, t, beat, duplicate, multi_column)) is Ok,
        0 <= i < collect(chord_items(text, t, beat, duplicate, multi_column))->Ok_0.len(),
    ensures
        collect(chord_items(text, t, beat, duplicate, multi_column))->Ok_0[i] matches SyncedStructView::HitObject(
            h,
        ) && is_chord(h.keys) && h.t == t && h.beat == beat,
{
    let all = chord_items(text, t, beat, duplicate, multi_column);
    let at = lemma_collect_source(all, i);
    let member = split(text, '-')[at.0];
    assert(all[at.0] == chord_result(member, t, beat, duplicate, multi_column));
}

/// The ticks of a hold: a hold of `count` parts, `count` not zero, has
/// `count - 1` ticks, with the keys of the hold, one at the end of each part
/// but the last.
pub proof fn lemma_ticks_of_hold(member: Seq<char>, beat: real, length: real, count: nat)
    requires
        member.len() > 0,
        count > 0,
        ticks_result(member, beat, length, count) is Ok,
    ensures
        ticks_result(member, beat, length, count)->Ok_0.len() == count - 1,
        forall|k: int|
            0 <= k < count - 1 ==> #[trigger] ticks_result(member, beat, length, count)->Ok_0[k]
                == SyncedStructView::HitObject(
                HitObjectView {
                    t: HitObjectType::HoldTick,
                    keys: member,
                    beat: beat + (k + 1) as real * (length / count as real),
                },
            ),
{
}

/// The ticks that are made are ticks of holds that were read: every tick has
/// a chord for its keys.
pub proof fn lemma_ticks_made_are_chords(
    text: Seq<char>,
    beat: real,
    length: real,
    count: nat,
    i: int,
)
    requires
        collect(
            chord_items(
                text,
                HitObjectType::Hold,
                beat,
                SyncedStructListError::DuplicateHoldChar,
                SyncedStructListError::MultiColumnHold,
            ),
        ) is Ok,
        collect(tick_items(text, beat, length, count)) is Ok,
        0 <= i < collect(tick_items(text, beat, length, count))->Ok_0.len(),
    ensures
        collect(tick_items(text, beat, length, count))->Ok_0[i] matches SyncedStructView::HitObject(
            h,
        ) && is_chord(h.keys) && h.t == HitObjectType::HoldTick,
{
    let all = tick_items(text, beat, length, count);
    let at = lemma_collect_source(all, i);
    let member = split(text, '-')[at.0];
    assert(all[at.0] == ticks_result(member, beat, length, count));
    let holds = chord_items(
        text,
        HitObjectType::Hold,
        beat,
        SyncedStructListError::DuplicateHoldChar,
        SyncedStructListError::MultiColumnHold,
    );
    lemma_collect_every_piece(holds, at.0);
    assert(holds[at.0] == chord_result(
        member,
        HitObjectType::Hold,
        beat,
        SyncedStructListError::DuplicateHoldChar,
        SyncedStructListError::MultiColumnHold,
    ));
}

/// Whether `mark` is a hold at `beat`.
pub open spec fn is_hold_at(mark: SyncedStructView, beat: real) -> bool {
    mark matches SyncedStructView::HitObject(h) && h.t == HitObjectType::Hold && h.beat == beat
}

/// Whether `mark` is a tick of a hold.
pub open spec fn is_tick(mark: SyncedStructView) -> bool {
    mark matches SyncedStructView::HitObject(h) && h.t == HitObjectType::HoldTick
}

/// How many ticks every hold of `count` parts has: one less than it has
/// parts, and none where it has no parts.
pub open spec fn ticks_per_hold(count: nat) -> nat {
    if count == 0 {
        0
    } else {
        (count - 1) as nat
    }
}

/// The holds of a group and their ticks: what the part of a group after its
/// `+` comes to is its holds, each at the beat of the group, and after them
/// their ticks; there are as many ticks as every hold has, times the number
/// of holds.
pub proof fn lemma_holds_and_their_ticks(text: Seq<char>, beat: real)
    requires
        holds_result(text, beat) is Ok,
    ensures
        ({
            let halves = split(text, ':');
            let info = split(halves[1], '=');
            let length = decimal_result(info[0])->Ok_0;
            let count = natural_result(info[1], u32::MAX as nat)->Ok_0;
            let holds = collect(
                chord_items(
                    halves[0],
                    HitObjectType::Hold,
                    beat,
                    SyncedStructListError::DuplicateHoldChar,
                    SyncedStructListError::MultiColumnHold,
                ),
            )->Ok_0;
            let ticks = collect(tick_items(halves[0], beat, length, count))->Ok_0;
            &&& holds_result(text, beat)->Ok_0 == holds + ticks
            &&& ticks.len() == ticks_per_hold(count) * holds.len()
            &&& forall|i: int|
                0 <= i < holds.len() ==> is_hold_at(#[trigger] holds[i], beat)
            &&& forall|i: int| 0 <= i < ticks.len() ==> is_tick(#[trigger] ticks[i])
        }),
{
    let halves = split(text, ':');
    let info = split(halves[1], '=');
    let length = decimal_result(info[0])->Ok_0;
    let count = natural_result(info[1], u32::MAX as nat)->Ok_0;
    let hold_items = chord_items(
        halves[0],
        HitObjectType::Hold,
        beat,
        SyncedStructListError::DuplicateHoldChar,
        SyncedStructListError::MultiColumnHold,
    );
    let all_ticks = tick_items(halves[0], beat, length, count);
    let holds = collect(hold_items)->Ok_0;
    let ticks = collect(all_ticks)->Ok_0;
    let members = split(halves[0], '-');
    assert forall|j: int| 0 <= j < hold_items.len() implies (#[trigger] all_ticks[j])->Ok_0.len()
        == ticks_per_hold(count) * hold_items[j]->Ok_0.len() by {
        lemma_collect_every_piece(hold_items, j);
        lemma_collect_every_piece(all_ticks, j);
        assert(hold_items[j] == chord_result(
            members[j],
            HitObjectType::Hold,
            beat,
            SyncedStructListError::DuplicateHoldChar,
            SyncedStructListError::MultiColumnHold,
        ));
        assert(all_ticks[j] == ticks_result(members[j], beat, length, count));
        assert(ticks_per_hold(count) * 0 == 0) by (nonlinear_arith);
        assert(ticks_per_hold(count) * 1 == ticks_per_hold(count)) by (nonlinear_arith);
    }
    lemma_collect_scaled(hold_items, all_ticks, ticks_per_hold(count));
    assert forall|i: int| 0 <= i < holds.len() implies is_hold_at(#[trigger] holds[i], beat) by {
        lemma_chords_read_are_chords(
            halves[0],
            HitObjectType::Hold,
            beat,
            SyncedStructListError::DuplicateHoldChar,
            SyncedStructListError::MultiColumnHold,
            i,
        );
    }
    assert forall|i: int| 0 <= i < ticks.len() implies is_tick(#[trigger] ticks[i]) by {
        lemma_ticks_made_are_chords(halves[0], beat, length, count, i);
    }
}

/// One hold and its ticks, over the whole notation: where the notation is
/// one group without hits and with one hold, of `count` parts and `count`
/// not zero, it denotes the timing line of the group, the hold at the beat
/// of the group, and `count - 1` ticks with the keys of the hold, tick `k`
/// at `k` times the length of a part after the beat: none on the start of
/// the hold and none on its end.
pub proof fn lemma_notes_of_one_hold(s: Seq<char>)
    requires
        notes_of(s) is Ok,
        split(s, ',').len() == 1,
        split(split(s, '@')[0], '+').len() == 2,
        split(split(s, '@')[0], '+')[0].len() == 0,
        split(split(split(split(s, '@')[0], '+')[1], ':')[0], '-').len() == 1,
        split(split(split(s, '@')[0], '+')[1], ':')[0].len() > 0,
        natural_result(
            split(split(split(split(s, '@')[0], '+')[1], ':')[1], '=')[1],
            u32::MAX as nat,
        ) matches Ok(count) && count > 0,
    ensures
        ({
            let beat = decimal_result(split(s, '@')[1])->Ok_0;
            let halves = split(split(split(s, '@')[0], '+')[1], ':');
            let info = split(halves[1], '=');
            let length = decimal_result(info[0])->Ok_0;
            let count = natural_result(info[1], u32::MAX as nat)->Ok_0;
            let keys = halves[0];
            let delta = length / count as real;
            let marks = notes_of(s)->Ok_0;
            &&& is_chord(keys)
            &&& marks.len() == 2 + (count - 1)
            &&& marks[0] == SyncedStructView::TimingLine(beat)
            &&& marks[1] == SyncedStructView::HitObject(
                HitObjectView { t: HitObjectType::Hold, keys, beat },
            )
            &&& forall|k: int|
                1 <= k < count ==> #[trigger] marks[1 + k] == SyncedStructView::HitObject(
                    HitObjectView {
                        t: HitObjectType::HoldTick,
                        keys,
                        beat: beat + k as real * delta,
                    },
                )
        }),
{
    lemma_split_single(s, ',');
    let groups = group_items(s);
    assert(groups[0] == group_result(s));
    lemma_collect_every_piece(groups, 0);
    lemma_collect_one(groups);
    let parts = split(s, '@');
    let beat = decimal_result(parts[1])->Ok_0;
    let sides = split(parts[0], '+');
    let hit_items = chord_items(
        sides[0],
        HitObjectType::Hit,
        beat,
        SyncedStructListError::DuplicateHitChar,
        SyncedStructListError::MultiColumnHit,
    );
    assert(split(sides[0], '-') =~= seq![Seq::<char>::empty()]) by {
        assert(sides[0] =~= Seq::<char>::empty());
    }
    assert(hit_items[0] == chord_result(
        Seq::<char>::empty(),
        HitObjectType::Hit,
        beat,
        SyncedStructListError::DuplicateHitChar,
        SyncedStructListError::MultiColumnHit,
    ));
    lemma_collect_one(hit_items);
    let halves = split(sides[1], ':');
    let info = split(halves[1], '=');
    let length = decimal_result(info[0])->Ok_0;
    let count = natural_result(info[1], u32::MAX as nat)->Ok_0;
    let keys = halves[0];
    lemma_split_single(keys, '-');
    let hold_items = chord_items(
        keys,
        HitObjectType::Hold,
        beat,
        SyncedStructListError::DuplicateHoldChar,
        SyncedStructListError::MultiColumnHold,
    );
    assert(hold_items[0] == chord_result(
        keys,
        HitObjectType::Hold,
        beat,
        SyncedStructListError::DuplicateHoldChar,
        SyncedStructListError::MultiColumnHold,
    ));
    lemma_collect_every_piece(hold_items, 0);
    lemma_collect_one(hold_items);
    let all_ticks = tick_items(keys, beat, length, count);
    assert(all_ticks[0] == ticks_result(keys, beat, length, count));
    lemma_collect_every_piece(all_ticks, 0);
    lemma_collect_one(all_ticks);
    let made = ticks_of(keys, beat, length / count as real, count);
    assert(all_ticks[0]->Ok_0 =~= made);
    let hold = SyncedStructView::HitObject(HitObjectView { t: HitObjectType::Hold, keys, beat });
    let marks = notes_of(s)->Ok_0;
    assert(marks =~= seq![SyncedStructView::TimingLine(beat)] + Seq::<SyncedStructView>::empty()
        + (seq![hold] + made));
    assert forall|k: int| 1 <= k < count implies #[trigger] marks[1 + k]
        == SyncedStructView::HitObject(
        HitObjectView {
            t: HitObjectType::HoldTick,
            keys,
            beat: beat + k as real * (length / count as real),
        },
    ) by {
        assert(marks[1 + k] == made[k - 1]);
    }
}

/// What a group comes to starts with its timing line, and every hit object
/// after it has a chord for its keys.
pub proof fn lemma_group_read(group: Seq<char>, i: int)
    requires
        group_result(group) is Ok,
        0 <= i < group_result(group)->Ok_0.len(),
    ensures
        group_result(group)->Ok_0[0] is TimingLine,
        group_result(group)->Ok_0[i] matches SyncedStructView::HitObject(h) ==> is_chord(h.keys),
{
    let parts = split(group, '@');
    let beat = decimal_result(parts[1])->Ok_0;
    let sides = split(parts[0], '+');
    let hit_items = chord_items(
        sides[0],
        HitObjectType::Hit,
        beat,
        SyncedStructListError::DuplicateHitChar,
        SyncedStructListError::MultiColumnHit,
    );
    let hits = collect(hit_items)->Ok_0;
    if 1 <= i < 1 + hits.len() {
        lemma_chords_read_are_chords(
            sides[0],
            HitObjectType::Hit,
            beat,
            SyncedStructListError::DuplicateHitChar,
            SyncedStructListError::MultiColumnHit,
            i - 1,
        );
    } else if i >= 1 + hits.len() {
        let text = sides[1];
        let halves = split(text, ':');
        let info = split(halves[1], '=');
        let length = decimal_result(info[0])->Ok_0;
        let count = natural_result(info[1], u32::MAX as nat)->Ok_0;
        let hold_items = chord_items(
            halves[0],
            HitObjectType::Hold,
            beat,
            SyncedStructListError::DuplicateHoldChar,
            SyncedStructListError::MultiColumnHold,
        );
        let holds = collect(hold_items)->Ok_0;
        let m = i - 1 - hits.len();
        if m < holds.len() {
            lemma_chords_read_are_chords(
                halves[0],
                HitObjectType::Hold,
                beat,
                SyncedStructListError::DuplicateHoldChar,
                SyncedStructListError::MultiColumnHold,
                m,
            );
        } else {
            lemma_ticks_made_are_chords(halves[0], beat, length, count, m - holds.len());
        }
    }
}

/// What is read is sound: every hit object of the notes that a notation
/// denotes has keys that are a chord, which is at least one key, no key
/// twice, and all keys in one column of the keyboard: its lane.
pub proof fn lemma_hit_objects_read_are_chords(s: Seq<char>, i: int)
    requires
        notes_of(s) is Ok,
        0 <= i < notes_of(s)->Ok_0.len(),
    ensures
        notes_of(s)->Ok_0[i] matches SyncedStructView::HitObject(h) ==> is_chord(h.keys)
            && exists|lane: u8| lies_in_lane(h.keys, lane),
{
    let all = group_items(s);
    let at = lemma_collect_source(all, i);
    let group = split(s, ',')[at.0];
    assert(all[at.0] == group_result(group));
    lemma_group_read(group, at.1);
    if let SyncedStructView::HitObject(h) = notes_of(s)->Ok_0[i] {
        let lane = key_column(h.keys[0])->Some_0;
        assert forall|j: int| 0 <= j < h.keys.len() implies key_column(#[trigger] h.keys[j])
            == Some(lane) by {
            assert(key_column(h.keys[j]) == key_column(h.keys[0]));
        }
        assert(lies_in_lane(h.keys, lane));
    }
}

/// The column of each key.
fn columns_of(keys: &Vec<char>) -> (columns: Vec<Option<u8>>)
    ensures
        columns@.len() == keys@.len(),
        forall|i: int| 0 <= i < keys@.len() ==> columns@[i] == key_column(keys@[i]),
{
    let mut columns: Vec<Option<u8>> = Vec::new();
    let mut i: usize = 0;
    while i < keys.len()
        invariant
            i <= keys.len(),
            columns@.len() == i,
            forall|j: int| 0 <= j < i ==> columns@[j] == key_column(keys@[j]),
        decreases keys.len() - i,
    {
        columns.push(keys[i].column());
        i += 1;
    }
    columns
}

/// Reads one chord.
fn read_chord(
    member: &Vec<char>,
    t: HitObjectType,
    beat: Beat,
    duplicate: SyncedStructListError,
    multi_column: SyncedStructListError,
) -> (r: Result<Vec<SyncedStruct>, Error>)
    ensures
        match r {
            Ok(v) => chord_result(member@, t, beat@, duplicate, multi_column) == Ok::<
                Seq<SyncedStructView>,
                Error,
            >(marks(v@)),
            Err(e) => chord_result(member@, t, beat@, duplicate, multi_column) == Err::<
                Seq<SyncedStructView>,
                Error,
            >(e),
        },
{
    let mut v: Vec<SyncedStruct> = Vec::new();
    if member.len() == 0 {
        assert(marks(v@) =~= Seq::<SyncedStructView>::empty());
        return Ok(v);
    }
    if !all_unique(member) {
        return Err(Error::SyncedStructList(duplicate));
    }
    let columns = columns_of(member);
    if !all_equal(&columns) {
        return Err(Error::SyncedStructList(multi_column));
    }
    assert forall|i: int, j: int|
        0 <= i < member@.len() && 0 <= j < member@.len() implies key_column(member@[i])
        == key_column(member@[j]) by {
        assert(columns@[i] == columns@[j]);
    }
    if columns[0].is_none() {
        return Err(Error::SyncedStructList(multi_column));
    }
    let keys = subrange(member, 0, member.len());
    assert(keys@ == member@);
    v.push(SyncedStruct::HitObject(HitObject { t, keys, beat }));
    assert(marks(v@) =~= seq![
        SyncedStructView::HitObject(HitObjectView { t, keys: member@, beat: beat@ }),
    ]);
    Ok(v)
}

/// Reads chords separated by dashes.
fn read_chords(
    text: &Vec<char>,
    t: HitObjectType,
    beat: Beat,
    duplicate: SyncedStructListError,
    multi_column: SyncedStructListError,
) -> (r: Result<Vec<SyncedStruct>, Error>)
    ensures
        match r {
            Ok(v) => collect(chord_items(text@, t, beat@, duplicate, multi_column)) == Ok::<
                Seq<SyncedStructView>,
                Error,
            >(marks(v@)),
            Err(e) => collect(chord_items(text@, t, beat@, duplicate, multi_column)) == Err::<
                Seq<SyncedStructView>,
                Error,
            >(e),
        },
{
    let members = split_chars(text, '-');
    let ghost all = chord_items(text@, t, beat@, duplicate, multi_column);
    let mut v: Vec<SyncedStruct> = Vec::new();
    let mut i: usize = 0;
    assert(all.take(0) =~= Seq::<Result<Seq<SyncedStructView>, Error>>::empty());
    assert(marks(v@) =~= Seq::<SyncedStructView>::empty());
    while i < members.len()
        invariant
            i <= members.len(),
            views(members@) == split(text@, '-'),
            all == chord_items(text@, t, beat@, duplicate, multi_column),
            all.len() == members.len(),
            collect(all.take(i as int)) == Ok::<Seq<SyncedStructView>, Error>(marks(v@)),
        decreases members.len() - i,
    {
        proof {
            lemma_collect_step(all, i as int);
            assert(views(members@)[i as int] == members@[i as int]@);
            assert(all[i as int] == chord_result(
                members@[i as int]@,
                t,
                beat@,
                duplicate,
                multi_column,
            ));
        }
        match read_chord(&members[i], t, beat, duplicate, multi_column) {
            Ok(mut items) => {
                proof {
                    lemma_marks_append(v@, items@);
                }
                v.append(&mut items);
            },
            Err(e) => {
                proof {
                    lemma_collect_error(all, i + 1);
                }
                return Err(e);
            },
        }
        i += 1;
    }
    assert(all.take(i as int) == all);
    Ok(v)
}

/// Makes the ticks of one hold.
fn make_ticks(member: &Vec<char>, beat: Beat, length: &Ratio, count: u32) -> (r: Result<
    Vec<SyncedStruct>,
    Error,
>)
    ensures
        match r {
            Ok(v) => ticks_result(member@, beat@, length@, count as nat) == Ok::<
                Seq<SyncedStructView>,
                Error,
            >(marks(v@)),
            Err(e) => ticks_result(member@, beat@, length@, count as nat) == Err::<
                Seq<SyncedStructView>,
                Error,
            >(e),
        },
{
    let mut v: Vec<SyncedStruct> = Vec::new();
    assert(marks(v@) =~= Seq::<SyncedStructView>::empty());
    if member.len() == 0 || count <= 1 {
        return Ok(v);
    }
    let parts = Ratio::from_u32(count);
    let delta = match length.checked_div(&parts) {
        Some(delta) => delta,
        None => {
            return Err(Error::Number(NumberError::OutOfRange));
        },
    };
    let mut k: u32 = 1;
    let mut tick = beat;
    assert(tick@ == tick_beat(beat@, delta@, 0)) by (nonlinear_arith)
        requires
            tick@ == beat@,
            tick_beat(beat@, delta@, 0) == beat@ + (0 as real) * delta@,
    ;
    assert(marks(v@) =~= ticks_of(member@, beat@, delta@, 1));
    while k < count
        invariant
            1 <= k <= count,
            member@.len() > 0,
            count > 1,
            delta@ == length@ / count as real,
            fits(delta@),
            tick@ == tick_beat(beat@, delta@, k - 1),
            forall|j: int| 1 <= j < k ==> fits(#[trigger] tick_beat(beat@, delta@, j)),
            marks(v@) == ticks_of(member@, beat@, delta@, k as nat),
        decreases count - k,
    {
        proof {
            lemma_tick_step(beat@, delta@, k as int);
        }
        match tick.checked_add(&delta) {
            None => {
                assert(!fits(tick_beat(beat@, delta@, k as int)));
                return Err(Error::Number(NumberError::OutOfRange));
            },
            Some(next) => {
                tick = next;
                let keys = subrange(member, 0, member.len());
                assert(keys@ == member@);
                let ghost before = marks(v@);
                v.push(
                    SyncedStruct::HitObject(
                        HitObject { t: HitObjectType::HoldTick, keys, beat: tick },
                    ),
                );
                let ghost made = SyncedStructView::HitObject(
                    HitObjectView {
                        t: HitObjectType::HoldTick,
                        keys: member@,
                        beat: tick_beat(beat@, delta@, k as int),
                    },
                );
                assert(marks(v@) =~= before.push(made));
                assert(before.push(made) =~= ticks_of(member@, beat@, delta@, (k + 1) as nat));
                k += 1;
            },
        }
    }
    Ok(v)
}

/// Makes the ticks of the holds separated by dashes.
fn read_ticks(text: &Vec<char>, beat: Beat, length: &Ratio, count: u32) -> (r: Result<
    Vec<SyncedStruct>,
    Error,
>)
    ensures
        match r {
            Ok(v) => collect(tick_items(text@, beat@, length@, count as nat)) == Ok::<
                Seq<SyncedStructView>,
                Error,
            >(marks(v@)),
            Err(e) => collect(tick_items(text@, beat@, length@, count as nat)) == Err::<
                Seq<SyncedStructView>,
                Error,
            >(e),
        },
{
    let members = split_chars(text, '-');
    let ghost all = tick_items(text@, beat@, length@, count as nat);
    let mut v: Vec<SyncedStruct> = Vec::new();
    let mut i: usize = 0;
    assert(all.take(0) =~= Seq::<Result<Seq<SyncedStructView>, Error>>::empty());
    assert(marks(v@) =~= Seq::<SyncedStructView>::empty());
    while i < members.len()
        invariant
            i <= members.len(),
            views(members@) == split(text@, '-'),
            all == tick_items(text@, beat@, length@, count as nat),
            all.len() == members.len(),
            collect(all.take(i as int)) == Ok::<Seq<SyncedStructView>, Error>(marks(v@)),
        decreases members.len() - i,
    {
        proof {
            lemma_collect_step(all, i as int);
            assert(views(members@)[i as int] == members@[i as int]@);
            assert(all[i as int] == ticks_result(
                members@[i as int]@,
                beat@,
                length@,
                count as nat,
            ));
        }
        match make_ticks(&members[i], beat, length, count) {
            Ok(mut items) => {
                proof {
                    lemma_marks_append(v@, items@);
                }
                v.append(&mut items);
            },
            Err(e) => {
                proof {
                    lemma_collect_error(all, i + 1);
                }
                return Err(e);
            },
        }
        i += 1;
    }
    assert(all.take(i as int) == all);
    Ok(v)
}

/// Reads the part of a group after its `+`.
fn read_holds(text: &Vec<char>, beat: Beat) -> (r: Result<Vec<SyncedStruct>, Error>)
    ensures
        match r {
            Ok(v) => holds_result(text@, beat@) == Ok::<Seq<SyncedStructView>, Error>(marks(v@)),
            Err(e) => holds_result(text@, beat@) == Err::<Seq<SyncedStructView>, Error>(e),
        },
{
    let parts = split_chars(text, ':');
    assert(views(parts@).len() == parts@.len());
    if parts.len() > 2 {
        return Err(Error::SyncedStructList(SyncedStructListError::MultipleColons));
    }
    if parts.len() < 2 {
        return Err(Error::SyncedStructList(SyncedStructListError::MissingHoldInformation));
    }
    assert(views(parts@)[0] == parts@[0]@);
    assert(views(parts@)[1] == parts@[1]@);
    let info = split_chars(&parts[1], '=');
    assert(views(info@).len() == info@.len());
    if info.len() > 2 {
        return Err(Error::SyncedStructList(SyncedStructListError::MultipleEqualsSigns));
    }
    assert(views(info@)[0] == info@[0]@);
    let length = match parse_decimal(&info[0]) {
        Ok(length) => length,
        Err(e) => {
            return Err(Error::Number(e));
        },
    };
    if info.len() < 2 {
        return Err(Error::SyncedStructList(SyncedStructListError::MissingHoldTickCount));
    }
    assert(views(info@)[1] == info@[1]@);
    let count: u32 = match parse_natural(&info[1], 0xffff_ffff) {
        Ok(count) => count as u32,
        Err(e) => {
            return Err(Error::Number(e));
        },
    };
    let mut v = match read_chords(
        &parts[0],
        HitObjectType::Hold,
        beat,
        SyncedStructListError::DuplicateHoldChar,
        SyncedStructListError::MultiColumnHold,
    ) {
        Ok(v) => v,
        Err(e) => {
            return Err(e);
        },
    };
    let mut ticks = match read_ticks(&parts[0], beat, &length, count) {
        Ok(ticks) => ticks,
        Err(e) => {
            return Err(e);
        },
    };
    proof {
        lemma_marks_append(v@, ticks@);
    }
    v.append(&mut ticks);
    Ok(v)
}

/// Reads one group.
fn read_group(group: &Vec<char>) -> (r: Result<Vec<SyncedStruct>, Error>)
    ensures
        match r {
            Ok(v) => group_result(group@) == Ok::<Seq<SyncedStructView>, Error>(marks(v@)),
            Err(e) => group_result(group@) == Err::<Seq<SyncedStructView>, Error>(e),
        },
{
    let parts = split_chars(group, '@');
    assert(views(parts@).len() == parts@.len());
    if parts.len() > 2 {
        return Err(Error::SyncedStructList(SyncedStructListError::MultipleAtSigns));
    }
    if parts.len() < 2 {
        return Err(Error::SyncedStructList(SyncedStructListError::MissingBeatValue));
    }
    assert(views(parts@)[0] == parts@[0]@);
    assert(views(parts@)[1] == parts@[1]@);
    let beat = match parse_decimal(&parts[1]) {
        Ok(beat) => Beat::from_f64(beat),
        Err(e) => {
            return Err(Error::Number(e));
        },
    };
    let mut v: Vec<SyncedStruct> = Vec::new();
    v.push(SyncedStruct::TimingLine(TimingLine::at_beat(beat)));
    assert(marks(v@) =~= seq![SyncedStructView::TimingLine(beat@)]);
    let sides = split_chars(&parts[0], '+');
    assert(views(sides@).len() == sides@.len());
    if sides.len() > 2 {
        return Err(Error::SyncedStructList(SyncedStructListError::MultiplePlusSigns));
    }
    assert(views(sides@)[0] == sides@[0]@);
    let mut hits = match read_chords(
        &sides[0],
        HitObjectType::Hit,
        beat,
        SyncedStructListError::DuplicateHitChar,
        SyncedStructListError::MultiColumnHit,
    ) {
        Ok(hits) => hits,
        Err(e) => {
            return Err(e);
        },
    };
    proof {
        lemma_marks_append(v@, hits@);
    }
    v.append(&mut hits);
    if sides.len() < 2 {
        return Ok(v);
    }
    assert(views(sides@)[1] == sides@[1]@);
    let mut holds = match read_holds(&sides[1], beat) {
        Ok(holds) => holds,
        Err(e) => {
            return Err(e);
        },
    };
    proof {
        lemma_marks_append(v@, holds@);
    }
    v.append(&mut holds);
    Ok(v)
}

impl TimingLine {
    /// The timing line at `beat`, which need not be a whole beat.
    pub fn at_beat(beat: Beat) -> (r: TimingLine)
        ensures
            r.beat == beat,
    {
        TimingLine { beat }
    }
}

impl HitObject {
    /// The hit object of kind `t` for `keys` at `beat`, which need not be a
    /// whole beat.
    pub fn at_beat(beat: Beat, t: HitObjectType, keys: Vec<char>) -> (r: HitObject)
        ensures
            r.beat == beat,
            r.t == t,
            r.keys == keys,
    {
        HitObject { t, keys, beat }
    }
}

impl SyncedStructList {
    /// Reads the notes of a chart from the characters of their notation.
    pub fn from_chars(s: &Vec<char>) -> (r: Result<SyncedStructList, Error>)
        ensures
            match r {
                Ok(list) => notes_of(s@) == Ok::<Seq<SyncedStructView>, Error>(list@),
                Err(e) => notes_of(s@) == Err::<Seq<SyncedStructView>, Error>(e),
            },
    {
        let groups = split_chars(s, ',');
        let ghost all = group_items(s@);
        let mut v: Vec<SyncedStruct> = Vec::new();
        let mut i: usize = 0;
        assert(all.take(0) =~= Seq::<Result<Seq<SyncedStructView>, Error>>::empty());
        assert(marks(v@) =~= Seq::<SyncedStructView>::empty());
        while i < groups.len()
            invariant
                i <= groups.len(),
                views(groups@) == split(s@, ','),
                all == group_items(s@),
                all.len() == groups.len(),
                collect(all.take(i as int)) == Ok::<Seq<SyncedStructView>, Error>(marks(v@)),
            decreases groups.len() - i,
        {
            proof {
                lemma_collect_step(all, i as int);
                assert(views(groups@)[i as int] == groups@[i as int]@);
                assert(all[i as int] == group_result(groups@[i as int]@));
            }
            match read_group(&groups[i]) {
                Ok(mut items) => {
                    proof {
                        lemma_marks_append(v@, items@);
                    }
                    v.append(&mut items);
                },
                Err(e) => {
                    proof {
                        lemma_collect_error(all, i + 1);
                    }
                    return Err(e);
                },
            }
            i += 1;
        }
        assert(all.take(i as int) == all);
        Ok(SyncedStructList(v))
    }

    /// Reads the notes of a chart from their notation. Examples: `a@0` is one
    /// hit; `qaz@0` one hit of three keys; `a-b-c@0` three hits on one beat;
    /// `a+b:1=4@0` a hit and a hold of one beat in four parts;
    /// `a@0,b@4,c@8` three hits on three beats.
    pub fn from_string(s: String) -> (r: Result<SyncedStructList, Error>)
        ensures
            match r {
                Ok(list) => notes_of(s@) == Ok::<Seq<SyncedStructView>, Error>(list@),
                Err(e) => notes_of(s@) == Err::<Seq<SyncedStructView>, Error>(e),
            },
    {
        let chars = chars_of(s.as_str());
        SyncedStructList::from_chars(&chars)
    }
}

/// The sum of the row weights of the keys; a key without a row counts nothing.
pub open spec fn row_sum(keys: Seq<char>) -> int
    decreases keys.len(),
{
    if keys.len() == 0 {
        0
    } else {
        row_sum(keys.drop_last()) + match key_row(keys.last()) {
            Some(row) => row as int,
            None => 0,
        }
    }
}

/// The colour of a hit object by the sum of its row weights: one colour for
/// each of the seven sets of rows that a chord can take.
pub open spec fn color_of(rows: int) -> Seq<char> {
    if rows == 1 {
        "red"@
    } else if rows == 2 {
        "green"@
    } else if rows == 3 {
        "yellow"@
    } else if rows == 4 {
        "blue"@
    } else if rows == 5 {
        "magenta"@
    } else if rows == 6 {
        "cyan"@
    } else {
        "white"@
    }
}

/// The shape that a hit object is drawn with.
pub open spec fn shape_of(t: HitObjectType) -> Seq<char> {
    match t {
        HitObjectType::Hit | HitObjectType::Hold => "circle"@,
        HitObjectType::HoldTick => "hold_tick"@,
    }
}

/// A chord of the keyboard has at most three keys, one to a row, so its row
/// weights sum to a number from 1 to 7.
pub proof fn lemma_chord_rows(keys: Seq<char>)
    requires
        is_chord(keys),
    ensures
        keys.len() <= 3,
        1 <= row_sum(keys) <= 7,
        forall|i: int| 0 <= i < keys.len() ==> key_row(#[trigger] keys[i]) is Some,
{
    let k = key_column(keys[0]).unwrap();
    assert forall|i: int| 0 <= i < keys.len() implies key_row(#[trigger] keys[i]) is Some
        && keys[i] == key_at(key_row(keys[i]).unwrap() as int, k as int) && (key_row(keys[i])
        == Some(1u8) || key_row(keys[i]) == Some(2u8) || key_row(keys[i]) == Some(4u8)) by {
        assert(key_column(keys[i]) == key_column(keys[0]));
        lemma_key_of_column(keys[i], k);
    }
    if keys.len() >= 4 {
        assert(keys[0] != keys[1] && keys[0] != keys[2] && keys[0] != keys[3] && keys[1] != keys[2]
            && keys[1] != keys[3] && keys[2] != keys[3]);
    }
    reveal_with_fuel(row_sum, 4);
    if keys.len() == 1 {
        assert(keys.drop_last().len() == 0);
    } else if keys.len() == 2 {
        let a = keys.drop_last();
        assert(a.len() == 1 && a.last() == keys[0] && a.drop_last().len() == 0);
        assert(keys[0] != keys[1]);
    } else {
        let a = keys.drop_last();
        let b = a.drop_last();
        assert(a.len() == 2 && a.last() == keys[1]);
        assert(b.len() == 1 && b.last() == keys[0] && b.drop_last().len() == 0);
        assert(keys[0] != keys[1] && keys[0] != keys[2] && keys[1] != keys[2]);
    }
}

/// The distance within which a beat counts as lying on a third or a sixth.
pub open spec fn tolerance() -> real {
    quot(1, 2147483648)
}

/// Whether `f` lies within the tolerance of `mark`.
pub open spec fn near(f: real, mark: real) -> bool {
    mark - tolerance() < f < mark + tolerance()
}

/// The colour of a timing line by what its beat has beyond a whole beat:
/// red on the beat, blue on the half, yellow on the quarters, green on the
/// eighths; magenta and cyan within the tolerance of the thirds and the
/// sixths as written with five decimals; else white.
pub open spec fn line_color(beat: real) -> Seq<char> {
    let f = fraction(beat);
    if f == 0real {
        "red"@
    } else if f == quot(1, 2) {
        "blue"@
    } else if f == quot(1, 4) || f == quot(3, 4) {
        "yellow"@
    } else if f == quot(1, 8) || f == quot(3, 8) || f == quot(5, 8) || f == quot(7, 8) {
        "green"@
    } else if near(f, quot(33333, 100000)) || near(f, quot(66666, 100000)) {
        "magenta"@
    } else if near(f, quot(16666, 100000)) || near(f, quot(83333, 100000)) {
        "cyan"@
    } else {
        "white"@
    }
}

/// Whether `f` lies within the tolerance of `num / 100000`.
fn is_near(f: &Ratio, num: i64) -> (r: bool)
    requires
        0 <= num <= 100000,
    ensures
        r == near(f@, quot(num as int, 100000)),
{
    let scaled: i64 = num * 2147483648;
    let den: i64 = 214748364800000;
    proof {
        lemma_quot_add(num as int, 100000, 1, 2147483648);
        assert(in_range(scaled - 100000, den as int));
        assert(in_range(scaled + 100000, den as int));
        assert(quot(scaled - 100000, den as int) == quot(scaled - 100000, den as int));
        assert(quot(scaled + 100000, den as int) == quot(scaled + 100000, den as int));
    }
    let low = match Ratio::new(scaled - 100000, den) {
        Some(low) => low,
        None => {
            return false;
        },
    };
    let high = match Ratio::new(scaled + 100000, den) {
        Some(high) => high,
        None => {
            return false;
        },
    };
    low.lt(f) && f.lt(&high)
}

impl HitObject {
    /// Whether the keys of this hit object are a chord of the keyboard, so
    /// that it has a lane and a colour.
    pub fn is_on_keyboard(&self) -> (r: bool)
        ensures
            r == is_chord(self.keys@),
    {
        if self.keys.len() == 0 {
            return false;
        }
        if !all_unique(&self.keys) {
            return false;
        }
        let columns = columns_of(&self.keys);
        if !all_equal(&columns) {
            return false;
        }
        assert forall|i: int, j: int|
            0 <= i < self.keys@.len() && 0 <= j < self.keys@.len() implies key_column(self.keys@[i])
            == key_column(self.keys@[j]) by {
            assert(columns@[i] == columns@[j]);
        }
        match self.keys[0].column() {
            Some(_) => true,
            None => false,
        }
    }

    /// The lane of this hit object: the column of its first key.
    pub fn lane(&self) -> (r: u8)
        requires
            self.keys@.len() > 0,
            key_column(self.keys@[0]) is Some,
        ensures
            key_column(self.keys@[0]) == Some(r),
            r < 10,
    {
        proof {
            lemma_key_of_column(self.keys@[0], key_column(self.keys@[0]).unwrap());
        }
        match self.keys[0].column() {
            Some(column) => column,
            None => 0,
        }
    }

    /// Where the lane of this hit object lies across the screen: a tenth of
    /// the width for every lane, from 9/20 left of the middle.
    pub fn lane_x(&self) -> (r: Ratio)
        requires
            self.keys@.len() > 0,
            key_column(self.keys@[0]) is Some,
        ensures
            r@ == quot(2 * key_column(self.keys@[0]).unwrap() - 9, 20),
    {
        let lane = self.lane();
        Ratio::from_small(2 * (lane as i32) - 9, 20)
    }

    /// The sum of the row weights of the keys, which is from 1 to 7.
    pub fn rows(&self) -> (r: u8)
        requires
            is_chord(self.keys@),
        ensures
            r == row_sum(self.keys@),
            1 <= r <= 7,
    {
        proof {
            lemma_chord_rows(self.keys@);
        }
        let mut sum: u8 = 0;
        let mut i: usize = 0;
        assert(self.keys@.take(0).len() == 0);
        while i < self.keys.len()
            invariant
                i <= self.keys@.len() <= 3,
                sum <= 4 * i,
                sum == row_sum(self.keys@.take(i as int)),
            decreases self.keys@.len() - i,
        {
            proof {
                let now = self.keys@.take(i + 1);
                assert(now.drop_last() == self.keys@.take(i as int));
                assert(now.last() == self.keys@[i as int]);
            }
            let row: u8 = match self.keys[i].row() {
                Some(row) => row,
                None => 0,
            };
            sum = sum + row;
            i += 1;
        }
        assert(self.keys@.take(i as int) == self.keys@);
        sum
    }

    /// The colour of this hit object.
    pub fn color(&self) -> (r: &'static str)
        requires
            is_chord(self.keys@),
        ensures
            r@ == color_of(row_sum(self.keys@)),
    {
        let rows = self.rows();
        if rows == 1 {
            "red"
        } else if rows == 2 {
            "green"
        } else if rows == 3 {
            "yellow"
        } else if rows == 4 {
            "blue"
        } else if rows == 5 {
            "magenta"
        } else if rows == 6 {
            "cyan"
        } else {
            "white"
        }
    }

    /// The name of the picture that this hit object is drawn with.
    pub fn asset(&self) -> (r: String)
        requires
            is_chord(self.keys@),
        ensures
            r@ == shape_of(self.t) + "_"@ + color_of(row_sum(self.keys@)),
    {
        let shape = match self.t {
            HitObjectType::Hit | HitObjectType::Hold => "circle",
            HitObjectType::HoldTick => "hold_tick",
        };
        let color = self.color();
        String::from_str(shape).concat("_").concat(color)
    }
}

impl TimingLine {
    /// The name of the picture that this timing line is drawn with.
    pub fn asset(&self) -> (r: String)
        ensures
            r@ == "line_"@ + line_color(self.beat@),
    {
        let f = self.beat.0.fract();
        let color = if f.is_zero() {
            "red"
        } else if f.equals(&Ratio::from_small(1, 2)) {
            "blue"
        } else if f.equals(&Ratio::from_small(1, 4)) || f.equals(&Ratio::from_small(3, 4)) {
            "yellow"
        } else if f.equals(&Ratio::from_small(1, 8)) || f.equals(&Ratio::from_small(3, 8))
            || f.equals(&Ratio::from_small(5, 8)) || f.equals(&Ratio::from_small(7, 8)) {
            "green"
        } else if is_near(&f, 33333) || is_near(&f, 66666) {
            "magenta"
        } else if is_near(&f, 16666) || is_near(&f, 83333) {
            "cyan"
        } else {
            "white"
        };
        String::from_str("line_").concat(color)
    }
}

} // verus!
