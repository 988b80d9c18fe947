//! The chart as a whole, and the lines it is read from.
//!
//! A chart is written as lines of the form `key=value;`. The keys `version`,
//! `title`, `subtitle`, `artist`, `credit` and `hit_objects` are required,
//! and one of `bpm` and `bpms`. Empty lines are passed over; of two lines
//! with one key the later counts.

use crate::chart::error::{
    collect, lemma_collect_error, lemma_collect_step, ChartError, DeserializationError, Error,
    ErrorView,
};
use crate::chart::notes::{notes_of, SyncedStructList, SyncedStructView};
use crate::chart::tempo::{
    beat_segment_from, beats_before, bpm_list_of, exact_time, lemma_beat_segment_bounds,
    lemma_tempo_list_read_is_not_empty, secs_before, segment_of_beat, span_beats, Bpm, BpmList,
    Tempo,
};
use crate::ratio::{fits, Ratio};
use crate::text::{chars_of, decimal_result, natural_result, parse_decimal, parse_natural};
use vstd::prelude::*;
use vstd::string::{StrSliceExecFns, StringExecFns};

verus! {

/// The version of the chart format.
pub const CHART_VERSION: u8 = 0;

/// The index of the first `c` in `s`, or the length of `s` where there is none.
pub open spec fn position(s: Seq<char>, c: char) -> int
    decreases s.len(),
{
    if s.len() == 0 {
        0
    } else {
        let before = position(s.drop_last(), c);
        if before < s.len() - 1 {
            before
        } else if s.last() == c {
            s.len() - 1
        } else {
            s.len() as int
        }
    }
}

/// The position is that of the first occurrence.
pub proof fn lemma_position_is_first(s: Seq<char>, c: char)
    ensures
        0 <= position(s, c) <= s.len(),
        position(s, c) < s.len() ==> s[position(s, c)] == c,
        forall|j: int| 0 <= j < position(s, c) ==> s[j] != c,
    decreases s.len(),
{
    if s.len() > 0 {
        lemma_position_is_first(s.drop_last(), c);
        assert forall|j: int| 0 <= j < position(s, c) implies s[j] != c by {
            if j < s.len() - 1 {
                assert(s.drop_last()[j] == s[j]);
            }
        }
        if position(s, c) < s.len() - 1 {
            assert(s.drop_last()[position(s, c)] == s[position(s, c)]);
        }
    }
}

/// A position found among the first characters is the position in the whole.
pub proof fn lemma_position_prefix(s: Seq<char>, c: char, j: int)
    requires
        0 <= j <= s.len(),
        position(s.take(j), c) < j,
    ensures
        position(s, c) == position(s.take(j), c),
    decreases s.len(),
{
    if j == s.len() {
        assert(s.take(j) == s);
    } else {
        assert(s.drop_last().take(j) == s.take(j));
        lemma_position_prefix(s.drop_last(), c, j);
    }
}

/// The key and the value of a line: the key is what stands before the first
/// `=`, the value what stands between it and the `;` that ends the line.
pub open spec fn pair_of(line: Seq<char>) -> Result<(Seq<char>, Seq<char>), ErrorView> {
    let at = position(line, '=');
    if at >= line.len() {
        Err(ErrorView::MalformedKeyValuePair)
    } else if line.last() != ';' {
        Err(ErrorView::MalformedKeyValuePairWithValidKey(line.take(at)))
    } else {
        Ok((line.take(at), line.subrange(at + 1, line.len() - 1)))
    }
}

/// What a line adds to the pairs of a chart: nothing where it is empty.
pub open spec fn line_item(line: Seq<char>) -> Result<Seq<(Seq<char>, Seq<char>)>, ErrorView> {
    if line.len() == 0 {
        Ok(Seq::empty())
    } else {
        match pair_of(line) {
            Err(e) => Err(e),
            Ok(pair) => Ok(seq![pair]),
        }
    }
}

/// What each line comes to.
pub open spec fn line_items(lines: Seq<Seq<char>>) -> Seq<
    Result<Seq<(Seq<char>, Seq<char>)>, ErrorView>,
> {
    lines.map_values(|line: Seq<char>| line_item(line))
}

/// The value of the last pair with the key `key`.
pub open spec fn lookup(pairs: Seq<(Seq<char>, Seq<char>)>, key: Seq<char>) -> Option<Seq<char>>
    decreases pairs.len(),
{
    if pairs.len() == 0 {
        None
    } else if pairs.last().0 == key {
        Some(pairs.last().1)
    } else {
        lookup(pairs.drop_last(), key)
    }
}

/// The value of a pair that must be there.
pub open spec fn required(pairs: Seq<(Seq<char>, Seq<char>)>, key: Seq<char>) -> Result<
    Seq<char>,
    ErrorView,
> {
    match lookup(pairs, key) {
        Some(value) => Ok(value),
        None => Err(ErrorView::MissingKeyValuePair(key)),
    }
}

/// The tempo list of a chart: the one tempo of `bpm` from beat zero, or the
/// list of `bpms`; one of the two keys must be there and not both.
pub open spec fn tempos_of(pairs: Seq<(Seq<char>, Seq<char>)>) -> Result<Seq<Tempo>, ErrorView> {
    match (lookup(pairs, "bpm"@), lookup(pairs, "bpms"@)) {
        (Some(bpm), None) => match decimal_result(bpm) {
            Err(e) => Err(ErrorView::Number(e)),
            Ok(value) => Ok(seq![Tempo { value, start_beat: 0real }]),
        },
        (None, Some(bpms)) => match bpm_list_of(bpms) {
            Err(e) => Err(e@),
            Ok(list) => Ok(list),
        },
        (Some(_), Some(_)) => Err(ErrorView::ConflictingBpmInformation),
        (None, None) => Err(ErrorView::MissingBpmInformation),
    }
}

/// The name of the audio file of a chart: `<artist> - <title>.wav`, with
/// ` (<subtitle>)` after the title where the subtitle is not empty.
pub open spec fn audio_name(artist: Seq<char>, title: Seq<char>, subtitle: Seq<char>) -> Seq<char> {
    if subtitle.len() == 0 {
        artist + " - "@ + title + ".wav"@
    } else {
        artist + " - "@ + title + " ("@ + subtitle + ").wav"@
    }
}

/// The line that announces a chart.
pub open spec fn announcement(
    artist: Seq<char>,
    title: Seq<char>,
    subtitle: Seq<char>,
    credit: Seq<char>,
) -> Seq<char> {
    if subtitle.len() == 0 {
        "playing chart \""@ + artist + " - "@ + title + "\" (mapped by "@ + credit + ")..."@
    } else {
        "playing chart \""@ + artist + " - "@ + title + " ("@ + subtitle + ")"@
            + "\" (mapped by "@ + credit + ")..."@
    }
}

/// What is said of a chart, in specifications.
pub struct MetadataView {
    pub version: u8,
    pub title: Seq<char>,
    pub subtitle: Seq<char>,
    pub artist: Seq<char>,
    pub credit: Seq<char>,
    pub bpms: Seq<Tempo>,
}

/// What is said of a chart: its names, its format version and its tempos.
#[derive(Clone, Debug)]
pub struct Metadata {
    pub version: u8,
    pub title: String,
    pub subtitle: String,
    pub artist: String,
    pub credit: String,
    pub bpms: BpmList,
}

impl View for Metadata {
    type V = MetadataView;

    open spec fn view(&self) -> MetadataView {
        MetadataView {
            version: self.version,
            title: self.title@,
            subtitle: self.subtitle@,
            artist: self.artist@,
            credit: self.credit@,
            bpms: self.bpms@,
        }
    }
}

/// What is said of the empty chart: version zero, no names and no tempos.
pub open spec fn blank_metadata() -> MetadataView {
    MetadataView {
        version: 0,
        title: Seq::empty(),
        subtitle: Seq::empty(),
        artist: Seq::empty(),
        credit: Seq::empty(),
        bpms: Seq::empty(),
    }
}

impl Default for Metadata {
    fn default() -> (r: Metadata)
        ensures
            r@ == blank_metadata(),
    {
        Metadata {
            version: 0,
            title: String::new(),
            subtitle: String::new(),
            artist: String::new(),
            credit: String::new(),
            bpms: BpmList::default(),
        }
    }
}

impl Metadata {
    /// The metadata with these names, version and tempos.
    pub fn new(
        version: u8,
        title: String,
        subtitle: String,
        artist: String,
        credit: String,
        bpms: BpmList,
    ) -> (r: Metadata)
        ensures
            r.version == version,
            r.title == title,
            r.subtitle == subtitle,
            r.artist == artist,
            r.credit == credit,
            r.bpms == bpms,
    {
        Metadata { version, title, subtitle, artist, credit, bpms }
    }
}

/// The tempos with every value multiplied by `factor`.
pub open spec fn scaled(s: Seq<Tempo>, factor: real) -> Seq<Tempo> {
    s.map_values(|t: Tempo| Tempo { value: t.value * factor, start_beat: t.start_beat })
}

/// Whether the tempo `t` multiplied by `factor` fits.
pub open spec fn scales(t: Tempo, factor: real) -> bool {
    fits(t.value * factor)
}

/// Whether every tempo multiplied by `factor` fits.
pub open spec fn scalable(s: Seq<Tempo>, factor: real) -> bool {
    forall|i: int| 0 <= i < s.len() ==> #[trigger] scales(s[i], factor)
}

/// Scaling the tempos leaves every beat in its segment.
pub proof fn lemma_scaled_segment_of_beat(s: Seq<Tempo>, factor: real, beat: real, i: int)
    requires
        0 <= i,
    ensures
        beat_segment_from(scaled(s, factor), beat, i) == beat_segment_from(s, beat, i),
    decreases s.len() - i,
{
    let faster = scaled(s, factor);
    if i + 1 < s.len() {
        assert(faster[i].start_beat == s[i].start_beat);
        assert(faster[i + 1].start_beat == s[i + 1].start_beat);
        assert(faster[0].start_beat == s[0].start_beat);
        if !(beat - beats_before(s, i) < span_beats(s[i], s[i + 1])) {
            lemma_scaled_segment_of_beat(s, factor, beat, i + 1);
        }
    }
}

/// Scaling the tempos divides the seconds before every segment.
pub proof fn lemma_scaled_secs_before(s: Seq<Tempo>, factor: real, i: int)
    requires
        factor != 0real,
        0 <= i < s.len(),
        forall|j: int| 0 <= j < s.len() ==> (#[trigger] s[j]).value != 0real,
    ensures
        secs_before(scaled(s, factor), i) * factor == secs_before(s, i),
    decreases i,
{
    if i > 0 {
        lemma_scaled_secs_before(s, factor, i - 1);
        let faster = scaled(s, factor);
        let beats = span_beats(s[i - 1], s[i]);
        let value = s[i - 1].value;
        assert(span_beats(faster[i - 1], faster[i]) == beats);
        assert(faster[i - 1].value == value * factor);
        let before = secs_before(faster, i - 1);
        assert((before + beats * (60real / (value * factor))) * factor == before * factor + beats
            * (60real / value)) by (nonlinear_arith)
            requires
                value != 0real,
                factor != 0real,
        ;
    }
}

/// Playing at a rate makes time pass at that rate: with every tempo
/// multiplied by `factor`, a beat falls at its time divided by `factor`.
/// No tempo may be zero.
pub proof fn lemma_ratemod_divides_time(s: Seq<Tempo>, factor: real, beat: real)
    requires
        factor != 0real,
        forall|j: int| 0 <= j < s.len() ==> (#[trigger] s[j]).value != 0real,
    ensures
        exact_time(scaled(s, factor), beat) * factor == exact_time(s, beat),
{
    if s.len() > 0 {
        let faster = scaled(s, factor);
        let k = segment_of_beat(s, beat);
        lemma_scaled_segment_of_beat(s, factor, beat, 0);
        lemma_beat_segment_bounds(s, beat, 0);
        lemma_scaled_secs_before(s, factor, k);
        let value = s[k].value;
        let into = beat - beats_before(s, k);
        let before = secs_before(faster, k);
        assert(faster[k].value == value * factor);
        assert(faster[k].start_beat == s[k].start_beat);
        assert(faster[0].start_beat == s[0].start_beat);
        assert((before + into * (60real / (value * factor))) * factor == before * factor + into
            * (60real / value)) by (nonlinear_arith)
            requires
                value != 0real,
                factor != 0real,
        ;
    }
}

/// A chart in specifications.
pub struct ChartView {
    pub metadata: MetadataView,
    pub audio: Seq<char>,
    pub synced_structs: Seq<SyncedStructView>,
}

/// A chart: what is said of it, the name of its audio file, and its notes.
#[derive(Clone, Debug)]
pub struct Chart {
    pub metadata: Metadata,
    pub audio: String,
    pub synced_structs: SyncedStructList,
}

impl View for Chart {
    type V = ChartView;

    open spec fn view(&self) -> ChartView {
        ChartView {
            metadata: self.metadata@,
            audio: self.audio@,
            synced_structs: self.synced_structs@,
        }
    }
}

/// The chart that pairs of keys and values describe, or the first thing
/// that is wrong with them: the required keys are looked for in the order
/// `version`, `title`, `subtitle`, `artist`, `credit`, `hit_objects`, then
/// the tempos are read, then the notes.
pub open spec fn chart_of_pairs(pairs: Seq<(Seq<char>, Seq<char>)>) -> Result<
    ChartView,
    ErrorView,
> {
    match required(pairs, "version"@) {
        Err(e) => Err(e),
        Ok(version_text) => match natural_result(version_text, 255) {
            Err(e) => Err(ErrorView::Number(e)),
            Ok(version) => match required(pairs, "title"@) {
                Err(e) => Err(e),
                Ok(title) => match required(pairs, "subtitle"@) {
                    Err(e) => Err(e),
                    Ok(subtitle) => match required(pairs, "artist"@) {
                        Err(e) => Err(e),
                        Ok(artist) => match required(pairs, "credit"@) {
                            Err(e) => Err(e),
                            Ok(credit) => match required(pairs, "hit_objects"@) {
                                Err(e) => Err(e),
                                Ok(hit_objects) => match tempos_of(pairs) {
                                    Err(e) => Err(e),
                                    Ok(bpms) => match notes_of(hit_objects) {
                                        Err(e) => Err(e@),
                                        Ok(synced_structs) => Ok(
                                            ChartView {
                                                metadata: MetadataView {
                                                    version: version as u8,
                                                    title,
                                                    subtitle,
                                                    artist,
                                                    credit,
                                                    bpms,
                                                },
                                                audio: audio_name(artist, title, subtitle),
                                                synced_structs,
                                            },
                                        ),
                                    },
                                },
                            },
                        },
                    },
                },
            },
        },
    }
}

/// The chart that lines describe.
pub open spec fn chart_of(lines: Seq<Seq<char>>) -> Result<ChartView, ErrorView> {
    match collect(line_items(lines)) {
        Err(e) => Err(e),
        Ok(pairs) => chart_of_pairs(pairs),
    }
}

/// The audio file of a chart that was read is named after the artist, the
/// title and the subtitle that were read, and after nothing else.
pub proof fn lemma_audio_is_named_after_chart(lines: Seq<Seq<char>>)
    requires
        chart_of(lines) is Ok,
    ensures
        chart_of(lines)->Ok_0.audio == audio_name(
            chart_of(lines)->Ok_0.metadata.artist,
            chart_of(lines)->Ok_0.metadata.title,
            chart_of(lines)->Ok_0.metadata.subtitle,
        ),
{
}

/// A chart that was read has a tempo.
pub proof fn lemma_chart_read_has_tempo(lines: Seq<Seq<char>>)
    requires
        chart_of(lines) is Ok,
    ensures
        chart_of(lines)->Ok_0.metadata.bpms.len() > 0,
{
    let pairs = collect(line_items(lines))->Ok_0;
    match lookup(pairs, "bpms"@) {
        Some(bpms) => {
            if lookup(pairs, "bpm"@) is None {
                lemma_tempo_list_read_is_not_empty(bpms);
            }
        },
        None => {},
    }
}

/// The character sequences of lines.
pub open spec fn line_views(lines: Seq<String>) -> Seq<Seq<char>> {
    lines.map_values(|line: String| line@)
}

/// The character sequences of pairs.
pub open spec fn pair_views(pairs: Seq<(String, String)>) -> Seq<(Seq<char>, Seq<char>)> {
    pairs.map_values(|pair: (String, String)| (pair.0@, pair.1@))
}

/// Takes a line of the form `key=value;` apart.
pub fn deserialize_kv(raw: String) -> (r: Result<(String, String), DeserializationError>)
    ensures
        match r {
            Ok(pair) => pair_of(raw@) == Ok::<(Seq<char>, Seq<char>), ErrorView>(
                (pair.0@, pair.1@),
            ),
            Err(e) => pair_of(raw@) == Err::<(Seq<char>, Seq<char>), ErrorView>(e@),
        },
{
    let chars = chars_of(raw.as_str());
    let n = chars.len();
    let mut at: usize = 0;
    assert(chars@.take(0).len() == 0);
    while at < n && chars[at] != '='
        invariant
            at <= n,
            n == chars@.len(),
            position(chars@.take(at as int), '=') == at,
        decreases n - at,
    {
        proof {
            let now = chars@.take(at + 1);
            assert(now.drop_last() == chars@.take(at as int));
            assert(now.last() == chars@[at as int]);
        }
        at += 1;
    }
    if at >= n {
        assert(chars@.take(at as int) == chars@);
        return Err(DeserializationError::MalformedKeyValuePair);
    }
    proof {
        let now = chars@.take(at + 1);
        assert(now.drop_last() == chars@.take(at as int));
        assert(now.last() == chars@[at as int]);
        lemma_position_prefix(chars@, '=', at + 1);
    }
    let key = String::from_str(raw.as_str().substring_char(0, at));
    assert(key@ == raw@.take(at as int));
    if chars[n - 1] != ';' {
        return Err(DeserializationError::MalformedKeyValuePairWithValidKey(key));
    }
    let value = String::from_str(raw.as_str().substring_char(at + 1, n - 1));
    Ok((key, value))
}

/// Looks for the value of the last pair with the key `key`.
fn find_value(pairs: &Vec<(String, String)>, key: &str) -> (r: Option<String>)
    ensures
        match r {
            Some(value) => lookup(pair_views(pairs@), key@) == Some(value@),
            None => lookup(pair_views(pairs@), key@) is None,
        },
{
    let wanted = String::from_str(key);
    let ghost all = pair_views(pairs@);
    let mut i: usize = pairs.len();
    assert(all.take(i as int) == all);
    while i > 0
        invariant
            i <= pairs.len(),
            all == pair_views(pairs@),
            wanted@ == key@,
            lookup(all, key@) == lookup(all.take(i as int), key@),
        decreases i,
    {
        i -= 1;
        proof {
            let now = all.take(i + 1);
            assert(now.drop_last() == all.take(i as int));
            assert(now.last() == all[i as int]);
            assert(all[i as int] == (pairs@[i as int].0@, pairs@[i as int].1@));
        }
        if pairs[i].0 == wanted {
            return Some(pairs[i].1.clone());
        }
    }
    None
}

/// Looks for the value of a pair that must be there.
fn require(pairs: &Vec<(String, String)>, key: &str) -> (r: Result<String, Error>)
    ensures
        match r {
            Ok(value) => required(pair_views(pairs@), key@) == Ok::<Seq<char>, ErrorView>(value@),
            Err(e) => required(pair_views(pairs@), key@) == Err::<Seq<char>, ErrorView>(e@),
        },
{
    match find_value(pairs, key) {
        Some(value) => Ok(value),
        None => Err(Error::Chart(ChartError::MissingKeyValuePair(String::from_str(key)))),
    }
}

/// Reads the tempo list of a chart from its pairs.
fn read_tempos(pairs: &Vec<(String, String)>) -> (r: Result<BpmList, Error>)
    ensures
        match r {
            Ok(list) => tempos_of(pair_views(pairs@)) == Ok::<Seq<Tempo>, ErrorView>(list@),
            Err(e) => tempos_of(pair_views(pairs@)) == Err::<Seq<Tempo>, ErrorView>(e@),
        },
{
    match (find_value(pairs, "bpm"), find_value(pairs, "bpms")) {
        (Some(bpm), None) => {
            let chars = chars_of(bpm.as_str());
            match parse_decimal(&chars) {
                Ok(value) => Ok(BpmList::from_f64(value)),
                Err(e) => Err(Error::Number(e)),
            }
        },
        (None, Some(bpms)) => BpmList::from_string(bpms),
        (Some(_), Some(_)) => Err(Error::Chart(ChartError::ConflictingBpmInformation)),
        (None, None) => Err(Error::Chart(ChartError::MissingBpmInformation)),
    }
}

/// The name of the audio file of a chart by these names.
pub fn audio_filename(artist: &str, title: &str, subtitle: &str) -> (r: String)
    ensures
        r@ == audio_name(artist@, title@, subtitle@),
{
    let name = String::from_str(artist).concat(" - ").concat(title);
    if subtitle.is_empty() {
        let r = name.concat(".wav");
        assert(r@ =~= audio_name(artist@, title@, subtitle@));
        r
    } else {
        let r = name.concat(" (").concat(subtitle).concat(").wav");
        assert(r@ =~= audio_name(artist@, title@, subtitle@));
        r
    }
}

impl Chart {
    /// Puts a chart together from the lines of its file.
    pub fn from_lines(lines: &Vec<String>) -> (r: Result<Chart, Error>)
        ensures
            match r {
                Ok(chart) => chart_of(line_views(lines@)) == Ok::<ChartView, ErrorView>(chart@),
                Err(e) => chart_of(line_views(lines@)) == Err::<ChartView, ErrorView>(e@),
            },
    {
        let ghost all = line_items(line_views(lines@));
        let mut pairs: Vec<(String, String)> = Vec::new();
        let mut i: usize = 0;
        assert(all.take(0) =~= Seq::<Result<Seq<(Seq<char>, Seq<char>)>, ErrorView>>::empty());
        assert(pair_views(pairs@) =~= Seq::<(Seq<char>, Seq<char>)>::empty());
        while i < lines.len()
            invariant
                i <= lines.len(),
                all == line_items(line_views(lines@)),
                all.len() == lines.len(),
                collect(all.take(i as int)) == Ok::<Seq<(Seq<char>, Seq<char>)>, ErrorView>(
                    pair_views(pairs@),
                ),
            decreases lines.len() - i,
        {
            proof {
                lemma_collect_step(all, i as int);
                assert(line_views(lines@)[i as int] == lines@[i as int]@);
                assert(all[i as int] == line_item(lines@[i as int]@));
            }
            if !lines[i].as_str().is_empty() {
                match deserialize_kv(lines[i].clone()) {
                    Ok(pair) => {
                        let ghost before = pair_views(pairs@);
                        let ghost added = (pair.0@, pair.1@);
                        pairs.push(pair);
                        assert(pair_views(pairs@) =~= before + seq![added]);
                    },
                    Err(e) => {
                        proof {
                            lemma_collect_error(all, i + 1);
                        }
                        return Err(Error::Deserialization(e));
                    },
                }
            } else {
                assert(pair_views(pairs@) + Seq::<(Seq<char>, Seq<char>)>::empty() =~= pair_views(
                    pairs@,
                ));
            }
            i += 1;
        }
        assert(all.take(i as int) == all);
        Chart::from_pairs(&pairs)
    }

    /// Puts a chart together from its pairs of keys and values.
    pub fn from_pairs(pairs: &Vec<(String, String)>) -> (r: Result<Chart, Error>)
        ensures
            match r {
                Ok(chart) => chart_of_pairs(pair_views(pairs@)) == Ok::<ChartView, ErrorView>(
                    chart@,
                ),
                Err(e) => chart_of_pairs(pair_views(pairs@)) == Err::<ChartView, ErrorView>(e@),
            },
    {
        let version_text = match require(pairs, "version") {
            Ok(value) => value,
            Err(e) => {
                return Err(e);
            },
        };
        let version_chars = chars_of(version_text.as_str());
        let version: u8 = match parse_natural(&version_chars, 255) {
            Ok(version) => version as u8,
            Err(e) => {
                return Err(Error::Number(e));
            },
        };
        let title = match require(pairs, "title") {
            Ok(value) => value,
            Err(e) => {
                return Err(e);
            },
        };
        let subtitle = match require(pairs, "subtitle") {
            Ok(value) => value,
            Err(e) => {
                return Err(e);
            },
        };
        let artist = match require(pairs, "artist") {
            Ok(value) => value,
            Err(e) => {
                return Err(e);
            },
        };
        let credit = match require(pairs, "credit") {
            Ok(value) => value,
            Err(e) => {
                return Err(e);
            },
        };
        let hit_objects = match require(pairs, "hit_objects") {
            Ok(value) => value,
            Err(e) => {
                return Err(e);
            },
        };
        let bpms = match read_tempos(pairs) {
            Ok(bpms) => bpms,
            Err(e) => {
                return Err(e);
            },
        };
        let audio = audio_filename(artist.as_str(), title.as_str(), subtitle.as_str());
        let synced_structs = match SyncedStructList::from_string(hit_objects) {
            Ok(synced_structs) => synced_structs,
            Err(e) => {
                return Err(e);
            },
        };
        let metadata = Metadata::new(version, title, subtitle, artist, credit, bpms);
        Ok(Chart { metadata, audio, synced_structs })
    }

    /// The empty chart, which stands in where no chart is played: no
    /// tempos, no notes, and a silent audio file.
    pub fn empty() -> (r: Chart)
        ensures
            r.metadata@ == blank_metadata(),
            r.audio@ == "silent_quarter-second.wav"@,
            r.synced_structs@ == Seq::<SyncedStructView>::empty(),
    {
        Chart {
            metadata: Metadata::default(),
            audio: String::from_str("silent_quarter-second.wav"),
            synced_structs: SyncedStructList::default(),
        }
    }

    /// Plays this chart at `ratemod` times its speed: every tempo is
    /// multiplied by it. Where a product does not fit, nothing is changed and
    /// the answer is `false`. The audio is for the caller to speed up.
    pub fn set_ratemod(&mut self, ratemod: Ratio) -> (r: bool)
        ensures
            r == scalable(old(self).metadata.bpms@, ratemod@),
            r ==> final(self).metadata.bpms@ == scaled(old(self).metadata.bpms@, ratemod@),
            !r ==> final(self).metadata.bpms == old(self).metadata.bpms,
            final(self).metadata.version == old(self).metadata.version,
            final(self).metadata.title == old(self).metadata.title,
            final(self).metadata.subtitle == old(self).metadata.subtitle,
            final(self).metadata.artist == old(self).metadata.artist,
            final(self).metadata.credit == old(self).metadata.credit,
            final(self).audio == old(self).audio,
            final(self).synced_structs == old(self).synced_structs,
    {
        let n = self.metadata.bpms.0.len();
        let ghost s = self.metadata.bpms@;
        let mut faster: Vec<Bpm> = Vec::new();
        let mut i: usize = 0;
        while i < n
            invariant
                i <= n,
                n == self.metadata.bpms.0.len(),
                s == self.metadata.bpms@,
                *self == *old(self),
                faster@.len() == i,
                forall|j: int| 0 <= j < i ==> #[trigger] scales(s[j], ratemod@),
                forall|j: int|
                    0 <= j < i ==> (#[trigger] faster@[j])@ == (Tempo {
                        value: s[j].value * ratemod@,
                        start_beat: s[j].start_beat,
                    }),
            decreases n - i,
        {
            let bpm = &self.metadata.bpms.0[i];
            assert(s[i as int] == bpm@);
            match bpm.value.checked_mul(&ratemod) {
                Some(value) => {
                    faster.push(Bpm { value, start_beat: bpm.start_beat });
                },
                None => {
                    assert(!scales(s[i as int], ratemod@));
                    return false;
                },
            }
            i += 1;
        }
        self.metadata.bpms = BpmList(faster);
        assert(self.metadata.bpms@ =~= scaled(s, ratemod@));
        true
    }

    /// The line that announces this chart when it is played.
    pub fn play(&self) -> (r: String)
        ensures
            r@ == announcement(
                self.metadata.artist@,
                self.metadata.title@,
                self.metadata.subtitle@,
                self.metadata.credit@,
            ),
    {
        let head = String::from_str("playing chart \"").concat(self.metadata.artist.as_str()).concat(
            " - ",
        ).concat(self.metadata.title.as_str());
        let named = if self.metadata.subtitle.as_str().is_empty() {
            head
        } else {
            head.concat(" (").concat(self.metadata.subtitle.as_str()).concat(")")
        };
        let r = named.concat("\" (mapped by ").concat(self.metadata.credit.as_str()).concat(")...");
        assert(r@ =~= announcement(
            self.metadata.artist@,
            self.metadata.title@,
            self.metadata.subtitle@,
            self.metadata.credit@,
        ));
        r
    }
}

} // verus!
