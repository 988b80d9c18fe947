use khel::chart::file::audio_filename;
use khel::chart::{
    deserialize_kv, Beat, BpmError, BpmListError, Chart, ChartError, ChartInfo, ChartStatus,
    DeserializationError, Error, Metadata, SyncedStructListError, CHART_VERSION,
};
use khel::chart::BpmList;
use khel::ratio::Ratio;
use khel::text::NumberError;

fn ratio(num: i64, den: i64) -> Ratio {
    Ratio::new(num, den).unwrap()
}

fn lines(text: &[&str]) -> Vec<String> {
    text.iter().map(|l| l.to_string()).collect()
}

fn sample() -> Vec<String> {
    lines(&[
        "version=0;",
        "title=Song;",
        "subtitle=;",
        "artist=Someone;",
        "credit=Mapper;",
        "bpms=144@0.0,72@32.0,144@48.0;",
        "hit_objects=a@0,s+d:2=4@1;",
    ])
}

fn without(key: &str) -> Vec<String> {
    sample().into_iter().filter(|l| !l.starts_with(&format!("{}=", key))).collect()
}

fn with(line: &str) -> Vec<String> {
    let mut all = sample();
    all.push(line.to_string());
    all
}

fn refused(all: Vec<String>) -> Error {
    Chart::from_lines(&all).unwrap_err()
}

fn missing(key: &str) -> Error {
    Error::Chart(ChartError::MissingKeyValuePair(key.to_string()))
}

#[test]
fn key_value_pairs() {
    assert_eq!(
        deserialize_kv("title=Song;".to_string()),
        Ok(("title".to_string(), "Song".to_string()))
    );
    assert_eq!(deserialize_kv("subtitle=;".to_string()), Ok(("subtitle".to_string(), "".to_string())));
    assert_eq!(deserialize_kv("=;".to_string()), Ok(("".to_string(), "".to_string())));
    assert_eq!(
        deserialize_kv("hit_objects=a+b:1=4@0;".to_string()),
        Ok(("hit_objects".to_string(), "a+b:1=4@0".to_string()))
    );
    assert_eq!(deserialize_kv("a=b;;".to_string()), Ok(("a".to_string(), "b;".to_string())));
    assert_eq!(deserialize_kv("tïtle=Söng;".to_string()), Ok(("tïtle".to_string(), "Söng".to_string())));
}

#[test]
fn malformed_key_value_pairs() {
    assert_eq!(
        deserialize_kv("title".to_string()),
        Err(DeserializationError::MalformedKeyValuePair)
    );
    assert_eq!(deserialize_kv("".to_string()), Err(DeserializationError::MalformedKeyValuePair));
    assert_eq!(deserialize_kv(";".to_string()), Err(DeserializationError::MalformedKeyValuePair));
    assert_eq!(
        deserialize_kv("title=Song".to_string()),
        Err(DeserializationError::MalformedKeyValuePairWithValidKey("title".to_string()))
    );
    assert_eq!(
        deserialize_kv("title=".to_string()),
        Err(DeserializationError::MalformedKeyValuePairWithValidKey("title".to_string()))
    );
    assert_eq!(
        deserialize_kv("a;=".to_string()),
        Err(DeserializationError::MalformedKeyValuePairWithValidKey("a;".to_string()))
    );
}

#[test]
fn chart_from_lines() {
    let chart = Chart::from_lines(&sample()).unwrap();
    assert_eq!(chart.metadata.version, CHART_VERSION);
    assert_eq!(chart.metadata.title, "Song");
    assert_eq!(chart.metadata.subtitle, "");
    assert_eq!(chart.metadata.artist, "Someone");
    assert_eq!(chart.metadata.credit, "Mapper");
    assert_eq!(chart.metadata.bpms.0.len(), 3);
    assert_eq!(chart.metadata.bpms.0[1].value, ratio(72, 1));
    assert_eq!(chart.audio, "Someone - Song.wav");
    // two lines, two hits, a hold and its three ticks
    assert_eq!(chart.synced_structs.0.len(), 8);
}

#[test]
fn chart_with_one_tempo() {
    let mut all = without("bpms");
    all.push("bpm=150.5;".to_string());
    let chart = Chart::from_lines(&all).unwrap();
    assert_eq!(chart.metadata.bpms.0.len(), 1);
    assert_eq!(chart.metadata.bpms.0[0].value, ratio(301, 2));
    assert_eq!(chart.metadata.bpms.0[0].start_beat, Beat(ratio(0, 1)));
}

#[test]
fn chart_passes_over_empty_lines_and_takes_the_later_pair() {
    let mut all = lines(&["", "title=Earlier;"]);
    all.extend(sample());
    all.push("".to_string());
    all.push("artist=Later;".to_string());
    let chart = Chart::from_lines(&all).unwrap();
    assert_eq!(chart.metadata.title, "Song");
    assert_eq!(chart.metadata.artist, "Later");
    assert_eq!(chart.audio, "Later - Song.wav");
}

#[test]
fn chart_audio_name() {
    assert_eq!(audio_filename("Someone", "Song", ""), "Someone - Song.wav");
    assert_eq!(audio_filename("Someone", "Song", "Live"), "Someone - Song (Live).wav");
    assert_eq!(audio_filename("", "", ""), " - .wav");
    assert_eq!(
        audio_filename("Someone", "Song", "Live"),
        audio_filename("Someone", "Song", "Live")
    );
    let mut all = without("subtitle");
    all.push("subtitle=Live;".to_string());
    let chart = Chart::from_lines(&all).unwrap();
    assert_eq!(chart.audio, "Someone - Song (Live).wav");
    assert_eq!(
        chart.audio,
        audio_filename(&chart.metadata.artist, &chart.metadata.title, &chart.metadata.subtitle)
    );
}

#[test]
fn chart_missing_pairs() {
    for key in ["version", "title", "subtitle", "artist", "credit", "hit_objects"] {
        assert_eq!(refused(without(key)), missing(key));
    }
    assert_eq!(Chart::from_lines(&Vec::new()).unwrap_err(), missing("version"));
    assert_eq!(
        refused(lines(&["version=0;", "artist=Someone;"])),
        missing("title")
    );
}

#[test]
fn chart_tempo_errors() {
    assert_eq!(refused(without("bpms")), Error::Chart(ChartError::MissingBpmInformation));
    assert_eq!(refused(with("bpm=120;")), Error::Chart(ChartError::ConflictingBpmInformation));
    assert_eq!(refused(with("bpms=;")), Error::BpmList(BpmListError::EmptyString));
    assert_eq!(refused(with("bpms=120;")), Error::Bpm(BpmError::MissingStartBeat));
    let mut all = without("bpms");
    all.push("bpm=fast;".to_string());
    assert_eq!(refused(all), Error::Number(NumberError::Malformed));
}

#[test]
fn chart_other_errors() {
    assert_eq!(refused(with("version=256;")), Error::Number(NumberError::OutOfRange));
    assert_eq!(refused(with("version=one;")), Error::Number(NumberError::Malformed));
    assert_eq!(
        refused(with("hit_objects=aa@0;")),
        Error::SyncedStructList(SyncedStructListError::DuplicateHitChar)
    );
    assert_eq!(
        refused(with("no pair")),
        Error::Deserialization(DeserializationError::MalformedKeyValuePair)
    );
    assert_eq!(
        refused(with("credit=Nobody")),
        Error::Deserialization(DeserializationError::MalformedKeyValuePairWithValidKey(
            "credit".to_string()
        ))
    );
}

#[test]
fn chart_first_error_decides() {
    // a line that is no pair is found before a pair is missed
    let mut all = without("version");
    all.push("no pair".to_string());
    assert_eq!(refused(all), Error::Deserialization(DeserializationError::MalformedKeyValuePair));
    // the version is read before the title is missed
    let mut all = without("title");
    all.push("version=x;".to_string());
    assert_eq!(refused(all), Error::Number(NumberError::Malformed));
    // the pairs are missed before the tempos are read
    let mut all = without("hit_objects");
    all.push("bpm=1;".to_string());
    assert_eq!(refused(all), missing("hit_objects"));
    // the tempos are read before the notes
    let mut all = with("hit_objects=aa@0;");
    all.push("bpm=1;".to_string());
    assert_eq!(refused(all), Error::Chart(ChartError::ConflictingBpmInformation));
}

#[test]
fn empty_chart() {
    let chart = Chart::empty();
    assert_eq!(chart.metadata.version, 0);
    assert_eq!(chart.metadata.title, "");
    assert!(chart.metadata.bpms.0.is_empty());
    assert!(chart.synced_structs.0.is_empty());
    assert_eq!(chart.audio, "silent_quarter-second.wav");
    let metadata = Metadata::default();
    assert_eq!(metadata.version, 0);
    assert_eq!(metadata.artist, "");
    assert!(metadata.bpms.0.is_empty());
}

#[test]
fn metadata_new() {
    let metadata = Metadata::new(
        3,
        "t".to_string(),
        "s".to_string(),
        "a".to_string(),
        "c".to_string(),
        BpmList::from_f64(ratio(90, 1)),
    );
    assert_eq!(metadata.version, 3);
    assert_eq!(metadata.title, "t");
    assert_eq!(metadata.subtitle, "s");
    assert_eq!(metadata.artist, "a");
    assert_eq!(metadata.credit, "c");
    assert_eq!(metadata.bpms.0[0].value, ratio(90, 1));
}

#[test]
fn chart_announcement() {
    let chart = Chart::from_lines(&sample()).unwrap();
    assert_eq!(chart.play(), "playing chart \"Someone - Song\" (mapped by Mapper)...");
    let chart = Chart::from_lines(&with("subtitle=Live;")).unwrap();
    assert_eq!(chart.play(), "playing chart \"Someone - Song (Live)\" (mapped by Mapper)...");
}

#[test]
fn ratemod_scales_every_tempo() {
    let mut chart = Chart::from_lines(&sample()).unwrap();
    assert!(chart.set_ratemod(ratio(3, 2)));
    let values: Vec<Ratio> = chart.metadata.bpms.0.iter().map(|b| b.value).collect();
    assert_eq!(values, vec![ratio(216, 1), ratio(108, 1), ratio(216, 1)]);
    let starts: Vec<Beat> = chart.metadata.bpms.0.iter().map(|b| b.start_beat).collect();
    assert_eq!(starts, vec![Beat(ratio(0, 1)), Beat(ratio(32, 1)), Beat(ratio(48, 1))]);
    assert_eq!(chart.audio, "Someone - Song.wav");
    assert_eq!(chart.synced_structs.0.len(), 8);
}

#[test]
fn ratemod_divides_the_time_of_a_beat() {
    let mut chart = Chart::from_lines(&sample()).unwrap();
    let beat = Beat(ratio(40, 1));
    assert_eq!(beat.to_exact_time(&chart.metadata.bpms), Some(ratio(20, 1)));
    assert!(chart.set_ratemod(ratio(5, 4)));
    assert_eq!(beat.to_exact_time(&chart.metadata.bpms), Some(ratio(16, 1)));
}

#[test]
fn ratemod_that_does_not_fit_changes_nothing() {
    let mut chart = Chart::from_lines(&sample()).unwrap();
    assert!(!chart.set_ratemod(ratio(i64::MAX, 1)));
    let values: Vec<Ratio> = chart.metadata.bpms.0.iter().map(|b| b.value).collect();
    assert_eq!(values, vec![ratio(144, 1), ratio(72, 1), ratio(144, 1)]);
}

#[test]
fn chart_info_starts_idle() {
    let info = ChartInfo::new(Chart::from_lines(&sample()).unwrap());
    assert_eq!(info.status, ChartStatus::Idle);
    assert_eq!(info.start_time, ratio(0, 1));
    assert_eq!(info.chart.metadata.title, "Song");
    let info = ChartInfo::none();
    assert_eq!(info.status, ChartStatus::Idle);
    assert_eq!(info.start_time, ratio(0, 1));
    assert!(info.chart.metadata.bpms.0.is_empty());
    assert_eq!(info.audio_due(ratio(100, 1)), Some(false));
}

#[test]
fn chart_info_start() {
    let mut info = ChartInfo::new(Chart::from_lines(&sample()).unwrap());
    assert!(info.start(ratio(10, 1), ratio(1, 2)));
    assert_eq!(info.status, ChartStatus::Playing);
    assert_eq!(info.start_time, ratio(10, 1));
    assert_eq!(info.chart.metadata.bpms.0[0].value, ratio(72, 1));
    assert_eq!(info.chart.metadata.bpms.0[1].value, ratio(36, 1));
}

#[test]
fn chart_info_does_not_start_without_tempos() {
    let mut info = ChartInfo::none();
    assert!(!info.start(ratio(10, 1), ratio(1, 1)));
    assert_eq!(info.status, ChartStatus::Idle);
    assert_eq!(info.start_time, ratio(0, 1));
    let mut info = ChartInfo::new(Chart::from_lines(&sample()).unwrap());
    assert!(!info.start(ratio(10, 1), ratio(i64::MAX, 1)));
    assert_eq!(info.status, ChartStatus::Idle);
    assert_eq!(info.start_time, ratio(0, 1));
    assert_eq!(info.chart.metadata.bpms.0[0].value, ratio(144, 1));
}

#[test]
fn chart_time_and_audio() {
    let mut info = ChartInfo::new(Chart::from_lines(&sample()).unwrap());
    assert!(info.start(ratio(10, 1), ratio(1, 1)));
    // eight beats at 144 beats a minute are 10/3 seconds
    assert_eq!(info.chart_time(ratio(10, 1)), Some(ratio(-10, 3)));
    assert_eq!(info.chart_time(ratio(40, 3)), Some(ratio(0, 1)));
    assert_eq!(info.chart_time(ratio(15, 1)), Some(ratio(5, 3)));
    assert_eq!(info.audio_due(ratio(10, 1)), Some(false));
    assert_eq!(info.audio_due(ratio(40, 3)), Some(false));
    assert_eq!(info.audio_due(ratio(15, 1)), Some(true));
    assert_eq!(info.chart_time(ratio(-i64::MAX, 1)), None);
    assert_eq!(info.audio_due(ratio(-i64::MAX, 1)), None);
}

#[test]
fn chart_time_at_zero_tempo_is_undefined() {
    let mut all = without("bpms");
    all.push("bpm=0;".to_string());
    let mut info = ChartInfo::new(Chart::from_lines(&all).unwrap());
    assert!(info.start(ratio(0, 1), ratio(1, 1)));
    assert_eq!(info.chart_time(ratio(1, 1)), None);
    assert_eq!(info.audio_due(ratio(1, 1)), None);
}
