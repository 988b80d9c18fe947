use khel::chart::{Beat, Bpm, BpmError, BpmList, BpmListError, Error, Length};
use khel::ratio::Ratio;
use khel::text::NumberError;

fn ratio(num: i64, den: i64) -> Ratio {
    Ratio::new(num, den).unwrap()
}

fn number(r: Ratio) -> f64 {
    let (num, den) = r.parts();
    num as f64 / den as f64
}

fn seconds(length: Option<Length>) -> f64 {
    match length.unwrap() {
        Length::Seconds(r) => number(r),
        Length::Unbounded => f64::MAX,
    }
}

fn sample() -> BpmList {
    BpmList::from_string("144@0.0,72@32.0,144@48.0".to_string()).unwrap()
}

#[test]
fn bpm_length() {
    let bpm1 = Bpm::from_string("144@0.0".to_string()).unwrap();
    let bpm2 = Bpm::from_string("72@32.0".to_string()).unwrap();
    let bpm3 = Bpm::from_string("144@48.0".to_string()).unwrap();
    let bpm1_length = seconds(bpm1.length(Some(&bpm2)));
    let bpm2_length = seconds(bpm2.length(Some(&bpm3)));
    let bpm3_length = seconds(bpm3.length(None));
    let one_bar_144bpm = 5.0 / 3.0;
    let one_beat_144bpm = one_bar_144bpm / 4.0;
    let one_beat_72bpm = one_beat_144bpm * 2.0;
    assert_eq!(bpm1_length, one_beat_144bpm * 32.0);
    assert_eq!(bpm2_length, one_beat_72bpm * 16.0);
    assert_eq!(bpm3_length, f64::MAX);
}

#[test]
fn bpmlist_at_exact_time() {
    let bpm_list = sample();
    assert_eq!(bpm_list.at_exact_time(ratio(-10, 3)).unwrap(), &bpm_list.0[0]);
    assert_eq!(bpm_list.at_exact_time(ratio(0, 1)).unwrap(), &bpm_list.0[0]);
    assert_eq!(bpm_list.at_exact_time(ratio(5, 1)).unwrap(), &bpm_list.0[0]);
    assert_eq!(bpm_list.at_exact_time(ratio(40, 3)).unwrap(), &bpm_list.0[1]);
    assert_eq!(bpm_list.at_exact_time(ratio(15, 1)).unwrap(), &bpm_list.0[1]);
    assert_eq!(bpm_list.at_exact_time(ratio(80, 3)).unwrap(), &bpm_list.0[2]);
    assert_eq!(bpm_list.at_exact_time(ratio(30, 1)).unwrap(), &bpm_list.0[2]);
}

#[test]
fn bpm_length_is_exact() {
    let list = sample();
    assert_eq!(list.0[0].length(Some(&list.0[1])), Some(Length::Seconds(ratio(40, 3))));
    assert_eq!(list.0[1].length(Some(&list.0[2])), Some(Length::Seconds(ratio(40, 3))));
    assert_eq!(list.0[2].length(None), Some(Length::Unbounded));
}

#[test]
fn bpm_length_of_zero_tempo_is_undefined() {
    let still = Bpm::from_string("0@0".to_string()).unwrap();
    let next = Bpm::from_string("120@4".to_string()).unwrap();
    assert_eq!(still.length(Some(&next)), None);
    assert_eq!(still.length(None), Some(Length::Unbounded));
}

#[test]
fn bpm_from_string_reads_value_and_start() {
    let bpm = Bpm::from_string("120@0".to_string()).unwrap();
    assert_eq!(bpm.value, ratio(120, 1));
    assert_eq!(bpm.start_beat, Beat(ratio(0, 1)));
    let bpm = Bpm::from_string("87.5@16.25".to_string()).unwrap();
    assert_eq!(bpm.value, ratio(175, 2));
    assert_eq!(bpm.start_beat, Beat(ratio(65, 4)));
}

#[test]
fn bpm_from_string_errors() {
    assert_eq!(
        Bpm::from_string("120@0@1".to_string()),
        Err(Error::Bpm(BpmError::TooManyParts))
    );
    assert_eq!(
        Bpm::from_string("120".to_string()),
        Err(Error::Bpm(BpmError::MissingStartBeat))
    );
    assert_eq!(
        Bpm::from_string("fast@0".to_string()),
        Err(Error::Number(NumberError::Malformed))
    );
    assert_eq!(
        Bpm::from_string("120@soon".to_string()),
        Err(Error::Number(NumberError::Malformed))
    );
    // the value is read before the start beat is looked for
    assert_eq!(
        Bpm::from_string("fast".to_string()),
        Err(Error::Number(NumberError::Malformed))
    );
    assert_eq!(
        Bpm::from_string("".to_string()),
        Err(Error::Number(NumberError::Malformed))
    );
}

#[test]
fn bpm_from_string_with_exponent() {
    let bpm = Bpm::from_string("1.2e2@1.6e1".to_string()).unwrap();
    assert_eq!(bpm.value, ratio(120, 1));
    assert_eq!(bpm.start_beat, Beat(ratio(16, 1)));
}

#[test]
fn bpm_list_from_string() {
    let list = BpmList::from_string("120@0".to_string()).unwrap();
    assert_eq!(list.0.len(), 1);
    let list = BpmList::from_string("120@0,140@16".to_string()).unwrap();
    assert_eq!(list.0.len(), 2);
    assert_eq!(list.0[1].value, ratio(140, 1));
    assert_eq!(list.0[1].start_beat, Beat(ratio(16, 1)));
}

#[test]
fn bpm_list_from_string_errors() {
    assert_eq!(
        BpmList::from_string("".to_string()).err(),
        Some(Error::BpmList(BpmListError::EmptyString))
    );
    assert_eq!(
        BpmList::from_string("120@0,".to_string()).err(),
        Some(Error::Number(NumberError::Malformed))
    );
    assert_eq!(
        BpmList::from_string("120@0,140".to_string()).err(),
        Some(Error::Bpm(BpmError::MissingStartBeat))
    );
    // the first tempo that is wrong decides
    assert_eq!(
        BpmList::from_string("120,140@1@2".to_string()).err(),
        Some(Error::Bpm(BpmError::MissingStartBeat))
    );
}

#[test]
fn bpm_list_does_not_sort() {
    let list = BpmList::from_string("120@8,60@0".to_string()).unwrap();
    assert_eq!(list.0[0].start_beat, Beat(ratio(8, 1)));
    assert_eq!(list.0[1].start_beat, Beat(ratio(0, 1)));
}

#[test]
fn bpm_list_from_one_tempo() {
    let list = BpmList::from_f64(ratio(150, 1));
    assert_eq!(list.0.len(), 1);
    assert_eq!(list.0[0].value, ratio(150, 1));
    assert_eq!(list.0[0].start_beat, Beat(ratio(0, 1)));
}

#[test]
fn beat_to_exact_time() {
    let list = sample();
    let at = |num: i64, den: i64| Beat(ratio(num, den)).to_exact_time(&list).unwrap();
    assert_eq!(at(0, 1), ratio(0, 1));
    assert_eq!(at(1, 1), ratio(5, 12));
    assert_eq!(at(16, 1), ratio(20, 3));
    assert_eq!(at(32, 1), ratio(40, 3));
    assert_eq!(at(40, 1), ratio(20, 1));
    assert_eq!(at(48, 1), ratio(80, 3));
    assert_eq!(at(50, 1), ratio(55, 2));
    assert_eq!(at(-4, 1), ratio(-5, 3));
    assert_eq!(at(65, 2), ratio(165, 12));
}

#[test]
fn beat_to_exact_time_without_tempos_is_zero() {
    let list = BpmList::default();
    assert_eq!(Beat(ratio(7, 1)).to_exact_time(&list), Some(ratio(0, 1)));
}

#[test]
fn beat_to_exact_time_at_zero_tempo_is_undefined() {
    let list = BpmList::from_string("0@0".to_string()).unwrap();
    assert_eq!(Beat(ratio(1, 1)).to_exact_time(&list), None);
}

#[test]
fn beat_to_exact_time_counts_from_the_first_start() {
    let list = BpmList::from_string("60@4,120@8".to_string()).unwrap();
    // four beats at one second each, then one beat at half a second
    assert_eq!(Beat(ratio(5, 1)).to_exact_time(&list), Some(ratio(9, 2)));
}

#[test]
fn at_exact_time_of_single_segment() {
    let list = BpmList::from_string("120@0".to_string()).unwrap();
    assert_eq!(list.at_exact_time(ratio(-100, 1)).unwrap(), &list.0[0]);
    assert_eq!(list.at_exact_time(ratio(0, 1)).unwrap(), &list.0[0]);
    assert_eq!(list.at_exact_time(ratio(1_000_000, 1)).unwrap(), &list.0[0]);
    let still = BpmList::from_string("0@0".to_string()).unwrap();
    assert_eq!(still.at_exact_time(ratio(5, 1)).unwrap(), &still.0[0]);
}

#[test]
fn at_exact_time_undoes_to_exact_time() {
    let list = sample();
    let beats = [(0, 1), (31, 1), (32, 1), (95, 2), (48, 1), (1000, 7)];
    let expected = [0, 0, 1, 1, 2, 2];
    for (beat, segment) in beats.iter().zip(expected.iter()) {
        let time = Beat(ratio(beat.0, beat.1)).to_exact_time(&list).unwrap();
        let found = list.at_exact_time(time).unwrap();
        assert_eq!(found, &list.0[*segment]);
        assert!(number(found.start_beat.0) <= number(ratio(beat.0, beat.1)));
    }
}

#[test]
fn at_exact_time_that_overflows_is_undefined() {
    let list = BpmList::from_string(
        "0.000000000000000001@0,120@9000000000000000000".to_string(),
    )
    .unwrap();
    assert_eq!(list.at_exact_time(ratio(1, 1)), None);
}

#[test]
fn max_is_the_greatest_tempo() {
    let list = sample();
    assert_eq!(list.max().value, ratio(144, 1));
    let list = BpmList::from_string("90@0,180.5@4,100@8".to_string()).unwrap();
    assert_eq!(list.max(), &list.0[1]);
}

#[test]
fn max_of_equal_tempos_is_the_last() {
    let list = sample();
    assert_eq!(list.max(), &list.0[2]);
    let list = BpmList::from_string("200@0,100@4,200@8,150@12".to_string()).unwrap();
    assert_eq!(list.max(), &list.0[2]);
}

#[test]
fn beat_default_and_sum() {
    assert_eq!(Beat::default(), Beat(ratio(0, 1)));
    assert_eq!(Beat::from_f64(ratio(3, 2)), Beat(ratio(3, 2)));
    assert_eq!(Beat(ratio(3, 2)).checked_add(&ratio(1, 3)), Some(Beat(ratio(11, 6))));
    assert_eq!(Beat(ratio(i64::MAX, 1)).checked_add(&ratio(1, 1)), None);
}
