use khel::chart::{Beat, BpmList};
use khel::ratio::Ratio;
use khel::AutoVelocity;

fn ratio(num: i64, den: i64) -> Ratio {
    Ratio::new(num, den).unwrap()
}

fn number(r: Ratio) -> f64 {
    let (num, den) = r.parts();
    num as f64 / den as f64
}

fn sample() -> BpmList {
    BpmList::from_string("144@0.0,72@32.0,144@48.0".to_string()).unwrap()
}

#[test]
fn autovelocity_over_time() {
    let av = AutoVelocity { value: ratio(300, 1) };
    let bpm_list = sample();
    let two = ratio(2, 1);
    let first = ratio(40, 3).checked_add(&two).unwrap();
    let second = ratio(80, 3).checked_add(&two).unwrap();
    assert_eq!(number(av.over_time(ratio(0, 1), &bpm_list).unwrap()), 0.0);
    assert_eq!(number(av.over_time(two, &bpm_list).unwrap()), 600.0);
    assert_eq!(number(av.over_time(first, &bpm_list).unwrap()), 4000.0 + 300.0);
    assert_eq!(number(av.over_time(second, &bpm_list).unwrap()), 4000.0 + 2000.0 + 600.0);
}

#[test]
fn autovelocity_over_time_is_exact() {
    let av = AutoVelocity { value: ratio(300, 1) };
    let list = sample();
    assert_eq!(av.over_time(ratio(0, 1), &list), Some(ratio(0, 1)));
    assert_eq!(av.over_time(ratio(46, 3), &list), Some(ratio(4300, 1)));
    assert_eq!(av.over_time(ratio(86, 3), &list), Some(ratio(6600, 1)));
    assert_eq!(av.over_time(ratio(40, 3), &list), Some(ratio(4000, 1)));
    assert_eq!(av.over_time(ratio(1, 3), &list), Some(ratio(100, 1)));
}

#[test]
fn autovelocity_over_negative_time() {
    let av = AutoVelocity { value: ratio(300, 1) };
    let list = sample();
    assert_eq!(av.over_time(ratio(-2, 1), &list), Some(ratio(-600, 1)));
}

#[test]
fn autovelocity_over_time_without_tempos_is_zero() {
    let av = AutoVelocity { value: ratio(300, 1) };
    assert_eq!(av.over_time(ratio(5, 1), &BpmList::default()), Some(ratio(0, 1)));
}

#[test]
fn autovelocity_at_exact_time() {
    let av = AutoVelocity { value: ratio(300, 1) };
    let list = sample();
    assert_eq!(av.at_exact_time(ratio(0, 1), &list), Some(ratio(300, 1)));
    assert_eq!(av.at_exact_time(ratio(-1, 1), &list), Some(ratio(300, 1)));
    assert_eq!(av.at_exact_time(ratio(15, 1), &list), Some(ratio(150, 1)));
    assert_eq!(av.at_exact_time(ratio(30, 1), &list), Some(ratio(300, 1)));
    let list = BpmList::from_string("100@0,150@4".to_string()).unwrap();
    assert_eq!(av.at_exact_time(ratio(1, 1), &list), Some(ratio(200, 1)));
}

#[test]
fn autovelocity_at_zero_tempo_is_undefined() {
    let av = AutoVelocity { value: ratio(300, 1) };
    let list = BpmList::from_string("0@0".to_string()).unwrap();
    assert_eq!(av.at_exact_time(ratio(1, 1), &list), None);
    assert_eq!(av.over_time(ratio(1, 1), &list), None);
}

#[test]
fn offset_is_zero_when_the_note_is_due() {
    let av = AutoVelocity { value: ratio(300, 1) };
    let list = sample();
    let beat = Beat(ratio(40, 1));
    let due = beat.to_exact_time(&list).unwrap();
    assert_eq!(av.offset(due, &beat, &list), Some(ratio(0, 1)));
}

#[test]
fn offset_is_what_scrolls_by_until_the_note_is_due() {
    let av = AutoVelocity { value: ratio(300, 1) };
    let list = sample();
    let beat = Beat(ratio(40, 1));
    // the note is due at 20 s, where 4000 + 150 * 20 / 3 = 5000 have scrolled by
    assert_eq!(av.offset(ratio(0, 1), &beat, &list), Some(ratio(-5000, 1)));
    assert_eq!(av.offset(ratio(2, 1), &beat, &list), Some(ratio(-4400, 1)));
    assert_eq!(av.offset(ratio(86, 3), &beat, &list), Some(ratio(1600, 1)));
}
