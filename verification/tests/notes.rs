use khel::chart::{
    Beat, Error, HitObject, HitObjectType, SyncedStruct, SyncedStructList,
    SyncedStructListError, TimingLine,
};
use khel::ratio::Ratio;
use khel::text::NumberError;

fn ratio(num: i64, den: i64) -> Ratio {
    Ratio::new(num, den).unwrap()
}

fn read(s: &str) -> Result<Vec<String>, Error> {
    SyncedStructList::from_string(s.to_string()).map(|list| list.0.iter().map(show).collect())
}

fn show(item: &SyncedStruct) -> String {
    match item {
        SyncedStruct::TimingLine(line) => format!("line@{}", beat(line.beat)),
        SyncedStruct::HitObject(h) => {
            let kind = match h.t {
                HitObjectType::Hit => "hit",
                HitObjectType::Hold => "hold",
                HitObjectType::HoldTick => "tick",
            };
            format!("{} {}@{}", kind, h.keys.iter().collect::<String>(), beat(h.beat))
        }
    }
}

fn beat(b: Beat) -> String {
    let (num, den) = b.0.parts();
    if den == 1 {
        format!("{}", num)
    } else {
        format!("{}/{}", num, den)
    }
}

fn refused(s: &str) -> Error {
    SyncedStructList::from_string(s.to_string()).unwrap_err()
}

fn hit(keys: &str) -> HitObject {
    HitObject::at_beat(Beat(ratio(0, 1)), HitObjectType::Hit, keys.chars().collect())
}

#[test]
fn single_hit() {
    assert_eq!(read("a@0"), Ok(vec!["line@0".to_string(), "hit a@0".to_string()]));
}

#[test]
fn single_hit_of_several_keys() {
    assert_eq!(read("qaz@0"), Ok(vec!["line@0".to_string(), "hit qaz@0".to_string()]));
}

#[test]
fn several_hits_on_one_beat() {
    assert_eq!(
        read("a-b-c@0").unwrap(),
        vec!["line@0", "hit a@0", "hit b@0", "hit c@0"]
    );
}

#[test]
fn hit_and_hold_on_one_beat() {
    assert_eq!(
        read("a+b:1=4@0").unwrap(),
        vec!["line@0", "hit a@0", "hold b@0", "tick b@1/4", "tick b@1/2", "tick b@3/4"]
    );
}

#[test]
fn hits_on_several_beats() {
    assert_eq!(
        read("a@0,b@4,c@8").unwrap(),
        vec!["line@0", "hit a@0", "line@4", "hit b@4", "line@8", "hit c@8"]
    );
}

#[test]
fn full_group() {
    assert_eq!(
        read("a-s+d-f:4=8@0,g-h+j-k:4=2@4.5").unwrap(),
        vec![
            "line@0", "hit a@0", "hit s@0", "hold d@0", "hold f@0",
            "tick d@1/2", "tick d@1", "tick d@3/2", "tick d@2", "tick d@5/2", "tick d@3",
            "tick d@7/2",
            "tick f@1/2", "tick f@1", "tick f@3/2", "tick f@2", "tick f@5/2", "tick f@3",
            "tick f@7/2",
            "line@9/2", "hit g@9/2", "hit h@9/2", "hold j@9/2", "hold k@9/2",
            "tick j@13/2", "tick k@13/2",
        ]
    );
}

#[test]
fn groups_are_not_sorted_by_beat() {
    assert_eq!(read("a@8,b@0").unwrap(), vec!["line@8", "hit a@8", "line@0", "hit b@0"]);
}

#[test]
fn group_without_notes_has_its_timing_line() {
    assert_eq!(read("@4").unwrap(), vec!["line@4"]);
    assert_eq!(read("-@4").unwrap(), vec!["line@4"]);
    assert_eq!(read("+:1=4@4").unwrap(), vec!["line@4"]);
    assert_eq!(read("a--b@4").unwrap(), vec!["line@4", "hit a@4", "hit b@4"]);
}

#[test]
fn ticks_are_one_less_than_the_parts() {
    for parts in 1..=12u32 {
        let items = read(&format!("+d:3={}@1", parts)).unwrap();
        let ticks = items.iter().filter(|i| i.starts_with("tick")).count();
        assert_eq!(ticks as u32, parts - 1);
        assert_eq!(items.len() as u32, 2 + parts - 1);
    }
}

#[test]
fn ticks_lie_inside_the_hold() {
    assert_eq!(
        read("+d:1=3@2").unwrap(),
        vec!["line@2", "hold d@2", "tick d@7/3", "tick d@8/3"]
    );
    assert_eq!(
        read("+d:-1=2@0").unwrap(),
        vec!["line@0", "hold d@0", "tick d@-1/2"]
    );
}

#[test]
fn one_hold_has_one_tick_less_than_parts() {
    // a hold of three beats in four parts: ticks after 3/4, 6/4 and 9/4 of a beat
    assert_eq!(
        read("+dc:3=4@2").unwrap(),
        vec!["line@2", "hold dc@2", "tick dc@11/4", "tick dc@7/2", "tick dc@17/4"]
    );
    assert_eq!(
        read("+d:1.2e1=3@1e0").unwrap(),
        vec!["line@1", "hold d@1", "tick d@5", "tick d@9"]
    );
}

#[test]
fn hold_without_parts_has_no_ticks() {
    assert_eq!(read("+d:4=0@0").unwrap(), vec!["line@0", "hold d@0"]);
    assert_eq!(read("+d:4=1@0").unwrap(), vec!["line@0", "hold d@0"]);
}

#[test]
fn ticks_that_do_not_fit() {
    assert_eq!(
        refused("+d:9223372036854775807=2@9223372036854775807"),
        Error::Number(NumberError::OutOfRange)
    );
    assert_eq!(
        refused("+d:0.000000000000000001=10@0"),
        Error::Number(NumberError::OutOfRange)
    );
}

#[test]
fn keys_off_the_keyboard_are_in_no_column() {
    let hit = Error::SyncedStructList(SyncedStructListError::MultiColumnHit);
    let hold = Error::SyncedStructList(SyncedStructListError::MultiColumnHold);
    assert_eq!(refused("1@0"), hit);
    assert_eq!(refused("12@0"), hit);
    assert_eq!(refused("a1@0"), hit);
    assert_eq!(refused("Q@0"), hit);
    assert_eq!(refused("a- @0"), hit);
    assert_eq!(refused("+1:1=4@0"), hold);
    assert_eq!(refused("a+12:1=4@0"), hold);
    // a key twice is found first
    assert_eq!(
        refused("11@0"),
        Error::SyncedStructList(SyncedStructListError::DuplicateHitChar)
    );
}

#[test]
fn errors_of_the_notation() {
    let cases = [
        ("a@0@1", SyncedStructListError::MultipleAtSigns),
        ("a", SyncedStructListError::MissingBeatValue),
        ("", SyncedStructListError::MissingBeatValue),
        ("a@0,", SyncedStructListError::MissingBeatValue),
        ("a+b+c:1=4@0", SyncedStructListError::MultiplePlusSigns),
        ("aa@0", SyncedStructListError::DuplicateHitChar),
        ("qaq@0", SyncedStructListError::DuplicateHitChar),
        ("as@0", SyncedStructListError::MultiColumnHit),
        ("qaw@0", SyncedStructListError::MultiColumnHit),
        ("a+b:1=4:5@0", SyncedStructListError::MultipleColons),
        ("a+b@0", SyncedStructListError::MissingHoldInformation),
        ("a+@0", SyncedStructListError::MissingHoldInformation),
        ("a+b:1=4=5@0", SyncedStructListError::MultipleEqualsSigns),
        ("a+b:1@0", SyncedStructListError::MissingHoldTickCount),
        ("a+bb:1=4@0", SyncedStructListError::DuplicateHoldChar),
        ("a+bn:1=4@0", SyncedStructListError::DuplicateHoldChar),
        ("a+bv:1=4@0", SyncedStructListError::MultiColumnHold),
    ];
    for (text, error) in cases {
        if text == "a+bn:1=4@0" {
            // b and n are different keys of two columns
            assert_eq!(
                refused(text),
                Error::SyncedStructList(SyncedStructListError::MultiColumnHold)
            );
        } else {
            assert_eq!(refused(text), Error::SyncedStructList(error), "{:?}", text);
        }
    }
}

#[test]
fn number_errors_of_the_notation() {
    assert_eq!(refused("a@x"), Error::Number(NumberError::Malformed));
    assert_eq!(refused("a@"), Error::Number(NumberError::Malformed));
    assert_eq!(refused("a+b:x=4@0"), Error::Number(NumberError::Malformed));
    assert_eq!(refused("a+b:=4@0"), Error::Number(NumberError::Malformed));
    assert_eq!(refused("a+b:1=x@0"), Error::Number(NumberError::Malformed));
    assert_eq!(refused("a+b:1=-4@0"), Error::Number(NumberError::Malformed));
    assert_eq!(refused("a+b:1=4.0@0"), Error::Number(NumberError::Malformed));
    assert_eq!(refused("a+b:1=4294967296@0"), Error::Number(NumberError::OutOfRange));
}

#[test]
fn the_first_error_decides() {
    // the beat is read before the hits are looked at
    assert_eq!(refused("aa@x"), Error::Number(NumberError::Malformed));
    // the hits are looked at before the holds
    assert_eq!(
        refused("aa+b@0"),
        Error::SyncedStructList(SyncedStructListError::DuplicateHitChar)
    );
    // a key twice is found before keys of two columns
    assert_eq!(
        refused("asa@0"),
        Error::SyncedStructList(SyncedStructListError::DuplicateHitChar)
    );
    // the length is read before the tick count is looked for
    assert_eq!(refused("+b:x@0"), Error::Number(NumberError::Malformed));
    // the hold information is read before the holds are looked at
    assert_eq!(
        refused("+bb:1@0"),
        Error::SyncedStructList(SyncedStructListError::MissingHoldTickCount)
    );
    // the first group that is wrong decides
    assert_eq!(
        refused("a@0,b,cc@1"),
        Error::SyncedStructList(SyncedStructListError::MissingBeatValue)
    );
    // too many at signs are found before the beat is missed
    assert_eq!(
        refused("a@1@"),
        Error::SyncedStructList(SyncedStructListError::MultipleAtSigns)
    );
}

#[test]
fn every_hit_object_read_is_a_chord() {
    let list = SyncedStructList::from_string("qaz-s+d-fv:2=4@0,p;/@1.5".to_string()).unwrap();
    for item in list.0.iter() {
        if let SyncedStruct::HitObject(h) = item {
            assert!(!h.keys.is_empty());
            let mut keys = h.keys.clone();
            keys.sort();
            keys.dedup();
            assert_eq!(keys.len(), h.keys.len());
            let lane = h.lane();
            assert!(h.keys.iter().all(|k| khel::traits::KeyboardPosition::column(k) == Some(lane)));
        }
    }
}

#[test]
fn chords_of_the_keyboard() {
    for keys in ["q", "qa", "qaz", "p;/", ",k"] {
        assert!(hit(keys).is_on_keyboard(), "{:?}", keys);
    }
    for keys in ["", "qq", "qw", "1", "q1", "12", "qaza"] {
        assert!(!hit(keys).is_on_keyboard(), "{:?}", keys);
    }
}

#[test]
fn lanes() {
    assert_eq!(hit("q").lane(), 0);
    assert_eq!(hit("sx").lane(), 1);
    assert_eq!(hit("/").lane(), 9);
    assert_eq!(hit("q").lane_x(), ratio(-9, 20));
    assert_eq!(hit("g").lane_x(), ratio(-1, 20));
    assert_eq!(hit("/").lane_x(), ratio(9, 20));
}

#[test]
fn colors() {
    let cases = [
        ("q", 1, "red"),
        ("a", 2, "green"),
        ("qa", 3, "yellow"),
        ("z", 4, "blue"),
        ("zq", 5, "magenta"),
        ("az", 6, "cyan"),
        ("qaz", 7, "white"),
        ("p;/", 7, "white"),
        (";", 2, "green"),
    ];
    for (keys, rows, color) in cases {
        assert_eq!(hit(keys).rows(), rows, "{:?}", keys);
        assert_eq!(hit(keys).color(), color, "{:?}", keys);
    }
}

#[test]
fn hit_object_assets() {
    let at = Beat(ratio(0, 1));
    let keys = || vec!['q', 'a'];
    assert_eq!(HitObject::at_beat(at, HitObjectType::Hit, keys()).asset(), "circle_yellow");
    assert_eq!(HitObject::at_beat(at, HitObjectType::Hold, keys()).asset(), "circle_yellow");
    assert_eq!(HitObject::at_beat(at, HitObjectType::HoldTick, keys()).asset(), "hold_tick_yellow");
    assert_eq!(hit("z").asset(), "circle_blue");
}

#[test]
fn timing_line_assets() {
    let cases = [
        ((0, 1), "line_red"),
        ((7, 1), "line_red"),
        ((-3, 1), "line_red"),
        ((1, 2), "line_blue"),
        ((9, 2), "line_blue"),
        ((1, 4), "line_yellow"),
        ((7, 4), "line_yellow"),
        ((1, 8), "line_green"),
        ((3, 8), "line_green"),
        ((5, 8), "line_green"),
        ((15, 8), "line_green"),
        ((33333, 100000), "line_magenta"),
        ((166666, 100000), "line_magenta"),
        ((16666, 100000), "line_cyan"),
        ((83333, 100000), "line_cyan"),
        ((1, 3), "line_white"),
        ((2, 3), "line_white"),
        ((1, 6), "line_white"),
        ((1, 16), "line_white"),
        ((-1, 2), "line_white"),
        ((-1, 4), "line_white"),
        ((33334, 100000), "line_white"),
    ];
    for ((num, den), asset) in cases {
        let line = TimingLine::at_beat(Beat(ratio(num, den)));
        assert_eq!(line.asset(), asset, "{}/{}", num, den);
    }
}

#[test]
fn timing_line_tolerance() {
    // the tolerance is 1/2147483648 on either side, and not more
    let inside = Ratio::new(33333 * 2147483648 + 99999, 100000 * 2147483648).unwrap();
    let edge = Ratio::new(33333 * 2147483648 + 100000, 100000 * 2147483648).unwrap();
    let below = Ratio::new(33333 * 2147483648 - 99999, 100000 * 2147483648).unwrap();
    let low_edge = Ratio::new(33333 * 2147483648 - 100000, 100000 * 2147483648).unwrap();
    assert_eq!(TimingLine::at_beat(Beat(inside)).asset(), "line_magenta");
    assert_eq!(TimingLine::at_beat(Beat(below)).asset(), "line_magenta");
    assert_eq!(TimingLine::at_beat(Beat(edge)).asset(), "line_white");
    assert_eq!(TimingLine::at_beat(Beat(low_edge)).asset(), "line_white");
}

#[test]
fn default_list_is_empty() {
    assert!(SyncedStructList::default().0.is_empty());
}
