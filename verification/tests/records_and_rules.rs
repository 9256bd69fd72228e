use smdbc::marks::{Algorithm, AlgorithmSet};
use smdbc::order::{find_data, parse_string, ParsedValue};
use smdbc::prefs::{checktags, Enabled, OrderOperator, Preferences, PreservationLogic};
use smdbc::records::FileRecord;

fn record(id: usize, path: &str, keep: bool) -> FileRecord {
    let mut algorithm = AlgorithmSet::new();
    if keep {
        algorithm.insert(Algorithm::Keep);
    }
    FileRecord {
        id,
        path: path.to_string(),
        root: String::new(),
        duration: "0:01.000".to_string(),
        samplerate: 48000,
        bitdepth: 24,
        channels: 2,
        description: String::new(),
        data: Vec::new(),
        fingerprint: None,
        dual_mono: None,
        algorithm,
    }
}

fn with_column(mut r: FileRecord, column: &str, value: &str) -> FileRecord {
    r.data.push((column.to_string(), value.to_string()));
    r
}

fn ids(v: &[FileRecord]) -> Vec<usize> {
    v.iter().map(|r| r.id).collect()
}

#[test]
fn mark_sets() {
    let mut s = AlgorithmSet::new();
    assert!(!s.contains(Algorithm::Keep));
    s.insert(Algorithm::Keep);
    s.insert(Algorithm::Basic);
    s.insert(Algorithm::Waveforms);
    assert!(s.contains(Algorithm::Keep));
    assert_eq!(
        s.to_display_list(),
        vec![Algorithm::Waveforms, Algorithm::Keep, Algorithm::Basic]
    );
    s.remove(Algorithm::Keep);
    assert!(!s.contains(Algorithm::Keep));
    s.clear();
    assert!(s.to_display_list().is_empty());
    assert_eq!(AlgorithmSet::only(Algorithm::Tags).to_display_list(), vec![Algorithm::Tags]);
    assert_eq!(Algorithm::default(), Algorithm::Keep);
    assert_eq!(OrderOperator::default(), OrderOperator::Contains);
}

#[test]
fn path_parts_of_a_record() {
    let r = record(1, "/lib/sfx/Door Slam.wav", true);
    assert_eq!(r.get_filename(), "Door Slam.wav");
    assert_eq!(r.get_filestem(), "Door Slam");
    assert_eq!(r.get_extension(), "wav");
    assert_eq!(r.get_path(), "/lib/sfx");
    assert_eq!(r.get_filepath(), "/lib/sfx/Door Slam.wav");
    let bare = record(2, "/", true);
    assert_eq!(bare.get_filename(), "Invalid Filename");
    assert_eq!(bare.get_filestem(), "Invalid Filestem");
    assert_eq!(bare.get_extension(), "Invalid Extension");
    assert_eq!(bare.get_path(), "Invalid Path");
}

#[test]
fn roots_strip_numbered_endings() {
    assert_eq!(record(1, "/lib/Whoosh.01.M.wav", true).get_root(), "Whoosh");
    assert_eq!(record(1, "/lib/Whoosh.wav", true).get_root(), "Whoosh");
    assert_eq!(record(1, "/lib/Hit.2.3.wav", true).get_root(), "Hit");
}

#[test]
fn roots_set_from_tags_and_copies() {
    let mut pref = Preferences::default();
    let mut r = record(1, "/lib/Door Slam copy.1.wav", true);
    r.set_root(&pref);
    assert_eq!(r.root, "Door Slam.wav");
    pref.tags = vec!["-AVerb".to_string()];
    let mut r = record(2, "/lib/ Door Slam-AVerb_01.wav", true);
    r.set_root(&pref);
    assert_eq!(r.root, "Door Slam.wav");
    pref.ignore_filetype = true;
    let mut r = record(3, "/lib/Whoosh.01.M.aif", true);
    r.set_root(&pref);
    assert_eq!(r.root, "Whoosh");
}

#[test]
fn tags_in_names() {
    let tags = vec!["-PiSh".to_string(), "-DVerb".to_string()];
    assert!(checktags("Boom-DVerb.wav", &tags));
    assert!(!checktags("Boom.wav", &tags));
    let mut pref = Preferences::default();
    pref.tags = tags;
    assert!(pref.check_tags("Boom-PiSh"));
    assert!(!pref.check_tags("Boom"));
}

#[test]
fn data_requirements_listed_once() {
    let mut pref = Preferences::default();
    pref.match_criteria = vec!["Filename".to_string(), "Duration".to_string()];
    pref.preservation_order = vec![
        PreservationLogic {
            column: "Duration".to_string(),
            operator: OrderOperator::Largest,
            variable: String::new(),
        },
        PreservationLogic {
            column: "Library".to_string(),
            operator: OrderOperator::Is,
            variable: "Main".to_string(),
        },
    ];
    assert_eq!(pref.get_data_requirements(), "Filename,Duration,Library");
    assert_eq!(Preferences::default().get_data_requirements(), "");
}

#[test]
fn column_values_parsed() {
    assert_eq!(parse_string("42"), Ok(ParsedValue::Integer(42)));
    assert_eq!(parse_string("-7"), Ok(ParsedValue::Integer(-7)));
    assert_eq!(parse_string("+7"), Ok(ParsedValue::Integer(7)));
    assert_eq!(parse_string("01:30.500"), Ok(ParsedValue::Duration(90500)));
    assert_eq!(parse_string("1:01:30.500"), Ok(ParsedValue::Duration(3690500)));
    assert_eq!(
        parse_string("2024-01-02 03:04:05"),
        Ok(ParsedValue::DateTime(1704164645, 0))
    );
    assert_eq!(parse_string("abc"), Err("Invalid format"));
    assert_eq!(parse_string(""), Err("Invalid format"));
    assert_eq!(parse_string("1:2"), Err("Invalid format"));
}

#[test]
fn data_lookup_finds_first_entry() {
    let d = vec![
        ("A".to_string(), "1".to_string()),
        ("B".to_string(), "2".to_string()),
        ("A".to_string(), "3".to_string()),
    ];
    assert_eq!(find_data(&d, "A"), Some(0));
    assert_eq!(find_data(&d, "B"), Some(1));
    assert_eq!(find_data(&d, "C"), None);
}

#[test]
fn largest_rule_orders_by_decreasing_value() {
    let rule = PreservationLogic {
        column: "Rating".to_string(),
        operator: OrderOperator::Largest,
        variable: String::new(),
    };
    let mut v = vec![
        with_column(record(1, "/a.wav", true), "Rating", "3"),
        with_column(record(2, "/b.wav", true), "Rating", "x"),
        with_column(record(3, "/c.wav", true), "Rating", "10"),
        record(4, "/d.wav", true),
        with_column(record(5, "/e.wav", true), "Rating", "3"),
    ];
    rule.sort(&mut v);
    assert_eq!(ids(&v), vec![3, 1, 5, 2, 4]);
}

#[test]
fn yes_no_rules_put_preferred_records_first() {
    let make = || {
        vec![
            with_column(record(1, "/a.wav", true), "Lib", "Other"),
            with_column(record(2, "/b.wav", true), "Lib", "Main"),
            record(3, "/c.wav", true),
            with_column(record(4, "/d.wav", true), "Lib", ""),
            with_column(record(5, "/e.wav", true), "Lib", "Main Extra"),
        ]
    };
    let rule = |operator: OrderOperator| PreservationLogic {
        column: "Lib".to_string(),
        operator,
        variable: "Main".to_string(),
    };
    let cases = vec![
        (OrderOperator::Is, vec![2, 1, 3, 4, 5]),
        (OrderOperator::IsNot, vec![1, 3, 4, 5, 2]),
        (OrderOperator::IsEmpty, vec![4, 1, 2, 3, 5]),
        (OrderOperator::IsNotEmpty, vec![1, 2, 3, 5, 4]),
        (OrderOperator::Contains, vec![2, 5, 1, 3, 4]),
        (OrderOperator::DoesNotContain, vec![1, 3, 4, 2, 5]),
        (OrderOperator::Smallest, vec![1, 2, 3, 4, 5]),
    ];
    for (op, expected) in cases {
        let mut v = make();
        rule(op).sort(&mut v);
        assert_eq!(ids(&v), expected, "{:?}", op);
    }
}

#[test]
fn groups_sorted_for_keeping() {
    let mut pref = Preferences::default();
    pref.tags = vec!["-DVerb".to_string()];
    let mut a = record(1, "/x/Boom-DVerb.wav", true);
    a.root = "Boom.wav".to_string();
    let mut b = record(2, "/y/Boom 2.wav", false);
    b.root = "Boom.wav".to_string();
    let mut c = record(3, "/z/Boom.wav", false);
    c.root = "Boom.wav".to_string();
    let mut d = record(4, "/w/Boom.wav", true);
    d.root = "Boom.wav".to_string();
    let mut v = vec![a, b, c, d];
    pref.sort_vec(&mut v);
    assert_eq!(ids(&v), vec![4, 1, 3, 2]);
}

#[test]
fn roots_set_the_first_way() {
    let mut pref = Preferences::default();
    pref.tags = vec!["-RVRB".to_string(), "-PiSh".to_string()];
    let mut enabled = Enabled::default();
    let mut r = record(1, "/lib/Hit-PiSh-RVRB.wav", true);
    r.set_root_old(&enabled, &pref);
    assert_eq!(r.root, "Hit-PiSh-RVRB.wav");
    enabled.audiosuite = true;
    r.set_root_old(&enabled, &pref);
    assert_eq!(r.root, "Hit.wav");
    enabled.audiosuite = false;
    enabled.filename = true;
    let mut c = record(2, "/lib/Whoosh copy.01.wav", true);
    c.set_root_old(&enabled, &pref);
    assert_eq!(c.root, "Whoosh.wav");
    pref.ignore_filetype = true;
    let mut d = record(3, "/lib/Door.02.M.wav", true);
    d.set_root_old(&enabled, &pref);
    assert_eq!(d.root, "Door");
}

#[test]
fn a_lone_record_is_not_sorted() {
    let mut pref = Preferences::default();
    pref.preservation_order = vec![PreservationLogic {
        column: "Duration".to_string(),
        operator: OrderOperator::Largest,
        variable: String::new(),
    }];
    let mut r = record(7, "/x/Long.wav", true);
    r.data = vec![("Duration".to_string(), "9223372036854775807:00.000".to_string())];
    let mut v = vec![r];
    pref.sort_vec(&mut v);
    assert_eq!(v.len(), 1);
    assert_eq!(v[0].id, 7);
}
