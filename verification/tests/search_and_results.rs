use smdbc::database::{
    clone_paths, dual_mono_prepare, sort_by_root, dual_mono_record, dual_mono_text, filenames, visible_columns,
    Database, DualMonoStep, Pool,
};
use smdbc::dupes::dupe_search;
use smdbc::marks::{Algorithm, AlgorithmSet};
use smdbc::prefs::{Enabled, Preferences};
use smdbc::records::FileRecord;
use smdbc::results::{get_results, records_2_frontend};
use smdbc::similar::{is_chromaprint_record, matching_bits, similar_match};
use smdbc::subset::{feature_matches, subset_match};
use smdbc::waves::{
    copy_record, exact_match, fingerprint_batches, keep_fingerprint, needs_fingerprint,
    stored_fingerprint,
};

fn record(id: usize, path: &str, keep: bool) -> FileRecord {
    let mut algorithm = AlgorithmSet::new();
    if keep {
        algorithm.insert(Algorithm::Keep);
    }
    FileRecord {
        id,
        path: path.to_string(),
        root: String::new(),
        duration: "0:01.000".to_string(),
        samplerate: 48000,
        bitdepth: 24,
        channels: 2,
        description: String::new(),
        data: Vec::new(),
        fingerprint: None,
        dual_mono: None,
        algorithm,
    }
}

fn rooted(id: usize, path: &str, root: &str) -> FileRecord {
    let mut r = record(id, path, true);
    r.root = root.to_string();
    r
}

fn ids(v: &[FileRecord]) -> Vec<usize> {
    v.iter().map(|r| r.id).collect()
}

fn database(records: Vec<FileRecord>) -> Database {
    Database {
        url: "sqlite:///Users/me/Databases/Library.sqlite".to_string(),
        size: 10,
        records,
        is_compare: false,
        pool: Pool::Sqlite,
    }
}

#[test]
fn duplicates_by_file_name() {
    let mut pref = Preferences::default();
    pref.match_criteria = vec!["Filename".to_string()];
    let mut enabled = Enabled::default();
    enabled.filename = true;
    let mut records = vec![
        rooted(1, "/x/Boom.wav", "Boom.wav"),
        rooted(2, "/y/Boom.wav", "Boom.wav"),
        rooted(3, "/z/Other.wav", "Other.wav"),
        rooted(4, "/w/Boom.1.wav", "Boom.wav"),
    ];
    dupe_search(&mut records, &pref, &enabled);
    assert_eq!(ids(&records), vec![1, 2, 4, 3]);
    assert!(records[0].algorithm.contains(Algorithm::Keep));
    assert!(records[0].algorithm.contains(Algorithm::Basic));
    assert!(!records[1].algorithm.contains(Algorithm::Keep));
    assert!(records[1].algorithm.contains(Algorithm::Basic));
    assert!(!records[2].algorithm.contains(Algorithm::Keep));
    assert!(records[2].algorithm.contains(Algorithm::SimilarFilename));
    assert_eq!(records[3].algorithm.to_display_list(), vec![Algorithm::Keep]);
}

#[test]
fn groups_that_all_stay_are_kept_alone() {
    let mut pref = Preferences::default();
    pref.match_criteria = vec!["Filename".to_string()];
    pref.tags = vec!["-DVerb".to_string()];
    let mut enabled = Enabled::default();
    enabled.filename = true;
    let mut records = vec![
        rooted(1, "/x/Boom-DVerb.wav", "Boom.wav"),
        rooted(2, "/y/Boom-DVerb 2.wav", "Boom.wav"),
    ];
    dupe_search(&mut records, &pref, &enabled);
    assert_eq!(ids(&records), vec![1, 2]);
    for r in &records {
        assert_eq!(r.algorithm.to_display_list(), vec![Algorithm::Keep]);
    }
}

#[test]
fn duplicates_by_column_value() {
    let mut pref = Preferences::default();
    pref.match_criteria = vec!["Description".to_string()];
    let enabled = Enabled::default();
    let mut a = rooted(1, "/a.wav", "a.wav");
    a.data.push(("Description".to_string(), "rain".to_string()));
    let mut b = rooted(2, "/b.wav", "b.wav");
    b.data.push(("Description".to_string(), "rain".to_string()));
    let c = rooted(3, "/c.wav", "c.wav");
    let mut records = vec![c, a, b];
    dupe_search(&mut records, &pref, &enabled);
    assert_eq!(ids(&records), vec![3, 1, 2]);
    assert!(records[1].algorithm.contains(Algorithm::Keep));
    assert!(records[2].algorithm.contains(Algorithm::Basic));
    assert!(!records[2].algorithm.contains(Algorithm::Keep));
}

#[test]
fn identical_audio_marked() {
    let pref = Preferences::default();
    let enabled = Enabled::default();
    let mut a = record(1, "/a.wav", true);
    a.fingerprint = Some("AAA".to_string());
    let mut b = record(2, "/b.wav", true);
    b.fingerprint = Some("AAA".to_string());
    let c = record(3, "/c.wav", true);
    let mut d = record(4, "/d.wav", true);
    d.fingerprint = Some("FAILED".to_string());
    let mut records = vec![a, b, c, d];
    exact_match(&mut records, &pref, &enabled);
    assert_eq!(ids(&records), vec![1, 2, 4, 3, 4]);
    assert!(records[0].algorithm.contains(Algorithm::Waveforms));
    assert!(records[0].algorithm.contains(Algorithm::Keep));
    assert!(records[1].algorithm.contains(Algorithm::Waveforms));
    assert!(!records[1].algorithm.contains(Algorithm::Keep));
    assert!(!records[2].algorithm.contains(Algorithm::Waveforms));
}

#[test]
fn results_grouped_at_kept_records() {
    let records = vec![
        record(1, "/a/one.wav", true),
        record(2, "/a/two.wav", false),
        record(3, "/b/three.wav", true),
        record(4, "/b/four.wav", false),
        record(5, "/b/five.wav", false),
    ];
    let groups = records_2_frontend(&records);
    let shape: Vec<Vec<usize>> = groups.iter().map(|g| g.iter().map(|f| f.id).collect()).collect();
    assert_eq!(shape, vec![vec![1, 2], vec![3, 4, 5]]);
    assert_eq!(groups[0][0].filename, "one.wav");
    assert_eq!(groups[0][0].path, "/a");
    assert_eq!(groups[0][0].algorithm, vec![Algorithm::Keep]);

    let first_not_kept = vec![record(1, "/a.wav", false), record(2, "/b.wav", true)];
    let groups = records_2_frontend(&first_not_kept);
    let shape: Vec<Vec<usize>> = groups.iter().map(|g| g.iter().map(|f| f.id).collect()).collect();
    assert_eq!(shape, vec![vec![1], vec![2]]);
    assert!(records_2_frontend(&Vec::new()).is_empty());

    let flat = get_results(&records);
    assert_eq!(flat.len(), 5);
    assert_eq!(flat[3].filename, "four.wav");
    assert_eq!(flat[3].samplerate, 48000);
}

#[test]
fn database_names_and_counts() {
    let db = database(vec![record(1, "/a.wav", true), record(2, "/b.wav", false)]);
    assert_eq!(db.get_path(), "/Users/me/Databases/Library.sqlite");
    assert_eq!(db.get_name(), "Library");
    assert_eq!(db.get_size(), 10);
    assert_eq!(db.get_records_size(), 1);
    assert_eq!(db.get_address(), Some("/Users/me/Databases/Library.sqlite".to_string()));
    let plain = Database { url: "Library".to_string(), ..database(vec![]) };
    assert_eq!(plain.get_path(), "Library");
    assert_eq!(plain.get_address(), None);
    let odd = Database { url: "mysql://host://db".to_string(), ..database(vec![]) };
    assert_eq!(odd.get_address(), Some("host".to_string()));
    let noname = Database { url: "sqlite://".to_string(), ..database(vec![]) };
    assert_eq!(noname.get_name(), "unknown");
}

#[test]
fn pools() {
    assert_eq!(Pool::for_url("sqlite:///tmp/x.sqlite"), Some(Pool::Sqlite));
    assert_eq!(Pool::for_url("mysql://host/db"), Some(Pool::MySql));
    assert_eq!(Pool::for_url("postgres://host/db"), None);
    assert!(Pool::Sqlite.is_sqlite());
    assert!(!Pool::Sqlite.is_mysql());
    assert!(Pool::MySql.is_mysql());
    assert_eq!(Pool::MySql.get_table_name(), "metadata");
    assert_eq!(Pool::Sqlite.get_table_name(), "justinmetadata");
    assert_eq!(Pool::MySql.get_type(), "MySQL");
    assert_eq!(Pool::Sqlite.get_type(), "SQLite");
}

#[test]
fn compared_records_marked() {
    let mut db = database(vec![record(1, "/x/Boom.wav", true), record(2, "/x/Hiss.wav", true)]);
    let other = database(vec![record(9, "/elsewhere/Boom.wav", true)]);
    assert_eq!(filenames(&other.records), vec!["Boom.wav".to_string()]);
    db.compare_search(&other);
    assert!(db.records[0].algorithm.contains(Algorithm::Compare));
    assert!(!db.records[0].algorithm.contains(Algorithm::Keep));
    assert!(db.records[1].algorithm.contains(Algorithm::Keep));
    assert!(!db.records[1].algorithm.contains(Algorithm::Compare));
}

#[test]
fn dual_mono_steps() {
    let mut known = record(1, "/a.wav", true);
    known.dual_mono = Some(true);
    assert_eq!(dual_mono_prepare(&mut known), DualMonoStep::Known);
    assert!(known.algorithm.contains(Algorithm::DualMono));

    let mut missing = record(2, "/b.wav", true);
    missing.algorithm.insert(Algorithm::InvalidPath);
    assert_eq!(dual_mono_prepare(&mut missing), DualMonoStep::Known);
    assert!(!missing.algorithm.contains(Algorithm::DualMono));

    let mut unknown = record(3, "/c.wav", true);
    assert_eq!(dual_mono_prepare(&mut unknown), DualMonoStep::Check);
    assert_eq!(dual_mono_record(&mut unknown, true), (3, true));
    assert_eq!(unknown.dual_mono, Some(true));
    assert!(unknown.algorithm.contains(Algorithm::DualMono));
    assert_eq!(dual_mono_record(&mut unknown, false), (3, false));
    assert!(!unknown.algorithm.contains(Algorithm::DualMono));
    assert_eq!(dual_mono_text(true), "1");
    assert_eq!(dual_mono_text(false), "0");
}

#[test]
fn visible_columns_sorted() {
    let names = vec![
        "Filename".to_string(),
        "_fingerprint".to_string(),
        "Description".to_string(),
        "BWDescription".to_string(),
        "_DualMono".to_string(),
    ];
    assert_eq!(
        visible_columns(&names),
        vec!["BWDescription".to_string(), "Description".to_string(), "Filename".to_string()]
    );
}

#[test]
fn safety_copy_paths() {
    let (path, url) = clone_paths("/db/Library.sqlite", "thinned");
    assert_eq!(path, "/db/Library_thinned.sqlite");
    assert_eq!(url, "sqlite:///db/Library_thinned.sqlite");
}

#[test]
fn records_copied() {
    let mut r = record(7, "/a.wav", true);
    r.fingerprint = Some("fp".to_string());
    r.data.push(("k".to_string(), "v".to_string()));
    let c = copy_record(&r);
    assert_eq!(c.id, 7);
    assert_eq!(c.path, r.path);
    assert_eq!(c.data, r.data);
    assert_eq!(c.fingerprint, r.fingerprint);
    assert_eq!(c.algorithm, r.algorithm);
}

#[test]
fn similar_audio_marked_by_groups() {
    let pref = Preferences::default();
    let enabled = Enabled::default();
    let with_fp = |id: usize, fp: &str| {
        let mut r = record(id, &format!("/s/{}.wav", id), true);
        r.fingerprint = Some(fp.to_string());
        r
    };
    let mut records = vec![
        with_fp(1, "AQAA"),
        with_fp(2, "PCM:ab"),
        with_fp(3, "AQAB"),
        with_fp(4, "PCM:ab"),
        with_fp(5, "FAILED"),
        with_fp(6, "AQAC"),
        with_fp(7, "PCM:cd"),
    ];
    assert!(is_chromaprint_record(&records[0]));
    assert!(!is_chromaprint_record(&records[1]));
    assert!(!is_chromaprint_record(&records[4]));
    let groups = vec![vec![1, 3], vec![6], vec![9, 9]];
    similar_match(&mut records, &pref, &enabled, &groups);
    assert_eq!(ids(&records), vec![2, 4, 7, 1, 3, 5, 6]);
    assert!(records[0].algorithm.contains(Algorithm::Waveforms));
    assert!(records[0].algorithm.contains(Algorithm::Keep));
    assert!(records[1].algorithm.contains(Algorithm::Waveforms));
    assert!(!records[1].algorithm.contains(Algorithm::Keep));
    assert!(!records[2].algorithm.contains(Algorithm::Waveforms));
    assert!(records[3].algorithm.contains(Algorithm::SimilarAudio));
    assert!(records[3].algorithm.contains(Algorithm::Keep));
    assert!(records[4].algorithm.contains(Algorithm::SimilarAudio));
    assert!(!records[4].algorithm.contains(Algorithm::Keep));
    assert!(!records[6].algorithm.contains(Algorithm::SimilarAudio));
}

#[test]
fn bits_matched_over_common_length() {
    assert_eq!(matching_bits(&[0, 0xFFFF_FFFF], &[1]), (31, 32));
    assert_eq!(matching_bits(&[0xF0F0_F0F0, 7], &[0xF0F0_F0F0, 0]), (61, 64));
    assert_eq!(matching_bits(&[], &[1, 2]), (0, 0));
}

#[test]
fn subsets_follow_their_parent() {
    let mut records = vec![
        record(10, "/a.wav", true),
        record(11, "/b.wav", true),
        record(12, "/c.wav", true),
        record(13, "/d.wav", false),
        record(14, "/e.wav", true),
    ];
    let links = vec![None, None, Some(0), None, Some(0)];
    subset_match(&mut records, &links);
    assert_eq!(ids(&records), vec![10, 12, 14, 11, 13]);
    assert!(records[0].algorithm.contains(Algorithm::Waveforms));
    assert!(records[0].algorithm.contains(Algorithm::Keep));
    assert!(records[1].algorithm.contains(Algorithm::Waveforms));
    assert!(!records[1].algorithm.contains(Algorithm::Keep));
    assert!(!records[2].algorithm.contains(Algorithm::Keep));
    assert!(!records[3].algorithm.contains(Algorithm::Waveforms));
    assert!(records[3].algorithm.contains(Algorithm::Keep));
    assert!(!records[4].algorithm.contains(Algorithm::Keep));
    assert!(!records[4].algorithm.contains(Algorithm::Waveforms));
}

#[test]
fn short_fingerprint_patterns_found() {
    assert_eq!(feature_matches(&[0b1100, 0b0110, 0b0011], &[0b0100, 0b1100, 0b0010]), (1, 2));
    assert_eq!(feature_matches(&[0b1100, 0b0110, 0b0011], &[0b1100, 0b0100, 0b0110]), (2, 2));
    assert_eq!(feature_matches(&[5], &[1, 2, 3]), (0, 0));
    assert_eq!(feature_matches(&[1, 1], &[2]), (0, 1));
}

#[test]
fn searches_keep_every_record() {
    let pref = Preferences::default();
    let enabled = Enabled::default();
    let with_fp = |id: usize, fp: Option<&str>| {
        let mut r = record(id, &format!("/k/{}.wav", id), id % 2 == 0);
        r.fingerprint = fp.map(|f| f.to_string());
        r
    };
    let make = || {
        vec![
            with_fp(1, Some("AQAA")),
            with_fp(2, Some("PCM:x")),
            with_fp(3, None),
            with_fp(4, Some("AQAA")),
            with_fp(5, Some("PCM:x")),
            with_fp(6, Some("AQAB")),
        ]
    };
    let sorted_ids = |v: &[FileRecord]| {
        let mut i = ids(v);
        i.sort();
        i
    };
    let mut exact = make();
    exact_match(&mut exact, &pref, &enabled);
    assert_eq!(sorted_ids(&exact), vec![1, 2, 3, 4, 5, 6]);
    let mut similar = make();
    similar_match(&mut similar, &pref, &enabled, &vec![vec![1, 4], vec![6]]);
    assert_eq!(sorted_ids(&similar), vec![1, 2, 3, 4, 5, 6]);
    let mut subset = make();
    subset_match(&mut subset, &vec![None, Some(0), None, Some(2), Some(0), None]);
    assert_eq!(sorted_ids(&subset), vec![1, 2, 3, 4, 5, 6]);
    assert_eq!(ids(&subset), vec![1, 2, 5, 3, 4, 6]);
}

#[test]
fn fingerprints_gathered_and_kept() {
    let mut a = record(1, "/a.wav", true);
    let mut b = record(2, "/b.wav", true);
    b.fingerprint = Some("FAILED".to_string());
    let mut c = record(3, "/c.wav", true);
    c.fingerprint = Some("AQAA".to_string());
    assert!(needs_fingerprint(&a) && needs_fingerprint(&b) && !needs_fingerprint(&c));
    let records = vec![copy_record(&a), copy_record(&b), copy_record(&c)];
    assert_eq!(fingerprint_batches(&records, 1000), (2, 2));
    assert_eq!(fingerprint_batches(&records, 1), (2, 1));
    assert_eq!(keep_fingerprint(&mut a, Some("AQAB".to_string())), Some("AQAB".to_string()));
    assert_eq!(a.fingerprint.as_deref(), Some("AQAB"));
    assert_eq!(keep_fingerprint(&mut b, Some(String::new())), None);
    assert_eq!(b.fingerprint.as_deref(), Some("FAILED"));
    assert_eq!(keep_fingerprint(&mut c, None), None);
    assert_eq!(stored_fingerprint(None), "FAILED");
    assert_eq!(stored_fingerprint(Some("AQAB".to_string())), "AQAB");
}

#[test]
fn records_listed_by_root() {
    let mut records = vec![
        rooted(1, "/b1.wav", "b"),
        rooted(2, "/a1.wav", "a"),
        rooted(3, "/b2.wav", "b"),
        rooted(4, "/ab.wav", "ab"),
        rooted(5, "/a2.wav", "a"),
        rooted(6, "/B.wav", "B"),
    ];
    sort_by_root(&mut records);
    assert_eq!(ids(&records), vec![6, 2, 5, 4, 1, 3]);
}

#[test]
fn a_lone_record_with_an_unreadable_duration_is_searched() {
    let mut pref = Preferences::default();
    pref.match_criteria = vec!["Filename".to_string()];
    pref.preservation_order = vec![smdbc::prefs::PreservationLogic {
        column: "Duration".to_string(),
        operator: smdbc::prefs::OrderOperator::Largest,
        variable: String::new(),
    }];
    let mut enabled = Enabled::default();
    enabled.filename = true;
    let mut long = rooted(1, "/x/Long.wav", "Long.wav");
    long.data = vec![("Duration".to_string(), "9223372036854775807:00.000".to_string())];
    long.fingerprint = Some("PCM:abc".to_string());
    let mut records = vec![long.clone(), rooted(2, "/y/Other.wav", "Other.wav")];
    dupe_search(&mut records, &pref, &enabled);
    assert_eq!(ids(&records), vec![1, 2]);
    let mut records = vec![long.clone()];
    exact_match(&mut records, &pref, &enabled);
    assert_eq!(ids(&records), vec![1]);
    let mut records = vec![long];
    similar_match(&mut records, &pref, &enabled, &vec![vec![1]]);
    assert_eq!(ids(&records), vec![1]);
}
