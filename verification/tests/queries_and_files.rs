use smdbc::database::Pool;
use smdbc::files::{
    archive_destination, archive_relative_path, drive_cut_panics_exec, get_str, get_temp_file_path,
    Platform,
};
use smdbc::license::{
    check_reg, generate_license_key, generate_license_key_old, is_permission_error_str, Registration,
};
use smdbc::marks::Algorithm;
use smdbc::prefs::{Enabled, Preferences};
use smdbc::queries::{
    add_column_query, batches, case_text, column_display_name, column_replace_query,
    column_update_query, columns_query, count_query, delete_query, dirty_text, find_query,
    hash_update_query, mono_update_query, path_hash, path_hashes, path_replace_query, pathname_table_query,
    push_decimal, remove_column_query, replaced_paths_query, replaces_paths, search_pattern,
    select_all_query, store_query,
};
use smdbc::records::FileRecord;
use smdbc::rows::RowValues;

#[test]
fn license_keys() {
    assert_eq!(
        generate_license_key("John Doe", "John@Example.com"),
        "03558BE4-D566C6BB-F3EFCCA6-7C1358C4"
    );
    assert_eq!(
        generate_license_key_old("John Doe", "John@Example.com"),
        "88A6899BB023CF319A24B5B921AA86CB1F8D6DB2914173D43E9266E89AA23D6F"
    );
}

#[test]
fn license_key_ignores_ascii_case() {
    let key = generate_license_key("John Doe", "John@Example.com");
    assert_eq!(generate_license_key("JOHN DOE", "JOHN@EXAMPLE.COM"), key);
    assert_eq!(generate_license_key("john doe", "john@example.com"), key);
    assert_eq!(key.len(), 35);
}

#[test]
fn registrations_checked() {
    let reg = |license: &str| Registration {
        name: "John Doe".to_string(),
        email: "John@Example.com".to_string(),
        license: license.to_string(),
    };
    assert!(check_reg(&reg("03558BE4-D566C6BB-F3EFCCA6-7C1358C4")));
    assert!(check_reg(&reg("03558be4-d566c6bb-f3efcca6-7c1358c4")));
    assert!(check_reg(&reg(
        "88a6899bb023cf319a24b5b921aa86cb1f8d6db2914173d43e9266e89aa23d6f"
    )));
    assert!(!check_reg(&reg("0000")));
    let issued = generate_license_key("Ana", "ana@x.org");
    assert!(check_reg(&Registration {
        name: "Ana".to_string(),
        email: "ana@x.org".to_string(),
        license: issued,
    }));
}

#[test]
fn permission_messages() {
    assert!(is_permission_error_str("Permission denied (os error 13)"));
    assert!(is_permission_error_str("ACCESS DENIED"));
    assert!(is_permission_error_str("Operation not permitted"));
    assert!(is_permission_error_str("401 Unauthorized"));
    assert!(!is_permission_error_str("file not found"));
}

#[test]
fn table_queries() {
    assert_eq!(
        add_column_query(Pool::Sqlite, "_fingerprint"),
        "ALTER TABLE justinmetadata ADD COLUMN _fingerprint TEXT;"
    );
    assert_eq!(
        remove_column_query(Pool::MySql, "_fingerprint"),
        "ALTER TABLE metadata DROP COLUMN _fingerprint;"
    );
    assert_eq!(count_query(Pool::Sqlite), "SELECT COUNT(*) FROM justinmetadata");
    assert_eq!(select_all_query(Pool::MySql), "SELECT * FROM metadata");
    assert_eq!(columns_query(Pool::Sqlite), "PRAGMA table_info(justinmetadata);");
}

#[test]
fn batch_queries() {
    assert_eq!(
        mono_update_query(Pool::Sqlite, 3),
        "UPDATE justinmetadata SET Channels = 1, _Dirty = 1 WHERE recid IN (?,?,?)"
    );
    assert_eq!(
        column_update_query(Pool::Sqlite, "_fingerprint", "NULL", 2),
        "UPDATE justinmetadata SET _fingerprint = NULL WHERE recid IN (?,?)"
    );
    assert_eq!(delete_query(Pool::MySql, 1), "DELETE FROM metadata WHERE recid IN (?)");
    assert_eq!(delete_query(Pool::MySql, 0), "DELETE FROM metadata WHERE recid IN ()");
    assert_eq!(
        store_query("justinmetadata", "_DualMono"),
        "UPDATE justinmetadata SET _DualMono = ? WHERE recid = ?"
    );
    assert_eq!(column_display_name("_DualMono"), "DualMono");
    assert_eq!(column_display_name("Channels"), "Channels");
    assert_eq!(batches(10, 4), vec![(0, 4), (4, 8), (8, 10)]);
    assert_eq!(batches(8, 4), vec![(0, 4), (4, 8)]);
    assert!(batches(0, 4).is_empty());
}

#[test]
fn metadata_queries() {
    assert_eq!(case_text(true), "GLOB");
    assert_eq!(case_text(false), "LIKE");
    assert_eq!(search_pattern("rain", true), "*rain*");
    assert_eq!(search_pattern("rain", false), "%rain%");
    assert_eq!(dirty_text(true, "Filename"), ", _Dirty = 1");
    assert_eq!(dirty_text(true, "Description"), "");
    assert_eq!(dirty_text(false, "Pathname"), "");
    assert!(replaces_paths("FilePath"));
    assert!(!replaces_paths("Library"));
    assert_eq!(
        find_query("justinmetadata", "Description", false),
        "SELECT recid, filepath, duration, _fingerprint, description, channels, bitdepth, samplerate, _DualMono  FROM justinmetadata WHERE Description LIKE ?"
    );
    assert_eq!(
        column_replace_query("t", "Library", "Old", "New", "", "LIKE"),
        "UPDATE t SET Library = REPLACE(Library, 'Old', 'New') WHERE Library LIKE ?"
    );
    assert_eq!(
        pathname_table_query("a", "b", "GLOB"),
        "UPDATE justinrdb_Pathname SET Pathname = REPLACE(Pathname, 'a', 'b') WHERE Pathname GLOB ?"
    );
    assert_eq!(
        replaced_paths_query("t", "LIKE"),
        "SELECT recid, FilePath FROM t WHERE Filename LIKE ? OR FilePath LIKE ? OR Pathname LIKE ?"
    );
    let q = path_replace_query("t", "a", "b", ", _Dirty = 1", "LIKE");
    assert!(q.starts_with("UPDATE t SET \n                FilePath = REPLACE(FilePath, 'a', 'b'),"));
    assert!(q.ends_with("WHERE Filename LIKE ? OR FilePath LIKE ? OR Pathname LIKE ?"));
    assert!(q.contains("Pathname = REPLACE(Pathname, 'a', 'b'), _Dirty = 1 \n"));
}

#[test]
fn hash_updates() {
    let q = hash_update_query("t", &[(1, "ab".to_string()), (-20, "cd".to_string())]);
    assert_eq!(
        q,
        "UPDATE t SET _FilePathHash = CASE recid WHEN 1 THEN 'ab' WHEN -20 THEN 'cd' END WHERE recid IN (1, -20)"
    );
    let mut v = Vec::new();
    push_decimal(&mut v, i64::MIN);
    assert_eq!(v.iter().collect::<String>(), i64::MIN.to_string());
    let mut v = Vec::new();
    push_decimal(&mut v, 0);
    assert_eq!(v, vec!['0']);
}

#[test]
fn archive_paths() {
    assert_eq!(
        archive_relative_path("/Volumes/Drive/folder/file.wav", Platform::MacOs),
        "Drive/folder/file.wav"
    );
    assert_eq!(archive_relative_path("/Users/a/b.wav", Platform::MacOs), "Users/a/b.wav");
    assert_eq!(
        archive_relative_path("C:\\folder\\file.wav", Platform::Windows),
        "folder\\file.wav"
    );
    assert_eq!(archive_relative_path("é:\\x.wav", Platform::Windows), ":\\x.wav");
    assert_eq!(archive_relative_path("/a/b.wav", Platform::Other), "a/b.wav");
    assert_eq!(archive_destination("/a/b.wav", "/archive", Platform::Other), "/archive/a/b.wav");
    assert!(drive_cut_panics_exec("中:\\x", Platform::Windows));
    assert!(!drive_cut_panics_exec("中:\\x", Platform::Other));
}

#[test]
fn temporary_files() {
    assert_eq!(get_temp_file_path("/music/song.wav"), "/music/song-temp.wav");
    assert_eq!(get_temp_file_path("song.wav"), "song-temp.wav");
    assert_eq!(get_temp_file_path("/music/noext"), "/music/noext-temp.");
}

fn row(path: &str) -> RowValues {
    RowValues {
        id: Some(5),
        path: Some(path.to_string()),
        duration: None,
        description: Some("rain".to_string()),
        channels: Some(2),
        bitdepth: None,
        samplerate: Some(96000),
        columns: vec![
            ("Library".to_string(), "Main".to_string()),
            ("Unused".to_string(), "x".to_string()),
        ],
        fingerprint: Some("AQAAAA==".to_string()),
        dual_mono: Some("1".to_string()),
    }
}

#[test]
fn records_read_from_rows() {
    let mut pref = Preferences::default();
    pref.match_criteria = vec!["Library".to_string(), "Missing".to_string()];
    pref.fetch_waveforms = true;
    let mut enabled = Enabled::default();
    enabled.invalidpath = true;
    let r = FileRecord::from_row(&row("/lib/Boom.01.wav"), false, false, &enabled, &pref).unwrap();
    assert_eq!(r.id, 5);
    assert_eq!(r.duration, "0:00.000");
    assert_eq!(r.description, "rain");
    assert_eq!(r.bitdepth, 0);
    assert_eq!(r.samplerate, 96000);
    assert_eq!(r.data, vec![("Library".to_string(), "Main".to_string())]);
    assert_eq!(r.fingerprint, Some("AQAAAA==".to_string()));
    assert_eq!(r.dual_mono, Some(true));
    assert_eq!(r.root, "Boom.wav");
    assert_eq!(r.algorithm.to_display_list(), vec![Algorithm::InvalidPath]);

    let r = FileRecord::from_row(&row("/lib/Boom.wav"), true, false, &enabled, &pref).unwrap();
    assert_eq!(r.algorithm.to_display_list(), vec![Algorithm::Keep]);

    enabled.duration = true;
    enabled.filetags = true;
    pref.autoselects = vec!["Boom".to_string()];
    let r = FileRecord::from_row(&row("/lib/Boom.wav"), true, true, &enabled, &pref).unwrap();
    assert_eq!(
        r.algorithm.to_display_list(),
        vec![Algorithm::Duration, Algorithm::FileTags]
    );

    pref.fetch_waveforms = false;
    let r = FileRecord::from_row(&row("/lib/Boom.wav"), true, false, &Enabled::default(), &pref).unwrap();
    assert_eq!(r.fingerprint, None);
    assert_eq!(r.dual_mono, None);

    pref.safe_folders = vec!["/lib/".to_string()];
    assert!(FileRecord::from_row(&row("/lib/Boom.wav"), true, false, &enabled, &pref).is_none());
    assert!(FileRecord::from_row(&row("/library/Boom.wav"), true, false, &enabled, &pref).is_some());
    assert!(FileRecord::new_from_row(&row("/lib/Boom.wav"), false, &enabled, &pref).is_none());
}

#[test]
fn path_hashes_are_sha1_in_lowercase_hex() {
    assert_eq!(path_hash("abc"), "a9993e364706816aba3e25717850c26c9cd0d89d");
    assert_eq!(path_hash(""), "da39a3ee5e6b4b0d3255bfef95601890afd80709");
    let rows = vec![(7i64, "abc".to_string()), (-2i64, String::new())];
    let hashed = path_hashes(&rows);
    assert_eq!(hashed[0], (7, "a9993e364706816aba3e25717850c26c9cd0d89d".to_string()));
    assert_eq!(hashed[1].0, -2);
    assert_eq!(hashed[1].1, path_hash(""));
}

#[test]
fn paths_as_text() {
    assert_eq!(get_str("/x/Boom.wav"), "/x/Boom.wav");
    assert_eq!(get_str(""), "");
}
