use std::path::PathBuf;

use smdbc::files::normalized_path;
use smdbc::marks::AlgorithmSet;
use smdbc::paths::validate_windows_path;
use smdbc::records::FileRecord;

fn record_at(path: &str) -> FileRecord {
    FileRecord {
        id: 1,
        path: path.to_string(),
        root: String::new(),
        duration: "0:01.000".to_string(),
        samplerate: 48000,
        bitdepth: 24,
        channels: 2,
        description: String::new(),
        data: Vec::new(),
        fingerprint: None,
        dual_mono: None,
        algorithm: AlgorithmSet::new(),
    }
}

#[test]
fn test_cross_platform_path_handling() {
    let test_paths = vec![
        "/Users/user/Music/song.wav",
        "C:\\Users\\user\\Music\\song.wav",
        "/home/user/documents/audio.aiff",
        "D:\\Audio\\Projects\\track.wav",
    ];

    for path_str in test_paths {
        let record = record_at(path_str);
        let display_path = record.get_filepath();

        assert!(!display_path.is_empty());

        let path = PathBuf::from(path_str);
        let reconstructed = PathBuf::from(&display_path);
        assert_eq!(path, reconstructed);

        println!("Original: {} -> Display: {}", path_str, display_path);
    }
}

#[test]
fn test_path_existence_check() {
    let nonexistent = record_at("/nonexistent/path/file.wav");
    assert!(!nonexistent.check_path());

    assert!(validate_windows_path("."));
}

#[test]
fn test_delete_path_normalization() {
    let test_files = vec!["test1.wav", "/path/to/test2.wav", "relative/path/test3.wav"];

    for file in &test_files {
        let normalized = normalized_path(file);

        assert!(!normalized.is_empty());
        assert_eq!(normalized, PathBuf::from(file).display().to_string());

        println!("File: {} -> Normalized: {}", file, normalized);
    }
}
