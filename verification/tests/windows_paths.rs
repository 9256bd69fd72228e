use smdbc::paths::{
    auto_convert_macos_path_to_windows, convert_and_validate_path, convert_macos_path_to_windows,
    extract_volume_name, first_drive, first_existing, volume_folder,
};

#[test]
fn test_extract_volume_name() {
    assert_eq!(
        extract_volume_name("/Volumes/AVS SFX/AVS SFX/Mindful Audio"),
        Some("AVS SFX".to_string())
    );

    assert_eq!(
        extract_volume_name("/Volumes/MyDrive/folder/file.txt"),
        Some("MyDrive".to_string())
    );

    assert_eq!(
        extract_volume_name("/Volumes/USB Drive"),
        Some("USB Drive".to_string())
    );

    assert_eq!(extract_volume_name("/Users/test/file.txt"), None);
}

#[test]
fn test_convert_macos_path_to_windows() {
    let result = convert_macos_path_to_windows("/Volumes/AVS SFX/AVS SFX/Mindful Audio", 'F');
    assert_eq!(result, Some("F:\\AVS SFX\\Mindful Audio".to_string()));

    let result = convert_macos_path_to_windows("/Volumes/MyDrive/folder/file.txt", 'E');
    assert_eq!(result, Some("E:\\folder\\file.txt".to_string()));
}

fn no_labels() -> Vec<Option<String>> {
    vec![None; 26]
}

#[test]
fn first_drive_is_the_first_that_holds_the_volume() {
    let mut labels = no_labels();
    labels[5] = Some("avs SFX".to_string());
    let mut is_dir = vec![false; 26];
    is_dir[2] = true;
    is_dir[5] = true;
    let mut has_folder = vec![false; 26];
    has_folder[7] = true;
    assert_eq!(first_drive("AVS SFX", &labels, &is_dir, &has_folder), Some('F'));
    has_folder[2] = true;
    assert_eq!(first_drive("AVS SFX", &labels, &is_dir, &has_folder), Some('C'));
    is_dir[5] = false;
    has_folder[2] = false;
    assert_eq!(first_drive("AVS SFX", &labels, &is_dir, &has_folder), None);
    is_dir[25] = true;
    has_folder[25] = true;
    assert_eq!(first_drive("AVS SFX", &labels, &is_dir, &has_folder), Some('Z'));
}

#[test]
fn volume_folder_at_drive_root() {
    assert_eq!(volume_folder('F', "AVS SFX"), "F:\\AVS SFX");
    assert_eq!(volume_folder('A', ""), "A:\\");
}

#[test]
fn first_existing_prefers_the_detected_path() {
    let cands: Vec<Option<String>> = vec![Some("A:\\x".to_string()), None, Some("C:\\x".to_string())];
    let auto = Some("F:\\x".to_string());
    assert_eq!(first_existing(auto.clone(), true, &cands, &[true, false, true]), auto);
    assert_eq!(
        first_existing(auto.clone(), false, &cands, &[false, true, true]),
        Some("C:\\x".to_string())
    );
    assert_eq!(first_existing(auto, false, &cands, &[false, false, false]), None);
    assert_eq!(first_existing(None, true, &cands, &[true, true, true]), None);
}

#[test]
fn paths_without_a_volume_are_not_converted() {
    let labels = no_labels();
    assert_eq!(auto_convert_macos_path_to_windows("/Users/test/file.txt", &labels), None);
    assert_eq!(convert_and_validate_path("/Users/test/file.txt", &labels), None);
}
