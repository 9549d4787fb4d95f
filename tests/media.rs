use dhs::{is_media_extension_text, is_media_file, same_text};

#[test]
fn mixed_case_media_extension_is_moved() {
    assert!(is_media_file("photo.JPG"));
    assert!(is_media_file("clip.Mp4"));
    assert!(is_media_file("song.mp3"));
    assert!(is_media_file("call.3gp"));
}

#[test]
fn other_files_stay() {
    assert!(!is_media_file("notes.txt"));
    assert!(!is_media_file("jpg"));
    assert!(!is_media_file(".png"));
    assert!(!is_media_file("archive.png.zip"));
    assert!(!is_media_file(""));
}

#[test]
fn allow_list_is_exact() {
    for e in ["jpg", "jpeg", "png", "gif", "bmp", "tiff", "mp4", "avi", "mkv", "mov", "wmv", "flv", "m4a", "mp3", "3gp"] {
        assert!(is_media_extension_text(e));
    }
    assert!(!is_media_extension_text("JPG"));
    assert!(!is_media_extension_text("tif"));
    assert!(!is_media_extension_text(""));
}

#[test]
fn texts_compare_by_characters() {
    assert!(same_text("abc", "abc"));
    assert!(!same_text("abc", "abd"));
    assert!(!same_text("ab", "abc"));
}
