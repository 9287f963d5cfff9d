use mathom::category::{Category, categorize};

#[test]
fn known_extensions_map_to_their_category() {
    assert_eq!(categorize("movie.mkv", false), Category::Video);
    assert_eq!(categorize("song.flac", false), Category::Audio);
    assert_eq!(categorize("photo.jpeg", false), Category::Image);
    assert_eq!(categorize("backup.7z", false), Category::Archive);
    assert_eq!(categorize("thesis.pdf", false), Category::Document);
    assert_eq!(categorize("main.rs", false), Category::Code);
    assert_eq!(categorize("setup.exe", false), Category::Executable);
    assert_eq!(categorize("kernel32.dll", false), Category::System);
    assert_eq!(categorize("index.db", false), Category::Data);
}

#[test]
fn extension_match_is_case_insensitive() {
    assert_eq!(categorize("MOVIE.MKV", false), Category::Video);
    assert_eq!(categorize("Photo.JPG", false), Category::Image);
}

#[test]
fn unknown_or_missing_extension_is_other() {
    assert_eq!(categorize("README", false), Category::Other);
    assert_eq!(categorize("weird.xyz123", false), Category::Other);
    assert_eq!(categorize("trailing.", false), Category::Other);
}

#[test]
fn directories_are_directory_regardless_of_name() {
    assert_eq!(categorize("videos.mp4", true), Category::Directory);
}
