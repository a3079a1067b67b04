use cmdui::filter_entries;
use cmdui::split_path;

#[test]
fn path_with_slash_splits_at_last_slash() {
    let (dir, dpart, fpart) = split_path("a/b/c");
    assert_eq!(dir, "a/b/");
    assert_eq!(dpart, "a/b/");
    assert_eq!(fpart, "c");
}

#[test]
fn trailing_slash_leaves_empty_fragment() {
    let (dir, dpart, fpart) = split_path("dir/");
    assert_eq!(dir, "dir/");
    assert_eq!(dpart, "dir/");
    assert_eq!(fpart, "");
}

#[test]
fn lone_dot_is_the_current_directory() {
    let (dir, dpart, fpart) = split_path(".");
    assert_eq!(dir, "./");
    assert_eq!(dpart, ".");
    assert_eq!(fpart, "");
}

#[test]
fn bare_name_searches_the_current_directory() {
    let (dir, dpart, fpart) = split_path("note");
    assert_eq!(dir, "./");
    assert_eq!(dpart, "");
    assert_eq!(fpart, "note");
}

#[test]
fn entries_filter_by_fragment_and_mark_directories() {
    let entries = vec![
        ("file".to_string(), false),
        ("fig".to_string(), true),
        ("other".to_string(), false),
    ];
    let got = filter_entries("dir/", "fi", &entries);
    assert_eq!(got, vec!["dir/file".to_string(), "dir/fig/".to_string()]);
}

#[test]
fn empty_fragment_keeps_every_entry() {
    let entries = vec![("a".to_string(), false), ("b".to_string(), true)];
    let got = filter_entries("", "", &entries);
    assert_eq!(got, vec!["a".to_string(), "b/".to_string()]);
}
