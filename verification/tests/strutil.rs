use steamws::strutil;

#[test]
fn formats_decimal_numbers() {
    assert_eq!(strutil::u64_to_string(0), "0");
    assert_eq!(strutil::u64_to_string(7), "7");
    assert_eq!(strutil::u64_to_string(1234), "1234");
    assert_eq!(strutil::u64_to_string(u64::MAX), "18446744073709551615");
}

#[test]
fn cleans_paths() {
    assert_eq!(strutil::clean_path("Models\\Props/Box.VMT"), "models/props/box.vmt");
    assert_eq!(strutil::clean_path(""), "");
}

#[test]
fn counts_both_separators() {
    assert_eq!(strutil::count_seps("a/b\\c/d"), 3);
    assert_eq!(strutil::count_seps("plain"), 0);
}

#[test]
fn parent_strips_last_component() {
    assert_eq!(strutil::parent_path(&"a/b/c".to_string()), "a/b");
    assert_eq!(strutil::parent_path(&"file".to_string()), "");
}

#[test]
fn joins_with_single_separator() {
    assert_eq!(strutil::join_path(&"a/b".to_string(), "c"), "a/b/c");
    assert_eq!(strutil::join_path(&"".to_string(), "c"), "c");
}

#[test]
fn stems_drop_the_extension() {
    assert_eq!(strutil::path_stem(&"dir/name.mdl".to_string()), "name");
    assert_eq!(strutil::path_stem(&"dir/.hidden".to_string()), ".hidden");
    assert_eq!(strutil::path_stem(&"noext".to_string()), "noext");
    assert_eq!(strutil::base_name(&"a/b/c.x".to_string()), "c.x");
}
