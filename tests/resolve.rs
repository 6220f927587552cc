use file_tgf::extract::{compile_optional_regex, extract_then_replace, make_empty_string};
use file_tgf::scan::{Rules, UNKNOWN_FILE_NODE};

#[test]
fn hashes_are_removed_unless_disabled() {
    assert_eq!(extract_then_replace("a#b#", None, "", false), "ab");
    assert_eq!(extract_then_replace("a#b#", None, "", true), "a#b#");
}

#[test]
fn every_match_of_the_replace_pattern_is_replaced() {
    let re = compile_optional_regex(Some("[0-9]".to_string())).unwrap().unwrap();
    assert_eq!(extract_then_replace("a1b2#3", Some(&re), "_", false), "a_b__");
    assert_eq!(extract_then_replace("x9", Some(&re), &make_empty_string(), false), "x");
}

#[test]
fn an_absent_pattern_compiles_to_none_and_a_bad_one_fails() {
    assert!(compile_optional_regex(None).unwrap().is_none());
    assert!(compile_optional_regex(Some("(".to_string())).is_err());
}

#[test]
fn rules_fail_on_any_bad_pattern() {
    let bad = || Some("[".to_string());
    assert!(Rules::compile("[".to_string(), None, None, None, None, None, None, false, false).is_err());
    assert!(Rules::compile(".*".to_string(), bad(), None, None, None, None, None, false, false).is_err());
    assert!(Rules::compile(".*".to_string(), None, None, bad(), None, None, None, false, false).is_err());
    assert!(Rules::compile(".*".to_string(), None, None, None, bad(), None, None, false, false).is_err());
    assert!(Rules::compile(".*".to_string(), None, None, None, None, bad(), None, false, false).is_err());
    assert!(Rules::compile(".*".to_string(), None, None, None, None, None, None, false, false).is_ok());
}

#[test]
fn the_first_capture_group_names_the_target() {
    let rules = Rules::compile(r"use (\w+)".to_string(), None, None, None, None, None, None, false, false).unwrap();
    assert_eq!(rules.extract.identifiers("use foo; use bar;", false), vec!["foo", "bar"]);
    let whole = Rules::compile(r"\d+".to_string(), None, None, None, None, None, None, false, false).unwrap();
    assert_eq!(whole.extract.identifiers("a12b3", false), vec!["12", "3"]);
}

#[test]
fn a_capture_group_that_takes_no_part_gives_no_target() {
    let rules = Rules::compile(r"x(\d)?".to_string(), None, None, None, None, None, None, false, false).unwrap();
    assert_eq!(rules.extract.identifiers("x1 x", false), vec!["1"]);
}

#[test]
fn extracted_targets_are_cleaned_and_replaced() {
    let rules = Rules::compile(
        "[a-z#]+".to_string(),
        Some("z".to_string()),
        Some("Z".to_string()),
        None,
        None,
        None,
        None,
        false,
        false,
    )
    .unwrap();
    assert_eq!(rules.extract.identifiers("#az z#z", false), vec!["aZ", "ZZ"]);
}

#[test]
fn the_filename_filter_decides_inclusion() {
    let rules = Rules::compile(".*".to_string(), None, None, Some(r".*\.rs$".to_string()), None, None, None, false, false)
        .unwrap();
    assert!(rules.includes(Some("main.rs")));
    assert!(!rules.includes(Some("main.txt")));
    assert!(rules.includes(None));
    let open = Rules::compile(".*".to_string(), None, None, None, None, None, None, false, false).unwrap();
    assert!(open.includes(Some("main.txt")));
}

#[test]
fn file_nodes_default_to_the_stem() {
    let rules = Rules::compile(".*".to_string(), None, None, None, None, None, None, false, false).unwrap();
    assert_eq!(rules.file_nodes(Some("dir/foo.txt"), Some("foo")), vec!["foo"]);
    assert_eq!(rules.file_nodes(Some("dir/.."), None), vec![UNKNOWN_FILE_NODE]);
    assert_eq!(UNKNOWN_FILE_NODE, "file_tgf_unknown");
}

#[test]
fn a_path_pattern_names_the_file() {
    let rules = Rules::compile(
        ".*".to_string(),
        None,
        None,
        None,
        Some(r"(\w+)/\w+\.rs".to_string()),
        Some("_".to_string()),
        Some("-".to_string()),
        false,
        false,
    )
    .unwrap();
    assert_eq!(rules.file_nodes(Some("src/my_mod/lib.rs"), Some("lib")), vec!["my-mod"]);
    assert_eq!(rules.file_nodes(None, Some("lib")), Vec::<String>::new());
}
