use std::collections::HashSet;

use file_tgf::pair_store::PairStore;
use file_tgf::scan::Rules;
use file_tgf::tgf::get_tgf;

fn rules_for(regex: &str) -> Rules {
    Rules::compile(regex.to_string(), None, None, None, None, None, None, false, false).unwrap()
}

/// Scans files given as (stem, lines) the way a directory walk hands them over.
fn run_edges(files: &[(&str, &[&str])], regex: &str) -> Vec<(String, String)> {
    let rules = rules_for(regex);
    let mut store = rules.new_store();
    for (stem, lines) in files {
        let nodes = rules.file_nodes(None, Some(stem));
        let lines: Vec<String> = lines.iter().map(|l| l.to_string()).collect();
        rules.add_file_edges(&mut store, &nodes, &lines);
    }
    store.sorted_pairs()
}

fn run_tgf(files: &[(&str, &[&str])], regex: &str) -> String {
    get_tgf(&run_edges(files, regex))
}

fn edges(pairs: &[(&str, &str)]) -> Vec<(String, String)> {
    pairs.iter().map(|(a, b)| (a.to_string(), b.to_string())).collect()
}

fn assert_has_same_lines(actual: &str, expected: &str) {
    let actual_set: HashSet<&str> = actual.lines().collect();
    let expected_set: HashSet<&str> = expected.lines().collect();
    assert_eq!(actual_set, expected_set);
}

#[test]
fn the_empty_folder_produces_the_expected_tgf() {
    let actual = run_tgf(&[], ".*");

    let expected = "#\n";

    assert_eq!(actual, expected);
}

#[test]
fn the_single_blank_file_produces_the_expected_tgf() {
    let actual = run_tgf(&[("blank", &[])], ".*");

    let expected = "#\n";

    assert_eq!(actual, expected);
}

#[test]
fn the_single_loop_file_produces_the_expected_tgf() {
    let actual = run_tgf(&[("loop", &["loop"])], ".*");

    let expected = "1 loop\n#\n1 1\n";

    assert_eq!(actual, expected);
}

#[test]
fn the_three_node_line_files_produces_the_expected_tgf() {
    let actual = run_tgf(&[("a", &["b"]), ("b", &["c"]), ("c", &[])], ".*");

    let expected = "1 a\n2 b\n3 c\n#\n1 2\n2 3\n";

    assert_eq!(actual, expected);
}

#[test]
fn the_deadly_diamond_files_produces_the_expected_tgf() {
    let actual = run_tgf(&[("a", &["b", "c"]), ("b", &["d"]), ("c", &["d"]), ("d", &[])], ".*");

    let expected = "1 a\n2 b\n3 c\n4 d\n#\n1 2\n1 3\n2 4\n3 4\n";

    assert_eq!(actual, expected);
}

#[test]
fn the_5_cell_files_produce_the_expected_tgf() {
    let all: &[&str] = &["a", "b", "c", "d", "e"];
    let actual = run_tgf(&[("e", all), ("c", all), ("a", all), ("d", all), ("b", all)], ".*");

    let expected = "1 a\n2 b\n3 c\n4 d\n5 e\n#\n\
1 1\n1 2\n1 3\n1 4\n1 5\n\
2 1\n2 2\n2 3\n2 4\n2 5\n\
3 1\n3 2\n3 3\n3 4\n3 5\n\
4 1\n4 2\n4 3\n4 4\n4 5\n\
5 1\n5 2\n5 3\n5 4\n5 5\n";

    assert_eq!(actual, expected);
}

/// AKA K3,3
#[test]
fn the_three_houses_files_produce_the_expected_edges() {
    let houses: &[&str] = &["1", "2", "3"];
    let utilities: &[&str] = &["a", "b", "c"];
    let actual = run_edges(
        &[("a", houses), ("1", utilities), ("b", houses), ("2", utilities), ("c", houses), ("3", utilities)],
        ".*",
    );

    let expected = edges(&[
        ("1", "a"),
        ("1", "b"),
        ("1", "c"),
        ("2", "a"),
        ("2", "b"),
        ("2", "c"),
        ("3", "a"),
        ("3", "b"),
        ("3", "c"),
        ("a", "1"),
        ("a", "2"),
        ("a", "3"),
        ("b", "1"),
        ("b", "2"),
        ("b", "3"),
        ("c", "1"),
        ("c", "2"),
        ("c", "3"),
    ]);

    assert_eq!(actual, expected);
}

#[test]
fn the_k2_2_files_produce_the_expected_edges() {
    let actual = run_edges(
        &[("b", &["2", "1"]), ("a", &["1", "2"]), ("2", &["b", "a"]), ("1", &["a", "b"])],
        ".*",
    );

    let expected = edges(&[
        ("1", "a"),
        ("1", "b"),
        ("2", "a"),
        ("2", "b"),
        ("a", "1"),
        ("a", "2"),
        ("b", "1"),
        ("b", "2"),
    ]);

    assert_eq!(actual, expected);
}

const FOUND_EXAMPLE_1: &[(&str, &[&str])] = &[
    ("pub_arb_text_buffer", &["text_buffer"]),
    ("pub_arb_std", &["proptest"]),
    ("pub_arb_rust_code", &["proptest", "macros", "proptest"]),
    ("pub_arb_platform_types", &["platform_types"]),
    ("pub_arb_g_i", &["proptest", "g_i"]),
];

#[test]
fn the_found_example_1_files_produce_the_expected_edges() {
    let actual = run_edges(FOUND_EXAMPLE_1, ".*");

    let expected = edges(&[
        ("pub_arb_g_i", "g_i"),
        ("pub_arb_g_i", "proptest"),
        ("pub_arb_platform_types", "platform_types"),
        ("pub_arb_rust_code", "macros"),
        ("pub_arb_rust_code", "proptest"),
        ("pub_arb_std", "proptest"),
        ("pub_arb_text_buffer", "text_buffer"),
    ]);

    assert_eq!(actual, expected);
}

#[test]
fn the_found_example_1_files_produces_a_tgf_with_the_expected_lines() {
    let actual = run_tgf(FOUND_EXAMPLE_1, ".*");

    let expected = "1 pub_arb_g_i
2 g_i
3 proptest
4 pub_arb_platform_types
5 platform_types
6 pub_arb_rust_code
7 macros
8 pub_arb_std
9 pub_arb_text_buffer
10 text_buffer
#
1 2
1 3
4 5
6 7
6 3
8 3
9 10
";

    assert_has_same_lines(&actual, expected);
}

#[test]
fn the_found_example_1_files_produce_the_exact_tgf() {
    let actual = run_tgf(FOUND_EXAMPLE_1, ".*");

    let expected = "2 g_i\n7 macros\n5 platform_types\n3 proptest\n1 pub_arb_g_i\n\
4 pub_arb_platform_types\n6 pub_arb_rust_code\n8 pub_arb_std\n9 pub_arb_text_buffer\n\
10 text_buffer\n#\n1 2\n1 3\n4 5\n6 7\n6 3\n8 3\n9 10\n";

    assert_eq!(actual, expected);
}

#[test]
fn a_multiple_store_keeps_repeated_lines() {
    let rules = Rules::compile(".*".to_string(), None, None, None, None, None, None, true, false).unwrap();
    let mut store = rules.new_store();
    let nodes = rules.file_nodes(None, Some("x"));
    rules.add_file_edges(&mut store, &nodes, &vec!["y".to_string(), "y".to_string()]);
    assert_eq!(get_tgf(&store.sorted_pairs()), "1 x\n2 y\n#\n1 2\n1 2\n");
}

#[test]
fn a_unique_store_from_rules_drops_repeated_lines() {
    let rules = rules_for(".*");
    let mut store: PairStore = rules.new_store();
    let nodes = rules.file_nodes(None, Some("x"));
    rules.add_file_edges(&mut store, &nodes, &vec!["y".to_string(), "y".to_string()]);
    assert_eq!(get_tgf(&store.sorted_pairs()), "1 x\n2 y\n#\n1 2\n");
}
