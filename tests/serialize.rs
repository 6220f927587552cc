use file_tgf::pair_store::PairStore;
use file_tgf::tgf::get_tgf;

fn pairs(ps: &[(&str, &str)]) -> Vec<(String, String)> {
    ps.iter().map(|(a, b)| (a.to_string(), b.to_string())).collect()
}

fn finalize(mut store: PairStore, ps: &[(&str, &str)]) -> Vec<(String, String)> {
    for (a, b) in ps {
        store.add_pair(a.to_string(), b.to_string());
    }
    store.sorted_pairs()
}

#[test]
fn no_edges_give_only_the_separator() {
    assert_eq!(get_tgf(&Vec::new()), "#\n");
    assert_eq!(get_tgf(&PairStore::new().sorted_pairs()), "#\n");
    assert_eq!(get_tgf(&PairStore::new_multiple().sorted_pairs()), "#\n");
}

#[test]
fn a_chain_in_either_insertion_order() {
    let expected = "1 a\n2 b\n3 c\n#\n1 2\n2 3\n";
    let forward = finalize(PairStore::new(), &[("a", "b"), ("b", "c")]);
    let backward = finalize(PairStore::new(), &[("b", "c"), ("a", "b")]);
    assert_eq!(forward, pairs(&[("a", "b"), ("b", "c")]));
    assert_eq!(backward, forward);
    assert_eq!(get_tgf(&forward), expected);
    assert_eq!(get_tgf(&backward), expected);
}

#[test]
fn a_self_loop_shares_its_label() {
    let edges = finalize(PairStore::new(), &[("loop", "loop")]);
    assert_eq!(get_tgf(&edges), "1 loop\n#\n1 1\n");
}

#[test]
fn the_deadly_diamond() {
    let edges = finalize(PairStore::new(), &[("c", "d"), ("b", "d"), ("a", "c"), ("a", "b")]);
    assert_eq!(get_tgf(&edges), "1 a\n2 b\n3 c\n4 d\n#\n1 2\n1 3\n2 4\n3 4\n");
}

#[test]
fn a_multiple_store_keeps_both_copies() {
    let edges = finalize(PairStore::new_multiple(), &[("x", "y"), ("x", "y")]);
    assert_eq!(edges, pairs(&[("x", "y"), ("x", "y")]));
    assert_eq!(get_tgf(&edges), "1 x\n2 y\n#\n1 2\n1 2\n");
}

#[test]
fn a_unique_store_keeps_one_copy() {
    let edges = finalize(PairStore::new(), &[("x", "y"), ("x", "y")]);
    assert_eq!(edges, pairs(&[("x", "y")]));
    assert_eq!(get_tgf(&edges), "1 x\n2 y\n#\n1 2\n");
}

#[test]
fn labels_follow_first_appearance_not_the_alphabet() {
    let edges = finalize(PairStore::new(), &[("b", "a")]);
    assert_eq!(get_tgf(&edges), "2 a\n1 b\n#\n1 2\n");
}

#[test]
fn serializing_twice_gives_the_same_text() {
    let edges = finalize(PairStore::new(), &[("m", "k"), ("k", "z"), ("a", "m")]);
    assert_eq!(get_tgf(&edges), get_tgf(&edges));
    assert_eq!(get_tgf(&edges), "1 a\n3 k\n2 m\n4 z\n#\n1 2\n3 4\n2 3\n");
}

#[test]
fn node_lines_are_sorted_and_labels_distinct() {
    let edges = finalize(
        PairStore::new(),
        &[("q", "b"), ("zeta", "alpha"), ("b", "q"), ("alpha", "alpha"), ("B", "é")],
    );
    let text = get_tgf(&edges);
    let (nodes, edge_part) = text.split_once("#\n").unwrap();
    let entries: Vec<(&str, &str)> = nodes.lines().map(|l| l.split_once(' ').unwrap()).collect();
    let ids: Vec<&str> = entries.iter().map(|e| e.1).collect();
    let mut sorted = ids.clone();
    sorted.sort();
    assert_eq!(ids, sorted);
    let labels: std::collections::HashSet<&str> = entries.iter().map(|e| e.0).collect();
    assert_eq!(labels.len(), entries.len());
    for line in edge_part.lines() {
        let (a, b) = line.split_once(' ').unwrap();
        assert!(labels.contains(a) && labels.contains(b));
    }
}

#[test]
fn sorting_compares_source_then_target() {
    let edges = finalize(PairStore::new_multiple(), &[("b", "a"), ("a", "c"), ("ab", "a"), ("a", "b"), ("a", "c")]);
    assert_eq!(edges, pairs(&[("a", "b"), ("a", "c"), ("a", "c"), ("ab", "a"), ("b", "a")]));
}

#[test]
fn many_nodes_get_labels_of_several_digits() {
    let mut store = PairStore::new();
    for i in 0..12 {
        store.add_pair("hub".to_string(), format!("n{:02}", i));
    }
    let text = get_tgf(&store.sorted_pairs());
    assert!(text.starts_with("1 hub\n2 n00\n"));
    assert!(text.contains("13 n11\n"));
    assert!(text.ends_with("1 12\n1 13\n"));
}
