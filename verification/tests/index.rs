use graph_index::{GraphError, GraphIndex};

fn names(items: &[&str]) -> Vec<String> {
    items.iter().map(|s| s.to_string()).collect()
}

fn index_of(links: &[(&str, &str, &str)]) -> GraphIndex {
    let mut index = GraphIndex::new();
    for (source, target, kind) in links {
        assert_eq!(index.add_link(source, target, kind), Ok(()));
    }
    index
}

#[test]
fn test_graph_index_creation() {
    let graph = GraphIndex::new();
    assert!(graph.get_backlinks("test").is_empty());
}

#[test]
fn default_index_is_empty() {
    let graph = GraphIndex::default();
    assert!(graph.get_backlinks("a").is_empty());
    assert!(graph.get_neighborhood("a", 3).is_empty());
}

#[test]
fn empty_index_answers_nothing() {
    let graph = GraphIndex::new();
    assert_eq!(graph.get_backlinks("a"), Vec::<String>::new());
    assert_eq!(graph.get_neighborhood("a", 5), Vec::<String>::new());
}

#[test]
fn single_link() {
    let graph = index_of(&[("a", "b", "refs")]);
    assert_eq!(graph.get_backlinks("b"), names(&["a"]));
    assert_eq!(graph.get_backlinks("a"), Vec::<String>::new());
    assert_eq!(graph.get_neighborhood("a", 1), names(&["b"]));
    assert_eq!(graph.get_neighborhood("b", 1), Vec::<String>::new());
}

#[test]
fn idempotent_re_add() {
    let mut graph = GraphIndex::new();
    for _ in 0..3 {
        assert_eq!(graph.add_link("a", "b", "refs"), Ok(()));
    }
    assert_eq!(graph.get_backlinks("b"), names(&["a"]));
    assert_eq!(graph.get_backlinks("a"), Vec::<String>::new());
    assert_eq!(graph.get_neighborhood("a", 1), names(&["b"]));
    assert_eq!(graph.get_neighborhood("b", 1), Vec::<String>::new());
    assert_eq!(graph.store().forward_of("a").len(), 1);
    assert_eq!(graph.store().reverse_of("b").len(), 1);

    assert_eq!(graph.add_link("a", "b", "mentions"), Ok(()));
    assert_eq!(graph.get_backlinks("b"), names(&["a"]));
    let out = graph.store().forward_of("a");
    assert_eq!(out.len(), 2);
    assert_eq!((out[0].key(), out[0].peer(), out[0].kind()), ("a", "b", "mentions"));
    assert_eq!((out[1].key(), out[1].peer(), out[1].kind()), ("a", "b", "refs"));
    let back = graph.store().reverse_of("b");
    assert_eq!(back.len(), 2);
    assert_eq!((back[0].key(), back[0].peer(), back[0].kind()), ("b", "a", "mentions"));
    assert_eq!((back[1].key(), back[1].peer(), back[1].kind()), ("b", "a", "refs"));
}

#[test]
fn chain_and_depth_bound() {
    let graph = index_of(&[("a", "b", "next"), ("b", "c", "next"), ("c", "d", "next")]);
    assert_eq!(graph.get_neighborhood("a", 1), names(&["b"]));
    assert_eq!(graph.get_neighborhood("a", 2), names(&["b", "c"]));
    assert_eq!(graph.get_neighborhood("a", 3), names(&["b", "c", "d"]));
    assert_eq!(graph.get_neighborhood("a", 99), names(&["b", "c", "d"]));
    assert_eq!(graph.get_neighborhood("a", usize::MAX), names(&["b", "c", "d"]));
}

#[test]
fn cycle() {
    let graph = index_of(&[("a", "b", "next"), ("b", "a", "next")]);
    assert_eq!(graph.get_neighborhood("a", 10), names(&["b"]));
    assert_eq!(graph.get_backlinks("a"), names(&["b"]));
}

#[test]
fn fan_in_sort() {
    let graph = index_of(&[("z", "x", "refs"), ("m", "x", "refs"), ("a", "x", "refs")]);
    assert_eq!(graph.get_backlinks("x"), names(&["a", "m", "z"]));
}

#[test]
fn rejected_mutation() {
    let mut graph = GraphIndex::new();
    assert_eq!(graph.add_link("", "b", "k"), Err(GraphError::InvalidArgument));
    assert_eq!(graph.get_backlinks("b"), Vec::<String>::new());
}

#[test]
fn every_empty_argument_is_refused() {
    let mut graph = index_of(&[("a", "b", "refs")]);
    assert_eq!(graph.add_link("", "b", "k"), Err(GraphError::InvalidArgument));
    assert_eq!(graph.add_link("a", "", "k"), Err(GraphError::InvalidArgument));
    assert_eq!(graph.add_link("a", "b", ""), Err(GraphError::InvalidArgument));
    assert_eq!(graph.add_link("", "", ""), Err(GraphError::InvalidArgument));
    assert_eq!(graph.get_backlinks("b"), names(&["a"]));
    assert_eq!(graph.get_backlinks(""), Vec::<String>::new());
    assert_eq!(graph.get_neighborhood("a", 4), names(&["b"]));
    assert_eq!(graph.get_neighborhood("", 4), Vec::<String>::new());
    assert_eq!(graph.store().forward_of("a").len(), 1);
    assert_eq!(graph.store().forward_of("").len(), 0);
    assert_eq!(graph.store().reverse_of("").len(), 0);
}

#[test]
fn self_link_is_a_backlink_but_no_neighbor() {
    let graph = index_of(&[("x", "x", "self"), ("x", "y", "refs")]);
    assert_eq!(graph.get_backlinks("x"), names(&["x"]));
    assert_eq!(graph.get_neighborhood("x", 1), names(&["y"]));
    assert_eq!(graph.get_neighborhood("x", 7), names(&["y"]));
}

#[test]
fn backlinks_ignore_link_types() {
    let graph = index_of(&[
        ("p", "t", "refs"),
        ("p", "t", "mentions"),
        ("q", "t", "refs"),
        ("p", "t", "cites"),
        ("o", "t", "zeta"),
    ]);
    assert_eq!(graph.get_backlinks("t"), names(&["o", "p", "q"]));
}

#[test]
fn neighborhood_follows_forward_links_only() {
    let graph = index_of(&[("a", "b", "refs"), ("c", "a", "refs"), ("b", "d", "refs")]);
    assert_eq!(graph.get_neighborhood("a", 5), names(&["b", "d"]));
    assert_eq!(graph.get_neighborhood("d", 5), Vec::<String>::new());
    assert_eq!(graph.get_neighborhood("c", 1), names(&["a"]));
    assert_eq!(graph.get_neighborhood("c", 2), names(&["a", "b"]));
}

#[test]
fn neighborhood_counts_parallel_links_once() {
    let graph = index_of(&[("a", "b", "refs"), ("a", "b", "mentions"), ("a", "c", "refs")]);
    assert_eq!(graph.get_neighborhood("a", 1), names(&["b", "c"]));
}

#[test]
fn diamond_is_listed_once_per_entity() {
    let graph = index_of(&[
        ("root", "l", "e"),
        ("root", "r", "e"),
        ("l", "sink", "e"),
        ("r", "sink", "e"),
        ("sink", "root", "e"),
    ]);
    assert_eq!(graph.get_neighborhood("root", 1), names(&["l", "r"]));
    assert_eq!(graph.get_neighborhood("root", 2), names(&["l", "r", "sink"]));
    assert_eq!(graph.get_neighborhood("root", 3), names(&["l", "r", "sink"]));
    assert_eq!(graph.get_neighborhood("sink", 2), names(&["l", "r", "root"]));
}

#[test]
fn results_are_in_byte_order() {
    let graph = index_of(&[
        ("b", "t", "k"),
        ("B", "t", "k"),
        ("ab", "t", "k"),
        ("a", "t", "k"),
        ("\u{e9}", "t", "k"),
        ("z", "t", "k"),
        ("\u{1f600}", "t", "k"),
        ("\u{4e2d}", "t", "k"),
        ("10", "t", "k"),
        ("9", "t", "k"),
    ]);
    let got = graph.get_backlinks("t");
    assert_eq!(
        got,
        names(&["10", "9", "B", "a", "ab", "b", "z", "\u{e9}", "\u{4e2d}", "\u{1f600}"])
    );
    let mut sorted = got.clone();
    sorted.sort();
    assert_eq!(got, sorted);
}
