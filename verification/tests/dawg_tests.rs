use dawg::dawg::Dawg;
use dawg::dawg::DawgError;
use dawg::node::DawgNode;
use dawg::node::SearchRes;
use dawg::node::TriDawg;
use dawg::utils::Utils;

fn build(words: &[&str]) -> Dawg {
    let mut d = Dawg::new();
    for w in words {
        d.add(w.to_string()).unwrap();
    }
    d.finish();
    d
}

/// Indices of the nodes reachable from the root, found by a walk over the
/// public arena.
fn reachable_nodes(d: &Dawg) -> Vec<usize> {
    let mut seen = vec![false; d.nodes.len()];
    let mut stack = vec![d.root];
    seen[d.root] = true;
    let mut out = Vec::new();
    while let Some(i) = stack.pop() {
        out.push(i);
        for &(_, t) in &d.nodes[i].edges {
            if !seen[t] {
                seen[t] = true;
                stack.push(t);
            }
        }
    }
    out
}

#[test]
fn scenario_cat_cats_dog() {
    let d = build(&["cat", "cats", "dog"]);
    assert!(d.contains_word("cat", true));
    assert!(!d.contains_word("ca", true));
    assert!(d.contains_prefix("ca", true));
    assert!(d.contains_word("cats", true));
    assert!(!d.contains_word("dogs", true));
    assert_eq!(d.word_count(), 3);
}

#[test]
fn shared_suffix_is_one_node() {
    let d = build(&["bat", "cat"]);
    // the whole suffix chain "at" is shared: the walks from the `b` and
    // `c` transitions land on the same node instances
    assert_eq!(d.lookup("b".to_string(), true), d.lookup("c".to_string(), true));
    assert_eq!(d.lookup("ba".to_string(), true), d.lookup("ca".to_string(), true));
    assert_eq!(d.lookup("bat".to_string(), true), d.lookup("cat".to_string(), true));
    assert!(d.lookup("bat".to_string(), true).is_some());
}

#[test]
fn unsorted_insertion_is_rejected() {
    let mut d = Dawg::new();
    assert_eq!(d.add("c".to_string()), Ok(()));
    assert_eq!(d.add("b".to_string()), Err(DawgError::OrderingViolation));
    // the rejected word leaves no trace
    d.finish();
    assert!(d.contains_word("c", true));
    assert!(!d.contains_word("b", true));
    assert_eq!(d.word_count(), 1);
}

#[test]
fn empty_word_is_rejected() {
    let mut d = Dawg::new();
    assert_eq!(d.add(String::new()), Err(DawgError::EmptyWord));
    d.finish();
    assert!(!d.contains_word("", true));
    assert!(d.contains_prefix("", true));
    assert_eq!(d.word_count(), 0);
}

#[test]
fn add_after_finish_is_rejected() {
    let mut d = Dawg::new();
    assert_eq!(d.add("ab".to_string()), Ok(()));
    d.finish();
    assert_eq!(d.add("cd".to_string()), Err(DawgError::Finalized));
    assert!(!d.contains_word("cd", true));
}

#[test]
fn membership_exactly_the_inserted_words() {
    let words = ["apple", "apply", "band", "bandana", "bank"];
    let d = build(&words);
    for w in words {
        assert!(d.contains_word(w, true), "missing {w}");
        assert_eq!(d.is_word(w.to_string(), true), Some(w.to_string()));
    }
    for w in ["app", "appl", "applyx", "ban", "banda", "bandanas", "c", ""] {
        assert!(!d.contains_word(w, true), "phantom {w}");
        assert_eq!(d.is_word(w.to_string(), true), None);
    }
    assert_eq!(d.word_count(), words.len());
}

#[test]
fn case_insensitive_queries() {
    let d = build(&["cat", "dog"]);
    assert!(d.contains_word("CAT", false));
    assert!(d.contains_word("cAt", false));
    assert!(d.contains_word("DOG", false));
    assert!(!d.contains_word("CAT", true));
    assert_eq!(d.is_word("CAT".to_string(), false), Some("CAT".to_string()));
    assert!(d.contains_prefix("CA", false));
    assert!(!d.contains_prefix("CA", true));
}

#[test]
fn node_count_at_most_trie() {
    // suffix sharing: the trie for bat/cat has 7 nodes, the graph fewer
    let d = build(&["bat", "cat"]);
    let live = reachable_nodes(&d).len();
    assert!(live <= 7);
    assert!(live < 7);
    assert_eq!(live, 4);
    // no sharing at all: one word keeps exactly its trie path
    let d2 = build(&["ab"]);
    assert_eq!(reachable_nodes(&d2).len(), 3);
}

#[test]
fn finish_twice_changes_nothing() {
    let mut d = Dawg::new();
    for w in ["cat", "cats", "dog"] {
        d.add(w.to_string()).unwrap();
    }
    d.finish();
    let count_before = d.word_count();
    let node_counts_before: Vec<usize> =
        d.nodes.iter().map(|n| n.num_reachable()).collect();
    let hits_before: Vec<bool> =
        ["cat", "ca", "cats", "dog", "dogs"].iter().map(|w| d.contains_word(w, true)).collect();
    d.finish();
    let node_counts_after: Vec<usize> =
        d.nodes.iter().map(|n| n.num_reachable()).collect();
    let hits_after: Vec<bool> =
        ["cat", "ca", "cats", "dog", "dogs"].iter().map(|w| d.contains_word(w, true)).collect();
    assert_eq!(d.word_count(), count_before);
    assert_eq!(node_counts_before, node_counts_after);
    assert_eq!(hits_before, hits_after);
}

#[test]
fn root_count_is_number_of_distinct_words() {
    let d = build(&["a", "b", "c"]);
    assert_eq!(d.word_count(), 3);
    // a duplicate word is not counted twice
    let d2 = build(&["cat", "cat"]);
    assert_eq!(d2.word_count(), 1);
    assert_eq!(d2.nodes[d2.root].num_reachable(), 1);
}

#[test]
fn counts_satisfy_the_recurrence() {
    let d = build(&["bat", "bats", "cat", "cats", "dog"]);
    assert_eq!(d.word_count(), 5);
    for i in reachable_nodes(&d) {
        let n = &d.nodes[i];
        let expect: usize = (if n.terminal { 1 } else { 0 })
            + n.edges.iter().map(|&(_, t)| d.nodes[t].count).sum::<usize>();
        assert_eq!(n.count, expect, "count recurrence at node {i}");
    }
}

#[test]
fn prefix_versus_word() {
    let d = build(&["dog"]);
    assert!(d.contains_prefix("do", true));
    assert!(!d.contains_word("do", true));
    assert_eq!(d.is_word("do".to_string(), true), None);
    assert!(d.lookup("do".to_string(), true).is_some());
    assert!(d.lookup("dox".to_string(), true).is_none());
}

#[test]
fn minimize_mid_build_keeps_words() {
    let mut d = Dawg::new();
    d.add("ab".to_string()).unwrap();
    d.minimize(0);
    d.finish();
    assert!(d.contains_word("ab", true));
    assert_eq!(d.word_count(), 1);
}

#[test]
fn duplicate_words_are_idempotent() {
    let mut d = Dawg::new();
    assert_eq!(d.add("cat".to_string()), Ok(()));
    let nodes_before = d.nodes.len();
    assert_eq!(d.add("cat".to_string()), Ok(()));
    // a duplicate of the word just inserted creates no node
    assert_eq!(d.nodes.len(), nodes_before);
    assert_eq!(d.add("cats".to_string()), Ok(()));
    // only the unshared suffix "s" needed a node
    assert_eq!(d.nodes.len(), nodes_before + 1);
    d.finish();
    assert!(d.contains_word("cat", true));
    assert!(d.contains_word("cats", true));
    assert_eq!(d.word_count(), 2);
}

#[test]
fn split_to_vec_yields_scalar_values() {
    assert_eq!(Utils::split_to_vec("abc"), vec!['a', 'b', 'c']);
    assert_eq!(Utils::split_to_vec(""), Vec::<char>::new());
    assert_eq!(Utils::split_to_vec("naïve"), vec!['n', 'a', 'ï', 'v', 'e']);
}

#[test]
fn word_order_helpers() {
    let a = Utils::split_to_vec("abc");
    let b = Utils::split_to_vec("abd");
    assert!(Utils::word_lt(&a, &b));
    assert!(!Utils::word_lt(&b, &a));
    assert!(!Utils::word_lt(&a, &a));
    assert!(Utils::word_lt(&Utils::split_to_vec("ab"), &a));
    assert_eq!(Utils::common_prefix_len(&a, &b), 2);
    assert_eq!(Utils::common_prefix_len(&a, &a), 3);
    assert_eq!(Utils::common_prefix_len(&a, &Utils::split_to_vec("")), 0);
}

#[test]
fn node_and_frontier_constructors() {
    let n = DawgNode::new(7);
    assert_eq!(n.id, 7);
    assert!(!n.terminal);
    assert!(n.edges.is_empty());
    assert_eq!(n.num_reachable(), 0);
    let t = TriDawg::new(0, 'x', 1);
    assert_eq!((t.parent, t.letter, t.child), (0, 'x', 1));
    let s = SearchRes::new(3, "cat".to_string());
    assert_eq!(s.node, 3);
    assert_eq!(s.word, "cat");
}

#[test]
fn case_insensitive_first_match_resolution() {
    // two root labels fold together: a case-insensitive walk follows the
    // first matching label in sorted order ('A' before 'a'), so it dives
    // into the upper-case branch and misses the lower-case word
    let d = build(&["AX", "ab"]);
    assert!(d.contains_word("ab", true));
    assert!(!d.contains_word("ab", false));
    assert!(d.contains_word("Ax", false));
    // with labels in one consistent case the insensitive query finds
    // every word, in any casing
    let d2 = build(&["ab", "ax"]);
    assert!(d2.contains_word("AB", false));
    assert!(d2.contains_word("aX", false));
}

#[test]
fn unicode_words() {
    let d = build(&["grün", "grüße"]);
    // sorted: 'n' < 'ß' in scalar-value order
    assert!(d.contains_word("grün", true));
    assert!(d.contains_word("grüße", true));
    assert!(!d.contains_word("grü", true));
    assert!(d.contains_prefix("grü", true));
    assert_eq!(d.word_count(), 2);
}
