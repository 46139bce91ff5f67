//! Properties of the word graph, stated and proved once and for all.

use vstd::prelude::*;

use crate::dawg::Dawg;
use crate::node::DawgNode;
use crate::node::accepts;
use crate::node::edge_lookup;
use crate::node::fold_char;
use crate::node::label_matches;
use crate::node::lemma_lookup_target;
use crate::node::node_wf;
use crate::node::nodes_wf;
use crate::node::walk;

verus! {

/// No node of the graph carries two transition labels that fold to the
/// same character.  Words inserted in one consistent case satisfy this;
/// a lexicon mixing, say, an upper-case and a lower-case label on one
/// node does not, and case-insensitive lookups on such a node are only
/// resolved by first match.
pub open spec fn fold_unambiguous(nodes: Seq<DawgNode>) -> bool {
    forall|i: int, e1: int, e2: int|
        0 <= i < nodes.len() && 0 <= e1 < e2 < nodes[i].edges@.len() ==> fold_char(
            (#[trigger] nodes[i].edges@[e1]).0,
        ) != fold_char((#[trigger] nodes[i].edges@[e2]).0)
}

/// On a transition list whose labels fold pairwise differently, a
/// case-insensitive lookup of `q` finds exactly the transition that an
/// exact lookup of `c` finds, whenever `c` and `q` fold together.
proof fn lemma_ci_lookup(edges: Seq<(char, usize)>, c: char, q: char)
    requires
        forall|e1: int, e2: int|
            0 <= e1 < e2 < edges.len() ==> fold_char((#[trigger] edges[e1]).0) != fold_char(
                (#[trigger] edges[e2]).0,
            ),
        fold_char(c) == fold_char(q),
        edge_lookup(edges, c, true) is Some,
    ensures
        edge_lookup(edges, q, false) == edge_lookup(edges, c, true),
    decreases edges.len(),
{
    if label_matches(edges[0].0, c, true) {
        assert(label_matches(edges[0].0, q, false));
    } else {
        assert(!label_matches(edges[0].0, q, false)) by {
            if fold_char(edges[0].0) == fold_char(q) {
                lemma_lookup_target(edges.drop_first(), c, true);
                let j = choose|j: int|
                    0 <= j < edges.drop_first().len() && (#[trigger] edges.drop_first()[j]).1
                        == edge_lookup(edges.drop_first(), c, true)->Some_0 && label_matches(
                        edges.drop_first()[j].0,
                        c,
                        true,
                    );
                assert(edges[j + 1] == edges.drop_first()[j]);
                assert(fold_char(edges[j + 1].0) == fold_char(edges[0].0));
            }
        }
        assert(forall|e1: int, e2: int|
            0 <= e1 < e2 < edges.drop_first().len() ==> fold_char(
                (#[trigger] edges.drop_first()[e1]).0,
            ) != fold_char((#[trigger] edges.drop_first()[e2]).0));
        lemma_ci_lookup(edges.drop_first(), c, q);
    }
}

/// Case-insensitive completeness of the query engine: when no node of
/// the graph carries two labels that fold together, every word the graph
/// accepts exactly is also accepted case-insensitively, queried in any
/// casing that folds to the same characters.  In particular an
/// upper-cased query finds every lower-case word of the lexicon, and the
/// other way round.
pub proof fn lemma_case_insensitive_complete(
    nodes: Seq<DawgNode>,
    i: int,
    w: Seq<char>,
    q: Seq<char>,
)
    requires
        nodes_wf(nodes),
        fold_unambiguous(nodes),
        0 <= i < nodes.len(),
        w.len() == q.len(),
        forall|k: int| 0 <= k < w.len() ==> fold_char(w[k]) == fold_char(#[trigger] q[k]),
        accepts(nodes, i, w, true),
    ensures
        accepts(nodes, i, q, false),
    decreases w.len(),
{
    if w.len() == 0 {
    } else {
        let el = edge_lookup(nodes[i].edges@, w[0], true);
        assert(el is Some);
        let t = el->Some_0;
        assert((t as int) < nodes.len()) by {
            lemma_lookup_target(nodes[i].edges@, w[0], true);
            assert(node_wf(nodes, i));
        }
        assert(forall|e1: int, e2: int|
            0 <= e1 < e2 < nodes[i].edges@.len() ==> fold_char(
                (#[trigger] nodes[i].edges@[e1]).0,
            ) != fold_char((#[trigger] nodes[i].edges@[e2]).0));
        lemma_ci_lookup(nodes[i].edges@, w[0], q[0]);
        assert(walk(nodes, i, w, true) == walk(nodes, t as int, w.drop_first(), true));
        assert(forall|k: int|
            0 <= k < w.drop_first().len() ==> fold_char(w.drop_first()[k]) == fold_char(
                #[trigger] q.drop_first()[k],
            ));
        lemma_case_insensitive_complete(nodes, t as int, w.drop_first(), q.drop_first());
        assert(walk(nodes, i, q, false) == walk(nodes, t as int, q.drop_first(), false));
    }
}

/// A graph whose root has no transitions and is not terminal — a fresh
/// builder — accepts nothing at all.
pub proof fn lemma_empty_accepts_nothing(d: Dawg, w: Seq<char>, case_sensitive: bool)
    requires
        d.nodes@.len() >= 1,
        !d.nodes@[0].terminal,
        d.nodes@[0].edges@.len() == 0,
    ensures
        !accepts(d.nodes@, 0, w, case_sensitive),
{
    if w.len() > 0 {
        assert(edge_lookup(d.nodes@[0].edges@, w[0], case_sensitive) is None);
    }
}

/// The same law at the level of a whole graph: an exactly accepted word
/// is found by a case-insensitive query in any casing.
pub proof fn lemma_case_insensitive_query(d: Dawg, w: Seq<char>, q: Seq<char>)
    requires
        d.wf(),
        fold_unambiguous(d.nodes@),
        w.len() == q.len(),
        forall|k: int| 0 <= k < w.len() ==> fold_char(w[k]) == fold_char(#[trigger] q[k]),
        accepts(d.nodes@, d.root as int, w, true),
    ensures
        accepts(d.nodes@, d.root as int, q, false),
{
    lemma_case_insensitive_complete(d.nodes@, d.root as int, w, q);
}

} // verus!
