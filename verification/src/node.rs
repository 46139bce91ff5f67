//! Automaton nodes and the specification of the graph they form.
//!
//! A node is one state of the automaton.  Its transitions are kept as a
//! vector of `(label, child index)` pairs whose labels are strictly
//! increasing, so every label occurs at most once per node.  Labels are
//! Unicode scalar values (`char`); a word is split into scalar values
//! before it is inserted or looked up.

use vstd::prelude::*;
use vstd::relations::injective_on;
use vstd::set_lib::lemma_map_size;

verus! {

/// One state of the automaton.
pub struct DawgNode {
    /// Index of this node in the arena that owns it.
    pub id: usize,
    /// True if some inserted word ends at this node.
    pub terminal: bool,
    /// Transitions: `(label, child index)`, labels strictly increasing.
    pub edges: Vec<(char, usize)>,
    /// Number of accepted words in the subgraph rooted here, clamped to
    /// `usize::MAX`; valid once the finalizer has run.
    pub count: usize,
}

/// One transition of the unchecked frontier: `parent --letter--> child`.
#[derive(Clone, Copy)]
pub struct TriDawg {
    /// Arena index of the source node.
    pub parent: usize,
    /// Transition label.
    pub letter: char,
    /// Arena index of the target node.
    pub child: usize,
}

/// Result of a successful traversal: the node reached and the word walked.
pub struct SearchRes {
    /// Arena index of the node the traversal ended at.
    pub node: usize,
    /// The word that was walked.
    pub word: String,
}

impl DawgNode {
    /// A fresh node: no transitions, not terminal, count not yet computed.
    pub fn new(id: usize) -> (r: Self)
        ensures
            r.id == id,
            !r.terminal,
            r.edges@ =~= Seq::<(char, usize)>::empty(),
            r.count == 0,
    {
        Self { id, terminal: false, edges: Vec::new(), count: 0 }
    }

    /// The number of accepted words reachable from this node, as computed
    /// by the finalizer (zero until then).
    pub fn num_reachable(&self) -> (r: usize)
        ensures
            r == self.count,
    {
        self.count
    }
}

impl TriDawg {
    /// An unchecked transition `parent --letter--> child`.
    pub fn new(parent: usize, letter: char, child: usize) -> (r: Self)
        ensures
            r.parent == parent,
            r.letter == letter,
            r.child == child,
    {
        Self { parent, letter, child }
    }
}

impl SearchRes {
    /// Pairs the node a traversal reached with the word it walked.
    pub fn new(node: usize, word: String) -> (r: Self)
        ensures
            r.node == node,
            r.word@ == word@,
    {
        Self { node, word }
    }
}

/// Case folding used by case-insensitive matching: ASCII lower-case
/// letters are mapped to their upper-case counterpart, every other scalar
/// value stands for itself.  This is a deliberate choice: folding by full
/// Unicode upper-casing would be locale-independent but one-to-many, and
/// the graph's labels are single scalar values, so queries over non-ASCII
/// cased letters match exactly.
pub open spec fn fold_char(c: char) -> u32 {
    if 97 <= c as u32 && c as u32 <= 122 {
        (c as u32 - 32) as u32
    } else {
        c as u32
    }
}

/// Whether a transition label matches a query character, exactly or up to
/// case folding.
pub open spec fn label_matches(l: char, c: char, case_sensitive: bool) -> bool {
    if case_sensitive {
        l == c
    } else {
        fold_char(l) == fold_char(c)
    }
}

/// The child reached from a transition list by the first label matching
/// `c`, if any.
pub open spec fn edge_lookup(edges: Seq<(char, usize)>, c: char, case_sensitive: bool) -> Option<
    usize,
>
    decreases edges.len(),
{
    if edges.len() == 0 {
        None
    } else if label_matches(edges[0].0, c, case_sensitive) {
        Some(edges[0].1)
    } else {
        edge_lookup(edges.drop_first(), c, case_sensitive)
    }
}

/// The node reached by walking `w` from node `i`, if every step has a
/// matching transition.
pub open spec fn walk(nodes: Seq<DawgNode>, i: int, w: Seq<char>, case_sensitive: bool) -> Option<
    int,
>
    decreases w.len(),
{
    if w.len() == 0 {
        Some(i)
    } else {
        match edge_lookup(nodes[i].edges@, w[0], case_sensitive) {
            Some(t) => walk(nodes, t as int, w.drop_first(), case_sensitive),
            None => None,
        }
    }
}

/// Whether the automaton rooted at node `i` accepts the word `w`: the walk
/// completes and ends at a terminal node.
pub open spec fn accepts(nodes: Seq<DawgNode>, i: int, w: Seq<char>, case_sensitive: bool) -> bool {
    match walk(nodes, i, w, case_sensitive) {
        Some(j) => 0 <= j < nodes.len() && nodes[j].terminal,
        None => false,
    }
}

/// Sum of the counts stored at the targets of a transition list.
pub open spec fn sum_counts(nodes: Seq<DawgNode>, edges: Seq<(char, usize)>) -> int
    decreases edges.len(),
{
    if edges.len() == 0 {
        0
    } else {
        sum_counts(nodes, edges.drop_last()) + nodes[edges.last().1 as int].count
    }
}

/// An integer clamped to the range of `usize`.
pub open spec fn clamp_usize(x: int) -> int {
    if x > usize::MAX {
        usize::MAX as int
    } else {
        x
    }
}

/// The count stored at node `i` is the number of accepted words rooted
/// there, by the local recurrence: one if terminal, plus the counts of all
/// children (clamped to `usize`).
pub open spec fn count_ok(nodes: Seq<DawgNode>, i: int) -> bool {
    nodes[i].count == clamp_usize(
        (if nodes[i].terminal {
            1int
        } else {
            0int
        }) + sum_counts(nodes, nodes[i].edges@),
    )
}

/// Labels of a transition list are strictly increasing, so no label
/// occurs twice.
pub open spec fn edges_sorted(edges: Seq<(char, usize)>) -> bool {
    forall|e1: int, e2: int|
        0 <= e1 < e2 < edges.len() ==> ((#[trigger] edges[e1]).0 as u32) < ((
        #[trigger] edges[e2]).0 as u32)
}

/// Local well-formedness of node `i`: it knows its own index, every
/// transition stays inside the arena, and labels are strictly increasing.
pub open spec fn node_wf(nodes: Seq<DawgNode>, i: int) -> bool {
    &&& nodes[i].id == i
    &&& forall|e: int|
        0 <= e < nodes[i].edges@.len() ==> (#[trigger] nodes[i].edges@[e]).1 < nodes.len()
    &&& edges_sorted(nodes[i].edges@)
}

/// Well-formedness of the whole arena.
pub open spec fn nodes_wf(nodes: Seq<DawgNode>) -> bool {
    forall|i: int| 0 <= i < nodes.len() ==> #[trigger] node_wf(nodes, i)
}

/// Two nodes carry the same signature: same terminal flag and the same
/// transition list.  Signature equality is the merge criterion of the
/// node store.
pub open spec fn sig_eq(a: DawgNode, b: DawgNode) -> bool {
    a.terminal == b.terminal && a.edges@ == b.edges@
}

/// Two scalar values with the same numeric value are the same character.
pub proof fn lemma_char_u32_injective(a: char, b: char)
    requires
        a as u32 == b as u32,
    ensures
        a == b,
{
}

/// Case folding, executable form.
pub fn fold_label(c: char) -> (r: u32)
    ensures
        r == fold_char(c),
{
    let u = c as u32;
    if 97 <= u && u <= 122 {
        u - 32
    } else {
        u
    }
}

/// Whether a transition label matches a query character, executable form.
pub fn label_match(l: char, c: char, case_sensitive: bool) -> (r: bool)
    ensures
        r == label_matches(l, c, case_sensitive),
{
    if case_sensitive {
        l == c
    } else {
        fold_label(l) == fold_label(c)
    }
}

/// Looks a character up in a transition list, returning the child of the
/// first matching label.
pub fn find_edge(edges: &Vec<(char, usize)>, c: char, case_sensitive: bool) -> (r: Option<usize>)
    ensures
        r == edge_lookup(edges@, c, case_sensitive),
{
    let mut i: usize = 0;
    proof {
        assert(edges@.skip(0) =~= edges@);
    }
    while i < edges.len()
        invariant
            i <= edges@.len(),
            edge_lookup(edges@, c, case_sensitive) == edge_lookup(
                edges@.skip(i as int),
                c,
                case_sensitive,
            ),
        decreases edges@.len() - i,
    {
        let l = edges[i].0;
        let t = edges[i].1;
        proof {
            assert(edges@.skip(i as int)[0] == edges@[i as int]);
        }
        if label_match(l, c, case_sensitive) {
            return Some(t);
        }
        proof {
            assert(edges@.skip(i as int).drop_first() =~= edges@.skip(i + 1));
        }
        i = i + 1;
    }
    proof {
        assert(edges@.skip(i as int).len() == 0);
    }
    None
}

/// In a sorted transition list, an exact lookup finds the unique pair with
/// the looked-up label, and fails exactly when no pair has it.
pub proof fn lemma_lookup_exact(edges: Seq<(char, usize)>, c: char)
    requires
        edges_sorted(edges),
    ensures
        match edge_lookup(edges, c, true) {
            Some(t) => edges.contains((c, t)) && forall|j: int|
                0 <= j < edges.len() && (#[trigger] edges[j]).0 == c ==> edges[j].1 == t,
            None => forall|j: int| 0 <= j < edges.len() ==> (#[trigger] edges[j]).0 != c,
        },
    decreases edges.len(),
{
    if edges.len() == 0 {
    } else if edges[0].0 == c {
        assert(edges.contains((c, edges[0].1)));
        assert forall|j: int| 0 <= j < edges.len() && (#[trigger] edges[j]).0 == c implies edges[j].1
            == edge_lookup(edges, c, true)->Some_0 by {
            if j > 0 {
                assert((edges[0].0 as u32) < (edges[j].0 as u32));
            }
        }
    } else {
        let tail = edges.drop_first();
        assert(forall|e1: int, e2: int|
            0 <= e1 < e2 < tail.len() ==> ((#[trigger] tail[e1]).0 as u32) < ((
            #[trigger] tail[e2]).0 as u32));
        lemma_lookup_exact(tail, c);
        match edge_lookup(edges, c, true) {
            Some(t) => {
                let j = choose|j: int| 0 <= j < tail.len() && tail[j] == (c, t);
                assert(edges[j + 1] == (c, t));
                assert(edges.contains((c, t)));
                assert forall|j2: int|
                    0 <= j2 < edges.len() && (#[trigger] edges[j2]).0 == c implies edges[j2].1
                    == t by {
                    assert(j2 >= 1);
                    assert(tail[j2 - 1] == edges[j2]);
                }
            },
            None => {
                assert forall|j: int| 0 <= j < edges.len() implies (#[trigger] edges[j]).0 != c by {
                    if j >= 1 {
                        assert(tail[j - 1] == edges[j]);
                    }
                }
            },
        }
    }
}

/// A successful lookup returns the child stored at some position of the
/// transition list.
pub proof fn lemma_lookup_target(edges: Seq<(char, usize)>, c: char, case_sensitive: bool)
    requires
        edge_lookup(edges, c, case_sensitive) is Some,
    ensures
        exists|j: int|
            0 <= j < edges.len() && (#[trigger] edges[j]).1 == edge_lookup(
                edges,
                c,
                case_sensitive,
            )->Some_0 && label_matches(edges[j].0, c, case_sensitive),
    decreases edges.len(),
{
    if label_matches(edges[0].0, c, case_sensitive) {
        assert(edges[0].1 == edge_lookup(edges, c, case_sensitive)->Some_0);
    } else {
        lemma_lookup_target(edges.drop_first(), c, case_sensitive);
        let j = choose|j: int|
            0 <= j < edges.drop_first().len() && (#[trigger] edges.drop_first()[j]).1
                == edge_lookup(edges.drop_first(), c, case_sensitive)->Some_0 && label_matches(
                edges.drop_first()[j].0,
                c,
                case_sensitive,
            );
        assert(edges[j + 1] == edges.drop_first()[j]);
        assert(edges[j + 1].1 == edge_lookup(edges, c, case_sensitive)->Some_0);
    }
}

/// Inserts or replaces the transition for label `c`, keeping the list
/// sorted: the single merge-or-extend point through which every edge of
/// the graph is written.
pub fn insert_edge(edges: &mut Vec<(char, usize)>, c: char, t: usize)
    requires
        edges_sorted(old(edges)@),
    ensures
        edges_sorted(final (edges)@),
        edge_lookup(final (edges)@, c, true) == Some(t),
        final (edges)@.contains((c, t)),
        forall|p: (char, usize)| #[trigger]
            final (edges)@.contains(p) ==> p == (c, t) || (old(edges)@.contains(p) && p.0 != c),
        forall|p: (char, usize)| #[trigger]
            old(edges)@.contains(p) && p.0 != c ==> final (edges)@.contains(p),
        forall|c2: char|
            c2 != c ==> #[trigger] edge_lookup(final (edges)@, c2, true) == edge_lookup(
                old(edges)@,
                c2,
                true,
            ),
        // when the label was already present, the list is rewritten in
        // place: labels keep their positions, only the label's target moves
        edge_lookup(old(edges)@, c, true) is Some ==> final (edges)@.len() == old(edges)@.len()
            && forall|j: int|
            0 <= j < old(edges)@.len() ==> (#[trigger] final (edges)@[j]).0 == old(edges)@[j].0 && (
            old(edges)@[j].0 != c ==> final (edges)@[j] == old(edges)@[j]) && (old(edges)@[j].0 == c
                ==> final (edges)@[j] == (c, t)),
{
    let ghost orig = edges@;
    let mut i: usize = 0;
    loop
        invariant
            i <= edges@.len(),
            edges@ == orig,
            forall|j: int| 0 <= j < i ==> ((#[trigger] edges@[j]).0 as u32) < (c as u32),
        ensures
            i <= edges@.len(),
            edges@ == orig,
            forall|j: int| 0 <= j < i ==> ((#[trigger] edges@[j]).0 as u32) < (c as u32),
            i < edges@.len() ==> ((edges@[i as int].0 as u32) >= (c as u32)),
        decreases edges@.len() - i,
    {
        if i == edges.len() {
            break;
        }
        if (edges[i].0 as u32) >= (c as u32) {
            break;
        }
        i = i + 1;
    }
    if i < edges.len() && edges[i].0 == c {
        edges[i] = (c, t);
        proof {
            lemma_insert_edge_post_replace(orig, edges@, c, t, i as int);
        }
    } else {
        proof {
            assert forall|j: int| i <= j < orig.len() implies ((#[trigger] orig[j]).0 as u32) > (c
                as u32) by {
                assert((orig[i as int].0 as u32) >= (c as u32));
                assert(orig[i as int].0 != c);
                if (orig[i as int].0 as u32) == (c as u32) {
                    lemma_char_u32_injective(orig[i as int].0, c);
                }
                if j > i {
                    assert((orig[i as int].0 as u32) < (orig[j].0 as u32));
                }
            }
        }
        edges.insert(i, (c, t));
        proof {
            lemma_insert_edge_post_insert(orig, edges@, c, t, i as int);
        }
    }
}

/// After replacing the pair at position `i` (which already carried label
/// `c`), the contract of `insert_edge` holds.
proof fn lemma_insert_edge_post_replace(
    orig: Seq<(char, usize)>,
    cur: Seq<(char, usize)>,
    c: char,
    t: usize,
    i: int,
)
    requires
        edges_sorted(orig),
        0 <= i < orig.len(),
        orig[i].0 == c,
        cur == orig.update(i, (c, t)),
    ensures
        edges_sorted(cur),
        edge_lookup(cur, c, true) == Some(t),
        cur.contains((c, t)),
        forall|p: (char, usize)| #[trigger]
            cur.contains(p) ==> p == (c, t) || (orig.contains(p) && p.0 != c),
        forall|p: (char, usize)| #[trigger] orig.contains(p) && p.0 != c ==> cur.contains(p),
        forall|c2: char|
            c2 != c ==> #[trigger] edge_lookup(cur, c2, true) == edge_lookup(orig, c2, true),
        cur.len() == orig.len(),
        forall|j: int|
            0 <= j < orig.len() ==> (#[trigger] cur[j]).0 == orig[j].0 && (orig[j].0 != c ==> cur[j]
                == orig[j]) && (orig[j].0 == c ==> cur[j] == (c, t)),
{
    assert forall|j: int| 0 <= j < orig.len() && (#[trigger] orig[j]).0 == c implies j == i by {
        if j < i {
            assert((orig[j].0 as u32) < (orig[i].0 as u32));
        } else if j > i {
            assert((orig[i].0 as u32) < (orig[j].0 as u32));
        }
    }
    assert(forall|j: int| 0 <= j < cur.len() ==> (#[trigger] cur[j]).0 == orig[j].0);
    assert(edges_sorted(cur));
    assert(cur[i] == (c, t));
    assert(cur.contains((c, t)));
    lemma_lookup_exact(cur, c);
    assert forall|p: (char, usize)| #[trigger]
        cur.contains(p) implies p == (c, t) || (orig.contains(p) && p.0 != c) by {
        let j = choose|j: int| 0 <= j < cur.len() && cur[j] == p;
        if j == i {
        } else {
            assert(orig[j] == p);
            assert(orig.contains(p));
            if p.0 == c {
                if j < i {
                    assert((orig[j].0 as u32) < (orig[i].0 as u32));
                } else {
                    assert((orig[i].0 as u32) < (orig[j].0 as u32));
                }
                assert(false);
            }
        }
    }
    assert forall|p: (char, usize)| #[trigger]
        orig.contains(p) && p.0 != c implies cur.contains(p) by {
        let j = choose|j: int| 0 <= j < orig.len() && orig[j] == p;
        assert(j != i);
        assert(cur[j] == p);
    }
    assert forall|c2: char| c2 != c implies #[trigger] edge_lookup(cur, c2, true) == edge_lookup(
        orig,
        c2,
        true,
    ) by {
        lemma_lookup_exact(cur, c2);
        lemma_lookup_exact(orig, c2);
        match edge_lookup(orig, c2, true) {
            Some(t2) => {
                let j = choose|j: int| 0 <= j < orig.len() && orig[j] == (c2, t2);
                assert(j != i);
                assert(cur[j] == (c2, t2));
                assert(cur.contains((c2, t2)));
                match edge_lookup(cur, c2, true) {
                    Some(t3) => {
                        assert(cur[j].1 == t3);
                    },
                    None => {
                        assert(false);
                    },
                }
            },
            None => {
                match edge_lookup(cur, c2, true) {
                    Some(t3) => {
                        let j = choose|j: int| 0 <= j < cur.len() && cur[j] == (c2, t3);
                        assert(j != i);
                        assert(orig[j] == (c2, t3));
                        assert(false);
                    },
                    None => {},
                }
            },
        }
    }
}

/// After inserting a pair with a label absent from the list, at the
/// position that keeps labels increasing, the contract of `insert_edge`
/// holds.
proof fn lemma_insert_edge_post_insert(
    orig: Seq<(char, usize)>,
    cur: Seq<(char, usize)>,
    c: char,
    t: usize,
    i: int,
)
    requires
        edges_sorted(orig),
        0 <= i <= orig.len(),
        forall|j: int| 0 <= j < i ==> ((#[trigger] orig[j]).0 as u32) < (c as u32),
        forall|j: int| i <= j < orig.len() ==> ((#[trigger] orig[j]).0 as u32) > (c as u32),
        cur == orig.insert(i, (c, t)),
    ensures
        edges_sorted(cur),
        edge_lookup(cur, c, true) == Some(t),
        cur.contains((c, t)),
        forall|p: (char, usize)| #[trigger]
            cur.contains(p) ==> p == (c, t) || (orig.contains(p) && p.0 != c),
        forall|p: (char, usize)| #[trigger] orig.contains(p) && p.0 != c ==> cur.contains(p),
        forall|c2: char|
            c2 != c ==> #[trigger] edge_lookup(cur, c2, true) == edge_lookup(orig, c2, true),
        edge_lookup(orig, c, true) is None,
{
    lemma_lookup_exact(orig, c);
    match edge_lookup(orig, c, true) {
        Some(t0) => {
            let j = choose|j: int| 0 <= j < orig.len() && orig[j] == (c, t0);
            assert((orig[j].0 as u32) == (c as u32));
            assert(false);
        },
        None => {},
    }
    assert(cur.len() == orig.len() + 1);
    assert(cur[i] == (c, t));
    assert(forall|j: int| 0 <= j < i ==> cur[j] == orig[j]);
    assert(forall|j: int| i < j < cur.len() ==> cur[j] == orig[j - 1]);
    assert forall|e1: int, e2: int| 0 <= e1 < e2 < cur.len() implies ((#[trigger] cur[e1]).0
        as u32) < ((#[trigger] cur[e2]).0 as u32) by {
        if e1 == i {
            assert(cur[e2] == orig[e2 - 1]);
        } else if e2 == i {
            assert(cur[e1] == orig[e1]);
        } else if e1 < i && e2 > i {
            assert((cur[e1].0 as u32) < (c as u32));
            assert((cur[e2].0 as u32) > (c as u32));
        }
    }
    assert(cur.contains((c, t)));
    lemma_lookup_exact(cur, c);
    assert forall|p: (char, usize)| #[trigger]
        cur.contains(p) implies p == (c, t) || (orig.contains(p) && p.0 != c) by {
        let j = choose|j: int| 0 <= j < cur.len() && cur[j] == p;
        if j < i {
            assert(orig[j] == p);
            assert(orig.contains(p));
        } else if j > i {
            assert(orig[j - 1] == p);
            assert(orig.contains(p));
        }
    }
    assert forall|p: (char, usize)| #[trigger]
        orig.contains(p) && p.0 != c implies cur.contains(p) by {
        let j = choose|j: int| 0 <= j < orig.len() && orig[j] == p;
        if j < i {
            assert(cur[j] == p);
        } else {
            assert(cur[j + 1] == p);
        }
    }
    assert forall|c2: char| c2 != c implies #[trigger] edge_lookup(cur, c2, true) == edge_lookup(
        orig,
        c2,
        true,
    ) by {
        lemma_lookup_exact(cur, c2);
        lemma_lookup_exact(orig, c2);
        match edge_lookup(orig, c2, true) {
            Some(t2) => {
                let j = choose|j: int| 0 <= j < orig.len() && orig[j] == (c2, t2);
                if j < i {
                    assert(cur[j] == (c2, t2));
                } else {
                    assert(cur[j + 1] == (c2, t2));
                }
                assert(cur.contains((c2, t2)));
                match edge_lookup(cur, c2, true) {
                    Some(t3) => {
                        if j < i {
                            assert(cur[j].1 == t3);
                        } else {
                            assert(cur[j + 1].1 == t3);
                        }
                    },
                    None => {
                        if j < i {
                            assert(cur[j].0 == c2);
                        } else {
                            assert(cur[j + 1].0 == c2);
                        }
                        assert(false);
                    },
                }
            },
            None => {
                match edge_lookup(cur, c2, true) {
                    Some(t3) => {
                        let j = choose|j: int| 0 <= j < cur.len() && cur[j] == (c2, t3);
                        assert(j != i);
                        if j < i {
                            assert(orig[j] == (c2, t3));
                        } else {
                            assert(orig[j - 1] == (c2, t3));
                        }
                        assert(false);
                    },
                    None => {},
                }
            },
        }
    }
}

/// Every label of node `i` lies strictly below `c` in scalar-value
/// order.
pub open spec fn node_labels_lt(nodes: Seq<DawgNode>, i: int, c: char) -> bool {
    forall|t: int|
        0 <= t < nodes[i].edges@.len() ==> ((#[trigger] nodes[i].edges@[t]).0 as u32) < (c as u32)
}

/// Every label of node `i` lies at or below `c` in scalar-value order.
pub open spec fn node_labels_le(nodes: Seq<DawgNode>, i: int, c: char) -> bool {
    forall|t: int|
        0 <= t < nodes[i].edges@.len() ==> ((#[trigger] nodes[i].edges@[t]).0 as u32) <= (c as u32)
}

/// A label bound carries over to any arena that stores the same
/// transition list at the same index.
pub proof fn lemma_labels_le_frame(n1: Seq<DawgNode>, n2: Seq<DawgNode>, i: int, c: char)
    requires
        n2[i].edges@ == n1[i].edges@,
        node_labels_le(n1, i, c),
    ensures
        node_labels_le(n2, i, c),
{
    assert forall|t: int| 0 <= t < n2[i].edges@.len() implies ((#[trigger] n2[i].edges@[t]).0
        as u32) <= (c as u32) by {
        assert(n2[i].edges@[t] == n1[i].edges@[t]);
    }
}

/// A label bound carries over to any arena that stores the same labels
/// at the same index, whatever the transitions' targets became.
pub proof fn lemma_labels_le_preserved(n1: Seq<DawgNode>, n2: Seq<DawgNode>, i: int, c: char)
    requires
        labels_preserved(n1, n2),
        0 <= i < n1.len(),
        node_labels_le(n1, i, c),
    ensures
        node_labels_le(n2, i, c),
{
    assert forall|t: int| 0 <= t < n2[i].edges@.len() implies ((#[trigger] n2[i].edges@[t]).0
        as u32) <= (c as u32) by {
        assert(n2[i].edges@[t].0 == n1[i].edges@[t].0);
        assert(((n1[i].edges@[t]).0 as u32) <= (c as u32));
    }
}

/// The two arenas agree on every terminal flag and on every transition
/// label: minimization rewrites where transitions lead, never how they
/// are labeled.
pub open spec fn labels_preserved(n1: Seq<DawgNode>, n2: Seq<DawgNode>) -> bool {
    &&& n2.len() == n1.len()
    &&& forall|i: int|
        0 <= i < n1.len() ==> (#[trigger] n2[i]).terminal == n1[i].terminal && n2[i].edges@.len()
            == n1[i].edges@.len() && (forall|t: int|
            0 <= t < n1[i].edges@.len() ==> (#[trigger] n2[i].edges@[t]).0 == n1[i].edges@[t].0)
}

/// Label preservation composes.
pub proof fn lemma_labels_preserved_trans(a: Seq<DawgNode>, b: Seq<DawgNode>, c: Seq<DawgNode>)
    requires
        labels_preserved(a, b),
        labels_preserved(b, c),
    ensures
        labels_preserved(a, c),
{
    assert forall|i: int| 0 <= i < a.len() implies (#[trigger] c[i]).terminal == a[i].terminal
        && c[i].edges@.len() == a[i].edges@.len() && (forall|t: int|
        0 <= t < a[i].edges@.len() ==> (#[trigger] c[i].edges@[t]).0 == a[i].edges@[t].0) by {
        assert(b[i].terminal == a[i].terminal);
        assert(b[i].edges@.len() == a[i].edges@.len());
        assert forall|t: int| 0 <= t < a[i].edges@.len() implies (#[trigger] c[i].edges@[t]).0
            == a[i].edges@[t].0 by {
            assert(b[i].edges@[t].0 == a[i].edges@[t].0);
            assert(c[i].edges@[t].0 == b[i].edges@[t].0);
        }
    }
}

/// Growing the graph never loses an exactly accepted word: wherever a
/// node's lookup changed, it previously found nothing, terminal flags
/// only switch on, and fresh nodes only appear beyond the old arena.
pub proof fn lemma_accepts_monotone(
    n1: Seq<DawgNode>,
    n2: Seq<DawgNode>,
    i: int,
    w: Seq<char>,
)
    requires
        nodes_wf(n1),
        n1.len() <= n2.len(),
        forall|j: int| 0 <= j < n1.len() ==> ((#[trigger] n1[j]).terminal ==> n2[j].terminal),
        forall|j: int, c: char|
            0 <= j < n1.len() ==> (#[trigger] edge_lookup(n2[j].edges@, c, true) == edge_lookup(
                n1[j].edges@,
                c,
                true,
            ) || edge_lookup(n1[j].edges@, c, true) is None),
        0 <= i < n1.len(),
        accepts(n1, i, w, true),
    ensures
        accepts(n2, i, w, true),
    decreases w.len(),
{
    if w.len() == 0 {
    } else {
        let t = edge_lookup(n1[i].edges@, w[0], true)->Some_0;
        lemma_lookup_target(n1[i].edges@, w[0], true);
        assert(node_wf(n1, i));
        assert(edge_lookup(n2[i].edges@, w[0], true) == Some(t));
        assert(accepts(n1, i, w, true) == accepts(n1, t as int, w.drop_first(), true));
        lemma_accepts_monotone(n1, n2, t as int, w.drop_first());
        assert(accepts(n2, i, w, true) == accepts(n2, t as int, w.drop_first(), true));
    }
}

/// A walk that completes stays inside the arena.
pub proof fn lemma_walk_in_range(
    nodes: Seq<DawgNode>,
    i: int,
    w: Seq<char>,
    case_sensitive: bool,
)
    requires
        nodes_wf(nodes),
        0 <= i < nodes.len(),
        walk(nodes, i, w, case_sensitive) is Some,
    ensures
        0 <= walk(nodes, i, w, case_sensitive)->Some_0 < nodes.len(),
    decreases w.len(),
{
    if w.len() > 0 {
        let t = edge_lookup(nodes[i].edges@, w[0], case_sensitive)->Some_0;
        lemma_lookup_target(nodes[i].edges@, w[0], case_sensitive);
        assert(node_wf(nodes, i));
        lemma_walk_in_range(nodes, t as int, w.drop_first(), case_sensitive);
    }
}

/// A completed walk of a non-empty word decomposes at its last step: the
/// word up to its last character reaches some node, whose lookup of that
/// last character gives the walk's final node.
pub proof fn lemma_walk_snoc(nodes: Seq<DawgNode>, i: int, w: Seq<char>, case_sensitive: bool)
    requires
        w.len() > 0,
        walk(nodes, i, w, case_sensitive) is Some,
    ensures
        walk(nodes, i, w.drop_last(), case_sensitive) is Some,
        edge_lookup(
            nodes[walk(nodes, i, w.drop_last(), case_sensitive)->Some_0].edges@,
            w.last(),
            case_sensitive,
        ) == Some(walk(nodes, i, w, case_sensitive)->Some_0 as usize),
    decreases w.len(),
{
    let t = edge_lookup(nodes[i].edges@, w[0], case_sensitive)->Some_0;
    if w.len() == 1 {
        assert(w.drop_last().len() == 0);
        assert(w.drop_first().len() == 0);
        assert(walk(nodes, i, w, case_sensitive) == Some(t as int));
    } else {
        assert(walk(nodes, i, w, case_sensitive) == walk(
            nodes,
            t as int,
            w.drop_first(),
            case_sensitive,
        ));
        lemma_walk_snoc(nodes, t as int, w.drop_first(), case_sensitive);
        assert(w.drop_last()[0] == w[0]);
        assert(w.drop_last().drop_first() =~= w.drop_first().drop_last());
        assert(w.drop_first().last() == w.last());
        assert(walk(nodes, i, w.drop_last(), case_sensitive) == walk(
            nodes,
            t as int,
            w.drop_last().drop_first(),
            case_sensitive,
        ));
    }
}

/// Hanging one fresh, bare, non-terminal node under a single new
/// transition loses no exactly accepted word: any walk that takes the
/// new transition dies at the bare node.
pub proof fn lemma_attach_accepts_reverse(
    n1: Seq<DawgNode>,
    n2: Seq<DawgNode>,
    tip: int,
    letter: char,
    fresh: usize,
    i: int,
    w: Seq<char>,
)
    requires
        n1.len() <= n2.len(),
        fresh as int == n1.len(),
        forall|j: int| 0 <= j < n1.len() && j != tip ==> n2[j] == n1[j],
        0 <= tip < n1.len(),
        n2[tip].terminal == n1[tip].terminal,
        edge_lookup(n1[tip].edges@, letter, true) is None,
        forall|c2: char|
            c2 != letter ==> #[trigger] edge_lookup(n2[tip].edges@, c2, true) == edge_lookup(
                n1[tip].edges@,
                c2,
                true,
            ),
        edge_lookup(n2[tip].edges@, letter, true) == Some(fresh),
        !n2[fresh as int].terminal,
        n2[fresh as int].edges@.len() == 0,
        nodes_wf(n1),
        0 <= i < n1.len(),
        accepts(n2, i, w, true),
    ensures
        accepts(n1, i, w, true),
    decreases w.len(),
{
    if w.len() == 0 {
        assert(n2[i].terminal == n1[i].terminal);
    } else if i == tip && w[0] == letter {
        assert(walk(n2, i, w, true) == walk(n2, fresh as int, w.drop_first(), true));
        if w.drop_first().len() == 0 {
            assert(!n2[fresh as int].terminal);
        } else {
            assert(edge_lookup(n2[fresh as int].edges@, w.drop_first()[0], true) is None);
        }
        assert(!accepts(n2, i, w, true));
    } else {
        assert(edge_lookup(n2[i].edges@, w[0], true) == edge_lookup(n1[i].edges@, w[0], true));
        match edge_lookup(n1[i].edges@, w[0], true) {
            Some(t) => {
                lemma_lookup_target(n1[i].edges@, w[0], true);
                assert(node_wf(n1, i));
                assert(accepts(n2, i, w, true) == accepts(n2, t as int, w.drop_first(), true));
                lemma_attach_accepts_reverse(n1, n2, tip, letter, fresh, t as int, w.drop_first());
                assert(accepts(n1, i, w, true) == accepts(n1, t as int, w.drop_first(), true));
            },
            None => {
                assert(!accepts(n2, i, w, true));
            },
        }
    }
}

/// Walks read transitions only: two arenas with the same transition
/// lists walk every word to the same place, whatever their flags say.
pub proof fn lemma_walk_edges_only(
    n1: Seq<DawgNode>,
    n2: Seq<DawgNode>,
    i: int,
    w: Seq<char>,
    case_sensitive: bool,
)
    requires
        n1.len() == n2.len(),
        nodes_wf(n1),
        forall|j: int| 0 <= j < n1.len() ==> (#[trigger] n2[j]).edges@ == n1[j].edges@,
        0 <= i < n1.len(),
    ensures
        walk(n2, i, w, case_sensitive) == walk(n1, i, w, case_sensitive),
    decreases w.len(),
{
    if w.len() > 0 {
        match edge_lookup(n1[i].edges@, w[0], case_sensitive) {
            Some(t) => {
                lemma_lookup_target(n1[i].edges@, w[0], case_sensitive);
                assert(node_wf(n1, i));
                lemma_walk_edges_only(n1, n2, t as int, w.drop_first(), case_sensitive);
            },
            None => {},
        }
    }
}


/// The language of node `i`: every word the automaton accepts exactly
/// from it.
pub open spec fn lang(nodes: Seq<DawgNode>, i: int) -> Set<Seq<char>> {
    Set::new(|w: Seq<char>| accepts(nodes, i, w, true))
}

/// Sum of the language sizes at the targets of a transition list.
pub open spec fn sum_langs(nodes: Seq<DawgNode>, edges: Seq<(char, usize)>) -> int
    decreases edges.len(),
{
    if edges.len() == 0 {
        0
    } else {
        sum_langs(nodes, edges.drop_last()) + lang(nodes, edges.last().1 as int).len()
    }
}

/// The words accepted from `j` whose first character is matched by one of
/// the first `n` transitions.
pub open spec fn lang_first(nodes: Seq<DawgNode>, j: int, n: int) -> Set<Seq<char>> {
    Set::new(
        |w: Seq<char>|
            w.len() > 0 && accepts(nodes, j, w, true) && exists|e: int|
                0 <= e < n && (#[trigger] nodes[j].edges@[e]).0 == w[0],
    )
}

/// Two disjoint finite sets contribute their sizes to their union in full.
pub proof fn lemma_len_disjoint_union<A>(s1: Set<A>, s2: Set<A>)
    requires
        s1.finite(),
        s2.finite(),
        s1.disjoint(s2),
    ensures
        s1.union(s2).finite(),
        s1.union(s2).len() == s1.len() + s2.len(),
    decreases s1.len(),
{
    if s1.is_empty() {
        assert(s1.union(s2) =~= s2);
    } else {
        let a = s1.choose();
        assert(s1.contains(a));
        assert(!s2.contains(a));
        assert(s1.remove(a).union(s2) =~= s1.union(s2).remove(a));
        assert(s1.remove(a).disjoint(s2));
        lemma_len_disjoint_union(s1.remove(a), s2);
        assert(s1.union(s2) =~= s1.remove(a).union(s2).insert(a));
        assert(!s1.remove(a).union(s2).contains(a));
    }
}

/// A sum of stored counts is never negative.
pub proof fn lemma_sum_counts_nonneg(nodes: Seq<DawgNode>, edges: Seq<(char, usize)>)
    ensures
        sum_counts(nodes, edges) >= 0,
    decreases edges.len(),
{
    if edges.len() > 0 {
        lemma_sum_counts_nonneg(nodes, edges.drop_last());
    }
}

/// A sum of language sizes is never negative.
pub proof fn lemma_sum_langs_nonneg(nodes: Seq<DawgNode>, edges: Seq<(char, usize)>)
    ensures
        sum_langs(nodes, edges) >= 0,
    decreases edges.len(),
{
    if edges.len() > 0 {
        lemma_sum_langs_nonneg(nodes, edges.drop_last());
    }
}

/// Adding the same non-negative amount on both sides preserves equality
/// of clamped values.
pub proof fn lemma_clamp_add(a: int, b: int, x: int)
    requires
        a >= 0,
        b >= 0,
        x >= 0,
        clamp_usize(a) == clamp_usize(b),
    ensures
        clamp_usize(a + x) == clamp_usize(b + x),
{
}

/// Summing clamped sizes and clamping once at the end agree: clamping is
/// absorbing under addition of non-negative terms.
pub proof fn lemma_clamp_sums(nodes: Seq<DawgNode>, edges: Seq<(char, usize)>, base: int)
    requires
        base >= 0,
        forall|e: int|
            0 <= e < edges.len() ==> nodes[(#[trigger] edges[e]).1 as int].count == clamp_usize(
                lang(nodes, edges[e].1 as int).len() as int,
            ),
    ensures
        clamp_usize(base + sum_counts(nodes, edges)) == clamp_usize(base + sum_langs(nodes, edges)),
    decreases edges.len(),
{
    if edges.len() > 0 {
        let short = edges.drop_last();
        assert(forall|e: int| 0 <= e < short.len() ==> #[trigger] short[e] == edges[e]);
        lemma_clamp_sums(nodes, short, base);
        lemma_sum_counts_nonneg(nodes, short);
        lemma_sum_langs_nonneg(nodes, short);
        let t = edges.last().1 as int;
        let x = lang(nodes, t).len() as int;
        assert(edges.last() == edges[edges.len() - 1]);
        assert(nodes[t].count == clamp_usize(x));
        if x <= usize::MAX {
            lemma_clamp_add(base + sum_counts(nodes, short), base + sum_langs(nodes, short), x);
        }
    }
}

/// The words accepted from `j` that start with the label of transition
/// `l --> t` are exactly `l` prepended to the words accepted from `t`.
proof fn lemma_lang_slice(nodes: Seq<DawgNode>, j: int, l: char, t: usize)
    requires
        0 <= j < nodes.len(),
        edge_lookup(nodes[j].edges@, l, true) == Some(t),
    ensures
        Set::new(|w: Seq<char>| w.len() > 0 && w[0] == l && accepts(nodes, j, w, true)) =~= lang(
            nodes,
            t as int,
        ).map(|w: Seq<char>| seq![l] + w),
{
    let slice = Set::new(|w: Seq<char>| w.len() > 0 && w[0] == l && accepts(nodes, j, w, true));
    let f = |w: Seq<char>| seq![l] + w;
    assert forall|w: Seq<char>| #[trigger] slice.contains(w) implies lang(nodes, t as int).map(
        f,
    ).contains(w) by {
        assert(accepts(nodes, j, w, true) == accepts(nodes, t as int, w.drop_first(), true));
        assert(lang(nodes, t as int).contains(w.drop_first()));
        assert(f(w.drop_first()) =~= w);
    }
    assert forall|w: Seq<char>| #[trigger] lang(nodes, t as int).map(f).contains(w) implies slice.contains(
        w,
    ) by {
        let w0 = choose|w0: Seq<char>| lang(nodes, t as int).contains(w0) && w == f(w0);
        assert(w.len() > 0 && w[0] == l);
        assert(w.drop_first() =~= w0);
        assert(accepts(nodes, j, w, true) == accepts(nodes, t as int, w.drop_first(), true));
    }
}

/// Size of the sliced language, one transition at a time: the slices are
/// pairwise disjoint (labels are unique per node), and each has the size
/// of its target's language.
proof fn lemma_lang_first_len(nodes: Seq<DawgNode>, j: int, n: int)
    requires
        0 <= j < nodes.len(),
        node_wf(nodes, j),
        0 <= n <= nodes[j].edges@.len(),
        forall|e: int|
            0 <= e < nodes[j].edges@.len() ==> lang(
                nodes,
                (#[trigger] nodes[j].edges@[e]).1 as int,
            ).finite(),
    ensures
        lang_first(nodes, j, n).finite(),
        lang_first(nodes, j, n).len() == sum_langs(nodes, nodes[j].edges@.take(n)),
    decreases n,
{
    let edges = nodes[j].edges@;
    if n == 0 {
        assert(lang_first(nodes, j, 0) =~= Set::<Seq<char>>::empty());
        assert(edges.take(0) =~= Seq::<(char, usize)>::empty());
    } else {
        lemma_lang_first_len(nodes, j, n - 1);
        let l = edges[n - 1].0;
        let t = edges[n - 1].1;
        lemma_lookup_exact(edges, l);
        match edge_lookup(edges, l, true) {
            Some(t2) => {
                assert(edges[n - 1].1 == t2);
            },
            None => {
                assert(edges[n - 1].0 != l);
                assert(false);
            },
        }
        lemma_lang_slice(nodes, j, l, t);
        let f = |w: Seq<char>| seq![l] + w;
        let slice = Set::new(
            |w: Seq<char>| w.len() > 0 && w[0] == l && accepts(nodes, j, w, true),
        );
        assert(injective_on(f, lang(nodes, t as int))) by {
            assert forall|w1: Seq<char>, w2: Seq<char>|
                lang(nodes, t as int).contains(w1) && lang(nodes, t as int).contains(w2) && #[trigger] f(
                    w1,
                ) == #[trigger] f(w2) implies w1 == w2 by {
                assert(f(w1).drop_first() =~= w1);
                assert(f(w2).drop_first() =~= w2);
            }
        }
        lemma_map_size(lang(nodes, t as int), lang(nodes, t as int).map(f), f);
        assert(slice.finite());
        assert(slice.len() == lang(nodes, t as int).len());
        assert(lang_first(nodes, j, n - 1).disjoint(slice)) by {
            assert forall|w: Seq<char>| #[trigger] lang_first(nodes, j, n - 1).contains(
                w,
            ) implies !slice.contains(w) by {
                let e = choose|e: int| 0 <= e < n - 1 && (#[trigger] edges[e]).0 == w[0];
                assert((edges[e].0 as u32) < (edges[n - 1].0 as u32));
                if w[0] == l {
                    assert(edges[e].0 == l);
                }
            }
        }
        lemma_len_disjoint_union(lang_first(nodes, j, n - 1), slice);
        assert(lang_first(nodes, j, n) =~= lang_first(nodes, j, n - 1).union(slice)) by {
            assert forall|w: Seq<char>| #[trigger] lang_first(nodes, j, n).contains(w) implies lang_first(
                nodes,
                j,
                n - 1,
            ).union(slice).contains(w) by {
                let e = choose|e: int| 0 <= e < n && (#[trigger] edges[e]).0 == w[0];
                if e == n - 1 {
                    assert(slice.contains(w));
                } else {
                    assert(lang_first(nodes, j, n - 1).contains(w));
                }
            }
            assert forall|w: Seq<char>| #[trigger] lang_first(nodes, j, n - 1).union(
                slice,
            ).contains(w) implies lang_first(nodes, j, n).contains(w) by {
                if slice.contains(w) {
                    assert(edges[n - 1].0 == w[0]);
                } else {
                    let e = choose|e: int| 0 <= e < n - 1 && (#[trigger] edges[e]).0 == w[0];
                }
            }
        }
        assert(edges.take(n).drop_last() =~= edges.take(n - 1));
        assert(edges.take(n).last() == edges[n - 1]);
    }
}

/// A node whose count satisfies the counting recurrence, and whose
/// children's counts are the sizes of their languages, counts exactly the
/// words of its own language (clamped to `usize`): the language splits
/// into the empty word, if terminal, and one slice per transition.
pub proof fn lemma_counted_node(nodes: Seq<DawgNode>, j: int)
    requires
        0 <= j < nodes.len(),
        node_wf(nodes, j),
        count_ok(nodes, j),
        forall|e: int|
            0 <= e < nodes[j].edges@.len() ==> lang(
                nodes,
                (#[trigger] nodes[j].edges@[e]).1 as int,
            ).finite(),
        forall|e: int|
            0 <= e < nodes[j].edges@.len() ==> nodes[(#[trigger] nodes[j].edges@[e]).1 as int].count
                == clamp_usize(lang(nodes, nodes[j].edges@[e].1 as int).len() as int),
    ensures
        lang(nodes, j).finite(),
        nodes[j].count == clamp_usize(lang(nodes, j).len() as int),
{
    let edges = nodes[j].edges@;
    let n = edges.len() as int;
    lemma_lang_first_len(nodes, j, n);
    let base: Set<Seq<char>> = if nodes[j].terminal {
        Set::<Seq<char>>::empty().insert(Seq::<char>::empty())
    } else {
        Set::<Seq<char>>::empty()
    };
    assert(base.finite());
    assert(base.len() == (if nodes[j].terminal {
        1int
    } else {
        0int
    }));
    assert(base.disjoint(lang_first(nodes, j, n))) by {
        assert forall|w: Seq<char>| #[trigger] base.contains(w) implies !lang_first(
            nodes,
            j,
            n,
        ).contains(w) by {
            assert(w =~= Seq::<char>::empty());
        }
    }
    lemma_len_disjoint_union(base, lang_first(nodes, j, n));
    assert(lang(nodes, j) =~= base.union(lang_first(nodes, j, n))) by {
        assert forall|w: Seq<char>| #[trigger] lang(nodes, j).contains(w) implies base.union(
            lang_first(nodes, j, n),
        ).contains(w) by {
            if w.len() == 0 {
                assert(w =~= Seq::<char>::empty());
            } else {
                assert(edge_lookup(edges, w[0], true) is Some);
                lemma_lookup_target(edges, w[0], true);
                let e = choose|e: int|
                    0 <= e < edges.len() && (#[trigger] edges[e]).1 == edge_lookup(
                        edges,
                        w[0],
                        true,
                    )->Some_0 && label_matches(edges[e].0, w[0], true);
                assert(edges[e].0 == w[0]);
                assert(lang_first(nodes, j, n).contains(w));
            }
        }
        assert forall|w: Seq<char>| #[trigger] base.union(lang_first(nodes, j, n)).contains(
            w,
        ) implies lang(nodes, j).contains(w) by {
            if base.contains(w) {
                assert(w =~= Seq::<char>::empty());
            }
        }
    }
    assert(edges.take(n) =~= edges);
    lemma_clamp_sums(
        nodes,
        edges,
        if nodes[j].terminal {
            1int
        } else {
            0int
        },
    );
}

/// A set of node indices is closed: each member is inside the arena and
/// all its transitions lead back into the set.
pub open spec fn set_closed(nodes: Seq<DawgNode>, s: Set<int>) -> bool {
    forall|j: int| #[trigger]
        s.contains(j) ==> 0 <= j < nodes.len() && forall|t: int|
            0 <= t < nodes[j].edges@.len() ==> s.contains((#[trigger] nodes[j].edges@[t]).1 as int)
}

/// A walk that starts inside a closed set of nodes never leaves it, so
/// its outcome ignores every node outside the set.
pub proof fn lemma_walk_frame_set(
    n1: Seq<DawgNode>,
    n2: Seq<DawgNode>,
    s: Set<int>,
    i: int,
    w: Seq<char>,
    case_sensitive: bool,
)
    requires
        n1.len() == n2.len(),
        set_closed(n1, s),
        forall|j: int| #[trigger] s.contains(j) ==> n2[j] == n1[j],
        s.contains(i),
    ensures
        walk(n2, i, w, case_sensitive) == walk(n1, i, w, case_sensitive),
        walk(n1, i, w, case_sensitive) is Some ==> s.contains(
            walk(n1, i, w, case_sensitive)->Some_0,
        ),
        accepts(n2, i, w, case_sensitive) == accepts(n1, i, w, case_sensitive),
    decreases w.len(),
{
    if w.len() == 0 {
    } else {
        assert(n2[i] == n1[i]);
        match edge_lookup(n1[i].edges@, w[0], case_sensitive) {
            Some(t) => {
                lemma_lookup_target(n1[i].edges@, w[0], case_sensitive);
                let j = choose|j: int|
                    0 <= j < n1[i].edges@.len() && (#[trigger] n1[i].edges@[j]).1 == t
                        && label_matches(n1[i].edges@[j].0, w[0], case_sensitive);
                assert(s.contains(n1[i].edges@[j].1 as int));
                lemma_walk_frame_set(n1, n2, s, t as int, w.drop_first(), case_sensitive);
            },
            None => {},
        }
    }
}

/// A walk reads only the terminal flags and the transitions of the
/// nodes it passes: changing any other field changes no query.
pub proof fn lemma_walk_shape_frame(
    n1: Seq<DawgNode>,
    n2: Seq<DawgNode>,
    i: int,
    w: Seq<char>,
    case_sensitive: bool,
)
    requires
        n1.len() == n2.len(),
        nodes_wf(n1),
        forall|j: int|
            0 <= j < n1.len() ==> (#[trigger] n2[j]).terminal == n1[j].terminal && n2[j].edges@
                == n1[j].edges@,
        0 <= i < n1.len(),
    ensures
        accepts(n2, i, w, case_sensitive) == accepts(n1, i, w, case_sensitive),
    decreases w.len(),
{
    if w.len() == 0 {
    } else {
        match edge_lookup(n1[i].edges@, w[0], case_sensitive) {
            Some(t) => {
                lemma_lookup_target(n1[i].edges@, w[0], case_sensitive);
                assert(node_wf(n1, i));
                lemma_walk_shape_frame(n1, n2, t as int, w.drop_first(), case_sensitive);
                assert(accepts(n1, i, w, case_sensitive) == accepts(
                    n1,
                    t as int,
                    w.drop_first(),
                    case_sensitive,
                ));
                assert(accepts(n2, i, w, case_sensitive) == accepts(
                    n2,
                    t as int,
                    w.drop_first(),
                    case_sensitive,
                ));
            },
            None => {},
        }
    }
}

/// Two nodes of one arena with the same signature accept the same words:
/// their transition lists are one and the same, so their walks coincide
/// after the first step.
pub proof fn lemma_sig_accepts(nodes: Seq<DawgNode>, a: int, b: int, w: Seq<char>, case_sensitive: bool)
    requires
        0 <= a < nodes.len(),
        0 <= b < nodes.len(),
        sig_eq(nodes[a], nodes[b]),
    ensures
        accepts(nodes, a, w, case_sensitive) == accepts(nodes, b, w, case_sensitive),
        (walk(nodes, a, w, case_sensitive) is Some) == (walk(nodes, b, w, case_sensitive) is Some),
{
    if w.len() == 0 {
    } else {
        assert(nodes[a].edges@ == nodes[b].edges@);
        assert(walk(nodes, a, w, case_sensitive) == walk(nodes, b, w, case_sensitive));
    }
}

/// Looking a character up in two transition lists that agree label for
/// label, and whose targets agree except that `ch` was replaced by `m`,
/// finds the same transition — with `m` standing in for `ch`.
proof fn lemma_lookup_rewrite(
    e1: Seq<(char, usize)>,
    e2: Seq<(char, usize)>,
    ch: usize,
    m: usize,
    c: char,
    case_sensitive: bool,
)
    requires
        e1.len() == e2.len(),
        forall|j: int|
            0 <= j < e1.len() ==> (#[trigger] e2[j]).0 == e1[j].0 && (e2[j] == e1[j] || (e1[j].1
                == ch && e2[j].1 == m)),
    ensures
        match edge_lookup(e1, c, case_sensitive) {
            None => edge_lookup(e2, c, case_sensitive) is None,
            Some(t1) => edge_lookup(e2, c, case_sensitive) is Some && (edge_lookup(
                e2,
                c,
                case_sensitive,
            )->Some_0 == t1 || (t1 == ch && edge_lookup(e2, c, case_sensitive)->Some_0 == m)),
        },
    decreases e1.len(),
{
    if e1.len() == 0 {
    } else if label_matches(e1[0].0, c, case_sensitive) {
        assert(e2[0].0 == e1[0].0);
    } else {
        assert(e2[0].0 == e1[0].0);
        assert(forall|j: int|
            0 <= j < e1.drop_first().len() ==> (#[trigger] e2.drop_first()[j]).0
                == e1.drop_first()[j].0 && (e2.drop_first()[j] == e1.drop_first()[j] || (
            e1.drop_first()[j].1 == ch && e2.drop_first()[j].1 == m)));
        lemma_lookup_rewrite(e1.drop_first(), e2.drop_first(), ch, m, c, case_sensitive);
    }
}

/// Redirecting one parent's transitions from a node `ch` to a node `m` of
/// the same signature changes no query, provided everything reachable
/// from `ch` and `m` lies in a closed set of untouched nodes: the heart
/// of why merging equivalent subgraphs preserves the accepted language.
pub proof fn lemma_rewrite_accepts(
    n1: Seq<DawgNode>,
    n2: Seq<DawgNode>,
    s: Set<int>,
    p: int,
    ch: usize,
    m: usize,
    i: int,
    w: Seq<char>,
    case_sensitive: bool,
)
    requires
        n1.len() == n2.len(),
        nodes_wf(n1),
        set_closed(n1, s),
        forall|j: int| 0 <= j < n1.len() && j != p ==> n2[j] == n1[j],
        0 <= p < n1.len(),
        !s.contains(p),
        n2[p].terminal == n1[p].terminal,
        n2[p].edges@.len() == n1[p].edges@.len(),
        forall|j: int|
            0 <= j < n1[p].edges@.len() ==> (#[trigger] n2[p].edges@[j]).0 == n1[p].edges@[j].0 && (
            n2[p].edges@[j] == n1[p].edges@[j] || (n1[p].edges@[j].1 == ch && n2[p].edges@[j].1
                == m)),
        (ch as int) < n1.len(),
        (m as int) < n1.len(),
        sig_eq(n1[ch as int], n1[m as int]),
        s.contains(m as int),
        forall|t: int|
            0 <= t < n1[ch as int].edges@.len() ==> s.contains(
                (#[trigger] n1[ch as int].edges@[t]).1 as int,
            ),
        0 <= i < n1.len(),
    ensures
        accepts(n2, i, w, case_sensitive) == accepts(n1, i, w, case_sensitive),
        (walk(n2, i, w, case_sensitive) is Some) == (walk(n1, i, w, case_sensitive) is Some),
    decreases w.len(),
{
    if w.len() == 0 {
        assert(n2[i].terminal == n1[i].terminal);
    } else if i != p {
        assert(n2[i] == n1[i]);
        match edge_lookup(n1[i].edges@, w[0], case_sensitive) {
            Some(t) => {
                lemma_lookup_target(n1[i].edges@, w[0], case_sensitive);
                assert(node_wf(n1, i));
                lemma_rewrite_accepts(
                    n1,
                    n2,
                    s,
                    p,
                    ch,
                    m,
                    t as int,
                    w.drop_first(),
                    case_sensitive,
                );
                assert(accepts(n1, i, w, case_sensitive) == accepts(
                    n1,
                    t as int,
                    w.drop_first(),
                    case_sensitive,
                ));
                assert(accepts(n2, i, w, case_sensitive) == accepts(
                    n2,
                    t as int,
                    w.drop_first(),
                    case_sensitive,
                ));
                assert(walk(n1, i, w, case_sensitive) == walk(
                    n1,
                    t as int,
                    w.drop_first(),
                    case_sensitive,
                ));
                assert(walk(n2, i, w, case_sensitive) == walk(
                    n2,
                    t as int,
                    w.drop_first(),
                    case_sensitive,
                ));
            },
            None => {},
        }
    } else {
        lemma_lookup_rewrite(n1[p].edges@, n2[p].edges@, ch, m, w[0], case_sensitive);
        match edge_lookup(n1[p].edges@, w[0], case_sensitive) {
            Some(t1) => {
                let t2 = edge_lookup(n2[p].edges@, w[0], case_sensitive)->Some_0;
                lemma_lookup_target(n1[p].edges@, w[0], case_sensitive);
                assert(node_wf(n1, p));
                if t2 == t1 {
                    lemma_rewrite_accepts(
                        n1,
                        n2,
                        s,
                        p,
                        ch,
                        m,
                        t1 as int,
                        w.drop_first(),
                        case_sensitive,
                    );
                    assert(accepts(n1, i, w, case_sensitive) == accepts(
                        n1,
                        t1 as int,
                        w.drop_first(),
                        case_sensitive,
                    ));
                    assert(accepts(n2, i, w, case_sensitive) == accepts(
                        n2,
                        t2 as int,
                        w.drop_first(),
                        case_sensitive,
                    ));
                    assert(walk(n1, i, w, case_sensitive) == walk(
                        n1,
                        t1 as int,
                        w.drop_first(),
                        case_sensitive,
                    ));
                    assert(walk(n2, i, w, case_sensitive) == walk(
                        n2,
                        t2 as int,
                        w.drop_first(),
                        case_sensitive,
                    ));
                } else {
                    assert(t1 == ch && t2 == m);
                    lemma_sig_accepts(n1, ch as int, m as int, w.drop_first(), case_sensitive);
                    lemma_walk_frame_set(n1, n2, s, m as int, w.drop_first(), case_sensitive);
                    assert(accepts(n1, i, w, case_sensitive) == accepts(
                        n1,
                        ch as int,
                        w.drop_first(),
                        case_sensitive,
                    ));
                    assert(accepts(n2, i, w, case_sensitive) == accepts(
                        n2,
                        m as int,
                        w.drop_first(),
                        case_sensitive,
                    ));
                    assert(walk(n1, i, w, case_sensitive) == walk(
                        n1,
                        ch as int,
                        w.drop_first(),
                        case_sensitive,
                    ));
                    assert(walk(n2, i, w, case_sensitive) == walk(
                        n2,
                        m as int,
                        w.drop_first(),
                        case_sensitive,
                    ));
                }
            },
            None => {},
        }
    }
}

/// Compares two transition lists for equality.
pub fn edges_equal(a: &Vec<(char, usize)>, b: &Vec<(char, usize)>) -> (r: bool)
    ensures
        r == (a@ == b@),
{
    if a.len() != b.len() {
        proof {
            assert(a@.len() != b@.len());
        }
        return false;
    }
    let mut i: usize = 0;
    while i < a.len()
        invariant
            i <= a@.len(),
            a@.len() == b@.len(),
            forall|j: int| 0 <= j < i ==> a@[j] == b@[j],
        decreases a@.len() - i,
    {
        let pa = a[i];
        let pb = b[i];
        if pa.0 != pb.0 || pa.1 != pb.1 {
            proof {
                assert(a@[i as int] != b@[i as int]);
            }
            return false;
        }
        proof {
            assert(a@[i as int] == b@[i as int]);
        }
        i = i + 1;
    }
    proof {
        assert(a@ =~= b@);
    }
    true
}

/// Compares the signatures of two nodes: the merge test of the node
/// store.
pub fn same_signature(a: &DawgNode, b: &DawgNode) -> (r: bool)
    ensures
        r == sig_eq(*a, *b),
{
    a.terminal == b.terminal && edges_equal(&a.edges, &b.edges)
}

} // verus!
