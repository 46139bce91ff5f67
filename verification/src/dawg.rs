//! The builder and query engine of the word graph.
//!
//! The graph lives in an arena: nodes are owned by the `Dawg` and
//! referenced by index, so a node merged into several parents is simply
//! referenced from each of them.  Construction keeps an *unchecked
//! frontier*: the transitions of the path of the most recently inserted
//! word that have not yet been checked for mergeability.  Minimization
//! walks that frontier from its deepest end, registers each child node in
//! the store of minimized nodes — or redirects its parent to an already
//! registered node with the same signature — and computes the child's
//! word count, so every distinct node is counted exactly once.

use vstd::prelude::*;

use crate::node::DawgNode;
use crate::node::SearchRes;
use crate::node::TriDawg;
use crate::node::accepts;
use crate::node::clamp_usize;
use crate::node::count_ok;
use crate::node::edge_lookup;
use crate::node::edges_sorted;
use crate::node::find_edge;
use crate::node::label_matches;
use crate::node::labels_preserved;
use crate::node::lang;
use crate::node::lemma_counted_node;
use crate::node::lemma_accepts_monotone;
use crate::node::lemma_attach_accepts_reverse;
use crate::node::lemma_walk_edges_only;
use crate::node::lemma_walk_in_range;
use crate::node::lemma_walk_snoc;
use crate::node::lemma_labels_le_frame;
use crate::node::lemma_labels_le_preserved;
use crate::node::lemma_labels_preserved_trans;
use crate::node::node_labels_le;
use crate::node::node_labels_lt;
use crate::node::insert_edge;
use crate::node::lemma_lookup_exact;
use crate::node::lemma_lookup_target;
use crate::node::lemma_rewrite_accepts;
use crate::node::lemma_walk_shape_frame;
use crate::node::set_closed;
use crate::node::node_wf;
use crate::node::nodes_wf;
use crate::node::same_signature;
use crate::node::sig_eq;
use crate::node::sum_counts;
use crate::node::walk;
use crate::utils::Utils;
use crate::utils::common_len;
use crate::utils::lemma_common_len_self;
use crate::utils::lemma_lex_first_diff;
use crate::utils::lemma_lex_prefix;
use crate::utils::lex_lt;

verus! {

/// How an insertion can be refused.
#[derive(Debug, PartialEq, Eq, Structural)]
pub enum DawgError {
    /// The word is lexicographically below the previously inserted word.
    OrderingViolation,
    /// The empty word cannot be stored in the graph.
    EmptyWord,
    /// The builder was already finalized.
    Finalized,
}

/// The word graph: arena, root, node store, unchecked frontier, and the
/// cursor over the sorted input.
pub struct Dawg {
    /// Arena owning every node; a node's `id` is its index here.
    pub nodes: Vec<DawgNode>,
    /// Index of the root node, always zero.
    pub root: usize,
    /// Node store: indices of the minimized (canonical) nodes, no two of
    /// which share a signature.  Cleared by `finish`.
    pub minimized_nodes: Vec<usize>,
    /// The unchecked frontier: transitions of the most recent word's path
    /// still open for merging, root-ward to leaf-ward.
    pub unchecked_nodes: Vec<TriDawg>,
    /// The last word successfully inserted, as scalar values.
    pub previous_word: Vec<char>,
    /// True once `finish` has sealed the graph.
    pub finished: bool,
    /// All node indices that minimization has made canonical.
    pub minimized_ids: Ghost<Set<int>>,
    /// Registration rank of each minimized node: transitions of minimized
    /// nodes lead only to nodes registered earlier, so the minimized part
    /// of the graph is acyclic.
    pub ranks: Ghost<Map<int, nat>>,
    /// One more than the highest rank given out so far.
    pub next_rank: Ghost<nat>,
}

impl Dawg {
    /// The node a frontier entry hangs from: the root for the first
    /// entry, the previous entry's child after that.
    pub open spec fn frontier_parent(self, k: int) -> int {
        if k == 0 {
            self.root as int
        } else {
            self.unchecked_nodes@[k - 1].child as int
        }
    }

    /// Frontier entry `k` records a real transition of the graph: its
    /// parent is the path node above it, the parent's transition for its
    /// letter points at its child, and the child is a fresh, unminimized,
    /// non-root node no other entry owns.
    pub open spec fn frontier_entry_ok(self, k: int) -> bool {
        let e = self.unchecked_nodes@[k];
        &&& (e.parent as int) == self.frontier_parent(k)
        &&& (e.parent as int) < self.nodes@.len()
        &&& (e.child as int) < self.nodes@.len()
        &&& e.child != 0
        &&& !self.minimized_ids@.contains(e.child as int)
        &&& edge_lookup(self.nodes@[e.parent as int].edges@, e.letter, true) == Some(e.child)
        &&& forall|k2: int| 0 <= k2 < k ==> (#[trigger] self.unchecked_nodes@[k2]).child != e.child
    }

    /// Every frontier entry is well formed.
    pub open spec fn frontier_ok(self) -> bool {
        forall|k: int| 0 <= k < self.unchecked_nodes@.len() ==> #[trigger] self.frontier_entry_ok(k)
    }

    /// The frontier letters spell a prefix of `w`: the frontier is the
    /// still-open part of the path of the most recent word.
    pub open spec fn letters_match(self, w: Seq<char>) -> bool {
        &&& self.unchecked_nodes@.len() <= w.len()
        &&& forall|k: int|
            0 <= k < self.unchecked_nodes@.len() ==> (#[trigger] self.unchecked_nodes@[k]).letter
                == w[k]
    }

    /// A minimized node is settled: it stays inside the arena, every
    /// transition of it leads to a minimized node, and its count obeys
    /// the counting recurrence.
    pub open spec fn min_node_ok(self, j: int) -> bool {
        &&& 0 <= j < self.nodes@.len()
        &&& forall|e: int|
            0 <= e < self.nodes@[j].edges@.len() ==> self.minimized_ids@.contains(
                (#[trigger] self.nodes@[j].edges@[e]).1 as int,
            )
        &&& count_ok(self.nodes@, j)
    }

    /// The set of minimized nodes is closed under transitions and never
    /// contains the root; their registration ranks witness that the
    /// minimized subgraph is acyclic.
    pub open spec fn minimized_closed(self) -> bool {
        &&& !self.minimized_ids@.contains(0)
        &&& forall|j: int| #[trigger] self.minimized_ids@.contains(j) ==> self.min_node_ok(j)
        &&& forall|j: int| #[trigger]
            self.minimized_ids@.contains(j) ==> self.ranks@.dom().contains(j) && self.ranks@[j]
                < self.next_rank@
        &&& forall|j: int, t: int|
            self.minimized_ids@.contains(j) && 0 <= t < self.nodes@[j].edges@.len()
                ==> self.ranks@[(#[trigger] self.nodes@[j].edges@[t]).1 as int] < self.ranks@[j]
    }

    /// Transition `e` of node `i` either leads to a minimized node or is
    /// one of the unchecked frontier entries.
    pub open spec fn edge_settled(self, i: int, e: int) -> bool {
        let p = self.nodes@[i].edges@[e];
        self.minimized_ids@.contains(p.1 as int) || exists|k: int|
            0 <= k < self.unchecked_nodes@.len() && (#[trigger] self.unchecked_nodes@[k]).parent
                == i && self.unchecked_nodes@[k].letter == p.0 && self.unchecked_nodes@[k].child
                == p.1
    }

    /// The record of a merge: the parent's transition for `letter` leads
    /// to a minimized node carrying the same signature as `child`.
    pub open spec fn merged_into_store(self, parent: int, letter: char, child: int) -> bool {
        match edge_lookup(self.nodes@[parent].edges@, letter, true) {
            Some(m) => self.minimized_ids@.contains(m as int) && (m as int) < self.nodes@.len()
                && sig_eq(self.nodes@[m as int], self.nodes@[child]),
            None => false,
        }
    }

    /// Every transition of the graph is settled.
    pub open spec fn edges_settled(self) -> bool {
        forall|i: int, e: int|
            0 <= i < self.nodes@.len() && 0 <= e < self.nodes@[i].edges@.len()
                ==> #[trigger] self.edge_settled(i, e)
    }

    /// The node store lists only minimized nodes, and no two of its
    /// entries share a signature.
    pub open spec fn registry_ok(self) -> bool {
        &&& forall|r: int|
            0 <= r < self.minimized_nodes@.len() ==> self.minimized_ids@.contains(
                (#[trigger] self.minimized_nodes@[r]) as int,
            )
        &&& forall|r1: int, r2: int|
            0 <= r1 < r2 < self.minimized_nodes@.len() ==> !sig_eq(
                self.nodes@[(#[trigger] self.minimized_nodes@[r1]) as int],
                self.nodes@[(#[trigger] self.minimized_nodes@[r2]) as int],
            )
    }

    /// Structural well-formedness of the whole builder, independent of
    /// which word the frontier letters spell.
    pub open spec fn wf_core(self) -> bool {
        &&& self.nodes@.len() >= 1
        &&& self.root == 0
        &&& nodes_wf(self.nodes@)
        &&& self.frontier_ok()
        &&& self.minimized_closed()
        &&& self.edges_settled()
        &&& self.registry_ok()
    }

    /// Well-formedness: the structure is sound and the frontier letters
    /// spell a prefix of the last inserted word.
    pub open spec fn wf(self) -> bool {
        &&& self.wf_core()
        &&& self.letters_match(self.previous_word@)
    }

    /// Branch labels along the open path are bounded by the path's own
    /// letters, and the path's last node is still a leaf.  Words arrive
    /// in sorted order, so a node at depth `k` never receives a label
    /// above the last word's letter at `k`; this is what lets a new word
    /// extend the graph without ever overwriting an existing transition.
    pub open spec fn labels_bound(self) -> bool {
        &&& forall|k: int|
            0 <= k < self.unchecked_nodes@.len() ==> #[trigger] node_labels_le(
                self.nodes@,
                self.frontier_parent(k),
                self.previous_word@[k],
            )
        &&& self.nodes@[self.frontier_parent(self.unchecked_nodes@.len() as int)].edges@.len() == 0
    }

    /// The builder is mid-construction: the frontier covers the whole
    /// path of the last inserted word and its branch labels are bounded
    /// by that word's letters.  `new` establishes this and `add` keeps
    /// it; it is what makes the guarantees of `add` available.
    pub open spec fn in_build(self) -> bool {
        &&& self.unchecked_nodes@.len() == self.previous_word@.len()
        &&& !self.finished
        &&& self.labels_bound()
    }

    /// A fresh builder: one root node, nothing inserted.
    pub fn new() -> (d: Dawg)
        ensures
            d.wf(),
            d.in_build(),
            !d.finished,
            d.previous_word@.len() == 0,
            d.unchecked_nodes@.len() == 0,
            d.nodes@.len() == 1,
            !d.nodes@[0].terminal,
            d.nodes@[0].edges@.len() == 0,
            d.nodes@[0].count == 0,
    {
        let mut nodes: Vec<DawgNode> = Vec::new();
        nodes.push(DawgNode::new(0));
        let d = Dawg {
            nodes,
            root: 0,
            minimized_nodes: Vec::new(),
            unchecked_nodes: Vec::new(),
            previous_word: Vec::new(),
            finished: false,
            minimized_ids: Ghost(Set::empty()),
            ranks: Ghost(Map::empty()),
            next_rank: Ghost(0),
        };
        proof {
            assert(d.nodes@.len() == 1);
            assert(node_wf(d.nodes@, 0));
        }
        d
    }

    /// Allocates a fresh node at the end of the arena.
    fn create_node(&mut self) -> (i: usize)
        requires
            old(self).wf_core(),
        ensures
            final (self).wf_core(),
            i == old(self).nodes@.len(),
            final (self).nodes@.len() == old(self).nodes@.len() + 1,
            forall|j: int|
                0 <= j < old(self).nodes@.len() ==> final (self).nodes@[j] == old(self).nodes@[j],
            final (self).nodes@[i as int].id == i,
            !final (self).nodes@[i as int].terminal,
            final (self).nodes@[i as int].edges@.len() == 0,
            final (self).nodes@[i as int].count == 0,
            !final (self).minimized_ids@.contains(i as int),
            final (self).root == old(self).root,
            final (self).minimized_nodes@ == old(self).minimized_nodes@,
            final (self).unchecked_nodes@ == old(self).unchecked_nodes@,
            final (self).previous_word@ == old(self).previous_word@,
            final (self).finished == old(self).finished,
            final (self).minimized_ids@ == old(self).minimized_ids@,
    {
        let i = self.nodes.len();
        let n = DawgNode::new(i);
        self.nodes.push(n);
        proof {
            let pre = old(self);
            let post = *self;
            assert(post.nodes@ == pre.nodes@.push(post.nodes@[i as int]));
            assert forall|j: int| 0 <= j < post.nodes@.len() implies #[trigger] node_wf(
                post.nodes@,
                j,
            ) by {
                if j < i {
                    assert(node_wf(pre.nodes@, j));
                    assert(post.nodes@[j] == pre.nodes@[j]);
                }
            }
            if pre.minimized_ids@.contains(i as int) {
                assert(pre.min_node_ok(i as int));
                assert(false);
            }
            assert forall|k: int| 0 <= k < post.unchecked_nodes@.len() implies
                #[trigger] post.frontier_entry_ok(k) by {
                assert(pre.frontier_entry_ok(k));
            }
            assert forall|j: int| #[trigger] post.minimized_ids@.contains(j) implies
                post.min_node_ok(j) by {
                assert(pre.min_node_ok(j));
                lemma_sum_counts_frame(pre.nodes@, post.nodes@, pre.nodes@[j].edges@);
            }
            assert forall|i2: int, e: int|
                0 <= i2 < post.nodes@.len() && 0 <= e < post.nodes@[i2].edges@.len() implies
                #[trigger] post.edge_settled(i2, e) by {
                if i2 < i {
                    assert(pre.edge_settled(i2, e));
                }
            }
        }
        i
    }
}

impl Dawg {
    /// Scans the node store for a canonical node carrying the same
    /// signature as `child`.
    fn find_canonical(&self, child: usize) -> (r: Option<usize>)
        requires
            self.wf_core(),
            child < self.nodes@.len(),
        ensures
            match r {
                Some(m) => (m as int) < self.nodes@.len() && self.minimized_ids@.contains(m as int)
                    && sig_eq(self.nodes@[m as int], self.nodes@[child as int]),
                None => forall|ri: int|
                    0 <= ri < self.minimized_nodes@.len() ==> !sig_eq(
                        self.nodes@[(#[trigger] self.minimized_nodes@[ri]) as int],
                        self.nodes@[child as int],
                    ),
            },
    {
        let mut ri: usize = 0;
        while ri < self.minimized_nodes.len()
            invariant
                self.wf_core(),
                child < self.nodes@.len(),
                ri <= self.minimized_nodes@.len(),
                forall|j: int|
                    0 <= j < ri ==> !sig_eq(
                        self.nodes@[(#[trigger] self.minimized_nodes@[j]) as int],
                        self.nodes@[child as int],
                    ),
            decreases self.minimized_nodes@.len() - ri,
        {
            let m = self.minimized_nodes[ri];
            proof {
                assert(self.minimized_ids@.contains(m as int));
                assert(self.min_node_ok(m as int));
            }
            if same_signature(&self.nodes[m], &self.nodes[child]) {
                return Some(m);
            }
            ri = ri + 1;
        }
        None
    }

    /// Evaluates the counting recurrence at node `i`: one if terminal,
    /// plus the counts stored at its children, clamped to `usize`.
    fn compute_count(&self, i: usize) -> (r: usize)
        requires
            self.wf_core(),
            i < self.nodes@.len(),
        ensures
            r == clamp_usize(
                (if self.nodes@[i as int].terminal {
                    1int
                } else {
                    0int
                }) + sum_counts(self.nodes@, self.nodes@[i as int].edges@),
            ),
    {
        let ghost edges = self.nodes@[i as int].edges@;
        let ghost base: int = if self.nodes@[i as int].terminal {
            1int
        } else {
            0int
        };
        let mut acc: usize = if self.nodes[i].terminal {
            1
        } else {
            0
        };
        let mut e: usize = 0;
        proof {
            assert(edges.take(0) =~= Seq::<(char, usize)>::empty());
        }
        while e < self.nodes[i].edges.len()
            invariant
                self.wf_core(),
                i < self.nodes@.len(),
                edges == self.nodes@[i as int].edges@,
                base == (if self.nodes@[i as int].terminal {
                    1int
                } else {
                    0int
                }),
                e <= edges.len(),
                acc == clamp_usize(base + sum_counts(self.nodes@, edges.take(e as int))),
            decreases edges.len() - e,
        {
            let t = self.nodes[i].edges[e].1;
            proof {
                assert(node_wf(self.nodes@, i as int));
                assert((edges[e as int]).1 < self.nodes@.len());
            }
            let c = self.nodes[t].count;
            proof {
                assert(edges.take(e + 1).drop_last() =~= edges.take(e as int));
                assert(edges.take(e + 1).last() == edges[e as int]);
                assert(sum_counts(self.nodes@, edges.take(e + 1)) == sum_counts(
                    self.nodes@,
                    edges.take(e as int),
                ) + c);
            }
            if acc > usize::MAX - c {
                acc = usize::MAX;
            } else {
                acc = acc + c;
            }
            e = e + 1;
        }
        proof {
            assert(edges.take(edges.len() as int) =~= edges);
        }
        acc
    }
}

impl Dawg {
    /// Minimizes the unchecked frontier down to depth `down_to`: walks it
    /// from its deepest entry, merges each child into the node store —
    /// redirecting its parent to an already registered node of equal
    /// signature where one exists — and settles the child's word count.
    /// Entries at depth `down_to` and above stay open for the next word.
    /// Merging changes no query: the accepted language is preserved.
    /// `add` and `finish` drive this with the right depths; calling it
    /// directly with a depth below the last word's length closes part of
    /// that word's path early and forfeits the mid-construction state
    /// (`in_build`), and with it the per-word guarantees of later `add`
    /// calls — though the graph stays well formed and answers queries.
    pub fn minimize(&mut self, down_to: usize)
        requires
            old(self).wf(),
        ensures
            final (self).wf(),
            forall|w: Seq<char>, cs: bool|
                accepts(final (self).nodes@, 0, w, cs) == #[trigger] accepts(
                    old(self).nodes@,
                    0,
                    w,
                    cs,
                ),
            forall|w: Seq<char>, cs: bool|
                (walk(final (self).nodes@, 0, w, cs) is Some) == ((#[trigger] walk(
                    old(self).nodes@,
                    0,
                    w,
                    cs,
                )) is Some),
            labels_preserved(old(self).nodes@, final (self).nodes@),
            final (self).unchecked_nodes@ == old(self).unchecked_nodes@.take(
                if old(self).unchecked_nodes@.len() <= down_to {
                    old(self).unchecked_nodes@.len() as int
                } else {
                    down_to as int
                },
            ),
            final (self).nodes@.len() == old(self).nodes@.len(),
            final (self).root == old(self).root,
            final (self).previous_word@ == old(self).previous_word@,
            final (self).finished == old(self).finished,
            old(self).minimized_ids@ <= final (self).minimized_ids@,
            // a cut at or beyond the last word's depth changes nothing, so
            // it keeps the mid-construction state
            old(self).unchecked_nodes@.len() <= down_to ==> *final (self) == *old(self),
            // each popped entry was merged: its parent's transition for its
            // letter now leads to a minimized node carrying the popped
            // child's signature (the node store holds at most one such node)
            forall|k: int|
                down_to <= k < old(self).unchecked_nodes@.len() ==> final (self).merged_into_store(
                    (#[trigger] old(self).unchecked_nodes@[k]).parent as int,
                    old(self).unchecked_nodes@[k].letter,
                    old(self).unchecked_nodes@[k].child as int,
                ),
    {
        if self.unchecked_nodes.len() <= down_to {
            proof {
                assert(self.unchecked_nodes@.take(self.unchecked_nodes@.len() as int)
                    =~= self.unchecked_nodes@);
            }
            return ;
        }
        proof {
            assert(self.unchecked_nodes@.take(self.unchecked_nodes@.len() as int)
                =~= self.unchecked_nodes@);
        }
        while self.unchecked_nodes.len() > down_to
            invariant
                old(self).wf(),
                self.wf(),
                self.unchecked_nodes@.len() <= old(self).unchecked_nodes@.len(),
                self.unchecked_nodes@ == old(self).unchecked_nodes@.take(
                    self.unchecked_nodes@.len() as int,
                ),
                down_to <= self.unchecked_nodes@.len() || self.unchecked_nodes@.len() == old(
                    self,
                ).unchecked_nodes@.len(),
                self.nodes@.len() == old(self).nodes@.len(),
                self.root == old(self).root,
                self.previous_word@ == old(self).previous_word@,
                self.finished == old(self).finished,
                old(self).minimized_ids@ <= self.minimized_ids@,
                forall|w: Seq<char>, cs: bool|
                    accepts(self.nodes@, 0, w, cs) == #[trigger] accepts(
                        old(self).nodes@,
                        0,
                        w,
                        cs,
                    ),
                labels_preserved(old(self).nodes@, self.nodes@),
                forall|w: Seq<char>, cs: bool|
                    (walk(self.nodes@, 0, w, cs) is Some) == ((#[trigger] walk(
                        old(self).nodes@,
                        0,
                        w,
                        cs,
                    )) is Some),
                forall|k2: int|
                    self.unchecked_nodes@.len() <= k2 < old(self).unchecked_nodes@.len()
                        ==> self.merged_into_store(
                        (#[trigger] old(self).unchecked_nodes@[k2]).parent as int,
                        old(self).unchecked_nodes@[k2].letter,
                        old(self).unchecked_nodes@[k2].child as int,
                    ),
            decreases self.unchecked_nodes@.len(),
        {
            let k = self.unchecked_nodes.len() - 1;
            let e = self.unchecked_nodes[k];
            let ghost pre = *self;
            proof {
                assert(pre.frontier_entry_ok(k as int));
            }
            let found = self.find_canonical(e.child);
            match found {
                Some(m) => {
                    proof {
                        assert(node_wf(pre.nodes@, e.parent as int));
                        if e.parent as int == 0 {
                            assert(!pre.minimized_ids@.contains(e.parent as int));
                        } else {
                            assert(k > 0 && e.parent == pre.unchecked_nodes@[k - 1].child) by {
                                assert(pre.frontier_entry_ok(k as int));
                            }
                            assert(pre.frontier_entry_ok(k - 1));
                            assert(!pre.minimized_ids@.contains(e.parent as int));
                        }
                    }
                    insert_edge(&mut self.nodes[e.parent].edges, e.letter, m);
                    self.unchecked_nodes.pop();
                    proof {
                        lemma_minimize_merge(pre, *self, k as int, m);
                        let p = e.parent as int;
                        lemma_minimized_set_closed(pre);
                        lemma_deepest_child_settled(pre);
                        lemma_lookup_exact(pre.nodes@[p].edges@, e.letter);
                        assert forall|j: int|
                            0 <= j < pre.nodes@[p].edges@.len() implies (
                        #[trigger] self.nodes@[p].edges@[j]).0 == pre.nodes@[p].edges@[j].0 && (
                        self.nodes@[p].edges@[j] == pre.nodes@[p].edges@[j] || (
                        pre.nodes@[p].edges@[j].1 == e.child && self.nodes@[p].edges@[j].1
                            == m)) by {
                            if pre.nodes@[p].edges@[j].0 == e.letter {
                                assert(pre.nodes@[p].edges@[j].1 == e.child);
                            }
                        }
                        assert forall|w: Seq<char>, cs: bool|
                            accepts(self.nodes@, 0, w, cs) == #[trigger] accepts(
                                pre.nodes@,
                                0,
                                w,
                                cs,
                            ) && (walk(self.nodes@, 0, w, cs) is Some) == (walk(
                            pre.nodes@,
                            0,
                            w,
                            cs,
                        ) is Some) by {
                            lemma_rewrite_accepts(
                                pre.nodes@,
                                self.nodes@,
                                pre.minimized_ids@,
                                p,
                                e.child,
                                m,
                                0,
                                w,
                                cs,
                            );
                        }
                        assert forall|w: Seq<char>, cs: bool|
                            accepts(self.nodes@, 0, w, cs) == #[trigger] accepts(
                                old(self).nodes@,
                                0,
                                w,
                                cs,
                            ) by {
                            assert(accepts(pre.nodes@, 0, w, cs) == accepts(
                                old(self).nodes@,
                                0,
                                w,
                                cs,
                            ));
                        }
                        assert forall|w: Seq<char>, cs: bool|
                            (walk(self.nodes@, 0, w, cs) is Some) == ((#[trigger] walk(
                                old(self).nodes@,
                                0,
                                w,
                                cs,
                            )) is Some) by {
                            assert((walk(pre.nodes@, 0, w, cs) is Some) == (walk(
                                old(self).nodes@,
                                0,
                                w,
                                cs,
                            ) is Some));
                            assert(accepts(self.nodes@, 0, w, cs) == accepts(pre.nodes@, 0, w, cs));
                            assert((walk(self.nodes@, 0, w, cs) is Some) == (walk(
                                pre.nodes@,
                                0,
                                w,
                                cs,
                            ) is Some));
                        }
                        assert forall|i2: int| 0 <= i2 < pre.nodes@.len() implies (
                        #[trigger] self.nodes@[i2]).terminal == pre.nodes@[i2].terminal
                            && self.nodes@[i2].edges@.len() == pre.nodes@[i2].edges@.len() && (
                        forall|t: int|
                            0 <= t < pre.nodes@[i2].edges@.len() ==> (
                            #[trigger] self.nodes@[i2].edges@[t]).0
                                == pre.nodes@[i2].edges@[t].0) by {
                            if i2 != p {
                                assert(self.nodes@[i2] == pre.nodes@[i2]);
                            }
                        }
                        lemma_labels_preserved_trans(old(self).nodes@, pre.nodes@, self.nodes@);

                        // record the merge of the popped entry; earlier pops'
                        // records mention only untouched nodes
                        assert forall|k2: int|
                            self.unchecked_nodes@.len() <= k2 < old(
                                self,
                            ).unchecked_nodes@.len() implies self.merged_into_store(
                            (#[trigger] old(self).unchecked_nodes@[k2]).parent as int,
                            old(self).unchecked_nodes@[k2].letter,
                            old(self).unchecked_nodes@[k2].child as int,
                        ) by {
                            assert(pre.merged_into_store(
                                old(self).unchecked_nodes@[k2].parent as int,
                                old(self).unchecked_nodes@[k2].letter,
                                old(self).unchecked_nodes@[k2].child as int,
                            ) || k2 == k as int) by {
                                if k2 != k as int {
                                    assert(pre.unchecked_nodes@.len() <= k2);
                                }
                            }
                            let ek2 = old(self).unchecked_nodes@[k2];
                            if k2 == k as int {
                                assert(ek2 == e) by {
                                    assert(pre.unchecked_nodes@[k2] == old(
                                        self,
                                    ).unchecked_nodes@.take(pre.unchecked_nodes@.len() as int)[k2]);
                                }
                                assert(edge_lookup(self.nodes@[p].edges@, e.letter, true) == Some(
                                    m,
                                ));
                                assert(pre.frontier_entry_ok(k as int));
                                assert(e.child as int != p && m as int != p);
                                assert(self.nodes@[m as int] == pre.nodes@[m as int]);
                                assert(self.nodes@[e.child as int] == pre.nodes@[e.child as int]);
                            } else {
                                assert(old(self).frontier_entry_ok(k2));
                                assert(ek2.parent as int != p) by {
                                    assert(old(self).frontier_entry_ok(k2 - 1));
                                    if k as int >= 1 {
                                        assert(pre.frontier_entry_ok(k - 1));
                                        assert(pre.unchecked_nodes@[k - 1] == old(
                                            self,
                                        ).unchecked_nodes@.take(
                                            pre.unchecked_nodes@.len() as int,
                                        )[k - 1]);
                                    }
                                }
                                assert(self.nodes@[ek2.parent as int]
                                    == pre.nodes@[ek2.parent as int]);
                                match edge_lookup(pre.nodes@[ek2.parent as int].edges@, ek2.letter, true) {
                                    Some(m2) => {
                                        assert(m2 as int != p) by {
                                            assert(pre.minimized_ids@.contains(m2 as int));
                                        }
                                        assert(ek2.child as int != p) by {
                                            if k as int >= 1 {
                                                assert(pre.frontier_entry_ok(k - 1));
                                                assert(pre.unchecked_nodes@[k - 1] == old(
                                                    self,
                                                ).unchecked_nodes@.take(
                                                    pre.unchecked_nodes@.len() as int,
                                                )[k - 1]);
                                            }
                                        }
                                        assert(self.nodes@[m2 as int] == pre.nodes@[m2 as int]);
                                        assert(self.nodes@[ek2.child as int]
                                            == pre.nodes@[ek2.child as int]);
                                    },
                                    None => {},
                                }
                            }
                        }
                    }
                },
                None => {
                    let c = self.compute_count(e.child);
                    self.nodes[e.child].count = c;
                    self.minimized_nodes.push(e.child);
                    proof {
                        self.minimized_ids@ = self.minimized_ids@.insert(e.child as int);
                        self.ranks@ = self.ranks@.insert(e.child as int, self.next_rank@);
                        self.next_rank@ = self.next_rank@ + 1;
                    }
                    self.unchecked_nodes.pop();
                    proof {
                        lemma_minimize_register(pre, *self, k as int, c);
                        assert(forall|i2: int|
                            0 <= i2 < pre.nodes@.len() ==> (#[trigger] self.nodes@[i2]).edges@
                                == pre.nodes@[i2].edges@);
                        assert forall|w: Seq<char>, cs: bool|
                            accepts(self.nodes@, 0, w, cs) == #[trigger] accepts(
                                pre.nodes@,
                                0,
                                w,
                                cs,
                            ) && walk(self.nodes@, 0, w, cs) == walk(pre.nodes@, 0, w, cs) by {
                            lemma_walk_shape_frame(pre.nodes@, self.nodes@, 0, w, cs);
                            lemma_walk_edges_only(pre.nodes@, self.nodes@, 0, w, cs);
                        }
                        assert forall|w: Seq<char>, cs: bool|
                            accepts(self.nodes@, 0, w, cs) == #[trigger] accepts(
                                old(self).nodes@,
                                0,
                                w,
                                cs,
                            ) by {
                            assert(accepts(pre.nodes@, 0, w, cs) == accepts(
                                old(self).nodes@,
                                0,
                                w,
                                cs,
                            ));
                        }
                        assert forall|w: Seq<char>, cs: bool|
                            (walk(self.nodes@, 0, w, cs) is Some) == ((#[trigger] walk(
                                old(self).nodes@,
                                0,
                                w,
                                cs,
                            )) is Some) by {
                            assert((walk(pre.nodes@, 0, w, cs) is Some) == (walk(
                                old(self).nodes@,
                                0,
                                w,
                                cs,
                            ) is Some));
                            assert(accepts(self.nodes@, 0, w, cs) == accepts(pre.nodes@, 0, w, cs));
                            assert(walk(self.nodes@, 0, w, cs) == walk(pre.nodes@, 0, w, cs));
                        }
                        assert forall|i2: int| 0 <= i2 < pre.nodes@.len() implies (
                        #[trigger] self.nodes@[i2]).terminal == pre.nodes@[i2].terminal
                            && self.nodes@[i2].edges@.len() == pre.nodes@[i2].edges@.len() && (
                        forall|t: int|
                            0 <= t < pre.nodes@[i2].edges@.len() ==> (
                            #[trigger] self.nodes@[i2].edges@[t]).0
                                == pre.nodes@[i2].edges@[t].0) by {
                            if i2 != e.child as int {
                                assert(self.nodes@[i2] == pre.nodes@[i2]);
                            }
                        }
                        // record the registration of the popped child; earlier
                        // pops' records survive the count write
                        assert forall|k2: int|
                            self.unchecked_nodes@.len() <= k2 < old(
                                self,
                            ).unchecked_nodes@.len() implies self.merged_into_store(
                            (#[trigger] old(self).unchecked_nodes@[k2]).parent as int,
                            old(self).unchecked_nodes@[k2].letter,
                            old(self).unchecked_nodes@[k2].child as int,
                        ) by {
                            let ek2 = old(self).unchecked_nodes@[k2];
                            let ch = e.child as int;
                            assert(self.nodes@[ch].edges@ == pre.nodes@[ch].edges@);
                            assert(self.nodes@[ch].terminal == pre.nodes@[ch].terminal);
                            if k2 == k as int {
                                assert(ek2 == e) by {
                                    assert(pre.unchecked_nodes@[k2] == old(
                                        self,
                                    ).unchecked_nodes@.take(pre.unchecked_nodes@.len() as int)[k2]);
                                }
                                assert(pre.frontier_entry_ok(k as int));
                                assert(e.parent as int != ch) by {
                                    if k as int >= 1 {
                                        assert(pre.frontier_entry_ok(k - 1));
                                    }
                                }
                                assert(self.nodes@[e.parent as int] == pre.nodes@[e.parent as int]);
                                assert(edge_lookup(
                                    self.nodes@[e.parent as int].edges@,
                                    e.letter,
                                    true,
                                ) == Some(e.child));
                                assert(self.minimized_ids@.contains(ch));
                                assert(sig_eq(self.nodes@[ch], self.nodes@[ch]));
                            } else {
                                assert(pre.merged_into_store(
                                    ek2.parent as int,
                                    ek2.letter,
                                    ek2.child as int,
                                )) by {
                                    assert(pre.unchecked_nodes@.len() <= k2);
                                }
                                assert(old(self).frontier_entry_ok(k2));
                                assert(self.nodes@[ek2.parent as int].edges@
                                    == pre.nodes@[ek2.parent as int].edges@) by {
                                    if ek2.parent as int != ch {
                                        assert(self.nodes@[ek2.parent as int]
                                            == pre.nodes@[ek2.parent as int]);
                                    }
                                }
                                match edge_lookup(pre.nodes@[ek2.parent as int].edges@, ek2.letter, true) {
                                    Some(m2) => {
                                        assert(m2 as int != ch) by {
                                            assert(pre.minimized_ids@.contains(m2 as int));
                                        }
                                        assert(ek2.child as int != ch) by {
                                            assert(old(self).frontier_entry_ok(k2));
                                            assert(pre.unchecked_nodes@[k as int] == old(
                                                self,
                                            ).unchecked_nodes@.take(
                                                pre.unchecked_nodes@.len() as int,
                                            )[k as int]);
                                        }
                                        assert(self.nodes@[m2 as int] == pre.nodes@[m2 as int]);
                                        assert(self.nodes@[ek2.child as int]
                                            == pre.nodes@[ek2.child as int]);
                                    },
                                    None => {},
                                }
                            }
                        }
                        lemma_labels_preserved_trans(old(self).nodes@, pre.nodes@, self.nodes@);
                    }
                },
            }
            proof {
                assert(self.unchecked_nodes@ == pre.unchecked_nodes@.drop_last());
                assert(pre.unchecked_nodes@ == old(self).unchecked_nodes@.take(
                    pre.unchecked_nodes@.len() as int,
                ));
                assert(self.unchecked_nodes@.len() == k as int);
                assert forall|j: int| 0 <= j < k implies self.unchecked_nodes@[j] == old(
                    self,
                ).unchecked_nodes@[j] by {
                    assert(pre.unchecked_nodes@.drop_last()[j] == pre.unchecked_nodes@[j]);
                    assert(old(self).unchecked_nodes@.take(pre.unchecked_nodes@.len() as int)[j]
                        == old(self).unchecked_nodes@[j]);
                }
                assert(self.unchecked_nodes@ =~= old(self).unchecked_nodes@.take(k as int));
            }
        }
    }
}

/// The minimized set is closed in the walking sense: no walk that starts
/// on a minimized node ever leaves the minimized nodes.
proof fn lemma_minimized_set_closed(d: Dawg)
    requires
        d.wf_core(),
    ensures
        set_closed(d.nodes@, d.minimized_ids@),
{
    assert forall|j: int| #[trigger] d.minimized_ids@.contains(j) implies 0 <= j < d.nodes@.len()
        && (forall|t: int|
        0 <= t < d.nodes@[j].edges@.len() ==> d.minimized_ids@.contains(
            (#[trigger] d.nodes@[j].edges@[t]).1 as int,
        )) by {
        assert(d.min_node_ok(j));
    }
}

/// The deepest frontier entry's child has every transition settled into
/// the minimized set: no frontier entry hangs below it.
proof fn lemma_deepest_child_settled(d: Dawg)
    requires
        d.wf_core(),
        d.unchecked_nodes@.len() > 0,
    ensures
        forall|t: int|
            0 <= t < d.nodes@[d.unchecked_nodes@[d.unchecked_nodes@.len() - 1].child as int].edges@.len()
                ==> d.minimized_ids@.contains(
                (#[trigger] d.nodes@[d.unchecked_nodes@[d.unchecked_nodes@.len() - 1].child as int].edges@[t]).1
                    as int,
            ),
{
    let k = d.unchecked_nodes@.len() - 1;
    let e = d.unchecked_nodes@[k];
    let ch = e.child as int;
    assert(d.frontier_entry_ok(k));
    assert forall|t: int| 0 <= t < d.nodes@[ch].edges@.len() implies d.minimized_ids@.contains(
        (#[trigger] d.nodes@[ch].edges@[t]).1 as int,
    ) by {
        assert(d.edge_settled(ch, t));
        if !d.minimized_ids@.contains(d.nodes@[ch].edges@[t].1 as int) {
            let kw = choose|kw: int|
                0 <= kw < d.unchecked_nodes@.len() && (#[trigger] d.unchecked_nodes@[kw]).parent
                    == ch && d.unchecked_nodes@[kw].letter == d.nodes@[ch].edges@[t].0
                    && d.unchecked_nodes@[kw].child == d.nodes@[ch].edges@[t].1;
            assert(d.frontier_entry_ok(kw));
            assert(kw > 0) by {
                assert(e.child != 0);
            }
            assert(d.unchecked_nodes@[kw - 1].child == e.child);
            assert(kw - 1 == k) by {
                if kw - 1 < k {
                    assert(d.frontier_entry_ok(k));
                }
            }
            assert(false);
        }
    }
}

/// After redirecting the deepest frontier entry's parent to a registered
/// node `m` of equal signature and popping the entry, well-formedness is
/// preserved.
proof fn lemma_minimize_merge(pre: Dawg, post: Dawg, k: int, m: usize)
    requires
        pre.wf(),
        k == pre.unchecked_nodes@.len() - 1,
        k >= 0,
        (m as int) < pre.nodes@.len(),
        pre.minimized_ids@.contains(m as int),
        post.unchecked_nodes@ == pre.unchecked_nodes@.drop_last(),
        post.root == pre.root,
        post.minimized_nodes@ == pre.minimized_nodes@,
        post.previous_word@ == pre.previous_word@,
        post.finished == pre.finished,
        post.minimized_ids@ == pre.minimized_ids@,
        post.ranks@ == pre.ranks@,
        post.next_rank@ == pre.next_rank@,
        post.nodes@.len() == pre.nodes@.len(),
        // only the parent's transition list changed:
        forall|j: int|
            0 <= j < pre.nodes@.len() && j != pre.unchecked_nodes@[k].parent as int
                ==> post.nodes@[j] == pre.nodes@[j],
        post.nodes@[pre.unchecked_nodes@[k].parent as int].id == pre.nodes@[pre.unchecked_nodes@[k].parent as int].id,
        post.nodes@[pre.unchecked_nodes@[k].parent as int].terminal == pre.nodes@[pre.unchecked_nodes@[k].parent as int].terminal,
        post.nodes@[pre.unchecked_nodes@[k].parent as int].count == pre.nodes@[pre.unchecked_nodes@[k].parent as int].count,
        // insert_edge contract on the parent's transition list:
        edges_sorted(post.nodes@[pre.unchecked_nodes@[k].parent as int].edges@),
        edge_lookup(
            post.nodes@[pre.unchecked_nodes@[k].parent as int].edges@,
            pre.unchecked_nodes@[k].letter,
            true,
        ) == Some(m),
        forall|p: (char, usize)| #[trigger]
            post.nodes@[pre.unchecked_nodes@[k].parent as int].edges@.contains(p) ==> p == (
            pre.unchecked_nodes@[k].letter,
            m,
        ) || (pre.nodes@[pre.unchecked_nodes@[k].parent as int].edges@.contains(p) && p.0
            != pre.unchecked_nodes@[k].letter),
        forall|p: (char, usize)| #[trigger]
            pre.nodes@[pre.unchecked_nodes@[k].parent as int].edges@.contains(p) && p.0
                != pre.unchecked_nodes@[k].letter ==> post.nodes@[pre.unchecked_nodes@[k].parent as int].edges@.contains(
                p,
            ),
        forall|c2: char|
            c2 != pre.unchecked_nodes@[k].letter ==> #[trigger] edge_lookup(
                post.nodes@[pre.unchecked_nodes@[k].parent as int].edges@,
                c2,
                true,
            ) == edge_lookup(pre.nodes@[pre.unchecked_nodes@[k].parent as int].edges@, c2, true),
    ensures
        post.wf(),
{
    let e = pre.unchecked_nodes@[k];
    let p = e.parent as int;
    assert(pre.frontier_entry_ok(k));
    assert(!pre.minimized_ids@.contains(p)) by {
        if p != 0 {
            assert(pre.frontier_entry_ok(k - 1));
        }
    }
    assert forall|j: int| #[trigger] post.minimized_ids@.contains(j) implies post.ranks@.dom().contains(j) && post.ranks@[j] < post.next_rank@ by {
        assert(pre.minimized_ids@.contains(j));
    }
    assert forall|j: int, t: int|
        post.minimized_ids@.contains(j) && 0 <= t < post.nodes@[j].edges@.len() implies post.ranks@[(#[trigger] post.nodes@[j].edges@[t]).1 as int] < post.ranks@[j] by {
        assert(pre.minimized_ids@.contains(j));
        assert(j != p);
        assert(post.nodes@[j].edges@ == pre.nodes@[j].edges@);
    }

    assert(post.unchecked_nodes@ =~= pre.unchecked_nodes@.take(k));
    // the arena stays well formed
    assert forall|i: int| 0 <= i < post.nodes@.len() implies #[trigger] node_wf(
        post.nodes@,
        i,
    ) by {
        assert(node_wf(pre.nodes@, i));
        if i == p {
            assert forall|e2: int| 0 <= e2 < post.nodes@[i].edges@.len() implies (
            #[trigger] post.nodes@[i].edges@[e2]).1 < post.nodes@.len() by {
                let pr = post.nodes@[i].edges@[e2];
                assert(post.nodes@[i].edges@.contains(pr));
                if pr != (e.letter, m) {
                    assert(pre.nodes@[i].edges@.contains(pr));
                    let j = choose|j: int|
                        0 <= j < pre.nodes@[i].edges@.len() && pre.nodes@[i].edges@[j] == pr;
                    assert(pre.nodes@[i].edges@[j].1 < pre.nodes@.len());
                }
            }
        }
    }
    // remaining frontier entries still record real transitions
    assert forall|k2: int| 0 <= k2 < post.unchecked_nodes@.len() implies
        #[trigger] post.frontier_entry_ok(k2) by {
        assert(pre.frontier_entry_ok(k2));
        let e2 = pre.unchecked_nodes@[k2];
        assert(post.frontier_parent(k2) == pre.frontier_parent(k2));
        assert(e2.parent as int != p) by {
            if k > 0 {
                assert(pre.frontier_entry_ok(k - 1));
                if k2 > 0 {
                    assert(pre.unchecked_nodes@[k2 - 1].child != pre.unchecked_nodes@[k - 1].child);
                }
            }
        }
        assert(post.nodes@[e2.parent as int] == pre.nodes@[e2.parent as int]);
    }
    // minimized nodes are untouched, so the closure holds on
    assert forall|j: int| #[trigger] post.minimized_ids@.contains(j) implies post.min_node_ok(
        j,
    ) by {
        assert(pre.min_node_ok(j));
        assert(j != p);
        assert(post.nodes@[j] == pre.nodes@[j]);
        assert forall|t: int|
            0 <= t < post.nodes@[j].edges@.len() implies (#[trigger] post.nodes@[j].edges@[t]).1
            as int != p && (post.nodes@[j].edges@[t].1 as int) < post.nodes@.len() by {
            assert(pre.minimized_ids@.contains(pre.nodes@[j].edges@[t].1 as int));
            assert(pre.min_node_ok(pre.nodes@[j].edges@[t].1 as int));
        }
        lemma_sum_counts_frame(pre.nodes@, post.nodes@, pre.nodes@[j].edges@);
    }
    // every transition is settled: the rewritten one now leads to a
    // minimized node, all others keep their witnesses
    assert forall|i: int, e2: int|
        0 <= i < post.nodes@.len() && 0 <= e2 < post.nodes@[i].edges@.len() implies
        #[trigger] post.edge_settled(i, e2) by {
        if i != p {
            assert(pre.edge_settled(i, e2));
            if !pre.minimized_ids@.contains(pre.nodes@[i].edges@[e2].1 as int) {
                let kw = choose|kw: int|
                    0 <= kw < pre.unchecked_nodes@.len() && (
                    #[trigger] pre.unchecked_nodes@[kw]).parent == i
                        && pre.unchecked_nodes@[kw].letter == pre.nodes@[i].edges@[e2].0
                        && pre.unchecked_nodes@[kw].child == pre.nodes@[i].edges@[e2].1;
                assert(kw != k);
                assert(post.unchecked_nodes@[kw] == pre.unchecked_nodes@[kw]);
            }
        } else {
            let pr = post.nodes@[i].edges@[e2];
            assert(post.nodes@[i].edges@.contains(pr));
            if pr == (e.letter, m) {
                assert(post.minimized_ids@.contains(pr.1 as int));
            } else {
                assert(pre.nodes@[i].edges@.contains(pr) && pr.0 != e.letter);
                let j = choose|j: int|
                    0 <= j < pre.nodes@[i].edges@.len() && pre.nodes@[i].edges@[j] == pr;
                assert(pre.edge_settled(i, j));
                if !pre.minimized_ids@.contains(pr.1 as int) {
                    let kw = choose|kw: int|
                        0 <= kw < pre.unchecked_nodes@.len() && (
                        #[trigger] pre.unchecked_nodes@[kw]).parent == i
                            && pre.unchecked_nodes@[kw].letter == pr.0
                            && pre.unchecked_nodes@[kw].child == pr.1;
                    assert(kw < k) by {
                        if kw == k {
                            assert(pre.unchecked_nodes@[kw].letter == e.letter);
                        }
                    }
                    // entry kw would hang from the same parent as entry k
                    assert(pre.frontier_entry_ok(kw));
                    assert(pre.frontier_parent(kw) == p);
                    if k > 0 {
                        assert(pre.frontier_entry_ok(k - 1));
                        if kw > 0 {
                            assert(pre.unchecked_nodes@[kw - 1].child
                                == pre.unchecked_nodes@[k - 1].child);
                            assert(pre.frontier_entry_ok(if kw - 1 > k - 1 {
                                kw - 1
                            } else {
                                k - 1
                            }));
                        }
                    }
                    assert(false);
                }
            }
        }
    }
    // the node store is untouched and its entries kept their signatures
    assert forall|r1: int, r2: int|
        0 <= r1 < r2 < post.minimized_nodes@.len() implies !sig_eq(
            post.nodes@[(#[trigger] post.minimized_nodes@[r1]) as int],
            post.nodes@[(#[trigger] post.minimized_nodes@[r2]) as int],
        ) by {
        assert(pre.minimized_ids@.contains(pre.minimized_nodes@[r1] as int));
        assert(pre.minimized_ids@.contains(pre.minimized_nodes@[r2] as int));
        assert(post.nodes@[pre.minimized_nodes@[r1] as int]
            == pre.nodes@[pre.minimized_nodes@[r1] as int]);
        assert(post.nodes@[pre.minimized_nodes@[r2] as int]
            == pre.nodes@[pre.minimized_nodes@[r2] as int]);
    }
}

/// After registering the deepest frontier entry's child as a new
/// canonical node, settling its count, and popping the entry,
/// well-formedness is preserved.
proof fn lemma_minimize_register(pre: Dawg, post: Dawg, k: int, c: usize)
    requires
        pre.wf(),
        k == pre.unchecked_nodes@.len() - 1,
        k >= 0,
        // the node store held no node of this signature
        forall|ri: int|
            0 <= ri < pre.minimized_nodes@.len() ==> !sig_eq(
                pre.nodes@[(#[trigger] pre.minimized_nodes@[ri]) as int],
                pre.nodes@[pre.unchecked_nodes@[k].child as int],
            ),
        c == clamp_usize(
            (if pre.nodes@[pre.unchecked_nodes@[k].child as int].terminal {
                1int
            } else {
                0int
            }) + sum_counts(pre.nodes@, pre.nodes@[pre.unchecked_nodes@[k].child as int].edges@),
        ),
        post.unchecked_nodes@ == pre.unchecked_nodes@.drop_last(),
        post.root == pre.root,
        post.minimized_nodes@ == pre.minimized_nodes@.push(pre.unchecked_nodes@[k].child),
        post.previous_word@ == pre.previous_word@,
        post.finished == pre.finished,
        post.minimized_ids@ == pre.minimized_ids@.insert(pre.unchecked_nodes@[k].child as int),
        post.ranks@ == pre.ranks@.insert(pre.unchecked_nodes@[k].child as int, pre.next_rank@),
        post.next_rank@ == pre.next_rank@ + 1,
        post.nodes@ == pre.nodes@.update(pre.unchecked_nodes@[k].child as int, post.nodes@[pre.unchecked_nodes@[k].child as int]),
        post.nodes@[pre.unchecked_nodes@[k].child as int].id == pre.nodes@[pre.unchecked_nodes@[k].child as int].id,
        post.nodes@[pre.unchecked_nodes@[k].child as int].terminal == pre.nodes@[pre.unchecked_nodes@[k].child as int].terminal,
        post.nodes@[pre.unchecked_nodes@[k].child as int].edges@ == pre.nodes@[pre.unchecked_nodes@[k].child as int].edges@,
        post.nodes@[pre.unchecked_nodes@[k].child as int].count == c,
    ensures
        post.wf(),
{
    let e = pre.unchecked_nodes@[k];
    let ch = e.child as int;
    assert(pre.frontier_entry_ok(k));
    assert(post.unchecked_nodes@ =~= pre.unchecked_nodes@.take(k));
    assert(post.nodes@.len() == pre.nodes@.len());
    // the child's transitions all lead to minimized nodes: it was the
    // deepest entry, so no frontier entry hangs from it
    assert forall|t: int| 0 <= t < pre.nodes@[ch].edges@.len() implies pre.minimized_ids@.contains(
        (#[trigger] pre.nodes@[ch].edges@[t]).1 as int,
    ) by {
        assert(pre.edge_settled(ch, t));
        if !pre.minimized_ids@.contains(pre.nodes@[ch].edges@[t].1 as int) {
            let kw = choose|kw: int|
                0 <= kw < pre.unchecked_nodes@.len() && (#[trigger] pre.unchecked_nodes@[kw]).parent
                    == ch && pre.unchecked_nodes@[kw].letter == pre.nodes@[ch].edges@[t].0
                    && pre.unchecked_nodes@[kw].child == pre.nodes@[ch].edges@[t].1;
            assert(pre.frontier_entry_ok(kw));
            assert(kw > 0) by {
                assert(e.child != 0);
            }
            assert(pre.unchecked_nodes@[kw - 1].child == e.child);
            assert(kw - 1 == k) by {
                if kw - 1 < k {
                    assert(pre.frontier_entry_ok(k));
                }
            }
            assert(false);
        }
    }
    assert forall|i: int| 0 <= i < post.nodes@.len() implies #[trigger] node_wf(
        post.nodes@,
        i,
    ) by {
        assert(node_wf(pre.nodes@, i));
        assert(post.nodes@[i].edges@ == pre.nodes@[i].edges@);
        assert(post.nodes@[i].id == pre.nodes@[i].id);
    }
    assert forall|k2: int| 0 <= k2 < post.unchecked_nodes@.len() implies
        #[trigger] post.frontier_entry_ok(k2) by {
        assert(pre.frontier_entry_ok(k2));
        let e2 = pre.unchecked_nodes@[k2];
        assert(post.frontier_parent(k2) == pre.frontier_parent(k2));
        assert(e2.child != e.child);
        assert(post.nodes@[e2.parent as int].edges@ == pre.nodes@[e2.parent as int].edges@);
    }
    // the fresh rank sits above every rank its transitions reach
    assert forall|j: int| #[trigger] post.minimized_ids@.contains(j) implies post.ranks@.dom().contains(
        j,
    ) && post.ranks@[j] < post.next_rank@ by {
        if j != ch {
            assert(pre.minimized_ids@.contains(j));
        }
    }
    assert forall|j: int, t: int|
        post.minimized_ids@.contains(j) && 0 <= t < post.nodes@[j].edges@.len() implies post.ranks@[(
        #[trigger] post.nodes@[j].edges@[t]).1 as int] < post.ranks@[j] by {
        assert(post.nodes@[j].edges@ == pre.nodes@[j].edges@);
        if j == ch {
            assert(pre.minimized_ids@.contains(pre.nodes@[ch].edges@[t].1 as int));
            assert(pre.nodes@[ch].edges@[t].1 as int != ch);
        } else {
            assert(pre.minimized_ids@.contains(j));
            assert(pre.minimized_ids@.contains(pre.nodes@[j].edges@[t].1 as int));
            assert(pre.nodes@[j].edges@[t].1 as int != ch);
            assert(j != ch);
        }
    }
    // the enlarged set of minimized nodes is still closed
    assert forall|j: int| #[trigger] post.minimized_ids@.contains(j) implies post.min_node_ok(
        j,
    ) by {
        if j == ch {
            assert forall|t: int|
                0 <= t < post.nodes@[j].edges@.len() implies post.minimized_ids@.contains(
                (#[trigger] post.nodes@[j].edges@[t]).1 as int,
            ) by {
                assert(pre.minimized_ids@.contains(pre.nodes@[ch].edges@[t].1 as int));
            }
            assert forall|t: int|
                0 <= t < post.nodes@[j].edges@.len() implies (
            #[trigger] post.nodes@[j].edges@[t]).1 as int != ch && (post.nodes@[j].edges@[t].1
                as int) < post.nodes@.len() by {
                assert(pre.minimized_ids@.contains(pre.nodes@[ch].edges@[t].1 as int));
                assert(pre.min_node_ok(pre.nodes@[ch].edges@[t].1 as int));
            }
            lemma_sum_counts_frame(pre.nodes@, post.nodes@, post.nodes@[j].edges@);
            assert(count_ok(post.nodes@, j));
        } else {
            assert(pre.minimized_ids@.contains(j));
            assert(pre.min_node_ok(j));
            assert(j != ch);
            assert(post.nodes@[j] == pre.nodes@[j]);
            assert forall|t: int|
                0 <= t < post.nodes@[j].edges@.len() implies (
            #[trigger] post.nodes@[j].edges@[t]).1 as int != ch && (post.nodes@[j].edges@[t].1
                as int) < post.nodes@.len() by {
                assert(pre.minimized_ids@.contains(pre.nodes@[j].edges@[t].1 as int));
                assert(pre.min_node_ok(pre.nodes@[j].edges@[t].1 as int));
            }
            lemma_sum_counts_frame(pre.nodes@, post.nodes@, post.nodes@[j].edges@);
        }
    }
    assert forall|i: int, e2: int|
        0 <= i < post.nodes@.len() && 0 <= e2 < post.nodes@[i].edges@.len() implies
        #[trigger] post.edge_settled(i, e2) by {
        assert(pre.edge_settled(i, e2));
        assert(post.nodes@[i].edges@ == pre.nodes@[i].edges@);
        if !pre.minimized_ids@.contains(pre.nodes@[i].edges@[e2].1 as int) {
            let kw = choose|kw: int|
                0 <= kw < pre.unchecked_nodes@.len() && (#[trigger] pre.unchecked_nodes@[kw]).parent
                    == i && pre.unchecked_nodes@[kw].letter == pre.nodes@[i].edges@[e2].0
                    && pre.unchecked_nodes@[kw].child == pre.nodes@[i].edges@[e2].1;
            if kw == k {
                assert(post.minimized_ids@.contains(post.nodes@[i].edges@[e2].1 as int));
            } else {
                assert(post.unchecked_nodes@[kw] == pre.unchecked_nodes@[kw]);
            }
        }
    }
    // the node store gained exactly the fresh signature
    assert forall|r: int| 0 <= r < post.minimized_nodes@.len() implies post.minimized_ids@.contains(
        (#[trigger] post.minimized_nodes@[r]) as int,
    ) by {
        if r < pre.minimized_nodes@.len() {
            assert(pre.minimized_ids@.contains(pre.minimized_nodes@[r] as int));
        }
    }
    assert forall|r1: int, r2: int|
        0 <= r1 < r2 < post.minimized_nodes@.len() implies !sig_eq(
            post.nodes@[(#[trigger] post.minimized_nodes@[r1]) as int],
            post.nodes@[(#[trigger] post.minimized_nodes@[r2]) as int],
        ) by {
        if r2 < pre.minimized_nodes@.len() {
            assert(pre.minimized_ids@.contains(pre.minimized_nodes@[r1] as int));
            assert(pre.minimized_ids@.contains(pre.minimized_nodes@[r2] as int));
            assert(pre.min_node_ok(pre.minimized_nodes@[r1] as int));
            assert(pre.min_node_ok(pre.minimized_nodes@[r2] as int));
            assert(pre.minimized_nodes@[r1] as int != ch && pre.minimized_nodes@[r2] as int != ch);
        } else {
            assert(post.minimized_nodes@[r2] == e.child);
            assert(pre.minimized_ids@.contains(pre.minimized_nodes@[r1] as int));
            assert(pre.min_node_ok(pre.minimized_nodes@[r1] as int));
            assert(pre.minimized_nodes@[r1] as int != ch);
            assert(!sig_eq(
                pre.nodes@[pre.minimized_nodes@[r1] as int],
                pre.nodes@[ch],
            ));
        }
    }
}

impl Dawg {
    /// Inserts a word.  Words must arrive in non-decreasing lexicographic
    /// order; a word below the previous one is refused, as are the empty
    /// word and any insertion after `finish`.  On success the suffix of
    /// the previous word not shared with this one has been minimized, the
    /// new word's path exists in the graph, and its last node is
    /// terminal.
    pub fn add(&mut self, word: String) -> (r: Result<(), DawgError>)
        requires
            old(self).wf(),
        ensures
            final (self).wf(),
            old(self).finished ==> r == Err::<(), DawgError>(DawgError::Finalized),
            !old(self).finished && word@.len() == 0 ==> r == Err::<(), DawgError>(
                DawgError::EmptyWord,
            ),
            !old(self).finished && word@.len() > 0 && lex_lt(word@, old(self).previous_word@) ==> r
                == Err::<(), DawgError>(DawgError::OrderingViolation),
            !old(self).finished && word@.len() > 0 && !lex_lt(word@, old(self).previous_word@)
                ==> r == Ok::<(), DawgError>(()),
            r is Err ==> *final (self) == *old(self),
            r is Ok ==> final (self).previous_word@ == word@ && !final (self).finished,
            r is Ok && old(self).in_build() ==> final (self).in_build() && accepts(
                final (self).nodes@,
                0,
                word@,
                true,
            ),
            // the accepted language grows by exactly the inserted word
            r is Ok && old(self).in_build() ==> forall|w2: Seq<char>|
                #[trigger] accepts(final (self).nodes@, 0, w2, true) == (accepts(
                    old(self).nodes@,
                    0,
                    w2,
                    true,
                ) || w2 == word@),
            // terminal flags only gain, and only the word's final node gains one
            r is Ok && old(self).in_build() ==> forall|j: int|
                0 <= j < old(self).nodes@.len() && (#[trigger] old(self).nodes@[j]).terminal
                    ==> final (self).nodes@[j].terminal,
            r is Ok && old(self).in_build() ==> forall|j: int|
                0 <= j < final (self).nodes@.len() && (#[trigger] final (self).nodes@[j]).terminal
                    ==> (j < old(self).nodes@.len() && old(self).nodes@[j].terminal) || walk(
                    final (self).nodes@,
                    0,
                    word@,
                    true,
                ) == Some(j),
            // the arena grows by exactly the word's suffix beyond the shared prefix
            r is Ok && old(self).in_build() ==> final (self).nodes@.len() == old(self).nodes@.len()
                + (word@.len() - common_len(word@, old(self).previous_word@)),
            r is Ok && old(self).in_build() && word@ == old(self).previous_word@ ==> final (
            self).nodes@.len() == old(self).nodes@.len(),
    {
        if self.finished {
            return Err(DawgError::Finalized);
        }
        let word_vec = Utils::split_to_vec(word.as_str());
        if word_vec.len() == 0 {
            return Err(DawgError::EmptyWord);
        }
        if Utils::word_lt(&word_vec, &self.previous_word) {
            return Err(DawgError::OrderingViolation);
        }
        let cp = Utils::common_prefix_len(&word_vec, &self.previous_word);
        let ghost entry = *self;
        self.minimize(cp);
        proof {
            assert forall|k: int|
                0 <= k < self.unchecked_nodes@.len() implies (
            #[trigger] self.unchecked_nodes@[k]).letter == word_vec@[k] by {
                assert(self.unchecked_nodes@[k] == entry.unchecked_nodes@.take(
                    self.unchecked_nodes@.len() as int,
                )[k]);
                assert(entry.unchecked_nodes@[k].letter == entry.previous_word@[k]);
            }
            if entry.in_build() {
                assert(self.unchecked_nodes@.len() == cp as int);
                lemma_add_entry_bounds(entry, *self, word_vec@, cp as int);
            }
        }
        let mut idx = self.unchecked_nodes.len();
        while idx < word_vec.len()
            invariant
                self.wf_core(),
                !self.finished,
                idx == self.unchecked_nodes@.len(),
                idx <= word_vec@.len(),
                forall|k: int|
                    0 <= k < idx ==> (#[trigger] self.unchecked_nodes@[k]).letter == word_vec@[k],
                entry == *old(self),
                entry.in_build() ==> forall|k: int|
                    0 <= k < idx ==> #[trigger] node_labels_le(
                        self.nodes@,
                        self.frontier_parent(k),
                        word_vec@[k],
                    ),
                entry.in_build() && (idx as int) < word_vec@.len() ==> node_labels_lt(
                    self.nodes@,
                    self.frontier_parent(idx as int),
                    word_vec@[idx as int],
                ),
                entry.in_build() && idx as int == word_vec@.len()
                    ==> self.nodes@[self.frontier_parent(idx as int)].edges@.len() == 0,
                entry.in_build() ==> forall|w2: Seq<char>|
                    #[trigger] accepts(self.nodes@, 0, w2, true) == accepts(
                        entry.nodes@,
                        0,
                        w2,
                        true,
                    ),
                self.nodes@.len() >= entry.nodes@.len(),
                forall|j: int|
                    0 <= j < self.nodes@.len() ==> (#[trigger] self.nodes@[j]).terminal == (j
                        < entry.nodes@.len() && entry.nodes@[j].terminal),
                entry.in_build() ==> self.nodes@.len() == entry.nodes@.len() + idx - common_len(
                    word_vec@,
                    entry.previous_word@,
                ),
            decreases word_vec@.len() - idx,
        {
            let letter = word_vec[idx];
            let tip: usize = if self.unchecked_nodes.len() == 0 {
                self.root
            } else {
                let l = self.unchecked_nodes.len() - 1;
                proof {
                    assert(self.frontier_entry_ok(l as int));
                }
                self.unchecked_nodes[l].child
            };
            let ghost pre0 = *self;
            let fresh = self.create_node();
            let ghost pre = *self;
            proof {
                assert(!pre.minimized_ids@.contains(tip as int)) by {
                    if idx > 0 {
                        assert(pre.frontier_entry_ok(idx - 1));
                    }
                }
                assert(node_wf(pre.nodes@, tip as int));
                assert forall|k2: int| 0 <= k2 < pre.unchecked_nodes@.len() implies (
                #[trigger] pre.unchecked_nodes@[k2]).child != fresh by {
                    assert(pre0.frontier_entry_ok(k2));
                    assert((pre0.unchecked_nodes@[k2].child as int) < pre0.nodes@.len());
                }
            }
            insert_edge(&mut self.nodes[tip].edges, letter, fresh);
            self.unchecked_nodes.push(TriDawg::new(tip, letter, fresh));
            proof {
                lemma_add_attach(pre, *self, tip, letter, fresh);
                assert forall|j: int|
                    0 <= j < self.nodes@.len() implies (#[trigger] self.nodes@[j]).terminal == (j
                    < entry.nodes@.len() && entry.nodes@[j].terminal) by {
                    if j == fresh as int {
                        assert(tip != fresh);
                        assert(self.nodes@[j] == pre.nodes@[j]);
                        assert(!pre.nodes@[j].terminal);
                    } else if j == tip as int {
                        assert(self.nodes@[j].terminal == pre.nodes@[j].terminal);
                        assert(pre.nodes@[j] == pre0.nodes@[j]);
                        assert(pre0.nodes@[j].terminal == (j < entry.nodes@.len()
                            && entry.nodes@[j].terminal));
                    } else {
                        assert(self.nodes@[j] == pre.nodes@[j]);
                        assert(pre.nodes@[j] == pre0.nodes@[j]);
                        assert(pre0.nodes@[j].terminal == (j < entry.nodes@.len()
                            && entry.nodes@[j].terminal));
                    }
                }
                if entry.in_build() {
                    assert(pre.nodes@[tip as int] == pre0.nodes@[tip as int]);
                    assert(node_labels_lt(pre0.nodes@, tip as int, letter)) by {
                        assert(node_labels_lt(
                            pre0.nodes@,
                            pre0.frontier_parent(idx as int),
                            word_vec@[idx as int],
                        ));
                    }
                    assert(edge_lookup(pre.nodes@[tip as int].edges@, letter, true) is None) by {
                        lemma_lookup_exact(pre.nodes@[tip as int].edges@, letter);
                        match edge_lookup(pre.nodes@[tip as int].edges@, letter, true) {
                            Some(t0) => {
                                let jj = choose|jj: int|
                                    0 <= jj < pre.nodes@[tip as int].edges@.len()
                                        && pre.nodes@[tip as int].edges@[jj] == (letter, t0);
                                assert(((pre0.nodes@[tip as int].edges@[jj]).0 as u32) < (letter
                                    as u32));
                                assert(false);
                            },
                            None => {},
                        }
                    }
                    // no earlier path node is the tip, so their bounds carry over
                    assert forall|k: int| 0 <= k < idx implies (pre0.frontier_parent(k) != tip
                        as int) by {
                        assert(pre0.frontier_entry_ok(k));
                        if k > 0 && idx > 0 {
                            assert(pre0.frontier_entry_ok(idx - 1));
                        }
                    }
                    assert forall|k: int| 0 <= k < idx + 1 implies #[trigger] node_labels_le(
                        self.nodes@,
                        self.frontier_parent(k),
                        word_vec@[k],
                    ) by {
                        if k < idx {
                            if k > 0 {
                                assert(self.unchecked_nodes@[k - 1]
                                    == pre0.unchecked_nodes@[k - 1]);
                            }
                            assert(self.frontier_parent(k) == pre0.frontier_parent(k));
                            assert(pre0.frontier_entry_ok(k));
                            assert((pre0.frontier_parent(k)) < pre0.nodes@.len());
                            assert(self.nodes@[self.frontier_parent(k)]
                                == pre.nodes@[pre0.frontier_parent(k)]);
                            assert(pre.nodes@[pre0.frontier_parent(k)]
                                == pre0.nodes@[pre0.frontier_parent(k)]);
                            assert(node_labels_le(
                                pre0.nodes@,
                                pre0.frontier_parent(k),
                                word_vec@[k],
                            ));
                            lemma_labels_le_frame(
                                pre0.nodes@,
                                self.nodes@,
                                self.frontier_parent(k),
                                word_vec@[k],
                            );
                        } else {
                            assert(self.frontier_parent(k) == tip as int);
                            assert forall|t: int|
                                0 <= t < self.nodes@[tip as int].edges@.len() implies ((
                            #[trigger] self.nodes@[tip as int].edges@[t]).0 as u32) <= (word_vec@[k]
                                as u32) by {
                                let pr = self.nodes@[tip as int].edges@[t];
                                assert(self.nodes@[tip as int].edges@.contains(pr));
                                if pr != (letter, fresh) {
                                    assert(pre.nodes@[tip as int].edges@.contains(pr));
                                    let jj = choose|jj: int|
                                        0 <= jj < pre.nodes@[tip as int].edges@.len()
                                            && pre.nodes@[tip as int].edges@[jj] == pr;
                                    assert(((pre0.nodes@[tip as int].edges@[jj]).0 as u32) < (
                                    letter as u32));
                                }
                            }
                        }
                    }
                    // the fresh node is bare: it bounds the next step
                    assert(tip != fresh);
                    assert(self.nodes@[fresh as int].edges@ == pre.nodes@[fresh as int].edges@);
                    assert(self.nodes@[self.frontier_parent(idx + 1)].edges@.len() == 0);
                    if idx + 1 < word_vec@.len() {
                        assert(node_labels_lt(
                            self.nodes@,
                            self.frontier_parent(idx + 1),
                            word_vec@[idx + 1],
                        ));
                    }
                    assert forall|j: int|
                        0 <= j < pre0.nodes@.len() implies ((#[trigger] pre0.nodes@[j]).terminal
                        ==> self.nodes@[j].terminal) by {
                        if j != tip as int {
                            assert(self.nodes@[j] == pre0.nodes@[j]);
                        } else {
                            assert(self.nodes@[j].terminal == pre.nodes@[j].terminal);
                        }
                    }
                    // the new transition neither loses a word (it is
                    // brand new) nor yet accepts one (it leads to a
                    // bare, non-terminal node)
                    assert forall|j: int, c: char|
                        0 <= j < pre0.nodes@.len() implies (#[trigger] edge_lookup(
                        self.nodes@[j].edges@,
                        c,
                        true,
                    ) == edge_lookup(pre0.nodes@[j].edges@, c, true) || edge_lookup(
                        pre0.nodes@[j].edges@,
                        c,
                        true,
                    ) is None) by {
                        if j != tip as int {
                            assert(self.nodes@[j] == pre0.nodes@[j]);
                        } else {
                            if c != letter {
                                assert(edge_lookup(self.nodes@[j].edges@, c, true) == edge_lookup(
                                    pre.nodes@[j].edges@,
                                    c,
                                    true,
                                ));
                            }
                        }
                    }
                    assert forall|j: int|
                        0 <= j < pre0.nodes@.len() && j != tip as int implies self.nodes@[j]
                        == pre0.nodes@[j] by {
                        assert(self.nodes@[j] == pre.nodes@[j]);
                    }
                    assert(self.nodes@[tip as int].terminal == pre0.nodes@[tip as int].terminal);
                    assert(!self.nodes@[fresh as int].terminal);
                    assert forall|c2: char|
                        c2 != letter implies #[trigger] edge_lookup(
                        self.nodes@[tip as int].edges@,
                        c2,
                        true,
                    ) == edge_lookup(pre0.nodes@[tip as int].edges@, c2, true) by {
                        assert(edge_lookup(self.nodes@[tip as int].edges@, c2, true)
                            == edge_lookup(pre.nodes@[tip as int].edges@, c2, true));
                    }
                    assert forall|w2: Seq<char>|
                        #[trigger] accepts(self.nodes@, 0, w2, true) == accepts(
                        entry.nodes@,
                        0,
                        w2,
                        true,
                    ) by {
                        if accepts(entry.nodes@, 0, w2, true) {
                            assert(accepts(pre0.nodes@, 0, w2, true));
                            lemma_accepts_monotone(pre0.nodes@, self.nodes@, 0, w2);
                        }
                        if accepts(self.nodes@, 0, w2, true) {
                            lemma_attach_accepts_reverse(
                                pre0.nodes@,
                                self.nodes@,
                                tip as int,
                                letter,
                                fresh,
                                0,
                                w2,
                            );
                            assert(accepts(pre0.nodes@, 0, w2, true));
                        }
                    }
                }
            }
            idx = idx + 1;
        }
        let last = self.unchecked_nodes.len() - 1;
        let tipc = self.unchecked_nodes[last].child;
        let ghost pre2 = *self;
        proof {
            assert(pre2.frontier_entry_ok(last as int));
        }
        self.nodes[tipc].terminal = true;
        proof {
            lemma_add_mark_terminal(pre2, *self, last as int);
            if entry.in_build() {
                assert forall|k: int| 0 <= k <= last as int implies self.frontier_parent(k)
                    == pre2.frontier_parent(k) && self.frontier_parent(k) != tipc as int by {
                    assert(pre2.frontier_entry_ok(last as int));
                    if k > 0 {
                        assert(pre2.frontier_entry_ok(k - 1));
                    }
                }
                assert(forall|j: int|
                    0 <= j < self.nodes@.len() && j != tipc as int ==> self.nodes@[j]
                        == pre2.nodes@[j]);
                assert forall|k: int| 0 <= k < self.unchecked_nodes@.len() implies
                    #[trigger] node_labels_le(
                    self.nodes@,
                    self.frontier_parent(k),
                    word_vec@[k],
                ) by {
                    assert(node_labels_le(pre2.nodes@, pre2.frontier_parent(k), word_vec@[k]));
                    assert(self.frontier_parent(k) != tipc as int);
                    assert((self.frontier_parent(k)) < self.nodes@.len()) by {
                        if k > 0 {
                            assert(pre2.frontier_entry_ok(k - 1));
                        }
                    }
                    assert(self.nodes@[self.frontier_parent(k)].edges@
                        == pre2.nodes@[pre2.frontier_parent(k)].edges@);
                    lemma_labels_le_frame(
                        pre2.nodes@,
                        self.nodes@,
                        self.frontier_parent(k),
                        word_vec@[k],
                    );
                }
                assert(self.nodes@[self.frontier_parent(
                    self.unchecked_nodes@.len() as int,
                )].edges@.len() == 0) by {
                    assert(self.nodes@[tipc as int].edges@ == pre2.nodes@[tipc as int].edges@);
                }
                assert forall|w2: Seq<char>|
                    #[trigger] accepts(entry.nodes@, 0, w2, true) implies accepts(
                    self.nodes@,
                    0,
                    w2,
                    true,
                ) by {
                    assert(accepts(pre2.nodes@, 0, w2, true));
                    assert forall|j: int, c: char|
                        0 <= j < pre2.nodes@.len() implies (#[trigger] edge_lookup(
                        self.nodes@[j].edges@,
                        c,
                        true,
                    ) == edge_lookup(pre2.nodes@[j].edges@, c, true) || edge_lookup(
                        pre2.nodes@[j].edges@,
                        c,
                        true,
                    ) is None) by {
                        assert(self.nodes@[j].edges@ == pre2.nodes@[j].edges@);
                    }
                    lemma_accepts_monotone(pre2.nodes@, self.nodes@, 0, w2);
                }
            }
        }
        let ghost pre3 = *self;
        self.previous_word = word_vec;
        proof {
            lemma_wf_core_frame(pre3, *self);
            if entry.in_build() {
                assert(self.unchecked_nodes@.len() == word_vec@.len());
                lemma_frontier_walk(*self, word_vec@, 0);
                assert(word_vec@.skip(0) =~= word_vec@);
                assert(self.frontier_entry_ok(last as int));
                assert(self.frontier_parent(word_vec@.len() as int) == tipc as int);
                assert(self.nodes@[tipc as int].terminal);
                // the new word's path is bounded by its own letters
                assert forall|k: int| 0 <= k < self.unchecked_nodes@.len() implies
                    #[trigger] node_labels_le(
                    self.nodes@,
                    self.frontier_parent(k),
                    self.previous_word@[k],
                ) by {
                    assert(self.previous_word@[k] == word_vec@[k]);
                    assert(node_labels_le(pre3.nodes@, pre3.frontier_parent(k), word_vec@[k]));
                }
                assert(self.labels_bound());
                assert(self.in_build());
                // the graph accepts exactly the old words plus this one
                assert forall|j: int|
                    0 <= j < pre2.nodes@.len() implies (#[trigger] self.nodes@[j]).edges@
                    == pre2.nodes@[j].edges@ && (j != tipc as int ==> self.nodes@[j]
                    == pre2.nodes@[j]) by {
                    if j != tipc as int {
                        assert(self.nodes@[j] == pre2.nodes@[j]);
                    }
                }
                assert forall|w2: Seq<char>|
                    #[trigger] accepts(self.nodes@, 0, w2, true) == (accepts(
                    old(self).nodes@,
                    0,
                    w2,
                    true,
                ) || w2 == word@) by {
                    assert(accepts(entry.nodes@, 0, w2, true) == accepts(
                        old(self).nodes@,
                        0,
                        w2,
                        true,
                    ));
                    assert(accepts(pre2.nodes@, 0, w2, true) == accepts(entry.nodes@, 0, w2, true));
                    if accepts(entry.nodes@, 0, w2, true) {
                        assert(accepts(pre3.nodes@, 0, w2, true));
                        assert(accepts(self.nodes@, 0, w2, true));
                    }
                    if w2 == word@ {
                        assert(accepts(self.nodes@, 0, word_vec@, true));
                    }
                    if accepts(self.nodes@, 0, w2, true) {
                        lemma_walk_edges_only(pre2.nodes@, self.nodes@, 0, w2, true);
                        let j = walk(self.nodes@, 0, w2, true)->Some_0;
                        if j == tipc as int {
                            lemma_unique_path(*self, last as int, w2);
                            assert forall|t: int| 0 <= t < w2.len() implies w2[t]
                                == word_vec@[t] by {
                                assert(w2[t] == self.unchecked_nodes@[t].letter);
                            }
                            assert(w2 =~= word_vec@);
                        } else {
                            assert(pre2.nodes@[j].terminal);
                            assert(accepts(pre2.nodes@, 0, w2, true));
                        }
                    }
                }
            }
        }
        Ok(())
    }
}

/// No transition of a well-formed graph leads back to the root, so only
/// the empty word walks to it.
proof fn lemma_walk_to_root(d: Dawg, w: Seq<char>)
    requires
        d.wf(),
        walk(d.nodes@, 0, w, true) == Some(0int),
    ensures
        w.len() == 0,
{
    if w.len() > 0 {
        lemma_walk_snoc(d.nodes@, 0, w, true);
        let i2 = walk(d.nodes@, 0, w.drop_last(), true)->Some_0;
        lemma_walk_in_range(d.nodes@, 0, w.drop_last(), true);
        lemma_lookup_target(d.nodes@[i2].edges@, w.last(), true);
        let e = choose|e: int|
            0 <= e < d.nodes@[i2].edges@.len() && (#[trigger] d.nodes@[i2].edges@[e]).1 == 0usize
                && label_matches(d.nodes@[i2].edges@[e].0, w.last(), true);
        assert(d.edge_settled(i2, e));
        assert(!d.minimized_ids@.contains(0int));
        let kw = choose|kw: int|
            0 <= kw < d.unchecked_nodes@.len() && (#[trigger] d.unchecked_nodes@[kw]).parent == i2
                && d.unchecked_nodes@[kw].letter == d.nodes@[i2].edges@[e].0
                && d.unchecked_nodes@[kw].child == d.nodes@[i2].edges@[e].1;
        assert(d.frontier_entry_ok(kw));
        assert(false);
    }
}

/// A walk that ends on an unchecked frontier child came along the
/// frontier path itself, spelling exactly its letters: such a child has
/// one single incoming transition.
proof fn lemma_unique_path(d: Dawg, k: int, w: Seq<char>)
    requires
        d.wf(),
        0 <= k < d.unchecked_nodes@.len(),
        walk(d.nodes@, 0, w, true) == Some(d.unchecked_nodes@[k].child as int),
    ensures
        w.len() == k + 1,
        forall|t: int| 0 <= t <= k ==> w[t] == (#[trigger] d.unchecked_nodes@[t]).letter,
    decreases w.len(),
{
    assert(d.frontier_entry_ok(k));
    let ch = d.unchecked_nodes@[k].child;
    if w.len() == 0 {
        assert(ch != 0);
        assert(false);
    } else {
        lemma_walk_snoc(d.nodes@, 0, w, true);
        let i2 = walk(d.nodes@, 0, w.drop_last(), true)->Some_0;
        lemma_walk_in_range(d.nodes@, 0, w.drop_last(), true);
        lemma_lookup_target(d.nodes@[i2].edges@, w.last(), true);
        let e = choose|e: int|
            0 <= e < d.nodes@[i2].edges@.len() && (#[trigger] d.nodes@[i2].edges@[e]).1 == ch
                && label_matches(d.nodes@[i2].edges@[e].0, w.last(), true);
        assert(d.edge_settled(i2, e));
        assert(!d.minimized_ids@.contains(ch as int));
        let kw = choose|kw: int|
            0 <= kw < d.unchecked_nodes@.len() && (#[trigger] d.unchecked_nodes@[kw]).parent == i2
                && d.unchecked_nodes@[kw].letter == d.nodes@[i2].edges@[e].0
                && d.unchecked_nodes@[kw].child == d.nodes@[i2].edges@[e].1;
        assert(kw == k) by {
            if kw < k {
                assert(d.frontier_entry_ok(k));
            } else if kw > k {
                assert(d.frontier_entry_ok(kw));
            }
        }
        assert(i2 == d.unchecked_nodes@[k].parent as int);
        assert(w.last() == d.unchecked_nodes@[k].letter);
        if k == 0 {
            assert(i2 == 0);
            lemma_walk_to_root(d, w.drop_last());
            assert(w.len() == 1);
            assert(w[0] == w.last());
        } else {
            assert(d.frontier_entry_ok(k - 1));
            assert(i2 == d.unchecked_nodes@[k - 1].child as int);
            lemma_unique_path(d, k - 1, w.drop_last());
            assert(w.len() == k + 1);
            assert forall|t: int| 0 <= t <= k implies w[t] == (
            #[trigger] d.unchecked_nodes@[t]).letter by {
                if t < k {
                    assert(w.drop_last()[t] == w[t]);
                } else {
                    assert(w[k] == w.last());
                }
            }
        }
    }
}

/// After the shared prefix has been minimized, the label bounds of the
/// surviving path hold for the incoming word: its letters agree with the
/// previous word's on the shared prefix and exceed them at the branch
/// point, and the previous word's leaf is still bare when the new word
/// extends it.
proof fn lemma_add_entry_bounds(entry: Dawg, am: Dawg, w: Seq<char>, cp: int)
    requires
        entry.wf(),
        entry.in_build(),
        am.wf(),
        !lex_lt(w, entry.previous_word@),
        0 <= cp <= w.len(),
        cp <= entry.previous_word@.len(),
        forall|k: int| 0 <= k < cp ==> w[k] == entry.previous_word@[k],
        cp < w.len() && cp < entry.previous_word@.len() ==> w[cp] != entry.previous_word@[cp],
        am.root == entry.root,
        am.nodes@.len() == entry.nodes@.len(),
        labels_preserved(entry.nodes@, am.nodes@),
        am.unchecked_nodes@ == entry.unchecked_nodes@.take(cp),
    ensures
        forall|k: int|
            0 <= k < cp ==> #[trigger] node_labels_le(am.nodes@, am.frontier_parent(k), w[k]),
        cp < w.len() ==> node_labels_lt(am.nodes@, am.frontier_parent(cp), w[cp]),
        cp == w.len() ==> am.nodes@[am.frontier_parent(cp)].edges@.len() == 0,
{
    let prev = entry.previous_word@;
    let flen = entry.unchecked_nodes@.len() as int;
    assert(flen == prev.len());
    assert(forall|k: int| 0 <= k < cp ==> am.unchecked_nodes@[k] == entry.unchecked_nodes@[k]);
    assert forall|k: int| 0 <= k <= cp implies am.frontier_parent(k) == entry.frontier_parent(
        k,
    ) && 0 <= entry.frontier_parent(k) < entry.nodes@.len() by {
        if k > 0 {
            assert(entry.frontier_entry_ok(k - 1));
        }
    }
    assert forall|k: int| 0 <= k < cp implies #[trigger] node_labels_le(
        am.nodes@,
        am.frontier_parent(k),
        w[k],
    ) by {
        assert(node_labels_le(entry.nodes@, entry.frontier_parent(k), prev[k]));
        assert(w[k] == prev[k]);
        lemma_labels_le_preserved(entry.nodes@, am.nodes@, entry.frontier_parent(k), prev[k]);
    }
    if cp < w.len() {
        if cp < prev.len() {
            assert(node_labels_le(entry.nodes@, entry.frontier_parent(cp), prev[cp]));
            lemma_labels_le_preserved(entry.nodes@, am.nodes@, entry.frontier_parent(cp), prev[cp]);
            lemma_lex_first_diff(prev, w, cp);
            assert forall|t: int|
                0 <= t < am.nodes@[am.frontier_parent(cp)].edges@.len() implies ((
            #[trigger] am.nodes@[am.frontier_parent(cp)].edges@[t]).0 as u32) < (w[cp] as u32) by {
                assert(((am.nodes@[am.frontier_parent(cp)].edges@[t]).0 as u32) <= (prev[cp]
                    as u32));
            }
        } else {
            assert(cp == prev.len());
            assert(entry.nodes@[entry.frontier_parent(flen)].edges@.len() == 0);
            assert(am.nodes@[am.frontier_parent(cp)].edges@.len() == 0);
        }
    }
    if cp == w.len() {
        if cp < prev.len() {
            lemma_lex_prefix(w, prev);
        }
        assert(cp == prev.len());
        assert(entry.nodes@[entry.frontier_parent(flen)].edges@.len() == 0);
        assert(am.nodes@[am.frontier_parent(cp)].edges@.len() == 0);
    }
}

/// After hanging a fresh node under the frontier tip and pushing the new
/// frontier entry, structural well-formedness is preserved.
proof fn lemma_add_attach(pre: Dawg, post: Dawg, tip: usize, letter: char, fresh: usize)
    requires
        pre.wf_core(),
        (tip as int) == pre.frontier_parent(pre.unchecked_nodes@.len() as int),
        (tip as int) < pre.nodes@.len(),
        !pre.minimized_ids@.contains(tip as int),
        fresh as int == pre.nodes@.len() - 1,
        fresh >= 1,
        !pre.nodes@[fresh as int].terminal,
        pre.nodes@[fresh as int].edges@.len() == 0,
        !pre.minimized_ids@.contains(fresh as int),
        forall|k2: int|
            0 <= k2 < pre.unchecked_nodes@.len() ==> (#[trigger] pre.unchecked_nodes@[k2]).child
                != fresh,
        post.unchecked_nodes@ == pre.unchecked_nodes@.push(
            TriDawg { parent: tip, letter, child: fresh },
        ),
        post.root == pre.root,
        post.minimized_nodes@ == pre.minimized_nodes@,
        post.finished == pre.finished,
        post.minimized_ids@ == pre.minimized_ids@,
        post.ranks@ == pre.ranks@,
        post.next_rank@ == pre.next_rank@,
        post.nodes@.len() == pre.nodes@.len(),
        forall|j: int| 0 <= j < pre.nodes@.len() && j != tip as int ==> post.nodes@[j]
            == pre.nodes@[j],
        post.nodes@[tip as int].id == pre.nodes@[tip as int].id,
        post.nodes@[tip as int].terminal == pre.nodes@[tip as int].terminal,
        post.nodes@[tip as int].count == pre.nodes@[tip as int].count,
        edges_sorted(post.nodes@[tip as int].edges@),
        edge_lookup(post.nodes@[tip as int].edges@, letter, true) == Some(fresh),
        forall|p: (char, usize)| #[trigger]
            post.nodes@[tip as int].edges@.contains(p) ==> p == (letter, fresh) || (
            pre.nodes@[tip as int].edges@.contains(p) && p.0 != letter),
        forall|p: (char, usize)| #[trigger]
            pre.nodes@[tip as int].edges@.contains(p) && p.0 != letter
                ==> post.nodes@[tip as int].edges@.contains(p),
        forall|c2: char|
            c2 != letter ==> #[trigger] edge_lookup(post.nodes@[tip as int].edges@, c2, true)
                == edge_lookup(pre.nodes@[tip as int].edges@, c2, true),
    ensures
        post.wf_core(),
        post.unchecked_nodes@.len() == pre.unchecked_nodes@.len() + 1,
{
    let w = pre.unchecked_nodes@.len() as int;

    assert forall|j: int| #[trigger] post.minimized_ids@.contains(j) implies post.ranks@.dom().contains(j) && post.ranks@[j] < post.next_rank@ by {
        assert(pre.minimized_ids@.contains(j));
    }
    assert forall|j: int, t: int|
        post.minimized_ids@.contains(j) && 0 <= t < post.nodes@[j].edges@.len() implies post.ranks@[(#[trigger] post.nodes@[j].edges@[t]).1 as int] < post.ranks@[j] by {
        assert(pre.minimized_ids@.contains(j));
        assert(pre.min_node_ok(j));
        assert(j != tip as int);
        assert(post.nodes@[j].edges@ == pre.nodes@[j].edges@);
    }
    // no old frontier entry hangs from the tip
    assert forall|k: int| 0 <= k < w implies (#[trigger] pre.unchecked_nodes@[k]).parent as int
        != tip as int by {
        assert(pre.frontier_entry_ok(k));
        if k > 0 && w > 0 {
            assert(pre.frontier_entry_ok(w - 1));
        }
    }
    assert forall|i: int| 0 <= i < post.nodes@.len() implies #[trigger] node_wf(
        post.nodes@,
        i,
    ) by {
        assert(node_wf(pre.nodes@, i));
        if i == tip as int {
            assert forall|e2: int| 0 <= e2 < post.nodes@[i].edges@.len() implies (
            #[trigger] post.nodes@[i].edges@[e2]).1 < post.nodes@.len() by {
                let pr = post.nodes@[i].edges@[e2];
                assert(post.nodes@[i].edges@.contains(pr));
                if pr != (letter, fresh) {
                    assert(pre.nodes@[i].edges@.contains(pr));
                    let j = choose|j: int|
                        0 <= j < pre.nodes@[i].edges@.len() && pre.nodes@[i].edges@[j] == pr;
                    assert(pre.nodes@[i].edges@[j].1 < pre.nodes@.len());
                }
            }
        }
    }
    assert forall|k: int| 0 <= k < post.unchecked_nodes@.len() implies
        #[trigger] post.frontier_entry_ok(k) by {
        if k < w {
            assert(pre.frontier_entry_ok(k));
            let e2 = pre.unchecked_nodes@[k];
            assert(post.unchecked_nodes@[k] == e2);
            assert(post.frontier_parent(k) == pre.frontier_parent(k));
            assert(e2.parent as int != tip as int);
            assert(post.nodes@[e2.parent as int] == pre.nodes@[e2.parent as int]);
            assert forall|k2: int| 0 <= k2 < k implies (
            #[trigger] post.unchecked_nodes@[k2]).child != e2.child by {
                assert(post.unchecked_nodes@[k2] == pre.unchecked_nodes@[k2]);
            }
        } else {
            assert(post.unchecked_nodes@[k] == TriDawg { parent: tip, letter, child: fresh });
            assert(post.frontier_parent(k) == tip as int);
            assert forall|k2: int| 0 <= k2 < k implies (
            #[trigger] post.unchecked_nodes@[k2]).child != fresh by {
                assert(post.unchecked_nodes@[k2] == pre.unchecked_nodes@[k2]);
            }
        }
    }
    assert forall|j: int| #[trigger] post.minimized_ids@.contains(j) implies post.min_node_ok(
        j,
    ) by {
        assert(pre.min_node_ok(j));
        assert(j != tip as int);
        assert(post.nodes@[j] == pre.nodes@[j]);
        lemma_sum_counts_frame(pre.nodes@, post.nodes@, pre.nodes@[j].edges@);
    }
    assert forall|i: int, e2: int|
        0 <= i < post.nodes@.len() && 0 <= e2 < post.nodes@[i].edges@.len() implies
        #[trigger] post.edge_settled(i, e2) by {
        if i != tip as int {
            assert(pre.edge_settled(i, e2));
            if !pre.minimized_ids@.contains(pre.nodes@[i].edges@[e2].1 as int) {
                let kw = choose|kw: int|
                    0 <= kw < pre.unchecked_nodes@.len() && (
                    #[trigger] pre.unchecked_nodes@[kw]).parent == i
                        && pre.unchecked_nodes@[kw].letter == pre.nodes@[i].edges@[e2].0
                        && pre.unchecked_nodes@[kw].child == pre.nodes@[i].edges@[e2].1;
                assert(post.unchecked_nodes@[kw] == pre.unchecked_nodes@[kw]);
            }
        } else {
            let pr = post.nodes@[i].edges@[e2];
            assert(post.nodes@[i].edges@.contains(pr));
            if pr == (letter, fresh) {
                assert(post.unchecked_nodes@[w] == TriDawg { parent: tip, letter, child: fresh });
            } else {
                assert(pre.nodes@[i].edges@.contains(pr) && pr.0 != letter);
                let j = choose|j: int|
                    0 <= j < pre.nodes@[i].edges@.len() && pre.nodes@[i].edges@[j] == pr;
                assert(pre.edge_settled(i, j));
                if !pre.minimized_ids@.contains(pr.1 as int) {
                    let kw = choose|kw: int|
                        0 <= kw < pre.unchecked_nodes@.len() && (
                        #[trigger] pre.unchecked_nodes@[kw]).parent == i
                            && pre.unchecked_nodes@[kw].letter == pr.0
                            && pre.unchecked_nodes@[kw].child == pr.1;
                    assert(pre.unchecked_nodes@[kw].parent as int != tip as int);
                    assert(false);
                }
            }
        }
    }
    assert forall|r1: int, r2: int|
        0 <= r1 < r2 < post.minimized_nodes@.len() implies !sig_eq(
            post.nodes@[(#[trigger] post.minimized_nodes@[r1]) as int],
            post.nodes@[(#[trigger] post.minimized_nodes@[r2]) as int],
        ) by {
        assert(pre.minimized_ids@.contains(pre.minimized_nodes@[r1] as int));
        assert(pre.minimized_ids@.contains(pre.minimized_nodes@[r2] as int));
        assert(post.nodes@[pre.minimized_nodes@[r1] as int]
            == pre.nodes@[pre.minimized_nodes@[r1] as int]);
        assert(post.nodes@[pre.minimized_nodes@[r2] as int]
            == pre.nodes@[pre.minimized_nodes@[r2] as int]);
    }
}

/// Marking the deepest frontier child terminal preserves structural
/// well-formedness: that node is not minimized, so no settled count or
/// registered signature mentions it.
proof fn lemma_add_mark_terminal(pre: Dawg, post: Dawg, k: int)
    requires
        pre.wf_core(),
        0 <= k == pre.unchecked_nodes@.len() - 1,
        post.unchecked_nodes@ == pre.unchecked_nodes@,
        post.root == pre.root,
        post.minimized_nodes@ == pre.minimized_nodes@,
        post.finished == pre.finished,
        post.minimized_ids@ == pre.minimized_ids@,
        post.ranks@ == pre.ranks@,
        post.next_rank@ == pre.next_rank@,
        post.nodes@.len() == pre.nodes@.len(),
        forall|j: int|
            0 <= j < pre.nodes@.len() && j != pre.unchecked_nodes@[k].child as int
                ==> post.nodes@[j] == pre.nodes@[j],
        post.nodes@[pre.unchecked_nodes@[k].child as int].id == pre.nodes@[pre.unchecked_nodes@[k].child as int].id,
        post.nodes@[pre.unchecked_nodes@[k].child as int].edges@ == pre.nodes@[pre.unchecked_nodes@[k].child as int].edges@,
        post.nodes@[pre.unchecked_nodes@[k].child as int].count == pre.nodes@[pre.unchecked_nodes@[k].child as int].count,
    ensures
        post.wf_core(),
{
    let ch = pre.unchecked_nodes@[k].child as int;
    assert(pre.frontier_entry_ok(k));
    assert(!pre.minimized_ids@.contains(ch));

    assert forall|j: int| #[trigger] post.minimized_ids@.contains(j) implies post.ranks@.dom().contains(j) && post.ranks@[j] < post.next_rank@ by {
        assert(pre.minimized_ids@.contains(j));
    }
    assert forall|j: int, t: int|
        post.minimized_ids@.contains(j) && 0 <= t < post.nodes@[j].edges@.len() implies post.ranks@[(#[trigger] post.nodes@[j].edges@[t]).1 as int] < post.ranks@[j] by {
        assert(pre.minimized_ids@.contains(j));
        assert(j != ch);
        assert(post.nodes@[j].edges@ == pre.nodes@[j].edges@);
    }

    assert forall|i: int| 0 <= i < post.nodes@.len() implies #[trigger] node_wf(
        post.nodes@,
        i,
    ) by {
        assert(node_wf(pre.nodes@, i));
        assert(post.nodes@[i].edges@ == pre.nodes@[i].edges@);
        assert(post.nodes@[i].id == pre.nodes@[i].id);
    }
    assert forall|k2: int| 0 <= k2 < post.unchecked_nodes@.len() implies
        #[trigger] post.frontier_entry_ok(k2) by {
        assert(pre.frontier_entry_ok(k2));
        assert(post.frontier_parent(k2) == pre.frontier_parent(k2));
        assert(post.nodes@[pre.unchecked_nodes@[k2].parent as int].edges@
            == pre.nodes@[pre.unchecked_nodes@[k2].parent as int].edges@);
    }
    assert forall|j: int| #[trigger] post.minimized_ids@.contains(j) implies post.min_node_ok(
        j,
    ) by {
        assert(pre.min_node_ok(j));
        assert(j != ch);
        assert(post.nodes@[j] == pre.nodes@[j]);
        assert forall|t: int|
            0 <= t < post.nodes@[j].edges@.len() implies (#[trigger] post.nodes@[j].edges@[t]).1
            as int != ch && (post.nodes@[j].edges@[t].1 as int) < post.nodes@.len() by {
            assert(pre.minimized_ids@.contains(pre.nodes@[j].edges@[t].1 as int));
            assert(pre.min_node_ok(pre.nodes@[j].edges@[t].1 as int));
        }
        lemma_sum_counts_frame(pre.nodes@, post.nodes@, pre.nodes@[j].edges@);
    }
    assert forall|i: int, e2: int|
        0 <= i < post.nodes@.len() && 0 <= e2 < post.nodes@[i].edges@.len() implies
        #[trigger] post.edge_settled(i, e2) by {
        assert(pre.edge_settled(i, e2));
        assert(post.nodes@[i].edges@ == pre.nodes@[i].edges@);
    }
    assert forall|r1: int, r2: int|
        0 <= r1 < r2 < post.minimized_nodes@.len() implies !sig_eq(
            post.nodes@[(#[trigger] post.minimized_nodes@[r1]) as int],
            post.nodes@[(#[trigger] post.minimized_nodes@[r2]) as int],
        ) by {
        assert(pre.minimized_ids@.contains(pre.minimized_nodes@[r1] as int));
        assert(pre.minimized_ids@.contains(pre.minimized_nodes@[r2] as int));
        assert(post.nodes@[pre.minimized_nodes@[r1] as int]
            == pre.nodes@[pre.minimized_nodes@[r1] as int]);
        assert(post.nodes@[pre.minimized_nodes@[r2] as int]
            == pre.nodes@[pre.minimized_nodes@[r2] as int]);
    }
}

impl Dawg {
    /// Seals the graph: minimizes the whole remaining frontier, settles
    /// the word count of every reachable node (the root included), and
    /// releases the node store, which is only needed while building.
    /// Finalization changes no query — the accepted language is exactly
    /// what it was before — and finishing an already finished graph
    /// changes nothing at all.
    pub fn finish(&mut self)
        requires
            old(self).wf(),
        ensures
            final (self).wf(),
            final (self).finished,
            forall|w: Seq<char>, cs: bool|
                accepts(final (self).nodes@, 0, w, cs) == #[trigger] accepts(
                    old(self).nodes@,
                    0,
                    w,
                    cs,
                ),
            old(self).finished ==> *final (self) == *old(self),
            final (self).nodes@.len() == old(self).nodes@.len(),
            !old(self).finished ==> final (self).unchecked_nodes@.len() == 0,
            !old(self).finished ==> final (self).minimized_nodes@.len() == 0,
            !old(self).finished ==> final (self).previous_word@ == old(self).previous_word@,
            !old(self).finished ==> count_ok(final (self).nodes@, final (self).root as int),
            // the root's count is the number of distinct accepted words
            !old(self).finished ==> lang(final (self).nodes@, 0).finite() && final (
            self).nodes@[0].count == clamp_usize(lang(final (self).nodes@, 0).len() as int),
            !old(self).finished ==> forall|e: int|
                0 <= e < final (self).nodes@[final (self).root as int].edges@.len() ==> final (self).minimized_ids@.contains(
                    (#[trigger] final (self).nodes@[final (self).root as int].edges@[e]).1 as int,
                ),
    {
        if self.finished {
            return ;
        }
        self.minimize(0);
        let c = self.compute_count(self.root);
        let ghost pre = *self;
        self.nodes[0].count = c;
        proof {
            lemma_finish_root_count(pre, *self, c);
            assert(forall|i2: int|
                0 <= i2 < pre.nodes@.len() ==> (#[trigger] self.nodes@[i2]).edges@
                    == pre.nodes@[i2].edges@);
            assert forall|w: Seq<char>, cs: bool|
                accepts(self.nodes@, 0, w, cs) == #[trigger] accepts(old(self).nodes@, 0, w, cs) by {
                lemma_walk_shape_frame(pre.nodes@, self.nodes@, 0, w, cs);
                assert(accepts(pre.nodes@, 0, w, cs) == accepts(old(self).nodes@, 0, w, cs));
            }
            assert forall|w: Seq<char>, cs: bool|
                (walk(self.nodes@, 0, w, cs) is Some) == ((#[trigger] walk(
                    old(self).nodes@,
                    0,
                    w,
                    cs,
                )) is Some) by {
                lemma_walk_edges_only(pre.nodes@, self.nodes@, 0, w, cs);
                assert((walk(pre.nodes@, 0, w, cs) is Some) == (walk(
                    old(self).nodes@,
                    0,
                    w,
                    cs,
                ) is Some));
            }
        }
        let ghost pre2 = *self;
        self.minimized_nodes = Vec::new();
        self.finished = true;
        proof {
            assert forall|k: int| 0 <= k < self.unchecked_nodes@.len() implies
                #[trigger] self.frontier_entry_ok(k) by {
                assert(pre2.frontier_entry_ok(k));
            }
            assert forall|j: int| #[trigger] self.minimized_ids@.contains(j) implies self.min_node_ok(
                j,
            ) by {
                assert(pre2.min_node_ok(j));
            }
            assert forall|i: int, e: int|
                0 <= i < self.nodes@.len() && 0 <= e < self.nodes@[i].edges@.len() implies
                #[trigger] self.edge_settled(i, e) by {
                assert(pre2.edge_settled(i, e));
            }
            assert forall|e: int| 0 <= e < self.nodes@[0].edges@.len() implies self.minimized_ids@.contains(
                (#[trigger] self.nodes@[0].edges@[e]).1 as int,
            ) by {
                assert(pre2.edge_settled(0, e));
            }
            assert forall|j: int| #[trigger] self.minimized_ids@.contains(j) implies self.ranks@.dom().contains(
                j,
            ) && self.ranks@[j] < self.next_rank@ by {
                assert(pre2.minimized_ids@.contains(j));
            }
            assert forall|j: int, t: int|
                self.minimized_ids@.contains(j) && 0 <= t < self.nodes@[j].edges@.len() implies self.ranks@[(
                #[trigger] self.nodes@[j].edges@[t]).1 as int] < self.ranks@[j] by {
                assert(pre2.minimized_ids@.contains(j));
                assert(self.nodes@[j].edges@ == pre2.nodes@[j].edges@);
            }
            lemma_root_count_is_word_total(*self);
        }
    }
}


/// Every minimized node's count is the size of its language, clamped to
/// `usize`: induction over registration rank, which decreases along every
/// transition leaving a minimized node.
proof fn lemma_min_count_lang(d: Dawg, j: int)
    requires
        d.wf(),
        d.minimized_ids@.contains(j),
    ensures
        lang(d.nodes@, j).finite(),
        d.nodes@[j].count == clamp_usize(lang(d.nodes@, j).len() as int),
    decreases d.ranks@[j],
{
    assert(d.min_node_ok(j));
    assert forall|e: int| 0 <= e < d.nodes@[j].edges@.len() implies lang(
        d.nodes@,
        (#[trigger] d.nodes@[j].edges@[e]).1 as int,
    ).finite() && d.nodes@[(d.nodes@[j].edges@[e]).1 as int].count == clamp_usize(
        lang(d.nodes@, (d.nodes@[j].edges@[e]).1 as int).len() as int,
    ) by {
        let t = d.nodes@[j].edges@[e].1 as int;
        assert(d.minimized_ids@.contains(t));
        assert(d.ranks@[t] < d.ranks@[j]);
        lemma_min_count_lang(d, t);
    }
    assert(node_wf(d.nodes@, j));
    lemma_counted_node(d.nodes@, j);
}

/// A finalized root counts exactly the distinct words of the graph's
/// language, clamped to `usize`: once every root transition leads into
/// the minimized (acyclic) part and the counting recurrence holds at the
/// root, the stored count is the number of accepted words.
pub proof fn lemma_root_count_is_word_total(d: Dawg)
    requires
        d.wf(),
        count_ok(d.nodes@, d.root as int),
        forall|e: int|
            0 <= e < d.nodes@[d.root as int].edges@.len() ==> d.minimized_ids@.contains(
                (#[trigger] d.nodes@[d.root as int].edges@[e]).1 as int,
            ),
    ensures
        lang(d.nodes@, d.root as int).finite(),
        d.nodes@[d.root as int].count == clamp_usize(lang(d.nodes@, d.root as int).len() as int),
{
    assert forall|e: int| 0 <= e < d.nodes@[0].edges@.len() implies lang(
        d.nodes@,
        (#[trigger] d.nodes@[0].edges@[e]).1 as int,
    ).finite() && d.nodes@[(d.nodes@[0].edges@[e]).1 as int].count == clamp_usize(
        lang(d.nodes@, (d.nodes@[0].edges@[e]).1 as int).len() as int,
    ) by {
        lemma_min_count_lang(d, d.nodes@[0].edges@[e].1 as int);
    }
    assert(node_wf(d.nodes@, 0));
    lemma_counted_node(d.nodes@, 0);
}

/// Writing the settled count into the root preserves structural
/// well-formedness and establishes the counting recurrence at the root:
/// the root is never minimized, so no settled count depends on it.
proof fn lemma_finish_root_count(pre: Dawg, post: Dawg, c: usize)
    requires
        pre.wf(),
        pre.unchecked_nodes@.len() == 0,
        c == clamp_usize(
            (if pre.nodes@[0].terminal {
                1int
            } else {
                0int
            }) + sum_counts(pre.nodes@, pre.nodes@[0].edges@),
        ),
        post.unchecked_nodes@ == pre.unchecked_nodes@,
        post.root == pre.root,
        post.minimized_nodes@ == pre.minimized_nodes@,
        post.previous_word@ == pre.previous_word@,
        post.finished == pre.finished,
        post.minimized_ids@ == pre.minimized_ids@,
        post.ranks@ == pre.ranks@,
        post.next_rank@ == pre.next_rank@,
        post.nodes@.len() == pre.nodes@.len(),
        forall|j: int| 0 < j < pre.nodes@.len() ==> post.nodes@[j] == pre.nodes@[j],
        post.nodes@[0].id == pre.nodes@[0].id,
        post.nodes@[0].terminal == pre.nodes@[0].terminal,
        post.nodes@[0].edges@ == pre.nodes@[0].edges@,
        post.nodes@[0].count == c,
    ensures
        post.wf(),
        count_ok(post.nodes@, 0),
{
    assert forall|i: int| 0 <= i < post.nodes@.len() implies #[trigger] node_wf(
        post.nodes@,
        i,
    ) by {
        assert(node_wf(pre.nodes@, i));
        assert(post.nodes@[i].edges@ == pre.nodes@[i].edges@);
        assert(post.nodes@[i].id == pre.nodes@[i].id);
    }

    assert forall|j: int| #[trigger] post.minimized_ids@.contains(j) implies post.ranks@.dom().contains(j) && post.ranks@[j] < post.next_rank@ by {
        assert(pre.minimized_ids@.contains(j));
    }
    assert forall|j: int, t: int|
        post.minimized_ids@.contains(j) && 0 <= t < post.nodes@[j].edges@.len() implies post.ranks@[(#[trigger] post.nodes@[j].edges@[t]).1 as int] < post.ranks@[j] by {
        assert(pre.minimized_ids@.contains(j));
        assert(pre.min_node_ok(j));
        assert(j != 0);
        assert(post.nodes@[j].edges@ == pre.nodes@[j].edges@);
    }
    // the root's transitions all lead to minimized nodes, which are not
    // the root, so the computed sum is unchanged by the write
    assert forall|t: int| 0 <= t < post.nodes@[0].edges@.len() implies (
    #[trigger] post.nodes@[0].edges@[t]).1 as int != 0 && (post.nodes@[0].edges@[t].1 as int)
        < post.nodes@.len() && post.nodes@[post.nodes@[0].edges@[t].1 as int].count
        == pre.nodes@[pre.nodes@[0].edges@[t].1 as int].count by {
        assert(pre.edge_settled(0, t));
        assert(pre.minimized_ids@.contains(pre.nodes@[0].edges@[t].1 as int));
        assert(pre.min_node_ok(pre.nodes@[0].edges@[t].1 as int));
    }
    lemma_sum_counts_frame(pre.nodes@, post.nodes@, post.nodes@[0].edges@);
    assert(count_ok(post.nodes@, 0));
    assert forall|j: int| #[trigger] post.minimized_ids@.contains(j) implies post.min_node_ok(
        j,
    ) by {
        assert(pre.min_node_ok(j));
        assert(j != 0);
        assert(post.nodes@[j] == pre.nodes@[j]);
        assert forall|t: int|
            0 <= t < post.nodes@[j].edges@.len() implies (#[trigger] post.nodes@[j].edges@[t]).1
            as int != 0 && (post.nodes@[j].edges@[t].1 as int) < post.nodes@.len() by {
            assert(pre.minimized_ids@.contains(pre.nodes@[j].edges@[t].1 as int));
            assert(pre.min_node_ok(pre.nodes@[j].edges@[t].1 as int));
        }
        lemma_sum_counts_frame(pre.nodes@, post.nodes@, post.nodes@[j].edges@);
    }
    assert forall|i: int, e2: int|
        0 <= i < post.nodes@.len() && 0 <= e2 < post.nodes@[i].edges@.len() implies
        #[trigger] post.edge_settled(i, e2) by {
        assert(pre.edge_settled(i, e2));
        assert(post.nodes@[i].edges@ == pre.nodes@[i].edges@);
    }
    assert forall|r1: int, r2: int|
        0 <= r1 < r2 < post.minimized_nodes@.len() implies !sig_eq(
            post.nodes@[(#[trigger] post.minimized_nodes@[r1]) as int],
            post.nodes@[(#[trigger] post.minimized_nodes@[r2]) as int],
        ) by {
        assert(pre.minimized_ids@.contains(pre.minimized_nodes@[r1] as int));
        assert(pre.minimized_ids@.contains(pre.minimized_nodes@[r2] as int));
        assert(pre.min_node_ok(pre.minimized_nodes@[r1] as int));
        assert(pre.min_node_ok(pre.minimized_nodes@[r2] as int));
    }
}

/// Structural well-formedness does not depend on the word cursor or the
/// finished flag.
proof fn lemma_wf_core_frame(a: Dawg, b: Dawg)
    requires
        a.wf_core(),
        b.nodes@ == a.nodes@,
        b.root == a.root,
        b.minimized_nodes@ == a.minimized_nodes@,
        b.unchecked_nodes@ == a.unchecked_nodes@,
        b.minimized_ids@ == a.minimized_ids@,
        b.ranks@ == a.ranks@,
        b.next_rank@ == a.next_rank@,
    ensures
        b.wf_core(),
{
    assert forall|k: int| 0 <= k < b.unchecked_nodes@.len() implies #[trigger] b.frontier_entry_ok(
        k,
    ) by {
        assert(a.frontier_entry_ok(k));
    }
    assert forall|j: int| #[trigger] b.minimized_ids@.contains(j) implies b.min_node_ok(j) by {
        assert(a.minimized_ids@.contains(j));
        assert(a.min_node_ok(j));
    }

    assert forall|j: int| #[trigger] b.minimized_ids@.contains(j) implies b.ranks@.dom().contains(j) && b.ranks@[j] < b.next_rank@ by {
        assert(a.minimized_ids@.contains(j));
    }
    assert forall|j: int, t: int|
        b.minimized_ids@.contains(j) && 0 <= t < b.nodes@[j].edges@.len() implies b.ranks@[(#[trigger] b.nodes@[j].edges@[t]).1 as int] < b.ranks@[j] by {
        assert(a.minimized_ids@.contains(j));
        assert(b.nodes@[j] == a.nodes@[j]);
        assert(b.nodes@[j].edges@ == a.nodes@[j].edges@);
    }

    assert forall|i: int, e: int|
        0 <= i < b.nodes@.len() && 0 <= e < b.nodes@[i].edges@.len() implies #[trigger] b.edge_settled(
        i,
        e,
    ) by {
        assert(a.edge_settled(i, e));
    }
}

/// When the frontier spans the whole word `w`, walking `w` from the root
/// runs along the frontier path and ends at the deepest frontier child.
proof fn lemma_frontier_walk(d: Dawg, w: Seq<char>, k: int)
    requires
        d.wf_core(),
        d.unchecked_nodes@.len() == w.len(),
        forall|k2: int| 0 <= k2 < w.len() ==> (#[trigger] d.unchecked_nodes@[k2]).letter == w[k2],
        0 <= k <= w.len(),
    ensures
        walk(d.nodes@, d.frontier_parent(k), w.skip(k), true) == Some(
            d.frontier_parent(w.len() as int),
        ),
    decreases w.len() - k,
{
    if k == w.len() {
        assert(w.skip(k).len() == 0);
    } else {
        assert(d.frontier_entry_ok(k));
        assert(w.skip(k)[0] == w[k]);
        assert(edge_lookup(
            d.nodes@[d.frontier_parent(k)].edges@,
            d.unchecked_nodes@[k].letter,
            true,
        ) == Some(d.unchecked_nodes@[k].child));
        assert(w.skip(k).drop_first() =~= w.skip(k + 1));
        lemma_frontier_walk(d, w, k + 1);
        assert(d.unchecked_nodes@[k].child as int == d.frontier_parent(k + 1));
    }
}

impl Dawg {
    /// Walks a word from the root, one transition per character, exactly
    /// or up to case folding.  Returns the node the walk ends at, or
    /// nothing as soon as one step has no matching transition.
    fn walk_word(&self, w: &Vec<char>, case_sensitive: bool) -> (r: Option<usize>)
        requires
            self.wf(),
        ensures
            match walk(self.nodes@, self.root as int, w@, case_sensitive) {
                Some(j) => r is Some && r->Some_0 as int == j && j < self.nodes@.len(),
                None => r is None,
            },
    {
        let mut cur: usize = self.root;
        let mut i: usize = 0;
        proof {
            assert(w@.skip(0) =~= w@);
        }
        while i < w.len()
            invariant
                self.wf(),
                i <= w@.len(),
                (cur as int) < self.nodes@.len(),
                walk(self.nodes@, self.root as int, w@, case_sensitive) == walk(
                    self.nodes@,
                    cur as int,
                    w@.skip(i as int),
                    case_sensitive,
                ),
            decreases w@.len() - i,
        {
            let c = w[i];
            proof {
                assert(w@.skip(i as int)[0] == w@[i as int]);
            }
            let nxt = find_edge(&self.nodes[cur].edges, c, case_sensitive);
            match nxt {
                Some(t) => {
                    proof {
                        assert(node_wf(self.nodes@, cur as int));
                        lemma_lookup_target(self.nodes@[cur as int].edges@, c, case_sensitive);
                        assert((t as int) < self.nodes@.len());
                        assert(w@.skip(i as int).drop_first() =~= w@.skip(i + 1));
                    }
                    cur = t;
                },
                None => {
                    return None;
                },
            }
            i = i + 1;
        }
        proof {
            assert(w@.skip(i as int).len() == 0);
        }
        Some(cur)
    }

    /// Traverses the graph along `word` and pairs the reached node with
    /// the word, or returns nothing when some step has no matching
    /// transition.
    fn find(&self, word: String, case_sensitive: bool) -> (r: Option<SearchRes>)
        requires
            self.wf(),
        ensures
            match walk(self.nodes@, self.root as int, word@, case_sensitive) {
                Some(j) => r is Some && r->Some_0.node as int == j && j < self.nodes@.len()
                    && r->Some_0.word@ == word@,
                None => r is None,
            },
    {
        let w = Utils::split_to_vec(word.as_str());
        match self.walk_word(&w, case_sensitive) {
            Some(n) => Some(SearchRes::new(n, word)),
            None => None,
        }
    }

    /// Whether `word` is in the lexicon: the walk completes and ends at a
    /// terminal node.  Returns the word back on success, as the proof of
    /// membership.
    pub fn is_word(&self, word: String, case_sensitive: bool) -> (r: Option<String>)
        requires
            self.wf(),
        ensures
            (r is Some) == accepts(self.nodes@, self.root as int, word@, case_sensitive),
            r is Some ==> r->Some_0@ == word@,
    {
        match self.find(word, case_sensitive) {
            Some(res) => {
                if self.nodes[res.node].terminal {
                    Some(res.word)
                } else {
                    None
                }
            },
            None => None,
        }
    }

    /// Whether `word` is a prefix of some path in the graph: the walk
    /// completes, terminal or not.  Returns the reached node's index.
    pub fn lookup(&self, word: String, case_sensitive: bool) -> (r: Option<usize>)
        requires
            self.wf(),
        ensures
            match walk(self.nodes@, self.root as int, word@, case_sensitive) {
                Some(j) => r is Some && r->Some_0 as int == j,
                None => r is None,
            },
    {
        match self.find(word, case_sensitive) {
            Some(res) => Some(res.node),
            None => None,
        }
    }

    /// Exact membership as a plain truth value.
    pub fn contains_word(&self, word: &str, case_sensitive: bool) -> (r: bool)
        requires
            self.wf(),
        ensures
            r == accepts(self.nodes@, self.root as int, word@, case_sensitive),
    {
        let w = Utils::split_to_vec(word);
        match self.walk_word(&w, case_sensitive) {
            Some(n) => self.nodes[n].terminal,
            None => false,
        }
    }

    /// Prefix existence as a plain truth value.
    pub fn contains_prefix(&self, word: &str, case_sensitive: bool) -> (r: bool)
        requires
            self.wf(),
        ensures
            r == (walk(self.nodes@, self.root as int, word@, case_sensitive) is Some),
    {
        let w = Utils::split_to_vec(word);
        match self.walk_word(&w, case_sensitive) {
            Some(_) => true,
            None => false,
        }
    }

    /// The root's settled count: after `finish`, the number of distinct
    /// words held by the graph (clamped to `usize`).
    pub fn word_count(&self) -> (r: usize)
        requires
            self.wf(),
        ensures
            r == self.nodes@[self.root as int].count,
    {
        self.nodes[self.root].count
    }
}

/// The sum of child counts over a transition list depends only on the
/// counts stored at the transitions' targets.
pub proof fn lemma_sum_counts_frame(n1: Seq<DawgNode>, n2: Seq<DawgNode>, edges: Seq<(char, usize)>)
    requires
        forall|e: int|
            0 <= e < edges.len() ==> (#[trigger] edges[e]).1 < n1.len() && (edges[e].1 as int)
                < n2.len() && n2[edges[e].1 as int].count == n1[edges[e].1 as int].count,
    ensures
        sum_counts(n2, edges) == sum_counts(n1, edges),
    decreases edges.len(),
{
    if edges.len() > 0 {
        assert(forall|e: int|
            0 <= e < edges.drop_last().len() ==> #[trigger] edges.drop_last()[e] == edges[e]);
        lemma_sum_counts_frame(n1, n2, edges.drop_last());
        assert(edges.last() == edges[edges.len() - 1]);
    }
}

} // verus!
