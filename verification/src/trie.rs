//! A character-keyed prefix tree holding string values.
//!
//! Nodes live in an arena (`nodes[0]` is the root) and refer to their
//! children by index, so the structure stays strictly tree-shaped: every
//! child index is greater than its parent's and no index is the child of two
//! nodes. The tree is abstracted by [`Trie::model`], a map from key (a
//! sequence of code points) to the value stored at the key's terminal node;
//! all lookup contracts are stated against that map.

use vstd::prelude::*;

verus! {

/// One arena node: children as (character, node index) pairs, plus the
/// optional value marking that some inserted key terminates here.
pub(crate) struct TrieNode {
    pub(crate) children: Vec<(char, usize)>,
    pub(crate) value: Option<String>,
}

/// A prefix tree built once by [`Trie::insert`] and read by the lookup
/// methods.
pub struct Trie {
    pub(crate) nodes: Vec<TrieNode>,
}

/// Index of the child of `children` reached on `c`: the first entry whose
/// character is `c`, if any.
pub(crate) open spec fn child_idx(children: Seq<(char, usize)>, c: char) -> Option<usize>
    decreases children.len(),
{
    if children.len() == 0 {
        None
    } else if children[0].0 == c {
        Some(children[0].1)
    } else {
        child_idx(children.drop_first(), c)
    }
}

/// Node reached from node `i` by walking the characters of `key`, or `None`
/// if the path leaves the tree.
pub(crate) open spec fn walk(nodes: Seq<TrieNode>, i: int, key: Seq<char>) -> Option<int>
    decreases key.len(),
{
    if !(0 <= i < nodes.len()) {
        None
    } else if key.len() == 0 {
        Some(i)
    } else {
        match child_idx(nodes[i].children@, key[0]) {
            Some(j) => walk(nodes, j as int, key.drop_first()),
            None => None,
        }
    }
}

/// True when walking `key` from the root ends at a node carrying a value.
pub(crate) open spec fn marked_at(nodes: Seq<TrieNode>, key: Seq<char>) -> bool {
    match walk(nodes, 0, key) {
        Some(j) => nodes[j].value is Some,
        None => false,
    }
}

/// The value stored at the end of `key`'s path (meaningful only when
/// `marked_at` holds).
pub(crate) open spec fn value_at(nodes: Seq<TrieNode>, key: Seq<char>) -> Seq<char> {
    match walk(nodes, 0, key) {
        Some(j) => match nodes[j].value {
            Some(s) => s@,
            None => Seq::empty(),
        },
        None => Seq::empty(),
    }
}

/// The key-to-value map represented by the arena.
pub(crate) open spec fn trie_model(nodes: Seq<TrieNode>) -> Map<Seq<char>, Seq<char>> {
    Map::new(|k: Seq<char>| marked_at(nodes, k), |k: Seq<char>| value_at(nodes, k))
}

/// Structural well-formedness: a nonempty arena whose child edges point
/// strictly forward, with at most one edge per character out of a node and
/// at most one edge into any node.
pub(crate) open spec fn wf_nodes(nodes: Seq<TrieNode>) -> bool {
    &&& 1 <= nodes.len()
    &&& forall|k: int, e: int|
        0 <= k < nodes.len() && 0 <= e < nodes[k].children@.len() ==> k < (
        #[trigger] nodes[k].children@[e]).1 < nodes.len()
    &&& forall|k: int, e1: int, e2: int|
        0 <= k < nodes.len() && 0 <= e1 < e2 < nodes[k].children@.len() ==> (
        #[trigger] nodes[k].children@[e1]).0 != (#[trigger] nodes[k].children@[e2]).0
    &&& forall|k1: int, e1: int, k2: int, e2: int|
        0 <= k1 < nodes.len() && 0 <= e1 < nodes[k1].children@.len() && 0 <= k2 < nodes.len() && 0
            <= e2 < nodes[k2].children@.len() && !(k1 == k2 && e1 == e2) ==> (
        #[trigger] nodes[k1].children@[e1]).1 != (#[trigger] nodes[k2].children@[e2]).1
}

/// Node `j` lies on the path of some key present in the model.
pub(crate) open spec fn covered(nodes: Seq<TrieNode>, j: int) -> bool {
    exists|key: Seq<char>, c: int|
        0 <= c <= key.len() && marked_at(nodes, key) && walk(nodes, 0, key.take(c)) == Some(j)
}

/// Every non-root node lies on the path of a stored key: nodes are only ever
/// created while inserting a key, and keys are never removed.
pub(crate) open spec fn wf_cov(nodes: Seq<TrieNode>) -> bool {
    forall|j: int| 1 <= j < nodes.len() ==> #[trigger] covered(nodes, j)
}

impl Trie {
    /// The dictionary this trie represents: each inserted key maps to the
    /// last value inserted for it.
    pub closed spec fn model(self) -> Map<Seq<char>, Seq<char>> {
        trie_model(self.nodes@)
    }

    /// Invariant established by [`Trie::new`] and preserved by every method.
    pub closed spec fn wf(self) -> bool {
        wf_nodes(self.nodes@) && wf_cov(self.nodes@)
    }
}

// ---------------------------------------------------------------------------
// Lemmas about `child_idx`
// ---------------------------------------------------------------------------
/// A found child is an actual entry; a miss means no entry has that
/// character.
pub(crate) proof fn lemma_child_idx_entry(children: Seq<(char, usize)>, c: char)
    ensures
        match child_idx(children, c) {
            Some(j) => exists|e: int| 0 <= e < children.len() && children[e] == (c, j),
            None => forall|e: int| 0 <= e < children.len() ==> (#[trigger] children[e]).0 != c,
        },
    decreases children.len(),
{
    if children.len() > 0 {
        if children[0].0 == c {
            assert(children[0] == (c, children[0].1));
        } else {
            lemma_child_idx_entry(children.drop_first(), c);
            match child_idx(children.drop_first(), c) {
                Some(j) => {
                    let e = choose|e: int|
                        0 <= e < children.drop_first().len() && children.drop_first()[e] == (c, j);
                    assert(children[e + 1] == (c, j));
                },
                None => {
                    assert forall|e: int| 0 <= e < children.len() implies (
                    #[trigger] children[e]).0 != c by {
                        if e > 0 {
                            assert(children.drop_first()[e - 1] == children[e]);
                        }
                    }
                },
            }
        }
    }
}

/// Effect of appending one child entry on lookups.
pub(crate) proof fn lemma_child_idx_push(children: Seq<(char, usize)>, ent: (char, usize), c: char)
    ensures
        child_idx(children.push(ent), c) == (if child_idx(children, c) is Some {
            child_idx(children, c)
        } else if ent.0 == c {
            Some(ent.1)
        } else {
            None
        }),
    decreases children.len(),
{
    if children.len() == 0 {
        assert(children.push(ent)[0] == ent);
        assert(children.push(ent).drop_first() =~= Seq::<(char, usize)>::empty());
        assert(child_idx(Seq::<(char, usize)>::empty(), c) is None);
    } else {
        assert(children.push(ent)[0] == children[0]);
        assert(children.push(ent).drop_first() =~= children.drop_first().push(ent));
        lemma_child_idx_push(children.drop_first(), ent, c);
    }
}

// ---------------------------------------------------------------------------
// Lemmas about `walk`
// ---------------------------------------------------------------------------
/// A walk only moves strictly forward through the arena.
pub(crate) proof fn lemma_walk_in_range(nodes: Seq<TrieNode>, i: int, key: Seq<char>)
    requires
        wf_nodes(nodes),
        0 <= i < nodes.len(),
        walk(nodes, i, key) is Some,
    ensures
        i <= walk(nodes, i, key)->0 < nodes.len(),
        key.len() > 0 ==> i < walk(nodes, i, key)->0,
    decreases key.len(),
{
    if key.len() > 0 {
        match child_idx(nodes[i].children@, key[0]) {
            Some(j) => {
                lemma_child_idx_entry(nodes[i].children@, key[0]);
                lemma_walk_in_range(nodes, j as int, key.drop_first());
            },
            None => {},
        }
    }
}

/// Walking a concatenation walks the pieces in order.
pub(crate) proof fn lemma_walk_compose(nodes: Seq<TrieNode>, i: int, a: Seq<char>, b: Seq<char>)
    ensures
        walk(nodes, i, a + b) == (match walk(nodes, i, a) {
            Some(j) => walk(nodes, j, b),
            None => None,
        }),
    decreases a.len(),
{
    if !(0 <= i < nodes.len()) {
        if (a + b).len() > 0 {
        }
    } else if a.len() == 0 {
        assert(a + b =~= b);
    } else {
        assert((a + b)[0] == a[0]);
        assert((a + b).drop_first() =~= a.drop_first() + b);
        match child_idx(nodes[i].children@, a[0]) {
            Some(j) => {
                lemma_walk_compose(nodes, j as int, a.drop_first(), b);
            },
            None => {},
        }
    }
}

/// A prefix of a walkable key is walkable.
pub(crate) proof fn lemma_walk_prefix_some(nodes: Seq<TrieNode>, p: Seq<char>, k: Seq<char>)
    requires
        walk(nodes, 0, k) is Some,
        p.is_prefix_of(k),
    ensures
        walk(nodes, 0, p) is Some,
{
    assert(k =~= p + k.skip(p.len() as int));
    lemma_walk_compose(nodes, 0, p, k.skip(p.len() as int));
}

/// A nonempty walk decomposes into a walk to the parent plus one edge.
pub(crate) proof fn lemma_walk_last_edge(nodes: Seq<TrieNode>, i: int, key: Seq<char>)
    requires
        walk(nodes, i, key) is Some,
        key.len() > 0,
    ensures
        exists|p: int|
            0 <= p < nodes.len() && #[trigger] walk(nodes, i, key.take(key.len() - 1)) == Some(p)
                && match child_idx(nodes[p].children@, key.last()) {
                Some(q) => q as int == walk(nodes, i, key)->0,
                None => false,
            },
    decreases key.len(),
{
    let n = key.len() as int;
    if n == 1 {
        assert(key.take(0) =~= Seq::<char>::empty());
        assert(walk(nodes, i, key.take(0)) == Some(i));
        assert(key.last() == key[0]);
        match child_idx(nodes[i].children@, key[0]) {
            Some(j) => {
                assert(key.drop_first().len() == 0);
                assert(walk(nodes, j as int, key.drop_first()) == Some(j as int));
            },
            None => {},
        }
    } else {
        match child_idx(nodes[i].children@, key[0]) {
            Some(j) => {
                lemma_walk_last_edge(nodes, j as int, key.drop_first());
                let p = choose|p: int|
                    0 <= p < nodes.len() && #[trigger] walk(
                        nodes,
                        j as int,
                        key.drop_first().take(key.drop_first().len() - 1),
                    ) == Some(p) && match child_idx(nodes[p].children@, key.drop_first().last()) {
                        Some(q) => q as int == walk(nodes, j as int, key.drop_first())->0,
                        None => false,
                    };
                assert(key.take(n - 1)[0] == key[0]);
                assert(key.take(n - 1).drop_first() =~= key.drop_first().take(n - 2));
                assert(key.drop_first().last() == key.last());
                assert(walk(nodes, i, key.take(n - 1)) == Some(p));
            },
            None => {},
        }
    }
}

/// In a well-formed arena, each node is reached by at most one key.
pub(crate) proof fn lemma_path_unique(nodes: Seq<TrieNode>, k1: Seq<char>, k2: Seq<char>, j: int)
    requires
        wf_nodes(nodes),
        walk(nodes, 0, k1) == Some(j),
        walk(nodes, 0, k2) == Some(j),
    ensures
        k1 == k2,
    decreases k1.len(),
{
    if k1.len() == 0 {
        assert(j == 0);
        if k2.len() > 0 {
            lemma_walk_in_range(nodes, 0, k2);
        }
        assert(k1 =~= k2);
    } else if k2.len() == 0 {
        assert(j == 0);
        lemma_walk_in_range(nodes, 0, k1);
    } else {
        let n1 = k1.len() as int;
        let n2 = k2.len() as int;
        lemma_walk_last_edge(nodes, 0, k1);
        lemma_walk_last_edge(nodes, 0, k2);
        let p1 = choose|p: int|
            0 <= p < nodes.len() && #[trigger] walk(nodes, 0, k1.take(n1 - 1)) == Some(p)
                && match child_idx(nodes[p].children@, k1.last()) {
                Some(q) => q as int == j,
                None => false,
            };
        let p2 = choose|p: int|
            0 <= p < nodes.len() && #[trigger] walk(nodes, 0, k2.take(n2 - 1)) == Some(p)
                && match child_idx(nodes[p].children@, k2.last()) {
                Some(q) => q as int == j,
                None => false,
            };
        lemma_child_idx_entry(nodes[p1].children@, k1.last());
        lemma_child_idx_entry(nodes[p2].children@, k2.last());
        let e1 = choose|e: int|
            0 <= e < nodes[p1].children@.len() && nodes[p1].children@[e] == (
            k1.last(),
            child_idx(nodes[p1].children@, k1.last())->0,
            );
        let e2 = choose|e: int|
            0 <= e < nodes[p2].children@.len() && nodes[p2].children@[e] == (
            k2.last(),
            child_idx(nodes[p2].children@, k2.last())->0,
            );
        // Both entries point at `j`; one edge into a node means they are the
        // same entry, so the parents and final characters agree.
        assert(nodes[p1].children@[e1].1 as int == j);
        assert(nodes[p2].children@[e2].1 as int == j);
        assert(p1 == p2 && e1 == e2);
        assert(k1.last() == k2.last());
        lemma_path_unique(nodes, k1.take(n1 - 1), k2.take(n2 - 1), p1);
        assert(n1 - 1 == n2 - 1);
        assert forall|x: int| 0 <= x < k1.len() implies k1[x] == k2[x] by {
            if x < n1 - 1 {
                assert(k1.take(n1 - 1)[x] == k1[x]);
                assert(k2.take(n2 - 1)[x] == k2[x]);
            } else {
                assert(k1.last() == k1[n1 - 1]);
                assert(k2.last() == k2[n2 - 1]);
            }
        }
        assert(k1 =~= k2);
    }
}

// ---------------------------------------------------------------------------
// Frame lemmas for the three mutations `insert` performs
// ---------------------------------------------------------------------------
/// Appending a fresh node does not change any walk that starts in range.
pub(crate) proof fn lemma_walk_append_node(
    nodes: Seq<TrieNode>,
    n: TrieNode,
    i: int,
    key: Seq<char>,
)
    requires
        wf_nodes(nodes),
        0 <= i < nodes.len(),
    ensures
        walk(nodes.push(n), i, key) == walk(nodes, i, key),
    decreases key.len(),
{
    if key.len() > 0 {
        assert(nodes.push(n)[i] == nodes[i]);
        match child_idx(nodes[i].children@, key[0]) {
            Some(j) => {
                lemma_child_idx_entry(nodes[i].children@, key[0]);
                lemma_walk_append_node(nodes, n, j as int, key.drop_first());
            },
            None => {},
        }
    }
}

/// Walks agree between arenas whose nodes all have the same children.
pub(crate) proof fn lemma_walk_same_children(
    nodes1: Seq<TrieNode>,
    nodes2: Seq<TrieNode>,
    i: int,
    key: Seq<char>,
)
    requires
        nodes1.len() == nodes2.len(),
        forall|k: int|
            0 <= k < nodes1.len() ==> (#[trigger] nodes1[k].children)@ == nodes2[k].children@,
    ensures
        walk(nodes1, i, key) == walk(nodes2, i, key),
    decreases key.len(),
{
    if 0 <= i < nodes1.len() && key.len() > 0 {
        match child_idx(nodes1[i].children@, key[0]) {
            Some(j) => {
                lemma_walk_same_children(nodes1, nodes2, j as int, key.drop_first());
            },
            None => {},
        }
    }
}

/// Premises shared by the edge-addition frame lemmas: `nodes2` equals
/// `nodes` except that node `p` gained one child edge on `ch` to the
/// childless, unmarked node `q`, which no other edge reaches.
pub(crate) open spec fn add_edge_shape(
    nodes: Seq<TrieNode>,
    nodes2: Seq<TrieNode>,
    p: int,
    ch: char,
    q: usize,
) -> bool {
    &&& nodes.len() == nodes2.len()
    &&& 0 <= p < nodes.len()
    &&& p < q as int && (q as int) < nodes.len()
    &&& child_idx(nodes[p].children@, ch) is None
    &&& nodes2[p].children@ == nodes[p].children@.push((ch, q))
    &&& nodes2[p].value == nodes[p].value
    &&& forall|k: int| 0 <= k < nodes.len() && k != p ==> nodes2[k] == #[trigger] nodes[k]
    &&& nodes[q as int].children@.len() == 0
    &&& nodes[q as int].value is None
    &&& forall|k: int, e: int|
        0 <= k < nodes.len() && 0 <= e < nodes[k].children@.len() ==> (
        #[trigger] nodes[k].children@[e]).1 != q
}

/// Adding an edge preserves every walk that already succeeded.
pub(crate) proof fn lemma_walk_add_edge_preserve(
    nodes: Seq<TrieNode>,
    nodes2: Seq<TrieNode>,
    p: int,
    ch: char,
    q: usize,
    i: int,
    key: Seq<char>,
)
    requires
        add_edge_shape(nodes, nodes2, p, ch, q),
        0 <= i < nodes.len(),
        walk(nodes, i, key) is Some,
    ensures
        walk(nodes2, i, key) == walk(nodes, i, key),
    decreases key.len(),
{
    if key.len() > 0 {
        if i == p {
            lemma_child_idx_push(nodes[p].children@, (ch, q), key[0]);
        }
        match child_idx(nodes[i].children@, key[0]) {
            Some(j) => {
                assert(child_idx(nodes2[i].children@, key[0]) == Some(j));
                assert(walk(nodes, j as int, key.drop_first()) is Some);
                assert(0 <= j as int && (j as int) < nodes.len());
                lemma_walk_add_edge_preserve(nodes, nodes2, p, ch, q, j as int, key.drop_first());
            },
            None => {},
        }
    }
}

/// Conversely, a walk that succeeds after the edge was added either already
/// succeeded or ends exactly at the new node `q`.
pub(crate) proof fn lemma_walk_add_edge_new(
    nodes: Seq<TrieNode>,
    nodes2: Seq<TrieNode>,
    p: int,
    ch: char,
    q: usize,
    i: int,
    key: Seq<char>,
)
    requires
        add_edge_shape(nodes, nodes2, p, ch, q),
        0 <= i < nodes.len(),
        walk(nodes2, i, key) is Some,
    ensures
        walk(nodes, i, key) == walk(nodes2, i, key) || walk(nodes2, i, key) == Some(q as int),
    decreases key.len(),
{
    if key.len() == 0 {
    } else if i == q as int {
        // q has no children in either arena, so the walk must stop here.
        assert(nodes2[i].children@ =~= Seq::<(char, usize)>::empty());
        assert(walk(nodes2, i, key) is None);
    } else {
        let cnew = child_idx(nodes2[i].children@, key[0]);
        if i == p {
            lemma_child_idx_push(nodes[p].children@, (ch, q), key[0]);
        } else {
            assert(nodes2[i] == nodes[i]);
        }
        match cnew {
            Some(j) => {
                assert(walk(nodes2, j as int, key.drop_first()) is Some);
                assert(0 <= j as int && (j as int) < nodes.len());
                if child_idx(nodes[i].children@, key[0]) == Some(j) {
                    lemma_walk_add_edge_new(nodes, nodes2, p, ch, q, j as int, key.drop_first());
                } else {
                    // The walk took the brand-new edge, so it is now at `q`.
                    assert(i == p && key[0] == ch && j == q);
                    lemma_walk_add_edge_new(nodes, nodes2, p, ch, q, q as int, key.drop_first());
                    assert(walk(nodes2, q as int, key.drop_first()) == Some(q as int));
                }
            },
            None => {},
        }
    }
}

// ---------------------------------------------------------------------------
// Construction
// ---------------------------------------------------------------------------
impl Trie {
    /// Create an empty trie: a lone root and no stored keys.
    pub fn new() -> (t: Trie)
        ensures
            t.wf(),
            t.model() == Map::<Seq<char>, Seq<char>>::empty(),
    {
        let mut nodes: Vec<TrieNode> = Vec::new();
        nodes.push(TrieNode { children: Vec::new(), value: None });
        let t = Trie { nodes };
        proof {
            assert forall|k: Seq<char>| !marked_at(t.nodes@, k) by {
                if k.len() > 0 {
                    assert(child_idx(t.nodes@[0].children@, k[0]) is None);
                }
            }
            assert(t.model() =~= Map::<Seq<char>, Seq<char>>::empty());
        }
        t
    }

    /// Walk or create one node per character of `key`, then set the terminal
    /// node's value, overwriting any previous value for the same key.
    pub fn insert(&mut self, key: &Vec<char>, value: &str)
        requires
            old(self).wf(),
        ensures
            final(self).wf(),
            final(self).model() == old(self).model().insert(key@, value@),
    {
        let ghost m0 = self.model();
        let mut cur: usize = 0;
        let mut i: usize = 0;
        while i < key.len()
            invariant
                wf_nodes(self.nodes@),
                i <= key@.len(),
                cur < self.nodes@.len(),
                walk(self.nodes@, 0, key@.take(i as int)) == Some(cur as int),
                trie_model(self.nodes@) == m0,
                forall|j: int|
                    1 <= j < self.nodes@.len() ==> covered(self.nodes@, j) || #[trigger] pending_on(
                        self.nodes@,
                        j,
                        key@.take(i as int),
                    ),
            decreases key@.len() - i,
        {
            let c = key[i];
            let next = child_of(&self.nodes[cur], c);
            match next {
                Some(j) => {
                    proof {
                        lemma_child_idx_entry(self.nodes@[cur as int].children@, c);
                        lemma_step_walk(self.nodes@, key@, i as int, cur as int, j as int);
                        lemma_pending_grows(self.nodes@, key@, i as int);
                    }
                    cur = j;
                },
                None => {
                    let q = self.nodes.len();
                    let ghost nodes0 = self.nodes@;
                    self.nodes.push(TrieNode { children: Vec::new(), value: None });
                    let ghost nodes_a = self.nodes@;
                    proof {
                        lemma_after_push(nodes0, nodes_a, m0, key@, i as int, cur as int);
                    }
                    self.nodes[cur].children.push((c, q));
                    let ghost nodes_b = self.nodes@;
                    proof {
                        assert(nodes_a[cur as int] == nodes0[cur as int]);
                        assert(nodes_a[q as int].children@.len() == 0);
                        lemma_after_edge(nodes_a, nodes_b, m0, key@, i as int, cur as int, c, q);
                    }
                    cur = q;
                },
            }
            i = i + 1;
        }
        let ghost nodes_pre = self.nodes@;
        let stored = value.to_owned();
        self.nodes[cur].value = Some(stored);
        proof {
            assert(key@.take(key@.len() as int) =~= key@);
            lemma_after_mark(nodes_pre, self.nodes@, m0, key@, cur as int, value@);
        }
    }
}

/// Node `j` lies on the path of some prefix of `pending`.
pub(crate) open spec fn pending_on(nodes: Seq<TrieNode>, j: int, pending: Seq<char>) -> bool {
    exists|c: int| 0 <= c <= pending.len() && walk(nodes, 0, pending.take(c)) == Some(j)
}

/// Find the child of `node` on character `c`.
pub(crate) fn child_of(node: &TrieNode, c: char) -> (r: Option<usize>)
    ensures
        r == child_idx(node.children@, c),
{
    let ghost cs = node.children@;
    proof {
        assert(cs.skip(0) =~= cs);
    }
    let mut e: usize = 0;
    while e < node.children.len()
        invariant
            e <= cs.len(),
            cs == node.children@,
            child_idx(cs, c) == child_idx(cs.skip(e as int), c),
        decreases cs.len() - e,
    {
        let ent = node.children[e];
        proof {
            assert(cs.skip(e as int)[0] == cs[e as int]);
            assert(cs.skip(e as int).drop_first() =~= cs.skip(e as int + 1));
        }
        if ent.0 == c {
            return Some(ent.1);
        }
        e = e + 1;
    }
    proof {
        assert(cs.skip(cs.len() as int) =~= Seq::<(char, usize)>::empty());
    }
    None
}

/// Taking an existing edge extends the walked prefix by one character.
proof fn lemma_step_walk(nodes: Seq<TrieNode>, key: Seq<char>, i: int, cur: int, j: int)
    requires
        wf_nodes(nodes),
        0 <= i < key.len(),
        0 <= cur < nodes.len(),
        walk(nodes, 0, key.take(i)) == Some(cur),
        child_idx(nodes[cur].children@, key[i]) matches Some(jj) && jj as int == j,
    ensures
        walk(nodes, 0, key.take(i + 1)) == Some(j),
        0 <= j < nodes.len(),
    decreases i,
{
    let cs = nodes[cur].children@;
    let jj = child_idx(cs, key[i])->0;
    lemma_child_idx_entry(cs, key[i]);
    let e = choose|e: int| 0 <= e < cs.len() && cs[e] == (key[i], jj);
    assert(cs[e].1 == jj);
    assert(cur < jj as int && (jj as int) < nodes.len());
    assert(key.take(i + 1) =~= key.take(i) + seq![key[i]]);
    lemma_walk_compose(nodes, 0, key.take(i), seq![key[i]]);
    assert(seq![key[i]][0] == key[i]);
    assert(seq![key[i]].drop_first() =~= Seq::<char>::empty());
    assert(walk(nodes, jj as int, seq![key[i]].drop_first()) == Some(jj as int));
    assert(walk(nodes, cur, seq![key[i]]) == Some(j));
}

/// Growing the pending prefix keeps every pending node pending.
proof fn lemma_pending_grows(nodes: Seq<TrieNode>, key: Seq<char>, i: int)
    requires
        0 <= i < key.len(),
    ensures
        forall|j: int|
            pending_on(nodes, j, key.take(i)) ==> #[trigger] pending_on(
                nodes,
                j,
                key.take(i + 1),
            ),
{
    assert forall|j: int| pending_on(nodes, j, key.take(i)) implies #[trigger] pending_on(
        nodes,
        j,
        key.take(i + 1),
    ) by {
        let c = choose|c: int|
            0 <= c <= key.take(i).len() && walk(nodes, 0, key.take(i).take(c)) == Some(j);
        assert(key.take(i).take(c) =~= key.take(i + 1).take(c));
        assert(walk(nodes, 0, key.take(i + 1).take(c)) == Some(j));
    }
}

/// State of the invariant after pushing a fresh node.
proof fn lemma_after_push(
    nodes0: Seq<TrieNode>,
    nodes_a: Seq<TrieNode>,
    m0: Map<Seq<char>, Seq<char>>,
    key: Seq<char>,
    i: int,
    cur: int,
)
    requires
        wf_nodes(nodes0),
        nodes_a.len() == nodes0.len() + 1,
        forall|k: int| 0 <= k < nodes0.len() ==> nodes_a[k] == #[trigger] nodes0[k],
        nodes_a[nodes0.len() as int].children@.len() == 0,
        nodes_a[nodes0.len() as int].value is None,
        0 <= i < key.len(),
        0 <= cur < nodes0.len(),
        walk(nodes0, 0, key.take(i)) == Some(cur),
        trie_model(nodes0) == m0,
        forall|j: int|
            1 <= j < nodes0.len() ==> covered(nodes0, j) || #[trigger] pending_on(
                nodes0,
                j,
                key.take(i),
            ),
    ensures
        wf_nodes(nodes_a),
        walk(nodes_a, 0, key.take(i)) == Some(cur),
        trie_model(nodes_a) == m0,
        forall|j: int|
            1 <= j < nodes0.len() ==> covered(nodes_a, j) || #[trigger] pending_on(
                nodes_a,
                j,
                key.take(i),
            ),
        forall|k: int, e: int|
            0 <= k < nodes_a.len() && 0 <= e < nodes_a[k].children@.len() ==> (
            #[trigger] nodes_a[k].children@[e]).1 as int != nodes0.len(),
{
    let fresh = nodes_a[nodes0.len() as int];
    assert(nodes_a =~= nodes0.push(fresh));
    assert forall|k: int, e: int|
        0 <= k < nodes_a.len() && 0 <= e < nodes_a[k].children@.len() implies k < (
    #[trigger] nodes_a[k].children@[e]).1 < nodes_a.len() by {
        if k < nodes0.len() {
            assert(nodes_a[k] == nodes0[k]);
        }
    }
    assert(wf_nodes(nodes_a));
    lemma_walk_append_node(nodes0, fresh, 0, key.take(i));
    // Walks from the root are unchanged, so the model and the coverage
    // witnesses carry over.
    assert forall|k: Seq<char>| true implies walk(nodes_a, 0, k) == walk(nodes0, 0, k) by {
        lemma_walk_append_node(nodes0, fresh, 0, k);
    }
    assert forall|k: Seq<char>| marked_at(nodes_a, k) == marked_at(nodes0, k) by {
        if walk(nodes0, 0, k) is Some {
            lemma_walk_in_range(nodes0, 0, k);
        }
    }
    assert forall|k: Seq<char>| marked_at(nodes0, k) implies value_at(nodes_a, k) == value_at(
        nodes0,
        k,
    ) by {
        lemma_walk_in_range(nodes0, 0, k);
    }
    assert(trie_model(nodes_a) =~= m0);
    assert forall|j: int|
        1 <= j < nodes0.len() implies covered(nodes_a, j) || #[trigger] pending_on(
        nodes_a,
        j,
        key.take(i),
    ) by {
        if covered(nodes0, j) {
            let (wkey, c) = choose|wkey: Seq<char>, c: int|
                0 <= c <= wkey.len() && marked_at(nodes0, wkey) && walk(nodes0, 0, wkey.take(c))
                    == Some(j);
            assert(walk(nodes_a, 0, wkey.take(c)) == Some(j));
            assert(covered(nodes_a, j));
        } else if pending_on(nodes0, j, key.take(i)) {
            let c = choose|c: int|
                0 <= c <= key.take(i).len() && walk(nodes0, 0, key.take(i).take(c)) == Some(j);
            assert(walk(nodes_a, 0, key.take(i).take(c)) == Some(j));
            assert(pending_on(nodes_a, j, key.take(i)));
        }
    }
    assert forall|k: int, e: int|
        0 <= k < nodes_a.len() && 0 <= e < nodes_a[k].children@.len() implies (
    #[trigger] nodes_a[k].children@[e]).1 as int != nodes0.len() by {
        if k < nodes0.len() {
            assert(nodes_a[k] == nodes0[k]);
        }
    }
}

/// State of the invariant after linking the fresh node to its parent.
proof fn lemma_after_edge(
    nodes_a: Seq<TrieNode>,
    nodes_b: Seq<TrieNode>,
    m0: Map<Seq<char>, Seq<char>>,
    key: Seq<char>,
    i: int,
    cur: int,
    c: char,
    q: usize,
)
    requires
        wf_nodes(nodes_a),
        q as int == nodes_a.len() - 1,
        nodes_a[q as int].children@.len() == 0,
        nodes_a[q as int].value is None,
        forall|k: int, e: int|
            0 <= k < nodes_a.len() && 0 <= e < nodes_a[k].children@.len() ==> (
            #[trigger] nodes_a[k].children@[e]).1 != q,
        0 <= i < key.len(),
        0 <= cur < q as int,
        child_idx(nodes_a[cur].children@, c) is None,
        c == key[i],
        walk(nodes_a, 0, key.take(i)) == Some(cur),
        trie_model(nodes_a) == m0,
        forall|j: int|
            1 <= j < q as int ==> covered(nodes_a, j) || #[trigger] pending_on(
                nodes_a,
                j,
                key.take(i),
            ),
        nodes_b.len() == nodes_a.len(),
        nodes_b[cur].children@ == nodes_a[cur].children@.push((c, q)),
        nodes_b[cur].value == nodes_a[cur].value,
        forall|k: int| 0 <= k < nodes_a.len() && k != cur ==> nodes_b[k] == #[trigger] nodes_a[k],
    ensures
        wf_nodes(nodes_b),
        walk(nodes_b, 0, key.take(i + 1)) == Some(q as int),
        trie_model(nodes_b) == m0,
        forall|j: int|
            1 <= j < nodes_b.len() ==> covered(nodes_b, j) || #[trigger] pending_on(
                nodes_b,
                j,
                key.take(i + 1),
            ),
{
    assert(add_edge_shape(nodes_a, nodes_b, cur, c, q));
    lemma_child_idx_entry(nodes_a[cur].children@, c);
    // Well-formedness of the extended arena.
    assert forall|k: int, e: int|
        0 <= k < nodes_b.len() && 0 <= e < nodes_b[k].children@.len() implies k < (
    #[trigger] nodes_b[k].children@[e]).1 < nodes_b.len() by {
        if k == cur {
            if e < nodes_a[cur].children@.len() {
                assert(nodes_b[k].children@[e] == nodes_a[cur].children@[e]);
            } else {
                assert(nodes_b[k].children@[e] == (c, q));
            }
        } else {
            assert(nodes_b[k] == nodes_a[k]);
            assert(nodes_b[k].children@[e] == nodes_a[k].children@[e]);
        }
    }
    assert forall|k: int, e1: int, e2: int|
        0 <= k < nodes_b.len() && 0 <= e1 < e2 < nodes_b[k].children@.len() implies (
    #[trigger] nodes_b[k].children@[e1]).0 != (#[trigger] nodes_b[k].children@[e2]).0 by {
        if k == cur {
            if e2 < nodes_a[cur].children@.len() {
                assert(nodes_b[k].children@[e1] == nodes_a[cur].children@[e1]);
                assert(nodes_b[k].children@[e2] == nodes_a[cur].children@[e2]);
            } else {
                assert(nodes_b[k].children@[e1] == nodes_a[cur].children@[e1]);
                assert(nodes_b[k].children@[e2] == (c, q));
            }
        } else {
            assert(nodes_b[k] == nodes_a[k]);
            assert(nodes_b[k].children@[e1] == nodes_a[k].children@[e1]);
            assert(nodes_b[k].children@[e2] == nodes_a[k].children@[e2]);
        }
    }
    assert forall|k1: int, e1: int, k2: int, e2: int|
        0 <= k1 < nodes_b.len() && 0 <= e1 < nodes_b[k1].children@.len() && 0 <= k2
            < nodes_b.len() && 0 <= e2 < nodes_b[k2].children@.len() && !(k1 == k2 && e1
            == e2) implies (#[trigger] nodes_b[k1].children@[e1]).1 != (
    #[trigger] nodes_b[k2].children@[e2]).1 by {
        let old1 = !(k1 == cur && e1 == nodes_a[cur].children@.len());
        let old2 = !(k2 == cur && e2 == nodes_a[cur].children@.len());
        if k1 != cur {
            assert(nodes_b[k1] == nodes_a[k1]);
        }
        if k2 != cur {
            assert(nodes_b[k2] == nodes_a[k2]);
        }
        if old1 {
            assert(nodes_b[k1].children@[e1] == nodes_a[k1].children@[e1]);
        } else {
            assert(nodes_b[k1].children@[e1] == (c, q));
        }
        if old2 {
            assert(nodes_b[k2].children@[e2] == nodes_a[k2].children@[e2]);
        } else {
            assert(nodes_b[k2].children@[e2] == (c, q));
        }
    }
    assert(wf_nodes(nodes_b));
    // The inserted key's prefix now walks to the fresh node.
    lemma_walk_add_edge_preserve(nodes_a, nodes_b, cur, c, q, 0, key.take(i));
    lemma_child_idx_push(nodes_a[cur].children@, (c, q), c);
    assert(key.take(i + 1) =~= key.take(i) + seq![key[i]]);
    lemma_walk_compose(nodes_b, 0, key.take(i), seq![key[i]]);
    assert(seq![key[i]].drop_first() =~= Seq::<char>::empty());
    assert(seq![key[i]][0] == key[i]);
    assert(child_idx(nodes_b[cur].children@, key[i]) == Some(q));
    assert(walk(nodes_b, q as int, seq![key[i]].drop_first()) == Some(q as int));
    assert(walk(nodes_b, cur, seq![key[i]]) == Some(q as int));
    assert(walk(nodes_b, 0, key.take(i + 1)) == Some(q as int));
    // The model is untouched: the new node carries no value.
    assert forall|k: Seq<char>| marked_at(nodes_b, k) == marked_at(nodes_a, k) by {
        if walk(nodes_b, 0, k) is Some {
            lemma_walk_add_edge_new(nodes_a, nodes_b, cur, c, q, 0, k);
            let j = walk(nodes_b, 0, k)->0;
            if j == q as int {
                assert(nodes_b[j].value is None);
            }
        }
        if walk(nodes_a, 0, k) is Some {
            lemma_walk_add_edge_preserve(nodes_a, nodes_b, cur, c, q, 0, k);
            lemma_walk_in_range(nodes_a, 0, k);
        }
    }
    assert forall|k: Seq<char>| marked_at(nodes_a, k) implies value_at(nodes_b, k) == value_at(
        nodes_a,
        k,
    ) by {
        lemma_walk_add_edge_preserve(nodes_a, nodes_b, cur, c, q, 0, k);
        lemma_walk_in_range(nodes_a, 0, k);
    }
    assert(trie_model(nodes_b) =~= m0);
    // Coverage: old nodes keep their witnesses, the new node is pending.
    assert forall|j: int|
        1 <= j < nodes_b.len() implies covered(nodes_b, j) || #[trigger] pending_on(
        nodes_b,
        j,
        key.take(i + 1),
    ) by {
        if j == q as int {
            assert(key.take(i + 1).take(i + 1) =~= key.take(i + 1));
            assert(pending_on(nodes_b, j, key.take(i + 1)));
        } else if covered(nodes_a, j) {
            let (wkey, cc) = choose|wkey: Seq<char>, cc: int|
                0 <= cc <= wkey.len() && marked_at(nodes_a, wkey) && walk(nodes_a, 0, wkey.take(cc))
                    == Some(j);
            lemma_walk_add_edge_preserve(nodes_a, nodes_b, cur, c, q, 0, wkey);
            lemma_walk_add_edge_preserve(nodes_a, nodes_b, cur, c, q, 0, wkey.take(cc));
            assert(covered(nodes_b, j));
        } else {
            assert(pending_on(nodes_a, j, key.take(i)));
            let cc = choose|cc: int|
                0 <= cc <= key.take(i).len() && walk(nodes_a, 0, key.take(i).take(cc)) == Some(j);
            lemma_walk_add_edge_preserve(nodes_a, nodes_b, cur, c, q, 0, key.take(i).take(cc));
            assert(key.take(i).take(cc) =~= key.take(i + 1).take(cc));
            assert(pending_on(nodes_b, j, key.take(i + 1)));
        }
    }
}

/// State of the invariant after marking the terminal node.
proof fn lemma_after_mark(
    nodes_pre: Seq<TrieNode>,
    nodes_fin: Seq<TrieNode>,
    m0: Map<Seq<char>, Seq<char>>,
    key: Seq<char>,
    cur: int,
    v: Seq<char>,
)
    requires
        wf_nodes(nodes_pre),
        0 <= cur < nodes_pre.len(),
        nodes_fin.len() == nodes_pre.len(),
        nodes_fin[cur].children@ == nodes_pre[cur].children@,
        nodes_fin[cur].value matches Some(s) && s@ == v,
        forall|k: int| 0 <= k < nodes_pre.len() && k != cur ==> nodes_fin[k] == #[trigger] nodes_pre[k],
        walk(nodes_pre, 0, key) == Some(cur),
        trie_model(nodes_pre) == m0,
        forall|j: int|
            1 <= j < nodes_pre.len() ==> covered(nodes_pre, j) || #[trigger] pending_on(
                nodes_pre,
                j,
                key,
            ),
    ensures
        wf_nodes(nodes_fin),
        wf_cov(nodes_fin),
        trie_model(nodes_fin) == m0.insert(key, v),
{
    assert forall|k: int| 0 <= k < nodes_fin.len() implies (#[trigger] nodes_fin[k].children)@
        == nodes_pre[k].children@ by {}
    // All walks are untouched: only a value changed.
    assert forall|k: Seq<char>| true implies walk(nodes_fin, 0, k) == walk(nodes_pre, 0, k) by {
        lemma_walk_same_children(nodes_fin, nodes_pre, 0, k);
    }
    assert forall|k: int, e: int|
        0 <= k < nodes_fin.len() && 0 <= e < nodes_fin[k].children@.len() implies k < (
    #[trigger] nodes_fin[k].children@[e]).1 < nodes_fin.len() by {
        assert(nodes_fin[k].children@[e] == nodes_pre[k].children@[e]);
    }
    assert forall|k: int, e1: int, e2: int|
        0 <= k < nodes_fin.len() && 0 <= e1 < e2 < nodes_fin[k].children@.len() implies (
    #[trigger] nodes_fin[k].children@[e1]).0 != (#[trigger] nodes_fin[k].children@[e2]).0 by {
        assert(nodes_fin[k].children@[e1] == nodes_pre[k].children@[e1]);
        assert(nodes_fin[k].children@[e2] == nodes_pre[k].children@[e2]);
    }
    assert forall|k1: int, e1: int, k2: int, e2: int|
        0 <= k1 < nodes_fin.len() && 0 <= e1 < nodes_fin[k1].children@.len() && 0 <= k2
            < nodes_fin.len() && 0 <= e2 < nodes_fin[k2].children@.len() && !(k1 == k2 && e1
            == e2) implies (#[trigger] nodes_fin[k1].children@[e1]).1 != (
    #[trigger] nodes_fin[k2].children@[e2]).1 by {
        assert(nodes_fin[k1].children@[e1] == nodes_pre[k1].children@[e1]);
        assert(nodes_fin[k2].children@[e2] == nodes_pre[k2].children@[e2]);
    }
    assert(wf_nodes(nodes_fin));
    // The model gains (or overwrites) exactly the inserted key.
    assert forall|k: Seq<char>| k != key implies marked_at(nodes_fin, k) == marked_at(
        nodes_pre,
        k,
    ) && (marked_at(nodes_pre, k) ==> value_at(nodes_fin, k) == value_at(nodes_pre, k)) by {
        match walk(nodes_pre, 0, k) {
            Some(j) => {
                lemma_walk_in_range(nodes_pre, 0, k);
                if j == cur {
                    lemma_path_unique(nodes_pre, k, key, cur);
                }
                assert(j != cur);
            },
            None => {},
        }
    }
    assert(marked_at(nodes_fin, key));
    assert(value_at(nodes_fin, key) == v);
    assert(trie_model(nodes_fin) =~= m0.insert(key, v));
    // Every node now lies on the path of a stored key.
    assert forall|j: int| 1 <= j < nodes_fin.len() implies #[trigger] covered(nodes_fin, j) by {
        if covered(nodes_pre, j) {
            let (wkey, cc) = choose|wkey: Seq<char>, cc: int|
                0 <= cc <= wkey.len() && marked_at(nodes_pre, wkey) && walk(
                    nodes_pre,
                    0,
                    wkey.take(cc),
                ) == Some(j);
            assert(marked_at(nodes_fin, wkey)) by {
                let jj = walk(nodes_pre, 0, wkey)->0;
                lemma_walk_in_range(nodes_pre, 0, wkey);
                if jj == cur {
                } else {
                    assert(nodes_fin[jj] == nodes_pre[jj]);
                }
            }
            assert(walk(nodes_fin, 0, wkey.take(cc)) == Some(j));
            assert(covered(nodes_fin, j));
        } else {
            assert(pending_on(nodes_pre, j, key));
            let cc = choose|cc: int|
                0 <= cc <= key.len() && walk(nodes_pre, 0, key.take(cc)) == Some(j);
            assert(walk(nodes_fin, 0, key.take(cc)) == Some(j));
            assert(covered(nodes_fin, j));
        }
    }
}

// ---------------------------------------------------------------------------
// Longest-match specifications over the model map
// ---------------------------------------------------------------------------
/// Longest `l` in `[1, n]` such that `s[start..start+l]` is a key of `m`,
/// or `0` if no such prefix is a key.
pub open spec fn best_len_upto(m: Map<Seq<char>, Seq<char>>, s: Seq<char>, start: int, n: int) -> int
    decreases n,
{
    if n < 1 {
        0
    } else if m.contains_key(s.subrange(start, start + n)) {
        n
    } else {
        best_len_upto(m, s, start, n - 1)
    }
}

/// Length of the longest key of `m` that matches at position `start` of `s`
/// (0 when nothing matches).
pub open spec fn best_len(m: Map<Seq<char>, Seq<char>>, s: Seq<char>, start: int) -> int {
    best_len_upto(m, s, start, s.len() - start)
}

/// As [`best_len_upto`], but every candidate key is prefixed by `pre`.
pub open spec fn best_len_cat_upto(
    m: Map<Seq<char>, Seq<char>>,
    pre: Seq<char>,
    s: Seq<char>,
    start: int,
    n: int,
) -> int
    decreases n,
{
    if n < 1 {
        0
    } else if m.contains_key(pre + s.subrange(start, start + n)) {
        n
    } else {
        best_len_cat_upto(m, pre, s, start, n - 1)
    }
}

/// Length of the longest `l` such that `pre + s[start..start+l]` is a key of
/// `m` (0 when there is none).
pub open spec fn best_len_cat(
    m: Map<Seq<char>, Seq<char>>,
    pre: Seq<char>,
    s: Seq<char>,
    start: int,
) -> int {
    best_len_cat_upto(m, pre, s, start, s.len() - start)
}

/// `p` is a prefix of some key of `m`.
pub open spec fn is_stored_prefix(m: Map<Seq<char>, Seq<char>>, p: Seq<char>) -> bool {
    exists|k: Seq<char>| #[trigger] m.contains_key(k) && p.is_prefix_of(k)
}

/// Longest `c` in `[0, n]` such that `s[..c]` is a prefix of some key of `m`.
pub open spec fn stored_prefix_len_upto(m: Map<Seq<char>, Seq<char>>, s: Seq<char>, n: int) -> int
    decreases n,
{
    if n < 1 {
        0
    } else if is_stored_prefix(m, s.take(n)) {
        n
    } else {
        stored_prefix_len_upto(m, s, n - 1)
    }
}

/// Longest prefix of `s` that can be walked inside the tree of `m`'s keys.
pub open spec fn stored_prefix_len(m: Map<Seq<char>, Seq<char>>, s: Seq<char>) -> int {
    stored_prefix_len_upto(m, s, s.len() as int)
}

/// Length of the longest compound continuation: a compound exists only
/// when the whole of `kanji` can be walked through the stored keys; the
/// result is then the longest `l` such that `kanji` followed by
/// `s[after..after+l]` is itself a key, and `0` otherwise.
pub open spec fn compound_best(
    m: Map<Seq<char>, Seq<char>>,
    kanji: Seq<char>,
    s: Seq<char>,
    after: int,
) -> int {
    if stored_prefix_len(m, kanji) == kanji.len() {
        best_len_cat(m, kanji, s, after)
    } else {
        0
    }
}

/// Bounds, membership and maximality of [`best_len_cat_upto`].
pub proof fn lemma_best_len_cat_upto_props(
    m: Map<Seq<char>, Seq<char>>,
    pre: Seq<char>,
    s: Seq<char>,
    start: int,
    n: int,
)
    requires
        0 <= n,
    ensures
        0 <= best_len_cat_upto(m, pre, s, start, n) <= n,
        best_len_cat_upto(m, pre, s, start, n) > 0 ==> m.contains_key(
            pre + s.subrange(start, start + best_len_cat_upto(m, pre, s, start, n)),
        ),
        forall|l: int|
            best_len_cat_upto(m, pre, s, start, n) < l <= n ==> !(#[trigger] m.contains_key(
                pre + s.subrange(start, start + l),
            )),
    decreases n,
{
    if n >= 1 && !m.contains_key(pre + s.subrange(start, start + n)) {
        lemma_best_len_cat_upto_props(m, pre, s, start, n - 1);
    }
}

/// If nothing longer than `k` matches, the search collapses to `[1, k]`.
pub proof fn lemma_best_len_cat_upto_collapse(
    m: Map<Seq<char>, Seq<char>>,
    pre: Seq<char>,
    s: Seq<char>,
    start: int,
    k: int,
    n: int,
)
    requires
        0 <= k <= n,
        forall|l: int| k < l <= n ==> !(#[trigger] m.contains_key(pre + s.subrange(start, start + l))),
    ensures
        best_len_cat_upto(m, pre, s, start, n) == best_len_cat_upto(m, pre, s, start, k),
    decreases n,
{
    if n > k {
        lemma_best_len_cat_upto_collapse(m, pre, s, start, k, n - 1);
    }
}

/// With an empty required prefix the two searches coincide.
pub proof fn lemma_best_len_cat_empty(m: Map<Seq<char>, Seq<char>>, s: Seq<char>, start: int, n: int)
    ensures
        best_len_cat_upto(m, Seq::empty(), s, start, n) == best_len_upto(m, s, start, n),
    decreases n,
{
    if n >= 1 {
        assert(Seq::empty() + s.subrange(start, start + n) =~= s.subrange(start, start + n));
        lemma_best_len_cat_empty(m, s, start, n - 1);
    }
}

/// Bounds, membership and maximality of [`best_len`].
pub proof fn lemma_best_len_props(m: Map<Seq<char>, Seq<char>>, s: Seq<char>, start: int)
    requires
        0 <= start <= s.len(),
    ensures
        0 <= best_len(m, s, start) <= s.len() - start,
        best_len(m, s, start) > 0 ==> m.contains_key(
            s.subrange(start, start + best_len(m, s, start)),
        ),
        forall|l: int|
            best_len(m, s, start) < l <= s.len() - start ==> !(#[trigger] m.contains_key(
                s.subrange(start, start + l),
            )),
{
    lemma_best_len_upto_props(m, s, start, s.len() - start);
}

/// Bounds, membership and maximality of [`best_len_upto`].
pub proof fn lemma_best_len_upto_props(m: Map<Seq<char>, Seq<char>>, s: Seq<char>, start: int, n: int)
    requires
        0 <= n,
    ensures
        0 <= best_len_upto(m, s, start, n) <= n,
        best_len_upto(m, s, start, n) > 0 ==> m.contains_key(
            s.subrange(start, start + best_len_upto(m, s, start, n)),
        ),
        forall|l: int|
            best_len_upto(m, s, start, n) < l <= n ==> !(#[trigger] m.contains_key(
                s.subrange(start, start + l),
            )),
    decreases n,
{
    if n >= 1 && !m.contains_key(s.subrange(start, start + n)) {
        lemma_best_len_upto_props(m, s, start, n - 1);
    }
}

/// A match of length `l` forces [`best_len`] to be at least `l`.
pub proof fn lemma_best_len_at_least(m: Map<Seq<char>, Seq<char>>, s: Seq<char>, start: int, l: int)
    requires
        0 <= start,
        1 <= l <= s.len() - start,
        m.contains_key(s.subrange(start, start + l)),
    ensures
        best_len(m, s, start) >= l,
    decreases s.len() - start - l,
{
    lemma_best_len_upto_at_least(m, s, start, s.len() - start, l);
}

/// As [`lemma_best_len_at_least`], on the bounded search.
pub proof fn lemma_best_len_upto_at_least(
    m: Map<Seq<char>, Seq<char>>,
    s: Seq<char>,
    start: int,
    n: int,
    l: int,
)
    requires
        1 <= l <= n,
        m.contains_key(s.subrange(start, start + l)),
    ensures
        best_len_upto(m, s, start, n) >= l,
    decreases n,
{
    if n > l && !m.contains_key(s.subrange(start, start + n)) {
        lemma_best_len_upto_at_least(m, s, start, n - 1, l);
    }
}

/// Idempotence of insertion: inserting the same key twice leaves only the
/// second value in the dictionary, never a duplicate entry.
pub proof fn lemma_insert_overwrites(
    m: Map<Seq<char>, Seq<char>>,
    k: Seq<char>,
    v1: Seq<char>,
    v2: Seq<char>,
)
    ensures
        m.insert(k, v1).insert(k, v2) == m.insert(k, v2),
        m.insert(k, v1).insert(k, v2)[k] == v2,
{
    assert(m.insert(k, v1).insert(k, v2) =~= m.insert(k, v2));
}

/// Nothing matches against an empty dictionary.
pub proof fn lemma_best_len_empty(s: Seq<char>, start: int, n: int)
    ensures
        best_len_upto(Map::<Seq<char>, Seq<char>>::empty(), s, start, n) == 0,
    decreases n,
{
    if n >= 1 {
        assert(!Map::<Seq<char>, Seq<char>>::empty().contains_key(s.subrange(start, start + n)));
        lemma_best_len_empty(s, start, n - 1);
    }
}

/// If no prefix longer than `k` is stored, the search collapses to `[1, k]`.
proof fn lemma_stored_prefix_collapse(m: Map<Seq<char>, Seq<char>>, s: Seq<char>, k: int, n: int)
    requires
        0 <= k <= n,
        forall|l: int| k < l <= n ==> !(#[trigger] is_stored_prefix(m, s.take(l))),
    ensures
        stored_prefix_len_upto(m, s, n) == stored_prefix_len_upto(m, s, k),
    decreases n,
{
    if n > k {
        lemma_stored_prefix_collapse(m, s, k, n - 1);
    }
}

// ---------------------------------------------------------------------------
// Lookup operations
// ---------------------------------------------------------------------------
/// The model's membership is exactly `marked_at`.
proof fn lemma_model_contains(nodes: Seq<TrieNode>, k: Seq<char>)
    ensures
        trie_model(nodes).contains_key(k) == marked_at(nodes, k),
        marked_at(nodes, k) ==> trie_model(nodes)[k] == value_at(nodes, k),
{
}

/// A successful walk always ends inside the arena.
proof fn lemma_walk_some_range(nodes: Seq<TrieNode>, i: int, key: Seq<char>)
    requires
        walk(nodes, i, key) is Some,
    ensures
        0 <= walk(nodes, i, key)->0 < nodes.len(),
    decreases key.len(),
{
    if 0 <= i < nodes.len() && key.len() > 0 {
        match child_idx(nodes[i].children@, key[0]) {
            Some(j) => {
                lemma_walk_some_range(nodes, j as int, key.drop_first());
            },
            None => {},
        }
    }
}

/// Taking the edge for `c` extends a walked key by one character.
proof fn lemma_scan_step(nodes: Seq<TrieNode>, a: Seq<char>, c: char, cur: int, j: usize)
    requires
        wf_nodes(nodes),
        walk(nodes, 0, a) == Some(cur),
        child_idx(nodes[cur].children@, c) == Some(j),
    ensures
        walk(nodes, 0, a.push(c)) == Some(j as int),
        (j as int) < nodes.len(),
        1 <= j,
{
    lemma_walk_some_range(nodes, 0, a);
    assert(0 <= cur < nodes.len());
    let cs = nodes[cur].children@;
    lemma_child_idx_entry(cs, c);
    let e = choose|e: int| 0 <= e < cs.len() && cs[e] == (c, j);
    assert(cs[e].1 == j);
    assert(cur < cs[e].1 < nodes.len());
    assert(a.push(c) =~= a + seq![c]);
    lemma_walk_compose(nodes, 0, a, seq![c]);
    assert(seq![c][0] == c);
    assert(seq![c].drop_first() =~= Seq::<char>::empty());
    assert(walk(nodes, j as int, seq![c].drop_first()) == Some(j as int));
    assert(walk(nodes, cur, seq![c]) == Some(j as int));
}

/// A dead end at character `s[i]` rules out every longer key through here.
proof fn lemma_scan_dead_end(
    nodes: Seq<TrieNode>,
    pre: Seq<char>,
    s: Seq<char>,
    start: int,
    i: int,
    cur: int,
)
    requires
        walk(nodes, 0, pre + s.subrange(start, i)) == Some(cur),
        0 <= start <= i < s.len(),
        child_idx(nodes[cur].children@, s[i]) is None,
    ensures
        forall|l: int|
            i - start < l <= s.len() - start ==> !(#[trigger] trie_model(nodes).contains_key(
                pre + s.subrange(start, start + l),
            )),
{
    assert forall|l: int| i - start < l <= s.len() - start implies !(
    #[trigger] trie_model(nodes).contains_key(pre + s.subrange(start, start + l))) by {
        let a = pre + s.subrange(start, i);
        let b = s.subrange(i, start + l);
        assert(pre + s.subrange(start, start + l) =~= a + b);
        lemma_walk_compose(nodes, 0, a, b);
        assert(b[0] == s[i]);
        assert(walk(nodes, cur, b) is None);
        lemma_model_contains(nodes, pre + s.subrange(start, start + l));
    }
}

impl Trie {
    /// Greedy scan from a node already reached by walking `pre`: find the
    /// longest continuation in `chars[start..]` that ends at a stored key.
    fn scan_from(
        &self,
        start_node: usize,
        Ghost(pre): Ghost<Seq<char>>,
        chars: &Vec<char>,
        start: usize,
    ) -> (r: (usize, Option<String>))
        requires
            self.wf(),
            start <= chars@.len(),
            walk(self.nodes@, 0, pre) == Some(start_node as int),
        ensures
            r.0 as int == best_len_cat(self.model(), pre, chars@, start as int),
            r.0 > 0 ==> (r.1 matches Some(v) && v@ == self.model()[pre + chars@.subrange(
                start as int,
                start as int + r.0,
            )]),
    {
        let ghost m = self.model();
        let ghost s = chars@;
        let mut cur = start_node;
        let mut i = start;
        let mut blen: usize = 0;
        let mut bval: Option<String> = None;
        proof {
            assert(pre + s.subrange(start as int, start as int) =~= pre);
            lemma_walk_some_range(self.nodes@, 0, pre);
        }
        while i < chars.len()
            invariant_except_break
                self.wf(),
                s == chars@,
                m == self.model(),
                start <= i <= s.len(),
                (cur as int) < self.nodes@.len(),
                walk(self.nodes@, 0, pre + s.subrange(start as int, i as int)) == Some(cur as int),
                blen as int == best_len_cat_upto(m, pre, s, start as int, i - start),
                blen <= i - start,
                blen > 0 ==> (bval matches Some(v) && v@ == m[pre + s.subrange(
                    start as int,
                    start as int + blen,
                )]),
            ensures
                blen as int == best_len_cat(m, pre, s, start as int),
                blen > 0 ==> (bval matches Some(v) && v@ == m[pre + s.subrange(
                    start as int,
                    start as int + blen,
                )]),
            decreases s.len() - i,
        {
            let c = chars[i];
            match child_of(&self.nodes[cur], c) {
                Some(j) => {
                    proof {
                        lemma_scan_step(self.nodes@, pre + s.subrange(start as int, i as int), c, cur as int, j);
                        assert(pre + s.subrange(start as int, i + 1) =~= (pre + s.subrange(
                            start as int,
                            i as int,
                        )).push(c));
                    }
                    cur = j;
                    let ghost key_ext = pre + s.subrange(start as int, i + 1);
                    proof {
                        lemma_model_contains(self.nodes@, key_ext);
                    }
                    match &self.nodes[cur].value {
                        Some(v) => {
                            proof {
                                assert(marked_at(self.nodes@, key_ext));
                            }
                            bval = Some(v.clone());
                            blen = i + 1 - start;
                        },
                        None => {
                            proof {
                                assert(!marked_at(self.nodes@, key_ext));
                                assert(!m.contains_key(key_ext));
                            }
                        },
                    }
                    i = i + 1;
                },
                None => {
                    proof {
                        lemma_scan_dead_end(self.nodes@, pre, s, start as int, i as int, cur as int);
                        lemma_best_len_cat_upto_collapse(
                            m,
                            pre,
                            s,
                            start as int,
                            i - start,
                            s.len() - start,
                        );
                    }
                    break ;
                },
            }
        }
        (blen, bval)
    }

    /// Longest key of the dictionary matching at `start`, with its value:
    /// `None` exactly when no key matches there.
    pub fn longest_match(&self, chars: &Vec<char>, start: usize) -> (r: Option<(usize, String)>)
        requires
            self.wf(),
            start <= chars@.len(),
        ensures
            (r is Some) == (best_len(self.model(), chars@, start as int) > 0),
            r matches Some(p) ==> {
                &&& p.0 as int == best_len(self.model(), chars@, start as int)
                &&& self.model().contains_key(
                    chars@.subrange(start as int, start as int + p.0),
                )
                &&& p.1@ == self.model()[chars@.subrange(start as int, start as int + p.0)]
            },
    {
        let ghost m = self.model();
        proof {
            assert(walk(self.nodes@, 0, Seq::<char>::empty()) == Some(0int));
        }
        let (blen, bval) = self.scan_from(0, Ghost(Seq::empty()), chars, start);
        proof {
            lemma_best_len_cat_empty(m, chars@, start as int, chars@.len() - start);
            lemma_best_len_props(m, chars@, start as int);
            if blen > 0 {
                assert(Seq::empty() + chars@.subrange(start as int, start as int + blen)
                    =~= chars@.subrange(start as int, start as int + blen));
            }
        }
        if blen > 0 {
            Some((blen, bval.unwrap()))
        } else {
            None
        }
    }

    /// Whether the full character sequence is a stored key.
    pub fn contains_exact(&self, chars: &Vec<char>) -> (r: bool)
        requires
            self.wf(),
        ensures
            r == self.model().contains_key(chars@),
    {
        let ghost s = chars@;
        let mut cur: usize = 0;
        let mut i: usize = 0;
        proof {
            assert(s.take(0) =~= Seq::<char>::empty());
        }
        while i < chars.len()
            invariant
                self.wf(),
                s == chars@,
                i <= s.len(),
                (cur as int) < self.nodes@.len(),
                walk(self.nodes@, 0, s.take(i as int)) == Some(cur as int),
            decreases s.len() - i,
        {
            match child_of(&self.nodes[cur], chars[i]) {
                Some(j) => {
                    proof {
                        lemma_scan_step(self.nodes@, s.take(i as int), s[i as int], cur as int, j);
                        assert(s.take(i + 1) =~= s.take(i as int).push(s[i as int]));
                    }
                    cur = j;
                },
                None => {
                    proof {
                        let b = s.skip(i as int);
                        assert(s =~= s.take(i as int) + b);
                        lemma_walk_compose(self.nodes@, 0, s.take(i as int), b);
                        assert(b[0] == s[i as int]);
                        assert(walk(self.nodes@, 0, s) is None);
                        lemma_model_contains(self.nodes@, s);
                    }
                    return false;
                },
            }
            i = i + 1;
        }
        proof {
            assert(s.take(s.len() as int) =~= s);
            lemma_model_contains(self.nodes@, s);
        }
        self.nodes[cur].value.is_some()
    }

    /// Walk the whole `[wstart, wend)` range through the stored keys, then
    /// find the longest continuation in `chars[after..]` ending at a key;
    /// a range that cannot be walked in full yields no match.
    pub fn compound_match(
        &self,
        chars: &Vec<char>,
        wstart: usize,
        wend: usize,
        after: usize,
    ) -> (r: usize)
        requires
            self.wf(),
            wstart <= wend <= chars@.len(),
            after <= chars@.len(),
        ensures
            r as int == compound_best(
                self.model(),
                chars@.subrange(wstart as int, wend as int),
                chars@,
                after as int,
            ),
    {
        let ghost kanji = chars@.subrange(wstart as int, wend as int);
        let (c, node) = self.walk_stored_prefix(chars, wstart, wend);
        if c < wend - wstart {
            return 0;
        }
        proof {
            assert(kanji.take(c as int) =~= kanji);
        }
        let (blen, _) = self.scan_from(node, Ghost(kanji), chars, after);
        blen
    }

    /// Consume characters of `chars[wstart..wend]` while the stored keys
    /// allow, returning how many were consumed and the node reached.
    fn walk_stored_prefix(&self, chars: &Vec<char>, wstart: usize, wend: usize) -> (r: (
        usize,
        usize,
    ))
        requires
            self.wf(),
            wstart <= wend <= chars@.len(),
        ensures
            r.0 <= wend - wstart,
            r.0 as int == stored_prefix_len(
                self.model(),
                chars@.subrange(wstart as int, wend as int),
            ),
            walk(
                self.nodes@,
                0,
                chars@.subrange(wstart as int, wend as int).take(r.0 as int),
            ) == Some(r.1 as int),
    {
        let ghost m = self.model();
        let ghost kanji = chars@.subrange(wstart as int, wend as int);
        let mut cur: usize = 0;
        let mut i = wstart;
        proof {
            assert(kanji.take(0) =~= Seq::<char>::empty());
        }
        while i < wend
            invariant
                self.wf(),
                m == self.model(),
                kanji == chars@.subrange(wstart as int, wend as int),
                wstart <= i <= wend <= chars@.len(),
                (cur as int) < self.nodes@.len(),
                walk(self.nodes@, 0, kanji.take(i - wstart)) == Some(cur as int),
            decreases wend - i,
        {
            match child_of(&self.nodes[cur], chars[i]) {
                Some(j) => {
                    proof {
                        lemma_scan_step(
                            self.nodes@,
                            kanji.take(i - wstart),
                            chars@[i as int],
                            cur as int,
                            j,
                        );
                        assert(kanji.take(i + 1 - wstart) =~= kanji.take(i - wstart).push(
                            chars@[i as int],
                        ));
                    }
                    cur = j;
                },
                None => {
                    proof {
                        let c = i - wstart;
                        self.lemma_prefix_walk_stored(kanji, c, cur as int);
                        assert forall|n: int| c < n <= kanji.len() implies !(
                        #[trigger] is_stored_prefix(m, kanji.take(n))) by {
                            if is_stored_prefix(m, kanji.take(n)) {
                                let wk = choose|k: Seq<char>|
                                    #[trigger] m.contains_key(k) && kanji.take(n).is_prefix_of(k);
                                lemma_model_contains(self.nodes@, wk);
                                lemma_walk_prefix_some(self.nodes@, kanji.take(n), wk);
                                assert(kanji.take(c + 1).is_prefix_of(kanji.take(n)));
                                lemma_walk_prefix_some(
                                    self.nodes@,
                                    kanji.take(c + 1),
                                    kanji.take(n),
                                );
                                assert(kanji.take(c + 1) =~= kanji.take(c) + seq![kanji[c]]);
                                lemma_walk_compose(self.nodes@, 0, kanji.take(c), seq![kanji[c]]);
                                assert(seq![kanji[c]][0] == kanji[c]);
                                assert(kanji[c] == chars@[i as int]);
                                assert(walk(self.nodes@, cur as int, seq![kanji[c]]) is None);
                            }
                        }
                        lemma_stored_prefix_collapse(m, kanji, c, kanji.len() as int);
                    }
                    return (i - wstart, cur);
                },
            }
            i = i + 1;
        }
        proof {
            self.lemma_prefix_walk_stored(kanji, wend - wstart, cur as int);
            assert(kanji.take(kanji.len() as int) =~= kanji);
        }
        (wend - wstart, cur)
    }

    /// A walked prefix of length `c` is a prefix of some stored key, so the
    /// bounded stored-prefix search returns exactly `c` there.
    proof fn lemma_prefix_walk_stored(&self, kanji: Seq<char>, c: int, cur: int)
        requires
            self.wf(),
            0 <= c <= kanji.len(),
            walk(self.nodes@, 0, kanji.take(c)) == Some(cur),
        ensures
            stored_prefix_len_upto(self.model(), kanji, c) == c,
    {
        if c >= 1 {
            lemma_walk_in_range(self.nodes@, 0, kanji.take(c));
            assert(1 <= cur < self.nodes@.len());
            assert(covered(self.nodes@, cur));
            let (wkey, cc) = choose|wkey: Seq<char>, cc: int|
                0 <= cc <= wkey.len() && marked_at(self.nodes@, wkey) && walk(
                    self.nodes@,
                    0,
                    wkey.take(cc),
                ) == Some(cur);
            lemma_path_unique(self.nodes@, kanji.take(c), wkey.take(cc), cur);
            lemma_model_contains(self.nodes@, wkey);
            assert(kanji.take(c) =~= wkey.subrange(0, c));
            assert(kanji.take(c).is_prefix_of(wkey));
            assert(is_stored_prefix(self.model(), kanji.take(c)));
        }
    }
}

} // verus!
