//! Content-addressed, append-only store of syntax-tree nodes.
//!
//! Nodes are deduplicated by their key `(kind, label, children)`: inserting
//! a node whose key is already present yields the existing identifier, so
//! two structurally identical subtrees always share one node. Every stored
//! node's metrics satisfy the size and height laws: a node's size is one
//! more than the sum of its children's sizes, and its height one more than
//! their maximum height.

use vstd::prelude::*;
use crate::labels::LabelId;

verus! {

/// Identifier of a stored node.
pub type NodeId = usize;

/// Kind tag of a stored node.
#[derive(Clone, Copy, PartialEq, Eq, Structural, Debug)]
pub enum NodeKind {
    /// A directory in the role of a Maven module (or module candidate).
    MavenDirectory,
    /// A plain directory inside a source root.
    Directory,
    /// A parsed source file.
    File,
    /// The content leaf under a parsed file.
    Content,
    /// A parsed `pom.xml` file.
    Pom,
}

/// The triple of 32-bit hashes carried by every subtree: structure only,
/// labels only, and full syntax.
#[derive(Clone, Copy, PartialEq, Eq, Structural, Debug)]
pub struct SyntaxNodeHashs {
    pub structt: u32,
    pub label: u32,
    pub syntax: u32,
}

/// Cumulative metrics of a subtree.
#[derive(Clone, Copy, PartialEq, Eq, Structural, Debug)]
pub struct SubTreeMetrics {
    pub size: u32,
    pub height: u32,
    pub hashs: SyntaxNodeHashs,
}

/// Width tier of the inline reference bloom filter, selected by the number
/// of references carried by the subtree's analysis.
#[derive(Clone, Copy, PartialEq, Eq, Structural, Debug)]
pub enum BloomSize {
    /// No filter: the subtree carries no references.
    NoFilter,
    /// 16-bit filter.
    B16,
    /// 32-bit filter.
    B32,
    /// 64-bit filter.
    B64,
    /// 2 x 64-bit filter.
    B128,
    /// 4 x 64-bit filter.
    B256,
    /// 8 x 64-bit filter.
    B512,
    /// 16 x 64-bit filter.
    B1024,
    /// 32 x 64-bit filter.
    B2048,
    /// Too many references: no filter participates in lookups.
    Much,
}

/// The bloom-filter width tier selected for a directory carrying `refs`
/// unresolved references; a skipped analysis always selects `Much`.
pub open spec fn bloom_size_for(refs: int, skipped: bool) -> BloomSize {
    if skipped || refs > 2048 {
        BloomSize::Much
    } else if refs > 512 {
        BloomSize::B2048
    } else if refs > 256 {
        BloomSize::B1024
    } else if refs > 150 {
        BloomSize::B512
    } else if refs > 100 {
        BloomSize::B256
    } else if refs > 30 {
        BloomSize::B128
    } else if refs > 15 {
        BloomSize::B64
    } else if refs > 8 {
        BloomSize::B32
    } else if refs > 0 {
        BloomSize::B16
    } else {
        BloomSize::NoFilter
    }
}

/// The bloom tier a folded node receives: none for a childless node,
/// otherwise the width tier of the reference count it is indexed with.
pub open spec fn fold_bloom_for(children: int, refs: int, skipped: bool) -> BloomSize {
    if children == 0 {
        BloomSize::NoFilter
    } else {
        bloom_size_for(refs, skipped)
    }
}

impl SubTreeMetrics {
    /// The result of accumulating another subtree's metrics: sizes add,
    /// heights take the maximum, hashes add wrapping.
    pub open spec fn acc_spec(self, o: SubTreeMetrics) -> SubTreeMetrics {
        SubTreeMetrics {
            size: (self.size + o.size) as u32,
            height: if o.height > self.height {
                o.height
            } else {
                self.height
            },
            hashs: SyntaxNodeHashs {
                structt: crate::hashing::wadd32(self.hashs.structt, o.hashs.structt),
                label: crate::hashing::wadd32(self.hashs.label, o.hashs.label),
                syntax: crate::hashing::wadd32(self.hashs.syntax, o.hashs.syntax),
            },
        }
    }

    /// Zero metrics, the state of a fresh accumulator.
    pub fn zero() -> (r: SubTreeMetrics)
        ensures
            r == (SubTreeMetrics {
                size: 0u32,
                height: 0u32,
                hashs: SyntaxNodeHashs { structt: 0u32, label: 0u32, syntax: 0u32 },
            }),
    {
        SubTreeMetrics { size: 0, height: 0, hashs: SyntaxNodeHashs { structt: 0, label: 0, syntax: 0 } }
    }

    /// Accumulate another subtree's metrics.
    pub fn acc(&mut self, o: &SubTreeMetrics)
        requires
            old(self).size + o.size <= u32::MAX,
        ensures
            *final(self) == old(self).acc_spec(*o),
    {
        self.size = self.size + o.size;
        if o.height > self.height {
            self.height = o.height;
        }
        self.hashs.structt = crate::hashing::wrapping_add32(self.hashs.structt, o.hashs.structt);
        self.hashs.label = crate::hashing::wrapping_add32(self.hashs.label, o.hashs.label);
        self.hashs.syntax = crate::hashing::wrapping_add32(self.hashs.syntax, o.hashs.syntax);
    }
}

/// The hash of a node kind's tag.
pub open spec fn kind_hash(k: NodeKind) -> u32 {
    match k {
        NodeKind::MavenDirectory => 0x6d76646d,
        NodeKind::Directory => 0x64697263,
        NodeKind::File => 0x66696c65,
        NodeKind::Content => 0x636f6e74,
        NodeKind::Pom => 0x706f6d78,
    }
}

/// Executable kind hash, exact against `kind_hash`.
pub fn hash_kind(k: NodeKind) -> (r: u32)
    ensures
        r == kind_hash(k),
{
    match k {
        NodeKind::MavenDirectory => 0x6d76646d,
        NodeKind::Directory => 0x64697263,
        NodeKind::File => 0x66696c65,
        NodeKind::Content => 0x636f6e74,
        NodeKind::Pom => 0x706f6d78,
    }
}

/// A stored node. Beside its width tier the node carries the words of the
/// reference bloom filter populated at fold time.
pub struct Node {
    pub kind: NodeKind,
    pub label: LabelId,
    pub children: Vec<NodeId>,
    pub children_names: Vec<LabelId>,
    pub metrics: SubTreeMetrics,
    pub bloom: BloomSize,
    pub bloom_bits: Vec<u64>,
    pub bloom_refs: usize,
    pub skipped: bool,
}

/// Mathematical image of a stored node.
pub struct NodeView {
    pub kind: NodeKind,
    pub label: LabelId,
    pub children: Seq<NodeId>,
    pub children_names: Seq<LabelId>,
    pub metrics: SubTreeMetrics,
    pub bloom: BloomSize,
    pub bloom_bits: Seq<u64>,
    pub bloom_refs: usize,
    pub skipped: bool,
}

impl View for Node {
    type V = NodeView;

    open spec fn view(&self) -> NodeView {
        NodeView {
            kind: self.kind,
            label: self.label,
            children: self.children@,
            children_names: self.children_names@,
            metrics: self.metrics,
            bloom: self.bloom,
            bloom_bits: self.bloom_bits@,
            bloom_refs: self.bloom_refs,
            skipped: self.skipped,
        }
    }
}

/// The deduplication key of a node.
pub open spec fn node_key(n: NodeView) -> (NodeKind, LabelId, Seq<NodeId>) {
    (n.kind, n.label, n.children)
}

/// Size of a child, zero for an out-of-range identifier.
pub open spec fn child_size(nodes: Seq<NodeView>, c: NodeId) -> int {
    if c < nodes.len() {
        nodes[c as int].metrics.size as int
    } else {
        0
    }
}

/// Height of a child, zero for an out-of-range identifier.
pub open spec fn child_height(nodes: Seq<NodeView>, c: NodeId) -> int {
    if c < nodes.len() {
        nodes[c as int].metrics.height as int
    } else {
        0
    }
}

/// Sum of the sizes of a child list.
pub open spec fn sum_sizes(nodes: Seq<NodeView>, cs: Seq<NodeId>) -> int
    decreases cs.len(),
{
    if cs.len() == 0 {
        0
    } else {
        sum_sizes(nodes, cs.drop_last()) + child_size(nodes, cs.last())
    }
}

/// Maximum of the heights of a child list, zero when it is empty.
pub open spec fn max_heights(nodes: Seq<NodeView>, cs: Seq<NodeId>) -> int
    decreases cs.len(),
{
    if cs.len() == 0 {
        0
    } else {
        let rest = max_heights(nodes, cs.drop_last());
        let h = child_height(nodes, cs.last());
        if h > rest {
            h
        } else {
            rest
        }
    }
}

/// Well-formedness of one stored node with respect to the store prefix
/// before it and the number of interned labels.
pub open spec fn node_wf(nodes: Seq<NodeView>, i: int, labels_len: int) -> bool {
    let n = nodes[i];
    &&& n.label < labels_len
    &&& (n.children_names.len() == n.children.len() || n.children_names.len() == 0)
    &&& (forall|j: int, k: int|
        0 <= j < k < n.children_names.len() ==> n.children_names[j] != n.children_names[k])
    &&& (forall|j: int|
        0 <= j < n.children_names.len() ==> (#[trigger] n.children_names[j])
            == nodes[n.children[j] as int].label)
    &&& n.bloom == fold_bloom_for(n.children.len() as int, n.bloom_refs as int, n.skipped)
    &&& (forall|j: int| 0 <= j < n.children.len() ==> (#[trigger] n.children[j]) < i)
    &&& (forall|j: int|
        0 <= j < n.children_names.len() ==> (#[trigger] n.children_names[j]) < labels_len)
    &&& n.metrics.size == 1 + sum_sizes(nodes, n.children)
    &&& n.metrics.height == 1 + max_heights(nodes, n.children)
    &&& n.metrics.height <= n.metrics.size
    &&& (match n.kind {
        NodeKind::MavenDirectory => n.children_names.len() == n.children.len(),
        NodeKind::Directory => n.children_names.len() == n.children.len(),
        NodeKind::File => n.children_names.len() == 0 && n.children.len() == 1,
        NodeKind::Pom => n.children_names.len() == 0 && n.children.len() == 1,
        NodeKind::Content => n.children_names.len() == 0 && n.children.len() == 0,
    })
}

/// Well-formedness of the whole store: every node well formed, and no two
/// nodes sharing a key.
pub open spec fn store_wf(nodes: Seq<NodeView>, labels_len: int) -> bool {
    &&& (forall|i: int| 0 <= i < nodes.len() ==> node_wf(nodes, i, labels_len))
    &&& (forall|i: int, j: int|
        0 <= i < j < nodes.len() ==> node_key(#[trigger] nodes[i]) != node_key(
            #[trigger] nodes[j],
        ))
}

/// Child sums only read the store below any bound that covers the child
/// list, so extending the store does not change them.
pub proof fn lemma_sums_stable(nodes1: Seq<NodeView>, nodes2: Seq<NodeView>, cs: Seq<NodeId>)
    requires
        nodes1.len() <= nodes2.len(),
        forall|i: int| 0 <= i < nodes1.len() ==> nodes2[i] == nodes1[i],
        forall|j: int| 0 <= j < cs.len() ==> (#[trigger] cs[j]) < nodes1.len(),
    ensures
        sum_sizes(nodes2, cs) == sum_sizes(nodes1, cs),
        max_heights(nodes2, cs) == max_heights(nodes1, cs),
    decreases cs.len(),
{
    if cs.len() > 0 {
        lemma_sums_stable(nodes1, nodes2, cs.drop_last());
    }
}

/// Appending a child to a list adds its size to the sum and folds its
/// height into the maximum.
pub proof fn lemma_sums_push(nodes: Seq<NodeView>, cs: Seq<NodeId>, c: NodeId)
    ensures
        sum_sizes(nodes, cs.push(c)) == sum_sizes(nodes, cs) + child_size(nodes, c),
        max_heights(nodes, cs.push(c)) == if child_height(nodes, c) > max_heights(nodes, cs) {
            child_height(nodes, c)
        } else {
            max_heights(nodes, cs)
        },
{
    assert(cs.push(c).drop_last() =~= cs);
    assert(cs.push(c).last() == c);
}

/// Sizes in a well-formed store are at least one, so a child sum dominates
/// the maximum child height and every sum is non-negative.
pub proof fn lemma_sum_bounds(nodes: Seq<NodeView>, cs: Seq<NodeId>, labels_len: int)
    requires
        forall|i: int| 0 <= i < nodes.len() ==> node_wf(nodes, i, labels_len),
    ensures
        sum_sizes(nodes, cs) >= 0,
        max_heights(nodes, cs) >= 0,
        max_heights(nodes, cs) <= sum_sizes(nodes, cs),
    decreases cs.len(),
{
    if cs.len() > 0 {
        lemma_sum_bounds(nodes, cs.drop_last(), labels_len);
        let c = cs.last();
        if c < nodes.len() {
            assert(node_wf(nodes, c as int, labels_len));
        }
    }
}

/// Two stored nodes with the same key are the same node: the insert
/// operation below resolves any repetition of a key to one identifier.
pub proof fn lemma_key_unique(nodes: Seq<NodeView>, labels_len: int, i: int, j: int)
    requires
        store_wf(nodes, labels_len),
        0 <= i < nodes.len(),
        0 <= j < nodes.len(),
        node_key(nodes[i]) == node_key(nodes[j]),
    ensures
        i == j,
{
}

/// Every stored node's size is one more than the sum of its children's
/// sizes, and its height one more than their maximum height.
pub proof fn lemma_node_metrics(nodes: Seq<NodeView>, labels_len: int, i: int)
    requires
        store_wf(nodes, labels_len),
        0 <= i < nodes.len(),
    ensures
        nodes[i].metrics.size == 1 + sum_sizes(nodes, nodes[i].children),
        nodes[i].metrics.height == 1 + max_heights(nodes, nodes[i].children),
{
    assert(node_wf(nodes, i, labels_len));
}

/// Equality of two identifier vectors.
pub fn ids_eq(a: &Vec<usize>, b: &Vec<usize>) -> (r: bool)
    ensures
        r == (a@ == b@),
{
    if a.len() != b.len() {
        return false;
    }
    let mut i: usize = 0;
    while i < a.len()
        invariant
            i <= a@.len(),
            a@.len() == b@.len(),
            forall|j: int| 0 <= j < i ==> a@[j] == b@[j],
        decreases a@.len() - i,
    {
        if a[i] != b[i] {
            return false;
        }
        i = i + 1;
    }
    proof {
        assert(a@ =~= b@);
    }
    true
}

/// The append-only node store.
pub struct NodeStore {
    nodes: Vec<Node>,
}

impl View for NodeStore {
    type V = Seq<NodeView>;

    closed spec fn view(&self) -> Seq<NodeView> {
        self.nodes@.map_values(|n: Node| n@)
    }
}

impl NodeStore {
    /// An empty store.
    pub fn new() -> (r: NodeStore)
        ensures
            r@ == Seq::<NodeView>::empty(),
    {
        let r = NodeStore { nodes: Vec::new() };
        proof {
            assert(r@ =~= Seq::<NodeView>::empty());
        }
        r
    }

    /// Number of stored nodes.
    pub fn len(&self) -> (r: usize)
        ensures
            r == self@.len(),
    {
        self.nodes.len()
    }

    /// Look the key up before an insertion: the existing identifier when
    /// some node already carries this key, nothing otherwise.
    pub fn prepare_insertion(&self, kind: NodeKind, label: LabelId, children: &Vec<NodeId>) -> (r:
        Option<NodeId>)
        ensures
            match r {
                Some(id) => id < self@.len() && node_key(self@[id as int]) == (
                    kind,
                    label,
                    children@,
                ),
                None => forall|i: int|
                    0 <= i < self@.len() ==> node_key(#[trigger] self@[i]) != (
                        kind,
                        label,
                        children@,
                    ),
            },
    {
        let mut i: usize = 0;
        while i < self.nodes.len()
            invariant
                i <= self@.len(),
                self@.len() == self.nodes@.len(),
                forall|j: int|
                    0 <= j < i ==> node_key(#[trigger] self@[j]) != (kind, label, children@),
            decreases self@.len() - i,
        {
            let n = &self.nodes[i];
            if n.kind == kind && n.label == label && ids_eq(&n.children, children) {
                proof {
                    assert(self@[i as int] == self.nodes@[i as int]@);
                }
                return Some(i);
            }
            proof {
                assert(self@[i as int] == self.nodes@[i as int]@);
            }
            i = i + 1;
        }
        None
    }

    /// Append a node whose key is known to be absent.
    pub fn insert_after_prepare(&mut self, node: Node) -> (id: NodeId)
        requires
            forall|i: int|
                0 <= i < old(self)@.len() ==> node_key(#[trigger] old(self)@[i]) != node_key(
                    node@,
                ),
        ensures
            final(self)@ == old(self)@.push(node@),
            id == old(self)@.len(),
    {
        let id = self.nodes.len();
        self.nodes.push(node);
        proof {
            assert(self@ =~= old(self)@.push(self.nodes@.last()@));
        }
        id
    }

    /// Read a stored node.
    pub fn resolve(&self, id: NodeId) -> (r: &Node)
        requires
            id < self@.len(),
        ensures
            r@ == self@[id as int],
    {
        proof {
            assert(self@[id as int] == self.nodes@[id as int]@);
        }
        &self.nodes[id]
    }
}

/// Store well-formedness only bounds label identifiers from above, so it
/// survives growth of the label store.
pub proof fn lemma_store_wf_grow_labels(nodes: Seq<NodeView>, l1: int, l2: int)
    requires
        store_wf(nodes, l1),
        l1 <= l2,
    ensures
        store_wf(nodes, l2),
{
    assert forall|i: int| 0 <= i < nodes.len() implies node_wf(nodes, i, l2) by {
        assert(node_wf(nodes, i, l1));
    }
}

/// A store stays well formed when a well-formed node with a fresh key is
/// appended.
pub proof fn lemma_store_wf_push(nodes: Seq<NodeView>, n: NodeView, labels_len: int)
    requires
        store_wf(nodes, labels_len),
        n.label < labels_len,
        n.children_names.len() == n.children.len() || n.children_names.len() == 0,
        forall|j: int, k: int|
            0 <= j < k < n.children_names.len() ==> n.children_names[j] != n.children_names[k],
        forall|j: int|
            0 <= j < n.children_names.len() ==> (#[trigger] n.children_names[j])
                == nodes[n.children[j] as int].label,
        n.bloom == fold_bloom_for(n.children.len() as int, n.bloom_refs as int, n.skipped),
        (match n.kind {
            NodeKind::MavenDirectory => n.children_names.len() == n.children.len(),
            NodeKind::Directory => n.children_names.len() == n.children.len(),
            NodeKind::File => n.children_names.len() == 0 && n.children.len() == 1,
            NodeKind::Pom => n.children_names.len() == 0 && n.children.len() == 1,
            NodeKind::Content => n.children_names.len() == 0 && n.children.len() == 0,
        }),
        forall|j: int| 0 <= j < n.children.len() ==> (#[trigger] n.children[j]) < nodes.len(),
        forall|j: int|
            0 <= j < n.children_names.len() ==> (#[trigger] n.children_names[j]) < labels_len,
        n.metrics.size == 1 + sum_sizes(nodes, n.children),
        n.metrics.height == 1 + max_heights(nodes, n.children),
        forall|i: int| 0 <= i < nodes.len() ==> node_key(#[trigger] nodes[i]) != node_key(n),
    ensures
        store_wf(nodes.push(n), labels_len),
    decreases nodes.len(),
{
    let nodes2 = nodes.push(n);
    assert forall|i: int| 0 <= i < nodes2.len() implies node_wf(nodes2, i, labels_len) by {
        if i < nodes.len() {
            assert(node_wf(nodes, i, labels_len));
            lemma_sums_stable(nodes, nodes2, nodes[i].children);
            assert(nodes2[i] == nodes[i]);
        } else {
            assert(nodes2[i] == n);
            lemma_sums_stable(nodes, nodes2, n.children);
            lemma_sum_bounds(nodes, n.children, labels_len);
        }
    }
    assert forall|i: int, j: int| 0 <= i < j < nodes2.len() implies node_key(
        #[trigger] nodes2[i],
    ) != node_key(#[trigger] nodes2[j]) by {
        if j < nodes.len() {
            assert(node_key(nodes[i]) != node_key(nodes[j]));
        } else {
            assert(nodes2[j] == n);
            assert(node_key(nodes[i]) != node_key(n));
        }
    }
}

} // verus!
