//! The commit-tree ingestion pipeline.
//!
//! A `PreProcessedRepository` owns the node and label stores, three
//! memoization tables keyed by Git object identifier (module directories,
//! POMs, Java subtrees) and the table of processed commits. Ingesting a
//! commit walks its tree in post order, classifies directories by their
//! Maven role, folds every subtree into the node store and memoizes it, so
//! that a subtree already seen — in this commit or an earlier one — is
//! reused without being traversed again.

use vstd::prelude::*;
use vstd::string::StringSliceAdditionalSpecFns;
use crate::MAX_REFS;
use crate::PROPAGATE_ERROR_ON_BAD_CST_NODE;
use crate::accs::JavaAcc;
use crate::accs::MavenModuleAcc;
use crate::accs::drain_filter_strip;
use crate::accs::lemma_drain_clean;
use crate::accs::lemma_drain_parent_of_clean;
use crate::accs::lemma_nonempty_clean;
use crate::accs::paths_clean;
use crate::accs::pending_view;
use crate::accs::split_empty_paths;
use crate::analysis::PartialAnalysis;
use crate::analysis::ana_wf;
use crate::analysis::resolved_from;
use crate::analysis::bloom_size;
use crate::nodes::bloom_size_for;
use crate::nodes::fold_bloom_for;
use crate::analysis::sets_from;
use crate::hashing::hash32;
use crate::hashing::inner_hash;
use crate::labels::LabelId;
use crate::labels::LabelStore;
use crate::labels::bytes_eq;
use crate::maps::OidMap;
use crate::model::BlobRecord;
use crate::model::EntryKind;
use crate::model::Oid;
use crate::model::RepoModel;
use crate::model::RepoView;
use crate::model::TreeEntry;
use crate::model::TreeEntryView;
use crate::model::TreeList;
use crate::model::MAX_TREE_WEIGHT;
use crate::model::lemma_name_of_entry;
use crate::model::lemma_pom_prepared;
use crate::model::lemma_root_nameless;
use crate::model::lemma_weight_entries_nonneg;
use crate::model::lemma_weight_entries_step;
use crate::model::lemma_weight_entries_tail;
use crate::model::lemma_weight_pos;
use crate::model::name_of;
use crate::model::pom_prepared;
use crate::model::swap_idx;
use crate::model::weight;
use crate::model::weight_entries;
use crate::nodes::BloomSize;
use crate::nodes::Node;
use crate::nodes::NodeId;
use crate::nodes::NodeKind;
use crate::nodes::NodeStore;
use crate::nodes::NodeView;
use crate::nodes::SubTreeMetrics;
use crate::nodes::SyntaxNodeHashs;
use crate::nodes::hash_kind;
use crate::nodes::lemma_node_metrics;
use crate::nodes::lemma_store_wf_push;
use crate::nodes::lemma_sum_bounds;
use crate::nodes::lemma_sums_push;
use crate::nodes::lemma_sums_stable;
use crate::nodes::max_heights;
use crate::nodes::node_wf;
use crate::nodes::store_wf;
use crate::nodes::sum_sizes;
use crate::records::Commit;
use crate::records::CommitView;
use crate::records::Local;
use crate::records::LocalView;
use crate::records::MD;
use crate::records::MDView;
use crate::records::POM;
use crate::records::POMView;
use crate::records::RelPath;
use crate::records::clone_bytes;
use crate::records::paths_view;

verus! {

/// The node and label stores of one preprocessed repository.
pub struct SimpleStores {
    pub node_store: NodeStore,
    pub label_store: LabelStore,
}

impl SimpleStores {
    /// The label strings are distinct and every stored node well formed
    /// against them.
    pub open spec fn wf(&self) -> bool {
        &&& self.label_store.wf()
        &&& store_wf(self.node_store@, self.label_store@.len() as int)
    }

    /// Empty stores.
    pub fn new() -> (r: SimpleStores)
        ensures
            r.wf(),
            r.node_store@.len() == 0,
            r.label_store@.len() == 0,
    {
        SimpleStores { node_store: NodeStore::new(), label_store: LabelStore::new() }
    }
}

/// Mathematical image of the whole ingestion state.
pub struct StateView {
    pub nodes: Seq<NodeView>,
    pub labels: Seq<Seq<u8>>,
    pub object_map: Map<u64, (NodeId, MDView)>,
    pub object_map_pom: Map<u64, POMView>,
    pub object_map_java: Map<u64, (LocalView, bool)>,
    pub commits: Map<u64, CommitView>,
}

/// Append-only growth: stores extend pointwise, memo and commit tables by
/// submap.
pub open spec fn state_extends(a: StateView, b: StateView) -> bool {
    &&& a.nodes.len() <= b.nodes.len()
    &&& (forall|i: int| 0 <= i < a.nodes.len() ==> b.nodes[i] == a.nodes[i])
    &&& a.labels.len() <= b.labels.len()
    &&& (forall|i: int| 0 <= i < a.labels.len() ==> b.labels[i] == a.labels[i])
    &&& (forall|o: u64|
        #[trigger] a.object_map.contains_key(o) ==> b.object_map.contains_key(o)
            && b.object_map[o] == a.object_map[o])
    &&& (forall|o: u64|
        #[trigger] a.object_map_pom.contains_key(o) ==> b.object_map_pom.contains_key(o)
            && b.object_map_pom[o] == a.object_map_pom[o])
    &&& (forall|o: u64|
        #[trigger] a.object_map_java.contains_key(o) ==> b.object_map_java.contains_key(o)
            && b.object_map_java[o] == a.object_map_java[o])
    &&& (forall|o: u64| #[trigger] a.commits.contains_key(o) ==> b.commits.contains_key(o))
}

/// Growth composes.
pub proof fn lemma_extends_trans(a: StateView, b: StateView, c: StateView)
    requires
        state_extends(a, b),
        state_extends(b, c),
    ensures
        state_extends(a, c),
{
}

/// A memoized module directory: a valid node whose stored metrics the memo
/// repeats, bounded by the object's weight, labelled with the object's name.
pub open spec fn dir_memo_ok(s: StateView, m: RepoView, o: u64, v: (NodeId, MDView)) -> bool {
    &&& v.0 < s.nodes.len()
    &&& s.nodes[v.0 as int].kind == NodeKind::MavenDirectory
    &&& (dir_structure_ok(FoldMode::Module, s, m, o, v.0) || dir_structure_ok(
        FoldMode::FastFwd,
        s,
        m,
        o,
        v.0,
    ))
    &&& v.1.metrics == s.nodes[v.0 as int].metrics
    &&& v.1.metrics.size <= weight(m, o)
    &&& ana_wf(v.1.ana)
    &&& ana_disjoint(v.1.ana)
    &&& s.labels[s.nodes[v.0 as int].label as int] == name_of(m, o)
}

/// A memoized Java subtree, as `dir_memo_ok`.
pub open spec fn java_memo_ok(s: StateView, m: RepoView, o: u64, v: (LocalView, bool)) -> bool {
    &&& v.0.compressed_node < s.nodes.len()
    &&& (m.trees.contains_key(o) ==> s.nodes[v.0.compressed_node as int].kind
        == NodeKind::Directory && dir_structure_ok(
        FoldMode::JavaDir,
        s,
        m,
        o,
        v.0.compressed_node,
    ) && (v.0.ana is Some) && (v.0.ana.unwrap().refs.len() < MAX_REFS ==> ana_disjoint(
        v.0.ana.unwrap(),
    )))
    &&& (m.blobs.contains_key(o) ==> s.nodes[v.0.compressed_node as int].kind == NodeKind::File
        && file_node_ok(s, m, o, v.0))
    &&& v.0.metrics == s.nodes[v.0.compressed_node as int].metrics
    &&& v.0.metrics.size <= weight(m, o)
    &&& (match v.0.ana {
        Some(a) => ana_wf(a),
        None => true,
    })
    &&& s.labels[s.nodes[v.0.compressed_node as int].label as int] == name_of(m, o)
}

/// A memoized POM: a valid node whose stored metrics the memo repeats, with
/// clean declared paths.
pub open spec fn pom_memo_ok(s: StateView, m: RepoView, o: u64, v: POMView) -> bool {
    &&& v.compressed_node < s.nodes.len()
    &&& s.nodes[v.compressed_node as int].kind == NodeKind::Pom
    &&& s.labels[s.nodes[v.compressed_node as int].label as int] == name_of(m, o)
    &&& v.metrics == s.nodes[v.compressed_node as int].metrics
    &&& v.metrics.size <= weight(m, o)
    &&& ana_wf(v.ana)
    &&& paths_clean(v.sub_modules)
    &&& paths_clean(v.main_dirs)
    &&& paths_clean(v.test_dirs)
}

/// A processed commit points at a valid node and repeats its metrics.
pub open spec fn commit_ok(s: StateView, v: CommitView) -> bool {
    &&& v.ast_root < s.nodes.len()
    &&& v.meta_data.metrics == s.nodes[v.ast_root as int].metrics
    &&& ana_wf(v.meta_data.ana)
}

/// The global invariant of the ingestion state against a model.
pub open spec fn state_inv(s: StateView, m: RepoView) -> bool {
    &&& (forall|i: int, j: int| 0 <= i < j < s.labels.len() ==> s.labels[i] != s.labels[j])
    &&& store_wf(s.nodes, s.labels.len() as int)
    &&& (forall|o: u64|
        #[trigger] s.object_map.contains_key(o) ==> dir_memo_ok(s, m, o, s.object_map[o]))
    &&& (forall|o: u64|
        #[trigger] s.object_map_pom.contains_key(o) ==> pom_memo_ok(s, m, o, s.object_map_pom[o]))
    &&& (forall|o: u64|
        #[trigger] s.object_map_java.contains_key(o) ==> java_memo_ok(
            s,
            m,
            o,
            s.object_map_java[o],
        ))
    &&& (forall|o: u64| #[trigger] s.commits.contains_key(o) ==> commit_ok(s, s.commits[o]))
}

/// The incrementally preprocessed repository.
pub struct PreProcessedRepository {
    pub name: String,
    pub main_stores: SimpleStores,
    pub object_map: OidMap<(NodeId, MD)>,
    pub object_map_pom: OidMap<POM>,
    pub object_map_java: OidMap<(Local, bool)>,
    pub commits: OidMap<Commit>,
}

impl View for PreProcessedRepository {
    type V = StateView;

    open spec fn view(&self) -> StateView {
        StateView {
            nodes: self.main_stores.node_store@,
            labels: self.main_stores.label_store@,
            object_map: self.object_map@,
            object_map_pom: self.object_map_pom@,
            object_map_java: self.object_map_java@,
            commits: self.commits@,
        }
    }
}

impl PreProcessedRepository {
    /// Well-formed stores and maps, and the global invariant against `m`.
    pub open spec fn inv(&self, m: RepoView) -> bool {
        &&& self.object_map.wf()
        &&& self.object_map_pom.wf()
        &&& self.object_map_java.wf()
        &&& self.commits.wf()
        &&& state_inv(self@, m)
    }

    /// The repository's name.
    pub fn name(&self) -> (r: &str)
        ensures
            r@ == self.name@,
    {
        self.name.as_str()
    }

    /// A fresh, empty preprocessed repository.
    pub fn new(name: &str) -> (r: PreProcessedRepository)
        ensures
            r.name@ == name@,
            forall|m: RepoView| r.inv(m),
            r@.nodes.len() == 0,
            r@.labels.len() == 0,
            r@.object_map == Map::<u64, (NodeId, MDView)>::empty(),
            r@.object_map_pom == Map::<u64, POMView>::empty(),
            r@.object_map_java == Map::<u64, (LocalView, bool)>::empty(),
            r@.commits == Map::<u64, CommitView>::empty(),
    {
        PreProcessedRepository {
            name: name.to_owned(),
            main_stores: SimpleStores::new(),
            object_map: OidMap::new(),
            object_map_pom: OidMap::new(),
            object_map_java: OidMap::new(),
            commits: OidMap::new(),
        }
    }

    /// The mutable stores, for the per-language generators.
    pub fn main_stores(&mut self) -> (r: &mut SimpleStores)
        ensures
            *r == old(self).main_stores,
            final(self).main_stores == *final(r),
            final(self).object_map == old(self).object_map,
            final(self).object_map_pom == old(self).object_map_pom,
            final(self).object_map_java == old(self).object_map_java,
            final(self).commits == old(self).commits,
    {
        &mut self.main_stores
    }

    /// Intern a label given as text.
    pub fn get_or_insert_label(&mut self, s: &str) -> (r: LabelId)
        requires
            old(self).main_stores.label_store.wf(),
        ensures
            final(self).main_stores.label_store.wf(),
            final(self)@.labels == crate::labels::intern_store(old(self)@.labels, s.spec_bytes()),
            r as int == crate::labels::intern_id(old(self)@.labels, s.spec_bytes()),
            final(self)@.labels[r as int] == s.spec_bytes(),
            final(self)@.nodes == old(self)@.nodes,
            final(self)@.object_map == old(self)@.object_map,
            final(self)@.object_map_pom == old(self)@.object_map_pom,
            final(self)@.object_map_java == old(self)@.object_map_java,
            final(self)@.commits == old(self)@.commits,
    {
        self.main_stores.label_store.get_or_insert(s.as_bytes())
    }

    /// Clear transient parser metadata between ingestion campaigns. The
    /// modelled generators keep no cache of their own, so nothing is held
    /// here; node and label stores and the commit-level memos are retained
    /// either way.
    pub fn purge_caches(&mut self)
        ensures
            *final(self) == *old(self),
    {
    }

    /// Whether a file name is handled by the Java branch.
    fn is_handled(name: &[u8]) -> (r: bool)
        ensures
            r == (ends_with(name@, suffix_java()) || ends_with(name@, suffix_xml())),
    {
        let java: Vec<u8> = vec![0x2eu8, 0x6au8, 0x61u8, 0x76u8, 0x61u8];
        let xml: Vec<u8> = vec![0x2eu8, 0x78u8, 0x6du8, 0x6cu8];
        proof {
            assert(java@ =~= suffix_java());
            assert(xml@ =~= suffix_xml());
        }
        ends_with_bytes(name, java.as_slice()) || ends_with_bytes(name, xml.as_slice())
    }
}

/// Pointwise growth of the two stores.
pub open spec fn stores_extend(a: SimpleStores, b: SimpleStores) -> bool {
    &&& a.node_store@.len() <= b.node_store@.len()
    &&& (forall|i: int| 0 <= i < a.node_store@.len() ==> b.node_store@[i] == a.node_store@[i])
    &&& a.label_store@.len() <= b.label_store@.len()
    &&& (forall|i: int| 0 <= i < a.label_store@.len() ==> b.label_store@[i] == a.label_store@[i])
}

/// What folding an accumulator's parts into the store guarantees: a valid
/// node of the requested kind, carrying the requested children, labelled
/// with the directory's name, whose metrics stand one above the
/// accumulated ones. Either an existing node with this key was reused and
/// the node store is unchanged, or exactly one node was appended.
pub open spec fn inserted_dir_ok(
    pre: SimpleStores,
    post: SimpleStores,
    kind: NodeKind,
    name: Seq<u8>,
    children: Seq<NodeId>,
    acc_metrics: SubTreeMetrics,
    bloom: BloomSize,
    r: (NodeId, SubTreeMetrics),
) -> bool {
    &&& r.0 < post.node_store@.len()
    &&& post.node_store@[r.0 as int].kind == kind
    &&& post.node_store@[r.0 as int].children == children
    &&& post.label_store@[post.node_store@[r.0 as int].label as int] == name
    &&& r.1 == post.node_store@[r.0 as int].metrics
    &&& r.1.size == acc_metrics.size + 1
    &&& r.1.height == acc_metrics.height + 1
    &&& post.label_store@ == crate::labels::intern_store(pre.label_store@, name)
    &&& post.node_store@.len() <= pre.node_store@.len() + 1
    &&& (post.node_store@.len() == pre.node_store@.len() + 1 ==> r.0 == pre.node_store@.len()
        && post.node_store@[r.0 as int].bloom == bloom)
    &&& (post.node_store@.len() == pre.node_store@.len() ==> post.node_store@ == pre.node_store@)
}

/// Build the directory node for a folded accumulator and enter it into the
/// node store, reusing an existing node with the same key if one is there.
fn insert_directory(
    stores: &mut SimpleStores,
    kind: NodeKind,
    name: &[u8],
    children: Vec<NodeId>,
    children_names: Vec<LabelId>,
    acc_metrics: SubTreeMetrics,
    bloom: BloomSize,
    bloom_bits: Vec<u64>,
    bloom_refs: usize,
    skipped: bool,
) -> (r: (NodeId, SubTreeMetrics))
    requires
        old(stores).wf(),
        children_names@.len() == children@.len() || children_names@.len() == 0,
        forall|j: int, k: int|
            0 <= j < k < children_names@.len() ==> children_names@[j] != children_names@[k],
        forall|j: int|
            0 <= j < children_names@.len() ==> (#[trigger] children_names@[j]) == old(
                stores,
            ).node_store@[children@[j] as int].label,
        bloom == fold_bloom_for(children@.len() as int, bloom_refs as int, skipped),
        (match kind {
            NodeKind::MavenDirectory => children_names@.len() == children@.len(),
            NodeKind::Directory => children_names@.len() == children@.len(),
            NodeKind::File => children_names@.len() == 0 && children@.len() == 1,
            NodeKind::Pom => children_names@.len() == 0 && children@.len() == 1,
            NodeKind::Content => children_names@.len() == 0 && children@.len() == 0,
        }),
        forall|j: int|
            0 <= j < children@.len() ==> (#[trigger] children@[j]) < old(
                stores,
            ).node_store@.len(),
        forall|j: int|
            0 <= j < children_names@.len() ==> (#[trigger] children_names@[j]) < old(
                stores,
            ).label_store@.len(),
        acc_metrics.size == sum_sizes(old(stores).node_store@, children@),
        acc_metrics.height == max_heights(old(stores).node_store@, children@),
        acc_metrics.size + 1 <= u32::MAX,
    ensures
        final(stores).wf(),
        stores_extend(*old(stores), *final(stores)),
        inserted_dir_ok(*old(stores), *final(stores), kind, name@, children@, acc_metrics, bloom, r),
{
    proof {
        lemma_sum_bounds(
            old(stores).node_store@,
            children@,
            old(stores).label_store@.len() as int,
        );
    }
    let hashed_label = hash32(name);
    let label = stores.label_store.get_or_insert(name);
    proof {
        crate::nodes::lemma_store_wf_grow_labels(
            stores.node_store@,
            old(stores).label_store@.len() as int,
            stores.label_store@.len() as int,
        );
    }
    let dh = hash_kind(kind);
    let hsyntax = inner_hash(dh, 0, acc_metrics.size, acc_metrics.hashs.syntax);
    let hashs = SyntaxNodeHashs {
        structt: inner_hash(dh, 0, acc_metrics.size, acc_metrics.hashs.structt),
        label: inner_hash(dh, hashed_label, acc_metrics.size, acc_metrics.hashs.label),
        syntax: hsyntax,
    };
    let metrics = SubTreeMetrics {
        size: acc_metrics.size + 1,
        height: acc_metrics.height + 1,
        hashs,
    };
    match stores.node_store.prepare_insertion(kind, label, &children) {
        Some(id) => {
            let rm = stores.node_store.resolve(id).metrics;
            proof {
                lemma_node_metrics(
                    stores.node_store@,
                    stores.label_store@.len() as int,
                    id as int,
                );
            }
            (id, rm)
        },
        None => {
            let node = Node {
                kind,
                label,
                children,
                children_names,
                metrics,
                bloom,
                bloom_bits,
                bloom_refs,
                skipped,
            };
            proof {
                lemma_store_wf_push(
                    stores.node_store@,
                    node@,
                    stores.label_store@.len() as int,
                );
            }
            let id = stores.node_store.insert_after_prepare(node);
            (id, metrics)
        },
    }
}

/// What parsing one blob into the store guarantees: a file node over one
/// content leaf, labelled with the file's name, of size and height two,
/// whose analysis carries exactly the parser-reported atoms.
pub open spec fn parsed_file_ok(
    pre: SimpleStores,
    post: SimpleStores,
    kind: NodeKind,
    name: Seq<u8>,
    content: Seq<u8>,
    refs: Seq<u64>,
    decls: Seq<u64>,
    local: LocalView,
) -> bool {
    &&& local.compressed_node < post.node_store@.len()
    &&& post.node_store@[local.compressed_node as int].kind == kind
    &&& post.label_store@[post.node_store@[local.compressed_node as int].label as int] == name
    &&& local.metrics == post.node_store@[local.compressed_node as int].metrics
    &&& local.metrics.size == 2
    &&& local.metrics.height == 2
    &&& post.node_store@[local.compressed_node as int].children.len() == 1
    &&& post.node_store@[local.compressed_node as int].children[0] < post.node_store@.len()
    &&& post.node_store@[post.node_store@[local.compressed_node as int].children[0] as int].kind
        == NodeKind::Content
    &&& post.label_store@[post.node_store@[post.node_store@[local.compressed_node as int].children[0] as int].label as int]
        == content
    &&& (local.ana is Some)
    &&& ana_wf(local.ana.unwrap())
    &&& sets_from(local.ana.unwrap(), refs, decls)
    &&& post.node_store@.len() <= pre.node_store@.len() + 2
}

/// Parse a handled file into the store: a content leaf under a file node,
/// both hash-consed. A malformed concrete syntax tree is dropped or kept
/// best-effort according to the propagation policy.
fn handle_java_file(stores: &mut SimpleStores, name: &[u8], blob: &BlobRecord) -> (r: Result<
    Local,
    (),
>)
    requires
        old(stores).wf(),
    ensures
        final(stores).wf(),
        stores_extend(*old(stores), *final(stores)),
        (r is Err) == (blob@.bad_cst && PROPAGATE_ERROR_ON_BAD_CST_NODE),
        r is Err ==> *final(stores) == *old(stores),
        r is Ok ==> parsed_file_ok(
            *old(stores),
            *final(stores),
            NodeKind::File,
            name@,
            blob@.content,
            blob@.refs,
            blob@.decls,
            r.unwrap()@,
        ),
{
    if blob.bad_cst && PROPAGATE_ERROR_ON_BAD_CST_NODE {
        return Err(());
    }
    let local = build_file_node(stores, NodeKind::File, name, blob);
    Ok(local)
}

/// Build the two nodes of a parsed file: its content leaf and the file
/// node labelled with its name.
fn build_file_node(stores: &mut SimpleStores, kind: NodeKind, name: &[u8], blob: &BlobRecord) -> (r:
    Local)
    requires
        old(stores).wf(),
        kind == NodeKind::File || kind == NodeKind::Pom,
    ensures
        final(stores).wf(),
        stores_extend(*old(stores), *final(stores)),
        parsed_file_ok(
            *old(stores),
            *final(stores),
            kind,
            name@,
            blob@.content,
            blob@.refs,
            blob@.decls,
            r@,
        ),
{
    let zero = SubTreeMetrics::zero();
    let empty_children: Vec<NodeId> = Vec::new();
    let empty_names: Vec<LabelId> = Vec::new();
    let (content_id, content_metrics) = insert_directory(
        stores,
        NodeKind::Content,
        blob.content.as_slice(),
        empty_children,
        empty_names,
        zero,
        BloomSize::NoFilter,
        Vec::new(),
        0,
        false,
    );
    let ghost mid = *stores;
    let mut file_children: Vec<NodeId> = Vec::new();
    file_children.push(content_id);
    let file_names: Vec<LabelId> = Vec::new();
    let mut acc = SubTreeMetrics::zero();
    acc.acc(&content_metrics);
    proof {
        assert(file_children@ =~= Seq::<NodeId>::empty().push(content_id));
        assert(file_children@.len() == 1);
        assert(file_names@.len() == 0);
        lemma_sums_push(mid.node_store@, Seq::<NodeId>::empty(), content_id);
        assert(sum_sizes(mid.node_store@, file_children@) == 1);
        assert(max_heights(mid.node_store@, file_children@) == 1);
    }
    let (file_id, file_metrics) = insert_directory(
        stores,
        kind,
        name,
        file_children,
        file_names,
        acc,
        BloomSize::NoFilter,
        Vec::new(),
        0,
        false,
    );
    proof {
        let s2 = *stores;
        assert(s2.node_store@[file_id as int].children[0] == content_id);
        assert(node_wf(mid.node_store@, content_id as int, mid.label_store@.len() as int));
        assert(s2.node_store@[content_id as int] == mid.node_store@[content_id as int]);
        assert(s2.label_store@[s2.node_store@[content_id as int].label as int]
            == mid.label_store@[mid.node_store@[content_id as int].label as int]);
    }
    let ana = PartialAnalysis::from_lists(&blob.refs, &blob.decls);
    Local { compressed_node: file_id, metrics: file_metrics, ana: Some(ana) }
}

/// Parse a `pom.xml` blob: its node enters the store like any file's, and
/// the module and source-root paths it declares ride along on the record.
fn handle_pom_file(stores: &mut SimpleStores, name: &[u8], blob: &BlobRecord) -> (r: POM)
    requires
        old(stores).wf(),
        paths_clean(blob@.sub_modules),
        paths_clean(blob@.main_dirs),
        paths_clean(blob@.test_dirs),
    ensures
        final(stores).wf(),
        stores_extend(*old(stores), *final(stores)),
        r@.compressed_node < final(stores).node_store@.len(),
        final(stores).node_store@[r@.compressed_node as int].kind == NodeKind::Pom,
        final(stores).label_store@[final(stores).node_store@[r@.compressed_node as int].label
            as int] == name@,
        r@.metrics == final(stores).node_store@[r@.compressed_node as int].metrics,
        r@.metrics.size == 2,
        r@.metrics.height == 2,
        ana_wf(r@.ana),
        sets_from(r@.ana, blob@.refs, blob@.decls),
        r@.sub_modules == blob@.sub_modules,
        r@.main_dirs == blob@.main_dirs,
        r@.test_dirs == blob@.test_dirs,
        final(stores).node_store@.len() <= old(stores).node_store@.len() + 2,
{
    let local = build_file_node(stores, NodeKind::Pom, name, blob);
    let ana = match local.ana {
        Some(a) => a,
        None => PartialAnalysis::new(),
    };
    POM {
        compressed_node: local.compressed_node,
        metrics: local.metrics,
        ana,
        sub_modules: crate::records::clone_paths(&blob.sub_modules),
        main_dirs: crate::records::clone_paths(&blob.main_dirs),
        test_dirs: crate::records::clone_paths(&blob.test_dirs),
    }
}


/// The label identifiers of the accumulator's child names all resolve to
/// names of entries already processed (those before position `i`).
pub open spec fn names_match(
    labels: Seq<Seq<u8>>,
    names: Seq<LabelId>,
    prepared: Seq<TreeEntryView>,
    i: int,
) -> bool {
    forall|k: int|
        0 <= k < names.len() ==> (#[trigger] names[k]) < labels.len() && (exists|j: int|
            0 <= j < i && labels[names[k] as int] == prepared[j].name)
}

/// With distinct entry names and distinct labels, the label of the entry
/// at position `i` is fresh among the accumulated names.
pub proof fn lemma_fresh_name(
    labels: Seq<Seq<u8>>,
    names: Seq<LabelId>,
    prepared: Seq<TreeEntryView>,
    i: int,
    lbl: LabelId,
)
    requires
        forall|a: int, b: int| 0 <= a < b < labels.len() ==> labels[a] != labels[b],
        names_match(labels, names, prepared, i),
        0 <= i < prepared.len(),
        forall|a: int, b: int|
            0 <= a < b < prepared.len() ==> (#[trigger] prepared[a]).name != (
            #[trigger] prepared[b]).name,
        lbl < labels.len(),
        labels[lbl as int] == prepared[i].name,
    ensures
        !names.contains(lbl),
{
    if names.contains(lbl) {
        let k = choose|k: int| 0 <= k < names.len() && names[k] == lbl;
        let j = choose|j: int| 0 <= j < i && labels[names[k] as int] == prepared[j].name;
        assert(prepared[j].name == prepared[i].name);
        assert(false);
    }
}

/// `names_match` survives growth of the label store and of the processed
/// prefix.
pub proof fn lemma_names_match_mono(
    labels1: Seq<Seq<u8>>,
    labels2: Seq<Seq<u8>>,
    names: Seq<LabelId>,
    prepared: Seq<TreeEntryView>,
    i1: int,
    i2: int,
)
    requires
        names_match(labels1, names, prepared, i1),
        i1 <= i2,
        labels1.len() <= labels2.len(),
        forall|i: int| 0 <= i < labels1.len() ==> labels2[i] == labels1[i],
    ensures
        names_match(labels2, names, prepared, i2),
{
    assert forall|k: int| 0 <= k < names.len() implies (#[trigger] names[k]) < labels2.len() && (
    exists|j: int| 0 <= j < i2 && labels2[names[k] as int] == prepared[j].name) by {
        let j = choose|j: int| 0 <= j < i1 && labels1[names[k] as int] == prepared[j].name;
        assert(labels2[names[k] as int] == labels1[names[k] as int]);
        assert(0 <= j < i2 && labels2[names[k] as int] == prepared[j].name);
    }
}

/// Accumulating the label of the entry at position `i` extends the match
/// to position `i + 1`.
pub proof fn lemma_names_match_push(
    labels: Seq<Seq<u8>>,
    names: Seq<LabelId>,
    prepared: Seq<TreeEntryView>,
    i: int,
    lbl: LabelId,
)
    requires
        names_match(labels, names, prepared, i),
        0 <= i,
        lbl < labels.len(),
        labels[lbl as int] == prepared[i].name,
    ensures
        names_match(labels, names.push(lbl), prepared, i + 1),
{
    let t = names.push(lbl);
    assert forall|k: int| 0 <= k < t.len() implies (#[trigger] t[k]) < labels.len() && (exists|
    j: int|
        0 <= j < i + 1 && labels[t[k] as int] == prepared[j].name) by {
        if k < names.len() {
            assert(t[k] == names[k]);
            let j = choose|j: int| 0 <= j < i && labels[names[k] as int] == prepared[j].name;
            assert(0 <= j < i + 1 && labels[t[k] as int] == prepared[j].name);
        } else {
            assert(t[k] == lbl);
            assert(0 <= i < i + 1 && labels[t[k] as int] == prepared[i].name);
        }
    }
}

/// The global invariant is preserved by any step that grows the stores
/// pointwise, keeps them well formed, and adds to the memo and commit
/// tables only entries that satisfy their conditions in the new state.
pub proof fn lemma_state_inv_preserved(s1: StateView, s2: StateView, m: RepoView)
    requires
        state_inv(s1, m),
        forall|i: int, j: int| 0 <= i < j < s2.labels.len() ==> s2.labels[i] != s2.labels[j],
        store_wf(s2.nodes, s2.labels.len() as int),
        state_extends(s1, s2),
        forall|o: u64|
            #[trigger] s2.object_map.contains_key(o) ==> (s1.object_map.contains_key(o)
                && s2.object_map[o] == s1.object_map[o]) || dir_memo_ok(
                s2,
                m,
                o,
                s2.object_map[o],
            ),
        forall|o: u64|
            #[trigger] s2.object_map_pom.contains_key(o) ==> (s1.object_map_pom.contains_key(o)
                && s2.object_map_pom[o] == s1.object_map_pom[o]) || pom_memo_ok(
                s2,
                m,
                o,
                s2.object_map_pom[o],
            ),
        forall|o: u64|
            #[trigger] s2.object_map_java.contains_key(o) ==> (s1.object_map_java.contains_key(o)
                && s2.object_map_java[o] == s1.object_map_java[o]) || java_memo_ok(
                s2,
                m,
                o,
                s2.object_map_java[o],
            ),
        forall|o: u64|
            #[trigger] s2.commits.contains_key(o) ==> (s1.commits.contains_key(o) && s2.commits[o]
                == s1.commits[o]) || commit_ok(s2, s2.commits[o]),
    ensures
        state_inv(s2, m),
{
    assert forall|o: u64| #[trigger] s2.object_map.contains_key(o) implies dir_memo_ok(
        s2,
        m,
        o,
        s2.object_map[o],
    ) by {
        if s1.object_map.contains_key(o) && s2.object_map[o] == s1.object_map[o] {
            let v = s1.object_map[o];
            assert(dir_memo_ok(s1, m, o, v));
            assert(node_wf(s1.nodes, v.0 as int, s1.labels.len() as int));
            if m.trees.contains_key(o) {
                if dir_structure_ok(FoldMode::Module, s1, m, o, v.0) {
                    lemma_partial_stable(
                        FoldMode::Module,
                        s1,
                        s2,
                        m,
                        filter_entries(FoldMode::Module, m, explore_order(m.trees[o])),
                        s1.nodes[v.0 as int].children,
                        s1.nodes[v.0 as int].children_names,
                    );
                    assert(dir_structure_ok(FoldMode::Module, s2, m, o, v.0));
                } else {
                    lemma_partial_stable(
                        FoldMode::FastFwd,
                        s1,
                        s2,
                        m,
                        filter_entries(FoldMode::FastFwd, m, explore_order(m.trees[o])),
                        s1.nodes[v.0 as int].children,
                        s1.nodes[v.0 as int].children_names,
                    );
                    assert(dir_structure_ok(FoldMode::FastFwd, s2, m, o, v.0));
                }
            }
        }
    }
    assert forall|o: u64| #[trigger] s2.object_map_pom.contains_key(o) implies pom_memo_ok(
        s2,
        m,
        o,
        s2.object_map_pom[o],
    ) by {
        if s1.object_map_pom.contains_key(o) && s2.object_map_pom[o] == s1.object_map_pom[o] {
            let v = s1.object_map_pom[o];
            assert(pom_memo_ok(s1, m, o, v));
            assert(node_wf(s1.nodes, v.compressed_node as int, s1.labels.len() as int));
        }
    }
    assert forall|o: u64| #[trigger] s2.object_map_java.contains_key(o) implies java_memo_ok(
        s2,
        m,
        o,
        s2.object_map_java[o],
    ) by {
        if s1.object_map_java.contains_key(o) && s2.object_map_java[o] == s1.object_map_java[o] {
            let v = s1.object_map_java[o];
            assert(java_memo_ok(s1, m, o, v));
            assert(node_wf(s1.nodes, v.0.compressed_node as int, s1.labels.len() as int));
            if m.trees.contains_key(o) {
                lemma_partial_stable(
                    FoldMode::JavaDir,
                    s1,
                    s2,
                    m,
                    filter_entries(FoldMode::JavaDir, m, m.trees[o]),
                    s1.nodes[v.0.compressed_node as int].children,
                    s1.nodes[v.0.compressed_node as int].children_names,
                );
                assert(dir_structure_ok(FoldMode::JavaDir, s2, m, o, v.0.compressed_node));
            }
            if m.blobs.contains_key(o) {
                lemma_file_ok_stable(s1, s2, m, o, v.0);
            }
        }
    }
    assert forall|o: u64| #[trigger] s2.commits.contains_key(o) implies commit_ok(
        s2,
        s2.commits[o],
    ) by {
        if s1.commits.contains_key(o) && s2.commits[o] == s1.commits[o] {
            assert(commit_ok(s1, s1.commits[o]));
            assert(node_wf(s1.nodes, s1.commits[o].ast_root as int, s1.labels.len() as int));
        }
    }
}

/// Copy of a tree's entry list.
fn clone_entries(tl: &TreeList) -> (r: Vec<TreeEntry>)
    ensures
        r@.map_values(|e: TreeEntry| e@) == tl@,
{
    let mut r: Vec<TreeEntry> = Vec::new();
    let mut i: usize = 0;
    while i < tl.entries.len()
        invariant
            i <= tl.entries@.len(),
            r@.len() == i,
            forall|j: int| 0 <= j < i ==> r@[j]@ == tl.entries@[j]@,
        decreases tl.entries@.len() - i,
    {
        r.push(tl.entries[i].clone());
        i = i + 1;
    }
    proof {
        assert(r@.map_values(|e: TreeEntry| e@) =~= tl@);
    }
    r
}

/// What ingesting a Java source subtree guarantees: the subtree is entered
/// into the Java memo under its object identifier; when it was already
/// memoized nothing changes and the cached record is returned; the handle
/// names a valid node carrying the object's name, with metrics bounded by
/// the object's weight.
pub open spec fn java_post(
    pre: StateView,
    m: RepoView,
    oid: u64,
    post: StateView,
    local: LocalView,
    sk: bool,
) -> bool {
    &&& post.object_map_java.contains_key(oid)
    &&& post.object_map_java[oid] == (local, sk)
    &&& (pre.object_map_java.contains_key(oid) ==> post == pre && (local, sk)
        == pre.object_map_java[oid])
    &&& local.compressed_node < post.nodes.len()
    &&& post.nodes[local.compressed_node as int].kind == NodeKind::Directory
    &&& local.metrics == post.nodes[local.compressed_node as int].metrics
    &&& local.metrics.size <= weight(m, oid)
    &&& post.labels[post.nodes[local.compressed_node as int].label as int] == name_of(m, oid)
    &&& (match local.ana {
        Some(a) => ana_wf(a),
        None => true,
    })
    &&& post.commits == pre.commits
    &&& (forall|k: u64|
        #[trigger] post.object_map_java.contains_key(k) ==> pre.object_map_java.contains_key(k)
            || k <= oid)
    &&& post.object_map == pre.object_map
    &&& post.object_map_pom == pre.object_map_pom
}


impl PreProcessedRepository {
    /// Ingest the subtree of a Java source root: an explicit post-order
    /// walk that parses handled files, folds every directory into a
    /// `Directory` node, and memoizes each subtree under its object
    /// identifier in the Java memo.
    pub fn handle_java_src(&mut self, repo: &RepoModel, name: &[u8], oid: Oid) -> (r: (Local, bool))
        requires
            repo.wf(),
            old(self).inv(repo@),
            repo@.trees.contains_key(oid),
            name@ == name_of(repo@, oid),
        ensures
            final(self).inv(repo@),
            state_extends(old(self)@, final(self)@),
            java_post(old(self)@, repo@, oid, final(self)@, r.0@, r.1),
        decreases oid,
    {
        let ghost m = repo@;
        let memo_hit: Option<(Local, bool)> = match self.object_map_java.get(oid) {
            Some(v) => Some((v.0.clone(), v.1)),
            None => None,
        };
        match memo_hit {
            Some((full, sk)) => {
                proof {
                    assert(java_memo_ok(self@, m, oid, self@.object_map_java[oid]));
                }
                return (full, sk);
            },
            None => {},
        }
        let tl = repo.trees.get(oid).unwrap();
        let prepared = clone_entries(tl);
        let ghost es = tl@;
        proof {
            assert(m.trees[oid] == es);
            assert forall|a: int, b: int| 0 <= a < b < es.len() implies (#[trigger] es[a]).name
                != (#[trigger] es[b]).name by {
                assert(m.trees[oid][a].name != m.trees[oid][b].name);
            }
            lemma_weight_pos(m, oid);
        }
        let mut acc = JavaAcc::new(vstd::slice::slice_to_vec(name));
        let mut i: usize = 0;
        proof {
            assert(es.subrange(0, 0) =~= Seq::<TreeEntryView>::empty());
        }
        while i < prepared.len()
            invariant
                repo.wf(),
                m == repo@,
                m.trees.contains_key(oid),
                es == m.trees[oid],
                prepared@.map_values(|e: TreeEntry| e@) == es,
                i <= es.len(),
                self.inv(m),
                state_extends(old(self)@, self@),
                self@.commits == old(self)@.commits,
                self@.object_map == old(self)@.object_map,
                self@.object_map_pom == old(self)@.object_map_pom,
                !self@.object_map_java.contains_key(oid),
                forall|k: u64|
                    #[trigger] self@.object_map_java.contains_key(k) ==> old(
                        self,
                    )@.object_map_java.contains_key(k) || k < oid,
                acc.wf(),
                acc.name@ == name@,
                forall|k: int|
                    0 <= k < acc.children@.len() ==> (#[trigger] acc.children@[k])
                        < self@.nodes.len(),
                acc.metrics.size == sum_sizes(self@.nodes, acc.children@),
                acc.metrics.height == max_heights(self@.nodes, acc.children@),
                acc.metrics.size <= weight_entries(m, es.subrange(0, i as int), oid),
                names_match(self@.labels, acc.children_names@, es, i as int),
                forall|k: int|
                    0 <= k < acc.children_names@.len() ==> (#[trigger] acc.children_names@[k])
                        == self@.nodes[acc.children@[k] as int].label,
                partial_children_ok(
                    FoldMode::JavaDir,
                    self@,
                    m,
                    filter_entries(FoldMode::JavaDir, m, es.subrange(0, i as int)),
                    acc.children@,
                    acc.children_names@,
                ),
            decreases es.len() - i,
        {
            let ghost s_top = self@;
            proof {
                assert(prepared@[i as int]@ == es[i as int]);
                assert(m.trees[oid][i as int].oid < oid);
                lemma_name_of_entry(m, oid, i as int);
                lemma_weight_entries_step(m, es, i as int, oid);
                lemma_weight_entries_nonneg(m, es.subrange(0, i as int), oid);
                lemma_weight_pos(m, es[i as int].oid);
                assert(weight_entries(m, es.subrange(0, i + 1), oid) <= weight_entries(
                    m,
                    es,
                    oid,
                )) by {
                    lemma_weight_entries_tail(m, es, i + 1, oid);
                }
                assert(weight_entries(m, es, oid) == weight(m, oid) - 1);
                assert(weight(m, oid) <= MAX_TREE_WEIGHT);
            }
            let e = &prepared[i];
            match e.kind {
                EntryKind::Tree => {
                    let (full, sk) = self.handle_java_src(repo, e.name.as_slice(), e.oid);
                    let ghost s_mid = self@;
                    proof {
                        lemma_extends_trans(old(self)@, s_top, s_mid);
                        lemma_sums_stable(s_top.nodes, s_mid.nodes, acc.children@);
                        lemma_names_match_mono(
                            s_top.labels,
                            s_mid.labels,
                            acc.children_names@,
                            es,
                            i as int,
                            i as int,
                        );
                        lemma_partial_stable(
                            FoldMode::JavaDir,
                            s_top,
                            s_mid,
                            m,
                            filter_entries(FoldMode::JavaDir, m, es.subrange(0, i as int)),
                            acc.children@,
                            acc.children_names@,
                        );
                        assert(node_wf(
                            s_mid.nodes,
                            full.compressed_node as int,
                            s_mid.labels.len() as int,
                        ));
                    }
                    let lbl = self.main_stores.label_store.get(e.name.as_slice()).unwrap();
                    proof {
                        lemma_fresh_name(self@.labels, acc.children_names@, es, i as int, lbl);
                        assert(acc.metrics.size + full.metrics.size + 1 <= MAX_TREE_WEIGHT);
                        assert(self@.nodes[full@.compressed_node as int].label == lbl);
                    }
                    let ghost old_children = acc.children@;
                    let ghost old_names = acc.children_names@;
                    let ghost full_v = full@;
                    acc.push_dir(lbl, full, sk);
                    proof {
                        lemma_sums_push(self@.nodes, old_children, full_v.compressed_node);
                        lemma_names_match_push(
                            self@.labels,
                            old_names,
                            es,
                            i as int,
                            lbl,
                        );
                        lemma_filter_step(FoldMode::JavaDir, m, es, i as int);
                        crate::labels::lemma_label_index_unique(
                            self@.labels,
                            lbl as int,
                            es[i as int].name,
                        );
                        assert(child_entry_ok(
                            FoldMode::JavaDir,
                            self@,
                            m,
                            es[i as int],
                            full_v.compressed_node,
                        ));
                        lemma_partial_push(
                            FoldMode::JavaDir,
                            self@,
                            m,
                            filter_entries(FoldMode::JavaDir, m, es.subrange(0, i as int)),
                            old_children,
                            old_names,
                            es[i as int],
                            full_v.compressed_node,
                            lbl,
                        );
                    }
                },
                EntryKind::Blob => {
                    if !Self::is_handled(e.name.as_slice()) {
                        proof {
                            assert(!contributes(FoldMode::JavaDir, m, es[i as int]));
                            lemma_filter_step(FoldMode::JavaDir, m, es, i as int);
                        }
                    } else {
                        let memo: Option<(Local, bool)> = match self.object_map_java.get(e.oid) {
                            Some(v) => Some((v.0.clone(), v.1)),
                            None => None,
                        };
                        match memo {
                            Some((full, _sk)) => {
                                proof {
                                    assert(self@.object_map_java.contains_key(e@.oid));
                                    assert((full@, _sk) == self@.object_map_java[e@.oid]);
                                    assert(java_memo_ok(self@, m, e.oid, (full@, _sk)));
                                    assert(node_wf(
                                        self@.nodes,
                                        full@.compressed_node as int,
                                        self@.labels.len() as int,
                                    ));
                                    assert(crate::labels::has_label(self@.labels, e@.name)) by {
                                        assert(self@.labels[self@.nodes[full@.compressed_node as int].label as int]
                                            == e@.name);
                                    }
                                }
                                let lbl = self.main_stores.label_store.get_or_insert(
                                    e.name.as_slice(),
                                );
                                proof {
                                    assert(self@ == s_top);
                                    lemma_fresh_name(
                                        self@.labels,
                                        acc.children_names@,
                                        es,
                                        i as int,
                                        lbl,
                                    );
                                    assert(weight(m, e@.oid) == 2);
                                    assert(acc.metrics.size + full@.metrics.size + 1
                                        <= MAX_TREE_WEIGHT);
                                }
                                let ghost old_children = acc.children@;
                                let ghost old_names = acc.children_names@;
                                let ghost full_v = full@;
                                acc.push(lbl, full);
                                proof {
                                    lemma_sums_push(
                                        self@.nodes,
                                        old_children,
                                        full_v.compressed_node,
                                    );
                                    lemma_names_match_push(
                                        self@.labels,
                                        old_names,
                                        es,
                                        i as int,
                                        lbl,
                                    );
                                    assert(file_node_ok(self@, m, e@.oid, full_v));
                                    assert(contributes(FoldMode::JavaDir, m, es[i as int]));
                                    lemma_filter_step(FoldMode::JavaDir, m, es, i as int);
                                    crate::labels::lemma_label_index_unique(
                                        self@.labels,
                                        lbl as int,
                                        es[i as int].name,
                                    );
                                    lemma_partial_push(
                                        FoldMode::JavaDir,
                                        self@,
                                        m,
                                        filter_entries(
                                            FoldMode::JavaDir,
                                            m,
                                            es.subrange(0, i as int),
                                        ),
                                        old_children,
                                        old_names,
                                        es[i as int],
                                        full_v.compressed_node,
                                        lbl,
                                    );
                                }
                            },
                            None => {
                                let blob = repo.blobs.get(e.oid).unwrap();
                                match handle_java_file(
                                    &mut self.main_stores,
                                    e.name.as_slice(),
                                    blob,
                                ) {
                                    Ok(full) => {
                                        let ghost s_mid = self@;
                                        proof {
                                            lemma_state_inv_preserved(s_top, s_mid, m);
                                            lemma_extends_trans(old(self)@, s_top, s_mid);
                                        }
                                        self.object_map_java.insert(e.oid, (full.clone(), false));
                                        let ghost s_ins = self@;
                                        proof {
                                            assert(weight(m, e@.oid) == 2);
                                            assert(file_node_ok(s_ins, m, e@.oid, full@));
                                            assert(java_memo_ok(
                                                s_ins,
                                                m,
                                                e@.oid,
                                                (full@, false),
                                            ));
                                            assert(state_extends(s_mid, s_ins));
                                            lemma_state_inv_preserved(s_mid, s_ins, m);
                                            lemma_extends_trans(old(self)@, s_mid, s_ins);
                                            lemma_sums_stable(
                                                s_top.nodes,
                                                s_ins.nodes,
                                                acc.children@,
                                            );
                                            lemma_names_match_mono(
                                                s_top.labels,
                                                s_ins.labels,
                                                acc.children_names@,
                                                es,
                                                i as int,
                                                i as int,
                                            );
                                            lemma_partial_stable(
                                                FoldMode::JavaDir,
                                                s_top,
                                                s_ins,
                                                m,
                                                filter_entries(
                                                    FoldMode::JavaDir,
                                                    m,
                                                    es.subrange(0, i as int),
                                                ),
                                                acc.children@,
                                                acc.children_names@,
                                            );
                                            assert(node_wf(
                                                s_ins.nodes,
                                                full@.compressed_node as int,
                                                s_ins.labels.len() as int,
                                            ));
                                            lemma_fresh_name(
                                                self@.labels,
                                                acc.children_names@,
                                                es,
                                                i as int,
                                                self@.nodes[full@.compressed_node as int].label,
                                            );
                                        }
                                        let lbl = self.main_stores.label_store.get(
                                            e.name.as_slice(),
                                        ).unwrap();
                                        proof {
                                            lemma_fresh_name(
                                                self@.labels,
                                                acc.children_names@,
                                                es,
                                                i as int,
                                                lbl,
                                            );
                                            assert(acc.metrics.size + full@.metrics.size + 1
                                                <= MAX_TREE_WEIGHT);
                                        }
                                        let ghost old_children = acc.children@;
                                        let ghost old_names = acc.children_names@;
                                        let ghost full_v = full@;
                                        acc.push(lbl, full);
                                        proof {
                                            lemma_sums_push(
                                                self@.nodes,
                                                old_children,
                                                full_v.compressed_node,
                                            );
                                            lemma_names_match_push(
                                                self@.labels,
                                                old_names,
                                                es,
                                                i as int,
                                                lbl,
                                            );
                                            assert(contributes(FoldMode::JavaDir, m, es[i as int]));
                                            lemma_filter_step(FoldMode::JavaDir, m, es, i as int);
                                            crate::labels::lemma_label_index_unique(
                                                self@.labels,
                                                lbl as int,
                                                es[i as int].name,
                                            );
                                            lemma_partial_push(
                                                FoldMode::JavaDir,
                                                self@,
                                                m,
                                                filter_entries(
                                                    FoldMode::JavaDir,
                                                    m,
                                                    es.subrange(0, i as int),
                                                ),
                                                old_children,
                                                old_names,
                                                es[i as int],
                                                full_v.compressed_node,
                                                lbl,
                                            );
                                        }
                                    },
                                    Err(_) => {
                                        proof {
                                            lemma_state_inv_preserved(s_top, self@, m);
                                            assert(!contributes(FoldMode::JavaDir, m, es[i as int]));
                                            lemma_filter_step(FoldMode::JavaDir, m, es, i as int);
                                        }
                                    },
                                }
                            },
                        }
                    }
                },
            }
            i = i + 1;
            proof {
                lemma_weight_entries_nonneg(m, es.subrange(0, i as int), oid);
            }
        }
        let ghost s_loop = self@;
        let ghost accc = acc.children@;
        let ghost accn = acc.children_names@;
        let ghost pre_ana = acc.ana@;
        proof {
            assert(es.subrange(0, es.len() as int) =~= es);
            assert(acc.metrics.size <= weight(m, oid) - 1);
        }
        let c = acc.ana.refs_count();
        let ana = if c < MAX_REFS {
            acc.ana.resolve()
        } else {
            acc.ana
        };
        let sk = acc.skiped_ana;
        let bloom = fold_bloom(acc.children.len(), ana.refs_count(), sk);
        let filter = crate::bloom::BloomFilter::from_refs(bloom, ana.refs_list());
        let (node_id, metrics) = insert_directory(
            &mut self.main_stores,
            NodeKind::Directory,
            acc.name.as_slice(),
            acc.children,
            acc.children_names,
            acc.metrics,
            bloom,
            filter.bits,
            ana.refs_count(),
            sk,
        );
        let ghost s_fold = self@;
        proof {
            assert(state_extends(s_loop, s_fold));
            lemma_state_inv_preserved(s_loop, s_fold, m);
            lemma_extends_trans(old(self)@, s_loop, s_fold);
            lemma_partial_stable(
                FoldMode::JavaDir,
                s_loop,
                s_fold,
                m,
                filter_entries(FoldMode::JavaDir, m, es),
                accc,
                accn,
            );
            let n = s_fold.nodes[node_id as int];
            assert(n.children == accc);
            assert(node_wf(s_fold.nodes, node_id as int, s_fold.labels.len() as int));
            assert(n.children_names.len() == accn.len());
            assert forall|k: int| 0 <= k < accn.len() implies n.children_names[k] == accn[k] by {
                assert(n.children_names[k] == s_fold.nodes[n.children[k] as int].label);
                assert(s_fold.nodes[accc[k] as int] == s_loop.nodes[accc[k] as int]);
            }
            assert(n.children_names =~= accn);
            assert(folded_children_ok(FoldMode::JavaDir, s_fold, m, es, n));
        }
        let local = Local { compressed_node: node_id, metrics, ana: Some(ana) };
        self.object_map_java.insert(oid, (local.clone(), sk));
        proof {
            assert(state_extends(s_fold, self@));
            lemma_partial_stable(
                FoldMode::JavaDir,
                s_fold,
                self@,
                m,
                filter_entries(FoldMode::JavaDir, m, es),
                accc,
                accn,
            );
            assert(folded_children_ok(FoldMode::JavaDir, self@, m, es, self@.nodes[node_id as int]));
            assert(dir_structure_ok(FoldMode::JavaDir, self@, m, oid, node_id));
            assert(local@.ana.unwrap().refs.len() < MAX_REFS ==> ana_disjoint(
                local@.ana.unwrap(),
            )) by {
                if c < MAX_REFS {
                    assert(resolved_from(ana@, pre_ana));
                    assert forall|x: u64| ana@.refs.contains(x) implies !ana@.decls.contains(
                        x,
                    ) by {}
                } else {
                    assert(ana@ == pre_ana);
                    assert(ana@.refs.len() >= MAX_REFS);
                }
            }
            assert(java_memo_ok(self@, m, oid, (local@, sk)));
            lemma_state_inv_preserved(s_fold, self@, m);
            lemma_extends_trans(old(self)@, s_fold, self@);
        }
        (local, sk)
    }
}


/// What ingesting a Maven module candidate guarantees, mirroring
/// `java_post` over the directory memo.
pub open spec fn maven_post(
    mode: FoldMode,
    pre: StateView,
    m: RepoView,
    oid: u64,
    post: StateView,
    r: (NodeId, MDView),
) -> bool {
    &&& post.object_map.contains_key(oid)
    &&& post.object_map[oid] == r
    &&& (pre.object_map.contains_key(oid) ==> post == pre && r == pre.object_map[oid])
    &&& r.0 < post.nodes.len()
    &&& post.nodes[r.0 as int].kind == NodeKind::MavenDirectory
    &&& r.1.metrics == post.nodes[r.0 as int].metrics
    &&& r.1.metrics.size <= weight(m, oid)
    &&& post.labels[post.nodes[r.0 as int].label as int] == name_of(m, oid)
    &&& ana_wf(r.1.ana)
    &&& post.commits == pre.commits
    &&& (forall|k: u64|
        #[trigger] post.object_map.contains_key(k) ==> pre.object_map.contains_key(k) || k <= oid)
    &&& (forall|k: u64|
        #[trigger] post.object_map_pom.contains_key(k) ==> pre.object_map_pom.contains_key(k) || k
            <= oid)
    &&& (forall|k: u64|
        #[trigger] post.object_map_java.contains_key(k) ==> pre.object_map_java.contains_key(k)
            || k <= oid)
    &&& (!pre.object_map.contains_key(oid) ==> dir_structure_ok(mode, post, m, oid, r.0))
}

/// The exploration order of a tree's entries: if some blob is named
/// `pom.xml`, the first such blob is moved to the front (the entry that was
/// there takes its place) so that the POM's declarations are read before
/// the directories they classify.
fn prepare_pom_first(tl: &TreeList) -> (r: (Vec<TreeEntry>, Ghost<int>))
    ensures
        r.0@.map_values(|e: TreeEntry| e@) == explore_order(tl@),
        tl@.len() == 0 ==> r.0@.len() == 0,
        tl@.len() > 0 ==> 0 <= r.1@ < tl@.len() && r.0@.map_values(|e: TreeEntry| e@)
            == pom_prepared(tl@, r.1@),
{
    let ghost es = tl@;
    let mut p: usize = 0;
    let mut found = false;
    let mut i: usize = 0;
    while i < tl.entries.len()
        invariant
            es == tl@,
            es.len() == tl.entries@.len(),
            i <= tl.entries@.len(),
            found ==> p < i && is_pom_entry(es[p as int]) && (forall|j: int|
                0 <= j < p ==> !is_pom_entry(#[trigger] es[j])),
            !found ==> p == 0 && (forall|j: int| 0 <= j < i ==> !is_pom_entry(#[trigger] es[j])),
        decreases tl.entries@.len() - i,
    {
        if !found {
            let e = &tl.entries[i];
            proof {
                assert(e@ == es[i as int]);
            }
            if e.kind == EntryKind::Blob && is_pom_name(e.name.as_slice()) {
                p = i;
                found = true;
            }
        }
        i = i + 1;
    }
    proof {
        lemma_first_pom_index(es);
        if found {
            assert(has_pom(es));
            assert(first_pom_index(es) == p as int);
        } else {
            assert(!has_pom(es));
        }
    }
    let mut out = clone_entries(tl);
    proof {
        assert(out@.map_values(|e: TreeEntry| e@).len() == tl@.len());
        assert(out@.len() == tl@.len());
        assert(tl@.len() == tl.entries@.len());
    }
    if found && p > 0 {
        let a = out[0].clone();
        let b = out[p].clone();
        out.set(0, b);
        out.set(p, a);
        proof {
            assert(out@.map_values(|e: TreeEntry| e@) =~= pom_prepared(es, p as int));
            assert(explore_order(es) == pom_prepared(es, p as int));
        }
        (out, Ghost(p as int))
    } else {
        proof {
            if es.len() > 0 {
                assert(es.update(0, es[0]) =~= es);
                assert(out@.map_values(|e: TreeEntry| e@) =~= pom_prepared(es, 0));
            }
            if found {
                assert(explore_order(es) == pom_prepared(es, 0));
            } else {
                assert(explore_order(es) == es);
                assert(out@.map_values(|e: TreeEntry| e@) =~= es);
            }
        }
        (out, Ghost(0))
    }
}


impl PreProcessedRepository {
    /// Ingest a directory in the role of a Maven module candidate: read its
    /// POM first when there is one, consume the pending module and
    /// source-root paths as they match child directories, route matched
    /// source roots through the Java branch, recurse into the rest, and
    /// fold the result into a `MavenDirectory` node memoized under the
    /// tree's object identifier.
    #[verifier::rlimit(100)]
    pub fn handle_maven_module(
        &mut self,
        repo: &RepoModel,
        name: &[u8],
        oid: Oid,
        seeds: Option<(Vec<RelPath>, Vec<RelPath>, Vec<RelPath>)>,
    ) -> (r: (NodeId, MD))
        requires
            repo.wf(),
            old(self).inv(repo@),
            repo@.trees.contains_key(oid),
            name@ == name_of(repo@, oid),
            match seeds {
                Some(s) => paths_clean(paths_view(s.0@)) && paths_clean(paths_view(s.1@))
                    && paths_clean(paths_view(s.2@)),
                None => true,
            },
        ensures
            final(self).inv(repo@),
            state_extends(old(self)@, final(self)@),
            maven_post(FoldMode::Module, old(self)@, repo@, oid, final(self)@, (r.0, r.1@)),
        decreases oid,
    {
        let ghost m = repo@;
        let memo_hit: Option<(NodeId, MD)> = match self.object_map.get(oid) {
            Some(v) => Some((v.0, v.1.clone())),
            None => None,
        };
        match memo_hit {
            Some((nid, md)) => {
                proof {
                    assert(self@.object_map.contains_key(oid));
                    assert((nid, md@) == self@.object_map[oid]);
                    assert(dir_memo_ok(self@, m, oid, (nid, md@)));
                }
                return (nid, md);
            },
            None => {},
        }
        let tl = repo.trees.get(oid).unwrap();
        let (prepared, pidx) = prepare_pom_first(tl);
        let ghost es = tl@;
        let ghost pv = prepared@.map_values(|e: TreeEntry| e@);
        proof {
            assert(m.trees[oid] == es);
            assert(pv == explore_order(es));
            if es.len() > 0 {
                lemma_pom_prepared(m, es, pidx@, oid);
            }
            assert(pv.len() == es.len());
            assert forall|i: int| 0 <= i < pv.len() implies pv[i] == es[swap_idx(i, pidx@)] by {}
            assert forall|a: int, b: int| 0 <= a < b < pv.len() implies (#[trigger] pv[a]).name
                != (#[trigger] pv[b]).name by {
                let sa = swap_idx(a, pidx@);
                let sb = swap_idx(b, pidx@);
                assert(sa != sb);
                assert(m.trees[oid][sa].oid < oid);
                if sa < sb {
                    assert(m.trees[oid][sa].name != m.trees[oid][sb].name);
                } else {
                    assert(m.trees[oid][sb].name != m.trees[oid][sa].name);
                }
            }
            assert(weight_entries(m, pv, oid) == weight_entries(m, es, oid));
            lemma_weight_pos(m, oid);
        }
        let mut acc = match seeds {
            Some((s0, s1, s2)) => MavenModuleAcc::with_content(
                vstd::slice::slice_to_vec(name),
                s0,
                s1,
                s2,
            ),
            None => MavenModuleAcc::new(vstd::slice::slice_to_vec(name)),
        };
        let mut i: usize = 0;
        proof {
            assert(pv.subrange(0, 0) =~= Seq::<TreeEntryView>::empty());
        }
        while i < prepared.len()
            invariant
                repo.wf(),
                m == repo@,
                m.trees.contains_key(oid),
                es == m.trees[oid],
                prepared@.map_values(|e: TreeEntry| e@) == pv,
                pv.len() == es.len(),
                forall|a: int| 0 <= a < pv.len() ==> (#[trigger] pv[a]).oid < oid,
                forall|a: int|
                    0 <= a < pv.len() ==> ((#[trigger] pv[a]).kind == EntryKind::Tree
                        ==> m.trees.contains_key(pv[a].oid)) && (pv[a].kind == EntryKind::Blob
                        ==> m.blobs.contains_key(pv[a].oid)),
                forall|a: int| 0 <= a < pv.len() ==> name_of(m, (#[trigger] pv[a]).oid) == pv[a].name,
                forall|a: int, b: int|
                    0 <= a < b < pv.len() ==> (#[trigger] pv[a]).name != (#[trigger] pv[b]).name,
                weight_entries(m, pv, oid) == weight_entries(m, es, oid),
                i <= pv.len(),
                self.inv(m),
                state_extends(old(self)@, self@),
                self@.commits == old(self)@.commits,
                !self@.object_map.contains_key(oid),
                forall|k: u64|
                    #[trigger] self@.object_map.contains_key(k) ==> old(
                        self,
                    )@.object_map.contains_key(k) || k < oid,
                forall|k: u64|
                    #[trigger] self@.object_map_pom.contains_key(k) ==> old(
                        self,
                    )@.object_map_pom.contains_key(k) || k < oid,
                forall|k: u64|
                    #[trigger] self@.object_map_java.contains_key(k) ==> old(
                        self,
                    )@.object_map_java.contains_key(k) || k < oid,
                acc.wf(),
                acc.name@ == name@,
                forall|k: int|
                    0 <= k < acc.children@.len() ==> (#[trigger] acc.children@[k])
                        < self@.nodes.len(),
                acc.metrics.size == sum_sizes(self@.nodes, acc.children@),
                acc.metrics.height == max_heights(self@.nodes, acc.children@),
                acc.metrics.size <= weight_entries(m, pv.subrange(0, i as int), oid),
                names_match(self@.labels, acc.children_names@, pv, i as int),
                forall|k: int|
                    0 <= k < acc.children_names@.len() ==> (#[trigger] acc.children_names@[k])
                        == self@.nodes[acc.children@[k] as int].label,
                partial_children_ok(
                    FoldMode::Module,
                    self@,
                    m,
                    filter_entries(FoldMode::Module, m, pv.subrange(0, i as int)),
                    acc.children@,
                    acc.children_names@,
                ),
            decreases pv.len() - i,
        {
            let ghost s_top = self@;
            proof {
                assert(prepared@[i as int]@ == pv[i as int]);
                lemma_weight_entries_step(m, pv, i as int, oid);
                lemma_weight_entries_nonneg(m, pv.subrange(0, i as int), oid);
                lemma_weight_pos(m, pv[i as int].oid);
                assert(weight_entries(m, pv.subrange(0, i + 1), oid) <= weight_entries(
                    m,
                    pv,
                    oid,
                )) by {
                    lemma_weight_entries_tail(m, pv, i + 1, oid);
                }
                assert(weight_entries(m, es, oid) == weight(m, oid) - 1);
                assert(weight(m, oid) <= MAX_TREE_WEIGHT);
            }
            let e = &prepared[i];
            match e.kind {
                EntryKind::Tree => {
                    let memo: Option<(NodeId, MD)> = match self.object_map.get(e.oid) {
                        Some(v) => Some((v.0, v.1.clone())),
                        None => None,
                    };
                    match memo {
                        Some((nid, md)) => {
                            proof {
                                assert(self@.object_map.contains_key(e@.oid));
                                assert((nid, md@) == self@.object_map[e@.oid]);
                                assert(dir_memo_ok(self@, m, e@.oid, (nid, md@)));
                                assert(node_wf(
                                    self@.nodes,
                                    nid as int,
                                    self@.labels.len() as int,
                                ));
                                assert(crate::labels::has_label(self@.labels, e@.name)) by {
                                    assert(self@.labels[self@.nodes[nid as int].label as int]
                                        == e@.name);
                                }
                            }
                            let lbl = self.main_stores.label_store.get_or_insert(
                                e.name.as_slice(),
                            );
                            proof {
                                assert(self@ == s_top);
                                lemma_fresh_name(
                                    self@.labels,
                                    acc.children_names@,
                                    pv,
                                    i as int,
                                    lbl,
                                );
                                assert(acc.metrics.size + md@.metrics.size + 1 <= MAX_TREE_WEIGHT);
                            }
                            let ghost old_children = acc.children@;
                            let ghost old_names = acc.children_names@;
                            let ghost md_v = md@;
                            acc.push_submodule(lbl, (nid, md));
                            proof {
                                lemma_sums_push(self@.nodes, old_children, nid);
                                lemma_names_match_push(
                                    self@.labels,
                                    old_names,
                                    pv,
                                    i as int,
                                    lbl,
                                );
                                lemma_filter_step(FoldMode::Module, m, pv, i as int);
                                crate::labels::lemma_label_index_unique(
                                    self@.labels,
                                    lbl as int,
                                    pv[i as int].name,
                                );
                                lemma_partial_push(
                                    FoldMode::Module,
                                    self@,
                                    m,
                                    filter_entries(FoldMode::Module, m, pv.subrange(0, i as int)),
                                    old_children,
                                    old_names,
                                    pv[i as int],
                                    nid,
                                    lbl,
                                );
                            }
                        },
                        None => {
                            let ghost p_subs = pending_view(acc.sub_modules);
                            let ghost p_mains = pending_view(acc.main_dirs);
                            let ghost p_tests = pending_view(acc.test_dirs);
                            let new_subs = drain_filter_strip(
                                &mut acc.sub_modules,
                                e.name.as_slice(),
                            );
                            let new_mains = drain_filter_strip(
                                &mut acc.main_dirs,
                                e.name.as_slice(),
                            );
                            let new_tests = drain_filter_strip(
                                &mut acc.test_dirs,
                                e.name.as_slice(),
                            );
                            proof {
                                lemma_drain_clean(p_subs, e@.name);
                                lemma_drain_clean(p_mains, e@.name);
                                lemma_drain_clean(p_tests, e@.name);
                                lemma_nonempty_clean(paths_view(new_subs@));
                                lemma_nonempty_clean(paths_view(new_mains@));
                                lemma_nonempty_clean(paths_view(new_tests@));
                            }
                            let (subs_ne, _is_mod) = split_empty_paths(new_subs);
                            let (mains_ne, is_src) = split_empty_paths(new_mains);
                            let (tests_ne, is_tst) = split_empty_paths(new_tests);
                            if is_src || is_tst {
                                let full = self.handle_java_src(repo, e.name.as_slice(), e.oid);
                                let ghost s_mid = self@;
                                proof {
                                    lemma_extends_trans(old(self)@, s_top, s_mid);
                                    lemma_sums_stable(s_top.nodes, s_mid.nodes, acc.children@);
                                    lemma_names_match_mono(
                                        s_top.labels,
                                        s_mid.labels,
                                        acc.children_names@,
                                        pv,
                                        i as int,
                                        i as int,
                                    );
                                    lemma_partial_stable(
                                        FoldMode::Module,
                                        s_top,
                                        s_mid,
                                        m,
                                        filter_entries(
                                            FoldMode::Module,
                                            m,
                                            pv.subrange(0, i as int),
                                        ),
                                        acc.children@,
                                        acc.children_names@,
                                    );
                                    assert(node_wf(
                                        s_mid.nodes,
                                        full.0@.compressed_node as int,
                                        s_mid.labels.len() as int,
                                    ));
                                    assert(crate::labels::has_label(self@.labels, e@.name)) by {
                                        assert(self@.labels[self@.nodes[full.0@.compressed_node as int].label as int]
                                            == e@.name);
                                    }
                                }
                                let lbl = self.main_stores.label_store.get_or_insert(
                                    e.name.as_slice(),
                                );
                                proof {
                                    lemma_fresh_name(
                                        self@.labels,
                                        acc.children_names@,
                                        pv,
                                        i as int,
                                        lbl,
                                    );
                                    assert(acc.metrics.size + full.0.metrics.size + 1
                                        <= MAX_TREE_WEIGHT);
                                }
                                let ghost old_children = acc.children@;
                                let ghost old_names = acc.children_names@;
                                let ghost full_v = full.0@;
                                if is_src {
                                    acc.push_source_directory(lbl, full.0);
                                } else {
                                    acc.push_test_source_directory(lbl, full.0);
                                }
                                proof {
                                    lemma_sums_push(
                                        self@.nodes,
                                        old_children,
                                        full_v.compressed_node,
                                    );
                                    lemma_names_match_push(
                                        self@.labels,
                                        old_names,
                                        pv,
                                        i as int,
                                        lbl,
                                    );
                                    lemma_filter_step(FoldMode::Module, m, pv, i as int);
                                    crate::labels::lemma_label_index_unique(
                                        self@.labels,
                                        lbl as int,
                                        pv[i as int].name,
                                    );
                                    lemma_partial_push(
                                        FoldMode::Module,
                                        self@,
                                        m,
                                        filter_entries(
                                            FoldMode::Module,
                                            m,
                                            pv.subrange(0, i as int),
                                        ),
                                        old_children,
                                        old_names,
                                        pv[i as int],
                                        full_v.compressed_node,
                                        lbl,
                                    );
                                }
                            } else {
                                let sub = self.handle_maven_module(
                                    repo,
                                    e.name.as_slice(),
                                    e.oid,
                                    Some((subs_ne, mains_ne, tests_ne)),
                                );
                                let ghost s_mid = self@;
                                proof {
                                    lemma_extends_trans(old(self)@, s_top, s_mid);
                                    lemma_sums_stable(s_top.nodes, s_mid.nodes, acc.children@);
                                    lemma_names_match_mono(
                                        s_top.labels,
                                        s_mid.labels,
                                        acc.children_names@,
                                        pv,
                                        i as int,
                                        i as int,
                                    );
                                    lemma_partial_stable(
                                        FoldMode::Module,
                                        s_top,
                                        s_mid,
                                        m,
                                        filter_entries(
                                            FoldMode::Module,
                                            m,
                                            pv.subrange(0, i as int),
                                        ),
                                        acc.children@,
                                        acc.children_names@,
                                    );
                                    assert(node_wf(
                                        s_mid.nodes,
                                        sub.0 as int,
                                        s_mid.labels.len() as int,
                                    ));
                                    assert(crate::labels::has_label(self@.labels, e@.name)) by {
                                        assert(self@.labels[self@.nodes[sub.0 as int].label as int]
                                            == e@.name);
                                    }
                                }
                                let lbl = self.main_stores.label_store.get_or_insert(
                                    e.name.as_slice(),
                                );
                                proof {
                                    lemma_fresh_name(
                                        self@.labels,
                                        acc.children_names@,
                                        pv,
                                        i as int,
                                        lbl,
                                    );
                                    assert(acc.metrics.size + sub.1.metrics.size + 1
                                        <= MAX_TREE_WEIGHT);
                                }
                                let ghost old_children = acc.children@;
                                let ghost old_names = acc.children_names@;
                                let sub_id = sub.0;
                                acc.push_submodule(lbl, sub);
                                proof {
                                    lemma_sums_push(self@.nodes, old_children, sub_id);
                                    lemma_names_match_push(
                                        self@.labels,
                                        old_names,
                                        pv,
                                        i as int,
                                        lbl,
                                    );
                                    lemma_filter_step(FoldMode::Module, m, pv, i as int);
                                    crate::labels::lemma_label_index_unique(
                                        self@.labels,
                                        lbl as int,
                                        pv[i as int].name,
                                    );
                                    lemma_partial_push(
                                        FoldMode::Module,
                                        self@,
                                        m,
                                        filter_entries(
                                            FoldMode::Module,
                                            m,
                                            pv.subrange(0, i as int),
                                        ),
                                        old_children,
                                        old_names,
                                        pv[i as int],
                                        sub_id,
                                        lbl,
                                    );
                                }
                            }
                        },
                    }
                },
                EntryKind::Blob => {
                    if is_pom_name(e.name.as_slice()) {
                        let memo: Option<POM> = match self.object_map_pom.get(e.oid) {
                            Some(p) => Some(p.clone()),
                            None => None,
                        };
                        match memo {
                            Some(pom) => {
                                proof {
                                    assert(self@.object_map_pom.contains_key(e@.oid));
                                    assert(pom@ == self@.object_map_pom[e@.oid]);
                                    assert(pom_memo_ok(self@, m, e@.oid, pom@));
                                    assert(node_wf(
                                        self@.nodes,
                                        pom@.compressed_node as int,
                                        self@.labels.len() as int,
                                    ));
                                }
                                let lbl = self.main_stores.label_store.get_or_insert(
                                    e.name.as_slice(),
                                );
                                let ghost s_lbl = self@;
                                proof {
                                    crate::nodes::lemma_store_wf_grow_labels(
                                        s_lbl.nodes,
                                        s_top.labels.len() as int,
                                        s_lbl.labels.len() as int,
                                    );
                                    assert(state_extends(s_top, s_lbl));
                                    lemma_state_inv_preserved(s_top, s_lbl, m);
                                    lemma_extends_trans(old(self)@, s_top, s_lbl);
                                    lemma_names_match_mono(
                                        s_top.labels,
                                        s_lbl.labels,
                                        acc.children_names@,
                                        pv,
                                        i as int,
                                        i as int,
                                    );
                                    lemma_partial_stable(
                                        FoldMode::Module,
                                        s_top,
                                        s_lbl,
                                        m,
                                        filter_entries(
                                            FoldMode::Module,
                                            m,
                                            pv.subrange(0, i as int),
                                        ),
                                        acc.children@,
                                        acc.children_names@,
                                    );
                                    lemma_fresh_name(
                                        self@.labels,
                                        acc.children_names@,
                                        pv,
                                        i as int,
                                        lbl,
                                    );
                                    assert(weight(m, e@.oid) == 2);
                                    assert(acc.metrics.size + pom@.metrics.size + 1
                                        <= MAX_TREE_WEIGHT);
                                    assert(self@.nodes[pom@.compressed_node as int].label == lbl);
                                }
                                let ghost old_children = acc.children@;
                                let ghost old_names = acc.children_names@;
                                let ghost pom_v = pom@;
                                acc.push_pom(lbl, pom);
                                proof {
                                    lemma_sums_push(
                                        self@.nodes,
                                        old_children,
                                        pom_v.compressed_node,
                                    );
                                    lemma_names_match_push(
                                        self@.labels,
                                        old_names,
                                        pv,
                                        i as int,
                                        lbl,
                                    );
                                    assert(contributes(FoldMode::Module, m, pv[i as int]));
                                    lemma_filter_step(FoldMode::Module, m, pv, i as int);
                                    crate::labels::lemma_label_index_unique(
                                        self@.labels,
                                        lbl as int,
                                        pv[i as int].name,
                                    );
                                    lemma_partial_push(
                                        FoldMode::Module,
                                        self@,
                                        m,
                                        filter_entries(
                                            FoldMode::Module,
                                            m,
                                            pv.subrange(0, i as int),
                                        ),
                                        old_children,
                                        old_names,
                                        pv[i as int],
                                        pom_v.compressed_node,
                                        lbl,
                                    );
                                }
                            },
                            None => {
                                let blob = repo.blobs.get(e.oid).unwrap();
                                let pom = handle_pom_file(
                                    &mut self.main_stores,
                                    e.name.as_slice(),
                                    blob,
                                );
                                let ghost s_mid = self@;
                                proof {
                                    lemma_state_inv_preserved(s_top, s_mid, m);
                                    lemma_extends_trans(old(self)@, s_top, s_mid);
                                }
                                self.object_map_pom.insert(e.oid, pom.clone());
                                let ghost s_ins = self@;
                                proof {
                                    assert(weight(m, e@.oid) == 2);
                                    assert(pom_memo_ok(s_ins, m, e@.oid, pom@));
                                    assert(state_extends(s_mid, s_ins));
                                    lemma_state_inv_preserved(s_mid, s_ins, m);
                                    lemma_extends_trans(old(self)@, s_mid, s_ins);
                                    lemma_sums_stable(s_top.nodes, s_ins.nodes, acc.children@);
                                    lemma_names_match_mono(
                                        s_top.labels,
                                        s_ins.labels,
                                        acc.children_names@,
                                        pv,
                                        i as int,
                                        i as int,
                                    );
                                    lemma_partial_stable(
                                        FoldMode::Module,
                                        s_top,
                                        s_ins,
                                        m,
                                        filter_entries(
                                            FoldMode::Module,
                                            m,
                                            pv.subrange(0, i as int),
                                        ),
                                        acc.children@,
                                        acc.children_names@,
                                    );
                                    assert(node_wf(
                                        s_ins.nodes,
                                        pom@.compressed_node as int,
                                        s_ins.labels.len() as int,
                                    ));
                                    assert(crate::labels::has_label(self@.labels, e@.name)) by {
                                        assert(self@.labels[self@.nodes[pom@.compressed_node as int].label as int]
                                            == e@.name);
                                    }
                                }
                                let lbl = self.main_stores.label_store.get_or_insert(
                                    e.name.as_slice(),
                                );
                                proof {
                                    lemma_fresh_name(
                                        self@.labels,
                                        acc.children_names@,
                                        pv,
                                        i as int,
                                        lbl,
                                    );
                                    assert(acc.metrics.size + pom@.metrics.size + 1
                                        <= MAX_TREE_WEIGHT);
                                }
                                let ghost old_children = acc.children@;
                                let ghost old_names = acc.children_names@;
                                let ghost pom_v = pom@;
                                acc.push_pom(lbl, pom);
                                proof {
                                    lemma_sums_push(
                                        self@.nodes,
                                        old_children,
                                        pom_v.compressed_node,
                                    );
                                    lemma_names_match_push(
                                        self@.labels,
                                        old_names,
                                        pv,
                                        i as int,
                                        lbl,
                                    );
                                    assert(contributes(FoldMode::Module, m, pv[i as int]));
                                    lemma_filter_step(FoldMode::Module, m, pv, i as int);
                                    crate::labels::lemma_label_index_unique(
                                        self@.labels,
                                        lbl as int,
                                        pv[i as int].name,
                                    );
                                    lemma_partial_push(
                                        FoldMode::Module,
                                        self@,
                                        m,
                                        filter_entries(
                                            FoldMode::Module,
                                            m,
                                            pv.subrange(0, i as int),
                                        ),
                                        old_children,
                                        old_names,
                                        pv[i as int],
                                        pom_v.compressed_node,
                                        lbl,
                                    );
                                }
                            },
                        }
                    } else {
                        proof {
                            assert(!contributes(FoldMode::Module, m, pv[i as int]));
                            lemma_filter_step(FoldMode::Module, m, pv, i as int);
                        }
                    }
                },
            }
            proof {
                assert forall|k: u64| #[trigger] self@.object_map.contains_key(k) implies old(
                    self,
                )@.object_map.contains_key(k) || k < oid by {
                    if s_top.object_map.contains_key(k) {
                    }
                }
                assert forall|k: u64| #[trigger] self@.object_map_pom.contains_key(k) implies old(
                    self,
                )@.object_map_pom.contains_key(k) || k < oid by {
                    if s_top.object_map_pom.contains_key(k) {
                    }
                }
                assert forall|k: u64| #[trigger] self@.object_map_java.contains_key(k) implies old(
                    self,
                )@.object_map_java.contains_key(k) || k < oid by {
                    if s_top.object_map_java.contains_key(k) {
                    }
                }
            }
            i = i + 1;
            proof {
                lemma_weight_entries_nonneg(m, pv.subrange(0, i as int), oid);
            }
        }
        let ghost s_loop = self@;
        let ghost accc = acc.children@;
        let ghost accn = acc.children_names@;
        proof {
            assert(pv.subrange(0, pv.len() as int) =~= pv);
            assert(acc.metrics.size <= weight(m, oid) - 1);
        }
        let dd: Vec<u8> = vec![0x2eu8, 0x2eu8];
        proof {
            assert(dd@ =~= seq![0x2eu8, 0x2eu8]);
            lemma_drain_parent_of_clean(pending_view(acc.sub_modules));
            lemma_drain_parent_of_clean(pending_view(acc.main_dirs));
            lemma_drain_parent_of_clean(pending_view(acc.test_dirs));
        }
        let left_subs = drain_filter_strip(&mut acc.sub_modules, dd.as_slice());
        let left_mains = drain_filter_strip(&mut acc.main_dirs, dd.as_slice());
        let left_tests = drain_filter_strip(&mut acc.test_dirs, dd.as_slice());
        proof {
            assert(left_subs@.len() == 0);
            assert(left_mains@.len() == 0);
            assert(left_tests@.len() == 0);
        }
        let ana = acc.ana.resolve();
        let bloom = if acc.children.len() == 0 {
            BloomSize::NoFilter
        } else {
            BloomSize::Much
        };
        let (node_id, metrics) = insert_directory(
            &mut self.main_stores,
            NodeKind::MavenDirectory,
            acc.name.as_slice(),
            acc.children,
            acc.children_names,
            acc.metrics,
            bloom,
            Vec::new(),
            ana.refs_count(),
            true,
        );
        let ghost s_fold = self@;
        proof {
            assert(state_extends(s_loop, s_fold));
            lemma_state_inv_preserved(s_loop, s_fold, m);
            lemma_extends_trans(old(self)@, s_loop, s_fold);
            lemma_partial_stable(
                FoldMode::Module,
                s_loop,
                s_fold,
                m,
                filter_entries(FoldMode::Module, m, pv),
                accc,
                accn,
            );
            let n = s_fold.nodes[node_id as int];
            assert(n.children == accc);
            assert(node_wf(s_fold.nodes, node_id as int, s_fold.labels.len() as int));
            assert(n.children_names.len() == accn.len());
            assert forall|k: int| 0 <= k < accn.len() implies n.children_names[k] == accn[k] by {
                assert(n.children_names[k] == s_fold.nodes[n.children[k] as int].label);
                assert(s_fold.nodes[accc[k] as int] == s_loop.nodes[accc[k] as int]);
            }
            assert(n.children_names =~= accn);
            assert(folded_children_ok(FoldMode::Module, s_fold, m, pv, n));
        }
        let md = MD { metrics, ana };
        self.object_map.insert(oid, (node_id, md.clone()));
        proof {
            assert(state_extends(s_fold, self@));
            lemma_partial_stable(
                FoldMode::Module,
                s_fold,
                self@,
                m,
                filter_entries(FoldMode::Module, m, pv),
                accc,
                accn,
            );
            assert(folded_children_ok(
                FoldMode::Module,
                self@,
                m,
                explore_order(m.trees[oid]),
                self@.nodes[node_id as int],
            ));
            assert(dir_structure_ok(FoldMode::Module, self@, m, oid, node_id));
            assert(ana_disjoint(md@.ana)) by {
                assert forall|x: u64| md@.ana.refs.contains(x) implies !md@.ana.decls.contains(
                    x,
                ) by {}
            }
            assert(dir_memo_ok(self@, m, oid, (node_id, md@)));
            lemma_state_inv_preserved(s_fold, self@, m);
            lemma_extends_trans(old(self)@, s_fold, self@);
            assert forall|k: u64| #[trigger] self@.object_map_pom.contains_key(k) implies old(
                self,
            )@.object_map_pom.contains_key(k) || k <= oid by {
                if s_loop.object_map_pom.contains_key(k) {
                }
            }
            assert forall|k: u64| #[trigger] self@.object_map_java.contains_key(k) implies old(
                self,
            )@.object_map_java.contains_key(k) || k <= oid by {
                if s_loop.object_map_java.contains_key(k) {
                }
            }
        }
        (node_id, md)
    }
}


impl PreProcessedRepository {
    /// Ingest a subtree with the fast-forward strategy: the entries are
    /// explored in the common POM-first order, every nested directory
    /// under the target is treated as a Java source directory, with no
    /// POM classification, and blobs at this level are ignored. The
    /// result is folded and memoized like a Maven module.
    #[verifier::rlimit(100)]
    pub fn fast_fwd(&mut self, repo: &RepoModel, name: &[u8], oid: Oid) -> (r: (NodeId, MD))
        requires
            repo.wf(),
            old(self).inv(repo@),
            repo@.trees.contains_key(oid),
            name@ == name_of(repo@, oid),
        ensures
            final(self).inv(repo@),
            state_extends(old(self)@, final(self)@),
            maven_post(FoldMode::FastFwd, old(self)@, repo@, oid, final(self)@, (r.0, r.1@)),
        decreases oid,
    {
        let ghost m = repo@;
        let memo_hit: Option<(NodeId, MD)> = match self.object_map.get(oid) {
            Some(v) => Some((v.0, v.1.clone())),
            None => None,
        };
        match memo_hit {
            Some((nid, md)) => {
                proof {
                    assert(self@.object_map.contains_key(oid));
                    assert((nid, md@) == self@.object_map[oid]);
                    assert(dir_memo_ok(self@, m, oid, (nid, md@)));
                }
                return (nid, md);
            },
            None => {},
        }
        let tl = repo.trees.get(oid).unwrap();
        let (prepared, pidx) = prepare_pom_first(tl);
        let ghost es = tl@;
        let ghost pv = prepared@.map_values(|e: TreeEntry| e@);
        proof {
            assert(m.trees[oid] == es);
            assert(pv == explore_order(es));
            if es.len() > 0 {
                lemma_pom_prepared(m, es, pidx@, oid);
            }
            assert(pv.len() == es.len());
            assert forall|a: int, b: int| 0 <= a < b < pv.len() implies (#[trigger] pv[a]).name
                != (#[trigger] pv[b]).name by {
                let sa = swap_idx(a, pidx@);
                let sb = swap_idx(b, pidx@);
                assert(sa != sb);
                if sa < sb {
                    assert(m.trees[oid][sa].name != m.trees[oid][sb].name);
                } else {
                    assert(m.trees[oid][sb].name != m.trees[oid][sa].name);
                }
            }
            assert(weight_entries(m, pv, oid) == weight_entries(m, es, oid));
            lemma_weight_pos(m, oid);
        }
        let mut acc = MavenModuleAcc::new(vstd::slice::slice_to_vec(name));
        let mut i: usize = 0;
        proof {
            assert(pv.subrange(0, 0) =~= Seq::<TreeEntryView>::empty());
        }
        while i < prepared.len()
            invariant
                repo.wf(),
                m == repo@,
                m.trees.contains_key(oid),
                es == m.trees[oid],
                prepared@.map_values(|e: TreeEntry| e@) == pv,
                pv.len() == es.len(),
                forall|a: int| 0 <= a < pv.len() ==> (#[trigger] pv[a]).oid < oid,
                forall|a: int|
                    0 <= a < pv.len() ==> ((#[trigger] pv[a]).kind == EntryKind::Tree
                        ==> m.trees.contains_key(pv[a].oid)) && (pv[a].kind == EntryKind::Blob
                        ==> m.blobs.contains_key(pv[a].oid)),
                forall|a: int| 0 <= a < pv.len() ==> name_of(m, (#[trigger] pv[a]).oid) == pv[a].name,
                forall|a: int, b: int|
                    0 <= a < b < pv.len() ==> (#[trigger] pv[a]).name != (#[trigger] pv[b]).name,
                weight_entries(m, pv, oid) == weight_entries(m, es, oid),
                i <= pv.len(),
                self.inv(m),
                state_extends(old(self)@, self@),
                self@.commits == old(self)@.commits,
                self@.object_map_pom == old(self)@.object_map_pom,
                !self@.object_map.contains_key(oid),
                forall|k: u64|
                    #[trigger] self@.object_map.contains_key(k) ==> old(
                        self,
                    )@.object_map.contains_key(k) || k < oid,
                forall|k: u64|
                    #[trigger] self@.object_map_java.contains_key(k) ==> old(
                        self,
                    )@.object_map_java.contains_key(k) || k < oid,
                acc.wf(),
                acc.name@ == name@,
                (acc.sub_modules is None),
                (acc.main_dirs is None),
                (acc.test_dirs is None),
                forall|k: int|
                    0 <= k < acc.children@.len() ==> (#[trigger] acc.children@[k])
                        < self@.nodes.len(),
                acc.metrics.size == sum_sizes(self@.nodes, acc.children@),
                acc.metrics.height == max_heights(self@.nodes, acc.children@),
                acc.metrics.size <= weight_entries(m, pv.subrange(0, i as int), oid),
                names_match(self@.labels, acc.children_names@, pv, i as int),
                forall|k: int|
                    0 <= k < acc.children_names@.len() ==> (#[trigger] acc.children_names@[k])
                        == self@.nodes[acc.children@[k] as int].label,
                partial_children_ok(
                    FoldMode::FastFwd,
                    self@,
                    m,
                    filter_entries(FoldMode::FastFwd, m, pv.subrange(0, i as int)),
                    acc.children@,
                    acc.children_names@,
                ),
            decreases pv.len() - i,
        {
            let ghost s_top = self@;
            proof {
                assert(prepared@[i as int]@ == pv[i as int]);
                lemma_weight_entries_step(m, pv, i as int, oid);
                lemma_weight_entries_nonneg(m, pv.subrange(0, i as int), oid);
                lemma_weight_pos(m, pv[i as int].oid);
                assert(weight_entries(m, pv.subrange(0, i + 1), oid) <= weight_entries(
                    m,
                    pv,
                    oid,
                )) by {
                    lemma_weight_entries_tail(m, pv, i + 1, oid);
                }
                assert(weight_entries(m, es, oid) == weight(m, oid) - 1);
                assert(weight(m, oid) <= MAX_TREE_WEIGHT);
            }
            let e = &prepared[i];
            match e.kind {
                EntryKind::Tree => {
                    let full = self.handle_java_src(repo, e.name.as_slice(), e.oid);
                    let ghost s_mid = self@;
                    proof {
                        lemma_extends_trans(old(self)@, s_top, s_mid);
                        lemma_sums_stable(s_top.nodes, s_mid.nodes, acc.children@);
                        lemma_names_match_mono(
                            s_top.labels,
                            s_mid.labels,
                            acc.children_names@,
                            pv,
                            i as int,
                            i as int,
                        );
                        lemma_partial_stable(
                            FoldMode::FastFwd,
                            s_top,
                            s_mid,
                            m,
                            filter_entries(FoldMode::FastFwd, m, pv.subrange(0, i as int)),
                            acc.children@,
                            acc.children_names@,
                        );
                        assert(node_wf(
                            s_mid.nodes,
                            full.0@.compressed_node as int,
                            s_mid.labels.len() as int,
                        ));
                        assert(crate::labels::has_label(self@.labels, e@.name)) by {
                            assert(self@.labels[self@.nodes[full.0@.compressed_node as int].label as int]
                                == e@.name);
                        }
                    }
                    let lbl = self.main_stores.label_store.get_or_insert(e.name.as_slice());
                    proof {
                        lemma_fresh_name(self@.labels, acc.children_names@, pv, i as int, lbl);
                        assert(acc.metrics.size + full.0.metrics.size + 1 <= MAX_TREE_WEIGHT);
                        assert(self@.nodes[full.0@.compressed_node as int].label == lbl);
                    }
                    let ghost old_children = acc.children@;
                    let ghost old_names = acc.children_names@;
                    let ghost full_v = full.0@;
                    acc.push_source_directory(lbl, full.0);
                    proof {
                        lemma_sums_push(self@.nodes, old_children, full_v.compressed_node);
                        lemma_names_match_push(self@.labels, old_names, pv, i as int, lbl);
                        lemma_filter_step(FoldMode::FastFwd, m, pv, i as int);
                        crate::labels::lemma_label_index_unique(
                            self@.labels,
                            lbl as int,
                            pv[i as int].name,
                        );
                        lemma_partial_push(
                            FoldMode::FastFwd,
                            self@,
                            m,
                            filter_entries(FoldMode::FastFwd, m, pv.subrange(0, i as int)),
                            old_children,
                            old_names,
                            pv[i as int],
                            full_v.compressed_node,
                            lbl,
                        );
                    }
                },
                EntryKind::Blob => {
                    proof {
                        assert(!contributes(FoldMode::FastFwd, m, pv[i as int]));
                        lemma_filter_step(FoldMode::FastFwd, m, pv, i as int);
                    }
                },
            }
            proof {
                assert forall|k: u64| #[trigger] self@.object_map.contains_key(k) implies old(
                    self,
                )@.object_map.contains_key(k) || k < oid by {
                    if s_top.object_map.contains_key(k) {
                    }
                }
                assert forall|k: u64| #[trigger] self@.object_map_java.contains_key(k) implies old(
                    self,
                )@.object_map_java.contains_key(k) || k < oid by {
                    if s_top.object_map_java.contains_key(k) {
                    }
                }
            }
            i = i + 1;
            proof {
                lemma_weight_entries_nonneg(m, pv.subrange(0, i as int), oid);
            }
        }
        let ghost s_loop = self@;
        let ghost accc = acc.children@;
        let ghost accn = acc.children_names@;
        proof {
            assert(pv.subrange(0, pv.len() as int) =~= pv);
            assert(acc.metrics.size <= weight(m, oid) - 1);
        }
        let dd: Vec<u8> = vec![0x2eu8, 0x2eu8];
        proof {
            assert(dd@ =~= seq![0x2eu8, 0x2eu8]);
            lemma_drain_parent_of_clean(pending_view(acc.sub_modules));
            lemma_drain_parent_of_clean(pending_view(acc.main_dirs));
            lemma_drain_parent_of_clean(pending_view(acc.test_dirs));
        }
        let left_subs = drain_filter_strip(&mut acc.sub_modules, dd.as_slice());
        let left_mains = drain_filter_strip(&mut acc.main_dirs, dd.as_slice());
        let left_tests = drain_filter_strip(&mut acc.test_dirs, dd.as_slice());
        proof {
            assert(left_subs@.len() == 0);
            assert(left_mains@.len() == 0);
            assert(left_tests@.len() == 0);
        }
        let ana = acc.ana.resolve();
        let bloom = if acc.children.len() == 0 {
            BloomSize::NoFilter
        } else {
            BloomSize::Much
        };
        let (node_id, metrics) = insert_directory(
            &mut self.main_stores,
            NodeKind::MavenDirectory,
            acc.name.as_slice(),
            acc.children,
            acc.children_names,
            acc.metrics,
            bloom,
            Vec::new(),
            ana.refs_count(),
            true,
        );
        let ghost s_fold = self@;
        proof {
            assert(state_extends(s_loop, s_fold));
            lemma_state_inv_preserved(s_loop, s_fold, m);
            lemma_extends_trans(old(self)@, s_loop, s_fold);
            lemma_partial_stable(
                FoldMode::FastFwd,
                s_loop,
                s_fold,
                m,
                filter_entries(FoldMode::FastFwd, m, pv),
                accc,
                accn,
            );
            let n = s_fold.nodes[node_id as int];
            assert(n.children == accc);
            assert(node_wf(s_fold.nodes, node_id as int, s_fold.labels.len() as int));
            assert(n.children_names.len() == accn.len());
            assert forall|k: int| 0 <= k < accn.len() implies n.children_names[k] == accn[k] by {
                assert(n.children_names[k] == s_fold.nodes[n.children[k] as int].label);
                assert(s_fold.nodes[accc[k] as int] == s_loop.nodes[accc[k] as int]);
            }
            assert(n.children_names =~= accn);
            assert(folded_children_ok(FoldMode::FastFwd, s_fold, m, pv, n));
        }
        let md = MD { metrics, ana };
        self.object_map.insert(oid, (node_id, md.clone()));
        proof {
            assert(state_extends(s_fold, self@));
            lemma_partial_stable(
                FoldMode::FastFwd,
                s_fold,
                self@,
                m,
                filter_entries(FoldMode::FastFwd, m, pv),
                accc,
                accn,
            );
            assert(folded_children_ok(
                FoldMode::FastFwd,
                self@,
                m,
                explore_order(m.trees[oid]),
                self@.nodes[node_id as int],
            ));
            assert(dir_structure_ok(FoldMode::FastFwd, self@, m, oid, node_id));
            assert(ana_disjoint(md@.ana)) by {
                assert forall|x: u64| md@.ana.refs.contains(x) implies !md@.ana.decls.contains(
                    x,
                ) by {}
            }
            assert(dir_memo_ok(self@, m, oid, (node_id, md@)));
            lemma_state_inv_preserved(s_fold, self@, m);
            lemma_extends_trans(old(self)@, s_fold, self@);
            assert forall|k: u64| #[trigger] self@.object_map.contains_key(k) implies old(
                self,
            )@.object_map.contains_key(k) || k <= oid by {
                if s_loop.object_map.contains_key(k) {
                }
            }
            assert forall|k: u64| #[trigger] self@.object_map_java.contains_key(k) implies old(
                self,
            )@.object_map_java.contains_key(k) || k <= oid by {
                if s_loop.object_map_java.contains_key(k) {
                }
            }
        }
        (node_id, md)
    }
}

/// The leading slash-free component of a byte path.
pub open spec fn first_comp(b: Seq<u8>) -> Seq<u8>
    decreases b.len(),
{
    if b.len() == 0 || b.first() == 47u8 {
        Seq::empty()
    } else {
        seq![b.first()] + first_comp(b.drop_first())
    }
}

/// The components of a byte path: the maximal non-empty slash-free chunks,
/// in order.
pub open spec fn split_path_spec(b: Seq<u8>) -> Seq<Seq<u8>>
    decreases b.len(),
    via split_path_spec_dec
{
    if b.len() == 0 {
        Seq::empty()
    } else if b.first() == 47u8 {
        split_path_spec(b.drop_first())
    } else {
        seq![first_comp(b)] + split_path_spec(b.skip(first_comp(b).len() as int))
    }
}

#[via_fn]
proof fn split_path_spec_dec(b: Seq<u8>) {
    if b.len() > 0 && b.first() != 47u8 {
        lemma_first_comp_len(b);
    }
}

/// The first component is non-empty on a path that does not start with a
/// slash, and never longer than the path.
pub proof fn lemma_first_comp_len(b: Seq<u8>)
    ensures
        first_comp(b).len() <= b.len(),
        b.len() > 0 && b.first() != 47u8 ==> first_comp(b).len() >= 1,
    decreases b.len(),
{
    if b.len() > 0 && b.first() != 47u8 {
        lemma_first_comp_len(b.drop_first());
    }
}

/// On a slash-free run `[pos, q)` of `b` that a slash or the end closes,
/// the first component of the suffix at `pos` is exactly that run.
pub proof fn lemma_first_comp_run(b: Seq<u8>, pos: int, q: int)
    requires
        0 <= pos <= q <= b.len(),
        forall|j: int| pos <= j < q ==> b[j] != 47u8,
        q == b.len() || b[q] == 47u8,
    ensures
        first_comp(b.skip(pos)) == b.subrange(pos, q),
    decreases q - pos,
{
    let s = b.skip(pos);
    if pos == q {
        if s.len() > 0 {
            assert(s.first() == b[q]);
        }
        assert(first_comp(s) =~= b.subrange(pos, q));
    } else {
        assert(s.len() > 0);
        assert(s.first() == b[pos]);
        lemma_first_comp_run(b, pos + 1, q);
        assert(s.drop_first() =~= b.skip(pos + 1));
        assert(first_comp(s) =~= seq![b[pos]] + b.subrange(pos + 1, q));
        assert(first_comp(s) =~= b.subrange(pos, q));
    }
}

/// Split a path on slashes into its non-empty components.
pub fn split_path(s: &str) -> (r: Vec<Vec<u8>>)
    ensures
        r@.map_values(|c: Vec<u8>| c@) == split_path_spec(s.spec_bytes()),
{
    let b = s.as_bytes();
    let mut comps: Vec<Vec<u8>> = Vec::new();
    let mut pos: usize = 0;
    proof {
        assert(comps@.map_values(|c: Vec<u8>| c@) =~= Seq::<Seq<u8>>::empty());
        assert(b@.skip(0) =~= b@);
    }
    while pos < b.len()
        invariant
            pos <= b@.len(),
            split_path_spec(b@) == comps@.map_values(|c: Vec<u8>| c@) + split_path_spec(
                b@.skip(pos as int),
            ),
        decreases b@.len() - pos,
    {
        if b[pos] == 47u8 {
            proof {
                assert(b@.skip(pos as int).first() == b@[pos as int]);
                assert(b@.skip(pos as int).drop_first() =~= b@.skip(pos + 1));
            }
            pos = pos + 1;
        } else {
            let start = pos;
            let mut q: usize = pos;
            while q < b.len() && b[q] != 47u8
                invariant
                    start <= q <= b@.len(),
                    forall|j: int| start <= j < q ==> b@[j] != 47u8,
                decreases b@.len() - q,
            {
                q = q + 1;
            }
            let mut comp: Vec<u8> = Vec::new();
            let mut k: usize = start;
            while k < q
                invariant
                    start <= k <= q <= b@.len(),
                    comp@ == b@.subrange(start as int, k as int),
                decreases q - k,
            {
                comp.push(b[k]);
                proof {
                    assert(b@.subrange(start as int, k + 1) =~= b@.subrange(
                        start as int,
                        k as int,
                    ).push(b@[k as int]));
                }
                k = k + 1;
            }
            proof {
                lemma_first_comp_run(b@, start as int, q as int);
                assert(first_comp(b@.skip(start as int)) == comp@);
                assert(b@.skip(start as int).skip(comp@.len() as int) =~= b@.skip(q as int));
                assert(split_path_spec(b@.skip(start as int)) == seq![comp@] + split_path_spec(
                    b@.skip(q as int),
                ));
            }
            let ghost old_comps = comps@;
            comps.push(comp);
            proof {
                assert(comps@.map_values(|c: Vec<u8>| c@) =~= old_comps.map_values(
                    |c: Vec<u8>| c@,
                ) + seq![first_comp(b@.skip(start as int))]);
                assert(split_path_spec(b@) =~= comps@.map_values(|c: Vec<u8>| c@)
                    + split_path_spec(b@.skip(q as int)));
            }
            pos = q;
        }
    }
    proof {
        assert(b@.skip(pos as int) =~= Seq::<u8>::empty());
        assert(split_path_spec(b@) =~= comps@.map_values(|c: Vec<u8>| c@));
    }
    comps
}

/// The target of descending the component path from `oid`: at each step
/// the unique tree entry carrying the next component's name, if it exists.
pub open spec fn descend_spec(m: RepoView, oid: Oid, comps: Seq<Seq<u8>>) -> Option<Oid>
    decreases comps.len(),
{
    if comps.len() == 0 {
        Some(oid)
    } else if !m.trees.contains_key(oid) {
        None
    } else if exists|i: int|
        0 <= i < m.trees[oid].len() && (#[trigger] m.trees[oid][i]).kind == EntryKind::Tree
            && m.trees[oid][i].name == comps.first() {
        let i = choose|i: int|
            0 <= i < m.trees[oid].len() && (#[trigger] m.trees[oid][i]).kind == EntryKind::Tree
                && m.trees[oid][i].name == comps.first();
        descend_spec(m, m.trees[oid][i].oid, comps.drop_first())
    } else {
        None
    }
}

/// The unique tree entry of `t` named `name`, if any.
fn find_tree_child(repo: &RepoModel, t: Oid, name: &[u8]) -> (r: Option<(Oid, usize)>)
    requires
        repo.wf(),
        repo@.trees.contains_key(t),
    ensures
        match r {
            Some(c) => c.1 < repo@.trees[t].len() && repo@.trees[t][c.1 as int].kind
                == EntryKind::Tree && repo@.trees[t][c.1 as int].name == name@
                && repo@.trees[t][c.1 as int].oid == c.0,
            None => forall|i: int|
                0 <= i < repo@.trees[t].len() ==> !((#[trigger] repo@.trees[t][i]).kind
                    == EntryKind::Tree && repo@.trees[t][i].name == name@),
        },
{
    let tl = repo.trees.get(t).unwrap();
    let mut i: usize = 0;
    while i < tl.entries.len()
        invariant
            i <= tl.entries@.len(),
            tl@ == repo@.trees[t],
            tl@.len() == tl.entries@.len(),
            forall|j: int|
                0 <= j < i ==> !((#[trigger] tl@[j]).kind == EntryKind::Tree && tl@[j].name
                    == name@),
        decreases tl.entries@.len() - i,
    {
        let e = &tl.entries[i];
        proof {
            assert(e@ == tl@[i as int]);
        }
        if e.kind == EntryKind::Tree && bytes_eq(e.name.as_slice(), name) {
            return Some((e.oid, i));
        }
        i = i + 1;
    }
    None
}

/// Walk the module path from `oid`, entering only the child matching each
/// component; the result is the target subtree and the name it carries.
fn descend(repo: &RepoModel, oid: Oid, comps: &Vec<Vec<u8>>) -> (r: Option<(Oid, Vec<u8>)>)
    requires
        repo.wf(),
        repo@.trees.contains_key(oid),
    ensures
        ({
            let cv = comps@.map_values(|c: Vec<u8>| c@);
            match r {
                Some(t) => descend_spec(repo@, oid, cv) == Some(t.0) && repo@.trees.contains_key(
                    t.0,
                ) && (cv.len() == 0 ==> t.0 == oid && t.1@.len() == 0) && (cv.len() > 0 ==> t.1@
                    == name_of(repo@, t.0)),
                None => (descend_spec(repo@, oid, cv) is None),
            }
        }),
{
    let ghost m = repo@;
    let ghost cv = comps@.map_values(|c: Vec<u8>| c@);
    let mut cur: Oid = oid;
    let mut cur_name: Vec<u8> = Vec::new();
    let mut ci: usize = 0;
    proof {
        assert(cv.skip(0) =~= cv);
    }
    while ci < comps.len()
        invariant
            repo.wf(),
            m == repo@,
            cv == comps@.map_values(|c: Vec<u8>| c@),
            ci <= cv.len(),
            m.trees.contains_key(cur),
            descend_spec(m, oid, cv) == descend_spec(m, cur, cv.skip(ci as int)),
            ci == 0 ==> cur == oid && cur_name@.len() == 0,
            ci > 0 ==> cur_name@ == name_of(m, cur),
        decreases cv.len() - ci,
    {
        proof {
            assert(cv[ci as int] == comps@[ci as int]@);
            assert(cv.skip(ci as int).first() == cv[ci as int]);
            assert(cv.skip(ci as int).drop_first() =~= cv.skip(ci + 1));
        }
        match find_tree_child(repo, cur, comps[ci].as_slice()) {
            Some((child, idx)) => {
                proof {
                    assert(exists|i: int|
                        0 <= i < m.trees[cur].len() && (#[trigger] m.trees[cur][i]).kind
                            == EntryKind::Tree && m.trees[cur][i].name == cv.skip(
                            ci as int,
                        ).first());
                    let w = choose|i: int|
                        0 <= i < m.trees[cur].len() && (#[trigger] m.trees[cur][i]).kind
                            == EntryKind::Tree && m.trees[cur][i].name == cv.skip(
                            ci as int,
                        ).first();
                    if w != idx as int {
                        if w < idx as int {
                            assert(m.trees[cur][w].name != m.trees[cur][idx as int].name);
                        } else {
                            assert(m.trees[cur][idx as int].name != m.trees[cur][w].name);
                        }
                        assert(false);
                    }
                    lemma_name_of_entry(m, cur, idx as int);
                }
                cur_name = clone_bytes(&comps[ci]);
                cur = child;
                ci = ci + 1;
            },
            None => {
                proof {
                    assert(!(exists|i: int|
                        0 <= i < m.trees[cur].len() && (#[trigger] m.trees[cur][i]).kind
                            == EntryKind::Tree && m.trees[cur][i].name == cv.skip(
                            ci as int,
                        ).first()));
                }
                return None;
            },
        }
    }
    proof {
        assert(cv.skip(cv.len() as int) =~= Seq::<Seq<u8>>::empty());
    }
    Some((cur, cur_name))
}


/// The subtree that a commit's module path designates.
pub open spec fn commit_target(m: RepoView, commit_oid: u64, comps: Seq<Seq<u8>>) -> Option<Oid> {
    descend_spec(m, m.commits[commit_oid].tree, comps)
}

/// What processing one commit guarantees: its designated subtree was
/// ingested (`maven_post`), the commit record carries that subtree's node
/// and metadata as its tree root, and the commit's parents.
pub open spec fn commit_post(
    mode: FoldMode,
    pre: StateView,
    m: RepoView,
    commit_oid: u64,
    comps: Seq<Seq<u8>>,
    post: StateView,
    c: CommitView,
) -> bool {
    &&& maven_post(
        mode,
        pre,
        m,
        commit_target(m, commit_oid, comps).unwrap(),
        post,
        (c.ast_root, c.meta_data),
    )
    &&& c.parents == m.commits[commit_oid].parents
}

/// What a stored commit record binds, whatever the processing history:
/// its parents are the model's, and its tree root and metadata are exactly
/// the memo entry of the subtree its module path designates, whose shape
/// `state_inv` pins in turn.
pub open spec fn commit_stored_ok(
    m: RepoView,
    commit_oid: u64,
    comps: Seq<Seq<u8>>,
    s: StateView,
    c: CommitView,
) -> bool {
    let target = commit_target(m, commit_oid, comps).unwrap();
    &&& c.parents == m.commits[commit_oid].parents
    &&& s.object_map.contains_key(target)
    &&& s.object_map[target] == (c.ast_root, c.meta_data)
}

impl PreProcessedRepository {
    /// Process one commit in Maven mode: descend the module path from the
    /// commit's root tree, then ingest the target as a Maven module.
    pub fn handle_maven_commit(&mut self, repo: &RepoModel, dir_path: &str, commit_oid: Oid) -> (c:
        Commit)
        requires
            repo.wf(),
            old(self).inv(repo@),
            repo@.commits.contains_key(commit_oid),
            (commit_target(repo@, commit_oid, split_path_spec(dir_path.spec_bytes())) is Some),
        ensures
            final(self).inv(repo@),
            state_extends(old(self)@, final(self)@),
            commit_post(
                FoldMode::Module,
                old(self)@,
                repo@,
                commit_oid,
                split_path_spec(dir_path.spec_bytes()),
                final(self)@,
                c@,
            ),
    {
        let ghost m = repo@;
        let commit = repo.commits.get(commit_oid).unwrap();
        proof {
            assert(commit@ == m.commits[commit_oid]);
            assert(m.trees.contains_key(m.commits[commit_oid].tree));
        }
        let comps = split_path(dir_path);
        let target = descend(repo, commit.tree, &comps).unwrap();
        proof {
            if comps@.map_values(|c: Vec<u8>| c@).len() == 0 {
                lemma_root_nameless(m, commit_oid);
            }
            assert(target.1@ == name_of(m, target.0));
        }
        let r = self.handle_maven_module(repo, target.1.as_slice(), target.0, None);
        let parents = crate::analysis::clone_u64s(&commit.parents);
        Commit { meta_data: r.1, parents, ast_root: r.0 }
    }

    /// Process one commit in Java mode: descend the module path, then
    /// ingest the target with the fast-forward strategy.
    pub fn handle_java_commit(&mut self, repo: &RepoModel, dir_path: &str, commit_oid: Oid) -> (c:
        Commit)
        requires
            repo.wf(),
            old(self).inv(repo@),
            repo@.commits.contains_key(commit_oid),
            (commit_target(repo@, commit_oid, split_path_spec(dir_path.spec_bytes())) is Some),
        ensures
            final(self).inv(repo@),
            state_extends(old(self)@, final(self)@),
            commit_post(
                FoldMode::FastFwd,
                old(self)@,
                repo@,
                commit_oid,
                split_path_spec(dir_path.spec_bytes()),
                final(self)@,
                c@,
            ),
    {
        let ghost m = repo@;
        let commit = repo.commits.get(commit_oid).unwrap();
        proof {
            assert(commit@ == m.commits[commit_oid]);
            assert(m.trees.contains_key(m.commits[commit_oid].tree));
        }
        let comps = split_path(dir_path);
        let target = descend(repo, commit.tree, &comps).unwrap();
        proof {
            if comps@.map_values(|c: Vec<u8>| c@).len() == 0 {
                lemma_root_nameless(m, commit_oid);
            }
            assert(target.1@ == name_of(m, target.0));
        }
        let r = self.fast_fwd(repo, target.1.as_slice(), target.0);
        let parents = crate::analysis::clone_u64s(&commit.parents);
        Commit { meta_data: r.1, parents, ast_root: r.0 }
    }

    /// Preprocess a sequence of commits in Maven mode, in the order given
    /// by the caller's revision walk, recording each result in the commit
    /// table.
    pub fn pre_process(&mut self, repo: &RepoModel, commit_oids: &Vec<Oid>, dir_path: &str)
        requires
            repo.wf(),
            old(self).inv(repo@),
            forall|i: int|
                0 <= i < commit_oids@.len() ==> repo@.commits.contains_key(
                    #[trigger] commit_oids@[i],
                ) && (commit_target(
                    repo@,
                    commit_oids@[i],
                    split_path_spec(dir_path.spec_bytes()),
                ) is Some),
        ensures
            final(self).inv(repo@),
            state_extends(old(self)@, final(self)@),
            forall|i: int|
                0 <= i < commit_oids@.len() ==> final(self)@.commits.contains_key(
                    #[trigger] commit_oids@[i],
                ) && commit_stored_ok(
                    repo@,
                    commit_oids@[i],
                    split_path_spec(dir_path.spec_bytes()),
                    final(self)@,
                    final(self)@.commits[commit_oids@[i]],
                ),
    {
        let ghost m = repo@;
        let ghost comps = split_path_spec(dir_path.spec_bytes());
        let mut i: usize = 0;
        while i < commit_oids.len()
            invariant
                repo.wf(),
                m == repo@,
                comps == split_path_spec(dir_path.spec_bytes()),
                i <= commit_oids@.len(),
                forall|j: int|
                    0 <= j < commit_oids@.len() ==> repo@.commits.contains_key(
                        #[trigger] commit_oids@[j],
                    ) && (commit_target(
                        repo@,
                        commit_oids@[j],
                        split_path_spec(dir_path.spec_bytes()),
                    ) is Some),
                self.inv(m),
                state_extends(old(self)@, self@),
                forall|j: int|
                    0 <= j < i ==> self@.commits.contains_key(#[trigger] commit_oids@[j])
                        && commit_stored_ok(
                        m,
                        commit_oids@[j],
                        comps,
                        self@,
                        self@.commits[commit_oids@[j]],
                    ),
            decreases commit_oids@.len() - i,
        {
            let oid = commit_oids[i];
            let ghost s_top = self@;
            let c = self.handle_maven_commit(repo, dir_path, oid);
            let ghost s_mid = self@;
            proof {
                lemma_extends_trans(old(self)@, s_top, s_mid);
                assert forall|j: int| 0 <= j < i implies s_mid.commits.contains_key(
                    #[trigger] commit_oids@[j],
                ) && commit_stored_ok(m, commit_oids@[j], comps, s_mid, s_mid.commits[commit_oids@[j]]) by {
                    assert(s_top.commits.contains_key(commit_oids@[j]));
                    assert(s_mid.commits == s_top.commits);
                    let tj = commit_target(m, commit_oids@[j], comps).unwrap();
                    assert(s_top.object_map.contains_key(tj));
                }
            }
            self.commits.insert(oid, c);
            proof {
                assert(commit_ok(self@, self@.commits[oid]));
                lemma_state_inv_preserved(s_mid, self@, m);
                lemma_extends_trans(old(self)@, s_mid, self@);
                assert(commit_stored_ok(m, oid, comps, self@, c@));
                assert forall|j: int| 0 <= j < i + 1 implies self@.commits.contains_key(
                    #[trigger] commit_oids@[j],
                ) && commit_stored_ok(m, commit_oids@[j], comps, self@, self@.commits[commit_oids@[j]]) by {
                    if commit_oids@[j] == oid {
                        assert(self@.commits[commit_oids@[j]] == c@);
                    } else if j < i {
                        assert(s_mid.commits.contains_key(commit_oids@[j]));
                        assert(self@.commits[commit_oids@[j]] == s_mid.commits[commit_oids@[j]]);
                        let tj = commit_target(m, commit_oids@[j], comps).unwrap();
                        assert(s_mid.object_map.contains_key(tj));
                    }
                }
            }
            i = i + 1;
        }
    }

    /// Preprocess a sequence of commits in Java mode (no Maven
    /// classification), recording each result in the commit table.
    pub fn pre_process_no_maven(&mut self, repo: &RepoModel, commit_oids: &Vec<Oid>, dir_path: &str)
        requires
            repo.wf(),
            old(self).inv(repo@),
            forall|i: int|
                0 <= i < commit_oids@.len() ==> repo@.commits.contains_key(
                    #[trigger] commit_oids@[i],
                ) && (commit_target(
                    repo@,
                    commit_oids@[i],
                    split_path_spec(dir_path.spec_bytes()),
                ) is Some),
        ensures
            final(self).inv(repo@),
            state_extends(old(self)@, final(self)@),
            forall|i: int|
                0 <= i < commit_oids@.len() ==> final(self)@.commits.contains_key(
                    #[trigger] commit_oids@[i],
                ) && commit_stored_ok(
                    repo@,
                    commit_oids@[i],
                    split_path_spec(dir_path.spec_bytes()),
                    final(self)@,
                    final(self)@.commits[commit_oids@[i]],
                ),
    {
        let ghost m = repo@;
        let ghost comps = split_path_spec(dir_path.spec_bytes());
        let mut i: usize = 0;
        while i < commit_oids.len()
            invariant
                repo.wf(),
                m == repo@,
                comps == split_path_spec(dir_path.spec_bytes()),
                i <= commit_oids@.len(),
                forall|j: int|
                    0 <= j < commit_oids@.len() ==> repo@.commits.contains_key(
                        #[trigger] commit_oids@[j],
                    ) && (commit_target(
                        repo@,
                        commit_oids@[j],
                        split_path_spec(dir_path.spec_bytes()),
                    ) is Some),
                self.inv(m),
                state_extends(old(self)@, self@),
                forall|j: int|
                    0 <= j < i ==> self@.commits.contains_key(#[trigger] commit_oids@[j])
                        && commit_stored_ok(
                        m,
                        commit_oids@[j],
                        comps,
                        self@,
                        self@.commits[commit_oids@[j]],
                    ),
            decreases commit_oids@.len() - i,
        {
            let oid = commit_oids[i];
            let ghost s_top = self@;
            let c = self.handle_java_commit(repo, dir_path, oid);
            let ghost s_mid = self@;
            proof {
                lemma_extends_trans(old(self)@, s_top, s_mid);
                assert forall|j: int| 0 <= j < i implies s_mid.commits.contains_key(
                    #[trigger] commit_oids@[j],
                ) && commit_stored_ok(m, commit_oids@[j], comps, s_mid, s_mid.commits[commit_oids@[j]]) by {
                    assert(s_top.commits.contains_key(commit_oids@[j]));
                    assert(s_mid.commits == s_top.commits);
                    let tj = commit_target(m, commit_oids@[j], comps).unwrap();
                    assert(s_top.object_map.contains_key(tj));
                }
            }
            self.commits.insert(oid, c);
            proof {
                assert(commit_ok(self@, self@.commits[oid]));
                lemma_state_inv_preserved(s_mid, self@, m);
                lemma_extends_trans(old(self)@, s_mid, self@);
                assert(commit_stored_ok(m, oid, comps, self@, c@));
                assert forall|j: int| 0 <= j < i + 1 implies self@.commits.contains_key(
                    #[trigger] commit_oids@[j],
                ) && commit_stored_ok(m, commit_oids@[j], comps, self@, self@.commits[commit_oids@[j]]) by {
                    if commit_oids@[j] == oid {
                        assert(self@.commits[commit_oids@[j]] == c@);
                    } else if j < i {
                        assert(s_mid.commits.contains_key(commit_oids@[j]));
                        assert(self@.commits[commit_oids@[j]] == s_mid.commits[commit_oids@[j]]);
                        let tj = commit_target(m, commit_oids@[j], comps).unwrap();
                        assert(s_mid.object_map.contains_key(tj));
                    }
                }
            }
            i = i + 1;
        }
    }
}


/// Executable fold-tier selection, exact against `fold_bloom_for`.
pub fn fold_bloom(children: usize, refs: usize, skipped: bool) -> (r: BloomSize)
    ensures
        r == fold_bloom_for(children as int, refs as int, skipped),
{
    if children == 0 {
        BloomSize::NoFilter
    } else {
        bloom_size(refs, skipped)
    }
}

/// A directory whose analysis was skipped always receives the `Much` tier,
/// whatever its reference count.
pub proof fn lemma_skipped_directory_much(children: int, refs: int)
    requires
        children > 0,
    ensures
        fold_bloom_for(children, refs, true) == BloomSize::Much,
{
    crate::analysis::lemma_skipped_always_much(refs);
}

/// At fold time a well-formed accumulator's child list and child-name list
/// have the same length and the names hold no duplicate.
pub proof fn lemma_fold_time_children(acc: JavaAcc)
    requires
        acc.wf(),
    ensures
        acc.children@.len() == acc.children_names@.len(),
        forall|i: int, j: int|
            0 <= i < j < acc.children_names@.len() ==> acc.children_names@[i]
                != acc.children_names@[j],
{
}

/// The same fold-time shape holds of a Maven accumulator, and its pending
/// sets hold no parent-relative path, so the fatal case of a `..`-prefixed
/// pending path at fold time is unreachable.
pub proof fn lemma_fold_time_maven(acc: MavenModuleAcc)
    requires
        acc.wf(),
    ensures
        acc.children@.len() == acc.children_names@.len(),
        forall|i: int, j: int|
            0 <= i < j < acc.children_names@.len() ==> acc.children_names@[i]
                != acc.children_names@[j],
        crate::accs::stripped_after_drain(pending_view(acc.sub_modules), seq![0x2eu8, 0x2eu8])
            == Seq::<Seq<Seq<u8>>>::empty(),
        crate::accs::stripped_after_drain(pending_view(acc.main_dirs), seq![0x2eu8, 0x2eu8])
            == Seq::<Seq<Seq<u8>>>::empty(),
        crate::accs::stripped_after_drain(pending_view(acc.test_dirs), seq![0x2eu8, 0x2eu8])
            == Seq::<Seq<Seq<u8>>>::empty(),
{
    lemma_drain_parent_of_clean(pending_view(acc.sub_modules));
    lemma_drain_parent_of_clean(pending_view(acc.main_dirs));
    lemma_drain_parent_of_clean(pending_view(acc.test_dirs));
}

/// Ingesting the same subtree a second time finds the memo: nothing
/// changes — in particular the node store does not grow — and the same
/// root node and metadata come back.
pub proof fn lemma_reprocess_same_tree(
    mode1: FoldMode,
    mode2: FoldMode,
    s0: StateView,
    m: RepoView,
    oid: u64,
    s1: StateView,
    r1: (NodeId, MDView),
    s2: StateView,
    r2: (NodeId, MDView),
)
    requires
        maven_post(mode1, s0, m, oid, s1, r1),
        maven_post(mode2, s1, m, oid, s2, r2),
    ensures
        r2 == r1,
        s2 == s1,
        s2.nodes.len() == s1.nodes.len(),
{
}

/// Processing one commit twice over the same module path yields the same
/// tree root and leaves the whole state — node store included — unchanged.
pub proof fn lemma_reprocess_commit(
    mode1: FoldMode,
    mode2: FoldMode,
    s0: StateView,
    m: RepoView,
    commit_oid: u64,
    comps: Seq<Seq<u8>>,
    s1: StateView,
    c1: CommitView,
    s2: StateView,
    c2: CommitView,
)
    requires
        commit_post(mode1, s0, m, commit_oid, comps, s1, c1),
        commit_post(mode2, s1, m, commit_oid, comps, s2, c2),
    ensures
        c2.ast_root == c1.ast_root,
        s2 == s1,
        s2.nodes.len() == s1.nodes.len(),
{
}

/// Processing commit `c2` after commit `c1`, where both designate the same
/// tree, shares the root node: the second run hits the memo and the store
/// does not grow.
pub proof fn lemma_same_tree_shares_root(
    mode1: FoldMode,
    mode2: FoldMode,
    s0: StateView,
    m: RepoView,
    c1: u64,
    c2: u64,
    comps: Seq<Seq<u8>>,
    s1: StateView,
    cv1: CommitView,
    s2: StateView,
    cv2: CommitView,
)
    requires
        commit_post(mode1, s0, m, c1, comps, s1, cv1),
        commit_post(mode2, s1, m, c2, comps, s2, cv2),
        m.commits[c1].tree == m.commits[c2].tree,
    ensures
        cv2.ast_root == cv1.ast_root,
        s2 == s1,
        s2.nodes.len() == s1.nodes.len(),
{
}

/// The first child of `d` whose node carries the label, with its position.
pub open spec fn first_labeled(nodes: Seq<NodeView>, cs: Seq<NodeId>, lbl: LabelId) -> Option<
    (NodeId, int),
>
    decreases cs.len(),
{
    if cs.len() == 0 {
        None
    } else if cs.first() < nodes.len() && nodes[cs.first() as int].label == lbl {
        Some((cs.first(), 0))
    } else {
        match first_labeled(nodes, cs.drop_first(), lbl) {
            Some((c, i)) => Some((c, i + 1)),
            None => None,
        }
    }
}

/// The first child of `d` whose node carries the kind, with its position.
pub open spec fn first_kinded(nodes: Seq<NodeView>, cs: Seq<NodeId>, t: NodeKind) -> Option<
    (NodeId, int),
>
    decreases cs.len(),
{
    if cs.len() == 0 {
        None
    } else if cs.first() < nodes.len() && nodes[cs.first() as int].kind == t {
        Some((cs.first(), 0))
    } else {
        match first_kinded(nodes, cs.drop_first(), t) {
            Some((c, i)) => Some((c, i + 1)),
            None => None,
        }
    }
}

/// The child of `d` that carries `name`, by label lookup.
pub open spec fn child_by_name_spec(
    nodes: Seq<NodeView>,
    labels: Seq<Seq<u8>>,
    d: NodeId,
    name: Seq<u8>,
) -> Option<(NodeId, int)> {
    if crate::labels::has_label(labels, name) {
        first_labeled(nodes, nodes[d as int].children, crate::labels::label_index(labels, name) as LabelId)
    } else {
        None
    }
}

/// The child of `d` that carries `name`, without its position.
pub open spec fn child_of_name(
    nodes: Seq<NodeView>,
    labels: Seq<Seq<u8>>,
    d: NodeId,
    name: Seq<u8>,
) -> Option<NodeId> {
    match child_by_name_spec(nodes, labels, d, name) {
        Some((c, i)) => Some(c),
        None => None,
    }
}

impl PreProcessedRepository {
    /// Find the first child of `d` whose node is labelled with `lbl`.
    fn child_with_label(&self, d: NodeId, lbl: LabelId) -> (r: Option<(NodeId, usize)>)
        requires
            self.main_stores.wf(),
            d < self@.nodes.len(),
        ensures
            match r {
                Some(c) => first_labeled(self@.nodes, self@.nodes[d as int].children, lbl)
                    == Some((c.0, c.1 as int)),
                None => (first_labeled(self@.nodes, self@.nodes[d as int].children, lbl)
                    is None),
            },
    {
        let ghost cs = self@.nodes[d as int].children;
        let n = self.main_stores.node_store.resolve(d);
        let mut i: usize = 0;
        proof {
            assert(cs.skip(0) =~= cs);
        }
        while i < n.children.len()
            invariant
                self.main_stores.wf(),
                d < self@.nodes.len(),
                n@ == self@.nodes[d as int],
                cs == n.children@,
                i <= cs.len(),
                first_labeled(self@.nodes, cs, lbl) == match first_labeled(
                    self@.nodes,
                    cs.skip(i as int),
                    lbl,
                ) {
                    Some((c, k)) => Some((c, k + i)),
                    None => None::<(NodeId, int)>,
                },
            decreases cs.len() - i,
        {
            proof {
                assert(node_wf(self@.nodes, d as int, self@.labels.len() as int));
                assert(cs[i as int] < d);
                assert(cs.skip(i as int).first() == cs[i as int]);
                assert(cs.skip(i as int).drop_first() =~= cs.skip(i + 1));
            }
            let c = n.children[i];
            let cn = self.main_stores.node_store.resolve(c);
            if cn.label == lbl {
                return Some((c, i));
            }
            proof {
                assert(first_labeled(self@.nodes, cs.skip(i as int), lbl) == match first_labeled(
                    self@.nodes,
                    cs.skip(i + 1),
                    lbl,
                ) {
                    Some((cc, k)) => Some((cc, k + 1)),
                    None => None::<(NodeId, int)>,
                });
            }
            i = i + 1;
        }
        proof {
            assert(cs.skip(cs.len() as int) =~= Seq::<NodeId>::empty());
        }
        None
    }

    /// The child of `d` carrying `name`, if any. The lookup goes by the
    /// child node's own label; by the store invariant (`node_wf`) that
    /// label is exactly the entry of `children_names` at the same
    /// position, so the two readings coincide.
    pub fn child_by_name(&self, d: NodeId, name: &str) -> (r: Option<NodeId>)
        requires
            self.main_stores.wf(),
            d < self@.nodes.len(),
        ensures
            r == child_of_name(self@.nodes, self@.labels, d, name.spec_bytes()),
    {
        match self.child_by_name_with_idx(d, name) {
            Some(p) => {
                proof {
                    assert(child_by_name_spec(self@.nodes, self@.labels, d, name.spec_bytes())
                        == Some((p.0, p.1 as int)));
                }
                Some(p.0)
            },
            None => None,
        }
    }

    /// The child of `d` carrying `name`, with its position.
    pub fn child_by_name_with_idx(&self, d: NodeId, name: &str) -> (r: Option<(NodeId, usize)>)
        requires
            self.main_stores.wf(),
            d < self@.nodes.len(),
        ensures
            match r {
                Some(c) => child_by_name_spec(self@.nodes, self@.labels, d, name.spec_bytes())
                    == Some((c.0, c.1 as int)),
                None => (child_by_name_spec(self@.nodes, self@.labels, d, name.spec_bytes())
                    is None),
            },
    {
        match self.main_stores.label_store.get(name.as_bytes()) {
            Some(lbl) => self.child_with_label(d, lbl),
            None => None,
        }
    }

    /// The first child of `d` of the given kind, with its position.
    pub fn child_by_type(&self, d: NodeId, t: NodeKind) -> (r: Option<(NodeId, usize)>)
        requires
            self.main_stores.wf(),
            d < self@.nodes.len(),
        ensures
            match r {
                Some(c) => first_kinded(self@.nodes, self@.nodes[d as int].children, t) == Some(
                    (c.0, c.1 as int),
                ),
                None => (first_kinded(self@.nodes, self@.nodes[d as int].children, t) is None),
            },
    {
        let ghost cs = self@.nodes[d as int].children;
        let n = self.main_stores.node_store.resolve(d);
        let mut i: usize = 0;
        proof {
            assert(cs.skip(0) =~= cs);
        }
        while i < n.children.len()
            invariant
                self.main_stores.wf(),
                d < self@.nodes.len(),
                n@ == self@.nodes[d as int],
                cs == n.children@,
                i <= cs.len(),
                first_kinded(self@.nodes, cs, t) == match first_kinded(
                    self@.nodes,
                    cs.skip(i as int),
                    t,
                ) {
                    Some((c, k)) => Some((c, k + i)),
                    None => None::<(NodeId, int)>,
                },
            decreases cs.len() - i,
        {
            proof {
                assert(node_wf(self@.nodes, d as int, self@.labels.len() as int));
                assert(cs[i as int] < d);
                assert(cs.skip(i as int).first() == cs[i as int]);
                assert(cs.skip(i as int).drop_first() =~= cs.skip(i + 1));
            }
            let c = n.children[i];
            let cn = self.main_stores.node_store.resolve(c);
            if cn.kind == t {
                return Some((c, i));
            }
            proof {
                assert(first_kinded(self@.nodes, cs.skip(i as int), t) == match first_kinded(
                    self@.nodes,
                    cs.skip(i + 1),
                    t,
                ) {
                    Some((cc, k)) => Some((cc, k + 1)),
                    None => None::<(NodeId, int)>,
                });
            }
            i = i + 1;
        }
        proof {
            assert(cs.skip(cs.len() as int) =~= Seq::<NodeId>::empty());
        }
        None
    }
}


/// The `MavenDirectory` nodes of the subtree under `d`, in depth-first
/// pre-order.
pub open spec fn maven_modules_spec(nodes: Seq<NodeView>, d: NodeId) -> Seq<NodeId>
    decreases d, 1int, 0int,
{
    if d >= nodes.len() {
        Seq::empty()
    } else {
        let own: Seq<NodeId> = if nodes[d as int].kind == NodeKind::MavenDirectory {
            seq![d]
        } else {
            Seq::empty()
        };
        own + maven_modules_children(nodes, nodes[d as int].children, d)
    }
}

/// The modules found under a child list, children at or above the bound
/// contributing nothing.
pub open spec fn maven_modules_children(nodes: Seq<NodeView>, cs: Seq<NodeId>, bound: NodeId) -> Seq<
    NodeId,
>
    decreases bound, 0int, cs.len(),
{
    if cs.len() == 0 {
        Seq::empty()
    } else {
        let rest = maven_modules_children(nodes, cs.drop_last(), bound);
        if cs.last() < bound {
            rest + maven_modules_spec(nodes, cs.last())
        } else {
            rest
        }
    }
}

/// One step of a module collection over a growing prefix.
pub proof fn lemma_modules_children_step(nodes: Seq<NodeView>, cs: Seq<NodeId>, i: int, bound: NodeId)
    requires
        0 <= i < cs.len(),
    ensures
        maven_modules_children(nodes, cs.subrange(0, i + 1), bound) == maven_modules_children(
            nodes,
            cs.subrange(0, i),
            bound,
        ) + (if cs[i] < bound {
            maven_modules_spec(nodes, cs[i])
        } else {
            Seq::<NodeId>::empty()
        }),
{
    assert(cs.subrange(0, i + 1).drop_last() =~= cs.subrange(0, i));
    assert(cs.subrange(0, i + 1).last() == cs[i]);
    if !(cs[i] < bound) {
        assert(maven_modules_children(nodes, cs.subrange(0, i + 1), bound) =~= maven_modules_children(
            nodes,
            cs.subrange(0, i),
            bound,
        ) + Seq::<NodeId>::empty());
    }
}

/// Every collected module is a valid node identifier.
pub proof fn lemma_modules_valid(nodes: Seq<NodeView>, d: NodeId)
    ensures
        forall|j: int|
            0 <= j < maven_modules_spec(nodes, d).len() ==> (#[trigger] maven_modules_spec(
                nodes,
                d,
            )[j]) < nodes.len(),
    decreases d, 1int, 0int,
{
    if d < nodes.len() {
        lemma_modules_children_valid(nodes, nodes[d as int].children, d);
        let own: Seq<NodeId> = if nodes[d as int].kind == NodeKind::MavenDirectory {
            seq![d]
        } else {
            Seq::empty()
        };
        let ch = maven_modules_children(nodes, nodes[d as int].children, d);
        let s = maven_modules_spec(nodes, d);
        assert forall|j: int| 0 <= j < s.len() implies (#[trigger] s[j]) < nodes.len() by {
            if j < own.len() {
                assert(s[j] == d);
            } else {
                assert(s[j] == ch[j - own.len()]);
            }
        }
    }
}

/// Every module collected under a child list is a valid node identifier.
pub proof fn lemma_modules_children_valid(nodes: Seq<NodeView>, cs: Seq<NodeId>, bound: NodeId)
    ensures
        forall|j: int|
            0 <= j < maven_modules_children(nodes, cs, bound).len() ==> (
            #[trigger] maven_modules_children(nodes, cs, bound)[j]) < nodes.len(),
    decreases bound, 0int, cs.len(),
{
    if cs.len() > 0 {
        lemma_modules_children_valid(nodes, cs.drop_last(), bound);
        let rest = maven_modules_children(nodes, cs.drop_last(), bound);
        let s = maven_modules_children(nodes, cs, bound);
        if cs.last() < bound {
            lemma_modules_valid(nodes, cs.last());
            let sub = maven_modules_spec(nodes, cs.last());
            assert forall|j: int| 0 <= j < s.len() implies (#[trigger] s[j]) < nodes.len() by {
                if j < rest.len() {
                    assert(s[j] == rest[j]);
                } else {
                    assert(s[j] == sub[j - rest.len()]);
                }
            }
        }
    }
}

/// A found child is a valid node identifier, taken from the child list.
pub proof fn lemma_first_labeled_valid(nodes: Seq<NodeView>, cs: Seq<NodeId>, lbl: LabelId)
    ensures
        match first_labeled(nodes, cs, lbl) {
            Some(c) => c.0 < nodes.len() && 0 <= c.1 < cs.len() && cs[c.1] == c.0,
            None => true,
        },
    decreases cs.len(),
{
    if cs.len() > 0 {
        if !(cs.first() < nodes.len() && nodes[cs.first() as int].label == lbl) {
            lemma_first_labeled_valid(nodes, cs.drop_first(), lbl);
        }
    }
}

/// The byte string `"src"`.
pub open spec fn name_src() -> Seq<u8> {
    seq![0x73u8, 0x72u8, 0x63u8]
}

/// The byte string `"main"`.
pub open spec fn name_main() -> Seq<u8> {
    seq![0x6du8, 0x61u8, 0x69u8, 0x6eu8]
}

/// The byte string `"test"`.
pub open spec fn name_test() -> Seq<u8> {
    seq![0x74u8, 0x65u8, 0x73u8, 0x74u8]
}

/// The byte string `"java"`.
pub open spec fn name_java() -> Seq<u8> {
    seq![0x6au8, 0x61u8, 0x76u8, 0x61u8]
}

/// The `src/<second>/java` directory of a module, navigated by child name.
pub open spec fn source_root_of(
    nodes: Seq<NodeView>,
    labels: Seq<Seq<u8>>,
    d: NodeId,
    second: Seq<u8>,
) -> Option<NodeId> {
    match child_of_name(nodes, labels, d, name_src()) {
        Some(s) => match child_of_name(nodes, labels, s, second) {
            Some(t) => child_of_name(nodes, labels, t, name_java()),
            None => None,
        },
        None => None,
    }
}

/// The main and test source roots of a list of modules, in order.
pub open spec fn source_roots_list(
    nodes: Seq<NodeView>,
    labels: Seq<Seq<u8>>,
    mods: Seq<NodeId>,
) -> Seq<NodeId>
    decreases mods.len(),
{
    if mods.len() == 0 {
        Seq::empty()
    } else {
        let rest = source_roots_list(nodes, labels, mods.drop_last());
        let d = mods.last();
        let main_part: Seq<NodeId> = match source_root_of(nodes, labels, d, name_main()) {
            Some(s) => seq![s],
            None => Seq::empty(),
        };
        let test_part: Seq<NodeId> = match source_root_of(nodes, labels, d, name_test()) {
            Some(s) => seq![s],
            None => Seq::empty(),
        };
        rest + main_part + test_part
    }
}

impl PreProcessedRepository {
    /// Collect the Maven modules of the subtree under `root`, in
    /// depth-first pre-order.
    pub fn collect_maven_modules(&self, root: NodeId) -> (r: Vec<NodeId>)
        requires
            self.main_stores.wf(),
            root < self@.nodes.len(),
        ensures
            r@ == maven_modules_spec(self@.nodes, root),
        decreases root,
    {
        let mut out: Vec<NodeId> = Vec::new();
        let n = self.main_stores.node_store.resolve(root);
        if n.kind == NodeKind::MavenDirectory {
            out.push(root);
        }
        let ghost own = out@;
        let ghost cs = self@.nodes[root as int].children;
        let mut i: usize = 0;
        proof {
            assert(cs.subrange(0, 0) =~= Seq::<NodeId>::empty());
            assert(out@ =~= own + maven_modules_children(self@.nodes, cs.subrange(0, 0), root));
        }
        while i < n.children.len()
            invariant
                self.main_stores.wf(),
                root < self@.nodes.len(),
                n@ == self@.nodes[root as int],
                cs == n.children@,
                i <= cs.len(),
                own == (if self@.nodes[root as int].kind == NodeKind::MavenDirectory {
                    seq![root]
                } else {
                    Seq::<NodeId>::empty()
                }),
                out@ == own + maven_modules_children(self@.nodes, cs.subrange(0, i as int), root),
            decreases cs.len() - i,
        {
            proof {
                assert(node_wf(self@.nodes, root as int, self@.labels.len() as int));
                assert(cs[i as int] < root);
                lemma_modules_children_step(self@.nodes, cs, i as int, root);
            }
            let c = n.children[i];
            let mut sub = self.collect_maven_modules(c);
            out.append(&mut sub);
            proof {
                assert(out@ =~= own + maven_modules_children(
                    self@.nodes,
                    cs.subrange(0, i + 1),
                    root,
                ));
            }
            i = i + 1;
        }
        proof {
            assert(cs.subrange(0, cs.len() as int) =~= cs);
        }
        out
    }

    /// The `src/main/java` and `src/test/java` roots of every Maven module
    /// under `root`: the places the declaration and reference scans visit.
    pub fn module_source_roots(&self, root: NodeId) -> (r: Vec<NodeId>)
        requires
            self.main_stores.wf(),
            root < self@.nodes.len(),
        ensures
            r@ == source_roots_list(
                self@.nodes,
                self@.labels,
                maven_modules_spec(self@.nodes, root),
            ),
    {
        let mods = self.collect_maven_modules(root);
        let ghost ms = mods@;
        let mut out: Vec<NodeId> = Vec::new();
        let mut i: usize = 0;
        proof {
            lemma_modules_valid(self@.nodes, root);
            assert(ms.subrange(0, 0) =~= Seq::<NodeId>::empty());
            assert(out@ =~= source_roots_list(self@.nodes, self@.labels, ms.subrange(0, 0)));
        }
        while i < mods.len()
            invariant
                self.main_stores.wf(),
                root < self@.nodes.len(),
                mods@ == ms,
                i <= ms.len(),
                forall|j: int| 0 <= j < ms.len() ==> (#[trigger] ms[j]) < self@.nodes.len(),
                out@ == source_roots_list(self@.nodes, self@.labels, ms.subrange(0, i as int)),
            decreases ms.len() - i,
        {
            proof {
                assert(ms.subrange(0, i + 1).drop_last() =~= ms.subrange(0, i as int));
                assert(ms.subrange(0, i + 1).last() == ms[i as int]);
            }
            let d = mods[i];
            proof {
                lemma_src_bytes();
                lemma_main_bytes();
                lemma_test_bytes();
                lemma_java_bytes();
            }
            match self.child_by_name(d, "src") {
                Some(s) => {
                    proof {
                        lemma_child_of_name_valid(self@.nodes, self@.labels, d, name_src());
                    }
                    match self.child_by_name(s, "main") {
                        Some(t) => {
                            proof {
                                lemma_child_of_name_valid(
                                    self@.nodes,
                                    self@.labels,
                                    s,
                                    name_main(),
                                );
                            }
                            match self.child_by_name(t, "java") {
                                Some(u) => {
                                    out.push(u);
                                },
                                None => {},
                            }
                        },
                        None => {},
                    }
                    match self.child_by_name(s, "test") {
                        Some(t) => {
                            proof {
                                lemma_child_of_name_valid(
                                    self@.nodes,
                                    self@.labels,
                                    s,
                                    name_test(),
                                );
                            }
                            match self.child_by_name(t, "java") {
                                Some(u) => {
                                    out.push(u);
                                },
                                None => {},
                            }
                        },
                        None => {},
                    }
                },
                None => {},
            }
            proof {
                assert(out@ =~= source_roots_list(
                    self@.nodes,
                    self@.labels,
                    ms.subrange(0, i + 1),
                ));
            }
            i = i + 1;
        }
        proof {
            assert(ms.subrange(0, ms.len() as int) =~= ms);
        }
        out
    }
}

/// A child found by name is a valid node identifier.
pub proof fn lemma_child_of_name_valid(
    nodes: Seq<NodeView>,
    labels: Seq<Seq<u8>>,
    d: NodeId,
    name: Seq<u8>,
)
    requires
        d < nodes.len(),
    ensures
        match child_of_name(nodes, labels, d, name) {
            Some(c) => c < nodes.len(),
            None => true,
        },
{
    if crate::labels::has_label(labels, name) {
        lemma_first_labeled_valid(
            nodes,
            nodes[d as int].children,
            crate::labels::label_index(labels, name) as LabelId,
        );
    }
}

/// The bytes of the literal `"src"`.
pub proof fn lemma_src_bytes()
    ensures
        "src".spec_bytes() == name_src(),
{
    reveal_strlit("src");
    assert(vstd::utf8::is_ascii_chars("src"@));
    vstd::utf8::is_ascii_chars_encode_utf8("src"@);
    assert("src".spec_bytes() =~= name_src());
}

/// The bytes of the literal `"main"`.
pub proof fn lemma_main_bytes()
    ensures
        "main".spec_bytes() == name_main(),
{
    reveal_strlit("main");
    assert(vstd::utf8::is_ascii_chars("main"@));
    vstd::utf8::is_ascii_chars_encode_utf8("main"@);
    assert("main".spec_bytes() =~= name_main());
}

/// The bytes of the literal `"test"`.
pub proof fn lemma_test_bytes()
    ensures
        "test".spec_bytes() == name_test(),
{
    reveal_strlit("test");
    assert(vstd::utf8::is_ascii_chars("test"@));
    vstd::utf8::is_ascii_chars_encode_utf8("test"@);
    assert("test".spec_bytes() =~= name_test());
}

/// The bytes of the literal `"java"`.
pub proof fn lemma_java_bytes()
    ensures
        "java".spec_bytes() == name_java(),
{
    reveal_strlit("java");
    assert(vstd::utf8::is_ascii_chars("java"@));
    vstd::utf8::is_ascii_chars_encode_utf8("java"@);
    assert("java".spec_bytes() =~= name_java());
}


/// The memo-hit path of the Java branch is observationally silent: it
/// returns exactly the memoized node identifier and metrics and leaves
/// every store and table unchanged, so callers cannot tell it from the
/// path that first parsed and folded the subtree.
pub proof fn lemma_java_memo_hit(
    pre: StateView,
    m: RepoView,
    oid: u64,
    post: StateView,
    local: LocalView,
    sk: bool,
)
    requires
        java_post(pre, m, oid, post, local, sk),
        pre.object_map_java.contains_key(oid),
    ensures
        post == pre,
        (local, sk) == pre.object_map_java[oid],
        local.compressed_node == pre.object_map_java[oid].0.compressed_node,
        local.metrics == pre.object_map_java[oid].0.metrics,
{
}


/// Memoized subtrees survive later processing unchanged: an object folded
/// while processing one commit keeps its memo entry — and with it its node
/// identifier — through every later ingestion. Directory spines that a
/// later commit does not touch are therefore reused rather than rebuilt.
pub proof fn lemma_memo_stable(s1: StateView, s2: StateView, o: u64)
    requires
        state_extends(s1, s2),
    ensures
        s1.object_map.contains_key(o) ==> s2.object_map.contains_key(o) && s2.object_map[o]
            == s1.object_map[o],
        s1.object_map_pom.contains_key(o) ==> s2.object_map_pom.contains_key(o)
            && s2.object_map_pom[o] == s1.object_map_pom[o],
        s1.object_map_java.contains_key(o) ==> s2.object_map_java.contains_key(o)
            && s2.object_map_java[o] == s1.object_map_java[o],
{
}


/// Strategy of a directory fold: a plain directory inside a Java source
/// root, a Maven module candidate, or the fast-forward walk.
#[derive(Clone, Copy, PartialEq, Eq, Structural, Debug)]
pub enum FoldMode {
    JavaDir,
    Module,
    FastFwd,
}

/// A file name the Java branch handles.
pub open spec fn handled_name(name: Seq<u8>) -> bool {
    ends_with(name, suffix_java()) || ends_with(name, suffix_xml())
}

/// References and declarations of an analysis share no atom.
pub open spec fn ana_disjoint(a: crate::analysis::AnaView) -> bool {
    forall|x: u64| a.refs.contains(x) ==> !a.decls.contains(x)
}

/// Whether an entry contributes a child to a fold of the given strategy:
/// every subtree does; the Java branch attaches handled files (malformed
/// ones only under the keep policy), the Maven branch attaches the POM,
/// the fast-forward walk attaches no blob at all.
pub open spec fn contributes(mode: FoldMode, m: RepoView, e: TreeEntryView) -> bool {
    match mode {
        FoldMode::JavaDir => match e.kind {
            EntryKind::Tree => true,
            EntryKind::Blob => handled_name(e.name) && !(m.blobs[e.oid].bad_cst
                && PROPAGATE_ERROR_ON_BAD_CST_NODE),
        },
        FoldMode::Module => match e.kind {
            EntryKind::Tree => true,
            EntryKind::Blob => e.name == pom_xml(),
        },
        FoldMode::FastFwd => e.kind == EntryKind::Tree,
    }
}

/// The contributing entries of an explored list, in order.
pub open spec fn filter_entries(mode: FoldMode, m: RepoView, es: Seq<TreeEntryView>) -> Seq<
    TreeEntryView,
>
    decreases es.len(),
{
    if es.len() == 0 {
        Seq::empty()
    } else {
        let rest = filter_entries(mode, m, es.drop_last());
        if contributes(mode, m, es.last()) {
            rest.push(es.last())
        } else {
            rest
        }
    }
}

/// One step of the contributing-entry filter over a growing prefix.
pub proof fn lemma_filter_step(mode: FoldMode, m: RepoView, es: Seq<TreeEntryView>, i: int)
    requires
        0 <= i < es.len(),
    ensures
        filter_entries(mode, m, es.subrange(0, i + 1)) == if contributes(mode, m, es[i]) {
            filter_entries(mode, m, es.subrange(0, i)).push(es[i])
        } else {
            filter_entries(mode, m, es.subrange(0, i))
        },
{
    assert(es.subrange(0, i + 1).drop_last() =~= es.subrange(0, i));
    assert(es.subrange(0, i + 1).last() == es[i]);
}

/// Where a contributing entry's child node must come from: the Java memo
/// for the Java and fast-forward strategies; for a Maven module, a subtree
/// is either a memoized module or a memoized Java source root, and a
/// POM blob its memoized POM node.
pub open spec fn child_entry_ok(
    mode: FoldMode,
    s: StateView,
    m: RepoView,
    e: TreeEntryView,
    c: NodeId,
) -> bool {
    match mode {
        FoldMode::JavaDir => s.object_map_java.contains_key(e.oid) && c
            == s.object_map_java[e.oid].0.compressed_node,
        FoldMode::FastFwd => s.object_map_java.contains_key(e.oid) && c
            == s.object_map_java[e.oid].0.compressed_node,
        FoldMode::Module => match e.kind {
            EntryKind::Tree => (s.object_map.contains_key(e.oid) && c == s.object_map[e.oid].0)
                || (s.object_map_java.contains_key(e.oid) && c
                == s.object_map_java[e.oid].0.compressed_node),
            EntryKind::Blob => s.object_map_pom.contains_key(e.oid) && c
                == s.object_map_pom[e.oid].compressed_node,
        },
    }
}


/// An accumulated child list matches the contributing entries pointwise:
/// one child per entry, from the strategy's memo table, named by the
/// entry's interned name.
pub open spec fn partial_children_ok(
    mode: FoldMode,
    s: StateView,
    m: RepoView,
    ce: Seq<TreeEntryView>,
    children: Seq<NodeId>,
    names: Seq<LabelId>,
) -> bool {
    &&& children.len() == ce.len()
    &&& names.len() == ce.len()
    &&& forall|k: int|
        0 <= k < ce.len() ==> child_entry_ok(mode, s, m, #[trigger] ce[k], children[k])
            && crate::labels::has_label(s.labels, ce[k].name) && names[k]
            == crate::labels::label_index(s.labels, ce[k].name)
}

/// A folded node's children are exactly the contributing entries of the
/// explored list.
pub open spec fn folded_children_ok(
    mode: FoldMode,
    s: StateView,
    m: RepoView,
    explored: Seq<TreeEntryView>,
    n: NodeView,
) -> bool {
    partial_children_ok(mode, s, m, filter_entries(mode, m, explored), n.children, n.children_names)
}

/// A blob entry named `pom.xml`.
pub open spec fn is_pom_entry(e: TreeEntryView) -> bool {
    e.kind == EntryKind::Blob && e.name == pom_xml()
}

/// Whether some entry is a POM blob.
pub open spec fn has_pom(es: Seq<TreeEntryView>) -> bool {
    exists|i: int| 0 <= i < es.len() && is_pom_entry(#[trigger] es[i])
}

/// Position of the first POM blob; the length when there is none.
pub open spec fn first_pom_index(es: Seq<TreeEntryView>) -> int
    decreases es.len(),
{
    if es.len() == 0 {
        0
    } else if is_pom_entry(es.first()) {
        0
    } else {
        1 + first_pom_index(es.drop_first())
    }
}

/// `first_pom_index` finds the first POM blob, or the length when absent.
pub proof fn lemma_first_pom_index(es: Seq<TreeEntryView>)
    ensures
        has_pom(es) ==> {
            let i = first_pom_index(es);
            &&& 0 <= i < es.len()
            &&& is_pom_entry(es[i])
            &&& forall|j: int| 0 <= j < i ==> !is_pom_entry(es[j])
        },
        !has_pom(es) ==> first_pom_index(es) == es.len(),
    decreases es.len(),
{
    if es.len() == 0 {
    } else if is_pom_entry(es.first()) {
    } else {
        let dd = es.drop_first();
        lemma_first_pom_index(dd);
        assert(has_pom(es) ==> has_pom(dd)) by {
            if has_pom(es) {
                let i = choose|i: int| 0 <= i < es.len() && is_pom_entry(#[trigger] es[i]);
                assert(is_pom_entry(dd[i - 1]));
            }
        }
        assert(has_pom(dd) ==> has_pom(es)) by {
            if has_pom(dd) {
                let i = choose|i: int| 0 <= i < dd.len() && is_pom_entry(#[trigger] dd[i]);
                assert(is_pom_entry(es[i + 1]));
            }
        }
        if has_pom(es) {
            let i = first_pom_index(es);
            assert(es[i] == dd[i - 1]);
            assert forall|j: int| 0 <= j < i implies !is_pom_entry(es[j]) by {
                if j > 0 {
                    assert(es[j] == dd[j - 1]);
                }
            }
        }
    }
}

/// The order in which a Maven-side fold explores a tree's entries: the
/// first POM blob is moved to the front, the entry that was there takes
/// its place; without a POM the order is Git's natural one.
pub open spec fn explore_order(es: Seq<TreeEntryView>) -> Seq<TreeEntryView> {
    if has_pom(es) {
        pom_prepared(es, first_pom_index(es))
    } else {
        es
    }
}

/// What a memoized directory's node must look like against the model: its
/// children are the contributing entries of the strategy's exploration
/// order of the tree.
pub open spec fn dir_structure_ok(
    mode: FoldMode,
    s: StateView,
    m: RepoView,
    o: u64,
    id: NodeId,
) -> bool {
    m.trees.contains_key(o) ==> folded_children_ok(
        mode,
        s,
        m,
        if mode == FoldMode::JavaDir {
            m.trees[o]
        } else {
            explore_order(m.trees[o])
        },
        s.nodes[id as int],
    )
}

/// What a memoized file's node must look like against the model: one
/// content leaf carrying the blob's bytes, an analysis of exactly the
/// parser-reported atoms, memoized only when the policy kept the file.
pub open spec fn file_node_ok(s: StateView, m: RepoView, o: u64, local: LocalView) -> bool {
    let n = s.nodes[local.compressed_node as int];
    &&& n.children.len() == 1
    &&& n.children[0] < s.nodes.len()
    &&& s.nodes[n.children[0] as int].kind == NodeKind::Content
    &&& s.labels[s.nodes[n.children[0] as int].label as int] == m.blobs[o].content
    &&& !(m.blobs[o].bad_cst && PROPAGATE_ERROR_ON_BAD_CST_NODE)
    &&& (local.ana is Some)
    &&& sets_from(local.ana.unwrap(), m.blobs[o].refs, m.blobs[o].decls)
}

/// A pointwise child match survives any state growth.
pub proof fn lemma_partial_stable(
    mode: FoldMode,
    s1: StateView,
    s2: StateView,
    m: RepoView,
    ce: Seq<TreeEntryView>,
    children: Seq<NodeId>,
    names: Seq<LabelId>,
)
    requires
        partial_children_ok(mode, s1, m, ce, children, names),
        state_extends(s1, s2),
    ensures
        partial_children_ok(mode, s2, m, ce, children, names),
{
    assert forall|k: int| 0 <= k < ce.len() implies child_entry_ok(
        mode,
        s2,
        m,
        #[trigger] ce[k],
        children[k],
    ) && crate::labels::has_label(s2.labels, ce[k].name) && names[k]
        == crate::labels::label_index(s2.labels, ce[k].name) by {
        assert(child_entry_ok(mode, s1, m, ce[k], children[k]));
        crate::labels::lemma_label_index_stable(s1.labels, s2.labels, ce[k].name);
    }
}

/// A memoized file's shape survives any state growth, given it was well
/// formed in the smaller state.
pub proof fn lemma_file_ok_stable(s1: StateView, s2: StateView, m: RepoView, o: u64, local: LocalView)
    requires
        file_node_ok(s1, m, o, local),
        local.compressed_node < s1.nodes.len(),
        store_wf(s1.nodes, s1.labels.len() as int),
        state_extends(s1, s2),
    ensures
        file_node_ok(s2, m, o, local),
{
    let n = s1.nodes[local.compressed_node as int];
    assert(node_wf(s1.nodes, local.compressed_node as int, s1.labels.len() as int));
    assert(node_wf(s1.nodes, n.children[0] as int, s1.labels.len() as int));
    assert(s2.nodes[local.compressed_node as int] == n);
    assert(s2.nodes[n.children[0] as int] == s1.nodes[n.children[0] as int]);
}


/// Extending a pointwise child match by one contributing entry.
pub proof fn lemma_partial_push(
    mode: FoldMode,
    s: StateView,
    m: RepoView,
    ce: Seq<TreeEntryView>,
    children: Seq<NodeId>,
    names: Seq<LabelId>,
    e: TreeEntryView,
    c: NodeId,
    lbl: LabelId,
)
    requires
        partial_children_ok(mode, s, m, ce, children, names),
        child_entry_ok(mode, s, m, e, c),
        crate::labels::has_label(s.labels, e.name),
        lbl as int == crate::labels::label_index(s.labels, e.name),
    ensures
        partial_children_ok(mode, s, m, ce.push(e), children.push(c), names.push(lbl)),
{
    let ce2 = ce.push(e);
    let ch2 = children.push(c);
    let nm2 = names.push(lbl);
    assert forall|k: int| 0 <= k < ce2.len() implies child_entry_ok(
        mode,
        s,
        m,
        #[trigger] ce2[k],
        ch2[k],
    ) && crate::labels::has_label(s.labels, ce2[k].name) && nm2[k]
        == crate::labels::label_index(s.labels, ce2[k].name) by {
        if k < ce.len() {
            assert(ce2[k] == ce[k]);
            assert(ch2[k] == children[k]);
            assert(nm2[k] == names[k]);
        } else {
            assert(ce2[k] == e);
            assert(ch2[k] == c);
            assert(nm2[k] == lbl);
        }
    }
}


/// The byte string `".java"`.
pub open spec fn suffix_java() -> Seq<u8> {
    seq![0x2eu8, 0x6au8, 0x61u8, 0x76u8, 0x61u8]
}

/// The byte string `".xml"`.
pub open spec fn suffix_xml() -> Seq<u8> {
    seq![0x2eu8, 0x78u8, 0x6du8, 0x6cu8]
}

/// The byte string `"pom.xml"`.
pub open spec fn pom_xml() -> Seq<u8> {
    seq![0x70u8, 0x6fu8, 0x6du8, 0x2eu8, 0x78u8, 0x6du8, 0x6cu8]
}

/// Whether `s` ends with `suffix`.
pub open spec fn ends_with(s: Seq<u8>, suffix: Seq<u8>) -> bool {
    s.len() >= suffix.len() && s.subrange(s.len() - suffix.len(), s.len() as int) == suffix
}

/// Executable suffix test, exact against `ends_with`.
pub fn ends_with_bytes(s: &[u8], suffix: &[u8]) -> (r: bool)
    ensures
        r == ends_with(s@, suffix@),
{
    if s.len() < suffix.len() {
        return false;
    }
    let start = s.len() - suffix.len();
    let mut k: usize = start;
    while k < s.len()
        invariant
            start <= k <= s@.len(),
            suffix@.len() <= s@.len(),
            start == s@.len() - suffix@.len(),
            forall|j: int| start <= j < k ==> s@[j] == suffix@[j - start],
        decreases s@.len() - k,
    {
        if s[k] != suffix[k - start] {
            proof {
                assert(s@.subrange(s@.len() - suffix@.len(), s@.len() as int)[k - start] == s@[
                    k as int]);
            }
            return false;
        }
        k = k + 1;
    }
    proof {
        assert(s@.subrange(s@.len() - suffix@.len(), s@.len() as int) =~= suffix@);
    }
    true
}

/// Whether a name is exactly `pom.xml`.
pub fn is_pom_name(name: &[u8]) -> (r: bool)
    ensures
        r == (name@ == pom_xml()),
{
    let pom: Vec<u8> = vec![0x70u8, 0x6fu8, 0x6du8, 0x2eu8, 0x78u8, 0x6du8, 0x6cu8];
    proof {
        assert(pom@ =~= pom_xml());
    }
    bytes_eq(name, pom.as_slice())
}

} // verus!
