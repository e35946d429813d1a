//! In-memory model of the Git object store.
//!
//! The traversal works over plain values: trees are lists of named entries,
//! blobs carry their bytes together with what the external parsers report
//! about them (reference and declaration atoms, a bad-syntax flag, and for
//! a POM the declared module and source-root paths), and commits name their
//! tree and parents. Well-formedness captures what Git guarantees of a real
//! object store: entries point at strictly smaller identifiers (the store
//! is content addressed, so objects are numbered bottom up), names inside a
//! tree are distinct and non-empty, one object carries one name wherever it
//! appears, and a commit's root tree never appears as an entry.

use vstd::prelude::*;
use crate::accs::paths_clean;
use crate::maps::OidMap;
use crate::records::RelPath;
use crate::records::clone_bytes;
use crate::records::paths_view;

verus! {

/// Identifier of a Git object in the model.
pub type Oid = u64;

/// Ceiling on the weight of every tree of a well-formed model, so that
/// subtree sizes fit comfortably in 32 bits.
pub const MAX_TREE_WEIGHT: u64 = 0x4000_0000;

/// What a tree entry points at.
#[derive(Clone, Copy, PartialEq, Eq, Structural, Debug)]
pub enum EntryKind {
    Tree,
    Blob,
}

/// Mathematical image of a tree entry.
pub struct TreeEntryView {
    pub kind: EntryKind,
    pub oid: Oid,
    pub name: Seq<u8>,
}

/// One entry of a tree: a kind, the object it names, and its name.
pub struct TreeEntry {
    pub kind: EntryKind,
    pub oid: Oid,
    pub name: Vec<u8>,
}

impl View for TreeEntry {
    type V = TreeEntryView;

    open spec fn view(&self) -> TreeEntryView {
        TreeEntryView { kind: self.kind, oid: self.oid, name: self.name@ }
    }
}

impl Clone for TreeEntry {
    /// The copy denotes the same entry.
    fn clone(&self) -> (r: Self)
        ensures
            r@ == self@,
    {
        TreeEntry { kind: self.kind, oid: self.oid, name: clone_bytes(&self.name) }
    }
}

/// The ordered entries of one tree.
pub struct TreeList {
    pub entries: Vec<TreeEntry>,
}

impl View for TreeList {
    type V = Seq<TreeEntryView>;

    open spec fn view(&self) -> Seq<TreeEntryView> {
        self.entries@.map_values(|e: TreeEntry| e@)
    }
}

/// Mathematical image of a blob record.
pub struct BlobRecordView {
    pub content: Seq<u8>,
    pub refs: Seq<u64>,
    pub decls: Seq<u64>,
    pub bad_cst: bool,
    pub sub_modules: Seq<Seq<Seq<u8>>>,
    pub main_dirs: Seq<Seq<Seq<u8>>>,
    pub test_dirs: Seq<Seq<Seq<u8>>>,
}

/// A blob: its bytes, and what the external parser reports about it — the
/// reference and declaration atoms of its partial analysis, whether its
/// concrete syntax tree is malformed, and, when it is a POM, the module and
/// source-root paths it declares.
pub struct BlobRecord {
    pub content: Vec<u8>,
    pub refs: Vec<u64>,
    pub decls: Vec<u64>,
    pub bad_cst: bool,
    pub sub_modules: Vec<RelPath>,
    pub main_dirs: Vec<RelPath>,
    pub test_dirs: Vec<RelPath>,
}

impl View for BlobRecord {
    type V = BlobRecordView;

    open spec fn view(&self) -> BlobRecordView {
        BlobRecordView {
            content: self.content@,
            refs: self.refs@,
            decls: self.decls@,
            bad_cst: self.bad_cst,
            sub_modules: paths_view(self.sub_modules@),
            main_dirs: paths_view(self.main_dirs@),
            test_dirs: paths_view(self.test_dirs@),
        }
    }
}

/// Mathematical image of a commit record.
pub struct CommitRecordView {
    pub tree: Oid,
    pub parents: Seq<Oid>,
}

/// A commit: its root tree and its parents.
pub struct CommitRecord {
    pub tree: Oid,
    pub parents: Vec<Oid>,
}

impl View for CommitRecord {
    type V = CommitRecordView;

    open spec fn view(&self) -> CommitRecordView {
        CommitRecordView { tree: self.tree, parents: self.parents@ }
    }
}

/// Mathematical image of the whole object store.
pub struct RepoView {
    pub trees: Map<Oid, Seq<TreeEntryView>>,
    pub blobs: Map<Oid, BlobRecordView>,
    pub commits: Map<Oid, CommitRecordView>,
}

/// The modelled object store.
pub struct RepoModel {
    pub trees: OidMap<TreeList>,
    pub blobs: OidMap<BlobRecord>,
    pub commits: OidMap<CommitRecord>,
}

impl View for RepoModel {
    type V = RepoView;

    open spec fn view(&self) -> RepoView {
        RepoView { trees: self.trees@, blobs: self.blobs@, commits: self.commits@ }
    }
}

/// Total number of nodes that folding the object `oid` can produce: two for
/// a blob (a file node over a content leaf), one plus the weights of the
/// entries for a tree. Entries at or above the bound contribute nothing;
/// a well-formed model keeps every entry below it.
pub open spec fn weight(m: RepoView, oid: Oid) -> int
    decreases oid, 1int, 0int,
{
    if m.blobs.contains_key(oid) {
        2
    } else if m.trees.contains_key(oid) {
        1 + weight_entries(m, m.trees[oid], oid)
    } else {
        1
    }
}

/// Sum of the weights of the entries below the bound.
pub open spec fn weight_entries(m: RepoView, es: Seq<TreeEntryView>, bound: Oid) -> int
    decreases bound, 0int, es.len(),
{
    if es.len() == 0 {
        0
    } else {
        let rest = weight_entries(m, es.drop_last(), bound);
        if es.last().oid < bound {
            rest + weight(m, es.last().oid)
        } else {
            rest
        }
    }
}

/// Weights are at least one, and entry sums non-negative.
pub proof fn lemma_weight_pos(m: RepoView, oid: Oid)
    ensures
        weight(m, oid) >= 1,
    decreases oid, 1int, 0int,
{
    if !m.blobs.contains_key(oid) && m.trees.contains_key(oid) {
        lemma_weight_entries_nonneg(m, m.trees[oid], oid);
    }
}

/// Entry sums are non-negative.
pub proof fn lemma_weight_entries_nonneg(m: RepoView, es: Seq<TreeEntryView>, bound: Oid)
    ensures
        weight_entries(m, es, bound) >= 0,
    decreases bound, 0int, es.len(),
{
    if es.len() > 0 {
        lemma_weight_entries_nonneg(m, es.drop_last(), bound);
        if es.last().oid < bound {
            lemma_weight_pos(m, es.last().oid);
        }
    }
}

/// One step of an entry sum over a growing prefix.
pub proof fn lemma_weight_entries_step(m: RepoView, es: Seq<TreeEntryView>, i: int, bound: Oid)
    requires
        0 <= i < es.len(),
    ensures
        weight_entries(m, es.subrange(0, i + 1), bound) == weight_entries(
            m,
            es.subrange(0, i),
            bound,
        ) + (if es[i].oid < bound {
            weight(m, es[i].oid)
        } else {
            0
        }),
{
    assert(es.subrange(0, i + 1).drop_last() =~= es.subrange(0, i));
    assert(es.subrange(0, i + 1).last() == es[i]);
}

/// An entry sum over a prefix never exceeds the sum over the whole list.
pub proof fn lemma_weight_entries_tail(m: RepoView, es: Seq<TreeEntryView>, k: int, bound: Oid)
    requires
        0 <= k <= es.len(),
    ensures
        weight_entries(m, es.subrange(0, k), bound) <= weight_entries(m, es, bound),
    decreases es.len() - k,
{
    if k < es.len() {
        lemma_weight_entries_step(m, es, k, bound);
        lemma_weight_entries_tail(m, es, k + 1, bound);
        if es[k].oid < bound {
            lemma_weight_pos(m, es[k].oid);
        }
    } else {
        assert(es.subrange(0, k) =~= es);
    }
}

/// Replacing one entry moves the sum by the difference of the two entries'
/// contributions.
pub proof fn lemma_weight_entries_update(
    m: RepoView,
    es: Seq<TreeEntryView>,
    i: int,
    e: TreeEntryView,
    bound: Oid,
)
    requires
        0 <= i < es.len(),
    ensures
        weight_entries(m, es.update(i, e), bound) == weight_entries(m, es, bound) - (if es[i].oid
            < bound {
            weight(m, es[i].oid)
        } else {
            0
        }) + (if e.oid < bound {
            weight(m, e.oid)
        } else {
            0
        }),
    decreases es.len(),
{
    let t = es.update(i, e);
    if i == es.len() - 1 {
        assert(t.drop_last() =~= es.drop_last());
        assert(t.last() == e);
    } else {
        lemma_weight_entries_update(m, es.drop_last(), i, e, bound);
        assert(t.drop_last() =~= es.drop_last().update(i, e));
        assert(t.last() == es.last());
    }
}

/// The index map of swapping positions `0` and `p`.
pub open spec fn swap_idx(i: int, p: int) -> int {
    if i == 0 {
        p
    } else if i == p {
        0
    } else {
        i
    }
}

/// The entry order explored for a tree whose POM sits at position `p`: the
/// POM is moved to the front, the entry that was there takes its place.
pub open spec fn pom_prepared(es: Seq<TreeEntryView>, p: int) -> Seq<TreeEntryView> {
    es.update(0, es[p]).update(p, es[0])
}

/// The prepared order is the pointwise swap of positions `0` and `p`, and
/// its entry sum is unchanged.
pub proof fn lemma_pom_prepared(m: RepoView, es: Seq<TreeEntryView>, p: int, bound: Oid)
    requires
        0 <= p < es.len(),
    ensures
        pom_prepared(es, p).len() == es.len(),
        forall|i: int| 0 <= i < es.len() ==> pom_prepared(es, p)[i] == es[swap_idx(i, p)],
        weight_entries(m, pom_prepared(es, p), bound) == weight_entries(m, es, bound),
{
    let t = pom_prepared(es, p);
    assert forall|i: int| 0 <= i < es.len() implies t[i] == es[swap_idx(i, p)] by {
        if p == 0 {
            assert(t[i] == es[i]);
        }
    }
    lemma_weight_entries_update(m, es, 0, es[p], bound);
    lemma_weight_entries_update(m, es.update(0, es[p]), p, es[0], bound);
    if p != 0 {
        assert(es.update(0, es[p])[p] == es[p]);
    } else {
        assert(es.update(0, es[p]) =~= es);
        assert(t =~= es);
    }
}

/// Some tree of the model has an entry for `o`.
pub open spec fn has_entry(m: RepoView, o: Oid) -> bool {
    exists|t: Oid, i: int|
        #![trigger m.trees[t][i]]
        m.trees.contains_key(t) && 0 <= i < m.trees[t].len() && m.trees[t][i].oid == o
}

/// The name under which `o` appears in the model: in a well-formed model
/// every occurrence agrees; an object that is no entry (a commit root) is
/// nameless.
pub open spec fn name_of(m: RepoView, o: Oid) -> Seq<u8> {
    if has_entry(m, o) {
        let (t, i) = choose|t: Oid, i: int|
            #![trigger m.trees[t][i]]
            m.trees.contains_key(t) && 0 <= i < m.trees[t].len() && m.trees[t][i].oid == o;
        m.trees[t][i].name
    } else {
        Seq::empty()
    }
}

/// Well-formedness of the modelled object store.
pub open spec fn repo_wf(m: RepoView) -> bool {
    // Entries point strictly downward and their kind names an object that
    // the model holds; tree and blob identifiers are disjoint.
    &&& (forall|t: Oid, i: int|
        #![trigger m.trees[t][i]]
        m.trees.contains_key(t) && 0 <= i < m.trees[t].len() ==> {
            let e = m.trees[t][i];
            &&& e.oid < t
            &&& e.name.len() >= 1
            &&& (e.kind == EntryKind::Tree ==> m.trees.contains_key(e.oid))
            &&& (e.kind == EntryKind::Blob ==> m.blobs.contains_key(e.oid))
        })
    &&& (forall|o: Oid| m.trees.contains_key(o) ==> !m.blobs.contains_key(o))
    // Names inside one tree are distinct.
    &&& (forall|t: Oid, i: int, j: int|
        #![trigger m.trees[t][i], m.trees[t][j]]
        m.trees.contains_key(t) && 0 <= i < j < m.trees[t].len() ==> m.trees[t][i].name
            != m.trees[t][j].name)
    // One object carries one name wherever it appears.
    &&& (forall|t1: Oid, i1: int, t2: Oid, i2: int|
        #![trigger m.trees[t1][i1], m.trees[t2][i2]]
        m.trees.contains_key(t1) && 0 <= i1 < m.trees[t1].len() && m.trees.contains_key(t2) && 0
            <= i2 < m.trees[t2].len() && m.trees[t1][i1].oid == m.trees[t2][i2].oid
            ==> m.trees[t1][i1].name == m.trees[t2][i2].name)
    // A commit's root tree is held by the model and never appears as an
    // entry.
    &&& (forall|c: Oid|
        #[trigger] m.commits.contains_key(c) ==> m.trees.contains_key(m.commits[c].tree)
            && !has_entry(m, m.commits[c].tree))
    // Trees stay under the weight ceiling.
    &&& (forall|t: Oid| #[trigger] m.trees.contains_key(t) ==> weight(m, t) <= MAX_TREE_WEIGHT)
    // Declared POM paths are clean.
    &&& (forall|o: Oid|
        #[trigger] m.blobs.contains_key(o) ==> paths_clean(m.blobs[o].sub_modules) && paths_clean(
            m.blobs[o].main_dirs,
        ) && paths_clean(m.blobs[o].test_dirs))
}

/// In a well-formed model, an entry's object is named by that entry.
pub proof fn lemma_name_of_entry(m: RepoView, t: Oid, i: int)
    requires
        repo_wf(m),
        m.trees.contains_key(t),
        0 <= i < m.trees[t].len(),
    ensures
        name_of(m, m.trees[t][i].oid) == m.trees[t][i].name,
        has_entry(m, m.trees[t][i].oid),
{
    let o = m.trees[t][i].oid;
    assert(has_entry(m, o));
    let (t2, i2) = choose|t2: Oid, i2: int|
        #![trigger m.trees[t2][i2]]
        m.trees.contains_key(t2) && 0 <= i2 < m.trees[t2].len() && m.trees[t2][i2].oid == o;
    assert(m.trees[t2][i2].name == m.trees[t][i].name);
}

/// In a well-formed model, a commit's root tree is nameless.
pub proof fn lemma_root_nameless(m: RepoView, c: Oid)
    requires
        repo_wf(m),
        m.commits.contains_key(c),
    ensures
        name_of(m, m.commits[c].tree) == Seq::<u8>::empty(),
{
    assert(!has_entry(m, m.commits[c].tree));
}

impl RepoModel {
    /// Maps well formed and the modelled store well formed.
    pub open spec fn wf(&self) -> bool {
        &&& self.trees.wf()
        &&& self.blobs.wf()
        &&& self.commits.wf()
        &&& repo_wf(self@)
    }

    /// An empty model.
    pub fn new() -> (r: RepoModel)
        ensures
            r.wf(),
            r@.trees == Map::<Oid, Seq<TreeEntryView>>::empty(),
            r@.blobs == Map::<Oid, BlobRecordView>::empty(),
            r@.commits == Map::<Oid, CommitRecordView>::empty(),
    {
        let r = RepoModel { trees: OidMap::new(), blobs: OidMap::new(), commits: OidMap::new() };
        proof {
            assert forall|t: Oid, i: int|
                #![trigger r@.trees[t][i]]
                r@.trees.contains_key(t) && 0 <= i < r@.trees[t].len() implies false by {}
        }
        r
    }
}

} // verus!
