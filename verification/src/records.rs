//! The records exchanged between the traversal, the stores and the memo
//! tables: subtree handles (`Local`), subtree metadata (`MD`), parsed POM
//! records, relative paths and processed commits.

use vstd::prelude::*;
use vstd::slice::slice_to_vec;
use crate::analysis::AnaView;
use crate::analysis::PartialAnalysis;
use crate::nodes::NodeId;
use crate::nodes::SubTreeMetrics;

verus! {

/// Copy of a byte string.
pub fn clone_bytes(v: &Vec<u8>) -> (r: Vec<u8>)
    ensures
        r@ == v@,
{
    slice_to_vec(v.as_slice())
}

/// A relative path inside the repository, as its list of name components.
pub struct RelPath {
    pub comps: Vec<Vec<u8>>,
}

impl View for RelPath {
    type V = Seq<Seq<u8>>;

    open spec fn view(&self) -> Seq<Seq<u8>> {
        self.comps@.map_values(|c: Vec<u8>| c@)
    }
}

impl Clone for RelPath {
    /// The copy carries the same components.
    fn clone(&self) -> (r: Self)
        ensures
            r@ == self@,
    {
        let mut comps: Vec<Vec<u8>> = Vec::new();
        let mut i: usize = 0;
        while i < self.comps.len()
            invariant
                i <= self.comps@.len(),
                comps@.len() == i,
                forall|j: int| 0 <= j < i ==> comps@[j]@ == self.comps@[j]@,
            decreases self.comps@.len() - i,
        {
            comps.push(clone_bytes(&self.comps[i]));
            i = i + 1;
        }
        let r = RelPath { comps };
        proof {
            assert(r@ =~= self@);
        }
        r
    }
}

/// The view of a list of relative paths.
pub open spec fn paths_view(ps: Seq<RelPath>) -> Seq<Seq<Seq<u8>>> {
    ps.map_values(|p: RelPath| p@)
}

/// Copy of a list of relative paths.
pub fn clone_paths(v: &Vec<RelPath>) -> (r: Vec<RelPath>)
    ensures
        paths_view(r@) == paths_view(v@),
{
    let mut r: Vec<RelPath> = Vec::new();
    let mut i: usize = 0;
    while i < v.len()
        invariant
            i <= v@.len(),
            r@.len() == i,
            forall|j: int| 0 <= j < i ==> r@[j]@ == v@[j]@,
        decreases v@.len() - i,
    {
        r.push(v[i].clone());
        i = i + 1;
    }
    proof {
        assert(paths_view(r@) =~= paths_view(v@));
    }
    r
}

/// Mathematical image of a `Local`.
pub struct LocalView {
    pub compressed_node: NodeId,
    pub metrics: SubTreeMetrics,
    pub ana: Option<AnaView>,
}

/// Handle to a folded subtree: its node, its metrics and, when analysis was
/// not elided, its partial analysis.
pub struct Local {
    pub compressed_node: NodeId,
    pub metrics: SubTreeMetrics,
    pub ana: Option<PartialAnalysis>,
}

impl View for Local {
    type V = LocalView;

    open spec fn view(&self) -> LocalView {
        LocalView {
            compressed_node: self.compressed_node,
            metrics: self.metrics,
            ana: match self.ana {
                Some(a) => Some(a@),
                None => None,
            },
        }
    }
}

impl Clone for Local {
    /// The copy denotes the same subtree.
    fn clone(&self) -> (r: Self)
        ensures
            r@ == self@,
    {
        Local {
            compressed_node: self.compressed_node,
            metrics: self.metrics,
            ana: match &self.ana {
                Some(a) => Some(a.clone()),
                None => None,
            },
        }
    }
}

/// Mathematical image of a subtree's metadata.
pub struct MDView {
    pub metrics: SubTreeMetrics,
    pub ana: AnaView,
}

/// Metadata of a folded subtree: metrics and resolved partial analysis.
pub struct MD {
    pub metrics: SubTreeMetrics,
    pub ana: PartialAnalysis,
}

impl View for MD {
    type V = MDView;

    open spec fn view(&self) -> MDView {
        MDView { metrics: self.metrics, ana: self.ana@ }
    }
}

impl Clone for MD {
    /// The copy carries the same metadata.
    fn clone(&self) -> (r: Self)
        ensures
            r@ == self@,
    {
        MD { metrics: self.metrics, ana: self.ana.clone() }
    }
}

/// Mathematical image of a parsed POM record.
pub struct POMView {
    pub compressed_node: NodeId,
    pub metrics: SubTreeMetrics,
    pub ana: AnaView,
    pub sub_modules: Seq<Seq<Seq<u8>>>,
    pub main_dirs: Seq<Seq<Seq<u8>>>,
    pub test_dirs: Seq<Seq<Seq<u8>>>,
}

/// A parsed `pom.xml`: its node, metrics and analysis, and the relative
/// paths it declares for nested modules, main source roots and test source
/// roots.
pub struct POM {
    pub compressed_node: NodeId,
    pub metrics: SubTreeMetrics,
    pub ana: PartialAnalysis,
    pub sub_modules: Vec<RelPath>,
    pub main_dirs: Vec<RelPath>,
    pub test_dirs: Vec<RelPath>,
}

impl View for POM {
    type V = POMView;

    open spec fn view(&self) -> POMView {
        POMView {
            compressed_node: self.compressed_node,
            metrics: self.metrics,
            ana: self.ana@,
            sub_modules: paths_view(self.sub_modules@),
            main_dirs: paths_view(self.main_dirs@),
            test_dirs: paths_view(self.test_dirs@),
        }
    }
}

impl Clone for POM {
    /// The copy denotes the same parsed POM.
    fn clone(&self) -> (r: Self)
        ensures
            r@ == self@,
    {
        POM {
            compressed_node: self.compressed_node,
            metrics: self.metrics,
            ana: self.ana.clone(),
            sub_modules: clone_paths(&self.sub_modules),
            main_dirs: clone_paths(&self.main_dirs),
            test_dirs: clone_paths(&self.test_dirs),
        }
    }
}

/// Mathematical image of a processed commit.
pub struct CommitView {
    pub meta_data: MDView,
    pub parents: Seq<u64>,
    pub ast_root: NodeId,
}

/// A processed commit: the root of its folded tree, its parent commits and
/// the root's metadata.
pub struct Commit {
    pub meta_data: MD,
    pub parents: Vec<u64>,
    pub ast_root: NodeId,
}

impl View for Commit {
    type V = CommitView;

    open spec fn view(&self) -> CommitView {
        CommitView { meta_data: self.meta_data@, parents: self.parents@, ast_root: self.ast_root }
    }
}

impl Clone for Commit {
    /// The copy denotes the same processed commit.
    fn clone(&self) -> (r: Self)
        ensures
            r@ == self@,
    {
        Commit {
            meta_data: self.meta_data.clone(),
            parents: crate::analysis::clone_u64s(&self.parents),
            ast_root: self.ast_root,
        }
    }
}

} // verus!
