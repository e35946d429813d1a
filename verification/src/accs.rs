//! Directory accumulators: the per-frame state of the traversal.
//!
//! Three flavours share the same core: a plain directory inside a Java
//! source root (`JavaAcc`), a Maven module candidate carrying pending
//! module and source-root paths (`MavenModuleAcc`), and the analogue for
//! the C++ branch (`CppAcc`). Every push keeps the two child lists aligned
//! and the child names distinct; the Maven pending sets are consumed during
//! the traversal by `drain_filter_strip`.

use vstd::prelude::*;
use crate::MAX_REFS;
use crate::analysis::AnaView;
use crate::analysis::PartialAnalysis;
use crate::analysis::ana_wf;
use crate::analysis::merged_sets;
use crate::labels::LabelId;
use crate::labels::bytes_eq;
use crate::nodes::NodeId;
use crate::nodes::SubTreeMetrics;
use crate::records::Local;
use crate::records::MD;
use crate::records::POM;
use crate::records::RelPath;
use crate::records::clone_bytes;
use crate::records::paths_view;

verus! {

broadcast use vstd::seq_lib::lemma_seq_contains_after_push;

/// Clean components: every component non-empty and none of them the
/// parent-directory name.
pub open spec fn path_comps_clean(p: Seq<Seq<u8>>) -> bool {
    forall|i: int| 0 <= i < p.len() ==> (#[trigger] p[i]).len() >= 1 && p[i] != seq![0x2eu8, 0x2eu8]
}

/// A usable pending path: at least one component, all of them clean.
pub open spec fn path_clean(p: Seq<Seq<u8>>) -> bool {
    &&& p.len() >= 1
    &&& path_comps_clean(p)
}

/// Every path of the list is clean.
pub open spec fn paths_clean(ps: Seq<Seq<Seq<u8>>>) -> bool {
    forall|i: int| 0 <= i < ps.len() ==> path_clean(#[trigger] ps[i])
}

/// The paths held by an optional pending set.
pub open spec fn pending_view(o: Option<Vec<RelPath>>) -> Seq<Seq<Seq<u8>>> {
    match o {
        Some(v) => paths_view(v@),
        None => Seq::empty(),
    }
}

/// Whether a path's first component is `name`.
pub open spec fn first_matches(p: Seq<Seq<u8>>, name: Seq<u8>) -> bool {
    p.len() > 0 && p[0] == name
}

/// The paths kept by a drain: those whose first component is not `name`,
/// in order.
pub open spec fn kept_after_drain(ps: Seq<Seq<Seq<u8>>>, name: Seq<u8>) -> Seq<Seq<Seq<u8>>>
    decreases ps.len(),
{
    if ps.len() == 0 {
        Seq::empty()
    } else {
        let r = kept_after_drain(ps.drop_last(), name);
        if first_matches(ps.last(), name) {
            r
        } else {
            r.push(ps.last())
        }
    }
}

/// The paths a drain hands out: those whose first component is `name`,
/// stripped of it, in order.
pub open spec fn stripped_after_drain(ps: Seq<Seq<Seq<u8>>>, name: Seq<u8>) -> Seq<Seq<Seq<u8>>>
    decreases ps.len(),
{
    if ps.len() == 0 {
        Seq::empty()
    } else {
        let r = stripped_after_drain(ps.drop_last(), name);
        if first_matches(ps.last(), name) {
            r.push(ps.last().drop_first())
        } else {
            r
        }
    }
}

/// When no path of the list starts with `name`, a drain keeps everything
/// and hands out nothing.
pub proof fn lemma_drain_nothing(ps: Seq<Seq<Seq<u8>>>, name: Seq<u8>)
    requires
        forall|i: int| 0 <= i < ps.len() ==> !first_matches(#[trigger] ps[i], name),
    ensures
        kept_after_drain(ps, name) == ps,
        stripped_after_drain(ps, name) == Seq::<Seq<Seq<u8>>>::empty(),
    decreases ps.len(),
{
    if ps.len() > 0 {
        lemma_drain_nothing(ps.drop_last(), name);
        assert(kept_after_drain(ps, name) =~= ps);
    }
}

/// A clean path never starts with the parent-directory name, so draining
/// `".."` from clean pendings keeps everything and hands out nothing.
pub proof fn lemma_drain_parent_of_clean(ps: Seq<Seq<Seq<u8>>>)
    requires
        paths_clean(ps),
    ensures
        kept_after_drain(ps, seq![0x2eu8, 0x2eu8]) == ps,
        stripped_after_drain(ps, seq![0x2eu8, 0x2eu8]) == Seq::<Seq<Seq<u8>>>::empty(),
{
    assert forall|i: int| 0 <= i < ps.len() implies !first_matches(
        #[trigger] ps[i],
        seq![0x2eu8, 0x2eu8],
    ) by {
        assert(path_clean(ps[i]));
        assert(ps[i][0] != seq![0x2eu8, 0x2eu8]);
    }
    lemma_drain_nothing(ps, seq![0x2eu8, 0x2eu8]);
}

/// Draining clean paths keeps them clean, and every path handed out keeps
/// clean components.
pub proof fn lemma_drain_clean(ps: Seq<Seq<Seq<u8>>>, name: Seq<u8>)
    requires
        paths_clean(ps),
    ensures
        paths_clean(kept_after_drain(ps, name)),
        forall|i: int|
            0 <= i < stripped_after_drain(ps, name).len() ==> path_comps_clean(
                #[trigger] stripped_after_drain(ps, name)[i],
            ),
    decreases ps.len(),
{
    if ps.len() > 0 {
        assert(paths_clean(ps.drop_last()));
        lemma_drain_clean(ps.drop_last(), name);
        assert(path_clean(ps.last()));
        let s_all = stripped_after_drain(ps, name);
        let s_pre = stripped_after_drain(ps.drop_last(), name);
        if first_matches(ps.last(), name) {
            let t = ps.last().drop_first();
            assert forall|j: int| 0 <= j < t.len() implies (#[trigger] t[j]).len() >= 1 && t[j]
                != seq![0x2eu8, 0x2eu8] by {
                assert(t[j] == ps.last()[j + 1]);
            }
            assert(path_comps_clean(t));
        }
        assert forall|i: int| 0 <= i < s_all.len() implies path_comps_clean(
            #[trigger] s_all[i],
        ) by {
            if first_matches(ps.last(), name) {
                if i < s_all.len() - 1 {
                    assert(s_all[i] == s_pre[i]);
                } else {
                    assert(s_all[i] == ps.last().drop_first());
                }
            } else {
                assert(s_all[i] == s_pre[i]);
            }
        }
    }
}

/// The non-empty paths of a list, in order.
pub open spec fn nonempty_paths(ps: Seq<Seq<Seq<u8>>>) -> Seq<Seq<Seq<u8>>>
    decreases ps.len(),
{
    if ps.len() == 0 {
        Seq::empty()
    } else {
        let r = nonempty_paths(ps.drop_last());
        if ps.last().len() == 0 {
            r
        } else {
            r.push(ps.last())
        }
    }
}

/// Whether the list holds an empty path.
pub open spec fn has_empty_path(ps: Seq<Seq<Seq<u8>>>) -> bool {
    exists|i: int| 0 <= i < ps.len() && (#[trigger] ps[i]).len() == 0
}

/// Paths with clean components that are non-empty are clean.
pub proof fn lemma_nonempty_clean(ps: Seq<Seq<Seq<u8>>>)
    requires
        forall|i: int| 0 <= i < ps.len() ==> path_comps_clean(#[trigger] ps[i]),
    ensures
        paths_clean(nonempty_paths(ps)),
    decreases ps.len(),
{
    if ps.len() > 0 {
        lemma_nonempty_clean(ps.drop_last());
        let r = nonempty_paths(ps);
        assert forall|i: int| 0 <= i < r.len() implies path_clean(#[trigger] r[i]) by {
            if ps.last().len() != 0 && i == r.len() - 1 {
                assert(r[i] == ps.last());
            }
        }
    }
}

/// Separate a list of paths into its non-empty ones and whether an empty
/// one was present: an empty pending path means the current directory
/// itself fills the pending role.
pub fn split_empty_paths(v: Vec<RelPath>) -> (r: (Vec<RelPath>, bool))
    ensures
        paths_view(r.0@) == nonempty_paths(paths_view(v@)),
        r.1 == has_empty_path(paths_view(v@)),
{
    let ghost ps = paths_view(v@);
    let mut kept: Vec<RelPath> = Vec::new();
    let mut found: bool = false;
    let mut i: usize = 0;
    while i < v.len()
        invariant
            i <= v@.len(),
            ps == paths_view(v@),
            paths_view(kept@) == nonempty_paths(ps.subrange(0, i as int)),
            found == has_empty_path(ps.subrange(0, i as int)),
        decreases v@.len() - i,
    {
        proof {
            assert(ps.subrange(0, i + 1).drop_last() =~= ps.subrange(0, i as int));
            assert(ps.subrange(0, i + 1).last() == ps[i as int]);
            assert(ps[i as int] == v@[i as int]@);
        }
        if v[i].comps.len() == 0 {
            found = true;
            proof {
                assert(has_empty_path(ps.subrange(0, i + 1)));
                assert(paths_view(kept@) =~= nonempty_paths(ps.subrange(0, i + 1)));
            }
        } else {
            kept.push(v[i].clone());
            proof {
                assert(paths_view(kept@) =~= nonempty_paths(ps.subrange(0, i + 1)));
                assert forall|k: int|
                    0 <= k < ps.subrange(0, i + 1).len() && (#[trigger] ps.subrange(0, i + 1)[k]).len()
                        == 0 implies 0 <= k < ps.subrange(0, i as int).len() && ps.subrange(
                    0,
                    i as int,
                )[k].len() == 0 by {
                    assert(ps.subrange(0, i + 1)[k] == ps[k]);
                }
            }
        }
        i = i + 1;
    }
    proof {
        assert(ps.subrange(0, ps.len() as int) =~= ps);
    }
    (kept, found)
}

/// Copy of a path's tail, its first component dropped.
pub fn strip_first(p: &RelPath) -> (r: RelPath)
    requires
        p@.len() >= 1,
    ensures
        r@ == p@.drop_first(),
{
    let mut comps: Vec<Vec<u8>> = Vec::new();
    let mut i: usize = 1;
    while i < p.comps.len()
        invariant
            1 <= i <= p.comps@.len(),
            comps@.len() == i - 1,
            forall|j: int| 0 <= j < i - 1 ==> comps@[j]@ == p.comps@[j + 1]@,
        decreases p.comps@.len() - i,
    {
        comps.push(clone_bytes(&p.comps[i]));
        i = i + 1;
    }
    let r = RelPath { comps };
    proof {
        assert(r@ =~= p@.drop_first());
    }
    r
}

/// Remove from the pending set every path whose first component is `name`
/// and return them with that component stripped, in order.
pub fn drain_filter_strip(v: &mut Option<Vec<RelPath>>, name: &[u8]) -> (r: Vec<RelPath>)
    ensures
        pending_view(*final(v)) == kept_after_drain(pending_view(*old(v)), name@),
        paths_view(r@) == stripped_after_drain(pending_view(*old(v)), name@),
        *old(v) is None ==> (*final(v) is None),
        *old(v) is Some ==> (*final(v) is Some),
{
    match v {
        None => {
            let r: Vec<RelPath> = Vec::new();
            proof {
                assert(paths_view(r@) =~= stripped_after_drain(
                    pending_view(*old(v)),
                    name@,
                ));
            }
            r
        },
        Some(list) => {
            let ghost ps = pending_view(*old(v));
            let mut kept: Vec<RelPath> = Vec::new();
            let mut out: Vec<RelPath> = Vec::new();
            let mut i: usize = 0;
            while i < list.len()
                invariant
                    i <= list@.len(),
                    ps == paths_view(list@),
                    paths_view(kept@) == kept_after_drain(ps.subrange(0, i as int), name@),
                    paths_view(out@) == stripped_after_drain(ps.subrange(0, i as int), name@),
                decreases list@.len() - i,
            {
                proof {
                    assert(ps.subrange(0, i + 1).drop_last() =~= ps.subrange(0, i as int));
                    assert(ps.subrange(0, i + 1).last() == ps[i as int]);
                    assert(ps[i as int] == list@[i as int]@);
                }
                let p = &list[i];
                if p.comps.len() > 0 && bytes_eq(p.comps[0].as_slice(), name) {
                    proof {
                        assert(p@[0] == p.comps@[0]@);
                        assert(first_matches(ps[i as int], name@));
                    }
                    out.push(strip_first(p));
                    proof {
                        assert(paths_view(out@) =~= stripped_after_drain(
                            ps.subrange(0, i + 1),
                            name@,
                        ));
                        assert(paths_view(kept@) =~= kept_after_drain(
                            ps.subrange(0, i + 1),
                            name@,
                        ));
                    }
                } else {
                    proof {
                        if p.comps.len() > 0 {
                            assert(p@[0] == p.comps@[0]@);
                        }
                        assert(!first_matches(ps[i as int], name@));
                    }
                    kept.push(p.clone());
                    proof {
                        assert(paths_view(kept@) =~= kept_after_drain(
                            ps.subrange(0, i + 1),
                            name@,
                        ));
                        assert(paths_view(out@) =~= stripped_after_drain(
                            ps.subrange(0, i + 1),
                            name@,
                        ));
                    }
                }
                i = i + 1;
            }
            proof {
                assert(ps.subrange(0, ps.len() as int) =~= ps);
            }
            *list = kept;
            out
        },
    }
}

/// A child analysis whose reference count has reached the budget.
pub open spec fn opt_refs_at_budget(ana: Option<AnaView>) -> bool {
    match ana {
        Some(a) => a.refs.len() >= MAX_REFS,
        None => false,
    }
}

/// Appending a fresh name keeps a name list distinct.
pub proof fn lemma_distinct_push(names: Seq<LabelId>, name: LabelId)
    requires
        forall|i: int, j: int| 0 <= i < j < names.len() ==> names[i] != names[j],
        !names.contains(name),
    ensures
        forall|i: int, j: int|
            0 <= i < j < names.push(name).len() ==> names.push(name)[i] != names.push(name)[j],
{
    let t = names.push(name);
    assert forall|i: int, j: int| 0 <= i < j < t.len() implies t[i] != t[j] by {
        if j == t.len() - 1 {
            assert(t[i] == names[i]);
            assert(names.contains(names[i]));
        }
    }
}

/// Accumulator for a plain directory inside a Java source root.
pub struct JavaAcc {
    pub name: Vec<u8>,
    pub children: Vec<NodeId>,
    pub children_names: Vec<LabelId>,
    pub metrics: SubTreeMetrics,
    pub ana: PartialAnalysis,
    pub skiped_ana: bool,
}

impl JavaAcc {
    /// Child lists aligned, names distinct, analysis a set; a skipped
    /// analysis implies at least one pushed child.
    pub open spec fn wf(&self) -> bool {
        &&& self.children@.len() == self.children_names@.len()
        &&& (forall|i: int, j: int|
            0 <= i < j < self.children_names@.len() ==> self.children_names@[i]
                != self.children_names@[j])
        &&& ana_wf(self.ana@)
        &&& self.metrics.height <= self.metrics.size
        &&& (self.skiped_ana ==> self.children@.len() >= 1)
    }

    /// A fresh accumulator for the directory called `name`.
    pub fn new(name: Vec<u8>) -> (r: JavaAcc)
        ensures
            r.wf(),
            r.name@ == name@,
            r.children@.len() == 0,
            r.children_names@.len() == 0,
            r.metrics == (SubTreeMetrics {
                size: 0u32,
                height: 0u32,
                hashs: crate::nodes::SyntaxNodeHashs { structt: 0u32, label: 0u32, syntax: 0u32 },
            }),
            r.ana@.refs.len() == 0,
            r.ana@.decls.len() == 0,
            r.skiped_ana == false,
    {
        JavaAcc {
            name,
            children: Vec::new(),
            children_names: Vec::new(),
            metrics: SubTreeMetrics::zero(),
            ana: PartialAnalysis::new(),
            skiped_ana: false,
        }
    }

    /// Attach a parsed file.
    pub fn push(&mut self, name: LabelId, full_node: Local)
        requires
            old(self).wf(),
            !old(self).children_names@.contains(name),
            old(self).metrics.size + full_node.metrics.size <= u32::MAX,
            full_node.metrics.height <= full_node.metrics.size,
            match full_node@.ana {
                Some(a) => ana_wf(a),
                None => true,
            },
        ensures
            final(self).wf(),
            final(self).name@ == old(self).name@,
            final(self).children@ == old(self).children@.push(full_node.compressed_node),
            final(self).children_names@ == old(self).children_names@.push(name),
            final(self).metrics == old(self).metrics.acc_spec(full_node.metrics),
            final(self).skiped_ana == (old(self).skiped_ana || opt_refs_at_budget(
                full_node@.ana,
            )),
            !final(self).skiped_ana && full_node@.ana is Some ==> merged_sets(
                final(self).ana@,
                old(self).ana@,
                full_node@.ana.unwrap(),
            ),
            (final(self).skiped_ana || full_node@.ana is None) ==> final(self).ana@ == old(
                self,
            ).ana@,
    {
        self.push_dir(name, full_node, false);
    }

    /// Attach a folded child directory, propagating its skipped flag.
    pub fn push_dir(&mut self, name: LabelId, full_node: Local, skiped_ana: bool)
        requires
            old(self).wf(),
            !old(self).children_names@.contains(name),
            old(self).metrics.size + full_node.metrics.size <= u32::MAX,
            full_node.metrics.height <= full_node.metrics.size,
            match full_node@.ana {
                Some(a) => ana_wf(a),
                None => true,
            },
        ensures
            final(self).wf(),
            final(self).name@ == old(self).name@,
            final(self).children@ == old(self).children@.push(full_node.compressed_node),
            final(self).children_names@ == old(self).children_names@.push(name),
            final(self).metrics == old(self).metrics.acc_spec(full_node.metrics),
            final(self).skiped_ana == (old(self).skiped_ana || skiped_ana || opt_refs_at_budget(
                full_node@.ana,
            )),
            !final(self).skiped_ana && full_node@.ana is Some ==> merged_sets(
                final(self).ana@,
                old(self).ana@,
                full_node@.ana.unwrap(),
            ),
            (final(self).skiped_ana || full_node@.ana is None) ==> final(self).ana@ == old(
                self,
            ).ana@,
    {
        let at_budget = match &full_node.ana {
            Some(a) => a.refs_count() >= MAX_REFS,
            None => false,
        };
        let new_sk = self.skiped_ana || skiped_ana || at_budget;
        self.children.push(full_node.compressed_node);
        self.children_names.push(name);
        self.metrics.acc(&full_node.metrics);
        if !new_sk {
            match &full_node.ana {
                Some(a) => self.ana.merge_from(a),
                None => (),
            }
        }
        self.skiped_ana = new_sk;
        proof {
            lemma_distinct_push(old(self).children_names@, name);
        }
    }
}

/// Accumulator for a Maven module candidate, with the pending relative
/// paths where nested modules, main source roots and test source roots are
/// expected.
pub struct MavenModuleAcc {
    pub name: Vec<u8>,
    pub children: Vec<NodeId>,
    pub children_names: Vec<LabelId>,
    pub metrics: SubTreeMetrics,
    pub ana: PartialAnalysis,
    pub sub_modules: Option<Vec<RelPath>>,
    pub main_dirs: Option<Vec<RelPath>>,
    pub test_dirs: Option<Vec<RelPath>>,
}

impl MavenModuleAcc {
    /// Child lists aligned, names distinct, analysis a set, pendings clean.
    pub open spec fn wf(&self) -> bool {
        &&& self.children@.len() == self.children_names@.len()
        &&& (forall|i: int, j: int|
            0 <= i < j < self.children_names@.len() ==> self.children_names@[i]
                != self.children_names@[j])
        &&& ana_wf(self.ana@)
        &&& self.metrics.height <= self.metrics.size
        &&& paths_clean(pending_view(self.sub_modules))
        &&& paths_clean(pending_view(self.main_dirs))
        &&& paths_clean(pending_view(self.test_dirs))
    }

    /// A fresh accumulator with no pending paths.
    pub fn new(name: Vec<u8>) -> (r: MavenModuleAcc)
        ensures
            r.wf(),
            r.name@ == name@,
            r.children@.len() == 0,
            r.children_names@.len() == 0,
            r.metrics == (SubTreeMetrics {
                size: 0u32,
                height: 0u32,
                hashs: crate::nodes::SyntaxNodeHashs { structt: 0u32, label: 0u32, syntax: 0u32 },
            }),
            r.ana@.refs.len() == 0,
            r.ana@.decls.len() == 0,
            (r.sub_modules is None),
            (r.main_dirs is None),
            (r.test_dirs is None),
    {
        MavenModuleAcc {
            name,
            children: Vec::new(),
            children_names: Vec::new(),
            metrics: SubTreeMetrics::zero(),
            ana: PartialAnalysis::new(),
            sub_modules: None,
            main_dirs: None,
            test_dirs: None,
        }
    }

    /// A fresh accumulator seeded with pending paths inherited from an
    /// ancestor module.
    pub fn with_content(
        name: Vec<u8>,
        sub_modules: Vec<RelPath>,
        main_dirs: Vec<RelPath>,
        test_dirs: Vec<RelPath>,
    ) -> (r: MavenModuleAcc)
        requires
            paths_clean(paths_view(sub_modules@)),
            paths_clean(paths_view(main_dirs@)),
            paths_clean(paths_view(test_dirs@)),
        ensures
            r.wf(),
            r.name@ == name@,
            r.children@.len() == 0,
            r.children_names@.len() == 0,
            r.metrics == (SubTreeMetrics {
                size: 0u32,
                height: 0u32,
                hashs: crate::nodes::SyntaxNodeHashs { structt: 0u32, label: 0u32, syntax: 0u32 },
            }),
            r.ana@.refs.len() == 0,
            r.ana@.decls.len() == 0,
            pending_view(r.sub_modules) == paths_view(sub_modules@),
            pending_view(r.main_dirs) == paths_view(main_dirs@),
            pending_view(r.test_dirs) == paths_view(test_dirs@),
    {
        MavenModuleAcc {
            name,
            children: Vec::new(),
            children_names: Vec::new(),
            metrics: SubTreeMetrics::zero(),
            ana: PartialAnalysis::new(),
            sub_modules: Some(sub_modules),
            main_dirs: Some(main_dirs),
            test_dirs: Some(test_dirs),
        }
    }

    /// Attach a folded nested module.
    pub fn push_submodule(&mut self, name: LabelId, full_node: (NodeId, MD))
        requires
            old(self).wf(),
            !old(self).children_names@.contains(name),
            old(self).metrics.size + full_node.1.metrics.size <= u32::MAX,
            full_node.1.metrics.height <= full_node.1.metrics.size,
            ana_wf(full_node.1@.ana),
        ensures
            final(self).wf(),
            final(self).name@ == old(self).name@,
            final(self).children@ == old(self).children@.push(full_node.0),
            final(self).children_names@ == old(self).children_names@.push(name),
            final(self).metrics == old(self).metrics.acc_spec(full_node.1.metrics),
            merged_sets(final(self).ana@, old(self).ana@, full_node.1@.ana),
            final(self).sub_modules == old(self).sub_modules,
            final(self).main_dirs == old(self).main_dirs,
            final(self).test_dirs == old(self).test_dirs,
    {
        self.children.push(full_node.0);
        self.children_names.push(name);
        self.metrics.acc(&full_node.1.metrics);
        self.ana.merge_from(&full_node.1.ana);
        proof {
            lemma_distinct_push(old(self).children_names@, name);
        }
    }

    /// Attach a folded main source root.
    pub fn push_source_directory(&mut self, name: LabelId, full_node: Local)
        requires
            old(self).wf(),
            !old(self).children_names@.contains(name),
            old(self).metrics.size + full_node.metrics.size <= u32::MAX,
            full_node.metrics.height <= full_node.metrics.size,
            match full_node@.ana {
                Some(a) => ana_wf(a),
                None => true,
            },
        ensures
            final(self).wf(),
            final(self).name@ == old(self).name@,
            final(self).children@ == old(self).children@.push(full_node.compressed_node),
            final(self).children_names@ == old(self).children_names@.push(name),
            final(self).metrics == old(self).metrics.acc_spec(full_node.metrics),
            full_node@.ana is Some ==> merged_sets(
                final(self).ana@,
                old(self).ana@,
                full_node@.ana.unwrap(),
            ),
            full_node@.ana is None ==> final(self).ana@ == old(self).ana@,
            final(self).sub_modules == old(self).sub_modules,
            final(self).main_dirs == old(self).main_dirs,
            final(self).test_dirs == old(self).test_dirs,
    {
        self.children.push(full_node.compressed_node);
        self.children_names.push(name);
        self.metrics.acc(&full_node.metrics);
        match &full_node.ana {
            Some(a) => self.ana.merge_from(a),
            None => (),
        }
        proof {
            lemma_distinct_push(old(self).children_names@, name);
        }
    }

    /// Attach a folded test source root.
    pub fn push_test_source_directory(&mut self, name: LabelId, full_node: Local)
        requires
            old(self).wf(),
            !old(self).children_names@.contains(name),
            old(self).metrics.size + full_node.metrics.size <= u32::MAX,
            full_node.metrics.height <= full_node.metrics.size,
            match full_node@.ana {
                Some(a) => ana_wf(a),
                None => true,
            },
        ensures
            final(self).wf(),
            final(self).name@ == old(self).name@,
            final(self).children@ == old(self).children@.push(full_node.compressed_node),
            final(self).children_names@ == old(self).children_names@.push(name),
            final(self).metrics == old(self).metrics.acc_spec(full_node.metrics),
            full_node@.ana is Some ==> merged_sets(
                final(self).ana@,
                old(self).ana@,
                full_node@.ana.unwrap(),
            ),
            full_node@.ana is None ==> final(self).ana@ == old(self).ana@,
            final(self).sub_modules == old(self).sub_modules,
            final(self).main_dirs == old(self).main_dirs,
            final(self).test_dirs == old(self).test_dirs,
    {
        self.push_source_directory(name, full_node);
    }

    /// Attach a parsed POM and adopt the paths it declares as pendings.
    pub fn push_pom(&mut self, name: LabelId, pom: POM)
        requires
            old(self).wf(),
            !old(self).children_names@.contains(name),
            old(self).metrics.size + pom.metrics.size <= u32::MAX,
            pom.metrics.height <= pom.metrics.size,
            ana_wf(pom@.ana),
            paths_clean(pom@.sub_modules),
            paths_clean(pom@.main_dirs),
            paths_clean(pom@.test_dirs),
        ensures
            final(self).wf(),
            final(self).name@ == old(self).name@,
            final(self).children@ == old(self).children@.push(pom.compressed_node),
            final(self).children_names@ == old(self).children_names@.push(name),
            final(self).metrics == old(self).metrics.acc_spec(pom.metrics),
            merged_sets(final(self).ana@, old(self).ana@, pom@.ana),
            pending_view(final(self).sub_modules) == pending_view(old(self).sub_modules)
                + pom@.sub_modules,
            pending_view(final(self).main_dirs) == pending_view(old(self).main_dirs)
                + pom@.main_dirs,
            pending_view(final(self).test_dirs) == pending_view(old(self).test_dirs)
                + pom@.test_dirs,
    {
        self.children.push(pom.compressed_node);
        self.children_names.push(name);
        self.metrics.acc(&pom.metrics);
        self.ana.merge_from(&pom.ana);
        add_pending(&mut self.sub_modules, pom.sub_modules);
        add_pending(&mut self.main_dirs, pom.main_dirs);
        add_pending(&mut self.test_dirs, pom.test_dirs);
        proof {
            lemma_distinct_push(old(self).children_names@, name);
        }
    }
}

/// Append declared paths to a pending set, creating it when absent.
fn add_pending(o: &mut Option<Vec<RelPath>>, ps: Vec<RelPath>)
    ensures
        pending_view(*final(o)) == pending_view(*old(o)) + paths_view(ps@),
        (*final(o) is Some),
{
    let ghost old_view = pending_view(*old(o));
    match o {
        None => {
            *o = Some(ps);
            proof {
                assert(pending_view(*o) =~= old_view + paths_view(ps@));
            }
        },
        Some(list) => {
            let mut i: usize = 0;
            let ghost base = list@;
            while i < ps.len()
                invariant
                    i <= ps@.len(),
                    list@.len() == base.len() + i,
                    forall|j: int| 0 <= j < base.len() ==> list@[j] == base[j],
                    forall|j: int| 0 <= j < i ==> list@[base.len() + j]@ == ps@[j]@,
                decreases ps@.len() - i,
            {
                list.push(ps[i].clone());
                i = i + 1;
            }
            proof {
                assert(paths_view(list@) =~= paths_view(base) + paths_view(ps@));
            }
        },
    }
}

/// Accumulator for a directory of the C++ branch. The skipped flag of a
/// pushed child is accepted but, unlike the Java accumulator, not carried
/// into the metrics or the analysis.
pub struct CppAcc {
    pub name: Vec<u8>,
    pub children: Vec<NodeId>,
    pub children_names: Vec<LabelId>,
    pub metrics: SubTreeMetrics,
}

impl CppAcc {
    /// Child lists aligned and names distinct.
    pub open spec fn wf(&self) -> bool {
        &&& self.children@.len() == self.children_names@.len()
        &&& (forall|i: int, j: int|
            0 <= i < j < self.children_names@.len() ==> self.children_names@[i]
                != self.children_names@[j])
        &&& self.metrics.height <= self.metrics.size
    }

    /// A fresh accumulator for the directory called `name`.
    pub fn new(name: Vec<u8>) -> (r: CppAcc)
        ensures
            r.wf(),
            r.name@ == name@,
            r.children@.len() == 0,
            r.children_names@.len() == 0,
            r.metrics == (SubTreeMetrics {
                size: 0u32,
                height: 0u32,
                hashs: crate::nodes::SyntaxNodeHashs { structt: 0u32, label: 0u32, syntax: 0u32 },
            }),
    {
        CppAcc {
            name,
            children: Vec::new(),
            children_names: Vec::new(),
            metrics: SubTreeMetrics::zero(),
        }
    }

    /// Attach a folded child subtree.
    pub fn push(&mut self, name: LabelId, full_node: Local, _skiped_ana: bool)
        requires
            old(self).wf(),
            !old(self).children_names@.contains(name),
            old(self).metrics.size + full_node.metrics.size <= u32::MAX,
            full_node.metrics.height <= full_node.metrics.size,
        ensures
            final(self).wf(),
            final(self).name@ == old(self).name@,
            final(self).children@ == old(self).children@.push(full_node.compressed_node),
            final(self).children_names@ == old(self).children_names@.push(name),
            final(self).metrics == old(self).metrics.acc_spec(full_node.metrics),
    {
        self.children.push(full_node.compressed_node);
        self.children_names.push(name);
        self.metrics.acc(&full_node.metrics);
        proof {
            lemma_distinct_push(old(self).children_names@, name);
        }
    }
}

} // verus!
