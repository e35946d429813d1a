//! Partial semantic analysis of a subtree: the set of unresolved reference
//! atoms and the set of declaration atoms it carries.
//!
//! Analyses are merged at every directory boundary and resolved at module
//! boundaries (or when the reference count stays under the budget):
//! resolution removes exactly those references that a declaration of the
//! same subtree satisfies. The reference count also selects the width tier
//! of the bloom filter stored inline in the folded directory node.

use vstd::prelude::*;
use crate::nodes::BloomSize;
use crate::nodes::bloom_size_for;

verus! {

broadcast use vstd::seq_lib::lemma_seq_contains_after_push;

/// Whether a vector of atoms holds `x`.
pub fn contains_u64(v: &Vec<u64>, x: u64) -> (r: bool)
    ensures
        r == v@.contains(x),
{
    let mut i: usize = 0;
    while i < v.len()
        invariant
            i <= v@.len(),
            forall|j: int| 0 <= j < i ==> v@[j] != x,
        decreases v@.len() - i,
    {
        if v[i] == x {
            return true;
        }
        i = i + 1;
    }
    false
}

/// Copy of a vector of atoms.
pub fn clone_u64s(v: &Vec<u64>) -> (r: Vec<u64>)
    ensures
        r@ == v@,
{
    let mut r: Vec<u64> = Vec::new();
    let mut i: usize = 0;
    while i < v.len()
        invariant
            i <= v@.len(),
            r@ == v@.subrange(0, i as int),
        decreases v@.len() - i,
    {
        r.push(v[i]);
        proof {
            assert(v@.subrange(0, i + 1) =~= v@.subrange(0, i as int).push(v@[i as int]));
        }
        i = i + 1;
    }
    proof {
        assert(v@.subrange(0, v@.len() as int) =~= v@);
    }
    r
}

/// Mathematical image of a partial analysis.
pub struct AnaView {
    pub refs: Seq<u64>,
    pub decls: Seq<u64>,
}

/// A set of reference atoms and a set of declaration atoms.
pub struct PartialAnalysis {
    refs: Vec<u64>,
    decls: Vec<u64>,
}

impl View for PartialAnalysis {
    type V = AnaView;

    closed spec fn view(&self) -> AnaView {
        AnaView { refs: self.refs@, decls: self.decls@ }
    }
}

impl Clone for PartialAnalysis {
    /// The copy carries the same two sets.
    fn clone(&self) -> (r: Self)
        ensures
            r@ == self@,
    {
        PartialAnalysis { refs: clone_u64s(&self.refs), decls: clone_u64s(&self.decls) }
    }
}

/// Both lists of an analysis are sets: no atom occurs twice.
pub open spec fn ana_wf(a: AnaView) -> bool {
    &&& (forall|i: int, j: int| 0 <= i < j < a.refs.len() ==> a.refs[i] != a.refs[j])
    &&& (forall|i: int, j: int| 0 <= i < j < a.decls.len() ==> a.decls[i] != a.decls[j])
}

/// Both sets of `r` are the unions of the corresponding sets of `a` and
/// `b`.
pub open spec fn merged_sets(r: AnaView, a: AnaView, b: AnaView) -> bool {
    &&& (forall|x: u64| r.refs.contains(x) <==> a.refs.contains(x) || b.refs.contains(x))
    &&& (forall|x: u64| r.decls.contains(x) <==> a.decls.contains(x) || b.decls.contains(x))
}

/// `r` holds exactly the atoms of the two lists, as sets.
pub open spec fn sets_from(r: AnaView, refs: Seq<u64>, decls: Seq<u64>) -> bool {
    &&& (forall|x: u64| r.refs.contains(x) <==> refs.contains(x))
    &&& (forall|x: u64| r.decls.contains(x) <==> decls.contains(x))
}

/// `r` is `a` after resolution: the references kept are exactly those that
/// no declaration of `a` satisfies; the declarations are kept whole.
pub open spec fn resolved_from(r: AnaView, a: AnaView) -> bool {
    &&& (forall|x: u64| r.refs.contains(x) <==> a.refs.contains(x) && !a.decls.contains(x))
    &&& r.decls == a.decls
}

impl PartialAnalysis {
    /// Both lists are sets: no atom occurs twice.
    pub open spec fn wf(&self) -> bool {
        ana_wf(self@)
    }

    /// An empty analysis.
    pub fn new() -> (r: PartialAnalysis)
        ensures
            r.wf(),
            r@.refs.len() == 0,
            r@.decls.len() == 0,
    {
        PartialAnalysis { refs: Vec::new(), decls: Vec::new() }
    }

    /// An analysis holding the given atoms, duplicates dropped.
    pub fn from_lists(refs: &Vec<u64>, decls: &Vec<u64>) -> (r: PartialAnalysis)
        ensures
            r.wf(),
            sets_from(r@, refs@, decls@),
            r@.refs.len() <= refs@.len(),
            r@.decls.len() <= decls@.len(),
    {
        let mut r = PartialAnalysis { refs: Vec::new(), decls: Vec::new() };
        let mut i: usize = 0;
        while i < refs.len()
            invariant
                i <= refs@.len(),
                r@.decls.len() == 0,
                r.wf(),
                r@.refs.len() <= i,
                forall|x: u64| r@.refs.contains(x) ==> refs@.contains(x),
                forall|j: int| 0 <= j < i ==> r@.refs.contains(#[trigger] refs@[j]),
            decreases refs@.len() - i,
        {
            let x = refs[i];
            if !contains_u64(&r.refs, x) {
                r.refs.push(x);
            }
            i = i + 1;
        }
        let mut k: usize = 0;
        while k < decls.len()
            invariant
                k <= decls@.len(),
                r.wf(),
                r@.decls.len() <= k,
                forall|x: u64| r@.refs.contains(x) <==> refs@.contains(x),
                forall|x: u64| r@.decls.contains(x) ==> decls@.contains(x),
                forall|j: int| 0 <= j < k ==> r@.decls.contains(#[trigger] decls@[j]),
                r@.refs.len() <= refs@.len(),
            decreases decls@.len() - k,
        {
            let x = decls[k];
            if !contains_u64(&r.decls, x) {
                r.decls.push(x);
            }
            k = k + 1;
        }
        proof {
            assert(forall|x: u64| refs@.contains(x) ==> r@.refs.contains(x));
            assert(forall|x: u64| decls@.contains(x) ==> r@.decls.contains(x));
            assert(sets_from(r@, refs@, decls@));
        }
        r
    }

    /// Number of unresolved references.
    pub fn refs_count(&self) -> (r: usize)
        ensures
            r == self@.refs.len(),
    {
        self.refs.len()
    }

    /// The unresolved references.
    pub fn refs_list(&self) -> (r: &Vec<u64>)
        ensures
            r@ == self@.refs,
    {
        &self.refs
    }

    /// The declarations.
    pub fn decls_list(&self) -> (r: &Vec<u64>)
        ensures
            r@ == self@.decls,
    {
        &self.decls
    }

    /// Merge another analysis in: both sets become unions.
    pub fn merge_from(&mut self, o: &PartialAnalysis)
        requires
            old(self).wf(),
            o.wf(),
        ensures
            final(self).wf(),
            merged_sets(final(self)@, old(self)@, o@),
            final(self)@.refs.len() <= old(self)@.refs.len() + o@.refs.len(),
            final(self)@.decls.len() <= old(self)@.decls.len() + o@.decls.len(),
    {
        let mut i: usize = 0;
        while i < o.refs.len()
            invariant
                i <= o@.refs.len(),
                self.wf(),
                o.wf(),
                self@.decls == old(self)@.decls,
                self@.refs.len() <= old(self)@.refs.len() + i,
                forall|x: u64| old(self)@.refs.contains(x) ==> self@.refs.contains(x),
                forall|j: int| 0 <= j < i ==> self@.refs.contains(#[trigger] o@.refs[j]),
                forall|x: u64|
                    self@.refs.contains(x) ==> old(self)@.refs.contains(x) || o@.refs.contains(x),
            decreases o@.refs.len() - i,
        {
            let x = o.refs[i];
            if !contains_u64(&self.refs, x) {
                self.refs.push(x);
            }
            i = i + 1;
        }
        proof {
            assert forall|x: u64|
                self@.refs.contains(x) <==> old(self)@.refs.contains(x) || o@.refs.contains(
                    x,
                ) by {
                if o@.refs.contains(x) {
                    let j = choose|j: int| 0 <= j < o@.refs.len() && o@.refs[j] == x;
                    assert(self@.refs.contains(o@.refs[j]));
                }
            }
        }
        let ghost merged_refs = self@.refs;
        let mut k: usize = 0;
        while k < o.decls.len()
            invariant
                k <= o@.decls.len(),
                self.wf(),
                o.wf(),
                self@.refs == merged_refs,
                merged_refs.len() <= old(self)@.refs.len() + o@.refs.len(),
                forall|x: u64|
                    merged_refs.contains(x) <==> old(self)@.refs.contains(x) || o@.refs.contains(
                        x,
                    ),
                self@.decls.len() <= old(self)@.decls.len() + k,
                forall|x: u64| old(self)@.decls.contains(x) ==> self@.decls.contains(x),
                forall|j: int| 0 <= j < k ==> self@.decls.contains(#[trigger] o@.decls[j]),
                forall|x: u64|
                    self@.decls.contains(x) ==> old(self)@.decls.contains(x) || o@.decls.contains(
                        x,
                    ),
            decreases o@.decls.len() - k,
        {
            let x = o.decls[k];
            if !contains_u64(&self.decls, x) {
                self.decls.push(x);
            }
            k = k + 1;
        }
        proof {
            assert forall|x: u64|
                self@.decls.contains(x) <==> old(self)@.decls.contains(x) || o@.decls.contains(
                    x,
                ) by {
                if o@.decls.contains(x) {
                    let j = choose|j: int| 0 <= j < o@.decls.len() && o@.decls[j] == x;
                    assert(self@.decls.contains(o@.decls[j]));
                }
            }
            assert(merged_sets(self@, old(self)@, o@));
        }
    }

    /// Resolve: drop every reference that a declaration of this analysis
    /// satisfies; the declarations are kept.
    pub fn resolve(self) -> (r: PartialAnalysis)
        requires
            self.wf(),
        ensures
            r.wf(),
            resolved_from(r@, self@),
            r@.refs.len() <= self@.refs.len(),
    {
        let ghost orig = self@;
        let PartialAnalysis { refs, decls } = self;
        let mut kept: Vec<u64> = Vec::new();
        let mut i: usize = 0;
        while i < refs.len()
            invariant
                i <= refs@.len(),
                refs@ == orig.refs,
                decls@ == orig.decls,
                forall|p: int, q: int| 0 <= p < q < refs@.len() ==> refs@[p] != refs@[q],
                kept@.len() <= i,
                forall|x: u64| kept@.contains(x) ==> refs@.contains(x) && !decls@.contains(x),
                forall|j: int|
                    0 <= j < i && !decls@.contains(#[trigger] refs@[j]) ==> kept@.contains(
                        refs@[j],
                    ),
                forall|x: u64| kept@.contains(x) ==> exists|j: int| 0 <= j < i && refs@[j] == x,
                forall|p: int, q: int| 0 <= p < q < kept@.len() ==> kept@[p] != kept@[q],
            decreases refs@.len() - i,
        {
            let x = refs[i];
            if !contains_u64(&decls, x) {
                proof {
                    if kept@.contains(x) {
                        let j = choose|j: int| 0 <= j < i && refs@[j] == x;
                        assert(refs@[j] == refs@[i as int]);
                        assert(false);
                    }
                }
                kept.push(x);
            }
            i = i + 1;
        }
        let r = PartialAnalysis { refs: kept, decls };
        proof {
            assert forall|x: u64|
                r@.refs.contains(x) <==> orig.refs.contains(x) && !orig.decls.contains(x) by {
                if orig.refs.contains(x) && !orig.decls.contains(x) {
                    let j = choose|j: int| 0 <= j < orig.refs.len() && orig.refs[j] == x;
                    assert(kept@.contains(orig.refs[j]));
                }
            }
            assert(resolved_from(r@, orig));
        }
        r
    }
}

/// Executable tier selection, exact against `bloom_size_for`.
pub fn bloom_size(refs: usize, skipped: bool) -> (r: BloomSize)
    ensures
        r == bloom_size_for(refs as int, skipped),
{
    if skipped || refs > 2048 {
        BloomSize::Much
    } else if refs > 512 {
        BloomSize::B2048
    } else if refs > 256 {
        BloomSize::B1024
    } else if refs > 150 {
        BloomSize::B512
    } else if refs > 100 {
        BloomSize::B256
    } else if refs > 30 {
        BloomSize::B128
    } else if refs > 15 {
        BloomSize::B64
    } else if refs > 8 {
        BloomSize::B32
    } else if refs > 0 {
        BloomSize::B16
    } else {
        BloomSize::NoFilter
    }
}

/// A skipped analysis selects the `Much` tier whatever its reference count.
pub proof fn lemma_skipped_always_much(refs: int)
    ensures
        bloom_size_for(refs, true) == BloomSize::Much,
{
}

} // verus!
