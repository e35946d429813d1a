//! Interning table mapping byte strings to small label identifiers.
//!
//! The table is bijective: two identical strings always map to the same
//! identifier, and an identifier always resolves back to the string it was
//! created for. There is no eviction.

use vstd::prelude::*;
use vstd::slice::slice_to_vec;

verus! {

/// Identifier of an interned label.
pub type LabelId = usize;

/// First position of `s` in `labels`; the length when `s` is absent.
pub open spec fn label_index(labels: Seq<Seq<u8>>, s: Seq<u8>) -> int
    decreases labels.len(),
{
    if labels.len() == 0 {
        0
    } else if labels[0] == s {
        0
    } else {
        1 + label_index(labels.drop_first(), s)
    }
}

/// Whether `s` is already interned in `labels`.
pub open spec fn has_label(labels: Seq<Seq<u8>>, s: Seq<u8>) -> bool {
    exists|i: int| 0 <= i < labels.len() && labels[i] == s
}

/// The store after interning `s`.
pub open spec fn intern_store(labels: Seq<Seq<u8>>, s: Seq<u8>) -> Seq<Seq<u8>> {
    if has_label(labels, s) {
        labels
    } else {
        labels.push(s)
    }
}

/// The identifier that interning `s` yields.
pub open spec fn intern_id(labels: Seq<Seq<u8>>, s: Seq<u8>) -> int {
    label_index(intern_store(labels, s), s)
}

/// `label_index` finds the first occurrence, or the length when absent.
pub proof fn lemma_label_index(labels: Seq<Seq<u8>>, s: Seq<u8>)
    ensures
        has_label(labels, s) ==> {
            let i = label_index(labels, s);
            &&& 0 <= i < labels.len()
            &&& labels[i] == s
            &&& forall|j: int| 0 <= j < i ==> labels[j] != s
        },
        !has_label(labels, s) ==> label_index(labels, s) == labels.len(),
    decreases labels.len(),
{
    if labels.len() == 0 {
    } else if labels[0] == s {
    } else {
        let dd = labels.drop_first();
        lemma_label_index(dd, s);
        assert(has_label(labels, s) ==> has_label(labels.drop_first(), s)) by {
            if has_label(labels, s) {
                let i = choose|i: int| 0 <= i < labels.len() && labels[i] == s;
                assert(labels.drop_first()[i - 1] == s);
            }
        }
        assert(has_label(labels.drop_first(), s) ==> has_label(labels, s)) by {
            if has_label(labels.drop_first(), s) {
                let i = choose|i: int|
                    0 <= i < labels.drop_first().len() && labels.drop_first()[i] == s;
                assert(labels[i + 1] == s);
            }
        }
        if has_label(labels, s) {
            let i = label_index(labels, s);
            assert(i == 1 + label_index(dd, s));
            assert(labels[i] == dd[i - 1]);
            assert forall|j: int| 0 <= j < i implies labels[j] != s by {
                if j > 0 {
                    assert(labels[j] == dd[j - 1]);
                }
            }
        }
    }
}

/// A label identifier round-trips: interning a string and resolving the
/// returned identifier yields the string back.
pub proof fn lemma_label_round_trip(labels: Seq<Seq<u8>>, s: Seq<u8>)
    ensures
        0 <= intern_id(labels, s) < intern_store(labels, s).len(),
        intern_store(labels, s)[intern_id(labels, s)] == s,
{
    let st = intern_store(labels, s);
    assert(has_label(st, s)) by {
        if has_label(labels, s) {
        } else {
            assert(st[labels.len() as int] == s);
        }
    }
    lemma_label_index(st, s);
}

/// Under distinct labels, any identifier resolving to `s` is the first
/// occurrence.
pub proof fn lemma_label_index_unique(labels: Seq<Seq<u8>>, lbl: int, s: Seq<u8>)
    requires
        forall|i: int, j: int| 0 <= i < j < labels.len() ==> labels[i] != labels[j],
        0 <= lbl < labels.len(),
        labels[lbl] == s,
    ensures
        has_label(labels, s),
        label_index(labels, s) == lbl,
{
    assert(has_label(labels, s));
    lemma_label_index(labels, s);
    let ix = label_index(labels, s);
    if ix < lbl {
        assert(labels[ix] != labels[lbl]);
    } else if lbl < ix {
        assert(labels[lbl] != s);
    }
}

/// A label's first occurrence survives growth of the store.
pub proof fn lemma_label_index_stable(l1: Seq<Seq<u8>>, l2: Seq<Seq<u8>>, s: Seq<u8>)
    requires
        l1.len() <= l2.len(),
        forall|i: int| 0 <= i < l1.len() ==> l2[i] == l1[i],
        has_label(l1, s),
    ensures
        has_label(l2, s),
        label_index(l2, s) == label_index(l1, s),
{
    lemma_label_index(l1, s);
    let ix = label_index(l1, s);
    assert(l2[ix] == s);
    assert(has_label(l2, s));
    lemma_label_index(l2, s);
    let ix2 = label_index(l2, s);
    if ix2 < ix {
        assert(l2[ix2] == l1[ix2]);
        assert(l1[ix2] != s);
    } else if ix < ix2 {
        assert(l2[ix] != s);
    }
}

/// Byte-wise equality of two byte strings.
pub fn bytes_eq(a: &[u8], b: &[u8]) -> (r: bool)
    ensures
        r == (a@ == b@),
{
    if a.len() != b.len() {
        return false;
    }
    let mut i: usize = 0;
    while i < a.len()
        invariant
            i <= a@.len(),
            a@.len() == b@.len(),
            forall|j: int| 0 <= j < i ==> a@[j] == b@[j],
        decreases a@.len() - i,
    {
        if a[i] != b[i] {
            return false;
        }
        i = i + 1;
    }
    proof {
        assert(a@ =~= b@);
    }
    true
}

/// The interning table.
pub struct LabelStore {
    labels: Vec<Vec<u8>>,
}

impl View for LabelStore {
    type V = Seq<Seq<u8>>;

    closed spec fn view(&self) -> Seq<Seq<u8>> {
        self.labels@.map_values(|v: Vec<u8>| v@)
    }
}

impl LabelStore {
    /// No string is interned twice.
    pub open spec fn wf(&self) -> bool {
        forall|i: int, j: int| 0 <= i < j < self@.len() ==> self@[i] != self@[j]
    }

    /// An empty store.
    pub fn new() -> (r: LabelStore)
        ensures
            r.wf(),
            r@ == Seq::<Seq<u8>>::empty(),
    {
        let r = LabelStore { labels: Vec::new() };
        proof {
            assert(r@ =~= Seq::<Seq<u8>>::empty());
        }
        r
    }

    /// Number of interned labels.
    pub fn len(&self) -> (r: usize)
        ensures
            r == self@.len(),
    {
        self.labels.len()
    }

    /// The identifier of an already interned string, if any.
    pub fn get(&self, s: &[u8]) -> (r: Option<LabelId>)
        requires
            self.wf(),
        ensures
            match r {
                Some(id) => id < self@.len() && self@[id as int] == s@ && id == label_index(
                    self@,
                    s@,
                ),
                None => !has_label(self@, s@),
            },
    {
        let mut i: usize = 0;
        while i < self.labels.len()
            invariant
                self.wf(),
                i <= self@.len(),
                self@.len() == self.labels@.len(),
                forall|j: int| 0 <= j < i ==> self@[j] != s@,
            decreases self@.len() - i,
        {
            if bytes_eq(self.labels[i].as_slice(), s) {
                proof {
                    assert(self@[i as int] == self.labels@[i as int]@);
                    assert(self@[i as int] == s@);
                    assert(has_label(self@, s@));
                    lemma_label_index(self@, s@);
                }
                return Some(i);
            }
            i = i + 1;
        }
        None
    }

    /// Intern a string: return its identifier, creating one on first sight.
    pub fn get_or_insert(&mut self, s: &[u8]) -> (r: LabelId)
        requires
            old(self).wf(),
        ensures
            final(self).wf(),
            final(self)@ == intern_store(old(self)@, s@),
            r as int == intern_id(old(self)@, s@),
            r < final(self)@.len(),
            final(self)@[r as int] == s@,
            old(self)@.len() <= final(self)@.len(),
            forall|j: int| 0 <= j < old(self)@.len() ==> final(self)@[j] == old(self)@[j],
            has_label(old(self)@, s@) ==> final(self)@ == old(self)@,
            !has_label(old(self)@, s@) ==> final(self)@ == old(self)@.push(s@) && r == old(
                self,
            )@.len(),
    {
        proof {
            lemma_label_round_trip(old(self)@, s@);
            lemma_label_index(old(self)@, s@);
        }
        match self.get(s) {
            Some(id) => {
                proof {
                    assert(has_label(self@, s@));
                }
                id
            },
            None => {
                let id = self.labels.len();
                let v = slice_to_vec(s);
                self.labels.push(v);
                proof {
                    assert(self@ =~= old(self)@.push(s@));
                    lemma_label_index(self@, s@);
                }
                id
            },
        }
    }

    /// Resolve an identifier back to its string.
    pub fn resolve(&self, id: LabelId) -> (r: &Vec<u8>)
        requires
            id < self@.len(),
    ensures
            r@ == self@[id as int],
    {
        &self.labels[id]
    }
}

} // verus!
