//! The witness array: an assignment of field elements to witness indices,
//! kept as the ordered list of writes the encoder performed.  Every index is
//! written at most once; an attempted second write is reported, never
//! silently overwritten.

use vstd::prelude::*;
use crate::field::FieldElement;

verus! {

/// Some write in `s` targets index `k`.
pub open spec fn contains_key(s: Seq<(nat, nat)>, k: nat) -> bool {
    exists|i: int| 0 <= i < s.len() && (#[trigger] s[i]).0 == k
}

/// All writes in `s` target pairwise different indices.
pub open spec fn distinct_keys(s: Seq<(nat, nat)>) -> bool {
    forall|i: int, j: int|
        0 <= i < j < s.len() ==> (#[trigger] s[i]).0 != (#[trigger] s[j]).0
}

/// Dropping writes keeps the indices pairwise different.
pub proof fn lemma_distinct_keys_prefix(a: Seq<(nat, nat)>, b: Seq<(nat, nat)>)
    requires
        distinct_keys(a + b),
    ensures
        distinct_keys(a),
{
    assert forall|i: int, j: int| 0 <= i < j < a.len() implies (#[trigger] a[i]).0 != (
    #[trigger] a[j]).0 by {
        assert((a + b)[i] == a[i]);
        assert((a + b)[j] == a[j]);
    }
}

/// The witness array.  Its view is the sequence of `(index, value)` writes,
/// in the order they were made.
pub struct WitnessMap {
    entries: Vec<(u32, FieldElement)>,
}

impl View for WitnessMap {
    type V = Seq<(nat, nat)>;

    closed spec fn view(&self) -> Seq<(nat, nat)> {
        self.entries@.map(|i: int, e: (u32, FieldElement)| (e.0 as nat, e.1.value()))
    }
}

impl WitnessMap {
    /// Every stored element is canonical and every index occurs once.
    pub closed spec fn wf(self) -> bool {
        &&& forall|i: int|
            0 <= i < self.entries@.len() ==> (#[trigger] self.entries@[i]).1.wf()
        &&& forall|i: int, j: int|
            0 <= i < j < self.entries@.len() ==> (#[trigger] self.entries@[i]).0 != (
            #[trigger] self.entries@[j]).0
    }

    /// A well-formed witness array targets pairwise different indices.
    pub proof fn lemma_wf_distinct(&self)
        requires
            self.wf(),
        ensures
            distinct_keys(self@),
    {
        assert forall|i: int, j: int| 0 <= i < j < self@.len() implies (#[trigger] self@[i]).0
            != (#[trigger] self@[j]).0 by {
            assert(self.entries@[i].0 != self.entries@[j].0);
        }
    }

    /// The empty witness array.
    pub fn new() -> (r: Self)
        ensures
            r.wf(),
            r@ =~= Seq::<(nat, nat)>::empty(),
    {
        WitnessMap { entries: Vec::new() }
    }

    pub fn len(&self) -> (r: usize)
        ensures
            r as nat == self@.len(),
    {
        self.entries.len()
    }

    /// The index targeted by the `i`-th write.
    pub fn index_at(&self, i: usize) -> (r: u32)
        requires
            i < self@.len(),
        ensures
            r as nat == self@[i as int].0,
    {
        self.entries[i].0
    }

    /// The element stored by the `i`-th write.
    pub fn element_at(&self, i: usize) -> (r: &FieldElement)
        requires
            i < self@.len(),
        ensures
            r.value() == self@[i as int].1,
            self.wf() ==> r.wf(),
    {
        &self.entries[i].1
    }

    /// Writes `element` at `index` if the index is still free; reports an
    /// attempted duplicate write without changing anything.
    pub fn insert(&mut self, index: u32, element: FieldElement) -> (fresh: bool)
        requires
            old(self).wf(),
            element.wf(),
        ensures
            final(self).wf(),
            fresh ==> final(self)@ == old(self)@.push((index as nat, element.value()))
                && !contains_key(old(self)@, index as nat),
            !fresh ==> *final(self) == *old(self) && contains_key(old(self)@, index as nat),
    {
        let n = self.entries.len();
        let mut i: usize = 0;
        while i < n
            invariant
                *self == *old(self),
                self.wf(),
                n == self.entries@.len(),
                i <= n,
                forall|j: int| 0 <= j < i ==> (#[trigger] self.entries@[j]).0 != index,
            decreases n - i,
        {
            if self.entries[i].0 == index {
                proof {
                    assert(self@[i as int].0 == index as nat);
                }
                return false;
            }
            i += 1;
        }
        proof {
            assert forall|j: int| 0 <= j < self@.len() implies (#[trigger] self@[j]).0
                != index as nat by {
                assert(self.entries@[j].0 != index);
            }
        }
        self.entries.push((index, element));
        proof {
            assert(self@ =~= old(self)@.push((index as nat, element.value())));
        }
        true
    }

    /// The element written at `index`, if any.
    pub fn get(&self, index: u32) -> (r: Option<&FieldElement>)
        ensures
            r is Some <==> contains_key(self@, index as nat),
            r matches Some(f) ==> contains_key(self@, index as nat)
                && exists|i: int|
                    0 <= i < self@.len() && self@[i] == (index as nat, f.value()),
            self.wf() ==> (r matches Some(f) ==> f.wf()),
    {
        let n = self.entries.len();
        let mut i: usize = 0;
        while i < n
            invariant
                n == self.entries@.len(),
                i <= n,
                forall|j: int| 0 <= j < i ==> (#[trigger] self.entries@[j]).0 != index,
            decreases n - i,
        {
            if self.entries[i].0 == index {
                proof {
                    assert(self@[i as int] == (index as nat, self.entries@[i as int].1.value()));
                }
                return Some(&self.entries[i].1);
            }
            i += 1;
        }
        proof {
            assert forall|j: int| 0 <= j < self@.len() implies (#[trigger] self@[j]).0
                != index as nat by {
                assert(self.entries@[j].0 != index);
            }
        }
        None
    }
}

} // verus!
