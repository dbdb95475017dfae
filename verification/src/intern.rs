//! The canonicalizing interner for structural base data: structurally equal
//! inputs always map to the same identity, and looking an identity up gives
//! back exactly the data interned under it. Interning only grows the store
//! and never fails.

use vstd::prelude::*;
use crate::ty::{BaseData, Ty, bd_eq, base_data_eq, wf_items, ty_rank};

verus! {

/// The backing store of canonical base data, addressed by identity.
pub struct TyInterner {
    items: Vec<BaseData>,
}

impl View for TyInterner {
    type V = Seq<BaseData>;

    closed spec fn view(&self) -> Seq<BaseData> {
        self.items@
    }
}

impl TyInterner {
    /// Well-formed: no two identities hold structurally equal data, and
    /// every entry references only strictly earlier entries.
    pub open spec fn wf(&self) -> bool {
        &&& forall|i: int, j: int|
            0 <= i < j < self@.len() ==> !bd_eq(#[trigger] self@[i], #[trigger] self@[j])
        &&& wf_items(self@)
    }

    /// An empty store.
    pub fn new() -> (r: TyInterner)
        ensures
            r.wf(),
            r@.len() == 0,
    {
        TyInterner { items: Vec::new() }
    }

    /// The number of identities handed out so far.
    pub fn len(&self) -> (r: usize)
        ensures
            r == self@.len(),
    {
        self.items.len()
    }

    /// Canonicalizes `data`: returns the identity already holding
    /// structurally equal data, or stores `data` under a fresh identity.
    /// The store only grows, so identities stay valid.
    #[verifier::loop_isolation(false)]
    pub fn intern(&mut self, data: BaseData) -> (r: usize)
        requires
            old(self).wf(),
            forall|j: int|
                0 <= j < data.generics@.len()
                    ==> #[trigger] ty_rank(data.generics@[j]) <= old(self)@.len(),
        ensures
            final(self).wf(),
            r < final(self)@.len(),
            bd_eq(final(self)@[r as int], data),
            old(self)@.len() <= final(self)@.len(),
            forall|i: int| 0 <= i < old(self)@.len() ==> final(self)@[i] == old(self)@[i],
            final(self)@.len() <= old(self)@.len() + 1,
            (exists|i: int| 0 <= i < old(self)@.len() && bd_eq(old(self)@[i], data))
                ==> final(self)@ == old(self)@,
    {
        let n = self.items.len();
        let mut i: usize = 0;
        while i < n
            invariant
                self@ == old(self)@,
                n == self.items@.len(),
                i <= n,
                forall|j: int| 0 <= j < i ==> !bd_eq(self.items@[j], data),
            decreases n - i,
        {
            if base_data_eq(&self.items[i], &data) {
                return i;
            }
            i = i + 1;
        }
        self.items.push(data);
        assert(bd_eq(self@[n as int], data));
        n
    }

    /// The exact inverse of `intern`: the data stored under `id`.
    pub fn lookup(&self, id: usize) -> (r: &BaseData)
        requires
            id < self@.len(),
        ensures
            *r == self@[id as int],
    {
        &self.items[id]
    }

    /// Canonicality: structurally equal base data never sits under two
    /// identities, so interning equal inputs always returns one identity.
    pub proof fn lemma_canonical(&self, i: int, j: int)
        requires
            self.wf(),
            0 <= i < self@.len(),
            0 <= j < self@.len(),
            bd_eq(self@[i], self@[j]),
        ensures
            i == j,
    {
    }
}

} // verus!
