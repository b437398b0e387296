//! Bundles: heterogeneous sets of component values.
//!
//! A bundle is what `spawn` and `insert` consume: for each component type,
//! its descriptor and the value moved into the world, kept strictly sorted
//! by type id so that the bundle's signature is canonical.

use vstd::prelude::*;

use crate::types::{ids_of, index_of, TypeInfo};

verus! {

/// The ids of a part list, in order.
pub open spec fn parts_ids(parts: Seq<(TypeInfo, u64)>) -> Seq<u64> {
    Seq::new(parts.len(), |i: int| parts[i].0.id)
}

/// A part list strictly sorted by type id.
pub open spec fn parts_sorted(parts: Seq<(TypeInfo, u64)>) -> bool {
    forall|i: int, j: int| 0 <= i < j < parts.len() ==> parts[i].0.id < parts[j].0.id
}

/// The component map a part list describes: type id to value.
pub open spec fn parts_map(parts: Seq<(TypeInfo, u64)>) -> Map<u64, u64> {
    Map::new(
        |t: u64| parts_ids(parts).contains(t),
        |t: u64| parts[index_of(parts_ids(parts), t)].1,
    )
}

/// A set of component values presentable to `spawn` or `insert`: one
/// descriptor and value per component type, sorted strictly by type id.
pub struct Bundle {
    /// The components, sorted strictly by type id.
    pub parts: Vec<(TypeInfo, u64)>,
}

impl Bundle {
    /// Canonical: sorted strictly by id, hence without duplicates.
    pub open spec fn wf(self) -> bool {
        parts_sorted(self.parts@)
    }

    /// The bundle's signature.
    pub open spec fn sig(self) -> Seq<u64> {
        parts_ids(self.parts@)
    }

    /// The component map the bundle carries.
    pub open spec fn map_spec(self) -> Map<u64, u64> {
        parts_map(self.parts@)
    }

    /// A bundle over parts already sorted strictly by type id.
    pub fn new(parts: Vec<(TypeInfo, u64)>) -> (r: Bundle)
        requires
            parts_sorted(parts@),
        ensures
            r.wf(),
            r.parts@ == parts@,
    {
        Bundle { parts }
    }

    /// The type descriptors of the bundle, in order.
    pub fn type_infos(&self) -> (r: Vec<TypeInfo>)
        ensures
            r@.len() == self.parts@.len(),
            forall|i: int| 0 <= i < r@.len() ==> #[trigger] r@[i] == self.parts@[i].0,
            ids_of(r@) =~= self.sig(),
    {
        let n = self.parts.len();
        let mut r: Vec<TypeInfo> = Vec::new();
        let mut i: usize = 0;
        while i < n
            invariant
                i <= n,
                n == self.parts@.len(),
                r@.len() == i,
                forall|k: int| 0 <= k < i ==> #[trigger] r@[k] == self.parts@[k].0,
            decreases n - i,
        {
            r.push(self.parts[i].0);
            i += 1;
        }
        r
    }

    /// The component values of the bundle, in type order.
    pub fn values(&self) -> (r: Vec<u64>)
        ensures
            r@.len() == self.parts@.len(),
            forall|i: int| 0 <= i < r@.len() ==> #[trigger] r@[i] == self.parts@[i].1,
    {
        let n = self.parts.len();
        let mut r: Vec<u64> = Vec::new();
        let mut i: usize = 0;
        while i < n
            invariant
                i <= n,
                n == self.parts@.len(),
                r@.len() == i,
                forall|k: int| 0 <= k < i ==> #[trigger] r@[k] == self.parts@[k].1,
            decreases n - i,
        {
            r.push(self.parts[i].1);
            i += 1;
        }
        r
    }
}

} // verus!
