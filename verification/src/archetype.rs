//! Columnar storage for one archetype.
//!
//! An archetype holds every entity whose component set is exactly the
//! archetype's signature. Component values are stored column by column, one
//! column per component type, with a parallel array of entity ids; row `r`
//! of every column belongs to the entity at `entities[r]`. Each column also
//! carries a dynamic borrow counter: `-1` for one exclusive writer, `0` for
//! idle, `n > 0` for `n` shared readers.
//!
//! Component values are held as plain 64-bit words; the surrounding world
//! interprets them according to the column's `TypeInfo`.

use vstd::prelude::*;

use crate::types::{find_type, ids_of, index_of, sorted_types, TypeInfo};

verus! {

/// Columnar store for a fixed set of component types.
pub struct Archetype {
    /// Component types of this archetype, sorted strictly by id.
    pub types: Vec<TypeInfo>,
    /// One column of component values per entry of `types`.
    pub columns: Vec<Vec<u64>>,
    /// Entity id owning each row.
    pub entities: Vec<u32>,
    /// Dynamic borrow counter per column: `-1` writer, `0` idle, `n` readers.
    pub borrows: Vec<i64>,
}

impl Archetype {
    /// Structural invariant: one column and one borrow counter per type,
    /// types strictly sorted, every column as long as `entities`, and every
    /// borrow counter in a legal state (at most one writer).
    pub open spec fn wf(self) -> bool {
        &&& self.entities@.len() <= usize::MAX
        &&& self.columns@.len() == self.types@.len()
        &&& self.borrows@.len() == self.types@.len()
        &&& sorted_types(self.types@)
        &&& forall|c: int|
            0 <= c < self.columns@.len() ==> (#[trigger] self.columns@[c])@.len()
                == self.entities@.len()
        &&& forall|c: int| 0 <= c < self.borrows@.len() ==> #[trigger] self.borrows@[c] >= -1
    }

    /// The canonical signature: the sorted sequence of column type ids.
    pub open spec fn sig(self) -> Seq<u64> {
        ids_of(self.types@)
    }

    /// Whether this archetype has a column for type `t`.
    pub open spec fn has_spec(self, t: u64) -> bool {
        self.sig().contains(t)
    }

    /// The column index of type `t`; meaningful only when `has_spec(t)`.
    pub open spec fn col_of(self, t: u64) -> int {
        index_of(self.sig(), t)
    }

    /// Number of live rows.
    pub open spec fn len_spec(self) -> nat {
        self.entities@.len()
    }

    /// The component value of type `t` stored at `row`.
    pub open spec fn value_spec(self, t: u64, row: int) -> u64 {
        self.columns@[self.col_of(t)]@[row]
    }

    /// A fresh, empty archetype over the given sorted component types.
    pub fn new(types: Vec<TypeInfo>) -> (r: Archetype)
        requires
            sorted_types(types@),
        ensures
            r.wf(),
            r.types@ == types@,
            r.len_spec() == 0,
            forall|c: int| 0 <= c < r.borrows@.len() ==> #[trigger] r.borrows@[c] == 0,
    {
        let n = types.len();
        let mut columns: Vec<Vec<u64>> = Vec::new();
        let mut borrows: Vec<i64> = Vec::new();
        let mut c: usize = 0;
        while c < n
            invariant
                c <= n,
                columns@.len() == c,
                borrows@.len() == c,
                forall|k: int| 0 <= k < c ==> (#[trigger] columns@[k])@.len() == 0,
                forall|k: int| 0 <= k < c ==> #[trigger] borrows@[k] == 0i64,
            decreases n - c,
        {
            columns.push(Vec::new());
            borrows.push(0);
            c += 1;
        }
        Archetype { types, columns, entities: Vec::new(), borrows }
    }

    /// Number of live rows.
    pub fn len(&self) -> (r: usize)
        ensures
            r == self.len_spec(),
    {
        self.entities.len()
    }

    /// The column index of type `t`, found by binary search over `types`.
    pub fn find_col(&self, t: u64) -> (r: Option<usize>)
        requires
            self.wf(),
        ensures
            match r {
                Some(c) => self.has_spec(t) && c == self.col_of(t) && c < self.types@.len(),
                None => !self.has_spec(t),
            },
    {
        let r = find_type(&self.types, t);
        proof {
            match r {
                Some(c) => {
                    assert(self.sig()[c as int] == t);
                    assert(self.has_spec(t));
                }
                None => {
                    assert(!ids_of(self.types@).contains(t));
                }
            }
        }
        r
    }

    /// Whether this archetype has a column for type `t`.
    pub fn has(&self, t: u64) -> (r: bool)
        requires
            self.wf(),
        ensures
            r == self.has_spec(t),
    {
        self.find_col(t).is_some()
    }

    /// Read the component of type `t` at `row`.
    pub fn get_value(&self, t: u64, row: usize) -> (r: u64)
        requires
            self.wf(),
            self.has_spec(t),
            row < self.len_spec(),
        ensures
            r == self.value_spec(t, row as int),
    {
        let c = self.find_col(t).unwrap();
        self.columns[c][row]
    }

    /// Overwrite the component of type `t` at `row`.
    pub fn set_value(&mut self, t: u64, row: usize, v: u64)
        requires
            old(self).wf(),
            old(self).has_spec(t),
            row < old(self).len_spec(),
        ensures
            final(self).wf(),
            final(self).types == old(self).types,
            final(self).entities == old(self).entities,
            final(self).borrows == old(self).borrows,
            final(self).columns@.len() == old(self).columns@.len(),
            forall|k: int|
                0 <= k < final(self).columns@.len() && k != old(self).col_of(t)
                    ==> #[trigger] final(self).columns@[k] == old(self).columns@[k],
            final(self).columns@[old(self).col_of(t)]@ == old(self).columns@[old(self).col_of(
                t,
            )]@.update(row as int, v),
            final(self).value_spec(t, row as int) == v,
            forall|u: u64, r2: int|
                #![trigger final(self).value_spec(u, r2)]
                old(self).has_spec(u) && 0 <= r2 < old(self).len_spec() && !(u == t && r2
                    == row as int) ==> final(self).value_spec(u, r2) == old(self).value_spec(u, r2),
    {
        let c = self.find_col(t).unwrap();
        self.columns[c][row] = v;
        proof {
            let oc = old(self).col_of(t);
            assert(self.columns@[oc]@ == old(self).columns@[oc]@.update(row as int, v));
            assert forall|u: u64, r2: int|
                old(self).has_spec(u) && 0 <= r2 < old(self).len_spec() && !(u == t && r2
                    == row as int) implies #[trigger] self.value_spec(u, r2) == old(
                self,
            ).value_spec(u, r2) by {
                let cu = old(self).col_of(u);
                assert(0 <= cu < self.sig().len() && self.sig()[cu] == u);
                if cu != oc {
                    assert(self.columns@[cu] == old(self).columns@[cu]);
                } else {
                    assert(u == t);
                    assert(r2 != row as int);
                }
            }
        }
    }

    /// Append a row for entity `id` with one value per column, in column
    /// order.
    pub fn push_row(&mut self, id: u32, values: &Vec<u64>)
        requires
            old(self).wf(),
            values@.len() == old(self).types@.len(),
            old(self).len_spec() < usize::MAX,
        ensures
            final(self).wf(),
            final(self).types == old(self).types,
            final(self).borrows == old(self).borrows,
            final(self).entities@ == old(self).entities@.push(id),
            final(self).columns@.len() == old(self).columns@.len(),
            forall|c: int|
                0 <= c < final(self).columns@.len() ==> (#[trigger] final(self).columns@[c])@ == old(
                    self,
                ).columns@[c]@.push(values@[c]),
    {
        self.entities.push(id);
        let n = self.columns.len();
        let mut c: usize = 0;
        while c < n
            invariant
                c <= n,
                n == self.columns@.len(),
                self.columns@.len() == old(self).columns@.len(),
                values@.len() == old(self).columns@.len(),
                self.types == old(self).types,
                self.borrows == old(self).borrows,
                self.entities@ == old(self).entities@.push(id),
                forall|k: int|
                    0 <= k < c ==> (#[trigger] self.columns@[k])@ == old(self).columns@[k]@.push(
                        values@[k],
                    ),
                forall|k: int|
                    c <= k < n ==> #[trigger] self.columns@[k] == old(self).columns@[k],
            decreases n - c,
        {
            let v = values[c];
            self.columns[c].push(v);
            c += 1;
        }
    }

    /// Copy out the whole row at `row`, one value per column in column
    /// order.
    pub fn row_values(&self, row: usize) -> (r: Vec<u64>)
        requires
            self.wf(),
            row < self.len_spec(),
        ensures
            r@.len() == self.types@.len(),
            forall|c: int| 0 <= c < r@.len() ==> #[trigger] r@[c] == self.columns@[c]@[row as int],
    {
        let n = self.columns.len();
        let mut r: Vec<u64> = Vec::new();
        let mut c: usize = 0;
        while c < n
            invariant
                c <= n,
                n == self.columns@.len(),
                self.wf(),
                row < self.len_spec(),
                r@.len() == c,
                forall|k: int| 0 <= k < c ==> #[trigger] r@[k] == self.columns@[k]@[row as int],
            decreases n - c,
        {
            r.push(self.columns[c][row]);
            c += 1;
        }
        r
    }

    /// Swap-remove the row at `row`: the last row moves into its place and
    /// the archetype shrinks by one. Returns the id of the moved entity, or
    /// `None` when `row` was the last row.
    pub fn swap_remove_row(&mut self, row: usize) -> (moved: Option<u32>)
        requires
            old(self).wf(),
            row < old(self).len_spec(),
        ensures
            final(self).wf(),
            final(self).types == old(self).types,
            final(self).borrows == old(self).borrows,
            final(self).len_spec() == old(self).len_spec() - 1,
            final(self).entities@ == old(self).entities@.update(
                row as int,
                old(self).entities@.last(),
            ).drop_last(),
            final(self).columns@.len() == old(self).columns@.len(),
            forall|c: int|
                0 <= c < final(self).columns@.len() ==> (#[trigger] final(self).columns@[c])@ == old(
                    self,
                ).columns@[c]@.update(row as int, old(self).columns@[c]@.last()).drop_last(),
            moved == if row + 1 == old(self).len_spec() {
                None::<u32>
            } else {
                Some(old(self).entities@.last())
            },
    {
        let last = self.entities.len() - 1;
        let moved: Option<u32> = if row == last {
            None
        } else {
            Some(self.entities[last])
        };
        self.entities.swap_remove(row);
        let n = self.columns.len();
        let mut c: usize = 0;
        while c < n
            invariant
                c <= n,
                n == self.columns@.len(),
                self.columns@.len() == old(self).columns@.len(),
                self.types == old(self).types,
                self.borrows == old(self).borrows,
                self.entities@ == old(self).entities@.update(
                    row as int,
                    old(self).entities@.last(),
                ).drop_last(),
                row < old(self).len_spec(),
                forall|k: int|
                    0 <= k < n ==> (#[trigger] old(self).columns@[k])@.len() == old(
                        self,
                    ).len_spec(),
                forall|k: int|
                    0 <= k < c ==> (#[trigger] self.columns@[k])@ == old(
                        self,
                    ).columns@[k]@.update(row as int, old(self).columns@[k]@.last()).drop_last(),
                forall|k: int|
                    c <= k < n ==> #[trigger] self.columns@[k] == old(self).columns@[k],
            decreases n - c,
        {
            self.columns[c].swap_remove(row);
            c += 1;
        }
        moved
    }

    /// Take a shared borrow of the column for `t`; a no-op when the
    /// archetype has no such column. A writer must not hold the column.
    pub fn borrow(&mut self, t: u64)
        requires
            old(self).wf(),
            old(self).has_spec(t) ==> 0 <= old(self).borrows@[old(self).col_of(t)]
                < i64::MAX,
        ensures
            final(self).wf(),
            final(self).types == old(self).types,
            final(self).columns == old(self).columns,
            final(self).entities == old(self).entities,
            final(self).borrows@ == if old(self).has_spec(t) {
                old(self).borrows@.update(
                    old(self).col_of(t),
                    (old(self).borrows@[old(self).col_of(t)] + 1) as i64,
                )
            } else {
                old(self).borrows@
            },
    {
        if let Some(c) = self.find_col(t) {
            let b = self.borrows[c];
            self.borrows[c] = b + 1;
        } else {
            proof {
                assert(self.borrows@ =~= old(self).borrows@);
            }
        }
    }

    /// Take the exclusive borrow of the column for `t`; a no-op when the
    /// archetype has no such column. The column must be idle.
    pub fn borrow_mut(&mut self, t: u64)
        requires
            old(self).wf(),
            old(self).has_spec(t) ==> old(self).borrows@[old(self).col_of(t)] == 0,
        ensures
            final(self).wf(),
            final(self).types == old(self).types,
            final(self).columns == old(self).columns,
            final(self).entities == old(self).entities,
            final(self).borrows@ == if old(self).has_spec(t) {
                old(self).borrows@.update(old(self).col_of(t), -1i64)
            } else {
                old(self).borrows@
            },
    {
        if let Some(c) = self.find_col(t) {
            self.borrows[c] = -1;
        } else {
            proof {
                assert(self.borrows@ =~= old(self).borrows@);
            }
        }
    }

    /// Release one shared borrow of the column for `t`; a no-op when the
    /// archetype has no such column.
    pub fn release(&mut self, t: u64)
        requires
            old(self).wf(),
            old(self).has_spec(t) ==> old(self).borrows@[old(self).col_of(t)] >= 1,
        ensures
            final(self).wf(),
            final(self).types == old(self).types,
            final(self).columns == old(self).columns,
            final(self).entities == old(self).entities,
            final(self).borrows@ == if old(self).has_spec(t) {
                old(self).borrows@.update(
                    old(self).col_of(t),
                    (old(self).borrows@[old(self).col_of(t)] - 1) as i64,
                )
            } else {
                old(self).borrows@
            },
    {
        if let Some(c) = self.find_col(t) {
            let b = self.borrows[c];
            self.borrows[c] = b - 1;
        } else {
            proof {
                assert(self.borrows@ =~= old(self).borrows@);
            }
        }
    }

    /// Release the exclusive borrow of the column for `t`; a no-op when the
    /// archetype has no such column.
    pub fn release_mut(&mut self, t: u64)
        requires
            old(self).wf(),
            old(self).has_spec(t) ==> old(self).borrows@[old(self).col_of(t)] == -1,
        ensures
            final(self).wf(),
            final(self).types == old(self).types,
            final(self).columns == old(self).columns,
            final(self).entities == old(self).entities,
            final(self).borrows@ == if old(self).has_spec(t) {
                old(self).borrows@.update(old(self).col_of(t), 0i64)
            } else {
                old(self).borrows@
            },
    {
        if let Some(c) = self.find_col(t) {
            self.borrows[c] = 0;
        } else {
            proof {
                assert(self.borrows@ =~= old(self).borrows@);
            }
        }
    }

    /// Drop every row, leaving types, columns and borrow counters in place.
    pub fn clear_rows(&mut self)
        requires
            old(self).wf(),
        ensures
            final(self).wf(),
            final(self).types == old(self).types,
            final(self).borrows == old(self).borrows,
            final(self).len_spec() == 0,
            final(self).columns@.len() == old(self).columns@.len(),
    {
        self.entities.clear();
        let n = self.columns.len();
        let mut c: usize = 0;
        while c < n
            invariant
                c <= n,
                n == self.columns@.len(),
                self.columns@.len() == old(self).columns@.len(),
                self.types == old(self).types,
                self.borrows == old(self).borrows,
                self.entities@.len() == 0,
                forall|k: int| 0 <= k < c ==> (#[trigger] self.columns@[k])@.len() == 0,
            decreases n - c,
        {
            self.columns[c].clear();
            c += 1;
        }
    }
}

} // verus!
