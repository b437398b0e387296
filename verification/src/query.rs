//! Queries over a set of archetypes.
//!
//! A [`Query`] describes what a traversal wants from each row: the entity
//! handle, a shared or exclusive component of some type, an optional
//! sub-query, a sub-query filtered by the presence or absence of a type, or
//! a pair of sub-queries. Every archetype is either skipped or visited with
//! an access level; visited archetypes are walked row by row in index
//! order, each row yielding a flat list of [`ItemPart`]s, one per leaf of
//! the query.
//!
//! A [`QueryBorrow`] ties a query to the archetype list: it acquires the
//! per-column dynamic borrows of every archetype the query reads or
//! writes, hands out iterators, and releases the borrows when asked.

use vstd::prelude::*;

use crate::archetype::Archetype;

verus! {

/// How a query accesses an archetype, if at all.
#[derive(Clone, Copy, PartialEq, Eq, Structural, PartialOrd, Ord, Debug)]
pub enum Access {
    /// Read entity ids only, no components.
    Iterate,
    /// Read components.
    Read,
    /// Read and write components.
    Write,
}

/// The strength of an access level: `Write` over `Read` over `Iterate`.
pub open spec fn access_level(a: Access) -> int {
    match a {
        Access::Iterate => 0,
        Access::Read => 1,
        Access::Write => 2,
    }
}

/// The stronger of two access levels.
pub open spec fn max_access(u: Access, v: Access) -> Access {
    if access_level(u) >= access_level(v) {
        u
    } else {
        v
    }
}

/// Query transformer keeping only archetypes that have a component of
/// `type_id`, without fetching it.
pub struct With {
    /// Component type that must be present.
    pub type_id: u64,
    /// The transformed query.
    pub inner: Box<Query>,
}

/// Query transformer skipping archetypes that have a component of
/// `type_id`.
pub struct Without {
    /// Component type that must be absent.
    pub type_id: u64,
    /// The transformed query.
    pub inner: Box<Query>,
}

/// A description of what a traversal fetches from each matching row.
pub enum Query {
    /// Yield the entity id owning the row.
    Entity,
    /// Yield the component of the given type, shared.
    Read(u64),
    /// Yield the component of the given type, exclusive.
    Write(u64),
    /// Yield the sub-query's items when its columns are present, a marker
    /// otherwise; never skips an archetype.
    Opt(Box<Query>),
    /// Yield the sub-query's items, only where a type is present.
    With(With),
    /// Yield the sub-query's items, only where a type is absent.
    Without(Without),
    /// Yield both sub-queries' items side by side.
    Pair(Box<Query>, Box<Query>),
}

/// One yielded element: the entity id, a component value, or the marker
/// for an optional sub-query that did not match.
#[derive(Clone, Copy, PartialEq, Eq, Structural, Debug)]
pub enum ItemPart {
    /// Entity id owning the row.
    Entity(u32),
    /// Component value at the row, read or written.
    Value(u64),
    /// An optional sub-query whose columns the archetype lacks.
    Missing,
}

/// How `q` accesses archetype `a`: `None` to skip it, otherwise the
/// strongest access any part of the query needs.
pub open spec fn access_of(q: Query, a: Archetype) -> Option<Access>
    decreases q,
{
    match q {
        Query::Entity => Some(Access::Iterate),
        Query::Read(t) => if a.has_spec(t) {
            Some(Access::Read)
        } else {
            None
        },
        Query::Write(t) => if a.has_spec(t) {
            Some(Access::Write)
        } else {
            None
        },
        Query::Opt(inner) => match access_of(*inner, a) {
            Some(x) => Some(x),
            None => Some(Access::Iterate),
        },
        Query::With(w) => if a.has_spec(w.type_id) {
            access_of(*w.inner, a)
        } else {
            None
        },
        Query::Without(w) => if a.has_spec(w.type_id) {
            None
        } else {
            access_of(*w.inner, a)
        },
        Query::Pair(x, y) => match (access_of(*x, a), access_of(*y, a)) {
            (Some(u), Some(v)) => Some(max_access(u, v)),
            _ => None,
        },
    }
}

/// Whether `q` visits archetype `a` at all.
pub open spec fn matches_arch(q: Query, a: Archetype) -> bool {
    access_of(q, a) is Some
}

/// Whether iterating `q` takes dynamic borrows on `a`: it is visited and
/// touches component data.
pub open spec fn needs_borrow(q: Query, a: Archetype) -> bool {
    match access_of(q, a) {
        Some(ac) => access_level(ac) >= 1,
        None => false,
    }
}

/// The items `q` yields for row `row` of archetype `a`, one per query
/// leaf, left to right. Meaningful when `matches_arch(q, a)` and the row
/// is in bounds.
pub open spec fn item_of(q: Query, a: Archetype, row: int) -> Seq<ItemPart>
    decreases q,
{
    match q {
        Query::Entity => seq![ItemPart::Entity(a.entities@[row])],
        Query::Read(t) => seq![ItemPart::Value(a.value_spec(t, row))],
        Query::Write(t) => seq![ItemPart::Value(a.value_spec(t, row))],
        Query::Opt(inner) => if matches_arch(*inner, a) {
            item_of(*inner, a, row)
        } else {
            seq![ItemPart::Missing]
        },
        Query::With(w) => item_of(*w.inner, a, row),
        Query::Without(w) => item_of(*w.inner, a, row),
        Query::Pair(x, y) => item_of(*x, a, row) + item_of(*y, a, row),
    }
}

/// The rows `q` yields from archetype `a`, in index order; empty when the
/// archetype is skipped.
pub open spec fn arch_items(q: Query, a: Archetype) -> Seq<Seq<ItemPart>> {
    if matches_arch(q, a) {
        Seq::new(a.len_spec(), |r: int| item_of(q, a, r))
    } else {
        Seq::empty()
    }
}

/// The rows `q` yields from archetype `a` starting at `row`.
pub open spec fn tail_items(q: Query, a: Archetype, row: int) -> Seq<Seq<ItemPart>> {
    if matches_arch(q, a) && 0 <= row <= a.len_spec() {
        Seq::new((a.len_spec() - row) as nat, |i: int| item_of(q, a, row + i))
    } else {
        Seq::empty()
    }
}

/// Everything `q` yields over the archetype list, archetypes in list
/// order, rows in index order.
pub open spec fn results(q: Query, archs: Seq<Archetype>) -> Seq<Seq<ItemPart>>
    decreases archs.len(),
{
    if archs.len() == 0 {
        Seq::empty()
    } else {
        arch_items(q, archs[0]) + results(q, archs.drop_first())
    }
}

/// Everything still to be yielded from position (`ai`, `row`) on.
pub open spec fn results_from(q: Query, archs: Seq<Archetype>, ai: int, row: int) -> Seq<
    Seq<ItemPart>,
> {
    if 0 <= ai < archs.len() {
        tail_items(q, archs[ai], row) + results(q, archs.skip(ai + 1))
    } else {
        Seq::empty()
    }
}

/// Total number of rows `q` yields over the archetype list.
pub open spec fn total_len(q: Query, archs: Seq<Archetype>) -> nat
    decreases archs.len(),
{
    if archs.len() == 0 {
        0
    } else {
        (if matches_arch(q, archs[0]) {
            archs[0].len_spec()
        } else {
            0
        }) + total_len(q, archs.drop_first())
    }
}

/// The views of a list of item rows.
pub open spec fn views_of(v: Seq<Vec<ItemPart>>) -> Seq<Seq<ItemPart>> {
    Seq::new(v.len(), |i: int| v[i]@)
}

/// The strength of an access level, as a number.
fn access_level_exec(a: Access) -> (r: u8)
    ensures
        r == access_level(a),
{
    match a {
        Access::Iterate => 0,
        Access::Read => 1,
        Access::Write => 2,
    }
}

/// How `q` accesses archetype `a`, if at all.
pub fn access(q: &Query, a: &Archetype) -> (r: Option<Access>)
    requires
        a.wf(),
    ensures
        r == access_of(*q, *a),
    decreases *q,
{
    match q {
        Query::Entity => Some(Access::Iterate),
        Query::Read(t) => if a.has(*t) {
            Some(Access::Read)
        } else {
            None
        },
        Query::Write(t) => if a.has(*t) {
            Some(Access::Write)
        } else {
            None
        },
        Query::Opt(inner) => match access(&**inner, a) {
            Some(x) => Some(x),
            None => Some(Access::Iterate),
        },
        Query::With(w) => if a.has(w.type_id) {
            access(&*w.inner, a)
        } else {
            None
        },
        Query::Without(w) => if a.has(w.type_id) {
            None
        } else {
            access(&*w.inner, a)
        },
        Query::Pair(x, y) => match (access(&**x, a), access(&**y, a)) {
            (Some(u), Some(v)) => if access_level_exec(u) >= access_level_exec(v) {
                Some(u)
            } else {
                Some(v)
            },
            _ => None,
        },
    }
}

/// Fetch row `row` of archetype `a` for query `q`: one item per leaf.
pub fn get_row(q: &Query, a: &Archetype, row: usize) -> (r: Vec<ItemPart>)
    requires
        a.wf(),
        matches_arch(*q, *a),
        row < a.len_spec(),
    ensures
        r@ == item_of(*q, *a, row as int),
    decreases *q,
{
    match q {
        Query::Entity => {
            let mut r: Vec<ItemPart> = Vec::new();
            r.push(ItemPart::Entity(a.entities[row]));
            proof {
                assert(r@ =~= item_of(*q, *a, row as int));
            }
            r
        }
        Query::Read(t) => {
            let mut r: Vec<ItemPart> = Vec::new();
            r.push(ItemPart::Value(a.get_value(*t, row)));
            proof {
                assert(r@ =~= item_of(*q, *a, row as int));
            }
            r
        }
        Query::Write(t) => {
            let mut r: Vec<ItemPart> = Vec::new();
            r.push(ItemPart::Value(a.get_value(*t, row)));
            proof {
                assert(r@ =~= item_of(*q, *a, row as int));
            }
            r
        }
        Query::Opt(inner) => {
            if access(&**inner, a).is_some() {
                get_row(&**inner, a, row)
            } else {
                let mut r: Vec<ItemPart> = Vec::new();
                r.push(ItemPart::Missing);
                proof {
                    assert(r@ =~= item_of(*q, *a, row as int));
                }
                r
            }
        }
        Query::With(w) => get_row(&*w.inner, a, row),
        Query::Without(w) => get_row(&*w.inner, a, row),
        Query::Pair(x, y) => {
            let mut r = get_row(&**x, a, row);
            let mut ry = get_row(&**y, a, row);
            r.append(&mut ry);
            r
        }
    }
}

/// The borrow counters of `a` after `q` sequentially takes its dynamic
/// borrows, starting from counters `b`: shared for every `Read` leaf,
/// exclusive for every `Write` leaf, left to right; `None` when some
/// acquisition would violate the borrow rules.
pub open spec fn acquire_b(q: Query, a: Archetype, b: Seq<i64>) -> Option<Seq<i64>>
    decreases q,
{
    match q {
        Query::Entity => Some(b),
        Query::Read(t) => if !a.has_spec(t) {
            Some(b)
        } else if 0 <= b[a.col_of(t)] < i64::MAX {
            Some(b.update(a.col_of(t), (b[a.col_of(t)] + 1) as i64))
        } else {
            None
        },
        Query::Write(t) => if !a.has_spec(t) {
            Some(b)
        } else if b[a.col_of(t)] == 0 {
            Some(b.update(a.col_of(t), -1i64))
        } else {
            None
        },
        Query::Opt(inner) => acquire_b(*inner, a, b),
        Query::With(w) => acquire_b(*w.inner, a, b),
        Query::Without(w) => acquire_b(*w.inner, a, b),
        Query::Pair(x, y) => match acquire_b(*x, a, b) {
            Some(b2) => acquire_b(*y, a, b2),
            None => None,
        },
    }
}

/// The borrow counters of `a` after `q` releases the borrows it took,
/// starting from counters `b`, in reverse acquisition order; `None` when a
/// counter does not hold the expected borrow.
pub open spec fn release_b(q: Query, a: Archetype, b: Seq<i64>) -> Option<Seq<i64>>
    decreases q,
{
    match q {
        Query::Entity => Some(b),
        Query::Read(t) => if !a.has_spec(t) {
            Some(b)
        } else if b[a.col_of(t)] >= 1 {
            Some(b.update(a.col_of(t), (b[a.col_of(t)] - 1) as i64))
        } else {
            None
        },
        Query::Write(t) => if !a.has_spec(t) {
            Some(b)
        } else if b[a.col_of(t)] == -1 {
            Some(b.update(a.col_of(t), 0i64))
        } else {
            None
        },
        Query::Opt(inner) => release_b(*inner, a, b),
        Query::With(w) => release_b(*w.inner, a, b),
        Query::Without(w) => release_b(*w.inner, a, b),
        Query::Pair(x, y) => match release_b(*y, a, b) {
            Some(b2) => release_b(*x, a, b2),
            None => None,
        },
    }
}

/// Acquisition and release read an archetype only through its column
/// types, never through its rows or current counters.
pub proof fn lemma_acquire_congruence(q: Query, a1: Archetype, a2: Archetype, b: Seq<i64>)
    requires
        a1.types == a2.types,
    ensures
        acquire_b(q, a1, b) == acquire_b(q, a2, b),
        release_b(q, a1, b) == release_b(q, a2, b),
    decreases q,
{
    match q {
        Query::Opt(inner) => lemma_acquire_congruence(*inner, a1, a2, b),
        Query::With(w) => lemma_acquire_congruence(*w.inner, a1, a2, b),
        Query::Without(w) => lemma_acquire_congruence(*w.inner, a1, a2, b),
        Query::Pair(x, y) => {
            lemma_acquire_congruence(*x, a1, a2, b);
            match acquire_b(*x, a1, b) {
                Some(b2) => lemma_acquire_congruence(*y, a1, a2, b2),
                None => {}
            }
            lemma_acquire_congruence(*y, a1, a2, b);
            match release_b(*y, a1, b) {
                Some(b2) => lemma_acquire_congruence(*x, a1, a2, b2),
                None => {}
            }
        }
        _ => {}
    }
}

/// Acquiring never changes the number of counters.
pub proof fn lemma_acquire_len(q: Query, a: Archetype, b: Seq<i64>)
    requires
        a.wf(),
        b.len() == a.types@.len(),
        acquire_b(q, a, b) is Some,
    ensures
        acquire_b(q, a, b).unwrap().len() == b.len(),
    decreases q,
{
    match q {
        Query::Pair(x, y) => {
            lemma_acquire_len(*x, a, b);
            lemma_acquire_len(*y, a, acquire_b(*x, a, b).unwrap());
        }
        Query::Opt(inner) => lemma_acquire_len(*inner, a, b),
        Query::With(w) => lemma_acquire_len(*w.inner, a, b),
        Query::Without(w) => lemma_acquire_len(*w.inner, a, b),
        _ => {}
    }
}

/// Releasing exactly undoes acquiring: the borrow counters return to what
/// they were before the query took its borrows.
pub proof fn lemma_release_after_acquire(q: Query, a: Archetype, b: Seq<i64>)
    requires
        a.wf(),
        b.len() == a.types@.len(),
        acquire_b(q, a, b) is Some,
    ensures
        release_b(q, a, acquire_b(q, a, b).unwrap()) == Some(b),
    decreases q,
{
    match q {
        Query::Entity => {}
        Query::Read(t) => {
            if a.has_spec(t) {
                let c = a.col_of(t);
                assert(0 <= c < a.sig().len());
                let b2 = acquire_b(q, a, b).unwrap();
                assert(b2[c] == b[c] + 1);
                assert(release_b(q, a, b2).unwrap() =~= b);
            }
        }
        Query::Write(t) => {
            if a.has_spec(t) {
                let c = a.col_of(t);
                assert(0 <= c < a.sig().len());
                let b2 = acquire_b(q, a, b).unwrap();
                assert(b2[c] == -1);
                assert(release_b(q, a, b2).unwrap() =~= b);
            }
        }
        Query::Opt(inner) => lemma_release_after_acquire(*inner, a, b),
        Query::With(w) => lemma_release_after_acquire(*w.inner, a, b),
        Query::Without(w) => lemma_release_after_acquire(*w.inner, a, b),
        Query::Pair(x, y) => {
            let b2 = acquire_b(*x, a, b).unwrap();
            lemma_acquire_len(*x, a, b);
            lemma_release_after_acquire(*y, a, b2);
            lemma_release_after_acquire(*x, a, b);
        }
    }
}

/// Take every dynamic borrow `q` needs on archetype `a`.
fn borrow_arch(q: &Query, a: &mut Archetype)
    requires
        old(a).wf(),
        acquire_b(*q, *old(a), old(a).borrows@) is Some,
    ensures
        final(a).wf(),
        final(a).types == old(a).types,
        final(a).columns == old(a).columns,
        final(a).entities == old(a).entities,
        final(a).borrows@ == acquire_b(*q, *old(a), old(a).borrows@).unwrap(),
    decreases *q,
{
    match q {
        Query::Entity => {}
        Query::Read(t) => {
            a.borrow(*t);
        }
        Query::Write(t) => {
            a.borrow_mut(*t);
        }
        Query::Opt(inner) => borrow_arch(&**inner, a),
        Query::With(w) => borrow_arch(&*w.inner, a),
        Query::Without(w) => borrow_arch(&*w.inner, a),
        Query::Pair(x, y) => {
            borrow_arch(&**x, a);
            proof {
                let b2 = acquire_b(**x, *old(a), old(a).borrows@).unwrap();
                lemma_acquire_congruence(**y, *a, *old(a), b2);
            }
            borrow_arch(&**y, a);
        }
    }
}

/// Release every dynamic borrow `q` took on archetype `a`.
fn release_arch(q: &Query, a: &mut Archetype)
    requires
        old(a).wf(),
        release_b(*q, *old(a), old(a).borrows@) is Some,
    ensures
        final(a).wf(),
        final(a).types == old(a).types,
        final(a).columns == old(a).columns,
        final(a).entities == old(a).entities,
        final(a).borrows@ == release_b(*q, *old(a), old(a).borrows@).unwrap(),
    decreases *q,
{
    match q {
        Query::Entity => {}
        Query::Read(t) => {
            a.release(*t);
        }
        Query::Write(t) => {
            a.release_mut(*t);
        }
        Query::Opt(inner) => release_arch(&**inner, a),
        Query::With(w) => release_arch(&*w.inner, a),
        Query::Without(w) => release_arch(&*w.inner, a),
        Query::Pair(x, y) => {
            release_arch(&**y, a);
            proof {
                let b2 = release_b(**y, *old(a), old(a).borrows@).unwrap();
                lemma_acquire_congruence(**x, *a, *old(a), b2);
            }
            release_arch(&**x, a);
        }
    }
}

/// Matching reads an archetype only through its column types.
pub proof fn lemma_access_congruence(q: Query, a1: Archetype, a2: Archetype)
    requires
        a1.types == a2.types,
    ensures
        access_of(q, a1) == access_of(q, a2),
    decreases q,
{
    match q {
        Query::Opt(inner) => lemma_access_congruence(*inner, a1, a2),
        Query::With(w) => lemma_access_congruence(*w.inner, a1, a2),
        Query::Without(w) => lemma_access_congruence(*w.inner, a1, a2),
        Query::Pair(x, y) => {
            lemma_access_congruence(*x, a1, a2);
            lemma_access_congruence(*y, a1, a2);
        }
        _ => {}
    }
}

/// Unfolding `results` at position `ai` of the archetype list.
proof fn lemma_results_unfold(q: Query, archs: Seq<Archetype>, ai: int)
    requires
        0 <= ai < archs.len(),
    ensures
        results(q, archs.skip(ai)) == arch_items(q, archs[ai]) + results(q, archs.skip(ai + 1)),
{
    let s = archs.skip(ai);
    assert(s[0] == archs[ai]);
    assert(s.drop_first() =~= archs.skip(ai + 1));
}

/// A skipped or exhausted archetype contributes nothing more: the
/// remainder at its end equals the remainder at the start of the next
/// archetype.
proof fn lemma_advance_arch(q: Query, archs: Seq<Archetype>, ai: int, row: int)
    requires
        0 <= ai < archs.len(),
        !matches_arch(q, archs[ai]) || row == archs[ai].len_spec(),
    ensures
        results_from(q, archs, ai, row) == results_from(q, archs, ai + 1, 0),
{
    assert(tail_items(q, archs[ai], row) =~= Seq::<Seq<ItemPart>>::empty());
    if ai + 1 < archs.len() {
        lemma_results_unfold(q, archs, ai + 1);
        assert(tail_items(q, archs[ai + 1], 0) =~= arch_items(q, archs[ai + 1]));
        assert(results_from(q, archs, ai, row) =~= results_from(q, archs, ai + 1, 0));
    } else {
        assert(archs.skip(ai + 1).len() == 0);
        assert(results_from(q, archs, ai, row) =~= Seq::<Seq<ItemPart>>::empty());
    }
}

/// Splitting the remainder of one archetype at row `end`: first the rows
/// `row .. end`, then the rest.
proof fn lemma_split_rows(q: Query, archs: Seq<Archetype>, ai: int, row: int, end: int)
    requires
        0 <= ai < archs.len(),
        matches_arch(q, archs[ai]),
        0 <= row <= end <= archs[ai].len_spec(),
    ensures
        results_from(q, archs, ai, row) == Seq::new(
            (end - row) as nat,
            |i: int| item_of(q, archs[ai], row + i),
        ) + results_from(q, archs, ai, end),
{
    let a = archs[ai];
    let chunk = Seq::new((end - row) as nat, |i: int| item_of(q, a, row + i));
    assert(tail_items(q, a, row) =~= chunk + tail_items(q, a, end));
    assert(results_from(q, archs, ai, row) =~= chunk + results_from(q, archs, ai, end));
}

/// Yielding one row: the head of the remainder is that row's items, and
/// the rest is the remainder one row further on.
proof fn lemma_yield_row(q: Query, archs: Seq<Archetype>, ai: int, row: int)
    requires
        0 <= ai < archs.len(),
        matches_arch(q, archs[ai]),
        0 <= row < archs[ai].len_spec(),
    ensures
        results_from(q, archs, ai, row).len() > 0,
        results_from(q, archs, ai, row)[0] == item_of(q, archs[ai], row),
        results_from(q, archs, ai, row).drop_first() == results_from(q, archs, ai, row + 1),
{
    lemma_split_rows(q, archs, ai, row, row + 1);
    let one = Seq::new(1nat, |i: int| item_of(q, archs[ai], row + i));
    assert(results_from(q, archs, ai, row).drop_first() =~= results_from(q, archs, ai, row + 1));
}

/// The whole result sequence is the remainder from the very start.
pub proof fn lemma_results_from_start(q: Query, archs: Seq<Archetype>)
    ensures
        results_from(q, archs, 0, 0) == results(q, archs),
{
    if archs.len() > 0 {
        lemma_results_unfold(q, archs, 0);
        assert(archs.skip(0) =~= archs);
        assert(tail_items(q, archs[0], 0) =~= arch_items(q, archs[0]));
        assert(results_from(q, archs, 0, 0) =~= results(q, archs));
    }
}

/// A query yields exactly as many rows as the matching archetypes hold.
pub proof fn lemma_results_len(q: Query, archs: Seq<Archetype>)
    ensures
        results(q, archs).len() == total_len(q, archs),
    decreases archs.len(),
{
    if archs.len() > 0 {
        lemma_results_len(q, archs.drop_first());
    }
}

/// Unfolding `total_len` at position `ai` of the archetype list.
proof fn lemma_total_len_unfold(q: Query, archs: Seq<Archetype>, ai: int)
    requires
        0 <= ai < archs.len(),
    ensures
        total_len(q, archs.skip(ai)) == (if matches_arch(q, archs[ai]) {
            archs[ai].len_spec()
        } else {
            0
        }) + total_len(q, archs.skip(ai + 1)),
{
    let s = archs.skip(ai);
    assert(s[0] == archs[ai]);
    assert(s.drop_first() =~= archs.skip(ai + 1));
}

/// The effect on one archetype of a query taking its dynamic borrows:
/// archetypes the query does not read or write are untouched, the rest
/// keep their data and get the acquired counters.
pub open spec fn borrow_effect(q: Query, pre: Archetype, post: Archetype) -> bool {
    if needs_borrow(q, pre) {
        &&& post.types == pre.types
        &&& post.columns == pre.columns
        &&& post.entities == pre.entities
        &&& post.borrows@ == acquire_b(q, pre, pre.borrows@).unwrap()
    } else {
        post == pre
    }
}

/// The effect on one archetype of a query releasing its dynamic borrows.
pub open spec fn release_effect(q: Query, pre: Archetype, post: Archetype) -> bool {
    if needs_borrow(q, pre) {
        &&& post.types == pre.types
        &&& post.columns == pre.columns
        &&& post.entities == pre.entities
        &&& post.borrows@ == release_b(q, pre, pre.borrows@).unwrap()
    } else {
        post == pre
    }
}

/// A borrow of a set of archetypes sufficient to execute a query.
///
/// Dynamic borrows are taken by `iter` or `iter_batched` and given back by
/// `release`.
pub struct QueryBorrow {
    /// The query to execute.
    pub query: Query,
    /// Whether the dynamic borrows are currently held.
    pub borrowed: bool,
}

impl QueryBorrow {
    /// A borrow for query `q`; no dynamic borrows are taken yet.
    pub fn new(q: Query) -> (r: QueryBorrow)
        ensures
            r.query == q,
            !r.borrowed,
    {
        QueryBorrow { query: q, borrowed: false }
    }

    /// Take the dynamic borrows the query needs on every archetype it
    /// reads or writes. Each such acquisition must respect the borrow
    /// rules, and the borrows must not already be held.
    pub fn borrow(&mut self, archetypes: &mut Vec<Archetype>)
        requires
            !old(self).borrowed,
            forall|k: int|
                0 <= k < old(archetypes)@.len() ==> (#[trigger] old(archetypes)@[k]).wf(),
            forall|k: int|
                0 <= k < old(archetypes)@.len() && needs_borrow(
                    old(self).query,
                    #[trigger] old(archetypes)@[k],
                ) ==> acquire_b(
                    old(self).query,
                    old(archetypes)@[k],
                    old(archetypes)@[k].borrows@,
                ) is Some,
        ensures
            final(self).query == old(self).query,
            final(self).borrowed,
            final(archetypes)@.len() == old(archetypes)@.len(),
            forall|k: int|
                0 <= k < final(archetypes)@.len() ==> (#[trigger] final(archetypes)@[k]).wf(),
            forall|k: int|
                0 <= k < final(archetypes)@.len() ==> borrow_effect(
                    old(self).query,
                    old(archetypes)@[k],
                    #[trigger] final(archetypes)@[k],
                ),
            forall|k: int|
                0 <= k < final(archetypes)@.len() && needs_borrow(
                    old(self).query,
                    #[trigger] final(archetypes)@[k],
                ) ==> release_b(
                    old(self).query,
                    final(archetypes)@[k],
                    final(archetypes)@[k].borrows@,
                ) == Some(old(archetypes)@[k].borrows@),
    {
        let ghost q = self.query;
        let n = archetypes.len();
        let mut i: usize = 0;
        while i < n
            invariant
                i <= n,
                n == archetypes@.len(),
                archetypes@.len() == old(archetypes)@.len(),
                *self == *old(self),
                forall|k: int|
                    0 <= k < old(archetypes)@.len() ==> (#[trigger] old(archetypes)@[k]).wf(),
                forall|k: int|
                    0 <= k < old(archetypes)@.len() && needs_borrow(
                        old(self).query,
                        #[trigger] old(archetypes)@[k],
                    ) ==> acquire_b(
                        old(self).query,
                        old(archetypes)@[k],
                        old(archetypes)@[k].borrows@,
                    ) is Some,
                forall|k: int|
                    0 <= k < i ==> borrow_effect(
                        old(self).query,
                        old(archetypes)@[k],
                        #[trigger] archetypes@[k],
                    ),
                forall|k: int|
                    0 <= k < i ==> (#[trigger] archetypes@[k]).wf(),
                forall|k: int|
                    i <= k < n ==> #[trigger] archetypes@[k] == old(archetypes)@[k],
            decreases n - i,
        {
            let acc = access(&self.query, &archetypes[i]);
            let take = match acc {
                Some(a) => access_level_exec(a) >= 1,
                None => false,
            };
            if take {
                borrow_arch(&self.query, &mut archetypes[i]);
            }
            i += 1;
        }
        self.borrowed = true;
        proof {
            assert forall|k: int|
                0 <= k < archetypes@.len() && needs_borrow(
                    old(self).query,
                    #[trigger] archetypes@[k],
                ) implies release_b(old(self).query, archetypes@[k], archetypes@[k].borrows@)
                == Some(old(archetypes)@[k].borrows@) by {
                let pre = old(archetypes)@[k];
                let post = archetypes@[k];
                lemma_access_congruence(old(self).query, post, pre);
                lemma_release_after_acquire(old(self).query, pre, pre.borrows@);
                lemma_acquire_congruence(
                    old(self).query,
                    post,
                    pre,
                    acquire_b(old(self).query, pre, pre.borrows@).unwrap(),
                );
            }
        }
    }

    /// Give back every dynamic borrow the query holds.
    pub fn release(&mut self, archetypes: &mut Vec<Archetype>)
        requires
            old(self).borrowed,
            forall|k: int|
                0 <= k < old(archetypes)@.len() ==> (#[trigger] old(archetypes)@[k]).wf(),
            forall|k: int|
                0 <= k < old(archetypes)@.len() && needs_borrow(
                    old(self).query,
                    #[trigger] old(archetypes)@[k],
                ) ==> release_b(
                    old(self).query,
                    old(archetypes)@[k],
                    old(archetypes)@[k].borrows@,
                ) is Some,
        ensures
            final(self).query == old(self).query,
            !final(self).borrowed,
            final(archetypes)@.len() == old(archetypes)@.len(),
            forall|k: int|
                0 <= k < final(archetypes)@.len() ==> (#[trigger] final(archetypes)@[k]).wf(),
            forall|k: int|
                0 <= k < final(archetypes)@.len() ==> release_effect(
                    old(self).query,
                    old(archetypes)@[k],
                    #[trigger] final(archetypes)@[k],
                ),
    {
        let n = archetypes.len();
        let mut i: usize = 0;
        while i < n
            invariant
                i <= n,
                n == archetypes@.len(),
                archetypes@.len() == old(archetypes)@.len(),
                *self == *old(self),
                forall|k: int|
                    0 <= k < old(archetypes)@.len() ==> (#[trigger] old(archetypes)@[k]).wf(),
                forall|k: int|
                    0 <= k < old(archetypes)@.len() && needs_borrow(
                        old(self).query,
                        #[trigger] old(archetypes)@[k],
                    ) ==> release_b(
                        old(self).query,
                        old(archetypes)@[k],
                        old(archetypes)@[k].borrows@,
                    ) is Some,
                forall|k: int|
                    0 <= k < i ==> release_effect(
                        old(self).query,
                        old(archetypes)@[k],
                        #[trigger] archetypes@[k],
                    ),
                forall|k: int|
                    0 <= k < i ==> (#[trigger] archetypes@[k]).wf(),
                forall|k: int|
                    i <= k < n ==> #[trigger] archetypes@[k] == old(archetypes)@[k],
            decreases n - i,
        {
            let acc = access(&self.query, &archetypes[i]);
            let take = match acc {
                Some(a) => access_level_exec(a) >= 1,
                None => false,
            };
            if take {
                release_arch(&self.query, &mut archetypes[i]);
            }
            i += 1;
        }
        self.borrowed = false;
    }

    /// Execute the query: take the dynamic borrows and return a cursor
    /// positioned at the first row. The borrows must not already be held.
    pub fn iter(&mut self, archetypes: &mut Vec<Archetype>) -> (r: QueryIter)
        requires
            !old(self).borrowed,
            forall|k: int|
                0 <= k < old(archetypes)@.len() ==> (#[trigger] old(archetypes)@[k]).wf(),
            forall|k: int|
                0 <= k < old(archetypes)@.len() && needs_borrow(
                    old(self).query,
                    #[trigger] old(archetypes)@[k],
                ) ==> acquire_b(
                    old(self).query,
                    old(archetypes)@[k],
                    old(archetypes)@[k].borrows@,
                ) is Some,
        ensures
            final(self).query == old(self).query,
            final(self).borrowed,
            final(archetypes)@.len() == old(archetypes)@.len(),
            forall|k: int|
                0 <= k < final(archetypes)@.len() ==> (#[trigger] final(archetypes)@[k]).wf(),
            forall|k: int|
                0 <= k < final(archetypes)@.len() ==> borrow_effect(
                    old(self).query,
                    old(archetypes)@[k],
                    #[trigger] final(archetypes)@[k],
                ),
            forall|k: int|
                0 <= k < final(archetypes)@.len() && needs_borrow(
                    old(self).query,
                    #[trigger] final(archetypes)@[k],
                ) ==> release_b(
                    old(self).query,
                    final(archetypes)@[k],
                    final(archetypes)@[k].borrows@,
                ) == Some(old(archetypes)@[k].borrows@),
            r.archetype_index == 0,
            r.row == 0,
            r.wf_iter(old(self).query, final(archetypes)@),
    {
        self.borrow(archetypes);
        QueryIter { archetype_index: 0, row: 0 }
    }

    /// Like `iter`, but the rows come grouped in batches of at most
    /// `batch_size`, each batch a cursor of its own.
    pub fn iter_batched(&mut self, archetypes: &mut Vec<Archetype>, batch_size: usize) -> (r:
        BatchedIter)
        requires
            !old(self).borrowed,
            batch_size >= 1,
            forall|k: int|
                0 <= k < old(archetypes)@.len() ==> (#[trigger] old(archetypes)@[k]).wf(),
            forall|k: int|
                0 <= k < old(archetypes)@.len() && needs_borrow(
                    old(self).query,
                    #[trigger] old(archetypes)@[k],
                ) ==> acquire_b(
                    old(self).query,
                    old(archetypes)@[k],
                    old(archetypes)@[k].borrows@,
                ) is Some,
        ensures
            final(self).query == old(self).query,
            final(self).borrowed,
            final(archetypes)@.len() == old(archetypes)@.len(),
            forall|k: int|
                0 <= k < final(archetypes)@.len() ==> (#[trigger] final(archetypes)@[k]).wf(),
            forall|k: int|
                0 <= k < final(archetypes)@.len() ==> borrow_effect(
                    old(self).query,
                    old(archetypes)@[k],
                    #[trigger] final(archetypes)@[k],
                ),
            forall|k: int|
                0 <= k < final(archetypes)@.len() && needs_borrow(
                    old(self).query,
                    #[trigger] final(archetypes)@[k],
                ) ==> release_b(
                    old(self).query,
                    final(archetypes)@[k],
                    final(archetypes)@[k].borrows@,
                ) == Some(old(archetypes)@[k].borrows@),
            r.archetype_index == 0,
            r.batch == 0,
            r.batch_size == batch_size,
    {
        self.borrow(archetypes);
        BatchedIter { archetype_index: 0, batch: 0, batch_size }
    }

    /// Transform the query into one that requires a component of
    /// `type_id` without fetching it; any held borrows carry over.
    pub fn with(self, type_id: u64) -> (r: QueryBorrow)
        ensures
            r.query matches Query::With(w) && w.type_id == type_id && *w.inner == self.query,
            r.borrowed == self.borrowed,
    {
        let q = Query::With(With { type_id, inner: Box::new(self.query) });
        QueryBorrow { query: q, borrowed: self.borrowed }
    }

    /// Transform the query into one that skips entities having a
    /// component of `type_id`; any held borrows carry over.
    pub fn without(self, type_id: u64) -> (r: QueryBorrow)
        ensures
            r.query matches Query::Without(w) && w.type_id == type_id && *w.inner == self.query,
            r.borrowed == self.borrowed,
    {
        let q = Query::Without(Without { type_id, inner: Box::new(self.query) });
        QueryBorrow { query: q, borrowed: self.borrowed }
    }

    /// Replace the query, keeping the borrowed state.
    pub fn transform(self, q: Query) -> (r: QueryBorrow)
        ensures
            r.query == q,
            r.borrowed == self.borrowed,
    {
        QueryBorrow { query: q, borrowed: self.borrowed }
    }
}

/// A cursor over the rows a query yields, archetypes in list order, rows
/// in index order.
pub struct QueryIter {
    /// The archetype currently being walked.
    pub archetype_index: usize,
    /// The next row to yield inside that archetype.
    pub row: usize,
}

impl QueryIter {
    /// The cursor points at a sound position for `q` over `archs`.
    pub open spec fn wf_iter(self, q: Query, archs: Seq<Archetype>) -> bool {
        &&& self.archetype_index <= archs.len()
        &&& (self.archetype_index < archs.len() ==> self.row <= archs[
            self.archetype_index as int].len_spec())
        &&& (self.archetype_index < archs.len() && self.row > 0 ==> matches_arch(
            q,
            archs[self.archetype_index as int],
        ))
        &&& (self.archetype_index >= archs.len() ==> self.row == 0)
    }

    /// Everything still to be yielded.
    pub open spec fn remaining(self, q: Query, archs: Seq<Archetype>) -> Seq<Seq<ItemPart>> {
        results_from(q, archs, self.archetype_index as int, self.row as int)
    }

    /// Yield the next row's items, or `None` when every matching row has
    /// been yielded.
    pub fn next(&mut self, q: &Query, archetypes: &Vec<Archetype>) -> (r: Option<Vec<ItemPart>>)
        requires
            forall|k: int| 0 <= k < archetypes@.len() ==> (#[trigger] archetypes@[k]).wf(),
            old(self).wf_iter(*q, archetypes@),
        ensures
            final(self).wf_iter(*q, archetypes@),
            match r {
                Some(v) => old(self).remaining(*q, archetypes@).len() > 0 && v@ == old(
                    self,
                ).remaining(*q, archetypes@)[0] && final(self).remaining(*q, archetypes@) == old(
                    self,
                ).remaining(*q, archetypes@).drop_first(),
                None => old(self).remaining(*q, archetypes@).len() == 0 && final(self).remaining(
                    *q,
                    archetypes@,
                ).len() == 0,
            },
    {
        let n = archetypes.len();
        while self.archetype_index < n
            invariant
                n == archetypes@.len(),
                forall|k: int| 0 <= k < archetypes@.len() ==> (#[trigger] archetypes@[k]).wf(),
                self.wf_iter(*q, archetypes@),
                self.remaining(*q, archetypes@) == old(self).remaining(*q, archetypes@),
            decreases n - self.archetype_index,
        {
            let ai = self.archetype_index;
            let a = &archetypes[ai];
            let matched = access(q, a).is_some();
            if matched && self.row < a.len() {
                let item = get_row(q, a, self.row);
                proof {
                    lemma_yield_row(*q, archetypes@, ai as int, self.row as int);
                }
                self.row = self.row + 1;
                return Some(item);
            }
            proof {
                lemma_advance_arch(*q, archetypes@, ai as int, self.row as int);
            }
            self.archetype_index = ai + 1;
            self.row = 0;
        }
        None
    }

    /// The total number of rows the query yields over the archetype list,
    /// independent of how far this cursor has advanced.
    pub fn len(&self, q: &Query, archetypes: &Vec<Archetype>) -> (r: usize)
        requires
            forall|k: int| 0 <= k < archetypes@.len() ==> (#[trigger] archetypes@[k]).wf(),
            total_len(*q, archetypes@) <= usize::MAX,
        ensures
            r == total_len(*q, archetypes@),
    {
        let n = archetypes.len();
        let mut acc: usize = 0;
        let mut i: usize = 0;
        proof {
            assert(archetypes@.skip(0) =~= archetypes@);
        }
        while i < n
            invariant
                i <= n,
                n == archetypes@.len(),
                forall|k: int| 0 <= k < archetypes@.len() ==> (#[trigger] archetypes@[k]).wf(),
                total_len(*q, archetypes@) <= usize::MAX,
                acc + total_len(*q, archetypes@.skip(i as int)) == total_len(*q, archetypes@),
            decreases n - i,
        {
            proof {
                lemma_total_len_unfold(*q, archetypes@, i as int);
            }
            if access(q, &archetypes[i]).is_some() {
                acc = acc + archetypes[i].len();
            }
            i += 1;
        }
        acc
    }
}

/// Collect every row a query yields into one list, archetypes in list
/// order, rows in index order: the reference traversal.
pub fn collect_query(q: &Query, archetypes: &Vec<Archetype>) -> (r: Vec<Vec<ItemPart>>)
    requires
        forall|k: int| 0 <= k < archetypes@.len() ==> (#[trigger] archetypes@[k]).wf(),
    ensures
        views_of(r@) == results(*q, archetypes@),
{
    let mut it = QueryIter { archetype_index: 0, row: 0 };
    let mut out: Vec<Vec<ItemPart>> = Vec::new();
    proof {
        lemma_results_from_start(*q, archetypes@);
    }
    loop
        invariant
            forall|k: int| 0 <= k < archetypes@.len() ==> (#[trigger] archetypes@[k]).wf(),
            it.wf_iter(*q, archetypes@),
            views_of(out@) + it.remaining(*q, archetypes@) == results(*q, archetypes@),
        decreases it.remaining(*q, archetypes@).len(),
    {
        let ghost rem0 = it.remaining(*q, archetypes@);
        match it.next(q, archetypes) {
            Some(v) => {
                out.push(v);
                proof {
                    assert(views_of(out@) + it.remaining(*q, archetypes@) =~= results(
                        *q,
                        archetypes@,
                    ));
                }
            }
            None => {
                proof {
                    assert(views_of(out@) + it.remaining(*q, archetypes@) =~= views_of(out@));
                    assert(views_of(out@) =~= results(*q, archetypes@));
                }
                return out;
            }
        }
    }
}

/// Batched cursor: the same rows as [`QueryIter`], grouped per archetype
/// into batches of at most `batch_size` rows.
pub struct BatchedIter {
    /// The archetype currently being cut into batches.
    pub archetype_index: usize,
    /// How many batches of that archetype were already handed out.
    pub batch: usize,
    /// Upper bound on the rows in one batch.
    pub batch_size: usize,
}

/// One batch: rows `row .. end` of a single archetype.
pub struct Batch {
    /// The archetype the rows come from.
    pub archetype_index: usize,
    /// The next row to yield.
    pub row: usize,
    /// One past the last row of the batch.
    pub end: usize,
}

impl Batch {
    /// The batch lies inside a matching archetype.
    pub open spec fn wf_batch(self, q: Query, archs: Seq<Archetype>) -> bool {
        &&& self.archetype_index < archs.len()
        &&& matches_arch(q, archs[self.archetype_index as int])
        &&& self.row <= self.end <= archs[self.archetype_index as int].len_spec()
    }

    /// The items this batch still yields.
    pub open spec fn remaining(self, q: Query, archs: Seq<Archetype>) -> Seq<Seq<ItemPart>> {
        Seq::new(
            (self.end - self.row) as nat,
            |i: int| item_of(q, archs[self.archetype_index as int], self.row + i),
        )
    }

    /// Yield the next row of the batch, or `None` at its end.
    pub fn next(&mut self, q: &Query, archetypes: &Vec<Archetype>) -> (r: Option<Vec<ItemPart>>)
        requires
            forall|k: int| 0 <= k < archetypes@.len() ==> (#[trigger] archetypes@[k]).wf(),
            old(self).wf_batch(*q, archetypes@),
        ensures
            final(self).wf_batch(*q, archetypes@),
            match r {
                Some(v) => old(self).remaining(*q, archetypes@).len() > 0 && v@ == old(
                    self,
                ).remaining(*q, archetypes@)[0] && final(self).remaining(*q, archetypes@) == old(
                    self,
                ).remaining(*q, archetypes@).drop_first(),
                None => old(self).remaining(*q, archetypes@).len() == 0 && final(self).remaining(
                    *q,
                    archetypes@,
                ).len() == 0,
            },
    {
        if self.row < self.end {
            let item = get_row(q, &archetypes[self.archetype_index], self.row);
            self.row = self.row + 1;
            proof {
                assert(final(self).remaining(*q, archetypes@) =~= old(self).remaining(
                    *q,
                    archetypes@,
                ).drop_first());
            }
            Some(item)
        } else {
            None
        }
    }
}

impl BatchedIter {
    /// The cursor points at a sound position.
    pub open spec fn wf_iter(self, archs: Seq<Archetype>) -> bool {
        self.archetype_index <= archs.len() && self.batch_size >= 1
    }

    /// The row position inside the current archetype: every row of its
    /// already-handed-out batches is behind us.
    pub open spec fn pos_row(self, archs: Seq<Archetype>) -> int {
        if self.archetype_index < archs.len() {
            let l = archs[self.archetype_index as int].len_spec() as int;
            if self.batch * self.batch_size <= l {
                self.batch * self.batch_size
            } else {
                l
            }
        } else {
            0
        }
    }

    /// Everything the remaining batches together still yield.
    pub open spec fn remaining(self, q: Query, archs: Seq<Archetype>) -> Seq<Seq<ItemPart>> {
        results_from(q, archs, self.archetype_index as int, self.pos_row(archs))
    }

    /// Hand out the next batch: the next at most `batch_size` matching
    /// rows of the current archetype, or `None` when nothing is left.
    pub fn next(&mut self, q: &Query, archetypes: &Vec<Archetype>) -> (r: Option<Batch>)
        requires
            forall|k: int| 0 <= k < archetypes@.len() ==> (#[trigger] archetypes@[k]).wf(),
            old(self).wf_iter(archetypes@),
        ensures
            final(self).wf_iter(archetypes@),
            final(self).batch_size == old(self).batch_size,
            match r {
                Some(b) => b.wf_batch(*q, archetypes@) && b.remaining(*q, archetypes@).len() >= 1
                    && b.remaining(*q, archetypes@).len() <= old(self).batch_size && old(
                    self,
                ).remaining(*q, archetypes@) == b.remaining(*q, archetypes@) + final(self).remaining(*q, archetypes@),
                None => old(self).remaining(*q, archetypes@).len() == 0 && final(self).remaining(
                    *q,
                    archetypes@,
                ).len() == 0,
            },
    {
        let n = archetypes.len();
        let bs = self.batch_size;
        while self.archetype_index < n
            invariant
                n == archetypes@.len(),
                forall|k: int| 0 <= k < archetypes@.len() ==> (#[trigger] archetypes@[k]).wf(),
                self.wf_iter(archetypes@),
                bs == self.batch_size,
                self.batch_size == old(self).batch_size,
                self.remaining(*q, archetypes@) == old(self).remaining(*q, archetypes@),
            decreases n - self.archetype_index,
        {
            let ai = self.archetype_index;
            let a = &archetypes[ai];
            let l = a.len();
            let matched = access(q, a).is_some();
            let offset_opt = bs.checked_mul(self.batch);
            let skip_now = match offset_opt {
                Some(offset) => offset >= l,
                None => true,
            };
            if matched && !skip_now {
                let offset = offset_opt.unwrap();
                let end = if l - offset > bs {
                    offset + bs
                } else {
                    l
                };
                proof {
                    lemma_split_rows(*q, archetypes@, ai as int, offset as int, end as int);
                    assert((self.batch + 1) * bs == self.batch * bs + bs) by (nonlinear_arith);
                    assert(self.batch <= self.batch * bs) by (nonlinear_arith)
                        requires
                            bs >= 1,
                            self.batch >= 0,
                    ;
                }
                self.batch = self.batch + 1;
                return Some(Batch { archetype_index: ai, row: offset, end });
            }
            proof {
                lemma_advance_arch(*q, archetypes@, ai as int, self.pos_row(archetypes@));
            }
            self.archetype_index = ai + 1;
            self.batch = 0;
            proof {
                assert(0 * bs == 0) by (nonlinear_arith);
            }
        }
        None
    }
}

/// Collect every row a query yields by walking batches of `batch_size`
/// rows: the batches, concatenated in order, cover exactly what plain
/// iteration yields.
pub fn collect_batched(q: &Query, archetypes: &Vec<Archetype>, batch_size: usize) -> (r: Vec<
    Vec<ItemPart>,
>)
    requires
        batch_size >= 1,
        forall|k: int| 0 <= k < archetypes@.len() ==> (#[trigger] archetypes@[k]).wf(),
    ensures
        views_of(r@) == results(*q, archetypes@),
{
    let mut it = BatchedIter { archetype_index: 0, batch: 0, batch_size };
    let mut out: Vec<Vec<ItemPart>> = Vec::new();
    proof {
        lemma_results_from_start(*q, archetypes@);
        assert(0 * batch_size == 0) by (nonlinear_arith);
        assert(it.remaining(*q, archetypes@) == results(*q, archetypes@));
    }
    loop
        invariant
            batch_size >= 1,
            forall|k: int| 0 <= k < archetypes@.len() ==> (#[trigger] archetypes@[k]).wf(),
            it.wf_iter(archetypes@),
            it.batch_size == batch_size,
            views_of(out@) + it.remaining(*q, archetypes@) == results(*q, archetypes@),
        decreases it.remaining(*q, archetypes@).len(),
    {
        match it.next(q, archetypes) {
            Some(mut b) => {
                let ghost brem = b.remaining(*q, archetypes@);
                let ghost out0 = out@;
                loop
                    invariant
                        forall|k: int|
                            0 <= k < archetypes@.len() ==> (#[trigger] archetypes@[k]).wf(),
                        b.wf_batch(*q, archetypes@),
                        views_of(out@) + b.remaining(*q, archetypes@) == views_of(out0) + brem,
                    ensures
                        views_of(out@) + b.remaining(*q, archetypes@) == views_of(out0) + brem,
                        b.remaining(*q, archetypes@).len() == 0,
                    decreases b.remaining(*q, archetypes@).len(),
                {
                    match b.next(q, archetypes) {
                        Some(v) => {
                            out.push(v);
                            proof {
                                assert(views_of(out@) + b.remaining(*q, archetypes@) =~= views_of(
                                    out0,
                                ) + brem);
                            }
                        }
                        None => {
                            break;
                        }
                    }
                }
                proof {
                    assert(views_of(out@) =~= views_of(out0) + brem);
                    assert(views_of(out@) + it.remaining(*q, archetypes@) =~= results(
                        *q,
                        archetypes@,
                    ));
                }
            }
            None => {
                proof {
                    assert(views_of(out@) =~= results(*q, archetypes@));
                }
                return out;
            }
        }
    }
}

} // verus!
