//! Component type descriptors and canonical signatures.
//!
//! A component type is identified by a process-wide unique id; a `TypeInfo`
//! records that id together with the layout of the component's values. An
//! archetype's signature is the strictly sorted sequence of the ids of its
//! columns, so every helper here revolves around strictly sorted sequences
//! of ids.

use vstd::prelude::*;

verus! {

/// Identity and layout of one component type. Two `TypeInfo` values with the
/// same `id` are required by callers to agree on `size` and `align`.
#[derive(Clone, Copy, PartialEq, Eq, Structural, Debug)]
pub struct TypeInfo {
    /// Process-wide unique identifier of the component type.
    pub id: u64,
    /// Size in bytes of one value of the type.
    pub size: u64,
    /// Alignment in bytes of values of the type.
    pub align: u64,
}

/// The ids of a list of type descriptors, in order.
pub open spec fn ids_of(types: Seq<TypeInfo>) -> Seq<u64> {
    Seq::new(types.len(), |i: int| types[i].id)
}

/// A sequence of ids in strictly increasing order: the canonical form of an
/// archetype signature.
pub open spec fn sorted_ids(s: Seq<u64>) -> bool {
    forall|i: int, j: int| 0 <= i < j < s.len() ==> s[i] < s[j]
}

/// A list of type descriptors sorted strictly by id.
pub open spec fn sorted_types(types: Seq<TypeInfo>) -> bool {
    forall|i: int, j: int| 0 <= i < j < types.len() ==> types[i].id < types[j].id
}

/// A sorted descriptor list has a sorted signature.
pub proof fn lemma_sorted_types_ids(types: Seq<TypeInfo>)
    requires
        sorted_types(types),
    ensures
        sorted_ids(ids_of(types)),
{
}

/// The position of id `t` in `s`, meaningful only when `t` occurs in `s`.
pub open spec fn index_of(s: Seq<u64>, t: u64) -> int {
    choose|c: int| 0 <= c < s.len() && s[c] == t
}

/// In a strictly sorted sequence each id occurs at most once, so
/// `index_of` names the one position that holds it.
pub proof fn lemma_index_of(s: Seq<u64>, c: int)
    requires
        sorted_ids(s),
        0 <= c < s.len(),
    ensures
        index_of(s, s[c]) == c,
{
    let t = s[c];
    let w = index_of(s, t);
    assert(0 <= w < s.len() && s[w] == t);
    if w < c {
        assert(s[w] < s[c]);
    } else if c < w {
        assert(s[c] < s[w]);
    }
}

/// Binary search over a sorted list of type descriptors: the column index
/// holding id `t`, if any column does.
pub fn find_type(types: &Vec<TypeInfo>, t: u64) -> (r: Option<usize>)
    requires
        sorted_types(types@),
    ensures
        match r {
            Some(c) => c < types@.len() && types@[c as int].id == t
                && c == index_of(ids_of(types@), t),
            None => !ids_of(types@).contains(t),
        },
{
    let mut lo: usize = 0;
    let mut hi: usize = types.len();
    while lo < hi
        invariant
            lo <= hi <= types@.len(),
            sorted_types(types@),
            forall|i: int| 0 <= i < lo ==> types@[i].id < t,
            forall|i: int| hi <= i < types@.len() ==> types@[i].id > t,
        decreases hi - lo,
    {
        let mid = lo + (hi - lo) / 2;
        let id = types[mid].id;
        if id == t {
            proof {
                lemma_sorted_types_ids(types@);
                lemma_index_of(ids_of(types@), mid as int);
                assert(ids_of(types@)[mid as int] == t);
            }
            return Some(mid);
        } else if id < t {
            proof {
                assert forall|i: int| 0 <= i <= mid as int implies types@[i].id < t by {
                    if i < mid as int {
                        assert(types@[i].id < types@[mid as int].id);
                    }
                }
            }
            lo = mid + 1;
        } else {
            proof {
                assert forall|i: int| mid as int <= i < types@.len() implies types@[i].id > t by {
                    if (mid as int) < i {
                        assert(types@[mid as int].id < types@[i].id);
                    }
                }
            }
            hi = mid;
        }
    }
    proof {
        assert forall|i: int| 0 <= i < types@.len() implies ids_of(types@)[i] != t by {
            if i < lo as int {
                assert(types@[i].id < t);
            } else {
                assert(types@[i].id > t);
            }
        }
    }
    None
}

} // verus!
