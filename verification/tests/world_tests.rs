use hecs::{Bundle, ComponentError, ItemPart, Query, TypeInfo, World};

const T_I32: u64 = 1;
const T_BOOL: u64 = 2;
const T_U32: u64 = 4;
const T_F64: u64 = 5;

fn ti(id: u64, size: u64, align: u64) -> TypeInfo {
    TypeInfo { id, size, align }
}

fn i32_part(v: i64) -> (TypeInfo, u64) {
    (ti(T_I32, 4, 4), v as u64)
}

fn bool_part(v: bool) -> (TypeInfo, u64) {
    (ti(T_BOOL, 1, 1), if v { 1 } else { 0 })
}

#[test]
fn spawn_and_get_components() {
    let mut w = World::new();
    let a = w.spawn(&Bundle::new(vec![i32_part(123), bool_part(true)]));
    let b = w.spawn(&Bundle::new(vec![i32_part(42)]));
    assert_eq!(w.get(a, T_I32), Ok(123));
    assert_eq!(w.get(a, T_BOOL), Ok(1));
    assert_eq!(w.get(b, T_I32), Ok(42));
    assert_eq!(w.get(b, T_BOOL), Err(ComponentError::MissingComponent(T_BOOL)));
}

#[test]
fn spawn_despawn_makes_handle_stale() {
    let mut w = World::new();
    let e = w.spawn(&Bundle::new(vec![i32_part(7)]));
    assert!(w.contains(e));
    assert_eq!(w.despawn(e), Ok(()));
    assert!(!w.contains(e));
    assert_eq!(w.get(e, T_I32), Err(ComponentError::NoSuchEntity));
    assert!(w.despawn(e).is_err());
}

#[test]
fn recycled_id_gets_new_generation() {
    let mut w = World::new();
    let e = w.spawn(&Bundle::new(vec![i32_part(1)]));
    w.despawn(e).unwrap();
    let f = w.spawn(&Bundle::new(vec![i32_part(2)]));
    assert_eq!(f.id, e.id);
    assert!(f.generation > e.generation);
    assert!(!w.contains(e));
    assert!(w.contains(f));
    assert_eq!(w.get(f, T_I32), Ok(2));
}

#[test]
fn set_overwrites_in_place() {
    let mut w = World::new();
    let e = w.spawn(&Bundle::new(vec![i32_part(10), bool_part(false)]));
    assert_eq!(w.set(e, T_I32, 99), Ok(()));
    assert_eq!(w.get(e, T_I32), Ok(99));
    assert_eq!(w.get(e, T_BOOL), Ok(0));
    assert_eq!(w.set(e, T_F64, 0), Err(ComponentError::MissingComponent(T_F64)));
}

#[test]
fn insert_moves_to_wider_archetype() {
    let mut w = World::new();
    let e = w.spawn(&Bundle::new(vec![(ti(T_U32, 4, 4), 1)]));
    let before = w.archetypes_generation();
    assert_eq!(w.insert_one(e, ti(T_F64, 8, 8), (2.5f64).to_bits()), Ok(()));
    assert!(w.archetypes_generation() > before);
    let loc = w.location(e).unwrap();
    let ids: Vec<u64> = w.archetypes[loc.archetype].types.iter().map(|t| t.id).collect();
    assert_eq!(ids, vec![T_U32, T_F64]);
    assert_eq!(w.get(e, T_F64), Ok((2.5f64).to_bits()));
    assert_eq!(w.get(e, T_U32), Ok(1));
    assert_eq!(w.remove_one(e, T_U32), Ok(1));
    let loc2 = w.location(e).unwrap();
    let ids2: Vec<u64> = w.archetypes[loc2.archetype].types.iter().map(|t| t.id).collect();
    assert_eq!(ids2, vec![T_F64]);
    assert_eq!(w.get(e, T_U32), Err(ComponentError::MissingComponent(T_U32)));
}

#[test]
fn insert_replaces_existing_value() {
    let mut w = World::new();
    let e = w.spawn(&Bundle::new(vec![i32_part(5)]));
    assert_eq!(w.insert_one(e, ti(T_I32, 4, 4), 6), Ok(()));
    assert_eq!(w.get(e, T_I32), Ok(6));
}

#[test]
fn insert_then_remove_returns_value_and_restores_rest() {
    let mut w = World::new();
    let e = w.spawn(&Bundle::new(vec![i32_part(5)]));
    assert_eq!(w.insert_one(e, ti(T_BOOL, 1, 1), 1), Ok(()));
    assert_eq!(w.remove_one(e, T_BOOL), Ok(1));
    assert_eq!(w.get(e, T_I32), Ok(5));
    assert_eq!(w.get(e, T_BOOL), Err(ComponentError::MissingComponent(T_BOOL)));
    assert_eq!(w.remove_one(e, T_BOOL), Err(ComponentError::MissingComponent(T_BOOL)));
}

#[test]
fn insert_and_remove_fail_on_stale_handles() {
    let mut w = World::new();
    let e = w.spawn(&Bundle::new(vec![i32_part(5)]));
    w.despawn(e).unwrap();
    assert!(w.insert_one(e, ti(T_BOOL, 1, 1), 1).is_err());
    assert_eq!(w.remove_one(e, T_I32), Err(ComponentError::NoSuchEntity));
}

#[test]
fn swap_remove_patches_directory_of_moved_entity() {
    let mut w = World::new();
    let mut handles = Vec::new();
    for i in 0..1000i64 {
        handles.push(w.spawn(&Bundle::new(vec![i32_part(i)])));
    }
    let victim = handles[500];
    let last = handles[999];
    let victim_row = w.location(victim).unwrap().row;
    assert_eq!(victim_row, 500);
    w.despawn(victim).unwrap();
    let moved = w.location(last).unwrap();
    assert_eq!(moved.row, 500);
    assert_eq!(w.get(last, T_I32), Ok(999));
    // iterating all entities visits the 999 survivors exactly once
    let rows = hecs::query::collect_query(&Query::Entity, &w.archetypes);
    assert_eq!(rows.len(), 999);
    let mut ids: Vec<u32> = rows
        .iter()
        .map(|r| match r[0] {
            ItemPart::Entity(id) => id,
            _ => panic!("expected an entity"),
        })
        .collect();
    ids.sort();
    ids.dedup();
    assert_eq!(ids.len(), 999);
    assert!(!ids.contains(&victim.id));
}

#[test]
fn empty_bundle_lands_in_empty_archetype() {
    let mut w = World::new();
    let e = w.spawn(&Bundle::new(vec![]));
    assert!(w.contains(e));
    let loc = w.location(e).unwrap();
    assert_eq!(loc.archetype, 0);
    assert!(w.archetypes[0].types.is_empty());
    assert_eq!(w.get(e, T_I32), Err(ComponentError::MissingComponent(T_I32)));
}

#[test]
fn archetypes_generation_counts_creations() {
    let mut w = World::new();
    let g0 = w.archetypes_generation();
    w.spawn(&Bundle::new(vec![i32_part(1)]));
    let g1 = w.archetypes_generation();
    assert!(g1 > g0);
    w.spawn(&Bundle::new(vec![i32_part(2)]));
    assert_eq!(w.archetypes_generation(), g1);
}

#[test]
fn clear_despawns_everything_and_keeps_archetypes() {
    let mut w = World::new();
    let a = w.spawn(&Bundle::new(vec![i32_part(1)]));
    let b = w.spawn(&Bundle::new(vec![i32_part(2), bool_part(true)]));
    let archetype_count = w.archetypes.len();
    w.clear();
    assert!(!w.contains(a));
    assert!(!w.contains(b));
    assert_eq!(w.archetypes.len(), archetype_count);
    assert_eq!(hecs::query::collect_query(&Query::Entity, &w.archetypes).len(), 0);
    let c = w.spawn(&Bundle::new(vec![i32_part(3)]));
    assert_eq!(w.get(c, T_I32), Ok(3));
    assert!(c.generation > a.generation || c.id != a.id);
}

#[test]
fn iter_lists_every_live_entity_once() {
    let mut w = World::new();
    let a = w.spawn(&Bundle::new(vec![i32_part(1)]));
    let b = w.spawn(&Bundle::new(vec![i32_part(2), bool_part(true)]));
    let c = w.spawn(&Bundle::new(vec![bool_part(false)]));
    w.despawn(b).unwrap();
    let all = w.iter();
    assert_eq!(all.len(), 2);
    assert!(all.contains(&a));
    assert!(all.contains(&c));
    assert!(!all.contains(&b));
}

#[test]
fn query_one_reads_a_single_entity() {
    let mut w = World::new();
    let a = w.spawn(&Bundle::new(vec![i32_part(9), bool_part(true)]));
    let b = w.spawn(&Bundle::new(vec![bool_part(false)]));
    let q = Query::Read(T_I32);
    assert_eq!(w.query_one(a, &q), Ok(Some(vec![ItemPart::Value(9)])));
    assert_eq!(w.query_one(b, &q), Ok(None));
    w.despawn(a).unwrap();
    assert!(w.query_one(a, &q).is_err());
}

#[test]
fn spawn_batch_issues_distinct_live_handles() {
    let mut w = World::new();
    let bundles: Vec<Bundle> = (0..5i64)
        .map(|i| Bundle::new(vec![i32_part(i * 10)]))
        .collect();
    let handles = w.spawn_batch(&bundles);
    assert_eq!(handles.len(), 5);
    for (i, e) in handles.iter().enumerate() {
        assert!(w.contains(*e));
        assert_eq!(w.get(*e, T_I32), Ok((i as u64) * 10));
    }
}
