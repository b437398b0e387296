use hecs::{Access, Bundle, ItemPart, Query, TypeInfo, With, Without, World};

const T_I32: u64 = 1;
const T_BOOL: u64 = 2;
const T_STR: u64 = 3;

fn ti(id: u64, size: u64, align: u64) -> TypeInfo {
    TypeInfo { id, size, align }
}

fn i32_part(v: i64) -> (TypeInfo, u64) {
    (ti(T_I32, 4, 4), v as u64)
}

fn bool_part(v: bool) -> (TypeInfo, u64) {
    (ti(T_BOOL, 1, 1), if v { 1 } else { 0 })
}

fn str_part(tag: u64) -> (TypeInfo, u64) {
    (ti(T_STR, 16, 8), tag)
}

#[test]
fn access_order() {
    assert!(Access::Write > Access::Read);
    assert!(Access::Read > Access::Iterate);
    assert!(Some(Access::Iterate) > None);
}

#[test]
fn entity_and_read_without_filter() {
    let mut w = World::new();
    let _a = w.spawn(&Bundle::new(vec![i32_part(123), bool_part(true), str_part(7)]));
    let _b = w.spawn(&Bundle::new(vec![i32_part(456), bool_part(false)]));
    let c = w.spawn(&Bundle::new(vec![i32_part(42), str_part(8)]));
    let q = Query::Pair(Box::new(Query::Entity), Box::new(Query::Read(T_I32)));
    let mut qb = w.query(q).without(T_BOOL);
    let mut it = qb.iter(&mut w.archetypes);
    let mut rows: Vec<Vec<ItemPart>> = Vec::new();
    while let Some(row) = it.next(&qb.query, &w.archetypes) {
        rows.push(row);
    }
    qb.release(&mut w.archetypes);
    assert_eq!(rows, vec![vec![ItemPart::Entity(c.id), ItemPart::Value(42)]]);
}

#[test]
fn entity_and_read_with_filter() {
    let mut w = World::new();
    let a = w.spawn(&Bundle::new(vec![i32_part(123), bool_part(true), str_part(7)]));
    let b = w.spawn(&Bundle::new(vec![i32_part(456), bool_part(false)]));
    let _c = w.spawn(&Bundle::new(vec![i32_part(42), str_part(8)]));
    let q = Query::Pair(Box::new(Query::Entity), Box::new(Query::Read(T_I32)));
    let mut qb = w.query(q).with(T_BOOL);
    let mut it = qb.iter(&mut w.archetypes);
    let mut rows: Vec<Vec<ItemPart>> = Vec::new();
    while let Some(row) = it.next(&qb.query, &w.archetypes) {
        rows.push(row);
    }
    qb.release(&mut w.archetypes);
    assert_eq!(rows.len(), 2);
    assert!(rows.contains(&vec![ItemPart::Entity(a.id), ItemPart::Value(123)]));
    assert!(rows.contains(&vec![ItemPart::Entity(b.id), ItemPart::Value(456)]));
}

#[test]
fn write_query_doubles_flagged_rows() {
    let mut w = World::new();
    let a = w.spawn(&Bundle::new(vec![i32_part(123), bool_part(true)]));
    let b = w.spawn(&Bundle::new(vec![i32_part(42)]));
    let q = Query::Pair(Box::new(Query::Write(T_I32)), Box::new(Query::Read(T_BOOL)));
    let mut qb = w.query(q);
    let mut it = qb.iter(&mut w.archetypes);
    loop {
        let row = match it.next(&qb.query, &w.archetypes) {
            Some(r) => r,
            None => break,
        };
        let ai = it.archetype_index;
        let ri = it.row - 1;
        let number = match row[0] {
            ItemPart::Value(v) => v,
            _ => panic!("expected a value"),
        };
        let flag = match row[1] {
            ItemPart::Value(v) => v != 0,
            _ => panic!("expected a value"),
        };
        if flag {
            w.archetypes[ai].set_value(T_I32, ri, number * 2);
        }
    }
    qb.release(&mut w.archetypes);
    assert_eq!(w.get(a, T_I32), Ok(246));
    assert_eq!(w.get(b, T_I32), Ok(42));
}

#[test]
fn optional_query_marks_missing_columns() {
    let mut w = World::new();
    let _a = w.spawn(&Bundle::new(vec![i32_part(1), bool_part(true)]));
    let _b = w.spawn(&Bundle::new(vec![i32_part(2)]));
    let q = Query::Pair(
        Box::new(Query::Read(T_I32)),
        Box::new(Query::Opt(Box::new(Query::Read(T_BOOL)))),
    );
    let rows = hecs::query::collect_query(&q, &w.archetypes);
    assert_eq!(rows.len(), 2);
    assert!(rows.contains(&vec![ItemPart::Value(1), ItemPart::Value(1)]));
    assert!(rows.contains(&vec![ItemPart::Value(2), ItemPart::Missing]));
}

#[test]
fn batches_cover_iteration_in_order() {
    let mut w = World::new();
    for i in 0..10i64 {
        w.spawn(&Bundle::new(vec![i32_part(i)]));
    }
    for i in 0..5i64 {
        w.spawn(&Bundle::new(vec![i32_part(100 + i), bool_part(true)]));
    }
    let q = Query::Read(T_I32);
    let plain = hecs::query::collect_query(&q, &w.archetypes);
    for batch_size in [1usize, 3, 4, 100] {
        let batched = hecs::query::collect_batched(&q, &w.archetypes, batch_size);
        assert_eq!(plain, batched);
    }
    assert_eq!(plain.len(), 15);
}

#[test]
fn batched_iter_hands_out_bounded_batches() {
    let mut w = World::new();
    for i in 0..7i64 {
        w.spawn(&Bundle::new(vec![i32_part(i)]));
    }
    let q = Query::Read(T_I32);
    let mut qb = w.query(q);
    let mut bit = qb.iter_batched(&mut w.archetypes, 3);
    let mut seen: Vec<u64> = Vec::new();
    let mut batches: usize = 0;
    while let Some(mut batch) = bit.next(&qb.query, &w.archetypes) {
        batches += 1;
        let mut in_batch: usize = 0;
        while let Some(row) = batch.next(&qb.query, &w.archetypes) {
            in_batch += 1;
            match row[0] {
                ItemPart::Value(v) => seen.push(v),
                _ => panic!("expected a value"),
            }
        }
        assert!(in_batch >= 1 && in_batch <= 3);
    }
    qb.release(&mut w.archetypes);
    assert_eq!(batches, 3);
    assert_eq!(seen, vec![0, 1, 2, 3, 4, 5, 6]);
}

#[test]
fn query_len_counts_matching_rows() {
    let mut w = World::new();
    for i in 0..4i64 {
        w.spawn(&Bundle::new(vec![i32_part(i)]));
    }
    w.spawn(&Bundle::new(vec![bool_part(true)]));
    let q = Query::Read(T_I32);
    let mut qb = w.query(q);
    let it = qb.iter(&mut w.archetypes);
    assert_eq!(it.len(&qb.query, &w.archetypes), 4);
    qb.release(&mut w.archetypes);
}

#[test]
fn borrow_counters_follow_iter_and_release() {
    let mut w = World::new();
    let e = w.spawn(&Bundle::new(vec![i32_part(5), bool_part(true)]));
    let ai = w.location(e).unwrap().archetype;
    let q = Query::Pair(Box::new(Query::Read(T_I32)), Box::new(Query::Write(T_BOOL)));
    let mut qb = w.query(q);
    let _it = qb.iter(&mut w.archetypes);
    // shared borrow on the i32 column, writer on the bool column
    assert_eq!(w.archetypes[ai].borrows, vec![1, -1]);
    qb.release(&mut w.archetypes);
    assert_eq!(w.archetypes[ai].borrows, vec![0, 0]);
}

#[test]
fn with_and_without_wrap_the_query() {
    let w = World::new();
    let qb = w.query(Query::Entity).with(T_BOOL);
    match &qb.query {
        Query::With(With { type_id, inner }) => {
            assert_eq!(*type_id, T_BOOL);
            assert!(matches!(**inner, Query::Entity));
        }
        _ => panic!("expected a with-wrapped query"),
    }
    let qb2 = w.query(Query::Entity).without(T_STR);
    match &qb2.query {
        Query::Without(Without { type_id, inner }) => {
            assert_eq!(*type_id, T_STR);
            assert!(matches!(**inner, Query::Entity));
        }
        _ => panic!("expected a without-wrapped query"),
    }
}
