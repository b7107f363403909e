use flecs_ecs::{pair, Filter, FilterView, IterOperations, QueryDesc, Term, World};

struct Ids {
    position: u64,
    velocity: u64,
    tag: u64,
}

fn setup() -> (World<i64>, Ids) {
    let mut world: World<i64> = World::new();
    let position = world.new_entity().unwrap();
    let velocity = world.new_entity().unwrap();
    let tag = world.new_entity().unwrap();
    world.new_entity_with(vec![position, velocity], vec![10, 1]).unwrap();
    world.new_entity_with(vec![position, velocity], vec![20, 2]).unwrap();
    world.new_entity_with(vec![position], vec![30]).unwrap();
    world.new_entity_with(vec![position, velocity, tag], vec![40, 4, 0]).unwrap();
    (world, Ids { position, velocity, tag })
}

#[test]
fn each_visits_every_row_and_count_agrees() {
    let (world, ids) = setup();
    let q = Filter::new(&world, vec![ids.position, ids.velocity]);
    let mut seen: Vec<(i64, i64)> = Vec::new();
    q.each(|t| seen.push((*t[0], *t[1])));
    assert_eq!(seen, vec![(10, 1), (20, 2), (40, 4)]);
    assert_eq!(q.count(), 3);
    let all = Filter::new(&world, vec![ids.position]);
    let mut calls = 0;
    all.each(|_| calls += 1);
    assert_eq!(calls, 4);
    assert_eq!(all.count(), 4);
}

#[test]
fn zero_match_query() {
    let (world, ids) = setup();
    let q = Filter::new(&world, vec![ids.tag, ids.position + 100]);
    let mut calls = 0;
    q.each(|_| calls += 1);
    assert_eq!(calls, 0);
    assert_eq!(q.count(), 0);
    assert!(!q.is_true());
    assert_eq!(q.first_entity(), None);
}

#[test]
fn is_true_and_first_entity() {
    let (world, ids) = setup();
    let q = Filter::new(&world, vec![ids.tag]);
    assert!(q.is_true());
    assert_eq!(q.first_entity(), Some(7));
    let p = Filter::new(&world, vec![ids.position]);
    assert_eq!(p.first_entity(), Some(4));
}

#[test]
fn find_stops_at_first_match() {
    let (world, ids) = setup();
    let q = Filter::new(&world, vec![ids.position]);
    let mut calls = 0;
    let found = q.find(|t| {
        calls += 1;
        *t[0] >= 20
    });
    assert_eq!(found, Some(5));
    assert_eq!(calls, 2);
    let mut calls_none = 0;
    let none = q.find(|t| {
        calls_none += 1;
        *t[0] > 1000
    });
    assert_eq!(none, None);
    assert_eq!(calls_none, 4);
}

#[test]
fn find_entity_and_find_iter() {
    let (world, ids) = setup();
    let q = Filter::new(&world, vec![ids.position]);
    assert_eq!(q.find_entity(|e, _| e == 6), Some(6));
    assert_eq!(q.find_entity(|_, t| *t[0] == 99), None);
    let found = q.find_iter(|it, row, t| it.entity(row) == 7 && *t[0] == 40);
    assert_eq!(found, Some(7));
}

#[test]
fn each_entity_passes_entities_in_order() {
    let (world, ids) = setup();
    let q = Filter::new(&world, vec![ids.velocity]);
    let mut seen: Vec<(u64, i64)> = Vec::new();
    q.each_entity(|e, t| seen.push((e, *t[0])));
    assert_eq!(seen, vec![(4, 1), (5, 2), (7, 4)]);
}

#[test]
fn each_iter_gives_row_and_cursor() {
    let (world, ids) = setup();
    let q = Filter::new(&world, vec![ids.position]);
    let mut seen: Vec<(usize, usize, i64)> = Vec::new();
    q.each_iter(|it, row, t| seen.push((it.table().unwrap(), row, *t[0])));
    assert_eq!(seen, vec![(0, 0, 10), (0, 1, 20), (1, 0, 30), (2, 0, 40)]);
}

#[test]
fn run_iter_hands_whole_batches() {
    let (world, ids) = setup();
    let q = Filter::new(&world, vec![ids.position, ids.velocity]);
    let mut tables = 0;
    let mut sums: Vec<i64> = Vec::new();
    q.run_iter(|it, fields| {
        tables += 1;
        let mut it_rows = it.iter();
        let mut sum = 0;
        while let Some(i) = it_rows.next() {
            sum += *fields[0].get(i) + *fields[1].get(i);
        }
        sums.push(sum);
    });
    assert_eq!(tables, 2);
    assert_eq!(sums, vec![33, 44]);
}

#[test]
fn run_drives_the_cursor() {
    let (world, ids) = setup();
    let q = Filter::new(&world, vec![ids.position]);
    let mut tables = 0;
    let mut entities = 0;
    let mut positions: Vec<i64> = Vec::new();
    q.run(|mut it| {
        while it.next_iter() {
            tables += 1;
            let pos = it.field(0, ids.position).unwrap();
            for i in 0..it.count() {
                entities += 1;
                positions.push(*pos.get(i));
            }
        }
    });
    assert_eq!(tables, 3);
    assert_eq!(entities, 4);
    assert_eq!(positions, vec![10, 20, 30, 40]);
}

#[test]
fn run_each_forwards_rows() {
    let (world, ids) = setup();
    let q = Filter::new(&world, vec![ids.position, ids.velocity]);
    let mut tables = 0;
    let mut rows: Vec<i64> = Vec::new();
    q.run_each(
        |mut it| {
            while it.next_iter() {
                tables += 1;
                it.each();
            }
        },
        |t| rows.push(*t[0] * 100 + *t[1]),
    );
    assert_eq!(tables, 2);
    assert_eq!(rows, vec![1001, 2002, 4004]);
}

#[test]
fn run_each_entity_forwards_entities() {
    let (world, ids) = setup();
    let q = Filter::new(&world, vec![ids.tag]);
    let mut seen: Vec<u64> = Vec::new();
    q.run_each_entity(
        |mut it| {
            while it.next_iter() {
                it.each();
            }
        },
        |e, _| seen.push(e),
    );
    assert_eq!(seen, vec![7]);
}

#[test]
fn lock_is_held_only_on_current_table() {
    let (world, ids) = setup();
    let q = Filter::new(&world, vec![ids.position]);
    let mut observed: Vec<Vec<u32>> = Vec::new();
    q.run(|mut it| {
        while it.next_iter() {
            observed.push(it.iter.locks.clone());
        }
        observed.push(it.iter.locks.clone());
    });
    assert_eq!(
        observed,
        vec![vec![1, 0, 0], vec![0, 1, 0], vec![0, 0, 1], vec![0, 0, 0]]
    );
}

#[test]
fn fini_releases_lock_on_early_exit() {
    let (world, ids) = setup();
    let q = Filter::new(&world, vec![ids.position]);
    let mut after: Vec<u32> = Vec::new();
    q.run(|mut it| {
        assert!(it.next_iter());
        it.fini();
        after = it.iter.locks.clone();
    });
    assert_eq!(after, vec![0, 0, 0]);
}

#[test]
fn typed_field_access_checks_id() {
    let (world, ids) = setup();
    let q = Filter::new(&world, vec![ids.position, ids.velocity]);
    q.run(|mut it| {
        assert!(it.next_iter());
        assert!(it.field(0, ids.velocity).is_none());
        assert!(it.field(5, ids.position).is_none());
        let vel = it.field(1, ids.velocity).unwrap();
        assert_eq!(vel.len(), 2);
        assert!(!vel.is_shared());
        assert_eq!(*vel.get(1), 2);
        assert_eq!(it.field_at(0, 1, ids.position), Some(&20));
        assert_eq!(it.field_at(0, 1, ids.velocity), None);
        assert_eq!(it.field_untyped(1).len(), 2);
        assert_eq!(it.field_count(), 2);
        assert_eq!(it.archetype(), Some(vec![ids.position, ids.velocity]));
        assert_eq!(it.table_range(), Some((0, 0, 2)));
        assert_eq!(it.entities().unwrap().get(1), &5);
        assert!(it.is_self(0));
        assert!(!it.is_readonly(0));
        assert_eq!(it.src(0), 0);
        assert_eq!(it.id(1), ids.velocity);
        assert_eq!(it.pair(1), None);
        assert_eq!(it.system(), 0);
        assert_eq!(it.event(), 0);
        assert_eq!(it.event_id(), 0);
        it.skip();
        assert!(it.iter.skipped);
        it.fini();
    });
}

#[test]
fn pair_field_reads_as_its_target() {
    let mut world: World<i64> = World::new();
    let likes = world.new_entity().unwrap();
    let apples = world.new_entity().unwrap();
    world.new_entity_with(vec![pair(likes, apples)], vec![5]).unwrap();
    let q = Filter::new(&world, vec![pair(likes, apples)]);
    q.run(|mut it| {
        assert!(it.next_iter());
        assert_eq!(it.pair(0), Some(pair(likes, apples)));
        assert_eq!(*it.field(0, apples).unwrap().get(0), 5);
        assert!(it.field(0, likes).is_none());
        it.fini();
    });
}

#[test]
fn shared_field_broadcasts_one_value() {
    let mut world: World<i64> = World::new();
    let position = world.new_entity().unwrap();
    let gravity = world.new_entity().unwrap();
    let game = world.new_entity_with(vec![gravity], vec![981]).unwrap();
    world.new_entity_with(vec![position], vec![1]).unwrap();
    world.new_entity_with(vec![position], vec![2]).unwrap();
    let desc = QueryDesc {
        terms: vec![
            Term { id: position, src: 0, readonly: false },
            Term { id: gravity, src: game, readonly: true },
        ],
        group_by: 0,
    };
    let q = Filter::new_from_desc(&world, desc);
    let mut seen: Vec<(i64, i64)> = Vec::new();
    q.each(|t| seen.push((*t[0], *t[1])));
    assert_eq!(seen, vec![(1, 981), (2, 981)]);
    q.run(|mut it| {
        assert!(it.next_iter());
        let g = it.field(1, gravity).unwrap();
        assert!(g.is_shared());
        assert_eq!(g.len(), 2);
        assert!(std::ptr::eq(g.get(0), g.get(1)));
        let p = it.field(0, position).unwrap();
        assert!(!std::ptr::eq(p.get(0), p.get(1)));
        assert!(!it.is_self(1));
        assert!(it.is_readonly(1));
        it.fini();
    });
}

#[test]
fn query_without_owned_terms_runs_once() {
    let mut world: World<i64> = World::new();
    let gravity = world.new_entity().unwrap();
    let game = world.new_entity_with(vec![gravity], vec![981]).unwrap();
    let desc = QueryDesc { terms: vec![Term { id: gravity, src: game, readonly: true }], group_by: 0 };
    let q = Filter::new_from_desc(&world, desc);
    let mut seen: Vec<i64> = Vec::new();
    q.each(|t| seen.push(*t[0]));
    assert_eq!(seen, vec![981]);
    assert_eq!(q.count(), 0);
    assert!(q.is_true());
    assert_eq!(q.first_entity(), None);
}

#[test]
fn missing_fixed_source_matches_nothing() {
    let mut world: World<i64> = World::new();
    let position = world.new_entity().unwrap();
    let gravity = world.new_entity().unwrap();
    world.new_entity_with(vec![position], vec![1]).unwrap();
    let desc = QueryDesc {
        terms: vec![
            Term { id: position, src: 0, readonly: false },
            Term { id: gravity, src: 3, readonly: true },
        ],
        group_by: 0,
    };
    let q = Filter::new_from_desc(&world, desc);
    assert!(!q.is_true());
    assert_eq!(q.count(), 0);
}

#[test]
fn group_by_orders_batches_by_target() {
    let mut world: World<i64> = World::new();
    let position = world.new_entity().unwrap();
    let tag = world.new_entity().unwrap();
    let group = world.new_entity().unwrap();
    let first = world.new_entity().unwrap();
    let second = world.new_entity().unwrap();
    let third = world.new_entity().unwrap();
    world.new_entity_with(vec![position, pair(group, third)], vec![1, 0]).unwrap();
    world.new_entity_with(vec![position, pair(group, second)], vec![2, 0]).unwrap();
    world.new_entity_with(vec![position, pair(group, first)], vec![3, 0]).unwrap();
    world.new_entity_with(vec![position, tag, pair(group, third)], vec![4, 0, 0]).unwrap();
    world.new_entity_with(vec![position, tag, pair(group, second)], vec![5, 0, 0]).unwrap();
    world.new_entity_with(vec![position, tag, pair(group, first)], vec![6, 0, 0]).unwrap();
    let q = Filter::new_from_desc(
        &world,
        QueryDesc { terms: vec![Term { id: position, src: 0, readonly: false }], group_by: group },
    );
    let mut batches: Vec<(u64, Vec<i64>)> = Vec::new();
    q.run_iter(|it, fields| {
        let mut values: Vec<i64> = Vec::new();
        for i in 0..it.count() {
            values.push(*fields[0].get(i));
        }
        batches.push((it.group_id(), values));
    });
    assert_eq!(
        batches,
        vec![
            (first, vec![3]),
            (first, vec![6]),
            (second, vec![2]),
            (second, vec![5]),
            (third, vec![1]),
            (third, vec![4]),
        ]
    );
}

#[test]
fn grouped_batch_holds_all_rows_of_its_table() {
    let mut world: World<i64> = World::new();
    let position = world.new_entity().unwrap();
    let group = world.new_entity().unwrap();
    let first = world.new_entity().unwrap();
    let second = world.new_entity().unwrap();
    world.new_entity_with(vec![position, pair(group, second)], vec![1, 0]).unwrap();
    world.new_entity_with(vec![position, pair(group, first)], vec![2, 0]).unwrap();
    world.new_entity_with(vec![position, pair(group, first)], vec![3, 0]).unwrap();
    let q = Filter::new_from_desc(
        &world,
        QueryDesc { terms: vec![Term { id: position, src: 0, readonly: false }], group_by: group },
    );
    let mut batches: Vec<(u64, usize)> = Vec::new();
    q.run_iter(|it, _| batches.push((it.group_id(), it.count())));
    assert_eq!(batches, vec![(first, 2), (second, 1)]);
}

#[test]
fn terms_are_listed_in_order() {
    let (world, ids) = setup();
    let q = Filter::new(&world, vec![ids.position, ids.tag]);
    let mut seen: Vec<u64> = Vec::new();
    q.each_term(|t| seen.push(t.id));
    assert_eq!(seen, vec![ids.position, ids.tag]);
    assert_eq!(q.term(1).id, ids.tag);
    assert_eq!(q.field_count(), 2);
    assert_eq!(q.term_count(), 2);
}

#[test]
fn filter_view_starts_the_same_pass() {
    let (world, ids) = setup();
    let q = Filter::new(&world, vec![ids.velocity]);
    let view = FilterView::new(&world, &q);
    let mut it = view.retrieve_iter();
    let mut rows = 0;
    while view.iter_next(&mut it) {
        rows += it.count;
    }
    assert_eq!(rows, 3);
}

#[test]
fn query_expression_names_terms() {
    let mut world: World<i64> = World::new();
    let position = world.new_entity().unwrap();
    let gravity = world.new_entity().unwrap();
    let group = world.new_entity().unwrap();
    let first = world.new_entity().unwrap();
    let game = world.new_entity_with(vec![gravity], vec![981]).unwrap();
    let desc = QueryDesc {
        terms: vec![
            Term { id: position, src: 0, readonly: false },
            Term { id: gravity, src: game, readonly: true },
            Term { id: pair(group, first), src: 0, readonly: false },
        ],
        group_by: 0,
    };
    let q = Filter::new_from_desc(&world, desc);
    assert_eq!(q.to_string(), "#1, [in] #2(#5), (#3,#4)");
    let single = Filter::new(&world, vec![123456]);
    assert_eq!(single.to_string(), "#123456");
    let empty = Filter::new(&world, vec![]);
    assert_eq!(empty.to_string(), "");
}
