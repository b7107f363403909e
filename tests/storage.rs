use flecs_ecs::{is_pair, pair, pair_first, pair_second, World};

#[test]
fn pair_encodes_relationship_and_target() {
    let p = pair(3, 7);
    assert!(is_pair(p));
    assert_eq!(pair_first(p), 3);
    assert_eq!(pair_second(p), 7);
    assert_eq!(p, 0x8000_0003_0000_0007);
    assert!(!is_pair(3));
}

#[test]
fn new_entity_hands_out_increasing_ids() {
    let mut world: World<i64> = World::new();
    assert_eq!(world.new_entity(), Some(1));
    assert_eq!(world.new_entity(), Some(2));
    assert_eq!(world.last_id, 2);
}

#[test]
fn entities_with_same_ids_share_a_table() {
    let mut world: World<i64> = World::new();
    let pos = world.new_entity().unwrap();
    let vel = world.new_entity().unwrap();
    let a = world.new_entity_with(vec![pos, vel], vec![1, 2]).unwrap();
    let b = world.new_entity_with(vec![pos, vel], vec![3, 4]).unwrap();
    let c = world.new_entity_with(vec![pos], vec![5]).unwrap();
    assert_eq!(world.tables.len(), 2);
    assert_eq!(world.tables[0].entities, vec![a, b]);
    assert_eq!(world.tables[0].columns, vec![vec![1, 3], vec![2, 4]]);
    assert_eq!(world.tables[1].entities, vec![c]);
    assert_eq!(world.locate(b), Some((0, 1)));
    assert_eq!(world.get(b, vel), Some(&4));
    assert_eq!(world.get(c, vel), None);
    assert_eq!(world.table_for(&vec![pos]), Some(1));
}

#[test]
fn new_entity_with_rejects_bad_requests() {
    let mut world: World<i64> = World::new();
    let pos = world.new_entity().unwrap();
    let vel = world.new_entity().unwrap();
    assert_eq!(world.new_entity_with(vec![vel, pos], vec![1, 2]), None);
    assert_eq!(world.new_entity_with(vec![pos, pos], vec![1, 2]), None);
    assert_eq!(world.new_entity_with(vec![pos], vec![1, 2]), None);
    assert_eq!(world.tables.len(), 0);
    assert_eq!(world.last_id, 2);
}

#[test]
fn group_key_is_target_of_relationship_pair() {
    let mut world: World<i64> = World::new();
    let pos = world.new_entity().unwrap();
    let group = world.new_entity().unwrap();
    let first = world.new_entity().unwrap();
    world.new_entity_with(vec![pos, pair(group, first)], vec![0, 0]).unwrap();
    assert_eq!(world.tables[0].group_key(group), first);
    assert_eq!(world.tables[0].group_key(pos), 0);
    assert_eq!(world.tables[0].column_index(pair(group, first)), Some(1));
    assert_eq!(world.tables[0].count(), 1);
}
