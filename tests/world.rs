use archetype_ecs::{ComponentTypeId, EcsError, EntityId, IntoQuery, World, VOID_ARCHETYPE};

#[derive(Debug, Clone, Copy, PartialEq)]
struct Position(f32, f32);

#[derive(Debug, Clone, Copy, PartialEq)]
struct Velocity(f32, f32);

#[derive(Debug, Clone, Copy, PartialEq)]
struct Health(u32);

#[derive(Debug, Clone, Copy, PartialEq)]
enum Comp {
    Position(Position),
    Velocity(Velocity),
    Health(Health),
}

fn pos_ty() -> ComponentTypeId {
    ComponentTypeId::of::<Position>()
}

fn vel_ty() -> ComponentTypeId {
    ComponentTypeId::of::<Velocity>()
}

fn health_ty() -> ComponentTypeId {
    ComponentTypeId::of::<Health>()
}

fn resolves(world: &World<Comp>, e: EntityId) -> bool {
    match world.entity_pointer(e) {
        Some(p) => match world.archetype_entities(p.archetype_id) {
            Some(rows) => p.row_index < rows.len() && rows[p.row_index] == e,
            None => false,
        },
        None => false,
    }
}

fn sorted(mut v: Vec<EntityId>) -> Vec<EntityId> {
    v.sort();
    v
}

#[test]
fn position_is_stored_and_read_back() {
    let mut world: World<Comp> = World::init();
    let e0 = world.new_entity();
    let r = world.set_component(e0, pos_ty(), Comp::Position(Position(1.0, 4.0)));
    assert_eq!(r, Ok(None));
    assert_eq!(
        world.clone_component(e0, &pos_ty()),
        Ok(Some(Comp::Position(Position(1.0, 4.0))))
    );
    let p = world.entity_pointer(e0).unwrap();
    assert_ne!(p.archetype_id, VOID_ARCHETYPE);
}

#[test]
fn query_selects_only_entities_with_all_types() {
    let mut world: World<Comp> = World::init();
    let e0 = world.new_entity();
    let e1 = world.new_entity();
    world.set_component(e0, pos_ty(), Comp::Position(Position(0.0, 0.0))).unwrap();
    world.set_component(e1, pos_ty(), Comp::Position(Position(1.0, 1.0))).unwrap();
    world.set_component(e1, vel_ty(), Comp::Velocity(Velocity(2.0, 2.0))).unwrap();
    let both = world.query(&[pos_ty(), vel_ty()]);
    assert_eq!(both.entities(), vec![e1]);
    let positioned = world.query(&[pos_ty()]);
    assert_eq!(sorted(positioned.entities()), vec![e0, e1]);
}

#[test]
fn new_entities_get_increasing_ids_in_the_void_archetype() {
    let mut world: World<Comp> = World::init();
    assert_eq!(world.entity_count(), 0);
    let e0 = world.new_entity();
    let e1 = world.new_entity();
    assert_eq!((e0, e1), (0, 1));
    assert_eq!(world.entity_count(), 2);
    assert_eq!(world.entity_pointer(e1).unwrap().archetype_id, VOID_ARCHETYPE);
    assert_eq!(world.entity_pointer(e1).unwrap().row_index, 1);
    assert_eq!(world.archetype_entities(VOID_ARCHETYPE).unwrap(), &vec![0, 1]);
    assert_eq!(world.clone_component(e0, &pos_ty()), Ok(None));
}

#[test]
fn every_pointer_resolves_after_mixed_operations() {
    let mut world: World<Comp> = World::init();
    let mut ids = Vec::new();
    for i in 0..12u32 {
        let e = world.new_entity();
        ids.push(e);
        if i % 2 == 0 {
            world.set_component(e, pos_ty(), Comp::Position(Position(i as f32, 0.0))).unwrap();
        }
        if i % 3 == 0 {
            world.set_component(e, vel_ty(), Comp::Velocity(Velocity(0.0, i as f32))).unwrap();
        }
        if i % 4 == 0 {
            world.set_component(e, health_ty(), Comp::Health(Health(i))).unwrap();
        }
        for e in &ids {
            assert!(resolves(&world, *e));
        }
    }
    for (i, e) in ids.iter().enumerate() {
        let expected = if i % 2 == 0 { Some(Comp::Position(Position(i as f32, 0.0))) } else { None };
        assert_eq!(world.clone_component(*e, &pos_ty()), Ok(expected));
    }
}

#[test]
fn second_set_overwrites_in_place() {
    let mut world: World<Comp> = World::init();
    let e = world.new_entity();
    world.set_component(e, pos_ty(), Comp::Position(Position(1.0, 1.0))).unwrap();
    let before = world.entity_pointer(e).unwrap();
    let r = world.set_component(e, pos_ty(), Comp::Position(Position(5.0, 6.0)));
    assert_eq!(r, Ok(Some(Comp::Position(Position(1.0, 1.0)))));
    assert_eq!(world.entity_pointer(e).unwrap(), before);
    assert_eq!(
        world.clone_component(e, &pos_ty()),
        Ok(Some(Comp::Position(Position(5.0, 6.0))))
    );
}

#[test]
fn archetype_does_not_depend_on_insertion_order() {
    let mut world: World<Comp> = World::init();
    let a = world.new_entity();
    let b = world.new_entity();
    world.set_component(a, pos_ty(), Comp::Position(Position(0.0, 0.0))).unwrap();
    world.set_component(a, vel_ty(), Comp::Velocity(Velocity(0.0, 0.0))).unwrap();
    world.set_component(b, vel_ty(), Comp::Velocity(Velocity(1.0, 1.0))).unwrap();
    world.set_component(b, pos_ty(), Comp::Position(Position(1.0, 1.0))).unwrap();
    let pa = world.entity_pointer(a).unwrap();
    let pb = world.entity_pointer(b).unwrap();
    assert_eq!(pa.archetype_id, pb.archetype_id);
    assert_eq!(pa.archetype_id, VOID_ARCHETYPE ^ pos_ty().digest() ^ vel_ty().digest());
    assert_eq!(world.archetype_entities(pa.archetype_id).unwrap(), &vec![a, b]);
}

#[test]
fn migration_moves_last_entity_into_vacated_row() {
    let mut world: World<Comp> = World::init();
    let e0 = world.new_entity();
    let e1 = world.new_entity();
    let e2 = world.new_entity();
    for (i, e) in [e0, e1, e2].iter().enumerate() {
        world.set_component(*e, pos_ty(), Comp::Position(Position(i as f32, 0.0))).unwrap();
    }
    let x = world.entity_pointer(e0).unwrap().archetype_id;
    assert_eq!(world.archetype_entities(x).unwrap().len(), 3);
    world.set_component(e0, vel_ty(), Comp::Velocity(Velocity(9.0, 9.0))).unwrap();
    assert_eq!(world.archetype_entities(x).unwrap(), &vec![e2, e1]);
    let p2 = world.entity_pointer(e2).unwrap();
    assert_eq!((p2.archetype_id, p2.row_index), (x, 0));
    assert_eq!(
        world.clone_component(e2, &pos_ty()),
        Ok(Some(Comp::Position(Position(2.0, 0.0))))
    );
    assert_eq!(
        world.clone_component(e0, &pos_ty()),
        Ok(Some(Comp::Position(Position(0.0, 0.0))))
    );
    assert_eq!(
        world.clone_component(e0, &vel_ty()),
        Ok(Some(Comp::Velocity(Velocity(9.0, 9.0))))
    );
}

#[test]
fn migrating_the_last_entity_fixes_no_other_pointer() {
    let mut world: World<Comp> = World::init();
    let e0 = world.new_entity();
    let e1 = world.new_entity();
    world.set_component(e1, health_ty(), Comp::Health(Health(3))).unwrap();
    assert_eq!(world.archetype_entities(VOID_ARCHETYPE).unwrap(), &vec![e0]);
    assert_eq!(world.entity_pointer(e0).unwrap().row_index, 0);
    assert_eq!(world.entity_pointer(e1).unwrap().row_index, 0);
}

#[test]
fn query_lists_reverse_index_entries() {
    let mut world: World<Comp> = World::init();
    let e0 = world.new_entity();
    let e1 = world.new_entity();
    let e2 = world.new_entity();
    world.set_component(e0, pos_ty(), Comp::Position(Position(0.0, 0.0))).unwrap();
    world.set_component(e1, vel_ty(), Comp::Velocity(Velocity(0.0, 0.0))).unwrap();
    world.set_component(e2, pos_ty(), Comp::Position(Position(0.0, 0.0))).unwrap();
    world.set_component(e2, vel_ty(), Comp::Velocity(Velocity(0.0, 0.0))).unwrap();
    let p = VOID_ARCHETYPE ^ pos_ty().digest();
    let v = VOID_ARCHETYPE ^ vel_ty().digest();
    let pv = p ^ vel_ty().digest();
    let mut only_pos = world.query(&[pos_ty()]).archetype_ids().clone();
    only_pos.sort();
    let mut expected = vec![p, pv];
    expected.sort();
    assert_eq!(only_pos, expected);
    let mut only_vel = world.query(&[vel_ty()]).archetype_ids().clone();
    only_vel.sort();
    let mut expected = vec![v, pv];
    expected.sort();
    assert_eq!(only_vel, expected);
    assert_eq!(world.query(&[pos_ty(), vel_ty()]).archetype_ids(), &vec![pv]);
    assert_eq!(world.query(&[vel_ty(), pos_ty()]).archetype_ids(), &vec![pv]);
}

#[test]
fn query_on_unused_type_is_empty() {
    let mut world: World<Comp> = World::init();
    let e0 = world.new_entity();
    world.set_component(e0, pos_ty(), Comp::Position(Position(0.0, 0.0))).unwrap();
    let q = world.query(&[health_ty()]);
    assert!(q.archetype_ids().is_empty());
    assert!(q.entities().is_empty());
    let q = world.query(&[health_ty(), pos_ty()]);
    assert!(q.entities().is_empty());
}

#[test]
fn set_then_clone_round_trips() {
    let mut world: World<Comp> = World::init();
    let e = world.new_entity();
    world.set_component(e, health_ty(), Comp::Health(Health(10))).unwrap();
    world.set_component(e, vel_ty(), Comp::Velocity(Velocity(-1.5, 2.5))).unwrap();
    assert_eq!(world.clone_component(e, &health_ty()), Ok(Some(Comp::Health(Health(10)))));
    assert_eq!(
        world.clone_component(e, &vel_ty()),
        Ok(Some(Comp::Velocity(Velocity(-1.5, 2.5))))
    );
    assert_eq!(world.get_component(e, &vel_ty()), Ok(Some(&Comp::Velocity(Velocity(-1.5, 2.5)))));
}

#[test]
fn unknown_entity_is_reported() {
    let mut world: World<Comp> = World::init();
    let _ = world.new_entity();
    assert_eq!(world.clone_component(7, &pos_ty()), Err(EcsError::EntityNotFound));
    assert_eq!(world.get_component(7, &pos_ty()), Err(EcsError::EntityNotFound));
    assert_eq!(
        world.set_component(7, pos_ty(), Comp::Position(Position(0.0, 0.0))),
        Err(EcsError::EntityNotFound)
    );
    assert!(world.entity_pointer(7).is_none());
}

#[test]
fn tuple_queries_match_slice_queries() {
    let mut world: World<Comp> = World::init();
    let e0 = world.new_entity();
    let e1 = world.new_entity();
    world.set_component(e0, pos_ty(), Comp::Position(Position(0.0, 0.0))).unwrap();
    world.set_component(e1, pos_ty(), Comp::Position(Position(1.0, 1.0))).unwrap();
    world.set_component(e1, vel_ty(), Comp::Velocity(Velocity(2.0, 2.0))).unwrap();
    world.set_component(e1, health_ty(), Comp::Health(Health(1))).unwrap();
    assert_eq!(<(Position, Velocity)>::query(&world).entities(), vec![e1]);
    assert_eq!(sorted(<(Position,)>::query(&world).entities()), vec![e0, e1]);
    assert_eq!(<(Health, Velocity, Position)>::query(&world).entities(), vec![e1]);
    assert!(<(Health, Velocity, Position, u8)>::query(&world).entities().is_empty());
    assert!(<(Health, Velocity, Position, u8, u16, u32, u64, i8, i16, i32, i64, bool)>::query(&world)
        .archetype_ids()
        .is_empty());
}

#[test]
fn query_rows_pair_archetypes_with_row_indices() {
    let mut world: World<Comp> = World::init();
    let e0 = world.new_entity();
    let e1 = world.new_entity();
    let e2 = world.new_entity();
    for e in [e0, e1, e2] {
        world.set_component(e, pos_ty(), Comp::Position(Position(0.0, 0.0))).unwrap();
    }
    world.set_component(e1, vel_ty(), Comp::Velocity(Velocity(0.0, 0.0))).unwrap();
    let q = world.query(&[vel_ty()]);
    let rows = q.rows();
    assert_eq!(rows.len(), 1);
    assert_eq!(rows[0], world.entity_pointer(e1).unwrap());
    let q = world.query(&[pos_ty()]);
    let mut rows: Vec<(u64, usize)> = q.rows().iter().map(|p| (p.archetype_id, p.row_index)).collect();
    rows.sort();
    let mut expected: Vec<(u64, usize)> = [e0, e1, e2]
        .iter()
        .map(|e| {
            let p = world.entity_pointer(*e).unwrap();
            (p.archetype_id, p.row_index)
        })
        .collect();
    expected.sort();
    assert_eq!(rows, expected);
}

#[test]
fn missing_archetype_and_component_read_as_none() {
    let mut world: World<Comp> = World::init();
    let e = world.new_entity();
    assert!(world.archetype_entities(12345).is_none());
    assert_eq!(world.get_component(e, &vel_ty()), Ok(None));
    world.set_component(e, pos_ty(), Comp::Position(Position(3.0, 3.0))).unwrap();
    assert_eq!(world.get_component(e, &vel_ty()), Ok(None));
    assert!(world.archetype_entities(VOID_ARCHETYPE).unwrap().is_empty());
}
