use archetype_ecs::{Archetype, Column, ComponentTypeId, EcsError};

fn ty(name: &'static str) -> ComponentTypeId {
    ComponentTypeId::named(name)
}

#[test]
fn column_push_get_and_type_check() {
    let mut c: Column<u32> = Column::init_empty_of(ty("a"));
    assert_eq!(c.len(), 0);
    assert_eq!(c.push(&ty("a"), 5), Ok(()));
    assert_eq!(c.push(&ty("b"), 6), Err(EcsError::TypeMismatch));
    assert_eq!(c.len(), 1);
    assert_eq!(c.get(&ty("a"), 0), Ok(Some(&5)));
    assert_eq!(c.get(&ty("a"), 1), Ok(None));
    assert_eq!(c.get(&ty("b"), 0), Err(EcsError::TypeMismatch));
}

#[test]
fn column_set_overwrites_or_appends() {
    let mut c: Column<u32> = Column::init_empty_of(ty("a"));
    assert_eq!(c.set(&ty("a"), 0, 1), Ok(None));
    assert_eq!(c.set(&ty("a"), 0, 2), Ok(Some(1)));
    assert_eq!(c.set(&ty("b"), 0, 3), Err(EcsError::TypeMismatch));
    assert_eq!(c.get(&ty("a"), 0), Ok(Some(&2)));
    assert_eq!(c.len(), 1);
}

#[test]
fn column_swap_remove_takes_last_into_place() {
    let mut c: Column<u32> = Column::init_empty_of(ty("a"));
    for v in [10, 20, 30, 40] {
        c.push(&ty("a"), v).unwrap();
    }
    assert_eq!(c.swap_remove(1), 20);
    assert_eq!(c.len(), 3);
    assert_eq!(c.get(&ty("a"), 1), Ok(Some(&40)));
    assert_eq!(c.swap_remove(2), 30);
    assert_eq!(c.get(&ty("a"), 0), Ok(Some(&10)));
}

#[test]
fn column_move_to_carries_the_value() {
    let mut src: Column<u32> = Column::init_empty_of(ty("a"));
    let mut dest = src.clone_empty();
    assert_eq!(dest.component_type(), ty("a"));
    src.push(&ty("a"), 1).unwrap();
    src.push(&ty("a"), 2).unwrap();
    assert_eq!(src.move_to(0, &mut dest, 0), Ok(None));
    assert_eq!(dest.get(&ty("a"), 0), Ok(Some(&1)));
    assert_eq!(src.get(&ty("a"), 0), Ok(Some(&2)));
    assert_eq!(src.len(), 1);
    let mut other: Column<u32> = Column::init_empty_of(ty("b"));
    assert_eq!(src.move_to(0, &mut other, 0), Err(EcsError::TypeMismatch));
    assert_eq!(src.len(), 1);
    assert_eq!(src.move_to(0, &mut dest, 0), Ok(Some(1)));
    assert_eq!(dest.get(&ty("a"), 0), Ok(Some(&2)));
    assert_eq!(src.len(), 0);
}

#[test]
fn archetype_rows_and_values() {
    let base: Archetype<u32> = Archetype::empty();
    let mut a = base.with_added_type(ty("a"));
    assert!(a.has_type(ty("a").type_id()));
    assert!(!a.has_type(ty("b").type_id()));
    assert_eq!(a.new_row(7), 0);
    assert_eq!(a.push(&ty("a"), 70), Ok(()));
    assert_eq!(a.push(&ty("b"), 1), Err(EcsError::TypeMismatch));
    assert_eq!(a.new_row(8), 1);
    a.push(&ty("a"), 80).unwrap();
    assert_eq!(a.len(), 2);
    assert_eq!(a.get(&ty("a"), 1), Some(&80));
    assert_eq!(a.set(1, &ty("a"), 81), Ok(80));
    assert_eq!(a.set(2, &ty("a"), 1), Err(EcsError::ArchetypeInvariantViolation));
    assert_eq!(a.set(0, &ty("b"), 1), Err(EcsError::TypeMismatch));
    assert_eq!(a.swap_remove(0), 8);
    assert_eq!(a.entity_ids(), &vec![8]);
    assert_eq!(a.get(&ty("a"), 0), Some(&81));
}

#[test]
fn archetype_moves_a_row_with_its_values() {
    let base: Archetype<u32> = Archetype::empty();
    let mut src = base.with_added_type(ty("a"));
    for (e, v) in [(1u32, 10u32), (2, 20), (3, 30)] {
        src.new_row(e);
        src.push(&ty("a"), v).unwrap();
    }
    let mut dest = src.with_added_type(ty("b"));
    assert!(dest.is_extension_of(&src, ty("b").type_id()));
    assert!(!src.is_extension_of(&dest, ty("b").type_id()));
    let moved_last = src.move_row_to(0, &mut dest);
    assert_eq!(moved_last, 3);
    dest.push(&ty("b"), 100).unwrap();
    assert_eq!(src.entity_ids(), &vec![3, 2]);
    assert_eq!(src.get(&ty("a"), 0), Some(&30));
    assert_eq!(dest.entity_ids(), &vec![1]);
    assert_eq!(dest.get(&ty("a"), 0), Some(&10));
    assert_eq!(dest.get(&ty("b"), 0), Some(&100));
    assert_eq!(dest.component_types().len(), 2);
}

#[test]
fn component_ids_compare_by_key() {
    assert_eq!(ty("Position"), ty("Position"));
    assert_ne!(ty("Position"), ty("Velocity"));
    assert_eq!(ty("Position").name(), Some("Position"));
    assert_eq!(ComponentTypeId::of::<u8>(), ComponentTypeId::of::<u8>());
    assert_ne!(ComponentTypeId::of::<u8>(), ComponentTypeId::of::<u16>());
    assert_eq!(ComponentTypeId::of::<u8>().name(), None);
}

#[test]
fn digest_is_a_hash_of_the_key() {
    let a = ty("Position");
    let b = ty("Velocity");
    assert_eq!(a.digest(), ty("Position").digest());
    assert_ne!(a.digest(), b.digest());
    assert_ne!(a.digest(), a.type_id());
}

#[test]
fn archetype_entity_at_reads_rows() {
    let mut a: Archetype<u32> = Archetype::empty();
    assert_eq!(a.len(), 0);
    a.new_row(4);
    a.new_row(9);
    assert_eq!(a.entity_at(0), 4);
    assert_eq!(a.entity_at(1), 9);
    assert!(a.component_types().is_empty());
}
