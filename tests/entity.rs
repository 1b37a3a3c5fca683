use quartz::archetype::ArchetypeId;
use quartz::entity::{Entities, EntityLocation};
use quartz::storage::{TableId, TableRow};

#[test]
fn alloc_entity() {
    let mut entities = Entities::new();
    let entity = entities
        .allocate(|_| {
            Ok(EntityLocation {
                archetype_id: ArchetypeId(0),
                table_id: TableId(0),
                table_row: TableRow(0),
            })
        })
        .unwrap();

    assert_eq!(entities.alive(), 1);
    assert_eq!(entity.index, 0);
    assert_eq!(entity.generation, 0);

    let entity = entities
        .allocate(|_| {
            Ok(EntityLocation {
                archetype_id: ArchetypeId(1),
                table_id: TableId(1),
                table_row: TableRow(0),
            })
        })
        .unwrap();

    assert_eq!(entities.alive(), 2);
    assert_eq!(entity.index, 1);
    assert_eq!(entity.generation, 0);

    entities.free(entity);

    assert_eq!(entities.alive(), 1);
    assert_eq!(entities.get(entity), None);

    let double_entity = entities
        .allocate(|_| {
            Ok(EntityLocation {
                archetype_id: ArchetypeId(1),
                table_id: TableId(1),
                table_row: TableRow(0),
            })
        })
        .unwrap();

    assert_eq!(entities.alive(), 2);
    assert_eq!(double_entity.index, 1);
    assert_eq!(double_entity.generation, 1);
    assert_eq!(entities.get(entity), None);
    assert_eq!(
        entities.get(double_entity),
        Some(EntityLocation {
            archetype_id: ArchetypeId(1),
            table_id: TableId(1),
            table_row: TableRow(0),
        })
    );
}

#[test]
fn double_free() {
    let mut entities = Entities::new();
    let entity1 = entities
        .allocate(|_| {
            Ok(EntityLocation {
                archetype_id: ArchetypeId(0),
                table_id: TableId(0),
                table_row: TableRow(0),
            })
        })
        .unwrap();

    entities.free(entity1);

    let entity2 = entities
        .allocate(|_| {
            Ok(EntityLocation {
                archetype_id: ArchetypeId(0),
                table_id: TableId(0),
                table_row: TableRow(1),
            })
        })
        .unwrap();

    assert_eq!(entity1.index, entity2.index);
    assert_ne!(entity1.generation, entity2.generation);

    entities.free(entity1);

    assert_eq!(entities.alive(), 1);
    assert_eq!(
        entities.get(entity2),
        Some(EntityLocation {
            archetype_id: ArchetypeId(0),
            table_id: TableId(0),
            table_row: TableRow(1)
        })
    );

    entities.free(entity2);
    assert_eq!(entities.alive(), 0);
}

#[test]
fn failed_allocation_changes_nothing() {
    let mut entities = Entities::new();
    assert_eq!(entities.allocate(|_| Err(())), Err(()));
    assert_eq!(entities.len(), 0);
    assert_eq!(entities.alive(), 0);
    let e = entities
        .allocate(|_| {
            Ok(EntityLocation {
                archetype_id: ArchetypeId(0),
                table_id: TableId(0),
                table_row: TableRow(0),
            })
        })
        .unwrap();
    assert_eq!((e.generation, e.index), (0, 0));
}

#[test]
fn freed_handle_is_never_valid_again() {
    let loc = EntityLocation {
        archetype_id: ArchetypeId(0),
        table_id: TableId(0),
        table_row: TableRow(0),
    };
    let mut entities = Entities::new();
    let e = entities.allocate(|_| Ok(loc)).unwrap();
    assert_eq!(entities.free(e), Some(loc));
    assert_eq!(entities.free(e), None);
    let again = entities.allocate(|_| Ok(loc)).unwrap();
    assert_eq!(again.index, e.index);
    assert!(again.generation > e.generation);
    assert_eq!(entities.get(e), None);
    assert_eq!(entities.get(again), Some(loc));
}

#[test]
fn set_moves_only_live_handles() {
    let at = |row: usize| EntityLocation {
        archetype_id: ArchetypeId(0),
        table_id: TableId(0),
        table_row: TableRow(row),
    };
    let mut entities = Entities::new();
    let e = entities.allocate(|_| Ok(at(0))).unwrap();
    entities.set(e, at(5));
    assert_eq!(entities.get(e), Some(at(5)));
    entities.free(e);
    entities.set(e, at(7));
    assert_eq!(entities.get(e), None);
}
