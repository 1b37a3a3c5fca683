use quartz::archetype::ArchetypeId;
use quartz::component::Component;
use quartz::entity::{Entity, EntityLocation};
use quartz::storage::{TableId, TableRow};
use quartz::World;

#[derive(Debug, PartialEq, Eq, Clone, Copy)]
struct MyComponent(u32);

impl Component for MyComponent {
    fn to_bytes(&self) -> Vec<u8> {
        self.0.to_bytes()
    }

    fn from_bytes(bytes: &[u8]) -> Self {
        MyComponent(u32::from_bytes(bytes))
    }
}

#[derive(Debug, PartialEq, Clone, Copy)]
struct Position {
    x: f32,
    y: f32,
    z: f32,
}

impl Component for Position {
    fn to_bytes(&self) -> Vec<u8> {
        [self.x, self.y, self.z].iter().flat_map(|v| v.to_ne_bytes()).collect()
    }

    fn from_bytes(bytes: &[u8]) -> Self {
        let f = |i: usize| f32::from_ne_bytes([bytes[i], bytes[i + 1], bytes[i + 2], bytes[i + 3]]);
        Position { x: f(0), y: f(4), z: f(8) }
    }
}

#[derive(Debug, PartialEq, Clone, Copy)]
struct Velocity {
    x: f32,
    y: f32,
    z: f32,
}

impl Component for Velocity {
    fn to_bytes(&self) -> Vec<u8> {
        [self.x, self.y, self.z].iter().flat_map(|v| v.to_ne_bytes()).collect()
    }

    fn from_bytes(bytes: &[u8]) -> Self {
        let f = |i: usize| f32::from_ne_bytes([bytes[i], bytes[i + 1], bytes[i + 2], bytes[i + 3]]);
        Velocity { x: f(0), y: f(4), z: f(8) }
    }
}

fn at(table: usize, row: usize) -> EntityLocation {
    EntityLocation {
        archetype_id: ArchetypeId(table),
        table_id: TableId(table),
        table_row: TableRow(row),
    }
}

#[test]
fn spawn() {
    let mut world = World::new();
    let entity = world.spawn(MyComponent(1));

    assert_eq!(entity, Entity::from(0, 0));

    assert_eq!(world.get::<MyComponent>(entity), Some(MyComponent(1)));
}

#[test]
fn spawn_multiple() {
    let mut world = World::new();

    let e0 = world.spawn(MyComponent(0));
    let e1 = world.spawn(MyComponent(1));

    assert_eq!(e0, Entity::from(0, 0));
    assert_eq!(e1, Entity::from(0, 1));

    assert_eq!(world.archetypes().len(), 1);
    assert_eq!(world.components().len(), 1);
    assert_eq!(world.entities().len(), 2);
    assert_eq!(world.tables().len(), 1);
}

#[test]
fn spawn_batch() {
    const BATCH_SIZE: u32 = 1_000;
    let mut world = World::new();

    for i in 0..BATCH_SIZE {
        let entity = world.spawn(MyComponent(i));
        assert_eq!(entity, Entity::from(0, i));
        assert_eq!(world.get::<MyComponent>(entity), Some(MyComponent(i)));
    }

    assert_eq!(world.archetypes().len(), 1);
    assert_eq!(world.components().len(), 1);
    assert_eq!(world.entities().len(), BATCH_SIZE as usize);
    assert_eq!(world.tables().len(), 1);
}

#[test]
fn spawn_bundle() {
    let mut world = World::new();

    let entity = world.spawn((
        MyComponent(0),
        Position {
            x: 0.0,
            y: 1.0,
            z: 2.0,
        },
    ));
    assert_eq!(entity, Entity::from(0, 0));

    assert_eq!(world.get::<MyComponent>(entity), Some(MyComponent(0)));
    assert_eq!(
        world.get::<Position>(entity),
        Some(Position {
            x: 0.0,
            y: 1.0,
            z: 2.0,
        }),
    );
}

#[test]
fn world_get() {
    let mut world = World::new();

    let entity = world.spawn(Position {
        x: 1.0,
        y: 2.0,
        z: 3.0,
    });

    assert_eq!(
        world.get::<Position>(entity),
        Some(Position {
            x: 1.0,
            y: 2.0,
            z: 3.0,
        })
    );

    let mut comp = world
        .get::<Position>(entity)
        .expect("Was spawned a few instructions ago");
    comp.z = 42.0;
    world.replace(entity, comp);

    assert_eq!(
        world.get::<Position>(entity),
        Some(Position {
            x: 1.0,
            y: 2.0,
            z: 42.0,
        })
    );
}

#[test]
fn despawn() {
    let mut world = World::new();

    let e0 = world.spawn(Position {
        x: 1.0,
        y: 2.0,
        z: 3.0,
    });
    let e1 = world.spawn(Position {
        x: 2.0,
        y: 3.0,
        z: 4.0,
    });

    assert_eq!(
        world.get::<Position>(e0),
        Some(Position {
            x: 1.0,
            y: 2.0,
            z: 3.0,
        })
    );
    assert_eq!(world.entities().get(e0), Some(at(0, 0)));
    assert_eq!(
        world.get::<Position>(e1),
        Some(Position {
            x: 2.0,
            y: 3.0,
            z: 4.0,
        })
    );
    assert_eq!(world.entities().get(e1), Some(at(0, 1)));

    world.despawn(e0);

    assert_eq!(world.get::<Position>(e0), None);
    assert_eq!(world.entities().get(e0), None);
    assert_eq!(world.entities().get(e1), Some(at(0, 0)));
    assert_eq!(
        world.get::<Position>(e1),
        Some(Position {
            x: 2.0,
            y: 3.0,
            z: 4.0,
        })
    );

    world.despawn(e1);
    assert_eq!(world.get::<Position>(e1), None);
    assert_eq!(world.entities().get(e1), None);
}

#[test]
fn lib_swap_remove() {
    let mut world = World::new();
    let e0 = world.spawn(MyComponent(0));
    let e1 = world.spawn(MyComponent(1));
    let e2 = world.spawn(MyComponent(2));

    world.despawn(e0);
    assert_eq!(world.get::<MyComponent>(e2), Some(MyComponent(2)));
    assert_eq!(world.get::<MyComponent>(e1), Some(MyComponent(1)));
    assert_eq!(world.get::<MyComponent>(e0), None);

    world.despawn(e2);
    assert_eq!(world.get::<MyComponent>(e2), None);
    assert_eq!(world.get::<MyComponent>(e1), Some(MyComponent(1)));
    assert_eq!(world.get::<MyComponent>(e0), None);

    world.despawn(e1);
    assert_eq!(world.get::<MyComponent>(e2), None);
    assert_eq!(world.get::<MyComponent>(e1), None);
    assert_eq!(world.get::<MyComponent>(e0), None);
}

#[test]
fn swap_remove_moves_last_row_into_the_gap() {
    let mut world = World::new();
    let e0 = world.spawn(MyComponent(10));
    let e1 = world.spawn(MyComponent(11));
    let e2 = world.spawn(MyComponent(12));
    assert_eq!(world.entities().get(e2), Some(at(0, 2)));

    world.despawn(e0);

    assert_eq!(world.get::<MyComponent>(e1), Some(MyComponent(11)));
    assert_eq!(world.get::<MyComponent>(e2), Some(MyComponent(12)));
    assert_eq!(world.entities().get(e2), Some(at(0, 0)));
    assert_eq!(world.entities().get(e1), Some(at(0, 1)));
    assert_eq!(world.tables().get(TableId(0)).unwrap().len(), 2);
}

#[test]
fn despawn_then_spawn_reuses_index_with_next_generation() {
    let mut world = World::new();
    let e = world.spawn(MyComponent(1));
    world.despawn(e);
    assert_eq!(world.get::<MyComponent>(e), None);
    let again = world.spawn(MyComponent(2));
    assert_eq!(again.index, e.index);
    assert!(again.generation > e.generation);
    assert_eq!(world.get::<MyComponent>(e), None);
    assert_eq!(world.get::<MyComponent>(again), Some(MyComponent(2)));
}

#[test]
fn despawn_of_stale_handle_does_nothing() {
    let mut world = World::new();
    let e = world.spawn(MyComponent(1));
    let other = world.spawn(MyComponent(2));
    world.despawn(e);
    world.despawn(e);
    world.despawn(Entity::from(0, 99));
    assert_eq!(world.get::<MyComponent>(other), Some(MyComponent(2)));
    assert_eq!(world.entities().alive(), 1);
}

#[test]
fn same_component_set_shares_table_in_any_order() {
    let mut world = World::new();
    let a = world.spawn((MyComponent(1), Position { x: 1.0, y: 1.0, z: 1.0 }));
    let b = world.spawn((Position { x: 2.0, y: 2.0, z: 2.0 }, MyComponent(2)));
    let c = world.spawn(MyComponent(3));
    let la = world.entities().get(a).unwrap();
    let lb = world.entities().get(b).unwrap();
    let lc = world.entities().get(c).unwrap();
    assert_eq!(la.table_id, lb.table_id);
    assert_eq!(la.archetype_id, lb.archetype_id);
    assert_ne!(la.table_id, lc.table_id);
    assert_ne!(la.archetype_id, lc.archetype_id);
    assert_eq!(world.tables().len(), 2);
    assert_eq!(world.archetypes().len(), 2);
    assert_eq!(world.get::<MyComponent>(b), Some(MyComponent(2)));
}

#[test]
fn get_of_absent_component_is_none() {
    let mut world = World::new();
    let e = world.spawn(MyComponent(1));
    assert_eq!(world.get::<Position>(e), None);
    assert_eq!(world.component_id::<Position>(), None);
    world.spawn(Position { x: 0.0, y: 0.0, z: 0.0 });
    assert_eq!(world.get::<Position>(e), None);
    assert_eq!(world.replace(e, Position { x: 1.0, y: 1.0, z: 1.0 }), None);
    assert_eq!(world.get::<MyComponent>(e), Some(MyComponent(1)));
}

#[test]
fn spawn_values_keeps_the_later_duplicate() {
    let mut world = World::new();
    let e = world.spawn((MyComponent(1), MyComponent(2)));
    assert_eq!(world.get::<MyComponent>(e), Some(MyComponent(2)));
    let id = world.component_id::<MyComponent>().unwrap();
    assert_eq!(world.get_component(e, id), Some(2u32.to_bytes()));
    assert!(world.set_component(e, id, &7u32.to_bytes()));
    assert_eq!(world.get_as::<MyComponent>(e, id), Some(MyComponent(7)));
}

#[test]
fn scenario_b() {
    let mut world = World::new();
    let a = world.spawn(Position { x: 1.0, y: 2.0, z: 3.0 });
    let b = world.spawn((Position { x: 4.0, y: 5.0, z: 6.0 }, Velocity { x: 0.0, y: 0.0, z: 1.0 }));
    world.despawn(a);
    assert_eq!(world.get::<Position>(b), Some(Position { x: 4.0, y: 5.0, z: 6.0 }));
    assert_eq!(world.get::<Position>(a), None);
    let mut query = world.query::<Position>();
    assert_eq!(query.next(), Some(Position { x: 4.0, y: 5.0, z: 6.0 }));
    assert_eq!(query.next(), None);
}

#[derive(Debug, PartialEq, Clone, Copy)]
struct Tag;

impl Component for Tag {
    fn to_bytes(&self) -> Vec<u8> {
        Vec::new()
    }

    fn from_bytes(_bytes: &[u8]) -> Self {
        Tag
    }
}

#[test]
fn zero_sized_components_are_stored_and_queried() {
    let mut world = World::new();
    let a = world.spawn(Tag);
    let b = world.spawn((Tag, MyComponent(5)));
    let c = world.spawn(Tag);
    world.despawn(a);
    assert_eq!(world.get::<Tag>(a), None);
    assert_eq!(world.get::<Tag>(b), Some(Tag));
    assert_eq!(world.get::<Tag>(c), Some(Tag));
    assert_eq!(world.entities().get(c), Some(at(0, 0)));
    let mut count = 0;
    let mut query = world.query::<Tag>();
    while let Some(Tag) = query.next() {
        count += 1;
    }
    assert_eq!(count, 2);
}
