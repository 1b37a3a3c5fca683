use quartz::component::Component;
use quartz::entity::Entity;
use quartz::World;

#[derive(Debug, PartialEq, Eq, Clone, Copy)]
struct MyComponent(u32);

impl Component for MyComponent {
    fn to_bytes(&self) -> Vec<u8> {
        self.0.to_bytes()
    }

    fn from_bytes(bytes: &[u8]) -> Self {
        MyComponent(u32::from_bytes(bytes))
    }
}

#[derive(Debug, PartialEq, Clone, Copy)]
struct Position {
    x: f32,
    y: f32,
    z: f32,
}

impl Component for Position {
    fn to_bytes(&self) -> Vec<u8> {
        [self.x, self.y, self.z].iter().flat_map(|v| v.to_ne_bytes()).collect()
    }

    fn from_bytes(bytes: &[u8]) -> Self {
        let f = |i: usize| f32::from_ne_bytes([bytes[i], bytes[i + 1], bytes[i + 2], bytes[i + 3]]);
        Position { x: f(0), y: f(4), z: f(8) }
    }
}

#[test]
fn query() {
    let mut world = World::new();
    let entity = world.spawn(MyComponent(1));

    assert_eq!(entity, Entity::from(0, 0));

    let mut query = world.query::<MyComponent>();
    assert_eq!(query.next(), Some(MyComponent(1)));
    assert_eq!(query.next(), None);
}

#[test]
fn multi_query() {
    let mut world = World::new();
    let entity = world.spawn(MyComponent(1));
    let entity2 = world.spawn((
        MyComponent(1337),
        Position {
            x: 0.0,
            y: 1.0,
            z: 2.0,
        },
    ));

    assert_eq!(entity, Entity::from(0, 0));
    assert_eq!(entity2, Entity::from(0, 1));

    let mut query = world.query::<MyComponent>();
    assert_eq!(query.next(), Some(MyComponent(1)));
    assert_eq!(query.next(), Some(MyComponent(1337)));
    assert_eq!(query.next(), None);

    let mut query = world.query::<Position>();
    assert_eq!(
        query.next(),
        Some(Position {
            x: 0.0,
            y: 1.0,
            z: 2.0,
        })
    );
    assert_eq!(query.next(), None);

    let mut query = world.query::<(MyComponent, Position)>();
    assert_eq!(
        query.next(),
        Some((
            MyComponent(1337),
            Position {
                x: 0.0,
                y: 1.0,
                z: 2.0,
            }
        ))
    );
    assert_eq!(query.next(), None);
}

#[test]
fn large_query() {
    const ENTITY_COUNT: u32 = 1000;
    let mut world = World::new();

    for i in 0..ENTITY_COUNT {
        world.spawn(MyComponent(i));
    }

    let mut count = 0;
    let mut query = world.query::<MyComponent>();
    while let Some(e) = query.next() {
        assert_eq!(e, MyComponent(count));
        count += 1;
    }
    assert_eq!(count, ENTITY_COUNT);
}

#[test]
fn query_of_unregistered_type_is_empty() {
    let mut world = World::new();
    world.spawn(MyComponent(1));
    let mut query = world.query::<Position>();
    assert_eq!(query.next(), None);
    assert_eq!(query.next(), None);
    let empty = World::new();
    let mut query = empty.query::<(MyComponent, Position)>();
    assert_eq!(query.next(), None);
}

#[test]
fn query_visits_tables_in_order_and_skips_despawned() {
    let mut world = World::new();
    let a = world.spawn(MyComponent(1));
    world.spawn((MyComponent(2), Position { x: 0.0, y: 0.0, z: 0.0 }));
    world.spawn(MyComponent(3));
    world.spawn((MyComponent(4), Position { x: 1.0, y: 0.0, z: 0.0 }));
    world.despawn(a);
    let mut seen = Vec::new();
    let mut query = world.query::<MyComponent>();
    while let Some(MyComponent(v)) = query.next() {
        seen.push(v);
    }
    assert_eq!(seen, vec![3, 2, 4]);
}

#[test]
fn query_mut_writes_back_visited_rows() {
    let mut world = World::new();
    let a = world.spawn(MyComponent(1));
    let b = world.spawn((MyComponent(2), Position { x: 0.0, y: 0.0, z: 0.0 }));
    let c = world.spawn(Position { x: 5.0, y: 0.0, z: 0.0 });
    {
        let mut query = world.query_mut::<MyComponent>();
        assert!(!query.write(MyComponent(0)));
        while let Some(MyComponent(v)) = query.next() {
            assert!(query.write(MyComponent(v + 10)));
        }
    }
    assert_eq!(world.get::<MyComponent>(a), Some(MyComponent(11)));
    assert_eq!(world.get::<MyComponent>(b), Some(MyComponent(12)));
    assert_eq!(world.get::<Position>(c), Some(Position { x: 5.0, y: 0.0, z: 0.0 }));
}

#[test]
fn query_mut_over_a_pair() {
    let mut world = World::new();
    let e = world.spawn((MyComponent(3), Position { x: 1.0, y: 2.0, z: 3.0 }));
    {
        let mut query = world.query_mut::<(MyComponent, Position)>();
        let (m, p) = query.next().unwrap();
        assert_eq!((m, p), (MyComponent(3), Position { x: 1.0, y: 2.0, z: 3.0 }));
        assert!(query.write((MyComponent(4), Position { x: p.x, y: p.y, z: 9.0 })));
        assert_eq!(query.next(), None);
    }
    assert_eq!(world.get::<MyComponent>(e), Some(MyComponent(4)));
    assert_eq!(world.get::<Position>(e), Some(Position { x: 1.0, y: 2.0, z: 9.0 }));
}
