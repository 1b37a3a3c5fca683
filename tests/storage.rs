use quartz::component::{Component, Components};
use quartz::storage::{Column, Tables};

#[derive(Debug, PartialEq)]
struct MyComponent {
    _position: [f32; 3],
}

impl Component for MyComponent {
    fn to_bytes(&self) -> Vec<u8> {
        self._position.iter().flat_map(|v| v.to_ne_bytes()).collect()
    }

    fn from_bytes(bytes: &[u8]) -> Self {
        let f = |i: usize| f32::from_ne_bytes([bytes[i], bytes[i + 1], bytes[i + 2], bytes[i + 3]]);
        MyComponent { _position: [f(0), f(4), f(8)] }
    }
}

fn floats(bytes: &[u8]) -> Vec<f32> {
    bytes
        .chunks(4)
        .map(|c| f32::from_ne_bytes([c[0], c[1], c[2], c[3]]))
        .collect()
}

#[test]
fn create_column() {
    let mut components = Components::new();
    let component_id = components.register_component::<MyComponent>();
    let component_info = components.get_info(&component_id).unwrap();

    let mut column = Column::with_capacity(component_info, 5);
    assert_eq!(column.item_size(), component_info.size());
    assert_eq!(component_info.size(), 12);

    let c1 = MyComponent {
        _position: [1.0, 2.0, 3.0],
    };
    let c2 = MyComponent {
        _position: [3.0, 2.0, 1.0],
    };

    column.push(&c1.to_bytes());
    assert_eq!(floats(&column.get(0).unwrap()), vec![1.0, 2.0, 3.0]);
    column.push(&c2.to_bytes());
    assert_eq!(floats(&column.get(1).unwrap()), vec![3.0, 2.0, 1.0]);
}

#[test]
fn push_column() {
    let mut components = Components::new();
    let component_id = components.register_component::<MyComponent>();
    let component_info = components.get_info(&component_id).unwrap();

    let mut column = Column::with_capacity(&component_info, 5);
    assert_eq!(column.capacity(), 5);
    assert_eq!(column.len(), 0);

    let c1 = MyComponent {
        _position: [1.0, 2.0, 3.0],
    };

    column.push(&c1.to_bytes());
    assert_eq!(
        column.get(0).map(|b| MyComponent::from_bytes(&b)),
        Some(MyComponent {
            _position: [1.0, 2.0, 3.0],
        })
    );
}

#[test]
fn tables() {
    let mut tables = Tables::new();
    let mut components = Components::new();

    let comp_id1 = components.register_component::<MyComponent>();
    let comp_id2 = components.register_component::<u32>();

    let comp_mix1 = vec![comp_id1];
    let comp_mix12 = vec![comp_id1, comp_id2];

    let table_id1 = tables.get_id_or_insert(&comp_mix1, &components);
    let table_id2 = tables.get_id_or_insert(&comp_mix1, &components);
    assert_eq!(table_id1, table_id2);
    let table_id3 = tables.get_id_or_insert(&comp_mix12, &components);
    assert_ne!(table_id1, table_id3);
    assert_eq!(tables.len(), 2);
}

#[test]
fn column_get_component() {
    let mut components = Components::new();
    let component_id = components.register_component::<u32>();
    let component_info = components.get_info(&component_id).unwrap();

    let my_comp: u32 = 5;

    let mut column = Column::with_capacity(component_info, 1);
    column.push(&my_comp.to_bytes());

    assert_eq!(u32::from_bytes(&column.get(0).unwrap()), 5);
}

#[test]
fn storage_swap_remove() {
    const COMP_COUNT: usize = 5;
    let mut components = Components::new();
    let component_id = components.register_component::<u32>();
    let component_info = components.get_info(&component_id).unwrap();

    let mut column = Column::with_capacity(component_info, COMP_COUNT);
    assert_eq!(column.capacity(), COMP_COUNT);

    for i in 0..COMP_COUNT {
        column.push(&(i as u32).to_bytes());
    }
    assert_eq!(column.len(), 5);

    assert_eq!(u32::from_bytes(&column.get(2).unwrap()), 2);

    column.swap_remove(2);
    assert_eq!(column.len(), 4);

    assert_eq!(u32::from_bytes(&column.get(2).unwrap()), 4);

    column.swap_remove(3);
    assert_eq!(column.len(), 3);
    column.swap_remove(2);
    assert_eq!(column.len(), 2);

    assert_eq!(u32::from_bytes(&column.get(1).unwrap()), 1);
}

#[test]
fn column_set_and_bounds() {
    let mut components = Components::new();
    let id = components.register_component::<u32>();
    let info = components.get_info(&id).unwrap();
    let mut column = Column::with_capacity(info, 0);
    assert_eq!(column.get(0), None);
    column.push(&1u32.to_bytes());
    column.set(0, &9u32.to_bytes());
    assert_eq!(u32::from_bytes(&column.get(0).unwrap()), 9);
    column.reserve(10);
    assert_eq!(column.len(), 1);
    column.swap_remove(0);
    assert_eq!(column.len(), 0);
    assert_eq!(column.get(0), None);
}
