use quartz::component::{Component, ComponentId, Components};

struct MyComponent;

impl Component for MyComponent {
    fn to_bytes(&self) -> Vec<u8> {
        Vec::new()
    }

    fn from_bytes(_bytes: &[u8]) -> Self {
        MyComponent
    }
}

#[test]
fn component_registration() {
    let mut components = Components::new();

    let id = components.register_component::<u32>();
    assert_eq!(id, ComponentId::new(0));
    assert_eq!(Some(ComponentId::new(0)), components.component_id::<u32>());
    assert_eq!(components.get_info(&id).unwrap().size(), 4);

    let id = components.register_component::<MyComponent>();
    assert_eq!(id, ComponentId::new(1));
    assert_eq!(Some(ComponentId::new(1)), components.component_id::<MyComponent>());
    assert_eq!(components.get_info(&id).unwrap().size(), 0);

    let id = components.register_component::<MyComponent>();
    assert_eq!(id, ComponentId::new(1));
    assert_eq!(Some(ComponentId::new(1)), components.component_id::<MyComponent>());

    assert_eq!(None, components.component_id::<u8>());

    let id = components.register_component::<u8>();
    assert_eq!(id, ComponentId::new(2));
    assert_eq!(Some(ComponentId::new(2)), components.component_id::<u8>());
}

#[test]
fn registry_lists_ids_in_order() {
    let mut components = Components::new();
    components.register_component::<u8>();
    components.register_component::<u32>();
    components.register_component::<u8>();
    assert_eq!(components.len(), 2);
    assert_eq!(components.components(), vec![ComponentId::new(0), ComponentId::new(1)]);
    assert_eq!(components.get_info(&ComponentId::new(2)).map(|i| i.size()), None);
    assert_eq!(components.get_info(&ComponentId::new(1)).unwrap().id(), ComponentId::new(1));
    let u32_type = components.get_info(&ComponentId::new(1)).unwrap().type_id();
    assert_eq!(components.get_id(u32_type), Some(ComponentId::new(1)));
}

#[test]
fn u32_bytes_round_trip() {
    let v: u32 = 0x0102_0304;
    let bytes = v.to_bytes();
    assert_eq!(bytes, v.to_ne_bytes().to_vec());
    assert_eq!(u32::from_bytes(&bytes), v);
    assert_eq!(u32::from_bytes(&[9, 0, 0, 0]), u32::from_ne_bytes([9, 0, 0, 0]));
    assert_eq!(7u8.to_bytes(), vec![7]);
    assert_eq!(u8::from_bytes(&[200]), 200);
}

#[test]
fn canonical_parts_sorts_and_keeps_later_values() {
    let values = vec![
        (ComponentId::new(3), vec![1u8]),
        (ComponentId::new(1), vec![2u8]),
        (ComponentId::new(3), vec![4u8]),
    ];
    let (ids, vals) = quartz::component::canonical_parts(&values);
    assert_eq!(ids, vec![ComponentId::new(1), ComponentId::new(3)]);
    assert_eq!(vals, vec![vec![2u8], vec![4u8]]);
}
