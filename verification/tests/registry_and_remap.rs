use space_editor::registry::TypeDescriptor;
use space_editor::registry::TypeRegistry;
use space_editor::remap::RemapTable;

fn descriptor(type_id: u64, name: &str) -> TypeDescriptor {
    TypeDescriptor { type_id, name: name.to_string(), can_apply: true, maps_entities: false }
}

#[test]
fn registering_a_type_again_changes_nothing() {
    let mut reg = TypeRegistry::new();
    assert!(reg.register(descriptor(1, "Transform")));
    assert!(!reg.register(TypeDescriptor {
        type_id: 1,
        name: "Transform".to_string(),
        can_apply: false,
        maps_entities: true,
    }));
    assert_eq!(reg.len(), 1);
    let found = reg.lookup(1).unwrap();
    assert!(found.can_apply);
    assert!(!found.maps_entities);
}

#[test]
fn an_identifier_or_a_name_is_registered_once() {
    let mut reg = TypeRegistry::new();
    assert!(reg.register(descriptor(1, "Transform")));
    assert!(!reg.register(descriptor(1, "Other")));
    assert!(!reg.register(descriptor(2, "Transform")));
    assert!(reg.register(descriptor(2, "Other")));
    assert_eq!(reg.len(), 2);
}

#[test]
fn lookup_by_name_and_by_identifier() {
    let mut reg = TypeRegistry::new();
    reg.register(descriptor(5, "Name"));
    reg.register(descriptor(6, "Parent"));
    assert_eq!(reg.lookup_by_name(&"Parent".to_string()).unwrap().type_id, 6);
    assert_eq!(reg.lookup_by_name(&"Name".to_string()).unwrap().type_id, 5);
    assert!(reg.lookup_by_name(&"name".to_string()).is_none());
    assert!(reg.lookup_by_name(&String::new()).is_none());
    assert_eq!(reg.lookup(5).unwrap().name, "Name");
    assert!(reg.lookup(7).is_none());
    assert!(TypeRegistry::new().lookup(5).is_none());
}

#[test]
fn remap_table_returns_what_was_recorded() {
    let mut table = RemapTable::new();
    assert_eq!(table.get(3), None);
    table.insert(3, 70);
    table.insert(4, 80);
    assert_eq!(table.get(3), Some(70));
    assert_eq!(table.get(4), Some(80));
    assert_eq!(table.get(70), None);
    table.insert(3, 71);
    assert_eq!(table.get(3), Some(71));
    assert_eq!(table.get(4), Some(80));
}

#[test]
fn remap_table_keeps_all_64_bits_of_a_handle() {
    let mut table = RemapTable::new();
    let low = 5u64;
    let high = (1u64 << 32) | 5;
    table.insert(low, 1);
    table.insert(high, u64::MAX);
    assert_eq!(table.get(low), Some(1));
    assert_eq!(table.get(high), Some(u64::MAX));
    assert_eq!(table.get(u64::MAX), None);
}

#[test]
fn rewrite_maps_known_handles_and_keeps_the_others() {
    let mut table = RemapTable::new();
    table.insert(1, 100);
    table.insert(2, 200);
    assert_eq!(table.rewrite(&vec![2, 1, 2, 9]), vec![200, 100, 200, 9]);
    assert_eq!(table.rewrite(&vec![]), Vec::<u64>::new());
}
