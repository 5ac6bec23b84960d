use plugin_fabric::ecs::ECData;

const POSITION: u64 = 1;
const VELOCITY: u64 = 2;

#[test]
fn entities_are_numbered_from_zero() {
    let mut ecs: ECData<i32> = ECData::new();
    assert_eq!(ecs.new_entity(), 0);
    assert_eq!(ecs.new_entity(), 1);
    assert_eq!(ecs.next_id(), 2);
    assert_eq!(ecs.new_entity(), 3);
}

#[test]
fn components_are_filed_by_kind() {
    let mut ecs: ECData<i32> = ECData::new();
    let e = ecs.new_entity();
    assert_eq!(ecs.add_component(&e, POSITION, 10), None);
    assert_eq!(ecs.add_component(&e, VELOCITY, 3), None);
    assert_eq!(ecs.get_component(&e, POSITION), Some(&10));
    assert_eq!(ecs.get_component(&e, VELOCITY), Some(&3));
    assert_eq!(ecs.add_component(&e, POSITION, 11), Some(10));
    assert_eq!(ecs.get_component(&e, POSITION), Some(&11));
    assert_eq!(ecs.remove_component(&e, POSITION), Some(11));
    assert_eq!(ecs.get_component(&e, POSITION), None);
    assert_eq!(ecs.remove_component(&e, POSITION), None);
}

#[test]
fn missing_entities_take_no_component() {
    let mut ecs: ECData<i32> = ECData::new();
    assert_eq!(ecs.add_component(&7, POSITION, 1), None);
    assert_eq!(ecs.get_component(&7, POSITION), None);
}

#[test]
fn components_change_in_place() {
    let mut ecs: ECData<i32> = ECData::new();
    let e = ecs.new_entity();
    ecs.add_component(&e, VELOCITY, 1);
    *ecs.get_component_mut(&e, VELOCITY).unwrap() += 4;
    assert_eq!(ecs.get_component(&e, VELOCITY), Some(&5));
    assert!(ecs.get_component_mut(&e, POSITION).is_none());
}

#[test]
fn with_selects_entities_holding_every_kind() {
    let mut ecs: ECData<i32> = ECData::new();
    let a = ecs.new_entity();
    let b = ecs.new_entity();
    let c = ecs.new_entity();
    ecs.add_component(&a, POSITION, 0);
    ecs.add_component(&a, VELOCITY, 0);
    ecs.add_component(&b, POSITION, 0);
    ecs.add_component(&c, VELOCITY, 0);
    ecs.add_component(&c, POSITION, 0);
    assert_eq!(ecs.with(&[POSITION, VELOCITY]), vec![a, c]);
    assert_eq!(ecs.with(&[POSITION]), vec![a, b, c]);
    assert_eq!(ecs.with(&[]), vec![a, b, c]);
}

#[test]
fn deleting_an_entity_drops_its_components() {
    let mut ecs: ECData<i32> = ECData::new();
    let a = ecs.new_entity();
    let b = ecs.new_entity();
    ecs.add_component(&a, POSITION, 1);
    ecs.add_component(&b, POSITION, 2);
    ecs.delete_entity(&a);
    assert_eq!(ecs.get_component(&a, POSITION), None);
    assert_eq!(ecs.with(&[POSITION]), vec![b]);
    let all: Vec<(u32, i32)> = ecs.components(POSITION).into_iter().map(|(e, c)| (e, *c)).collect();
    assert_eq!(all, vec![(b, 2)]);
    assert_eq!(ecs.new_entity(), 2);
}

#[test]
fn components_lists_one_kind() {
    let mut ecs: ECData<&str> = ECData::new();
    let a = ecs.new_entity();
    let b = ecs.new_entity();
    ecs.add_component(&a, POSITION, "pa");
    ecs.add_component(&b, VELOCITY, "vb");
    ecs.add_component(&b, POSITION, "pb");
    let mut all: Vec<(u32, &str)> = ecs.components(POSITION).into_iter().map(|(e, c)| (e, *c)).collect();
    all.sort();
    assert_eq!(all, vec![(a, "pa"), (b, "pb")]);
}
