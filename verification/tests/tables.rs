use kaze::il::ValueType;
use kaze::name::{decimal_string, reg_next_name_string, reg_value_name_string, temp_name_string};
use kaze::compiler::RegNames;
use kaze::scoped_map::ScopedMap;
use kaze::stack::InstanceStack;

fn names(text: &str) -> RegNames {
    RegNames { value_name: text.to_string(), next_name: format!("{}_next", text) }
}

#[test]
fn numbers_are_written_in_decimal() {
    for n in [0u64, 1, 9, 10, 11, 99, 100, 101, 4294967295, u64::MAX] {
        assert_eq!(decimal_string(n), n.to_string());
    }
    for n in 0..2000u64 {
        assert_eq!(decimal_string(n), n.to_string());
    }
}

#[test]
fn generated_names() {
    assert_eq!(temp_name_string(0), "__temp_0");
    assert_eq!(temp_name_string(u32::MAX), "__temp_4294967295");
    let value = reg_value_name_string(12);
    assert_eq!(value, "__reg12");
    assert_eq!(reg_next_name_string(&value), "__reg12_next");
}

#[test]
fn stacks_push_and_pop() {
    let empty = InstanceStack::new();
    assert!(empty.pop().is_none());
    let one = empty.push(7);
    let two = one.push(8);
    assert!(empty.pop().is_none());
    let (top, rest) = two.pop().unwrap();
    assert_eq!(top, 8);
    assert!(rest.same(&one));
    assert!(!rest.same(&two));
    assert!(!one.same(&empty.push(9)));
    assert!(two.clone().same(&two));
}

#[test]
fn scoped_maps_tell_places_apart() {
    let top = InstanceStack::new();
    let inside = top.push(0);
    let mut map: ScopedMap<RegNames> = ScopedMap::new();
    assert_eq!(map.len(), 0);
    assert!(map.get(&top, 1).is_none());
    map.insert(top.clone(), 1, names("a"));
    map.insert(inside.clone(), 1, names("b"));
    map.insert(top.clone(), 2, names("c"));
    assert_eq!(map.len(), 3);
    assert_eq!(map.get(&top, 1), Some(&names("a")));
    assert_eq!(map.get(&inside, 1), Some(&names("b")));
    assert_eq!(map.get(&top, 2), Some(&names("c")));
    assert!(!map.contains_key(&inside, 2));
    map.insert(inside.clone(), 1, names("d"));
    assert_eq!(map.len(), 3);
    assert_eq!(map.get(&inside, 1), Some(&names("d")));
    assert_eq!(map.get(&top, 1), Some(&names("a")));
}

#[test]
fn scoped_maps_list_their_entries() {
    let top = InstanceStack::new();
    let inside = top.push(4);
    let mut map: ScopedMap<RegNames> = ScopedMap::new();
    assert!(map.entries().is_empty());
    map.insert(top.clone(), 1, names("a"));
    map.insert(inside.clone(), 1, names("b"));
    map.insert(top.clone(), 1, names("c"));
    let list = map.entries();
    assert_eq!(list.len(), 2);
    assert!(list.contains(&(&top, 1, &names("c"))));
    assert!(list.contains(&(&inside, 1, &names("b"))));
}

#[test]
fn value_types_by_width() {
    let expected = [
        (1, ValueType::Bool, 1),
        (2, ValueType::U32, 32),
        (32, ValueType::U32, 32),
        (33, ValueType::U64, 64),
        (64, ValueType::U64, 64),
        (65, ValueType::U128, 128),
        (128, ValueType::U128, 128),
    ];
    for (width, value_type, bits) in expected {
        assert_eq!(ValueType::from_bit_width(width), value_type);
        assert_eq!(value_type.bit_width(), bits);
    }
}
