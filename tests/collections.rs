use bevy_reflect::reflect::{
    BOOL_TYPE_ID, DYNAMIC_ARRAY_TYPE_ID, DYNAMIC_LIST_TYPE_ID, HASH_PRIME, HASH_SEED, INT_TYPE_ID,
};
use bevy_reflect::{
    array_apply, array_hash, array_partial_eq, list_apply, list_partial_eq, Array, DynamicArray,
    DynamicList, List, ShapeMismatch, Value,
};

fn ints(ns: &[i64]) -> Vec<Value> {
    ns.iter().map(|n| Value::Int(*n)).collect()
}

fn int_array(ns: &[i64]) -> DynamicArray {
    DynamicArray::new(ints(ns))
}

fn int_list(ns: &[i64]) -> DynamicList {
    let mut list = DynamicList::default();
    for n in ns {
        list.push(*n);
    }
    list
}

fn mix(h: u64, x: u64) -> u64 {
    h.wrapping_mul(HASH_PRIME).wrapping_add(x)
}

fn int_hash(n: i64) -> u64 {
    mix(mix(HASH_SEED, INT_TYPE_ID), n as u64)
}

#[test]
fn array_apply_replaces_every_element() {
    let mut target = int_array(&[1, 2, 3]);
    let source = Value::Array(int_array(&[9, 9, 9]));
    assert_eq!(array_apply(&mut target, &source), Ok(()));
    assert_eq!(target.values, ints(&[9, 9, 9]));
}

#[test]
fn list_apply_grows_to_a_longer_source() {
    let mut target = int_list(&[1, 2, 3]);
    let source = Value::List(int_list(&[9, 9, 9, 9]));
    assert_eq!(list_apply(&mut target, &source), Ok(()));
    assert_eq!(target.values, ints(&[9, 9, 9, 9]));
    assert_eq!(target.len(), 4);
}

#[test]
fn list_apply_keeps_the_tail_past_a_shorter_source() {
    let mut target = int_list(&[1, 2, 3]);
    let source = Value::List(int_list(&[9, 9]));
    assert_eq!(list_apply(&mut target, &source), Ok(()));
    assert_eq!(target.values, ints(&[9, 9, 3]));
}

#[test]
fn array_apply_with_other_length_leaves_target() {
    let mut target = int_array(&[1, 2, 3]);
    assert_eq!(
        array_apply(&mut target, &Value::Array(int_array(&[9, 9]))),
        Err(ShapeMismatch)
    );
    assert_eq!(target.values, ints(&[1, 2, 3]));
    assert_eq!(
        array_apply(&mut target, &Value::Array(int_array(&[9, 9, 9, 9]))),
        Err(ShapeMismatch)
    );
    assert_eq!(target.values, ints(&[1, 2, 3]));
}

#[test]
fn array_apply_with_a_list_is_refused() {
    let mut target = int_array(&[1, 2]);
    assert_eq!(
        array_apply(&mut target, &Value::List(int_list(&[9, 9]))),
        Err(ShapeMismatch)
    );
    assert_eq!(target.values, ints(&[1, 2]));
}

#[test]
fn apply_with_a_mismatched_element_changes_nothing() {
    let mut target = int_array(&[1, 2, 3]);
    let source = Value::Array(DynamicArray::new(vec![
        Value::Int(7),
        Value::Int(8),
        Value::Bool(true),
    ]));
    assert_eq!(array_apply(&mut target, &source), Err(ShapeMismatch));
    assert_eq!(target.values, ints(&[1, 2, 3]));

    let mut list = int_list(&[1, 2]);
    let source = Value::List(DynamicList {
        name: String::new(),
        values: vec![Value::Int(5), Value::Bool(false), Value::Int(6)],
    });
    assert_eq!(list_apply(&mut list, &source), Err(ShapeMismatch));
    assert_eq!(list.values, ints(&[1, 2]));
    assert_eq!(list_apply(&mut list, &Value::Int(3)), Err(ShapeMismatch));
    assert_eq!(list.values, ints(&[1, 2]));
}

#[test]
fn apply_recurses_into_nested_containers() {
    let mut target = DynamicArray::new(vec![
        Value::List(int_list(&[1])),
        Value::Array(int_array(&[2, 3])),
    ]);
    let source = Value::Array(DynamicArray::new(vec![
        Value::List(int_list(&[4, 5])),
        Value::Array(int_array(&[6, 7])),
    ]));
    assert_eq!(target.apply(&source), Ok(()));
    assert_eq!(target.values[0], Value::List(int_list(&[4, 5])));
    assert_eq!(target.values[1], Value::Array(int_array(&[6, 7])));
}

#[test]
fn list_apply_twice_equals_once() {
    let mut target = int_list(&[1, 2, 3]);
    let source = Value::List(int_list(&[7, 8, 9, 10, 11]));
    list_apply(&mut target, &source).unwrap();
    let once = target.clone_dynamic_list();
    list_apply(&mut target, &source).unwrap();
    assert_eq!(target, once);
    assert_eq!(list_partial_eq(&target, &Value::List(once)), Some(true));
}

#[test]
fn list_growth_appends_copies_of_the_source() {
    let mut target = int_list(&[1]);
    let mut inner = int_list(&[4]);
    inner.set_name("inner".to_string());
    let source = Value::List(DynamicList {
        name: String::new(),
        values: vec![Value::Int(2), Value::Int(3), Value::List(inner)],
    });
    list_apply(&mut target, &source).unwrap();
    assert_eq!(target.len(), 3);
    if let Value::List(src) = &source {
        assert_eq!(target.values[1], src.values[1]);
        assert_eq!(target.values[2], src.values[2]);
        assert_eq!(
            target.values[2].reflect_partial_eq(&src.values[2]),
            Some(true)
        );
    }
}

#[test]
fn partial_eq_of_equal_arrays_is_true() {
    let a = int_array(&[1, 2, 3]);
    let mut b = int_array(&[1, 2, 3]);
    b.set_name("other".to_string());
    assert_eq!(array_partial_eq(&a, &Value::Array(b)), Some(true));
    assert_eq!(
        array_partial_eq(&DynamicArray::new(vec![]), &Value::Array(int_array(&[]))),
        Some(true)
    );
}

#[test]
fn partial_eq_of_other_length_or_kind_is_false() {
    let a = int_array(&[1, 2, 3]);
    assert_eq!(array_partial_eq(&a, &Value::Array(int_array(&[1, 2]))), Some(false));
    assert_eq!(array_partial_eq(&a, &Value::List(int_list(&[1, 2, 3]))), Some(false));
    assert_eq!(array_partial_eq(&a, &Value::Int(1)), Some(false));
    assert_eq!(array_partial_eq(&a, &Value::Array(int_array(&[1, 2, 4]))), Some(false));
    let l = int_list(&[1, 2]);
    assert_eq!(list_partial_eq(&l, &Value::Array(int_array(&[1, 2]))), Some(false));
    assert_eq!(list_partial_eq(&l, &Value::List(int_list(&[1]))), Some(false));
    assert_eq!(list_partial_eq(&l, &Value::List(int_list(&[1, 2]))), Some(true));
}

#[test]
fn partial_eq_with_an_opaque_element_is_false() {
    let a = DynamicArray::new(vec![Value::Opaque(5)]);
    let b = Value::Array(DynamicArray::new(vec![Value::Opaque(5)]));
    assert_eq!(array_partial_eq(&a, &b), Some(false));
    assert_eq!(Value::Opaque(5).reflect_partial_eq(&Value::Opaque(5)), None);
    assert_eq!(Value::Bool(true).reflect_partial_eq(&Value::Int(1)), Some(false));
}

#[test]
fn hash_of_clone_is_the_same() {
    let a = DynamicArray::new(vec![
        Value::Int(1),
        Value::Bool(false),
        Value::List(int_list(&[2, 3])),
    ]);
    let copy = a.clone_dynamic_array();
    assert!(array_hash(&a).is_some());
    assert_eq!(array_hash(&a), array_hash(&copy));
    assert_eq!(a.reflect_hash(), copy.reflect_hash());
}

#[test]
fn hash_has_an_exact_value() {
    assert_eq!(
        Value::Bool(true).reflect_hash(),
        Some(mix(mix(HASH_SEED, BOOL_TYPE_ID), 1))
    );
    assert_eq!(Value::Int(-1).reflect_hash(), Some(int_hash(-1)));
    let expected = mix(
        mix(mix(mix(HASH_SEED, DYNAMIC_ARRAY_TYPE_ID), 2), int_hash(1)),
        int_hash(2),
    );
    assert_eq!(array_hash(&int_array(&[1, 2])), Some(expected));
    let expected_list = mix(mix(HASH_SEED, DYNAMIC_LIST_TYPE_ID), 0);
    assert_eq!(array_hash(&DynamicList::default()), Some(expected_list));
}

#[test]
fn hash_tells_kind_length_and_elements_apart() {
    let a = array_hash(&int_array(&[1, 2]));
    assert_ne!(a, array_hash(&int_list(&[1, 2])));
    assert_ne!(a, array_hash(&int_array(&[1, 2, 3])));
    assert_ne!(a, array_hash(&int_array(&[2, 1])));
}

#[test]
fn hash_with_an_unhashable_element_is_none() {
    let a = DynamicArray::new(vec![Value::Int(1), Value::Opaque(2)]);
    assert_eq!(array_hash(&a), None);
    let nested = int_list(&[]);
    let mut outer = DynamicList::default();
    outer.push(Value::List(nested));
    outer.push(Value::Opaque(0));
    assert_eq!(outer.reflect_hash(), None);
}

#[test]
fn clone_yields_equal_elements_in_order() {
    let mut a = DynamicArray::new(vec![Value::Int(4), Value::Opaque(9), Value::Bool(true)]);
    a.set_name("triple".to_string());
    let copy = a.clone_dynamic_array();
    assert_eq!(copy.name(), "triple");
    let mut it = a.iter();
    let mut copied = copy.iter();
    for _ in 0..3 {
        assert_eq!(it.next(), copied.next());
    }
    assert_eq!(it.next(), None);
    assert_eq!(copied.next(), None);
    let list_copy = int_list(&[1, 2]).clone_dynamic_array();
    assert_eq!(list_copy.values, ints(&[1, 2]));
}

#[test]
fn iter_walks_in_index_order() {
    let a = int_array(&[5, 6]);
    let mut it = a.iter();
    assert_eq!(it.size_hint(), (2, Some(2)));
    assert_eq!(it.next(), Some(&Value::Int(5)));
    assert_eq!(it.next(), Some(&Value::Int(6)));
    assert_eq!(it.next(), None);
    assert_eq!(it.next(), None);
}

#[test]
fn get_is_some_exactly_in_range() {
    let a = int_array(&[5, 6]);
    assert_eq!(a.get(0), Some(&Value::Int(5)));
    assert_eq!(a.get(1), Some(&Value::Int(6)));
    assert_eq!(a.get(2), None);
    assert_eq!(a.len(), 2);
    assert!(!a.is_empty());
    assert!(DynamicArray::new(vec![]).is_empty());
}

#[test]
fn names_default_to_empty_and_can_be_set() {
    let mut a = DynamicArray::new(ints(&[1]));
    assert_eq!(a.name(), "");
    a.set_name("[i64; 1]".to_string());
    assert_eq!(a.name(), "[i64; 1]");
    assert_eq!(a.type_label(), "[i64; 1]");
    let mut l = DynamicList::default();
    assert_eq!(l.name(), "");
    l.set_name("Vec<i64>".to_string());
    assert_eq!(l.name(), "Vec<i64>");
    assert_eq!(l.clone_dynamic_list().name(), "Vec<i64>");
}

#[test]
fn name_takes_no_part_in_hash_or_equality() {
    let a = int_array(&[1]);
    let mut b = int_array(&[1]);
    b.set_name("named".to_string());
    assert_eq!(array_hash(&a), array_hash(&b));
    assert_eq!(a.reflect_partial_eq(&Value::Array(b)), Some(true));
}

#[test]
fn push_and_push_box_append() {
    let mut l = DynamicList::default();
    l.push(true);
    l.push(3i64);
    l.push_box(Box::new(Value::Opaque(1)));
    List::push(&mut l, Value::Int(4));
    assert_eq!(
        l.values,
        vec![Value::Bool(true), Value::Int(3), Value::Opaque(1), Value::Int(4)]
    );
}

#[test]
fn set_takes_only_the_same_container() {
    let mut a = int_array(&[1]);
    assert_eq!(a.set(Value::Array(int_array(&[2, 3]))), Ok(()));
    assert_eq!(a.values, ints(&[2, 3]));
    assert_eq!(a.set(Value::Int(4)), Err(Value::Int(4)));
    assert_eq!(a.values, ints(&[2, 3]));
    let mut l = int_list(&[1]);
    assert_eq!(
        l.set(Value::Array(int_array(&[2]))),
        Err(Value::Array(int_array(&[2])))
    );
    assert_eq!(l.set(Value::List(int_list(&[7]))), Ok(()));
    assert_eq!(l.values, ints(&[7]));
}

#[test]
fn scalar_apply_replaces_or_refuses() {
    let mut v = Value::Int(1);
    assert_eq!(v.apply(&Value::Int(2)), Ok(()));
    assert_eq!(v, Value::Int(2));
    assert_eq!(v.apply(&Value::Bool(true)), Err(ShapeMismatch));
    assert_eq!(v, Value::Int(2));
    let mut o = Value::Opaque(1);
    assert_eq!(o.apply(&Value::Opaque(8)), Ok(()));
    assert_eq!(o, Value::Opaque(8));
}

#[test]
fn clone_value_keeps_kind_and_name() {
    let mut l = int_list(&[1, 2]);
    l.set_name("ints".to_string());
    let v = l.clone_value();
    assert_eq!(v, Value::List(l));
    let a = int_array(&[3]);
    assert_eq!(a.clone_value(), Value::Array(int_array(&[3])));
}

#[test]
fn only_the_list_offers_a_serializable_view() {
    assert!(!int_array(&[1]).serializable());
    assert!(int_list(&[1]).serializable());
}
