use filson::operators::{array_intersects, array_is_subset, intersects, is_subset, str_array_intersects};
use filson::{DataNode, ValueMap};

fn map_of(entries: &[(i64, i64)]) -> DataNode<'static> {
    let mut m = ValueMap::new();
    for (k, v) in entries {
        m.insert(DataNode::from(*k), DataNode::from(*v));
    }
    DataNode::Dict(m)
}

#[test]
fn test_map_intersects_maps_intersect() {
    let left_map = map_of(&[(1, 10), (2, 20)]);
    let right_map = map_of(&[(2, 20), (4, 40)]);
    assert!(intersects(&left_map, &right_map).unwrap());
}

#[test]
fn test_map_intersects_maps_do_not_intersect() {
    let left_map = map_of(&[(1, 10), (2, 20)]);
    let right_map = map_of(&[(3, 30), (4, 40)]);
    assert!(!intersects(&left_map, &right_map).unwrap());
}

#[test]
fn test_map_intersects_have_same_key_but_different_values() {
    let left_map = map_of(&[(1, 10), (2, 20)]);
    let right_map = map_of(&[(2, 200), (3, 30)]);
    assert!(!intersects(&left_map, &right_map).unwrap());
}

#[test]
fn test_map_intersects_have_same_value_but_different_keys() {
    let left_map = map_of(&[(1, 10), (2, 20)]);
    let right_map = map_of(&[(20, 20), (3, 30)]);
    assert!(!intersects(&left_map, &right_map).unwrap());
}

#[test]
fn test_map_intersects_left_map_is_empty() {
    let left_map = map_of(&[]);
    let right_map = map_of(&[(2, 20), (4, 40)]);
    assert!(intersects(&left_map, &right_map).unwrap());
}

#[test]
fn test_map_intersects_right_map_is_empty() {
    let left_map = map_of(&[(1, 10), (2, 20), (3, 30)]);
    let right_map = map_of(&[]);
    assert!(!intersects(&left_map, &right_map).unwrap());
}

#[test]
fn test_map_intersects_both_maps_are_empty() {
    let left_map = map_of(&[]);
    let right_map = map_of(&[]);
    assert!(intersects(&left_map, &right_map).unwrap());
}

#[test]
fn test_array_intersects() {
    let left_arr = vec![DataNode::from(1), DataNode::from(2)];
    let right_arr = vec![DataNode::from(2), DataNode::from(4)];
    assert!(array_intersects(&left_arr, &right_arr));
}

#[test]
fn test_arrays_do_not_intersect() {
    let left_arr = vec![DataNode::from(1), DataNode::from(2)];
    let right_arr = vec![DataNode::from(4), DataNode::from(5)];
    assert!(!array_intersects(&left_arr, &right_arr));
}

#[test]
fn test_array_intersects_left_is_empty() {
    let left_arr = vec![];
    let right_arr = vec![DataNode::from(2), DataNode::from(4)];
    assert!(array_intersects(&left_arr, &right_arr));
}

#[test]
fn test_array_intersects_right_is_empty() {
    let left_arr = vec![DataNode::from(1), DataNode::from(2)];
    let right_arr = vec![];
    assert!(!array_intersects(&left_arr, &right_arr));
}

#[test]
fn test_array_intersects_both_are_empty() {
    let left_arr: Vec<u8> = vec![];
    let right_arr: Vec<u8> = vec![];
    assert!(str_array_intersects(&left_arr, &right_arr));
}

#[test]
fn test_str_intersects_both_empty() {
    let left_str = "";
    let right_str = "";
    assert!(str_array_intersects(left_str.as_bytes(), right_str.as_bytes()));
}

#[test]
fn test_str_intersects_left_empty() {
    let left_str = "";
    let right_str = "hello";
    assert!(str_array_intersects(left_str.as_bytes(), right_str.as_bytes()));
}

#[test]
fn test_str_intersects_right_empty() {
    let left_str = "world";
    let right_str = "";
    assert!(!str_array_intersects(left_str.as_bytes(), right_str.as_bytes()));
}

#[test]
fn test_str_no_intersection() {
    let left_str = "abc";
    let right_str = "def";
    assert!(!str_array_intersects(left_str.as_bytes(), right_str.as_bytes()));
}

#[test]
fn test_str_intersection() {
    let left_str = "abc";
    let right_str = "bcd";
    assert!(str_array_intersects(left_str.as_bytes(), right_str.as_bytes()));
}

#[test]
fn test_array_is_subset() {
    let left_arr = vec![DataNode::from(1), DataNode::from(2)];
    let right_arr = vec![DataNode::from(1), DataNode::from(2), DataNode::from(3), DataNode::from(4)];
    assert!(array_is_subset(&left_arr, &right_arr));
}

#[test]
fn test_array_is_subset_returns_false_when_left_array_is_not_subset_of_right_array() {
    let left_arr = vec![DataNode::from(1), DataNode::from(2)];
    let right_arr = vec![DataNode::from(2), DataNode::from(3), DataNode::from(4), DataNode::from(5)];
    assert!(!array_is_subset(&left_arr, &right_arr));
}

#[test]
fn test_array_is_subset_left_empty() {
    let left_arr = vec![];
    let right_arr = vec![DataNode::from(4), DataNode::from(5)];
    assert!(array_is_subset(&left_arr, &right_arr));
}

#[test]
fn test_array_is_subset_right_array_empty() {
    let left_arr = vec![DataNode::from(1), DataNode::from(2)];
    let right_arr = vec![];
    assert!(!array_is_subset(&left_arr, &right_arr));
}

#[test]
fn test_array_is_subset_returns_true_when_both_arrays_are_empty() {
    let left_arr: Vec<DataNode> = vec![];
    let right_arr: Vec<DataNode> = vec![];
    assert!(array_is_subset(&left_arr, &right_arr));
}

#[test]
fn test_array_is_subset_left_is_identical_to_right() {
    let left_arr = vec![DataNode::from(1), DataNode::from(2)];
    let right_arr = vec![DataNode::from(1), DataNode::from(2)];
    assert!(array_is_subset(&left_arr, &right_arr));
}

#[test]
fn test_map_is_subset_left_map_is_subset_of_right_map() {
    let left_map = map_of(&[(1, 10), (2, 20)]);
    let right_map = map_of(&[(1, 10), (2, 20), (3, 30)]);
    assert!(is_subset(&left_map, &right_map).unwrap());
}

#[test]
fn test_map_is_subset_left_map_is_not_subset_of_right_map() {
    let left_map = map_of(&[(1, 10), (2, 20), (3, 30)]);
    let right_map = map_of(&[(1, 10), (2, 20)]);
    assert!(!is_subset(&left_map, &right_map).unwrap());
}

#[test]
fn test_map_is_subset_left_map_is_empty() {
    let left_map = map_of(&[]);
    let right_map = map_of(&[(2, 20), (1, 10)]);
    assert!(is_subset(&left_map, &right_map).unwrap());
}

#[test]
fn test_map_is_subset_right_map_is_empty() {
    let left_map = map_of(&[(1, 10), (2, 20)]);
    let right_map = map_of(&[]);
    assert!(!is_subset(&left_map, &right_map).unwrap());
}

#[test]
fn test_map_is_subset_both_maps_are_empty() {
    let left_map = map_of(&[]);
    let right_map = map_of(&[]);
    assert!(is_subset(&left_map, &right_map).unwrap());
}

#[test]
fn test_map_is_subset_same_keys_different_values() {
    let left_map = map_of(&[(1, 10), (2, 20)]);
    let right_map = map_of(&[(1, 100), (2, 200), (3, 300)]);
    assert!(!is_subset(&left_map, &right_map).unwrap());
}

#[test]
fn test_map_is_subset_same_values_different_keys() {
    let left_map = map_of(&[(1, 10), (2, 20)]);
    let right_map = map_of(&[(10, 10), (20, 20), (3, 300)]);
    assert!(!is_subset(&left_map, &right_map).unwrap());
}

#[test]
fn fn_name() {
    let equal = DataNode::Array(vec![1.into()]) == DataNode::Null;
    println!("{}", equal);
    assert!(!equal);
}
