use std::cell::RefCell;

use filson::operators::{
    array_is_subset, bytes_cmp, bytes_is_subset, check_intersection_or_subset_corner_cases, compare,
    intersects, is_contained, is_subset, is_superset,
};
use filson::value::values_equal;
use filson::{apply_with_cache, Appliable, Ast, DataNode, Extractable, ExtractionCache, FilsonError, FilsonResult, Op, ValueMap, ValueSet};

/// A record with integer fields `/x`, `/y`, `/int` and an array `/array`,
/// which logs every path it is asked for.
struct Counting {
    x: i64,
    y: i64,
    array: Vec<i64>,
    asked: RefCell<Vec<String>>,
}

impl Counting {
    fn new(x: i64, y: i64, array: Vec<i64>) -> Counting {
        Counting { x, y, array, asked: RefCell::new(Vec::new()) }
    }
}

impl Extractable for Counting {
    fn extract<'r>(&'r self, path: &str) -> FilsonResult<DataNode<'r>> {
        self.asked.borrow_mut().push(path.to_string());
        match path {
            "/x" => Ok(DataNode::from(self.x)),
            "/y" => Ok(DataNode::from(self.y)),
            "/int" => Ok(DataNode::from(self.x)),
            "/array" => Ok(DataNode::Array(self.array.iter().map(|v| DataNode::from(*v)).collect())),
            _ => Err(FilsonError::ExtractionError),
        }
    }
}

fn ints(xs: &[i64]) -> DataNode<'static> {
    DataNode::Array(xs.iter().map(|x| DataNode::from(*x)).collect())
}

fn int_set(xs: &[i64]) -> DataNode<'static> {
    let mut s = ValueSet::new();
    for x in xs {
        s.insert(DataNode::from(*x));
    }
    DataNode::SetOf(s)
}

fn int_map(entries: &[(i64, i64)]) -> DataNode<'static> {
    let mut m = ValueMap::new();
    for (k, v) in entries {
        m.insert(DataNode::from(*k), DataNode::from(*v));
    }
    DataNode::Dict(m)
}

fn float(f: f64) -> DataNode<'static> {
    DataNode::from_f64_bits(f.to_bits())
}

#[test]
fn equal_values_compare_equal_and_not_unequal() {
    let pairs = vec![
        (DataNode::from(7), DataNode::from(7)),
        (DataNode::from("abc"), DataNode::from("abc")),
        (int_set(&[1, 2]), int_set(&[2, 1])),
        (int_map(&[(1, 10), (2, 20)]), int_map(&[(2, 20), (1, 10)])),
        (ints(&[1, 2]), ints(&[1, 2])),
        (DataNode::Null, DataNode::Null),
    ];
    for (a, b) in pairs {
        assert_eq!(compare(&a, &Op::Eq, &b), Ok(true));
        assert_eq!(compare(&a, &Op::Ne, &b), Ok(false));
    }
}

#[test]
fn different_variants_fail_every_comparison() {
    for op in [Op::Eq, Op::Ne, Op::Gt, Op::Lt, Op::Gte, Op::Lte] {
        assert_eq!(compare(&DataNode::from(1), &op, &float(1.0)), Err(FilsonError::TypeError));
        assert_eq!(compare(&DataNode::Null, &op, &DataNode::from(false)), Err(FilsonError::TypeError));
    }
}

#[test]
fn ordering_collections_is_prohibited() {
    assert_eq!(compare(&ints(&[1]), &Op::Gt, &ints(&[0])), Err(FilsonError::OrderingProhibitedError));
    assert_eq!(compare(&int_set(&[1]), &Op::Lte, &int_set(&[1])), Err(FilsonError::OrderingProhibitedError));
    assert_eq!(compare(&ints(&[1]), &Op::Ne, &ints(&[0])), Ok(true));
}

#[test]
fn scalars_are_ordered() {
    assert_eq!(compare(&DataNode::from(2), &Op::Gt, &DataNode::from(1)), Ok(true));
    assert_eq!(compare(&DataNode::from(-3), &Op::Lt, &DataNode::from(1)), Ok(true));
    assert_eq!(compare(&DataNode::from(1), &Op::Gte, &DataNode::from(1)), Ok(true));
    assert_eq!(compare(&DataNode::from("abd"), &Op::Gt, &DataNode::from("abc")), Ok(true));
    assert_eq!(compare(&DataNode::from("ab"), &Op::Lt, &DataNode::from("abc")), Ok(true));
    assert_eq!(compare(&DataNode::from(false), &Op::Lt, &DataNode::from(true)), Ok(true));
    assert_eq!(compare(&DataNode::Null, &Op::Gt, &DataNode::Null), Ok(false));
    assert_eq!(compare(&DataNode::Null, &Op::Lte, &DataNode::Null), Ok(true));
    assert_eq!(bytes_cmp(b"abc", b"abd"), -1);
    assert_eq!(bytes_cmp(b"b", b"abc"), 1);
    assert_eq!(bytes_cmp(b"", b""), 0);
}

#[test]
fn floats_are_totally_ordered() {
    assert_eq!(compare(&float(-1.5), &Op::Lt, &float(0.25)), Ok(true));
    assert_eq!(compare(&float(2.0), &Op::Gt, &float(1.0)), Ok(true));
    assert_eq!(compare(&float(-2.0), &Op::Lt, &float(-1.0)), Ok(true));
    assert_eq!(compare(&float(0.0), &Op::Eq, &float(-0.0)), Ok(true));
    assert_eq!(compare(&float(f64::NAN), &Op::Eq, &float(-f64::NAN)), Ok(true));
    assert_eq!(compare(&float(f64::NAN), &Op::Gt, &float(f64::INFINITY)), Ok(true));
    assert_eq!(compare(&float(f64::NEG_INFINITY), &Op::Lt, &float(-1.0e300)), Ok(true));
    assert_eq!(compare(&float(1.0), &Op::Eq, &float(1.0)), Ok(true));
}

#[test]
fn superset_is_converse_subset() {
    let pairs = vec![
        (ints(&[1, 2, 3]), ints(&[2, 3])),
        (int_set(&[1]), int_set(&[1, 2])),
        (int_map(&[(1, 1)]), int_map(&[(1, 1), (2, 2)])),
        (DataNode::from("abc"), DataNode::from("b")),
    ];
    for (a, b) in pairs {
        assert_eq!(is_superset(&a, &b), is_subset(&b, &a));
        assert_eq!(is_superset(&b, &a), is_subset(&a, &b));
    }
}

#[test]
fn empty_left_intersects_and_is_subset() {
    let cases = vec![
        (ints(&[]), ints(&[1])),
        (ints(&[]), ints(&[])),
        (int_set(&[]), int_set(&[5])),
        (int_map(&[]), int_map(&[])),
        (DataNode::from(""), DataNode::from("x")),
    ];
    for (e, x) in cases {
        assert_eq!(intersects(&e, &x), Ok(true));
        assert_eq!(is_subset(&e, &x), Ok(true));
    }
}

#[test]
fn non_empty_left_against_empty_right_is_false() {
    let cases = vec![
        (ints(&[1]), ints(&[])),
        (int_set(&[5]), int_set(&[])),
        (int_map(&[(1, 2)]), int_map(&[])),
        (DataNode::from("x"), DataNode::from("")),
    ];
    for (x, e) in cases {
        assert_eq!(intersects(&x, &e), Ok(false));
        assert_eq!(is_subset(&x, &e), Ok(false));
    }
}

#[test]
fn sequence_subset_is_contiguous() {
    let right = vec![DataNode::from(1), DataNode::from(2), DataNode::from(3), DataNode::from(4)];
    assert!(array_is_subset(&vec![DataNode::from(1), DataNode::from(2)], &right));
    assert!(!array_is_subset(&vec![DataNode::from(1), DataNode::from(3)], &right));
    assert!(array_is_subset(&vec![DataNode::from(3), DataNode::from(4)], &right));
    assert!(!array_is_subset(&vec![DataNode::from(2), DataNode::from(1)], &right));
}

#[test]
fn map_intersects_needs_matching_value() {
    let left = int_map(&[(1, 10), (2, 20)]);
    assert_eq!(intersects(&left, &int_map(&[(2, 200), (3, 30)])), Ok(false));
    assert_eq!(intersects(&left, &int_map(&[(2, 20), (3, 30)])), Ok(true));
}

#[test]
fn text_subset_is_substring() {
    assert!(bytes_is_subset(b"ka", b"karl"));
    assert!(bytes_is_subset(b"rl", b"karl"));
    assert!(!bytes_is_subset(b"kr", b"karl"));
    assert!(!bytes_is_subset(b"karls", b"karl"));
    assert_eq!(is_subset(&DataNode::from("arl"), &DataNode::from("karl")), Ok(true));
}

#[test]
fn set_intersection_ignores_order() {
    assert_eq!(intersects(&int_set(&[9, 3]), &int_set(&[1, 3])), Ok(true));
    assert_eq!(intersects(&int_set(&[9, 4]), &int_set(&[1, 3])), Ok(false));
}

#[test]
fn operand_errors() {
    assert_eq!(intersects(&DataNode::from(1), &ints(&[1])), Err(FilsonError::IntersectsError));
    assert_eq!(is_subset(&DataNode::from(true), &ints(&[1])), Err(FilsonError::IsSubsetError));
    assert_eq!(is_superset(&DataNode::Null, &ints(&[1])), Err(FilsonError::IsSupersetError));
    assert_eq!(intersects(&ints(&[1]), &int_set(&[1])), Err(FilsonError::TypeError));
    assert_eq!(is_subset(&DataNode::from("a"), &ints(&[1])), Err(FilsonError::TypeError));
}

#[test]
fn is_contained_compares_across_variants_without_error() {
    assert!(is_contained(&DataNode::from(1), &ints(&[1, 2])));
    assert!(!is_contained(&float(1.0), &ints(&[1, 2])));
    assert!(is_contained(&DataNode::from(2), &int_map(&[(2, 0)])));
    assert!(!is_contained(&DataNode::from(0), &int_map(&[(2, 0)])));
    assert!(is_contained(&int_set(&[2, 1]), &DataNode::Array(vec![int_set(&[1, 2])])));
}

#[test]
fn corner_cases_rule() {
    assert_eq!(check_intersection_or_subset_corner_cases(0, 0), Some(true));
    assert_eq!(check_intersection_or_subset_corner_cases(0, 3), Some(true));
    assert_eq!(check_intersection_or_subset_corner_cases(2, 0), Some(false));
    assert_eq!(check_intersection_or_subset_corner_cases(2, 3), None);
}

#[test]
fn set_and_map_insertion() {
    let mut s = ValueSet::new();
    assert!(s.insert(DataNode::from(1)));
    assert!(!s.insert(DataNode::from(1)));
    assert!(s.insert(DataNode::from("1")));
    assert_eq!(s.len(), 2);
    let mut m = ValueMap::new();
    m.insert(DataNode::from(1), DataNode::from(10));
    m.insert(DataNode::from(1), DataNode::from(11));
    assert_eq!(m.len(), 1);
    assert!(values_equal(&m.values()[0], &DataNode::from(11)));
}

#[test]
fn exists_never_fails() {
    let record = Counting::new(1, 2, vec![]);
    assert_eq!(Ast::Exists { path: "/absent" }.apply(&record), Ok(false));
    assert_eq!(Ast::Exists { path: "/x" }.apply(&record), Ok(true));
}

#[test]
fn connectives_evaluate_both_sides_once() {
    let record = Counting::new(1, 2, vec![]);
    let tree = Ast::And(
        Box::new(Ast::Compare { lhs: "/x", op: Op::Eq, rhs: DataNode::from(999) }),
        Box::new(Ast::Compare { lhs: "/y", op: Op::Eq, rhs: DataNode::from(999) }),
    );
    assert_eq!(tree.apply(&record), Ok(false));
    assert_eq!(*record.asked.borrow(), vec!["/x".to_string(), "/y".to_string()]);

    let record = Counting::new(1, 2, vec![]);
    let tree = Ast::Or(
        Box::new(Ast::Compare { lhs: "/x", op: Op::Eq, rhs: DataNode::from(1) }),
        Box::new(Ast::Not(Box::new(Ast::Compare { lhs: "/x", op: Op::Gt, rhs: DataNode::from(0) }))),
    );
    assert_eq!(tree.apply(&record), Ok(true));
    assert_eq!(*record.asked.borrow(), vec!["/x".to_string()]);
}

#[test]
fn errors_cut_evaluation_short() {
    let record = Counting::new(1, 2, vec![]);
    let tree = Ast::And(
        Box::new(Ast::Compare { lhs: "/absent", op: Op::Eq, rhs: DataNode::from(1) }),
        Box::new(Ast::Compare { lhs: "/y", op: Op::Eq, rhs: DataNode::from(2) }),
    );
    assert_eq!(tree.apply(&record), Err(FilsonError::ExtractionError));
    assert_eq!(*record.asked.borrow(), vec!["/absent".to_string()]);

    let record = Counting::new(1, 2, vec![]);
    let tree = Ast::Xor(
        Box::new(Ast::Intersects { lhs: "/x", rhs: ints(&[1]) }),
        Box::new(Ast::Exists { path: "/y" }),
    );
    assert_eq!(tree.apply(&record), Err(FilsonError::IntersectsError));
    assert_eq!(*record.asked.borrow(), vec!["/x".to_string()]);
}

#[test]
fn failed_extraction_is_kept() {
    let record = Counting::new(1, 2, vec![]);
    let mut cache = ExtractionCache::new();
    let first = Ast::Exists { path: "/absent" };
    let second = Ast::Compare { lhs: "/absent", op: Op::Eq, rhs: DataNode::Null };
    assert_eq!(apply_with_cache(&first, &record, &mut cache), Ok(false));
    assert_eq!(apply_with_cache(&second, &record, &mut cache), Err(FilsonError::ExtractionError));
    assert_eq!(*record.asked.borrow(), vec!["/absent".to_string()]);
}

#[test]
fn end_to_end_scenario() {
    let record = Counting::new(1, 0, vec![1, 2]);
    assert_eq!(Ast::Compare { lhs: "/int", op: Op::Eq, rhs: DataNode::from(1) }.apply(&record), Ok(true));
    assert_eq!(Ast::IsSuperset { lhs: "/array", rhs: ints(&[2]) }.apply(&record), Ok(true));
    assert_eq!(Ast::IsSuperset { lhs: "/array", rhs: ints(&[3]) }.apply(&record), Ok(false));
    let tree = Ast::Intersects { lhs: "/array", rhs: ints(&[3]) };
    assert_eq!(tree.apply(&record), Ok(false));
    assert_eq!(tree.apply(&Counting::new(1, 0, vec![2, 3])), Ok(true));
}

#[test]
fn well_formedness_of_trees() {
    assert!(Ast::IsContained { lhs: "/x", rhs: ints(&[1]) }.is_well_formed());
    assert!(!Ast::IsContained { lhs: "/x", rhs: DataNode::from("ab") }.is_well_formed());
    let nested = Ast::Not(Box::new(Ast::IsContained { lhs: "/x", rhs: DataNode::from(1) }));
    assert!(!nested.is_well_formed());
}

#[test]
fn error_messages() {
    assert_eq!(FilsonError::ExtractionError.message(), "Data by specified path doesn't exist.");
    assert_eq!(FilsonError::TypeError.message(), "Values are of different types.");
}

#[test]
fn ordering_operators() {
    assert!(!Op::Eq.is_ordering());
    assert!(!Op::Ne.is_ordering());
    assert!(Op::Gt.is_ordering());
    assert!(Op::Lte.is_ordering());
}

#[test]
fn operator_symbols() {
    assert_eq!(Op::from_symbol("=="), Some(Op::Eq));
    assert_eq!(Op::from_symbol("!="), Some(Op::Ne));
    assert_eq!(Op::from_symbol(">"), Some(Op::Gt));
    assert_eq!(Op::from_symbol("<"), Some(Op::Lt));
    assert_eq!(Op::from_symbol(">="), Some(Op::Gte));
    assert_eq!(Op::from_symbol("<="), Some(Op::Lte));
    assert_eq!(Op::from_symbol("=>"), None);
    assert_eq!(Op::from_symbol(""), None);
}

#[test]
fn value_equality_operator() {
    assert_eq!(int_set(&[1, 2]), int_set(&[2, 1]));
    assert_eq!(int_map(&[(1, 10), (2, 20)]), int_map(&[(2, 20), (1, 10)]));
    assert_ne!(int_map(&[(1, 10)]), int_map(&[(1, 11)]));
    assert_ne!(ints(&[1, 2]), ints(&[2, 1]));
    assert_ne!(DataNode::from(1), float(1.0));
    assert_eq!(DataNode::from_option(None), DataNode::Null);
    assert_eq!(DataNode::from_option(Some(DataNode::from(true))), DataNode::from(true));
}
