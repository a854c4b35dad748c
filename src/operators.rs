//! The predicates of the language over pairs of values, with the guards on
//! their operands.
use vstd::prelude::*;
use vstd::string::StringSliceAdditionalSpecFns;

use crate::error::{FilsonError, FilsonResult};
use crate::op::Op;
use crate::value::{
    contains_equal, equiv, in_seq, key_in, lemma_equiv_same_variant, map_included, maps_meet,
    same_variant, seq_included, seq_included_exec, seq_meets, seq_meets_exec, spec_is_collection,
    values_equal, DataNode,
};

verus! {

/// The fixed rule for empty operands of `intersects` and `is_subset`: an
/// empty left side gives `true`, a non-empty left side against an empty
/// right side gives `false`, and otherwise the operator decides.
pub open spec fn corner_case(left_len: nat, right_len: nat) -> Option<bool> {
    if left_len == 0 {
        Some(true)
    } else if right_len == 0 {
        Some(false)
    } else {
        None
    }
}

/// The empty-operand rule: `Some` of the result where it decides, `None`
/// where the operator must.
pub fn check_intersection_or_subset_corner_cases(left_len: usize, right_len: usize) -> (r: Option<
    bool,
>)
    ensures
        r == corner_case(left_len as nat, right_len as nat),
{
    if left_len == 0 {
        Some(true)
    } else if right_len == 0 {
        Some(false)
    } else {
        None
    }
}

/// Some byte of `l` occurs in `r`.
pub open spec fn bytes_meet(l: Seq<u8>, r: Seq<u8>) -> bool {
    exists|i: int, j: int| 0 <= i < l.len() && 0 <= j < r.len() && #[trigger] l[i] == #[trigger] r[j]
}

/// `l` occurs in `r` as a run of consecutive bytes starting at `k`.
pub open spec fn bytes_run_at(l: Seq<u8>, r: Seq<u8>, k: int) -> bool {
    0 <= k && k + l.len() <= r.len() && r.subrange(k, k + l.len()) == l
}

/// `l` occurs in `r` as a run of consecutive bytes.
pub open spec fn bytes_run(l: Seq<u8>, r: Seq<u8>) -> bool {
    exists|k: int| #[trigger] bytes_run_at(l, r, k)
}

/// `l` occurs in `r` as a run of consecutive elements starting at `k`, each
/// equal to the element of `l` at the same offset.
pub open spec fn run_at<'a>(l: Seq<DataNode<'a>>, r: Seq<DataNode<'a>>, k: int) -> bool {
    &&& 0 <= k
    &&& k + l.len() <= r.len()
    &&& forall|i: int| 0 <= i < l.len() ==> equiv(#[trigger] l[i], r[k + i])
}

/// `l` occurs in `r` as a run of consecutive elements.
pub open spec fn contiguous_in<'a>(l: Seq<DataNode<'a>>, r: Seq<DataNode<'a>>) -> bool {
    exists|k: int| #[trigger] run_at(l, r, k)
}

/// `intersects` on the bytes of two texts, under the empty-operand rule.
pub open spec fn text_intersects(l: Seq<u8>, r: Seq<u8>) -> bool {
    match corner_case(l.len(), r.len()) {
        Some(b) => b,
        None => bytes_meet(l, r),
    }
}

/// `is_subset` on the bytes of two texts: `l` is a substring of `r`, under
/// the empty-operand rule.
pub open spec fn text_subset(l: Seq<u8>, r: Seq<u8>) -> bool {
    match corner_case(l.len(), r.len()) {
        Some(b) => b,
        None => bytes_run(l, r),
    }
}

/// `intersects` on two arrays or two sets: some element of `l` equals some
/// element of `r`, under the empty-operand rule.
pub open spec fn seq_intersects<'a>(l: Seq<DataNode<'a>>, r: Seq<DataNode<'a>>) -> bool {
    match corner_case(l.len(), r.len()) {
        Some(b) => b,
        None => seq_meets(l, r),
    }
}

/// `is_subset` on two sets: each element of `l` equals some element of `r`,
/// under the empty-operand rule.
pub open spec fn set_subset<'a>(l: Seq<DataNode<'a>>, r: Seq<DataNode<'a>>) -> bool {
    match corner_case(l.len(), r.len()) {
        Some(b) => b,
        None => seq_included(l, r),
    }
}

/// `is_subset` on two arrays: `l` is a contiguous run inside `r`, under the
/// empty-operand rule.
pub open spec fn array_subset<'a>(l: Seq<DataNode<'a>>, r: Seq<DataNode<'a>>) -> bool {
    match corner_case(l.len(), r.len()) {
        Some(b) => b,
        None => contiguous_in(l, r),
    }
}

/// The number of entries, elements or bytes of a collection or a text.
pub open spec fn node_len<'a>(a: DataNode<'a>) -> nat {
    match a {
        DataNode::Dict(m) => m.spec_keys().len(),
        DataNode::SetOf(s) => s@.len(),
        DataNode::Array(v) => v@.len(),
        DataNode::Str(t) => t.spec_bytes().len(),
        _ => 0,
    }
}

/// The value is a collection or a text.
pub open spec fn collection_or_text<'a>(a: DataNode<'a>) -> bool {
    spec_is_collection(a) || a is Str
}

/// `intersects` on two values of one collection or text variant.
pub open spec fn spec_intersects<'a>(a: DataNode<'a>, b: DataNode<'a>) -> bool {
    match (a, b) {
        (DataNode::SetOf(l), DataNode::SetOf(r)) => seq_intersects(l@, r@),
        (DataNode::Array(l), DataNode::Array(r)) => seq_intersects(l@, r@),
        (DataNode::Dict(l), DataNode::Dict(r)) => match corner_case(
            l.spec_keys().len(),
            r.spec_keys().len(),
        ) {
            Some(x) => x,
            None => maps_meet(l, r),
        },
        (DataNode::Str(l), DataNode::Str(r)) => text_intersects(l.spec_bytes(), r.spec_bytes()),
        _ => false,
    }
}

/// `is_subset` on two values of one collection or text variant.
pub open spec fn spec_is_subset<'a>(a: DataNode<'a>, b: DataNode<'a>) -> bool {
    match (a, b) {
        (DataNode::SetOf(l), DataNode::SetOf(r)) => set_subset(l@, r@),
        (DataNode::Array(l), DataNode::Array(r)) => array_subset(l@, r@),
        (DataNode::Dict(l), DataNode::Dict(r)) => match corner_case(
            l.spec_keys().len(),
            r.spec_keys().len(),
        ) {
            Some(x) => x,
            None => map_included(l, r),
        },
        (DataNode::Str(l), DataNode::Str(r)) => text_subset(l.spec_bytes(), r.spec_bytes()),
        _ => false,
    }
}

/// What `intersects(a, b)` gives: `IntersectsError` unless both are
/// collections or texts, then `TypeError` unless they are of one variant.
pub open spec fn intersects_result<'a>(a: DataNode<'a>, b: DataNode<'a>) -> FilsonResult<bool> {
    if !collection_or_text(a) || !collection_or_text(b) {
        Err(FilsonError::IntersectsError)
    } else if !same_variant(a, b) {
        Err(FilsonError::TypeError)
    } else {
        Ok(spec_intersects(a, b))
    }
}

/// What `is_subset(a, b)` gives: `IsSubsetError` unless both are
/// collections or texts, then `TypeError` unless they are of one variant.
pub open spec fn is_subset_result<'a>(a: DataNode<'a>, b: DataNode<'a>) -> FilsonResult<bool> {
    if !collection_or_text(a) || !collection_or_text(b) {
        Err(FilsonError::IsSubsetError)
    } else if !same_variant(a, b) {
        Err(FilsonError::TypeError)
    } else {
        Ok(spec_is_subset(a, b))
    }
}

/// What `is_superset(a, b)` gives: `IsSupersetError` unless both are
/// collections or texts, then `TypeError` unless they are of one variant,
/// then whether `b` is a subset of `a`.
pub open spec fn is_superset_result<'a>(a: DataNode<'a>, b: DataNode<'a>) -> FilsonResult<bool> {
    if !collection_or_text(a) || !collection_or_text(b) {
        Err(FilsonError::IsSupersetError)
    } else if !same_variant(a, b) {
        Err(FilsonError::TypeError)
    } else {
        Ok(spec_is_subset(b, a))
    }
}

/// `x` equals an element of the array or set `c`, or a key of the map `c`.
pub open spec fn spec_is_contained<'a>(x: DataNode<'a>, c: DataNode<'a>) -> bool {
    match c {
        DataNode::Dict(m) => key_in(x, m),
        DataNode::SetOf(s) => in_seq(x, s@),
        DataNode::Array(v) => in_seq(x, v@),
        _ => false,
    }
}

/// Lexicographic order of byte strings, as -1, 0 or 1.
pub open spec fn lex_cmp(a: Seq<u8>, b: Seq<u8>) -> int
    decreases a.len(),
{
    if a.len() == 0 {
        if b.len() == 0 {
            0
        } else {
            -1
        }
    } else if b.len() == 0 {
        1
    } else if a[0] < b[0] {
        -1
    } else if a[0] > b[0] {
        1
    } else {
        lex_cmp(a.drop_first(), b.drop_first())
    }
}

/// The sign of `x - y`.
pub open spec fn sign_of(x: int, y: int) -> int {
    if x < y {
        -1
    } else if x > y {
        1
    } else {
        0
    }
}

/// The order of two values of one scalar variant, as -1, 0 or 1: integers
/// and float keys by number, text by bytes, `false` before `true`, and
/// null equal to null.
pub open spec fn scalar_cmp<'a>(a: DataNode<'a>, b: DataNode<'a>) -> int {
    match (a, b) {
        (DataNode::I64(x), DataNode::I64(y)) => sign_of(x as int, y as int),
        (DataNode::F64(x), DataNode::F64(y)) => sign_of(x.spec_key() as int, y.spec_key() as int),
        (DataNode::Str(x), DataNode::Str(y)) => lex_cmp(x.spec_bytes(), y.spec_bytes()),
        (DataNode::Bool(x), DataNode::Bool(y)) => sign_of(
            if x {
                1
            } else {
                0
            },
            if y {
                1
            } else {
                0
            },
        ),
        _ => 0,
    }
}

/// `compare` on two values of one variant, where `op` orders only scalars.
pub open spec fn spec_compare<'a>(a: DataNode<'a>, op: Op, b: DataNode<'a>) -> bool {
    match op {
        Op::Eq => equiv(a, b),
        Op::Ne => !equiv(a, b),
        Op::Gt => scalar_cmp(a, b) > 0,
        Op::Lt => scalar_cmp(a, b) < 0,
        Op::Gte => scalar_cmp(a, b) >= 0,
        Op::Lte => scalar_cmp(a, b) <= 0,
    }
}

/// What `compare(a, op, b)` gives: `TypeError` unless both are of one
/// variant, `OrderingProhibitedError` for an ordering operator on
/// collections, else the comparison.
pub open spec fn compare_result<'a>(a: DataNode<'a>, op: Op, b: DataNode<'a>) -> FilsonResult<bool> {
    if !same_variant(a, b) {
        Err(FilsonError::TypeError)
    } else if spec_is_collection(a) && op.spec_is_ordering() {
        Err(FilsonError::OrderingProhibitedError)
    } else {
        Ok(spec_compare(a, op, b))
    }
}

/// Whether some byte of `left` occurs in `right`, under the empty-operand rule.
pub fn str_array_intersects(left: &[u8], right: &[u8]) -> (r: bool)
    ensures
        r == text_intersects(left@, right@),
{
    if let Some(corner) = check_intersection_or_subset_corner_cases(left.len(), right.len()) {
        return corner;
    }
    let mut i: usize = 0;
    while i < left.len()
        invariant
            i <= left@.len(),
            forall|x: int, y: int|
                0 <= x < i && 0 <= y < right@.len() ==> #[trigger] left@[x] != #[trigger] right@[y],
        decreases left@.len() - i,
    {
        let mut j: usize = 0;
        while j < right.len()
            invariant
                i < left@.len(),
                j <= right@.len(),
                forall|x: int, y: int|
                    0 <= x < i && 0 <= y < right@.len() ==> #[trigger] left@[x] != #[trigger] right@[y],
                forall|y: int| 0 <= y < j ==> left@[i as int] != #[trigger] right@[y],
            decreases right@.len() - j,
        {
            if left[i] == right[j] {
                assert(left@[i as int] == right@[j as int]);
                return true;
            }
            j += 1;
        }
        i += 1;
    }
    false
}

/// Whether `l` occurs in `r` as a run of consecutive bytes starting at `k`.
fn bytes_run_at_exec(l: &[u8], r: &[u8], k: usize) -> (b: bool)
    requires
        k + l@.len() <= r@.len(),
    ensures
        b == bytes_run_at(l@, r@, k as int),
{
    let _n = r.len();
    let mut i: usize = 0;
    while i < l.len()
        invariant
            r@.len() <= usize::MAX,
            k + l@.len() <= r@.len(),
            i <= l@.len(),
            forall|x: int| 0 <= x < i ==> l@[x] == r@[k + x],
        decreases l@.len() - i,
    {
        if l[i] != r[k + i] {
            assert(r@.subrange(k as int, k + l@.len())[i as int] != l@[i as int]);
            return false;
        }
        i += 1;
    }
    assert(r@.subrange(k as int, k + l@.len()) =~= l@);
    true
}

/// Whether the bytes of `left` occur in `right` as consecutive bytes, under
/// the empty-operand rule.
pub fn bytes_is_subset(left: &[u8], right: &[u8]) -> (r: bool)
    ensures
        r == text_subset(left@, right@),
{
    if let Some(corner) = check_intersection_or_subset_corner_cases(left.len(), right.len()) {
        return corner;
    }
    if left.len() > right.len() {
        assert forall|k: int| !bytes_run_at(left@, right@, k) by {}
        return false;
    }
    let _n = right.len();
    let last: usize = right.len() - left.len();
    let mut k: usize = 0;
    while k <= last
        invariant
            last == right@.len() - left@.len(),
            left@.len() <= right@.len(),
            left@.len() > 0,
            right@.len() <= usize::MAX,
            k <= last + 1,
            forall|x: int| 0 <= x < k ==> !#[trigger] bytes_run_at(left@, right@, x),
        decreases last + 1 - k,
    {
        if bytes_run_at_exec(left, right, k) {
            return true;
        }
        k += 1;
    }
    assert forall|x: int| !#[trigger] bytes_run_at(left@, right@, x) by {
        if 0 <= x < k {
        }
    }
    false
}

/// Whether the array `l` matches `r` element by element from position `k`.
fn run_at_exec<'a>(l: &Vec<DataNode<'a>>, r: &Vec<DataNode<'a>>, k: usize) -> (b: bool)
    requires
        k + l@.len() <= r@.len(),
    ensures
        b == run_at(l@, r@, k as int),
{
    let _n = r.len();
    let mut i: usize = 0;
    while i < l.len()
        invariant
            r@.len() <= usize::MAX,
            k + l@.len() <= r@.len(),
            i <= l@.len(),
            forall|x: int| 0 <= x < i ==> equiv(#[trigger] l@[x], r@[k + x]),
        decreases l@.len() - i,
    {
        if !values_equal(&l[i], &r[k + i]) {
            return false;
        }
        i += 1;
    }
    true
}

/// Whether the array `left` is a contiguous run inside `right`, under the
/// empty-operand rule.
pub fn array_is_subset<'a>(left: &Vec<DataNode<'a>>, right: &Vec<DataNode<'a>>) -> (r: bool)
    ensures
        r == array_subset(left@, right@),
{
    if let Some(corner) = check_intersection_or_subset_corner_cases(left.len(), right.len()) {
        return corner;
    }
    if left.len() > right.len() {
        assert forall|k: int| !run_at(left@, right@, k) by {}
        return false;
    }
    let _n = right.len();
    let last: usize = right.len() - left.len();
    let mut k: usize = 0;
    while k <= last
        invariant
            last == right@.len() - left@.len(),
            left@.len() <= right@.len(),
            left@.len() > 0,
            right@.len() <= usize::MAX,
            k <= last + 1,
            forall|x: int| 0 <= x < k ==> !#[trigger] run_at(left@, right@, x),
        decreases last + 1 - k,
    {
        if run_at_exec(left, right, k) {
            return true;
        }
        k += 1;
    }
    assert forall|x: int| !#[trigger] run_at(left@, right@, x) by {
        if 0 <= x < k {
        }
    }
    false
}

/// Whether some element of the array `left` equals some element of `right`,
/// under the empty-operand rule.
pub fn array_intersects<'a>(left: &Vec<DataNode<'a>>, right: &Vec<DataNode<'a>>) -> (r: bool)
    ensures
        r == seq_intersects(left@, right@),
{
    if let Some(corner) = check_intersection_or_subset_corner_cases(left.len(), right.len()) {
        return corner;
    }
    seq_meets_exec(left, right)
}

/// The order of two byte strings, lexicographically, as -1, 0 or 1.
pub fn bytes_cmp(a: &[u8], b: &[u8]) -> (r: i8)
    ensures
        r as int == lex_cmp(a@, b@),
{
    proof {
        assert(a@.subrange(0, a@.len() as int) =~= a@);
        assert(b@.subrange(0, b@.len() as int) =~= b@);
    }
    let mut i: usize = 0;
    while i < a.len() && i < b.len()
        invariant
            i <= a@.len(),
            i <= b@.len(),
            lex_cmp(a@, b@) == lex_cmp(a@.subrange(i as int, a@.len() as int), b@.subrange(i as int, b@.len() as int)),
        decreases a@.len() - i,
    {
        let (x, y) = (a[i], b[i]);
        proof {
            let (sa, sb) = (a@.subrange(i as int, a@.len() as int), b@.subrange(i as int, b@.len() as int));
            assert(sa.drop_first() =~= a@.subrange(i + 1, a@.len() as int));
            assert(sb.drop_first() =~= b@.subrange(i + 1, b@.len() as int));
            assert(sa[0] == x && sb[0] == y);
        }
        if x < y {
            return -1;
        } else if x > y {
            return 1;
        }
        i += 1;
    }
    if i == a.len() {
        if i == b.len() {
            0
        } else {
            -1
        }
    } else {
        1
    }
}

/// The order of two values of one scalar variant, as -1, 0 or 1.
fn scalar_order<'a>(a: &DataNode<'a>, b: &DataNode<'a>) -> (r: i8)
    requires
        same_variant(*a, *b),
        !spec_is_collection(*a),
    ensures
        r as int == scalar_cmp(*a, *b),
{
    match (a, b) {
        (DataNode::I64(x), DataNode::I64(y)) => {
            if *x < *y {
                -1
            } else if *x > *y {
                1
            } else {
                0
            }
        },
        (DataNode::F64(x), DataNode::F64(y)) => {
            let (kx, ky) = (x.key(), y.key());
            if kx < ky {
                -1
            } else if kx > ky {
                1
            } else {
                0
            }
        },
        (DataNode::Str(x), DataNode::Str(y)) => bytes_cmp(x.as_bytes(), y.as_bytes()),
        (DataNode::Bool(x), DataNode::Bool(y)) => {
            if !*x && *y {
                -1
            } else if *x && !*y {
                1
            } else {
                0
            }
        },
        _ => 0,
    }
}

/// Compares the extracted value with the literal: `TypeError` unless both
/// are of one variant, `OrderingProhibitedError` for an ordering operator on
/// collections.
pub fn compare<'a>(extracted: &DataNode<'a>, op: &Op, literal: &DataNode<'a>) -> (r: FilsonResult<bool>)
    ensures
        r == compare_result(*extracted, *op, *literal),
{
    if !extracted.is_same_variant(literal) {
        return Err(FilsonError::TypeError);
    }
    if extracted.is_collection_type() && op.is_ordering() {
        return Err(FilsonError::OrderingProhibitedError);
    }
    let r = match op {
        Op::Eq => values_equal(extracted, literal),
        Op::Ne => !values_equal(extracted, literal),
        Op::Gt => scalar_order(extracted, literal) > 0,
        Op::Lt => scalar_order(extracted, literal) < 0,
        Op::Gte => scalar_order(extracted, literal) >= 0,
        Op::Lte => scalar_order(extracted, literal) <= 0,
    };
    Ok(r)
}

/// Whether two values of one collection or text variant intersect.
fn intersects_logic<'a>(left: &DataNode<'a>, right: &DataNode<'a>) -> (r: bool)
    requires
        same_variant(*left, *right),
        collection_or_text(*left),
    ensures
        r == spec_intersects(*left, *right),
{
    match (left, right) {
        (DataNode::SetOf(l), DataNode::SetOf(r)) => {
            if let Some(corner) = check_intersection_or_subset_corner_cases(l.len(), r.len()) {
                return corner;
            }
            seq_meets_exec(l.items(), r.items())
        },
        (DataNode::Array(l), DataNode::Array(r)) => array_intersects(l, r),
        (DataNode::Dict(l), DataNode::Dict(r)) => {
            if let Some(corner) = check_intersection_or_subset_corner_cases(l.len(), r.len()) {
                return corner;
            }
            l.meets(r)
        },
        (DataNode::Str(l), DataNode::Str(r)) => str_array_intersects(l.as_bytes(), r.as_bytes()),
        _ => false,
    }
}

/// Whether the first of two values of one collection or text variant is a
/// subset of the second.
fn is_subset_logic<'a>(left: &DataNode<'a>, right: &DataNode<'a>) -> (r: bool)
    requires
        same_variant(*left, *right),
        collection_or_text(*left),
    ensures
        r == spec_is_subset(*left, *right),
{
    match (left, right) {
        (DataNode::SetOf(l), DataNode::SetOf(r)) => {
            if let Some(corner) = check_intersection_or_subset_corner_cases(l.len(), r.len()) {
                return corner;
            }
            seq_included_exec(l.items(), r.items())
        },
        (DataNode::Array(l), DataNode::Array(r)) => array_is_subset(l, r),
        (DataNode::Dict(l), DataNode::Dict(r)) => {
            if let Some(corner) = check_intersection_or_subset_corner_cases(l.len(), r.len()) {
                return corner;
            }
            l.included_in(r)
        },
        (DataNode::Str(l), DataNode::Str(r)) => bytes_is_subset(l.as_bytes(), r.as_bytes()),
        _ => false,
    }
}

/// Whether the collection or text `extracted` intersects the literal of its
/// variant: `IntersectsError` unless both are collections or texts, then
/// `TypeError` unless they are of one variant.
pub fn intersects<'a>(extracted: &DataNode<'a>, literal: &DataNode<'a>) -> (r: FilsonResult<bool>)
    ensures
        r == intersects_result(*extracted, *literal),
{
    if !(extracted.is_collection_type() || extracted.is_string_type()) || !(
    literal.is_collection_type() || literal.is_string_type()) {
        return Err(FilsonError::IntersectsError);
    }
    if !extracted.is_same_variant(literal) {
        return Err(FilsonError::TypeError);
    }
    Ok(intersects_logic(extracted, literal))
}

/// Whether `extracted` is a subset of the literal: `IsSubsetError` unless
/// both are collections or texts, then `TypeError` unless they are of one
/// variant.
pub fn is_subset<'a>(extracted: &DataNode<'a>, literal: &DataNode<'a>) -> (r: FilsonResult<bool>)
    ensures
        r == is_subset_result(*extracted, *literal),
{
    if !(extracted.is_collection_type() || extracted.is_string_type()) || !(
    literal.is_collection_type() || literal.is_string_type()) {
        return Err(FilsonError::IsSubsetError);
    }
    if !extracted.is_same_variant(literal) {
        return Err(FilsonError::TypeError);
    }
    Ok(is_subset_logic(extracted, literal))
}

/// Whether `extracted` is a superset of the literal, that is whether the
/// literal is a subset of it: `IsSupersetError` unless both are collections
/// or texts, then `TypeError` unless they are of one variant.
pub fn is_superset<'a>(extracted: &DataNode<'a>, literal: &DataNode<'a>) -> (r: FilsonResult<bool>)
    ensures
        r == is_superset_result(*extracted, *literal),
{
    if !(extracted.is_collection_type() || extracted.is_string_type()) || !(
    literal.is_collection_type() || literal.is_string_type()) {
        return Err(FilsonError::IsSupersetError);
    }
    if !extracted.is_same_variant(literal) {
        return Err(FilsonError::TypeError);
    }
    Ok(is_subset_logic(literal, extracted))
}

/// Whether `extracted` equals an element of the array or set `compound`, or
/// a key of the map `compound`. Values of different variants are simply
/// unequal.
pub fn is_contained<'a>(extracted: &DataNode<'a>, compound: &DataNode<'a>) -> (r: bool)
    requires
        spec_is_collection(*compound),
    ensures
        r == spec_is_contained(*extracted, *compound),
{
    match compound {
        DataNode::SetOf(s) => s.contains(extracted),
        DataNode::Array(v) => contains_equal(v, extracted),
        DataNode::Dict(m) => m.contains_key(extracted),
        _ => false,
    }
}

/// Two equal values compare equal under `==` and not unequal under `!=`.
pub proof fn law_compare_equal_values<'a>(a: DataNode<'a>, b: DataNode<'a>)
    requires
        equiv(a, b),
    ensures
        compare_result(a, Op::Eq, b) == Ok::<bool, FilsonError>(true),
        compare_result(a, Op::Ne, b) == Ok::<bool, FilsonError>(false),
{
    lemma_equiv_same_variant(a, b);
}

/// Values of different variants fail every comparison with `TypeError`.
pub proof fn law_compare_variant_mismatch<'a>(a: DataNode<'a>, op: Op, b: DataNode<'a>)
    requires
        !same_variant(a, b),
    ensures
        compare_result(a, op, b) == Err::<bool, FilsonError>(FilsonError::TypeError),
{
}

/// On two collections or texts of one variant, `is_superset(a, b)` is
/// `is_subset(b, a)`.
pub proof fn law_superset_is_converse_subset<'a>(a: DataNode<'a>, b: DataNode<'a>)
    requires
        collection_or_text(a),
        collection_or_text(b),
        same_variant(a, b),
    ensures
        is_superset_result(a, b) == is_subset_result(b, a),
{
}

/// An empty collection or text intersects, and is a subset of, every value
/// of its variant, the empty one included.
pub proof fn law_empty_left<'a>(e: DataNode<'a>, x: DataNode<'a>)
    requires
        collection_or_text(e),
        same_variant(e, x),
        node_len(e) == 0,
    ensures
        intersects_result(e, x) == Ok::<bool, FilsonError>(true),
        is_subset_result(e, x) == Ok::<bool, FilsonError>(true),
{
}

/// A non-empty collection or text neither intersects nor is a subset of an
/// empty value of its variant.
pub proof fn law_empty_right<'a>(x: DataNode<'a>, e: DataNode<'a>)
    requires
        collection_or_text(x),
        same_variant(x, e),
        node_len(x) > 0,
        node_len(e) == 0,
    ensures
        intersects_result(x, e) == Ok::<bool, FilsonError>(false),
        is_subset_result(x, e) == Ok::<bool, FilsonError>(false),
{
}

} // verus!
