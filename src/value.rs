//! The tagged value that stands for both literals of an expression and data
//! extracted from a record.
use vstd::prelude::*;
use vstd::string::StringSliceAdditionalSpecFns;

use crate::error::{FilsonError, FilsonResult};

verus! {

/// The sign bit of an IEEE-754 double.
pub const SIGN_BIT: u64 = 0x8000_0000_0000_0000;

/// The exponent bits of an IEEE-754 double.
pub const EXPONENT_BITS: u64 = 0x7ff0_0000_0000_0000;

/// The mantissa bits of an IEEE-754 double.
pub const MANTISSA_BITS: u64 = 0x000f_ffff_ffff_ffff;

/// Whether the bits of a double encode a NaN.
pub open spec fn is_nan_bits(bits: u64) -> bool {
    bits & EXPONENT_BITS == EXPONENT_BITS && bits & MANTISSA_BITS != 0
}

/// The place of a double, given by its bits, in the total order of floats:
/// every NaN maps to the largest key, `-0.0` maps to the key of `+0.0`,
/// negative numbers have their bits inverted and positive numbers get the
/// sign bit set, so that unsigned order of keys follows numeric order.
pub open spec fn float_order_key(bits: u64) -> u64 {
    if is_nan_bits(bits) {
        u64::MAX
    } else if bits == SIGN_BIT {
        SIGN_BIT
    } else if bits & SIGN_BIT != 0 {
        !bits
    } else {
        bits | SIGN_BIT
    }
}

/// A 64-bit float held by its key in the total order: NaNs are all equal to
/// each other and above every other float, and the two zeros are equal.
#[derive(Debug, Clone, Copy, PartialEq, Eq, Structural)]
pub struct OrderedF64 {
    key: u64,
}

impl OrderedF64 {
    pub closed spec fn spec_key(self) -> u64 {
        self.key
    }

    /// The float whose IEEE-754 bits are `bits`.
    pub fn from_bits(bits: u64) -> (r: OrderedF64)
        ensures
            r.spec_key() == float_order_key(bits),
    {
        let key: u64 = if bits & EXPONENT_BITS == EXPONENT_BITS && bits & MANTISSA_BITS != 0 {
            u64::MAX
        } else if bits == SIGN_BIT {
            SIGN_BIT
        } else if bits & SIGN_BIT != 0 {
            !bits
        } else {
            bits | SIGN_BIT
        };
        OrderedF64 { key }
    }

    /// The key of the float in the total order.
    pub fn key(&self) -> (r: u64)
        ensures
            r == self.spec_key(),
    {
        self.key
    }
}

/// A value: a literal of an expression or a piece of an extracted record.
/// Text borrows its characters from the expression or from the record.
#[derive(Debug)]
pub enum DataNode<'a> {
    Dict(ValueMap<'a>),
    SetOf(ValueSet<'a>),
    Array(Vec<DataNode<'a>>),
    I64(i64),
    F64(OrderedF64),
    Str(&'a str),
    Bool(bool),
    Null,
}

/// A set of values: no element equals an earlier one.
#[derive(Debug)]
pub struct ValueSet<'a> {
    items: Vec<DataNode<'a>>,
}

/// A map between values, held as keys and values at the same positions: no
/// key equals an earlier one.
#[derive(Debug)]
pub struct ValueMap<'a> {
    keys: Vec<DataNode<'a>>,
    vals: Vec<DataNode<'a>>,
}

impl<'a> ValueSet<'a> {
    /// No element equals an earlier one.
    #[verifier::type_invariant]
    spec fn well_formed(self) -> bool {
        forall|i: int, j: int|
            0 <= i < j < self.items@.len() ==> !equiv(#[trigger] self.items@[i], #[trigger] self.items@[j])
    }
}

impl<'a> View for ValueSet<'a> {
    type V = Seq<DataNode<'a>>;

    closed spec fn view(&self) -> Seq<DataNode<'a>> {
        self.items@
    }
}

impl<'a> ValueMap<'a> {
    /// Keys and values pair up, and no key equals an earlier one.
    #[verifier::type_invariant]
    spec fn well_formed(self) -> bool {
        &&& self.keys@.len() == self.vals@.len()
        &&& forall|i: int, j: int|
            0 <= i < j < self.keys@.len() ==> !equiv(#[trigger] self.keys@[i], #[trigger] self.keys@[j])
    }

    /// The keys, in order of insertion.
    pub closed spec fn spec_keys(self) -> Seq<DataNode<'a>> {
        self.keys@
    }

    /// The values, each at the position of its key.
    pub closed spec fn spec_vals(self) -> Seq<DataNode<'a>> {
        self.vals@
    }
}

/// Equality of values: the same variant and equal content. Sets are equal
/// when each element of one equals an element of the other; maps when each
/// entry of one has an entry of the other with an equal key and an equal
/// value; arrays element by element; text byte by byte.
pub closed spec fn equiv<'a>(a: DataNode<'a>, b: DataNode<'a>) -> bool
    decreases a, 0nat, 0nat,
{
    match a {
        DataNode::Dict(m1) => match b {
            DataNode::Dict(m2) => {
                &&& m1.spec_keys().len() == m1.spec_vals().len()
                &&& m2.spec_keys().len() == m2.spec_vals().len()
                &&& entries_within(m1, m2, m1.spec_keys().len())
                &&& entries_cover(m1, m2, m2.spec_keys().len())
            },
            _ => false,
        },
        DataNode::SetOf(s1) => match b {
            DataNode::SetOf(s2) => {
                &&& seq_within(s1.items@, s2.items@, s1.items@.len())
                &&& seq_covers(s1.items@, s2.items@, s2.items@.len())
            },
            _ => false,
        },
        DataNode::Array(v1) => match b {
            DataNode::Array(v2) => v1@.len() == v2@.len() && arrays_agree(v1@, v2@, v1@.len()),
            _ => false,
        },
        DataNode::I64(x) => b matches DataNode::I64(y) && x == y,
        DataNode::F64(x) => b matches DataNode::F64(y) && x == y,
        DataNode::Str(x) => b matches DataNode::Str(y) && x.spec_bytes() == y.spec_bytes(),
        DataNode::Bool(x) => b matches DataNode::Bool(y) && x == y,
        DataNode::Null => b is Null,
    }
}

/// Some element among the first `m` of `s` equals `x`.
pub open spec fn in_prefix<'a>(x: DataNode<'a>, s: Seq<DataNode<'a>>, m: nat) -> bool
    decreases x, 1nat, m,
{
    if m == 0 || m > s.len() {
        false
    } else {
        in_prefix(x, s, (m - 1) as nat) || equiv(x, s[m - 1])
    }
}

/// `y` equals some element among the first `m` of `s`.
pub open spec fn equals_in_prefix<'a>(s: Seq<DataNode<'a>>, y: DataNode<'a>, m: nat) -> bool
    decreases s, 1nat, m,
{
    if m == 0 || m > s.len() {
        false
    } else {
        equals_in_prefix(s, y, (m - 1) as nat) || equiv(s[m - 1], y)
    }
}

/// Each of the first `n` elements of `s1` equals some element of `s2`.
pub open spec fn seq_within<'a>(s1: Seq<DataNode<'a>>, s2: Seq<DataNode<'a>>, n: nat) -> bool
    decreases s1, 2nat, n,
{
    if n == 0 || n > s1.len() {
        n == 0
    } else {
        seq_within(s1, s2, (n - 1) as nat) && in_prefix(s1[n - 1], s2, s2.len())
    }
}

/// Each of the first `n` elements of `s2` equals some element of `s1`.
pub open spec fn seq_covers<'a>(s1: Seq<DataNode<'a>>, s2: Seq<DataNode<'a>>, n: nat) -> bool
    decreases s1, 2nat, n,
{
    if n == 0 || n > s2.len() {
        n == 0
    } else {
        seq_covers(s1, s2, (n - 1) as nat) && equals_in_prefix(s1, s2[n - 1], s1.len())
    }
}

/// The first `n` elements of `v1` equal those of `v2`, position by position.
pub open spec fn arrays_agree<'a>(v1: Seq<DataNode<'a>>, v2: Seq<DataNode<'a>>, n: nat) -> bool
    decreases v1, 1nat, n,
{
    if n == 0 || n > v1.len() || n > v2.len() {
        n == 0
    } else {
        arrays_agree(v1, v2, (n - 1) as nat) && equiv(v1[n - 1], v2[n - 1])
    }
}

/// Among the first `m` entries of `m2`, one has a key equal to the key at
/// position `i` of `m1` and a value equal to its value.
pub closed spec fn entry_in_prefix<'a>(m1: ValueMap<'a>, i: int, m2: ValueMap<'a>, m: nat) -> bool
    decreases m1, 1nat, m,
{
    if m == 0 || m > m2.spec_keys().len() || m > m2.spec_vals().len() || !(0 <= i < m1.spec_keys().len())
        || i >= m1.spec_vals().len() {
        false
    } else {
        entry_in_prefix(m1, i, m2, (m - 1) as nat) || (equiv(m1.spec_keys()[i], m2.spec_keys()[m - 1])
            && equiv(m1.spec_vals()[i], m2.spec_vals()[m - 1]))
    }
}

/// Among the first `m` entries of `m1`, one has a key equal to `k` and a
/// value equal to `v`.
pub closed spec fn entry_matched_in_prefix<'a>(
    m1: ValueMap<'a>,
    k: DataNode<'a>,
    v: DataNode<'a>,
    m: nat,
) -> bool
    decreases m1, 1nat, m,
{
    if m == 0 || m > m1.spec_keys().len() || m > m1.spec_vals().len() {
        false
    } else {
        entry_matched_in_prefix(m1, k, v, (m - 1) as nat) || (equiv(m1.spec_keys()[m - 1], k) && equiv(
            m1.spec_vals()[m - 1],
            v,
        ))
    }
}

/// Each of the first `n` entries of `m1` is matched by an entry of `m2`.
pub closed spec fn entries_within<'a>(m1: ValueMap<'a>, m2: ValueMap<'a>, n: nat) -> bool
    decreases m1, 2nat, n,
{
    if n == 0 || n > m1.spec_keys().len() {
        n == 0
    } else {
        entries_within(m1, m2, (n - 1) as nat) && entry_in_prefix(m1, n - 1, m2, m2.spec_keys().len())
    }
}

/// Each of the first `n` entries of `m2` is matched by an entry of `m1`.
pub closed spec fn entries_cover<'a>(m1: ValueMap<'a>, m2: ValueMap<'a>, n: nat) -> bool
    decreases m1, 2nat, n,
{
    if n == 0 || n > m2.spec_keys().len() || n > m2.spec_vals().len() {
        n == 0
    } else {
        entries_cover(m1, m2, (n - 1) as nat) && entry_matched_in_prefix(
            m1,
            m2.spec_keys()[n - 1],
            m2.spec_vals()[n - 1],
            m1.spec_keys().len(),
        )
    }
}

/// Whether two byte strings are equal.
pub fn bytes_equal(x: &[u8], y: &[u8]) -> (r: bool)
    ensures
        r == (x@ == y@),
{
    if x.len() != y.len() {
        return false;
    }
    let mut i: usize = 0;
    while i < x.len()
        invariant
            x@.len() == y@.len(),
            i <= x@.len(),
            forall|k: int| 0 <= k < i ==> x@[k] == y@[k],
        decreases x@.len() - i,
    {
        if x[i] != y[i] {
            return false;
        }
        i += 1;
    }
    assert(x@ =~= y@);
    true
}

/// Whether two values are equal: the same variant and equal content.
pub fn values_equal<'a>(a: &DataNode<'a>, b: &DataNode<'a>) -> (r: bool)
    ensures
        r == equiv(*a, *b),
    decreases a, 0nat, 0nat,
{
    match a {
        DataNode::Dict(m1) => match b {
            DataNode::Dict(m2) => {
                proof {
                    use_type_invariant(m1);
                    use_type_invariant(m2);
                }
                let r = all_entries_in(m1, m2) && all_entries_matched(m1, m2);
                r
            },
            _ => false,
        },
        DataNode::SetOf(s1) => match b {
            DataNode::SetOf(s2) => {
                let r = all_in(&s1.items, &s2.items) && all_matched(&s1.items, &s2.items);
                r
            },
            _ => false,
        },
        DataNode::Array(v1) => match b {
            DataNode::Array(v2) => {
                let r = v1.len() == v2.len() && arrays_equal(v1, v2);
                r
            },
            _ => false,
        },
        DataNode::I64(x) => match b {
            DataNode::I64(y) => *x == *y,
            _ => false,
        },
        DataNode::F64(x) => match b {
            DataNode::F64(y) => x.key == y.key,
            _ => false,
        },
        DataNode::Str(x) => match b {
            DataNode::Str(y) => bytes_equal(x.as_bytes(), y.as_bytes()),
            _ => false,
        },
        DataNode::Bool(x) => match b {
            DataNode::Bool(y) => *x == *y,
            _ => false,
        },
        DataNode::Null => match b {
            DataNode::Null => true,
            _ => false,
        },
    }
}

/// Whether two arrays of one length are equal position by position.
fn arrays_equal<'a>(v1: &Vec<DataNode<'a>>, v2: &Vec<DataNode<'a>>) -> (r: bool)
    requires
        v1@.len() == v2@.len(),
    ensures
        r == arrays_agree(v1@, v2@, v1@.len()),
    decreases v1@, 1nat, v1@.len(),
{
    let mut i: usize = 0;
    while i < v1.len()
        invariant
            v1@.len() == v2@.len(),
            i <= v1@.len(),
            arrays_agree(v1@, v2@, i as nat),
        decreases v1@.len() - i,
    {
        if !values_equal(&v1[i], &v2[i]) {
            assert(!arrays_agree(v1@, v2@, (i + 1) as nat));
            proof {
                lemma_arrays_agree_prefix(v1@, v2@, (i + 1) as nat, v1@.len());
            }
            return false;
        }
        i += 1;
    }
    true
}

/// Whether some element of `s` equals `x`.
fn has_equal<'a>(x: &DataNode<'a>, s: &Vec<DataNode<'a>>) -> (r: bool)
    ensures
        r == in_prefix(*x, s@, s@.len()),
    decreases x, 1nat, s@.len(),
{
    let mut j: usize = 0;
    while j < s.len()
        invariant
            j <= s@.len(),
            !in_prefix(*x, s@, j as nat),
        decreases s@.len() - j,
    {
        if values_equal(x, &s[j]) {
            proof {
                lemma_in_prefix_grows(*x, s@, (j + 1) as nat, s@.len());
            }
            return true;
        }
        j += 1;
    }
    false
}

/// Whether `y` equals some element of `s`.
fn equal_to_some<'a>(s: &Vec<DataNode<'a>>, y: &DataNode<'a>) -> (r: bool)
    ensures
        r == equals_in_prefix(s@, *y, s@.len()),
    decreases s@, 1nat, s@.len(),
{
    let mut i: usize = 0;
    while i < s.len()
        invariant
            i <= s@.len(),
            !equals_in_prefix(s@, *y, i as nat),
        decreases s@.len() - i,
    {
        if values_equal(&s[i], y) {
            proof {
                lemma_equals_in_prefix_grows(s@, *y, (i + 1) as nat, s@.len());
            }
            return true;
        }
        i += 1;
    }
    false
}

/// Whether each element of `s1` equals some element of `s2`.
fn all_in<'a>(s1: &Vec<DataNode<'a>>, s2: &Vec<DataNode<'a>>) -> (r: bool)
    ensures
        r == seq_within(s1@, s2@, s1@.len()),
    decreases s1@, 2nat, s1@.len(),
{
    let mut i: usize = 0;
    while i < s1.len()
        invariant
            i <= s1@.len(),
            seq_within(s1@, s2@, i as nat),
        decreases s1@.len() - i,
    {
        if !has_equal(&s1[i], s2) {
            proof {
                lemma_seq_within_prefix(s1@, s2@, (i + 1) as nat, s1@.len());
            }
            return false;
        }
        i += 1;
    }
    true
}

/// Whether each element of `s2` equals some element of `s1`.
fn all_matched<'a>(s1: &Vec<DataNode<'a>>, s2: &Vec<DataNode<'a>>) -> (r: bool)
    ensures
        r == seq_covers(s1@, s2@, s2@.len()),
    decreases s1@, 2nat, s2@.len(),
{
    let mut j: usize = 0;
    while j < s2.len()
        invariant
            j <= s2@.len(),
            seq_covers(s1@, s2@, j as nat),
        decreases s2@.len() - j,
    {
        if !equal_to_some(s1, &s2[j]) {
            proof {
                lemma_seq_covers_prefix(s1@, s2@, (j + 1) as nat, s2@.len());
            }
            return false;
        }
        j += 1;
    }
    true
}

/// Whether some entry of `m2` has a key equal to the key at position `i` of
/// `m1` and a value equal to its value.
fn has_entry<'a>(m1: &ValueMap<'a>, i: usize, m2: &ValueMap<'a>) -> (r: bool)
    requires
        i < m1.spec_keys().len(),
    ensures
        r == entry_in_prefix(*m1, i as int, *m2, m2.spec_keys().len()),
    decreases *m1, 1nat, m2.spec_keys().len(),
{
    proof {
        use_type_invariant(m1);
        use_type_invariant(m2);
    }
    let mut j: usize = 0;
    while j < m2.keys.len()
        invariant
            m1.spec_keys().len() == m1.spec_vals().len(),
            m2.spec_keys().len() == m2.spec_vals().len(),
            i < m1.spec_keys().len(),
            j <= m2.spec_keys().len(),
            !entry_in_prefix(*m1, i as int, *m2, j as nat),
        decreases m2.spec_keys().len() - j,
    {
        if values_equal(&m1.keys[i], &m2.keys[j]) && values_equal(&m1.vals[i], &m2.vals[j]) {
            proof {
                lemma_entry_in_prefix_grows(*m1, i as int, *m2, (j + 1) as nat, m2.spec_keys().len());
            }
            return true;
        }
        j += 1;
    }
    false
}

/// Whether some entry of `m1` has a key equal to the key at position `j` of
/// `m2` and a value equal to its value.
fn entry_matched_by<'a>(m1: &ValueMap<'a>, m2: &ValueMap<'a>, j: usize) -> (r: bool)
    requires
        j < m2.spec_keys().len(),
        m2.spec_keys().len() == m2.spec_vals().len(),
    ensures
        r == entry_matched_in_prefix(*m1, m2.spec_keys()[j as int], m2.spec_vals()[j as int], m1.spec_keys().len()),
    decreases *m1, 1nat, m1.spec_keys().len(),
{
    proof {
        use_type_invariant(m1);
    }
    let mut i: usize = 0;
    while i < m1.keys.len()
        invariant
            m1.spec_keys().len() == m1.spec_vals().len(),
            m2.spec_keys().len() == m2.spec_vals().len(),
            j < m2.spec_keys().len(),
            i <= m1.spec_keys().len(),
            !entry_matched_in_prefix(*m1, m2.spec_keys()[j as int], m2.spec_vals()[j as int], i as nat),
        decreases m1.spec_keys().len() - i,
    {
        if values_equal(&m1.keys[i], &m2.keys[j]) && values_equal(&m1.vals[i], &m2.vals[j]) {
            proof {
                lemma_entry_matched_grows(
                    *m1,
                    m2.spec_keys()[j as int],
                    m2.spec_vals()[j as int],
                    (i + 1) as nat,
                    m1.spec_keys().len(),
                );
            }
            return true;
        }
        i += 1;
    }
    false
}

/// Whether each entry of `m1` is matched by an entry of `m2`.
fn all_entries_in<'a>(m1: &ValueMap<'a>, m2: &ValueMap<'a>) -> (r: bool)
    ensures
        r == entries_within(*m1, *m2, m1.spec_keys().len()),
    decreases *m1, 2nat, m1.spec_keys().len(),
{
    let mut i: usize = 0;
    while i < m1.keys.len()
        invariant
            i <= m1.spec_keys().len(),
            entries_within(*m1, *m2, i as nat),
        decreases m1.spec_keys().len() - i,
    {
        if !has_entry(m1, i, m2) {
            proof {
                lemma_entries_within_prefix(*m1, *m2, (i + 1) as nat, m1.spec_keys().len());
            }
            return false;
        }
        i += 1;
    }
    true
}

/// Whether each entry of `m2` is matched by an entry of `m1`.
fn all_entries_matched<'a>(m1: &ValueMap<'a>, m2: &ValueMap<'a>) -> (r: bool)
    ensures
        r == entries_cover(*m1, *m2, m2.spec_keys().len()),
    decreases *m1, 2nat, m2.spec_keys().len(),
{
    proof {
        use_type_invariant(m2);
    }
    let mut j: usize = 0;
    while j < m2.keys.len()
        invariant
            m2.spec_keys().len() == m2.spec_vals().len(),
            j <= m2.spec_keys().len(),
            entries_cover(*m1, *m2, j as nat),
        decreases m2.spec_keys().len() - j,
    {
        if !entry_matched_by(m1, m2, j) {
            proof {
                lemma_entries_cover_prefix(*m1, *m2, (j + 1) as nat, m2.spec_keys().len());
            }
            return false;
        }
        j += 1;
    }
    true
}

/// Once some element of a prefix equals `x`, so does one of every longer prefix.
proof fn lemma_in_prefix_grows<'a>(x: DataNode<'a>, s: Seq<DataNode<'a>>, m: nat, n: nat)
    requires
        in_prefix(x, s, m),
        m <= n <= s.len(),
    ensures
        in_prefix(x, s, n),
    decreases n - m,
{
    if m < n {
        lemma_in_prefix_grows(x, s, m, (n - 1) as nat);
    }
}

/// Once `y` equals an element of a prefix, it equals one of every longer prefix.
proof fn lemma_equals_in_prefix_grows<'a>(s: Seq<DataNode<'a>>, y: DataNode<'a>, m: nat, n: nat)
    requires
        equals_in_prefix(s, y, m),
        m <= n <= s.len(),
    ensures
        equals_in_prefix(s, y, n),
    decreases n - m,
{
    if m < n {
        lemma_equals_in_prefix_grows(s, y, m, (n - 1) as nat);
    }
}

proof fn lemma_entry_in_prefix_grows<'a>(m1: ValueMap<'a>, i: int, m2: ValueMap<'a>, m: nat, n: nat)
    requires
        entry_in_prefix(m1, i, m2, m),
        m <= n <= m2.spec_keys().len(),
        m2.spec_keys().len() == m2.spec_vals().len(),
    ensures
        entry_in_prefix(m1, i, m2, n),
    decreases n - m,
{
    if m < n {
        lemma_entry_in_prefix_grows(m1, i, m2, m, (n - 1) as nat);
    }
}

proof fn lemma_entry_matched_grows<'a>(m1: ValueMap<'a>, k: DataNode<'a>, v: DataNode<'a>, m: nat, n: nat)
    requires
        entry_matched_in_prefix(m1, k, v, m),
        m <= n <= m1.spec_keys().len(),
        m1.spec_keys().len() == m1.spec_vals().len(),
    ensures
        entry_matched_in_prefix(m1, k, v, n),
    decreases n - m,
{
    if m < n {
        lemma_entry_matched_grows(m1, k, v, m, (n - 1) as nat);
    }
}

/// Once a prefix fails to agree, every longer prefix fails too.
proof fn lemma_arrays_agree_prefix<'a>(v1: Seq<DataNode<'a>>, v2: Seq<DataNode<'a>>, m: nat, n: nat)
    requires
        !arrays_agree(v1, v2, m),
        m <= n <= v1.len(),
        v1.len() == v2.len(),
    ensures
        !arrays_agree(v1, v2, n),
    decreases n - m,
{
    if m < n {
        lemma_arrays_agree_prefix(v1, v2, m, (n - 1) as nat);
    }
}

proof fn lemma_seq_within_prefix<'a>(s1: Seq<DataNode<'a>>, s2: Seq<DataNode<'a>>, m: nat, n: nat)
    requires
        !seq_within(s1, s2, m),
        m <= n <= s1.len(),
    ensures
        !seq_within(s1, s2, n),
    decreases n - m,
{
    if m < n {
        lemma_seq_within_prefix(s1, s2, m, (n - 1) as nat);
    }
}

proof fn lemma_seq_covers_prefix<'a>(s1: Seq<DataNode<'a>>, s2: Seq<DataNode<'a>>, m: nat, n: nat)
    requires
        !seq_covers(s1, s2, m),
        m <= n <= s2.len(),
    ensures
        !seq_covers(s1, s2, n),
    decreases n - m,
{
    if m < n {
        lemma_seq_covers_prefix(s1, s2, m, (n - 1) as nat);
    }
}

proof fn lemma_entries_within_prefix<'a>(m1: ValueMap<'a>, m2: ValueMap<'a>, m: nat, n: nat)
    requires
        !entries_within(m1, m2, m),
        m <= n <= m1.spec_keys().len(),
    ensures
        !entries_within(m1, m2, n),
    decreases n - m,
{
    if m < n {
        lemma_entries_within_prefix(m1, m2, m, (n - 1) as nat);
    }
}

proof fn lemma_entries_cover_prefix<'a>(m1: ValueMap<'a>, m2: ValueMap<'a>, m: nat, n: nat)
    requires
        !entries_cover(m1, m2, m),
        m <= n <= m2.spec_keys().len(),
        m2.spec_keys().len() == m2.spec_vals().len(),
    ensures
        !entries_cover(m1, m2, n),
    decreases n - m,
{
    if m < n {
        lemma_entries_cover_prefix(m1, m2, m, (n - 1) as nat);
    }
}

/// Some element of `s` equals `x`.
pub open spec fn in_seq<'a>(x: DataNode<'a>, s: Seq<DataNode<'a>>) -> bool {
    exists|j: int| 0 <= j < s.len() && equiv(x, #[trigger] s[j])
}

/// Some element of `l` equals some element of `r`.
pub open spec fn seq_meets<'a>(l: Seq<DataNode<'a>>, r: Seq<DataNode<'a>>) -> bool {
    exists|i: int| 0 <= i < l.len() && in_seq(#[trigger] l[i], r)
}

/// Each element of `l` equals some element of `r`.
pub open spec fn seq_included<'a>(l: Seq<DataNode<'a>>, r: Seq<DataNode<'a>>) -> bool {
    forall|i: int| 0 <= i < l.len() ==> in_seq(#[trigger] l[i], r)
}

/// The entry at position `i` of `m1` has a key equal to some key of `m2`,
/// and its value equals the value under that key.
pub open spec fn entry_in_map<'a>(m1: ValueMap<'a>, i: int, m2: ValueMap<'a>) -> bool {
    exists|j: int|
        0 <= j < m2.spec_keys().len() && equiv(m1.spec_keys()[i], #[trigger] m2.spec_keys()[j])
            && equiv(m1.spec_vals()[i], m2.spec_vals()[j])
}

/// Some key is in both maps, with equal values.
pub open spec fn maps_meet<'a>(m1: ValueMap<'a>, m2: ValueMap<'a>) -> bool {
    exists|i: int| 0 <= i < m1.spec_keys().len() && #[trigger] entry_in_map(m1, i, m2)
}

/// Every key of `m1` is in `m2`, with an equal value.
pub open spec fn map_included<'a>(m1: ValueMap<'a>, m2: ValueMap<'a>) -> bool {
    forall|i: int| 0 <= i < m1.spec_keys().len() ==> #[trigger] entry_in_map(m1, i, m2)
}

/// Some key of `m` equals `x`.
pub open spec fn key_in<'a>(x: DataNode<'a>, m: ValueMap<'a>) -> bool {
    in_seq(x, m.spec_keys())
}

proof fn lemma_in_prefix_exists<'a>(x: DataNode<'a>, s: Seq<DataNode<'a>>, n: nat)
    requires
        n <= s.len(),
    ensures
        in_prefix(x, s, n) <==> exists|j: int| 0 <= j < n && equiv(x, #[trigger] s[j]),
    decreases n,
{
    if n > 0 {
        lemma_in_prefix_exists(x, s, (n - 1) as nat);
    }
}

proof fn lemma_equals_in_prefix_exists<'a>(s: Seq<DataNode<'a>>, y: DataNode<'a>, n: nat)
    requires
        n <= s.len(),
    ensures
        equals_in_prefix(s, y, n) <==> exists|i: int| 0 <= i < n && equiv(#[trigger] s[i], y),
    decreases n,
{
    if n > 0 {
        lemma_equals_in_prefix_exists(s, y, (n - 1) as nat);
    }
}

proof fn lemma_entry_in_prefix_exists<'a>(m1: ValueMap<'a>, i: int, m2: ValueMap<'a>, n: nat)
    requires
        n <= m2.spec_keys().len(),
        m2.spec_keys().len() == m2.spec_vals().len(),
        0 <= i < m1.spec_keys().len(),
        m1.spec_keys().len() == m1.spec_vals().len(),
    ensures
        entry_in_prefix(m1, i, m2, n) <==> exists|j: int|
            0 <= j < n && equiv(m1.spec_keys()[i], #[trigger] m2.spec_keys()[j]) && equiv(m1.spec_vals()[i], m2.spec_vals()[j]),
    decreases n,
{
    if n > 0 {
        lemma_entry_in_prefix_exists(m1, i, m2, (n - 1) as nat);
    }
}

proof fn lemma_entries_within_forall<'a>(m1: ValueMap<'a>, m2: ValueMap<'a>, n: nat)
    requires
        n <= m1.spec_keys().len(),
    ensures
        entries_within(m1, m2, n) <==> forall|i: int|
            0 <= i < n ==> #[trigger] entry_in_prefix(m1, i, m2, m2.spec_keys().len()),
    decreases n,
{
    if n > 0 {
        lemma_entries_within_forall(m1, m2, (n - 1) as nat);
        if entries_within(m1, m2, n) {
            assert forall|i: int| 0 <= i < n implies #[trigger] entry_in_prefix(m1, i, m2, m2.spec_keys().len()) by {
                if i < n - 1 {
                } else {
                    assert(i == n - 1);
                }
            }
        }
        if forall|i: int| 0 <= i < n ==> #[trigger] entry_in_prefix(m1, i, m2, m2.spec_keys().len()) {
            assert(entry_in_prefix(m1, n - 1, m2, m2.spec_keys().len()));
            assert(entries_within(m1, m2, (n - 1) as nat));
        }
    }
}

/// Whether some element of `s` equals `x`.
pub fn contains_equal<'a>(s: &Vec<DataNode<'a>>, x: &DataNode<'a>) -> (r: bool)
    ensures
        r == in_seq(*x, s@),
{
    let r = has_equal(x, s);
    proof {
        lemma_in_prefix_exists(*x, s@, s@.len());
    }
    r
}

/// Whether some element of `l` equals some element of `r`.
pub fn seq_meets_exec<'a>(l: &Vec<DataNode<'a>>, r: &Vec<DataNode<'a>>) -> (b: bool)
    ensures
        b == seq_meets(l@, r@),
{
    let mut i: usize = 0;
    while i < l.len()
        invariant
            i <= l@.len(),
            forall|k: int| 0 <= k < i ==> !in_seq(#[trigger] l@[k], r@),
        decreases l@.len() - i,
    {
        if contains_equal(r, &l[i]) {
            return true;
        }
        i += 1;
    }
    false
}

/// Whether each element of `l` equals some element of `r`.
pub fn seq_included_exec<'a>(l: &Vec<DataNode<'a>>, r: &Vec<DataNode<'a>>) -> (b: bool)
    ensures
        b == seq_included(l@, r@),
{
    let mut i: usize = 0;
    while i < l.len()
        invariant
            i <= l@.len(),
            forall|k: int| 0 <= k < i ==> in_seq(#[trigger] l@[k], r@),
        decreases l@.len() - i,
    {
        if !contains_equal(r, &l[i]) {
            return false;
        }
        i += 1;
    }
    true
}

impl<'a> ValueSet<'a> {
    /// The empty set.
    pub fn new() -> (r: ValueSet<'a>)
        ensures
            r@ == Seq::<DataNode<'a>>::empty(),
    {
        ValueSet { items: Vec::new() }
    }

    /// Adds `v` unless an equal element is present; says whether it was added.
    pub fn insert(&mut self, v: DataNode<'a>) -> (added: bool)
        ensures
            added == !(exists|i: int| 0 <= i < old(self)@.len() && equiv(#[trigger] old(self)@[i], v)),
            added ==> final(self)@ == old(self)@.push(v),
            !added ==> final(self)@ == old(self)@,
    {
        proof {
            use_type_invariant(&*self);
        }
        let present = equal_to_some(&self.items, &v);
        proof {
            lemma_equals_in_prefix_exists(self.items@, v, self.items@.len());
            assert(self@ =~= self.items@);
        }
        if present {
            false
        } else {
            let mut taken = ValueSet::new();
            core::mem::swap(self, &mut taken);
            let ValueSet { mut items } = taken;
            items.push(v);
            *self = ValueSet { items };
            true
        }
    }

    /// The number of elements.
    pub fn len(&self) -> (r: usize)
        ensures
            r == self@.len(),
    {
        self.items.len()
    }

    /// The elements, in order of insertion.
    pub fn items(&self) -> (r: &Vec<DataNode<'a>>)
        ensures
            r@ == self@,
    {
        &self.items
    }

    /// Whether some element equals `x`.
    pub fn contains(&self, x: &DataNode<'a>) -> (r: bool)
        ensures
            r == in_seq(*x, self@),
    {
        contains_equal(&self.items, x)
    }
}

impl<'a> ValueMap<'a> {
    /// The empty map.
    pub fn new() -> (r: ValueMap<'a>)
        ensures
            r.spec_keys() == Seq::<DataNode<'a>>::empty(),
            r.spec_vals() == Seq::<DataNode<'a>>::empty(),
    {
        ValueMap { keys: Vec::new(), vals: Vec::new() }
    }

    /// Puts `v` under `k`. Where a key equal to `k` is present, its value is
    /// replaced and the key kept; otherwise the entry is appended.
    pub fn insert(&mut self, k: DataNode<'a>, v: DataNode<'a>)
        ensures
            (exists|i: int| 0 <= i < old(self).spec_keys().len() && equiv(#[trigger] old(self).spec_keys()[i], k))
                ==> exists|i: int|
                0 <= i < old(self).spec_keys().len() && equiv(#[trigger] old(self).spec_keys()[i], k)
                    && final(self).spec_keys() == old(self).spec_keys()
                    && final(self).spec_vals() == old(self).spec_vals().update(i, v),
            !(exists|i: int| 0 <= i < old(self).spec_keys().len() && equiv(#[trigger] old(self).spec_keys()[i], k))
                ==> final(self).spec_keys() == old(self).spec_keys().push(k)
                    && final(self).spec_vals() == old(self).spec_vals().push(v),
    {
        proof {
            use_type_invariant(&*self);
        }
        let mut taken = ValueMap::new();
        core::mem::swap(self, &mut taken);
        let ValueMap { mut keys, mut vals } = taken;
        let mut i: usize = 0;
        while i < keys.len()
            invariant
                keys@ == old(self).spec_keys(),
                vals@ == old(self).spec_vals(),
                keys@.len() == vals@.len(),
                forall|x: int, y: int|
                    0 <= x < y < keys@.len() ==> !equiv(#[trigger] keys@[x], #[trigger] keys@[y]),
                i <= keys@.len(),
                forall|x: int| 0 <= x < i ==> !equiv(#[trigger] keys@[x], k),
            decreases keys@.len() - i,
        {
            if values_equal(&keys[i], &k) {
                let _replaced = vals.remove(i);
                vals.insert(i, v);
                proof {
                    assert(vals@ =~= old(self).spec_vals().update(i as int, v));
                }
                *self = ValueMap { keys, vals };
                return;
            }
            i += 1;
        }
        keys.push(k);
        vals.push(v);
        *self = ValueMap { keys, vals };
    }

    /// The number of entries.
    pub fn len(&self) -> (r: usize)
        ensures
            r == self.spec_keys().len(),
    {
        self.keys.len()
    }

    /// The keys, in order of insertion.
    pub fn keys(&self) -> (r: &Vec<DataNode<'a>>)
        ensures
            r@ == self.spec_keys(),
    {
        &self.keys
    }

    /// The values, each at the position of its key.
    pub fn values(&self) -> (r: &Vec<DataNode<'a>>)
        ensures
            r@ == self.spec_vals(),
            r@.len() == self.spec_keys().len(),
    {
        proof {
            use_type_invariant(self);
        }
        &self.vals
    }

    /// Whether some key equals `x`.
    pub fn contains_key(&self, x: &DataNode<'a>) -> (r: bool)
        ensures
            r == key_in(*x, *self),
    {
        contains_equal(&self.keys, x)
    }

    /// Whether some key is in both maps with equal values.
    pub fn meets(&self, other: &ValueMap<'a>) -> (r: bool)
        ensures
            r == maps_meet(*self, *other),
    {
        proof {
            use_type_invariant(self);
            use_type_invariant(other);
        }
        let mut i: usize = 0;
        while i < self.keys.len()
            invariant
                self.spec_keys().len() == self.spec_vals().len(),
                other.spec_keys().len() == other.spec_vals().len(),
                i <= self.spec_keys().len(),
                forall|x: int| 0 <= x < i ==> !#[trigger] entry_in_map(*self, x, *other),
            decreases self.spec_keys().len() - i,
        {
            let found = has_entry(self, i, other);
            proof {
                lemma_entry_in_prefix_exists(*self, i as int, *other, other.spec_keys().len());
            }
            if found {
                assert(entry_in_map(*self, i as int, *other));
                return true;
            }
            assert(!entry_in_map(*self, i as int, *other));
            i += 1;
        }
        false
    }

    /// Whether every key is in `other` with an equal value.
    pub fn included_in(&self, other: &ValueMap<'a>) -> (r: bool)
        ensures
            r == map_included(*self, *other),
    {
        proof {
            use_type_invariant(self);
            use_type_invariant(other);
        }
        let r = all_entries_in(self, other);
        proof {
            lemma_entries_within_forall(*self, *other, self.spec_keys().len());
            if r {
                assert forall|i: int| 0 <= i < self.spec_keys().len() implies #[trigger] entry_in_map(
                    *self,
                    i,
                    *other,
                ) by {
                    lemma_entry_in_prefix_exists(*self, i, *other, other.spec_keys().len());
                    assert(entry_in_prefix(*self, i, *other, other.spec_keys().len()));
                }
            } else {
                let i = choose|i: int|
                    0 <= i < self.spec_keys().len() && !#[trigger] entry_in_prefix(
                        *self,
                        i,
                        *other,
                        other.spec_keys().len(),
                    );
                lemma_entry_in_prefix_exists(*self, i, *other, other.spec_keys().len());
                assert(!entry_in_map(*self, i, *other));
            }
        }
        r
    }
}

/// Position of the variant in the fixed precedence Map < Set < Sequence <
/// Integer < Float < Text < Boolean < Null.
pub open spec fn variant_rank<'a>(a: DataNode<'a>) -> int {
    match a {
        DataNode::Dict(_) => 0,
        DataNode::SetOf(_) => 1,
        DataNode::Array(_) => 2,
        DataNode::I64(_) => 3,
        DataNode::F64(_) => 4,
        DataNode::Str(_) => 5,
        DataNode::Bool(_) => 6,
        DataNode::Null => 7,
    }
}

/// Both values are of one variant.
pub open spec fn same_variant<'a>(a: DataNode<'a>, b: DataNode<'a>) -> bool {
    variant_rank(a) == variant_rank(b)
}

/// The value is a map, a set or an array.
pub open spec fn spec_is_collection<'a>(a: DataNode<'a>) -> bool {
    a is Dict || a is SetOf || a is Array
}

/// Equal values are of one variant.
pub proof fn lemma_equiv_same_variant<'a>(a: DataNode<'a>, b: DataNode<'a>)
    requires
        equiv(a, b),
    ensures
        same_variant(a, b),
{
}

/// Equality of scalars is equality of content within one variant: text by
/// bytes, floats by their key, and no integer equals a float.
pub proof fn law_scalar_equality<'a>(a: DataNode<'a>, b: DataNode<'a>)
    requires
        !spec_is_collection(a),
    ensures
        equiv(a, b) == match (a, b) {
            (DataNode::I64(x), DataNode::I64(y)) => x == y,
            (DataNode::F64(x), DataNode::F64(y)) => x.spec_key() == y.spec_key(),
            (DataNode::Str(x), DataNode::Str(y)) => x.spec_bytes() == y.spec_bytes(),
            (DataNode::Bool(x), DataNode::Bool(y)) => x == y,
            (DataNode::Null, DataNode::Null) => true,
            _ => false,
        },
{
}

impl<'a> DataNode<'a> {
    /// Whether the value is a map, a set or an array.
    pub fn is_collection_type(&self) -> (r: bool)
        ensures
            r == spec_is_collection(*self),
    {
        match self {
            DataNode::Dict(_) | DataNode::SetOf(_) | DataNode::Array(_) => true,
            _ => false,
        }
    }

    /// Whether the value is text.
    pub fn is_string_type(&self) -> (r: bool)
        ensures
            r == (*self is Str),
    {
        match self {
            DataNode::Str(_) => true,
            _ => false,
        }
    }

    /// Whether both values are of one variant.
    pub fn is_same_variant(&self, other: &DataNode<'a>) -> (r: bool)
        ensures
            r == same_variant(*self, *other),
    {
        match (self, other) {
            (DataNode::Dict(_), DataNode::Dict(_)) => true,
            (DataNode::SetOf(_), DataNode::SetOf(_)) => true,
            (DataNode::Array(_), DataNode::Array(_)) => true,
            (DataNode::I64(_), DataNode::I64(_)) => true,
            (DataNode::F64(_), DataNode::F64(_)) => true,
            (DataNode::Str(_), DataNode::Str(_)) => true,
            (DataNode::Bool(_), DataNode::Bool(_)) => true,
            (DataNode::Null, DataNode::Null) => true,
            _ => false,
        }
    }

    /// Fails with `TypeError` when the two values are of different variants.
    pub fn error_on_type_mismatch(&self, other: &DataNode<'a>) -> (r: FilsonResult<()>)
        ensures
            r == (if same_variant(*self, *other) {
                Ok::<(), FilsonError>(())
            } else {
                Err(FilsonError::TypeError)
            }),
    {
        if self.is_same_variant(other) {
            Ok(())
        } else {
            Err(FilsonError::TypeError)
        }
    }

    /// Null where `v` is absent, else the value it holds.
    pub fn from_option(v: Option<DataNode<'a>>) -> (r: DataNode<'a>)
        ensures
            r == (match v {
                Some(x) => x,
                None => DataNode::Null,
            }),
    {
        match v {
            Some(x) => x,
            None => DataNode::Null,
        }
    }

    /// The float with the IEEE-754 bits `bits`.
    pub fn from_f64_bits(bits: u64) -> (r: DataNode<'a>)
        ensures
            r matches DataNode::F64(f) && f.spec_key() == float_order_key(bits),
    {
        DataNode::F64(OrderedF64::from_bits(bits))
    }
}

impl<'a> PartialEq for DataNode<'a> {
    fn eq(&self, other: &DataNode<'a>) -> (r: bool) {
        values_equal(self, other)
    }
}

impl<'a> vstd::std_specs::cmp::PartialEqSpecImpl for DataNode<'a> {
    open spec fn obeys_eq_spec() -> bool {
        true
    }

    open spec fn eq_spec(&self, other: &DataNode<'a>) -> bool {
        equiv(*self, *other)
    }
}

impl<'a> From<i64> for DataNode<'a> {
    fn from(i: i64) -> (r: DataNode<'a>) {
        DataNode::I64(i)
    }
}

impl<'a> vstd::std_specs::convert::FromSpecImpl<i64> for DataNode<'a> {
    open spec fn obeys_from_spec() -> bool {
        true
    }

    open spec fn from_spec(i: i64) -> DataNode<'a> {
        DataNode::I64(i)
    }
}

impl<'a> From<bool> for DataNode<'a> {
    fn from(b: bool) -> (r: DataNode<'a>) {
        DataNode::Bool(b)
    }
}

impl<'a> vstd::std_specs::convert::FromSpecImpl<bool> for DataNode<'a> {
    open spec fn obeys_from_spec() -> bool {
        true
    }

    open spec fn from_spec(b: bool) -> DataNode<'a> {
        DataNode::Bool(b)
    }
}

impl<'a> From<&'a str> for DataNode<'a> {
    fn from(s: &'a str) -> (r: DataNode<'a>) {
        DataNode::Str(s)
    }
}

impl<'a> vstd::std_specs::convert::FromSpecImpl<&'a str> for DataNode<'a> {
    open spec fn obeys_from_spec() -> bool {
        true
    }

    open spec fn from_spec(s: &'a str) -> DataNode<'a> {
        DataNode::Str(s)
    }
}

impl<'a> From<Vec<DataNode<'a>>> for DataNode<'a> {
    fn from(v: Vec<DataNode<'a>>) -> (r: DataNode<'a>) {
        DataNode::Array(v)
    }
}

impl<'a> vstd::std_specs::convert::FromSpecImpl<Vec<DataNode<'a>>> for DataNode<'a> {
    open spec fn obeys_from_spec() -> bool {
        true
    }

    open spec fn from_spec(v: Vec<DataNode<'a>>) -> DataNode<'a> {
        DataNode::Array(v)
    }
}

impl<'a> From<ValueSet<'a>> for DataNode<'a> {
    fn from(s: ValueSet<'a>) -> (r: DataNode<'a>) {
        DataNode::SetOf(s)
    }
}

impl<'a> vstd::std_specs::convert::FromSpecImpl<ValueSet<'a>> for DataNode<'a> {
    open spec fn obeys_from_spec() -> bool {
        true
    }

    open spec fn from_spec(s: ValueSet<'a>) -> DataNode<'a> {
        DataNode::SetOf(s)
    }
}

impl<'a> From<ValueMap<'a>> for DataNode<'a> {
    fn from(m: ValueMap<'a>) -> (r: DataNode<'a>) {
        DataNode::Dict(m)
    }
}

impl<'a> vstd::std_specs::convert::FromSpecImpl<ValueMap<'a>> for DataNode<'a> {
    open spec fn obeys_from_spec() -> bool {
        true
    }

    open spec fn from_spec(m: ValueMap<'a>) -> DataNode<'a> {
        DataNode::Dict(m)
    }
}

} // verus!
