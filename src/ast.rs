//! The expression tree, the per-evaluation extraction cache and the evaluator.
use vstd::prelude::*;
use vstd::string::StringSliceAdditionalSpecFns;

use crate::error::{FilsonError, FilsonResult};
use crate::op::Op;
use crate::operators::{
    compare, compare_result, intersects, intersects_result, is_contained, is_subset,
    is_subset_result, is_superset, is_superset_result, spec_is_contained,
};
use crate::value::{bytes_equal, spec_is_collection, DataNode};

verus! {

/// A record that can hand out the value found at a path, or report that
/// there is none.
pub trait Extractable {
    /// The value at `path`, or an error where the record has none.
    fn extract<'r>(&'r self, path: &str) -> FilsonResult<DataNode<'r>>;
}

/// A filter that decides, for any record, whether it matches.
pub trait Appliable {
    /// Whether the filter can be applied.
    spec fn spec_ready(&self) -> bool;

    /// Whether `record` matches the filter, or why that could not be told.
    fn apply<T: Extractable>(&self, record: &T) -> (r: FilsonResult<bool>)
        requires
            self.spec_ready(),
    ;
}

/// An immutable filter expression: connectives over leaf predicates, each
/// leaf reading the value at a path of the record.
#[derive(Debug)]
pub enum Ast<'a> {
    And(Box<Ast<'a>>, Box<Ast<'a>>),
    Or(Box<Ast<'a>>, Box<Ast<'a>>),
    Xor(Box<Ast<'a>>, Box<Ast<'a>>),
    Not(Box<Ast<'a>>),
    Compare { lhs: &'a str, op: Op, rhs: DataNode<'a> },
    Intersects { lhs: &'a str, rhs: DataNode<'a> },
    IsContained { lhs: &'a str, rhs: DataNode<'a> },
    Exists { path: &'a str },
    IsSubset { lhs: &'a str, rhs: DataNode<'a> },
    IsSuperset { lhs: &'a str, rhs: DataNode<'a> },
}

/// The literal of every `is_contained` leaf is a map, a set or an array.
pub open spec fn well_formed<'a>(t: Ast<'a>) -> bool
    decreases t,
{
    match t {
        Ast::And(l, r) => well_formed(*l) && well_formed(*r),
        Ast::Or(l, r) => well_formed(*l) && well_formed(*r),
        Ast::Xor(l, r) => well_formed(*l) && well_formed(*r),
        Ast::Not(i) => well_formed(*i),
        Ast::IsContained { rhs, .. } => spec_is_collection(rhs),
        _ => true,
    }
}

/// What a cache holds: for each path, by its bytes, the result of
/// extracting it.
pub type CacheContents<'a> = Map<Seq<u8>, FilsonResult<DataNode<'a>>>;

/// The path that a leaf reads.
pub open spec fn leaf_path<'a>(t: Ast<'a>) -> Seq<u8> {
    match t {
        Ast::Compare { lhs, .. } => lhs.spec_bytes(),
        Ast::Intersects { lhs, .. } => lhs.spec_bytes(),
        Ast::IsContained { lhs, .. } => lhs.spec_bytes(),
        Ast::Exists { path } => path.spec_bytes(),
        Ast::IsSubset { lhs, .. } => lhs.spec_bytes(),
        Ast::IsSuperset { lhs, .. } => lhs.spec_bytes(),
        _ => Seq::empty(),
    }
}

/// The value of a leaf given what extracting its path gave: `exists` is
/// whether the extraction succeeded; every other leaf returns the
/// extraction's error, or applies its operator to the extracted value and
/// its literal.
#[verifier::opaque]
pub open spec fn leaf_outcome<'a>(t: Ast<'a>, extracted: FilsonResult<DataNode<'a>>) -> FilsonResult<
    bool,
> {
    match t {
        Ast::Exists { .. } => Ok(extracted is Ok),
        Ast::Compare { op, rhs, .. } => match extracted {
            Err(e) => Err(e),
            Ok(v) => compare_result(v, op, rhs),
        },
        Ast::Intersects { rhs, .. } => match extracted {
            Err(e) => Err(e),
            Ok(v) => intersects_result(v, rhs),
        },
        Ast::IsContained { rhs, .. } => match extracted {
            Err(e) => Err(e),
            Ok(v) => Ok(spec_is_contained(v, rhs)),
        },
        Ast::IsSubset { rhs, .. } => match extracted {
            Err(e) => Err(e),
            Ok(v) => is_subset_result(v, rhs),
        },
        Ast::IsSuperset { rhs, .. } => match extracted {
            Err(e) => Err(e),
            Ok(v) => is_superset_result(v, rhs),
        },
        _ => Ok(false),
    }
}

/// The value of the tree given what was extracted for each path. Both sides
/// of a connective are evaluated, but an error on the left side is returned
/// at once.
pub open spec fn eval<'a>(t: Ast<'a>, c: CacheContents<'a>) -> FilsonResult<bool>
    decreases t,
{
    match t {
        Ast::And(l, r) => match eval(*l, c) {
            Err(e) => Err(e),
            Ok(x) => match eval(*r, c) {
                Err(e) => Err(e),
                Ok(y) => Ok(x && y),
            },
        },
        Ast::Or(l, r) => match eval(*l, c) {
            Err(e) => Err(e),
            Ok(x) => match eval(*r, c) {
                Err(e) => Err(e),
                Ok(y) => Ok(x || y),
            },
        },
        Ast::Xor(l, r) => match eval(*l, c) {
            Err(e) => Err(e),
            Ok(x) => match eval(*r, c) {
                Err(e) => Err(e),
                Ok(y) => Ok(x != y),
            },
        },
        Ast::Not(i) => match eval(*i, c) {
            Err(e) => Err(e),
            Ok(x) => Ok(!x),
        },
        _ => leaf_outcome(t, c[leaf_path(t)]),
    }
}

/// The paths whose values the evaluation of the tree reads: every leaf,
/// except those to the right of a connective whose left side failed.
pub open spec fn reached<'a>(t: Ast<'a>, c: CacheContents<'a>) -> Set<Seq<u8>>
    decreases t,
{
    match t {
        Ast::And(l, r) => if eval(*l, c) is Err {
            reached(*l, c)
        } else {
            reached(*l, c).union(reached(*r, c))
        },
        Ast::Or(l, r) => if eval(*l, c) is Err {
            reached(*l, c)
        } else {
            reached(*l, c).union(reached(*r, c))
        },
        Ast::Xor(l, r) => if eval(*l, c) is Err {
            reached(*l, c)
        } else {
            reached(*l, c).union(reached(*r, c))
        },
        Ast::Not(i) => reached(*i, c),
        _ => set![leaf_path(t)],
    }
}

/// Extracting more paths changes neither the value of a tree nor what it
/// reads, once everything it reads has been extracted.
pub proof fn lemma_eval_stable<'a>(t: Ast<'a>, c1: CacheContents<'a>, c2: CacheContents<'a>)
    requires
        c1.submap_of(c2),
        reached(t, c1).subset_of(c1.dom()),
    ensures
        eval(t, c2) == eval(t, c1),
        reached(t, c2) == reached(t, c1),
    decreases t,
{
    match t {
        Ast::And(l, r) => {
            lemma_eval_stable(*l, c1, c2);
            if eval(*l, c1) is Ok {
                lemma_eval_stable(*r, c1, c2);
            }
        },
        Ast::Or(l, r) => {
            lemma_eval_stable(*l, c1, c2);
            if eval(*l, c1) is Ok {
                lemma_eval_stable(*r, c1, c2);
            }
        },
        Ast::Xor(l, r) => {
            lemma_eval_stable(*l, c1, c2);
            if eval(*l, c1) is Ok {
                lemma_eval_stable(*r, c1, c2);
            }
        },
        Ast::Not(i) => {
            lemma_eval_stable(*i, c1, c2);
        },
        _ => {
            let p = leaf_path(t);
            assert(c1.dom().contains(p));
            assert(c1.submap_of(c2));
            assert(c1.dom().contains(p) ==> c2.dom().contains(p));
            assert(c1[p] == c2[p]);
            assert(c2.dom().contains(p) && c1[p] == c2[p]);
        },
    }
}

/// Paths and results pair up, no path is held twice, and `contents` maps
/// exactly the held paths to their results.
spec fn consistent_parts<'a>(
    paths: Seq<&'a str>,
    results: Seq<FilsonResult<DataNode<'a>>>,
    contents: CacheContents<'a>,
) -> bool {
    &&& paths.len() == results.len()
    &&& forall|i: int, j: int|
        0 <= i < j < paths.len() ==> (#[trigger] paths[i]).spec_bytes() != (#[trigger] paths[j]).spec_bytes()
    &&& forall|i: int|
        0 <= i < paths.len() ==> contents.contains_key((#[trigger] paths[i]).spec_bytes())
            && contents[paths[i].spec_bytes()] == results[i]
    &&& forall|p: Seq<u8>|
        #[trigger] contents.contains_key(p) ==> exists|i: int|
            0 <= i < paths.len() && (#[trigger] paths[i]).spec_bytes() == p
}

/// The results of extraction within one evaluation, by path: each path is
/// handed to the record at most once, and its result, value or error, is
/// kept for every later leaf that reads it.
pub struct ExtractionCache<'a> {
    paths: Vec<&'a str>,
    results: Vec<FilsonResult<DataNode<'a>>>,
    contents: Ghost<CacheContents<'a>>,
}

impl<'a> ExtractionCache<'a> {
    /// Paths and results pair up, no path is held twice, and `contents`
    /// maps exactly the held paths to their results.
    #[verifier::type_invariant]
    spec fn consistent(self) -> bool {
        consistent_parts(self.paths@, self.results@, self.contents@)
    }

    /// The paths, by their bytes, in the order in which they were extracted.
    pub closed spec fn extracted(self) -> Seq<Seq<u8>> {
        Seq::new(self.paths@.len(), |i: int| self.paths@[i].spec_bytes())
    }

    /// The number of paths held.
    pub closed spec fn spec_len(self) -> nat {
        self.paths@.len()
    }

    /// The path held at position `i`.
    pub closed spec fn spec_path_at(self, i: int) -> Seq<u8> {
        self.paths@[i].spec_bytes()
    }

    /// An empty cache.
    pub fn new() -> (r: ExtractionCache<'a>)
        ensures
            r@ == CacheContents::<'a>::empty(),
            r.extracted() == Seq::<Seq<u8>>::empty(),
            r.spec_len() == 0,
    {
        let r = ExtractionCache { paths: Vec::new(), results: Vec::new(), contents: Ghost(Map::empty()) };
        assert(r.extracted() =~= Seq::<Seq<u8>>::empty());
        r
    }

    /// No path was extracted twice, and the extracted paths are those held.
    pub fn check_consistent(&self)
        ensures
            self.extracted().no_duplicates(),
            self.extracted().to_set() == self@.dom(),
            self.spec_len() == self.extracted().len(),
    {
        proof {
            use_type_invariant(self);
            let e = self.extracted();
            assert forall|i: int, j: int| 0 <= i < e.len() && 0 <= j < e.len() && i != j implies e[i]
                != e[j] by {
                if i < j {
                    assert(self.paths@[i].spec_bytes() != self.paths@[j].spec_bytes());
                } else {
                    assert(self.paths@[j].spec_bytes() != self.paths@[i].spec_bytes());
                }
            }
            assert forall|p: Seq<u8>| e.to_set().contains(p) <==> self@.dom().contains(p) by {
                if self@.dom().contains(p) {
                    let i = choose|i: int| 0 <= i < self.paths@.len() && (#[trigger] self.paths@[i]).spec_bytes() == p;
                    assert(e[i] == p);
                }
                if e.to_set().contains(p) {
                    let i = choose|i: int| 0 <= i < e.len() && e[i] == p;
                    assert(self.paths@[i].spec_bytes() == p);
                }
            }
            assert(e.to_set() =~= self@.dom());
        }
    }

    /// Where the cache holds `path`, the entry at its position, else a
    /// vacant entry for it.
    pub fn entry(&self, path: &'a str) -> (r: FalliableEntry<'a>)
        ensures
            r.spec_path() == path.spec_bytes(),
            r.fits(*self),
            r is Vacant <==> !self@.contains_key(path.spec_bytes()),
    {
        proof {
            use_type_invariant(self);
        }
        let mut i: usize = 0;
        while i < self.paths.len()
            invariant
                i <= self.paths@.len(),
                forall|k: int| 0 <= k < i ==> (#[trigger] self.paths@[k]).spec_bytes() != path.spec_bytes(),
                forall|k: int|
                    0 <= k < self.paths@.len() ==> self@.contains_key((#[trigger] self.paths@[k]).spec_bytes()),
            decreases self.paths@.len() - i,
        {
            if bytes_equal(self.paths[i].as_bytes(), path.as_bytes()) {
                proof {
                    assert(self@.contains_key(self.paths@[i as int].spec_bytes()));
                }
                return FalliableEntry::Occupied { path, index: i };
            }
            i += 1;
        }
        FalliableEntry::Vacant { path }
    }

    /// The value held at position `i`, whose extraction succeeded.
    pub fn value_at(&self, i: usize) -> (r: &DataNode<'a>)
        requires
            i < self.spec_len(),
            self@[self.spec_path_at(i as int)] is Ok,
        ensures
            self@[self.spec_path_at(i as int)] == Ok::<DataNode<'a>, FilsonError>(*r),
    {
        proof {
            use_type_invariant(self);
        }
        match &self.results[i] {
            Ok(v) => v,
            Err(_) => {
                proof {
                    assert(false);
                }
                &self.results[i].as_ref().unwrap()
            },
        }
    }
}

impl<'a> View for ExtractionCache<'a> {
    type V = CacheContents<'a>;

    closed spec fn view(&self) -> CacheContents<'a> {
        self.contents@
    }
}

/// A place in an extraction cache for one path: held already, at a
/// position, or not yet.
pub enum FalliableEntry<'a> {
    Occupied { path: &'a str, index: usize },
    Vacant { path: &'a str },
}

impl<'a> FalliableEntry<'a> {
    /// The path of the entry, by its bytes.
    pub open spec fn spec_path(self) -> Seq<u8> {
        match self {
            FalliableEntry::Occupied { path, .. } => path.spec_bytes(),
            FalliableEntry::Vacant { path } => path.spec_bytes(),
        }
    }

    /// The entry describes `cache`: an occupied entry's position holds its
    /// path, and a vacant entry's path is not held.
    pub open spec fn fits(self, cache: ExtractionCache<'a>) -> bool {
        match self {
            FalliableEntry::Occupied { path, index } => index < cache.spec_len()
                && cache.spec_path_at(index as int) == path.spec_bytes(),
            FalliableEntry::Vacant { path } => !cache@.contains_key(path.spec_bytes()),
        }
    }

    /// The result held for the entry's path, calling `default` to extract it
    /// when the entry is vacant and keeping what it returns, success or
    /// failure. Gives the position of the value, or the error.
    pub fn or_try_insert_with<F: FnOnce() -> FilsonResult<DataNode<'a>>>(
        self,
        cache: &mut ExtractionCache<'a>,
        default: F,
    ) -> (r: FilsonResult<usize>)
        requires
            self.fits(*old(cache)),
            call_requires(default, ()),
        ensures
            final(cache)@.dom() == old(cache)@.dom().insert(self.spec_path()),
            old(cache)@.submap_of(final(cache)@),
            self is Occupied ==> final(cache).extracted() == old(cache).extracted(),
            self is Vacant ==> final(cache).extracted() == old(cache).extracted().push(
                self.spec_path(),
            ) && call_ensures(default, (), final(cache)@[self.spec_path()]),
            match r {
                Ok(i) => i < final(cache).spec_len() && final(cache).spec_path_at(i as int)
                    == self.spec_path() && final(cache)@[self.spec_path()] is Ok,
                Err(e) => final(cache)@[self.spec_path()] == Err::<DataNode<'a>, FilsonError>(e),
            },
    {
        proof {
            use_type_invariant(&*cache);
        }
        match self {
            FalliableEntry::Occupied { path, index } => {
                proof {
                    assert(cache@.contains_key(path.spec_bytes()));
                    assert(cache@.dom().insert(path.spec_bytes()) =~= cache@.dom());
                }
                match &cache.results[index] {
                    Ok(_) => Ok(index),
                    Err(e) => Err(*e),
                }
            },
            FalliableEntry::Vacant { path } => {
                let res = default();
                let ghost key = path.spec_bytes();
                let mut taken = ExtractionCache::new();
                core::mem::swap(cache, &mut taken);
                let ExtractionCache { mut paths, mut results, contents } = taken;
                let ghost old_paths = paths@;
                let out: FilsonResult<usize> = match &res {
                    Ok(_) => Ok(paths.len()),
                    Err(e) => Err(*e),
                };
                paths.push(path);
                results.push(res);
                let ghost new_contents = contents@.insert(key, res);
                proof {
                    assert forall|i: int| 0 <= i < old_paths.len() implies (#[trigger] old_paths[i]).spec_bytes()
                        != key by {
                        assert(contents@.contains_key(old_paths[i].spec_bytes()));
                    }
                    assert forall|p: Seq<u8>| #[trigger] new_contents.contains_key(p) implies exists|i: int|
                        0 <= i < paths@.len() && (#[trigger] paths@[i]).spec_bytes() == p by {
                        if p == key {
                            assert(paths@[old_paths.len() as int].spec_bytes() == p);
                        } else {
                            let i = choose|i: int|
                                0 <= i < old_paths.len() && (#[trigger] old_paths[i]).spec_bytes() == p;
                            assert(paths@[i] == old_paths[i]);
                        }
                    }
                    assert forall|i: int, j: int| 0 <= i < j < paths@.len() implies (#[trigger] paths@[i]).spec_bytes()
                        != (#[trigger] paths@[j]).spec_bytes() by {
                        if j < old_paths.len() {
                            assert(paths@[i] == old_paths[i]);
                            assert(paths@[j] == old_paths[j]);
                            assert(old_paths[i].spec_bytes() != old_paths[j].spec_bytes());
                        } else {
                            assert(paths@[i] == old_paths[i]);
                            assert(old_paths[i].spec_bytes() != key);
                        }
                    }
                    assert forall|i: int| 0 <= i < paths@.len() implies new_contents.contains_key(
                        (#[trigger] paths@[i]).spec_bytes(),
                    ) && new_contents[paths@[i].spec_bytes()] == results@[i] by {
                        if i < old_paths.len() {
                            assert(paths@[i] == old_paths[i]);
                        }
                    }
                }
                proof {
                    assert(consistent_parts(paths@, results@, new_contents));
                }
                *cache = ExtractionCache { paths, results, contents: Ghost(new_contents) };
                proof {
                    assert(cache.extracted() =~= old(cache).extracted().push(key));
                }
                out
            },
        }
    }
}

impl<'a> Ast<'a> {
    /// Whether the literal of every `is_contained` leaf is a map, a set or
    /// an array.
    pub fn is_well_formed(&self) -> (r: bool)
        ensures
            r == well_formed(*self),
        decreases self,
    {
        match self {
            Ast::And(l, r) => l.is_well_formed() && r.is_well_formed(),
            Ast::Or(l, r) => l.is_well_formed() && r.is_well_formed(),
            Ast::Xor(l, r) => l.is_well_formed() && r.is_well_formed(),
            Ast::Not(i) => i.is_well_formed(),
            Ast::IsContained { rhs, .. } => rhs.is_collection_type(),
            _ => true,
        }
    }
}

/// Evaluates a leaf against the record, reading its path through `cache`.
fn apply_leaf<'a, T: Extractable>(t: &Ast<'a>, record: &'a T, cache: &mut ExtractionCache<'a>) -> (r:
    FilsonResult<bool>)
    requires
        well_formed(*t),
        !(t is And || t is Or || t is Xor || t is Not),
    ensures
        old(cache)@.submap_of(final(cache)@),
        final(cache)@.dom() == old(cache)@.dom().insert(leaf_path(*t)),
        old(cache).extracted().is_prefix_of(final(cache).extracted()),
        r == leaf_outcome(*t, final(cache)@[leaf_path(*t)]),
{
    let path: &'a str = match t {
        Ast::Compare { lhs, .. } => lhs,
        Ast::Intersects { lhs, .. } => lhs,
        Ast::IsContained { lhs, .. } => lhs,
        Ast::Exists { path } => path,
        Ast::IsSubset { lhs, .. } => lhs,
        Ast::IsSuperset { lhs, .. } => lhs,
        _ => {
            proof {
                assert(false);
            }
            ""
        },
    };
    let entry = cache.entry(path);
    let got = entry.or_try_insert_with(cache, || record.extract(path));
    proof {
        reveal(leaf_outcome);
        assert(old(cache).extracted().is_prefix_of(cache.extracted()));
    }
    match t {
        Ast::Exists { .. } => Ok(got.is_ok()),
        Ast::Compare { op, rhs, .. } => match got {
            Err(e) => Err(e),
            Ok(i) => compare(cache.value_at(i), op, rhs),
        },
        Ast::Intersects { rhs, .. } => match got {
            Err(e) => Err(e),
            Ok(i) => intersects(cache.value_at(i), rhs),
        },
        Ast::IsContained { rhs, .. } => match got {
            Err(e) => Err(e),
            Ok(i) => Ok(is_contained(cache.value_at(i), rhs)),
        },
        Ast::IsSubset { rhs, .. } => match got {
            Err(e) => Err(e),
            Ok(i) => is_subset(cache.value_at(i), rhs),
        },
        Ast::IsSuperset { rhs, .. } => match got {
            Err(e) => Err(e),
            Ok(i) => is_superset(cache.value_at(i), rhs),
        },
        _ => Ok(false),
    }
}

/// Evaluates the tree against the record, reading each path through
/// `cache`: a path already held is not extracted again, and every path the
/// evaluation reads and the cache lacks is extracted once and kept.
pub fn apply_with_cache<'a, T: Extractable>(
    t: &Ast<'a>,
    record: &'a T,
    cache: &mut ExtractionCache<'a>,
) -> (r: FilsonResult<bool>)
    requires
        well_formed(*t),
    ensures
        old(cache)@.submap_of(final(cache)@),
        final(cache)@.dom() == old(cache)@.dom().union(reached(*t, final(cache)@)),
        old(cache).extracted().is_prefix_of(final(cache).extracted()),
        final(cache).extracted().no_duplicates(),
        final(cache).extracted().to_set() == final(cache)@.dom(),
        r == eval(*t, final(cache)@),
    decreases t,
{
    let r = apply_tree(t, record, cache);
    cache.check_consistent();
    r
}

/// Evaluates the tree against the record, reading each path through `cache`.
fn apply_tree<'a, T: Extractable>(t: &Ast<'a>, record: &'a T, cache: &mut ExtractionCache<'a>) -> (r:
    FilsonResult<bool>)
    requires
        well_formed(*t),
    ensures
        old(cache)@.submap_of(final(cache)@),
        final(cache)@.dom() == old(cache)@.dom().union(reached(*t, final(cache)@)),
        old(cache).extracted().is_prefix_of(final(cache).extracted()),
        r == eval(*t, final(cache)@),
    decreases t,
{
    let ghost c0 = cache@;
    let ghost e0 = cache.extracted();
    match t {
        Ast::And(l, rt) | Ast::Or(l, rt) | Ast::Xor(l, rt) => {
            let x = apply_tree(l, record, cache);
            let ghost c1 = cache@;
            let ghost e1 = cache.extracted();
            match x {
                Err(e) => {
                    proof {
                        assert(cache@.dom() =~= c0.dom().union(reached(*t, cache@)));
                    }
                    Err(e)
                },
                Ok(xv) => {
                    let y = apply_tree(rt, record, cache);
                    proof {
                        lemma_eval_stable(**l, c1, cache@);
                        vstd::map_lib::lemma_submap_of_trans(c0, c1, cache@);
                        assert(cache@.dom() =~= c0.dom().union(reached(*t, cache@)));
                        assert(e0.is_prefix_of(cache.extracted())) by {
                            assert(e0 =~= e1.subrange(0, e0.len() as int));
                            assert(e1 =~= cache.extracted().subrange(0, e1.len() as int));
                            assert(e0 =~= cache.extracted().subrange(0, e0.len() as int));
                        }
                    }
                    match y {
                        Err(e) => Err(e),
                        Ok(yv) => {
                            let v = match t {
                                Ast::And(..) => xv && yv,
                                Ast::Or(..) => xv || yv,
                                _ => xv != yv,
                            };
                            Ok(v)
                        },
                    }
                },
            }
        },
        Ast::Not(i) => {
            let x = apply_tree(i, record, cache);
            match x {
                Err(e) => Err(e),
                Ok(xv) => Ok(!xv),
            }
        },
        _ => {
            let r = apply_leaf(t, record, cache);
            proof {
                assert(cache@.dom() =~= c0.dom().union(reached(*t, cache@)));
            }
            r
        },
    }
}

impl<'a> Appliable for Ast<'a> {
    open spec fn spec_ready(&self) -> bool {
        well_formed(*self)
    }

    /// Evaluates the tree against the record with a cache of its own: the
    /// result is the value of the tree over what was extracted, and the
    /// paths that the evaluation reads were each extracted once, in some
    /// order, and no other path was.
    fn apply<T: Extractable>(&self, record: &T) -> (r: FilsonResult<bool>)
        ensures
            exists|c: CacheContents, order: Seq<Seq<u8>>|
                r == eval(*self, c) && c.dom() == reached(*self, c) && order.no_duplicates()
                    && order.to_set() == c.dom(),
    {
        let mut cache = ExtractionCache::new();
        let r = apply_with_cache(self, record, &mut cache);
        proof {
            assert(cache@.dom() =~= reached(*self, cache@));
            assert(r == eval(*self, cache@) && cache@.dom() == reached(*self, cache@)
                && cache.extracted().no_duplicates() && cache.extracted().to_set() == cache@.dom());
        }
        r
    }
}

/// `exists` never fails: it is whether the extraction of its path succeeded.
pub proof fn law_exists_never_fails<'a>(t: Ast<'a>, c: CacheContents<'a>)
    requires
        t is Exists,
    ensures
        eval(t, c) == Ok::<bool, FilsonError>(c[leaf_path(t)] is Ok),
{
    reveal(leaf_outcome);
}

/// A connective whose left side evaluates without error reads the paths of
/// both sides, whatever the left side's value.
pub proof fn law_connectives_read_both_sides<'a>(t: Ast<'a>, c: CacheContents<'a>)
    requires
        t is And || t is Or || t is Xor,
        eval(
            match t {
                Ast::And(l, _) => *l,
                Ast::Or(l, _) => *l,
                Ast::Xor(l, _) => *l,
                _ => t,
            },
            c,
        ) is Ok,
    ensures
        match t {
            Ast::And(l, r) => reached(t, c) == reached(*l, c).union(reached(*r, c)),
            Ast::Or(l, r) => reached(t, c) == reached(*l, c).union(reached(*r, c)),
            Ast::Xor(l, r) => reached(t, c) == reached(*l, c).union(reached(*r, c)),
            _ => true,
        },
{
}

/// A connective whose left side fails returns that error and reads nothing
/// of its right side.
pub proof fn law_error_short_circuits<'a>(t: Ast<'a>, c: CacheContents<'a>)
    requires
        t is And || t is Or || t is Xor,
        eval(
            match t {
                Ast::And(l, _) => *l,
                Ast::Or(l, _) => *l,
                Ast::Xor(l, _) => *l,
                _ => t,
            },
            c,
        ) is Err,
    ensures
        match t {
            Ast::And(l, _) => eval(t, c) == eval(*l, c) && reached(t, c) == reached(*l, c),
            Ast::Or(l, _) => eval(t, c) == eval(*l, c) && reached(t, c) == reached(*l, c),
            Ast::Xor(l, _) => eval(t, c) == eval(*l, c) && reached(t, c) == reached(*l, c),
            _ => true,
        },
{
}

} // verus!
