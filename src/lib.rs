//! An embeddable filter-expression engine: a typed predicate language that
//! decides, for a host record, whether it satisfies a boolean condition whose
//! shape is known only at run time.
use vstd::prelude::*;

pub mod ast;
pub mod error;
pub mod op;
pub mod operators;
pub mod value;

verus! {

pub use crate::ast::{apply_with_cache, Appliable, Ast, Extractable, ExtractionCache, FalliableEntry};
pub use crate::error::{FilsonError, FilsonResult};
pub use crate::op::Op;
pub use crate::value::{DataNode, OrderedF64, ValueMap, ValueSet};

} // verus!
