//! A compiler and simulator for hierarchical NOR-gate circuits.
//!
//! Module definitions built from gate calls are checked, ordered by their
//! dependencies, flattened to networks of two-input NOR gates, serialized to
//! a 32-bit word format, and executed tick by tick by a small virtual
//! machine.

pub mod types;
pub mod text;
pub mod vm;
pub mod codec;
pub mod modulecheck;
pub mod sort;
pub mod compile;
pub mod pipeline;
pub mod testing;
pub mod resources;
pub mod document;
pub mod transpile;

use vstd::prelude::*;

verus! {

/// Boolean NOR, the single primitive every circuit reduces to.
pub open spec fn spec_nor(a: bool, b: bool) -> bool {
    !(a || b)
}

/// Boolean NOR as executable code.
pub fn nor(a: bool, b: bool) -> (r: bool)
    ensures
        r == spec_nor(a, b),
{
    !(a || b)
}

} // verus!
