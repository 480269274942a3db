//! Generates build rules from a resolved package dependency graph: an
//! epoch-based identity for vendored crates, a platform-filter algebra over
//! a fixed supported-platform set, a cycle-safe traversal of the resolved
//! graph, and the projection of platform sets into build conditions.

use vstd::prelude::*;

pub mod crates;
pub mod deps;
pub mod file_paths;
pub mod gn;
pub mod platforms;
pub mod readme;
pub mod text;

verus! {

/// The sum of two integers, overflow ruled out by contract; a smoke-test
/// entry point exercised from the cross-language test targets.
pub fn add_two_ints_via_rust(x: i32, y: i32) -> (sum: i32)
    requires
        i32::MIN <= x + y <= i32::MAX,
    ensures
        sum == x + y,
{
    x + y
}

} // verus!
