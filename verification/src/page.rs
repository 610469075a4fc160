//! The system page size.

use crate::layout::is_power_of_two;
use vstd::arithmetic::power2::is_pow2;
use vstd::prelude::*;

verus! {

/// Asks the operating system for its page size.
///
/// Calls `sysconf::page::pagesize`, which forwards the value the platform
/// reports, and panics on a platform that reports none. Nothing is claimed of
/// the result: callers validate it with [`usable_page_size`] before building
/// on it.
#[verifier::external_body]
pub(crate) fn query_page_size() -> (size: usize) {
    sysconf::page::pagesize()
}

/// A page size the allocator can build on: `raw` if it is a power of two.
pub fn usable_page_size(raw: usize) -> (r: Option<usize>)
    ensures
        r == if is_pow2(raw as int) {
            Some(raw)
        } else {
            None
        },
{
    if is_power_of_two(raw) {
        Some(raw)
    } else {
        None
    }
}

/// The page size of the system, if it reports one the allocator can build on.
pub fn page_size() -> (r: Option<usize>)
    ensures
        r.is_some() ==> is_pow2(r.unwrap() as int),
{
    usable_page_size(query_page_size())
}

} // verus!
