//! The arena that holds the node records of a session.

use bumpalo::Bump;
use vstd::prelude::*;

verus! {

/// `bumpalo::Bump`, the bump allocator that backs a session. A value of it
/// is carried around as it is; nothing is known of what is inside.
#[verifier::external_type_specification]
#[verifier::external_body]
pub struct ExBump<const MIN_ALIGN: usize>(Bump<MIN_ALIGN>);

/// Calls `bumpalo::Bump::alloc`, which moves `value` into the arena and
/// hands back a reference to the place where it now lives. Taken on trust:
/// the place holds `value`. The reference is good for as long as the arena
/// is borrowed, because the arena frees nothing before it is dropped or
/// reset, and both need it unborrowed.
#[verifier::external_body]
pub(crate) fn alloc_in<'arena, T>(arena: &'arena Bump, value: T) -> (slot: &'arena T)
    ensures
        *slot == value,
{
    arena.alloc(value)
}

} // verus!
