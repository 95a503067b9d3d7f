//! The arena that owns the quad-edge records of a mesh.
//!
//! The records live in an `id_arena::Arena`. Nothing in this module is proved:
//! it states what the arena's methods do to the sequence of records it holds,
//! and the rest of the crate is verified against these statements.

use crate::edge::QuadEdge;
use id_arena::Arena;
use id_arena::ArenaBehavior;
use id_arena::DefaultArenaBehavior;
use vstd::prelude::*;

verus! {

/// `id_arena::Arena`, taken as an opaque type.
#[verifier::external_type_specification]
#[verifier::external_body]
#[verifier::reject_recursive_types(T)]
#[verifier::reject_recursive_types(A)]
pub struct ExArena<T, A>(Arena<T, A>);

/// `id_arena::DefaultArenaBehavior`, taken as an opaque type.
#[verifier::external_type_specification]
#[verifier::external_body]
#[verifier::reject_recursive_types(T)]
pub struct ExDefaultArenaBehavior<T>(DefaultArenaBehavior<T>);

/// The records that an arena holds, in the order in which they were
/// allocated. The position of a record in this sequence is the index of the
/// identifier that `Arena::alloc` returned for it.
pub uninterp spec fn arena_quads(arena: Arena<QuadEdge>) -> Seq<QuadEdge>;

/// The number of records that an arena is taken to have room for. The
/// arena keeps its records in a vector, which panics when its capacity would
/// exceed `isize::MAX` bytes, and which may double its capacity when it
/// grows. A record takes fewer than 256 bytes, so that twice this many
/// records stay below that size.
pub const MAX_QUADS: usize = usize::MAX / 1024;

/// `Arena::with_capacity`: a new arena that holds no record. The bound on
/// `capacity` leaves out the capacities on which the backing vector panics.
#[verifier::external_body]
pub(crate) fn arena_with_capacity(capacity: usize) -> (arena: Arena<QuadEdge>)
    requires
        capacity <= MAX_QUADS,
    ensures
        arena_quads(arena) == Seq::<QuadEdge>::empty(),
{
    Arena::with_capacity(capacity)
}

/// `Arena::len`: the number of records allocated so far.
#[verifier::external_body]
pub(crate) fn arena_len(arena: &Arena<QuadEdge>) -> (n: usize)
    ensures
        n == arena_quads(*arena).len(),
{
    arena.len()
}

/// `Arena::alloc`, followed by `Id::index` on the identifier it returns: the
/// record is appended, and the index returned is its position, which is the
/// number of records held before the call. `alloc` panics when the number of
/// records overflows, and the backing vector when it grows past its largest
/// size; the precondition leaves both out.
#[verifier::external_body]
pub(crate) fn arena_alloc(arena: &mut Arena<QuadEdge>, quad: QuadEdge) -> (index: usize)
    requires
        arena_quads(*old(arena)).len() < MAX_QUADS,
    ensures
        arena_quads(*final(arena)) == arena_quads(*old(arena)).push(quad),
        index == arena_quads(*old(arena)).len(),
{
    arena.alloc(quad).index()
}

/// `Arena::get`, with the identifier rebuilt from an index and the arena's
/// own id (as `Arena::next_id` reports it): the record at that position, or
/// `None` when the index is past the end.
#[verifier::external_body]
pub(crate) fn arena_get(arena: &Arena<QuadEdge>, index: usize) -> (quad: Option<&QuadEdge>)
    ensures
        index < arena_quads(*arena).len() ==> quad == Some(&arena_quads(*arena)[index as int]),
        index >= arena_quads(*arena).len() ==> quad.is_none(),
{
    let arena_id = DefaultArenaBehavior::<QuadEdge>::arena_id(arena.next_id());
    arena.get(DefaultArenaBehavior::<QuadEdge>::new_id(arena_id, index))
}

/// `Arena::get_mut`, with the identifier rebuilt as in [`arena_get`]: an
/// exclusive borrow of the record at that position, or `None` when the index
/// is past the end. Whatever the borrower leaves in the record is what the
/// arena then holds at that position; no other record changes.
#[verifier::external_body]
pub(crate) fn arena_get_mut(arena: &mut Arena<QuadEdge>, index: usize) -> (quad: Option<
    &mut QuadEdge,
>)
    ensures
        index >= arena_quads(*old(arena)).len() ==> quad.is_none() && arena_quads(*final(arena))
            == arena_quads(*old(arena)),
        index < arena_quads(*old(arena)).len() ==> quad.is_some() && *quad.unwrap() == arena_quads(
            *old(arena),
        )[index as int] && arena_quads(*final(arena)) == arena_quads(*old(arena)).update(
            index as int,
            *final(quad.unwrap()),
        ),
{
    let arena_id = DefaultArenaBehavior::<QuadEdge>::arena_id(arena.next_id());
    arena.get_mut(DefaultArenaBehavior::<QuadEdge>::new_id(arena_id, index))
}

} // verus!
