use vstd::prelude::*;
use generational_arena::Arena;
use generational_arena::Index;
use super::Handle;
use super::WorldlyObject;

verus! {

#[verifier::external_type_specification]
#[verifier::external_body]
#[verifier::reject_recursive_types(T)]
pub struct ExArena<T>(Arena<T>);

/// What an arena holds: each live handle with its object.
pub uninterp spec fn arena_contents(arena: Arena<WorldlyObject>) -> Map<Handle, WorldlyObject>;

/// The arena's generation counter: the number of removals it has made.
pub uninterp spec fn arena_generation(arena: Arena<WorldlyObject>) -> nat;

/// `Arena::new`: an arena that holds nothing and has removed nothing.
#[verifier::external_body]
pub(crate) fn arena_new() -> (arena: Arena<WorldlyObject>)
    ensures
        arena_contents(arena) == (Map::<Handle, WorldlyObject>::empty()),
        arena_generation(arena) == 0,
{
    Arena::new()
}

/// `Arena::insert`: stores `object` under a handle that was not live, stamped
/// with the current generation; nothing else changes.
#[verifier::external_body]
pub(crate) fn arena_insert(arena: &mut Arena<WorldlyObject>, object: WorldlyObject) -> (handle: Handle)
    ensures
        !arena_contents(*old(arena)).dom().contains(handle),
        handle.generation == arena_generation(*old(arena)),
        arena_contents(*final(arena)) == arena_contents(*old(arena)).insert(handle, object),
        arena_generation(*final(arena)) == arena_generation(*old(arena)),
{
    let (index, generation) = arena.insert(object).into_raw_parts();
    Handle { index, generation }
}

/// `Arena::get`: the object under `handle`, if the handle is live.
#[verifier::external_body]
pub(crate) fn arena_get(arena: &Arena<WorldlyObject>, handle: Handle) -> (found: Option<&WorldlyObject>)
    ensures
        found is Some <==> arena_contents(*arena).dom().contains(handle),
        found is Some ==> *found.unwrap() == arena_contents(*arena)[handle],
{
    arena.get(Index::from_raw_parts(handle.index, handle.generation))
}

/// `Arena::get_mut`: the object under `handle`, if the handle is live; what
/// the caller writes through the reference is what the arena then holds
/// there, and nothing else changes.
#[verifier::external_body]
pub(crate) fn arena_get_mut(arena: &mut Arena<WorldlyObject>, handle: Handle) -> (found: Option<
    &mut WorldlyObject,
>)
    ensures
        found is Some <==> arena_contents(*old(arena)).dom().contains(handle),
        found is Some ==> *found.unwrap() == arena_contents(*old(arena))[handle],
        found is Some ==> arena_contents(*final(arena)) == arena_contents(*old(arena)).insert(
            handle,
            *final(found.unwrap()),
        ),
        found is None ==> arena_contents(*final(arena)) == arena_contents(*old(arena)),
        arena_generation(*final(arena)) == arena_generation(*old(arena)),
{
    arena.get_mut(Index::from_raw_parts(handle.index, handle.generation))
}

/// `Arena::remove`: takes out and returns the object under `handle` and
/// counts one generation up, if the handle is live; changes nothing if not.
/// The counter is a `u64` that the arena increments unchecked.
#[verifier::external_body]
pub(crate) fn arena_remove(arena: &mut Arena<WorldlyObject>, handle: Handle) -> (removed: Option<
    WorldlyObject,
>)
    requires
        arena_generation(*old(arena)) < u64::MAX,
    ensures
        removed is Some <==> arena_contents(*old(arena)).dom().contains(handle),
        removed is Some ==> removed.unwrap() == arena_contents(*old(arena))[handle],
        removed is Some ==> arena_contents(*final(arena)) == arena_contents(*old(arena)).remove(handle),
        removed is Some ==> arena_generation(*final(arena)) == arena_generation(*old(arena)) + 1,
        removed is None ==> arena_contents(*final(arena)) == arena_contents(*old(arena)),
        removed is None ==> arena_generation(*final(arena)) == arena_generation(*old(arena)),
{
    arena.remove(Index::from_raw_parts(handle.index, handle.generation))
}

/// `Arena::iter`, which walks the slots by position: the live handles, each
/// once, by ascending slot index.
#[verifier::external_body]
pub(crate) fn arena_handles(arena: &Arena<WorldlyObject>) -> (handles: Vec<Handle>)
    ensures
        forall|handle: Handle| handles@.contains(handle) <==> arena_contents(*arena).dom().contains(handle),
        forall|i: int, j: int| 0 <= i < j < handles@.len() ==> handles@[i].index < handles@[j].index,
{
    let mut handles = Vec::new();
    for (index, _) in arena.iter() {
        let (index, generation) = index.into_raw_parts();
        handles.push(Handle { index, generation });
    }
    handles
}

} // verus!
