use vstd::prelude::*;

verus! {

#[verifier::external_type_specification]
#[verifier::external_body]
pub struct ExWorld(hecs::World);

/// The set of bit representations of the entity handles that are currently
/// live in the world.
pub uninterp spec fn live_entities(w: hecs::World) -> Set<u64>;

/// Relies on hecs::World::contains: whether the generation-checked handle
/// still refers to a live entity.
#[verifier::external_body]
pub fn world_contains(w: &hecs::World, e: u64) -> (r: bool)
    ensures
        r == live_entities(*w).contains(e),
{
    match hecs::Entity::from_bits(e) {
        Some(ent) => w.contains(ent),
        None => false,
    }
}

/// Relies on hecs::World::spawn: creates a fresh entity, distinct from every
/// live handle, and makes it live; no other entity is affected. Like an
/// allocation failure, the capacity abort of the id allocator (a fresh id
/// wanted while two to the power of thirty-two ids are allocated and none is
/// free) is outside this contract, as it is for the collection operations
/// vstd itself specifies.
#[verifier::external_body]
pub fn world_spawn_empty(w: &mut hecs::World) -> (r: u64)
    ensures
        !live_entities(*old(w)).contains(r),
        live_entities(*final(w)) == live_entities(*old(w)).insert(r),
{
    w.spawn(()).to_bits().get()
}

/// Relies on hecs::World::despawn: destroys the entity and all its
/// components; a stale handle is reported and changes nothing.
#[verifier::external_body]
pub fn world_despawn(w: &mut hecs::World, e: u64) -> (r: bool)
    ensures
        r == live_entities(*old(w)).contains(e),
        live_entities(*final(w)) == live_entities(*old(w)).remove(e),
{
    match hecs::Entity::from_bits(e) {
        Some(ent) => w.despawn(ent).is_ok(),
        None => false,
    }
}

} // verus!
