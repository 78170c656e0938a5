//! Trusted interface to the generation-checked arena that owns one file's
//! semantic items.  A whole file's facts are dropped and rebuilt by
//! discarding one arena; an id stays valid only against the arena that
//! produced it.

use vstd::prelude::*;

use crate::semantic::Item;
use crate::ItemId;

verus! {

/// The arena owning one file's semantic items.
pub type Store = generational_arena::Arena<Item>;

#[verifier::external_type_specification]
#[verifier::external_body]
#[verifier::reject_recursive_types(T)]
pub struct ExArena<T>(generational_arena::Arena<T>);

#[verifier::external_type_specification]
#[verifier::external_body]
pub struct ExIndex(generational_arena::Index);

/// What the arena holds: its live ids, each mapped to its item.
pub uninterp spec fn store_contents(arena: Store) -> Map<ItemId, Item>;

/// Relies on generational_arena::Arena::new: a freshly created arena holds
/// no live items.
#[verifier::external_body]
pub(crate) fn arena_new() -> (a: Store)
    ensures
        store_contents(a) =~= Map::empty(),
{
    generational_arena::Arena::new()
}

/// Relies on generational_arena::Arena::insert: the value goes into a slot
/// that held no live item, the returned index addresses exactly that slot at
/// the arena's current generation, and every other live entry keeps its
/// index and value.
#[verifier::external_body]
pub(crate) fn arena_insert(a: &mut Store, item: Item) -> (id: ItemId)
    ensures
        !store_contents(*old(a)).contains_key(id),
        store_contents(*final(a)) == store_contents(*old(a)).insert(id, item),
{
    a.insert(item)
}

/// Relies on generational_arena::Arena::get: `Some` exactly for an index
/// whose slot is occupied at a matching generation, returning that item.
#[verifier::external_body]
pub(crate) fn arena_get<'a>(a: &'a Store, id: ItemId) -> (r: Option<&'a Item>)
    ensures
        match r {
            Some(item) => store_contents(*a).contains_key(id) && *item == store_contents(*a)[id],
            None => !store_contents(*a).contains_key(id),
        },
{
    a.get(id)
}

} // verus!
