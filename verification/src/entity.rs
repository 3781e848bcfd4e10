//! Entity ids and the register that hands them out.

use crate::component::Component;
use crate::meta::ENTITY_LIMIT;
use crate::meta::NEXT_LIMIT;
use crate::store::all_below;
use crate::store::ComponentVector;
use std::ops::Range;
use vstd::prelude::*;

verus! {

/// Hands out entity ids in growing order, each id once.
pub struct EntityRegister {
    pub(crate) entity: u64,
}

impl EntityRegister {
    /// The id that the next registration starts with.
    pub closed spec fn cursor(&self) -> u64 {
        self.entity
    }

    /// A register that has handed out nothing.
    pub fn new() -> (r: Self)
        ensures
            r.cursor() == 0,
    {
        EntityRegister { entity: 0 }
    }

    /// The id that the next registration starts with.
    pub fn peek(&self) -> (id: u64)
        ensures
            id == self.cursor(),
    {
        self.entity
    }

    /// Hands out the next `number_to_register` ids as a half-open range and
    /// moves the cursor past them.
    pub fn register(&mut self, number_to_register: u64) -> (r: Range<u64>)
        requires
            old(self).cursor() + number_to_register <= u64::MAX,
        ensures
            r.start == old(self).cursor(),
            r.end == old(self).cursor() + number_to_register,
            final(self).cursor() == old(self).cursor() + number_to_register,
    {
        let start = self.entity;
        self.entity = self.entity + number_to_register;
        start..self.entity
    }
}

/// Whether `id` is one of the `n` ids handed out from the cursor `start`.
pub open spec fn issued(start: u64, n: u64, id: u64) -> bool {
    start <= id < start + n
}

/// Ids never repeat and grow from one registration to the next: every id
/// of a registration lies below every id of a registration that starts
/// where the first ended, or later.
pub proof fn lemma_ids_grow(start: u64, n: u64, later: u64, m: u64, a: u64, b: u64)
    requires
        start + n <= later,
        issued(start, n, a),
        issued(later, m, b),
    ensures
        a < b,
{
}

/// An entity: an id under which components are stored.
pub struct Entity {
    pub(crate) id: u64,
}

impl Entity {
    /// The id of the entity.
    pub closed spec fn spec_id(&self) -> u64 {
        self.id
    }

    /// An entity with the given id; the register is not consulted.
    pub(crate) fn new_with_id(id: u64) -> (e: Entity)
        ensures
            e.spec_id() == id,
    {
        Entity { id }
    }

    /// The id of the entity.
    #[verifier::when_used_as_spec(spec_id)]
    pub fn id(&self) -> (r: u64)
        ensures
            r == self.spec_id(),
    {
        self.id
    }

    /// Stores `comp` for this entity at the end of the store `write`.
    pub fn with<T: Component>(self, comp: T, write: &mut ComponentVector<T>) -> (r: Self)
        requires
            old(write).wf(),
            old(write)@.len() < NEXT_LIMIT,
            self.spec_id() < ENTITY_LIMIT,
            all_below(old(write)@, self.spec_id()),
        ensures
            r.spec_id() == self.spec_id(),
            final(write).wf(),
            final(write)@ == old(write)@.push((self.spec_id(), comp)),
            final(write).layout() == old(write).layout().push(self.spec_id()),
    {
        write.push(comp, self.id);
        self
    }
}

} // verus!
