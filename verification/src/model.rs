//! The stored unit: an entity together with its identifier.
use vstd::prelude::*;

use crate::errors::DocDbError;
use crate::errors::DocDbResult;
use crate::ident::Ulid;
use crate::value::lookup;
use crate::value::obj_set;
use crate::value::SpecValue;
use crate::value::Value;

verus! {

/// One stored entry: the identifier is fixed at insert time, the entity
/// may be replaced wholesale by updates.
pub struct DocDbEntry {
    pub id: Ulid,
    pub entity: Value,
}

impl DocDbEntry {
    /// Sets (or overwrites) one top-level field of the entity.  Fails
    /// with an internal error when the entity is not a mapping at its
    /// top level, leaving the entry unchanged.
    pub fn set_field_value(&mut self, field_name: &str, field_value: Value) -> (r: DocDbResult<()>)
        ensures
            old(self).entity@ is Obj ==> r is Ok && final(self).id == old(self).id
                && final(self).entity@ == SpecValue::Obj(
                obj_set(old(self).entity@->Obj_0, field_name@, field_value@),
            ),
            !(old(self).entity@ is Obj) ==> r is Err && r->Err_0 is InternalError && *final(self)
                == *old(self),
    {
        if !self.entity.is_object() {
            return Err(
                DocDbError::internal("entity is not a key-value mapping at its top level", "Value"),
            );
        }
        self.entity.insert_field(field_name, field_value);
        Ok(())
    }

    /// Whether the entity has a top-level field of this name.  Fails
    /// with an internal error when the entity is not a mapping.
    pub fn has_field(&self, field_name: &str) -> (r: DocDbResult<bool>)
        ensures
            self.entity@ is Obj ==> r is Ok && r->Ok_0 == (lookup(
                self.entity@->Obj_0,
                field_name@,
            ) is Some),
            !(self.entity@ is Obj) ==> r is Err && r->Err_0 is InternalError,
    {
        if !self.entity.is_object() {
            return Err(
                DocDbError::internal("entity is not a key-value mapping at its top level", "Value"),
            );
        }
        match self.entity.get_field(field_name) {
            Some(_) => Ok(true),
            None => Ok(false),
        }
    }
}

} // verus!
