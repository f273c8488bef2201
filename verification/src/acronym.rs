//! The entry type of the glossary: an id assigned by the store, the short
//! form, and its definition.

use vstd::prelude::*;

verus! {

/// One row of the acronym table. The id is assigned by the store on
/// insertion and is immutable afterwards; the short form and the
/// definition are required but carry no further constraint.
#[derive(Debug)]
pub struct Acronym {
    pub id: i32,
    pub acronym: String,
    pub definition: String,
}

impl Acronym {
    /// An empty entry: id zero (no store-assigned id yet), empty short
    /// form and definition.
    pub fn new() -> (a: Acronym)
        ensures
            a.id == 0,
            a.acronym@ == Seq::<char>::empty(),
            a.definition@ == Seq::<char>::empty(),
    {
        Acronym { id: 0, acronym: String::new(), definition: String::new() }
    }
}

impl Clone for Acronym {
    fn clone(&self) -> (a: Acronym)
        ensures
            a == *self,
    {
        Acronym {
            id: self.id,
            acronym: self.acronym.clone(),
            definition: self.definition.clone(),
        }
    }
}

impl Default for Acronym {
    fn default() -> (a: Acronym)
        ensures
            a.id == 0,
            a.acronym@ == Seq::<char>::empty(),
            a.definition@ == Seq::<char>::empty(),
    {
        Acronym::new()
    }
}

} // verus!
