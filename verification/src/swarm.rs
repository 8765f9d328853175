//! Identities of gnomes and names of swarms, as the application layer sees
//! them.

use vstd::prelude::*;

verus! {

/// Identifier of a gnome (a participant of a swarm).
#[derive(Debug, Copy, Clone, PartialEq, Eq, Structural)]
pub struct GnomeId(pub u64);

/// Identifier of a swarm that this gnome takes part in.
#[derive(Debug, Copy, Clone, PartialEq, Eq, Structural)]
pub struct SwarmID(pub u8);

/// Name of a swarm: the gnome that founded it, and a text.
#[derive(Debug)]
pub struct SwarmName {
    pub founder: GnomeId,
    pub name: String,
}

impl SwarmName {
    /// Two names are the same: same founder, same text.
    pub open spec fn same_as(&self, other: &SwarmName) -> bool {
        self.founder == other.founder && self.name@ == other.name@
    }

    /// Whether `other` is the same name (see `same_as`).
    pub fn equals(&self, other: &SwarmName) -> (r: bool)
        ensures
            r == self.same_as(other),
    {
        self.founder.0 == other.founder.0 && crate::app_type::str_eq(self.name.as_str(), other.name.as_str())
    }

    pub fn clone_name(&self) -> (r: Self)
        ensures
            r.founder == self.founder,
            r.name@ == self.name@,
    {
        SwarmName { founder: self.founder, name: self.name.clone() }
    }
}

} // verus!
