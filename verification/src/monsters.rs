//! A ready-made two-index binding: monster records ordered by id in one
//! tree and by health in another.
//!
//! The two indexes are fully independent: inserting or removing a record
//! through one tag's tree never changes what the other tag's tree holds,
//! since each tree keeps its own link slots for the shared record ids.

use vstd::prelude::*;

verus! {

use core::cmp::Ordering;
use crate::{IntrusiveNode, TreeOrd};
use crate::order::QueryPos;

/// A monster's identity.
#[derive(Clone, Copy, PartialEq, Eq, Structural)]
pub struct Id(pub u32);

/// A record that participates in two indexes: by id and by health.
pub struct Monster {
    /// The identity key, unique among the records of one by-id tree.
    pub id: Id,
    /// The health key, unique among the records of one by-health tree.
    pub health: u32,
}

/// Marker for the by-id index over [`Monster`] records.
pub struct MonstersById;

/// Marker for the by-health index over [`Monster`] records.
pub struct MonstersByHealth;

impl IntrusiveNode<Monster> for MonstersById {
    open spec fn key_of(e: Monster) -> int {
        e.id.0 as int
    }
}

impl IntrusiveNode<Monster> for MonstersByHealth {
    open spec fn key_of(e: Monster) -> int {
        e.health as int
    }
}

impl TreeOrd<MonstersById, Monster> for Monster {
    open spec fn query_pos(&self) -> QueryPos {
        QueryPos::At(self.id.0 as int)
    }

    fn tree_cmp(&self, elem: &Monster) -> (r: Ordering) {
        if self.id.0 < elem.id.0 {
            Ordering::Less
        } else if self.id.0 == elem.id.0 {
            Ordering::Equal
        } else {
            Ordering::Greater
        }
    }
}

impl TreeOrd<MonstersById, Monster> for Id {
    open spec fn query_pos(&self) -> QueryPos {
        QueryPos::At(self.0 as int)
    }

    fn tree_cmp(&self, elem: &Monster) -> (r: Ordering) {
        if self.0 < elem.id.0 {
            Ordering::Less
        } else if self.0 == elem.id.0 {
            Ordering::Equal
        } else {
            Ordering::Greater
        }
    }
}

impl TreeOrd<MonstersByHealth, Monster> for Monster {
    open spec fn query_pos(&self) -> QueryPos {
        QueryPos::At(self.health as int)
    }

    fn tree_cmp(&self, elem: &Monster) -> (r: Ordering) {
        if self.health < elem.health {
            Ordering::Less
        } else if self.health == elem.health {
            Ordering::Equal
        } else {
            Ordering::Greater
        }
    }
}

impl TreeOrd<MonstersByHealth, Monster> for u32 {
    open spec fn query_pos(&self) -> QueryPos {
        QueryPos::At(*self as int)
    }

    fn tree_cmp(&self, elem: &Monster) -> (r: Ordering) {
        if *self < elem.health {
            Ordering::Less
        } else if *self == elem.health {
            Ordering::Equal
        } else {
            Ordering::Greater
        }
    }
}

} // verus!
