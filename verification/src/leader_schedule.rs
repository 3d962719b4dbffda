//! What the write stage reads of the cluster state: its own identity and the
//! leaders scheduled to take over at given entry heights.

use std::collections::HashMap;
use vstd::prelude::*;

use crate::keys::Pubkey;

verus! {

broadcast use vstd::std_specs::hash::group_hash_axioms;

/// The node's own id and the leaders that the cluster has scheduled, keyed by
/// the entry height at which each takes over.
pub struct LeaderSchedule {
    pub my_id: Pubkey,
    pub scheduled_leaders: HashMap<u64, Pubkey>,
}

/// Whether an optional leader is the given node.
pub open spec fn is_node(leader: Option<Pubkey>, node: Pubkey) -> bool {
    match leader {
        Some(l) => l.bytes() == node.bytes(),
        None => false,
    }
}

impl LeaderSchedule {
    /// The leader scheduled at `entry_height`, if any.
    pub open spec fn leader_at(&self, entry_height: u64) -> Option<Pubkey> {
        if self.scheduled_leaders@.contains_key(entry_height) {
            Some(self.scheduled_leaders@[entry_height])
        } else {
            None
        }
    }

    /// Whether `entry_height` ends a leader's term (it is a multiple of the
    /// rotation interval) and someone other than this node, or nobody known,
    /// is scheduled to lead from there.
    pub open spec fn rotates_at(&self, interval: u64, entry_height: int) -> bool {
        &&& entry_height % (interval as int) == 0
        &&& !is_node(self.leader_at(entry_height as u64), self.my_id)
    }

    /// A schedule of this node with no scheduled leaders.
    pub fn new(my_id: Pubkey) -> (schedule: LeaderSchedule)
        ensures
            schedule.my_id == my_id,
            schedule.scheduled_leaders@ == Map::<u64, Pubkey>::empty(),
    {
        LeaderSchedule { my_id, scheduled_leaders: HashMap::new() }
    }

    /// Records that `leader` takes over at `entry_height`.
    pub fn set_scheduled_leader(&mut self, entry_height: u64, leader: Pubkey)
        ensures
            final(self).my_id == old(self).my_id,
            final(self).scheduled_leaders@ == old(self).scheduled_leaders@.insert(entry_height, leader),
    {
        self.scheduled_leaders.insert(entry_height, leader);
    }

    /// The leader scheduled to take over at `entry_height`, if any.
    pub fn get_scheduled_leader(&self, entry_height: u64) -> (leader: Option<Pubkey>)
        ensures
            leader == self.leader_at(entry_height),
            leader is Some <==> self.scheduled_leaders@.contains_key(entry_height),
            leader is Some ==> leader->0 == self.scheduled_leaders@[entry_height],
    {
        match self.scheduled_leaders.get(&entry_height) {
            Some(l) => Some(*l),
            None => None,
        }
    }
}

/// Whether the node must hand over leadership at `entry_height`: the height
/// is a multiple of `leader_rotation_interval` and the leader scheduled there
/// is not this node.
pub fn leader_rotation_due(schedule: &LeaderSchedule, leader_rotation_interval: u64, entry_height: u64) -> (due: bool)
    requires
        leader_rotation_interval > 0,
    ensures
        due == schedule.rotates_at(leader_rotation_interval, entry_height as int),
        due <==> entry_height % leader_rotation_interval == 0 && !(
        schedule.scheduled_leaders@.contains_key(entry_height)
            && schedule.scheduled_leaders@[entry_height].0@ == schedule.my_id.0@),
{
    if entry_height % leader_rotation_interval == 0 {
        match schedule.get_scheduled_leader(entry_height) {
            Some(next_leader) => !next_leader.same_key(&schedule.my_id),
            None => true,
        }
    } else {
        false
    }
}

} // verus!
