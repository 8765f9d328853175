//! The swapping of swarms: this gnome takes part in a limited number of
//! swarms at a time, and leaves one to join another. The decisions of that
//! process, and of the manager that serves the gnome's swarms, are made
//! here; carrying them out is left to the caller.

use vstd::prelude::*;
use crate::swarm::{GnomeId, SwarmID, SwarmName};

verus! {

/// The step the swapping of swarms is at.
#[derive(Debug)]
pub enum SwapProcess {
    Idle,
    /// Waiting for the network to settle after a swarm was left.
    Cooldown,
    /// Waiting for the gnome manager to pick a swarm to join.
    WaitingForGnomeMgr,
    Joining(SwarmName),
    Leaving(SwarmID),
}

/// What the caller is to do after a decision of the swapping process.
#[derive(Debug)]
pub enum SwapAction {
    Nothing,
    /// Leave the swarm.
    Leave(SwarmID),
    /// Join the named swarm.
    Join(SwarmName),
    /// Ask the gnome manager to join a swarm of its choice, not the one
    /// just left (if given).
    JoinRandom(Option<SwarmName>),
}

/// The state of a swarm that this gnome takes part in.
#[derive(Debug, Copy, Clone)]
pub struct SwarmState {
    pub s_id: SwarmID,
    pub app_type: Option<crate::app_type::AppType>,
    pub is_synced: bool,
    pub is_busy: bool,
}

impl SwarmState {
    pub fn new(s_id: SwarmID, app_type: Option<crate::app_type::AppType>, is_synced: bool, is_busy: bool) -> (r: Self)
        ensures
            r.s_id == s_id,
            r.app_type == app_type,
            r.is_synced == is_synced,
            r.is_busy == is_busy,
    {
        SwarmState { s_id, app_type, is_synced, is_busy }
    }

    /// The swarm can be left to make room for another: it is synced, not
    /// busy, and not the one the user works with (`active`).
    pub open spec fn spec_swappable(self, active: SwarmID) -> bool {
        self.is_synced && !self.is_busy && active != self.s_id
    }

    pub fn swappable(&self, active: SwarmID) -> (r: bool)
        ensures
            r == self.spec_swappable(active),
    {
        self.is_synced && !self.is_busy && active.0 != self.s_id.0
    }
}

impl SwapProcess {
    pub fn is_idle(&self) -> (r: bool)
        ensures
            r == (*self is Idle),
    {
        matches!(self, SwapProcess::Idle)
    }

    pub fn is_waiting(&self) -> (r: bool)
        ensures
            r == (*self is WaitingForGnomeMgr),
    {
        matches!(self, SwapProcess::WaitingForGnomeMgr)
    }

    /// The step after swarm `s_name` was joined, `known` swarms being
    /// known: joining another swarm goes on, unless this is the only swarm
    /// known; any other step stays.
    pub fn swarm_joined(self, s_name: &SwarmName, known: usize) -> (r: SwapProcess)
        ensures
            match self {
                SwapProcess::Joining(js) => if !js.same_as(s_name) && known != 1 {
                    r == SwapProcess::Joining(js)
                } else {
                    r is Idle
                },
                other => r == other,
            },
    {
        match self {
            SwapProcess::Joining(js_name) => {
                if !js_name.equals(s_name) && known != 1 {
                    SwapProcess::Joining(js_name)
                } else {
                    SwapProcess::Idle
                }
            },
            other => other,
        }
    }

    /// The step once the cooldown is over: idle after a cooldown; any
    /// other step stays.
    pub fn cooldown_over(self) -> (r: SwapProcess)
        ensures
            self is Cooldown ==> r is Idle,
            !(self is Cooldown) ==> r == self,
    {
        match self {
            SwapProcess::Cooldown => SwapProcess::Idle,
            other => other,
        }
    }

    /// The step after swarm `s_id` (named `s_name`) disconnected, and
    /// whether a cooldown is to be timed: leaving that swarm ends, in a
    /// cooldown where the gnome still has neighbors and a slot for a swarm
    /// is free; leaving another swarm goes on; joining that swarm ends,
    /// joining another goes on; any other step stays.
    pub fn swarm_disconnected(self, s_id: SwarmID, s_name: &SwarmName, has_neighbors: bool, slot_free: bool) -> (r: (SwapProcess, bool))
        ensures
            match self {
                SwapProcess::Leaving(leave_id) => if leave_id != s_id {
                    r == (SwapProcess::Leaving(leave_id), false)
                } else if has_neighbors && slot_free {
                    r == (SwapProcess::Cooldown, true)
                } else {
                    r.0 is Idle && !r.1
                },
                SwapProcess::Joining(js) => if !js.same_as(s_name) {
                    r == (SwapProcess::Joining(js), false)
                } else {
                    r.0 is Idle && !r.1
                },
                other => r == (other, false),
            },
    {
        match self {
            SwapProcess::Leaving(leave_id) => {
                if leave_id.0 != s_id.0 {
                    (SwapProcess::Leaving(leave_id), false)
                } else if has_neighbors && slot_free {
                    (SwapProcess::Cooldown, true)
                } else {
                    (SwapProcess::Idle, false)
                }
            },
            SwapProcess::Joining(js) => {
                if !js.equals(s_name) {
                    (SwapProcess::Joining(js), false)
                } else {
                    (SwapProcess::Idle, false)
                }
            },
            other => (other, false),
        }
    }

    /// The step once the gnome manager picked a swarm (or none): only while
    /// waiting for it, joining the swarm picked, or idle; any other step
    /// stays.
    pub fn selected_swarm(self, s_name: Option<SwarmName>) -> (r: SwapProcess)
        ensures
            self is WaitingForGnomeMgr ==> match s_name {
                Some(n) => r == SwapProcess::Joining(n),
                None => r is Idle,
            },
            !(self is WaitingForGnomeMgr) ==> r == self,
    {
        if !self.is_waiting() {
            return self;
        }
        match s_name {
            Some(n) => SwapProcess::Joining(n),
            None => SwapProcess::Idle,
        }
    }
}

/// Whether `names` holds a name that is the same as `n`.
pub open spec fn name_known(names: Seq<SwarmName>, n: SwarmName) -> bool {
    exists|i: int| 0 <= i < names.len() && (#[trigger] names[i]).same_as(&n)
}

fn is_known(names: &Vec<SwarmName>, n: &SwarmName) -> (r: bool)
    ensures
        r == name_known(names@, *n),
{
    let mut i: usize = 0;
    while i < names.len()
        invariant
            i <= names@.len(),
            forall|j: int| 0 <= j < i ==> !(#[trigger] names@[j]).same_as(n),
        decreases names@.len() - i,
    {
        if names[i].equals(n) {
            return true;
        }
        i += 1;
    }
    false
}

/// The next step of the swapping process once a swarm was left (`left`, if
/// known) or its state changed. A step under way stays, unless `reset`
/// asks for a fresh start. With no slot for another swarm, a swarm that
/// can be swapped (`ready`, if any) is left. With a free slot, the swarms
/// waiting to be joined are taken from the end of `to_join`, passing over
/// those already `known`, and the first other one is joined; with none, the
/// gnome manager is asked to pick one.
pub fn next_swap_step(
    process: SwapProcess,
    reset: bool,
    slot_free: bool,
    ready: Option<SwarmID>,
    to_join: &mut Vec<SwarmName>,
    known: &Vec<SwarmName>,
    left: Option<SwarmName>,
) -> (r: (SwapProcess, SwapAction))
    ensures
        !(process is Idle) && !reset ==> r == (process, SwapAction::Nothing) && final(to_join)@ == old(to_join)@,
        (process is Idle || reset) && !slot_free ==> final(to_join)@ == old(to_join)@ && match ready {
            Some(id) => r == (SwapProcess::Leaving(id), SwapAction::Leave(id)),
            None => r.0 is Idle && r.1 is Nothing,
        },
        (process is Idle || reset) && slot_free ==> {
            let t = old(to_join)@;
            let k = final(to_join)@.len();
            &&& k <= t.len()
            &&& final(to_join)@ == t.take(k as int)
            &&& ({
                ||| k < t.len() && !name_known(known@, t[k as int]) && (forall|j: int| k < j < t.len() ==> name_known(
                    known@,
                    #[trigger] t[j],
                )) && (r.0 matches SwapProcess::Joining(n) && n.same_as(&t[k as int])) && (r.1 matches SwapAction::Join(
                    m,
                ) && m.same_as(&t[k as int]))
                ||| k == 0 && (forall|j: int| 0 <= j < t.len() ==> name_known(known@, #[trigger] t[j])) && r.0 is WaitingForGnomeMgr
                    && r.1 == SwapAction::JoinRandom(left)
            })
        },
{
    if !process.is_idle() && !reset {
        return (process, SwapAction::Nothing);
    }
    if !slot_free {
        return match ready {
            Some(id) => (SwapProcess::Leaving(id), SwapAction::Leave(id)),
            None => (SwapProcess::Idle, SwapAction::Nothing),
        };
    }
    let ghost t = to_join@;
    while to_join.len() > 0
        invariant
            t == old(to_join)@,
            process is Idle || reset,
            slot_free,
            to_join@.len() <= t.len(),
            to_join@ == t.take(to_join@.len() as int),
            forall|j: int| to_join@.len() <= j < t.len() ==> name_known(known@, #[trigger] t[j]),
        decreases to_join@.len(),
    {
        let n = to_join.pop().unwrap();
        let ghost k = to_join@.len() as int;
        assert(n == t[k]);
        if !is_known(known, &n) {
            let joined = n.clone_name();
            assert(to_join@ =~= t.take(k));
            return (SwapProcess::Joining(n), SwapAction::Join(joined));
        }
        assert(to_join@ =~= t.take(k));
    }
    (SwapProcess::WaitingForGnomeMgr, SwapAction::JoinRandom(left))
}

/// What the manager does once the founder of a swarm it joined is known.
#[derive(Debug, Copy, Clone, PartialEq, Eq, Structural)]
pub enum FounderAction {
    Nothing,
    /// Start the gnome's own swarm (it founds it).
    StartOwnSwarm,
    /// Make the gnome's own swarm the active one.
    ActivateOwnSwarm,
}

/// The founder `f_id` of a joined swarm is known to the gnome `my_id`,
/// whose own swarm was started (`own_started`) or not: where another gnome
/// founded it, the gnome's own swarm is started if it was not, else made
/// active; where the gnome founded it, its own swarm is there. Returns
/// whether the own swarm is started now, and the action.
pub fn founder_determined(own_started: bool, my_id: GnomeId, f_id: GnomeId) -> (r: (bool, FounderAction))
    ensures
        f_id != my_id && !own_started ==> r == (true, FounderAction::StartOwnSwarm),
        f_id != my_id && own_started ==> r == (true, FounderAction::ActivateOwnSwarm),
        f_id == my_id ==> r == (true, FounderAction::Nothing),
{
    if f_id.0 != my_id.0 {
        if !own_started {
            (true, FounderAction::StartOwnSwarm)
        } else {
            (true, FounderAction::ActivateOwnSwarm)
        }
    } else {
        (true, FounderAction::Nothing)
    }
}

/// A swarm named `s_name` became available (and is joined): the gnome's
/// own swarm counts as started once one founded by the gnome is there.
pub fn new_swarm_available(own_started: bool, my_id: GnomeId, s_name: &SwarmName) -> (r: bool)
    ensures
        r == (own_started || s_name.founder == my_id),
{
    own_started || s_name.founder.0 == my_id.0
}

} // verus!
