//! The swarms this gnome takes part in, each by its name with its state:
//! the manager's table of swarms.

use vstd::prelude::*;
use crate::swap::SwarmState;
use crate::swarm::{SwarmID, SwarmName};

verus! {

/// A swarm name as a value: its founder and text.
pub open spec fn name_key(n: SwarmName) -> (u64, Seq<char>) {
    (n.founder.0, n.name@)
}

/// The first entry from `i` on whose name is `key`, or -1.
pub open spec fn find_name(es: Seq<(SwarmName, SwarmState)>, key: (u64, Seq<char>), i: int) -> int
    decreases es.len() - i,
{
    if i < 0 || i >= es.len() {
        -1
    } else if name_key(es[i].0) == key {
        i
    } else {
        find_name(es, key, i + 1)
    }
}

/// The first entry from `i` on of swarm `s_id`, or -1.
pub open spec fn find_id(es: Seq<(SwarmName, SwarmState)>, s_id: SwarmID, i: int) -> int
    decreases es.len() - i,
{
    if i < 0 || i >= es.len() {
        -1
    } else if es[i].1.s_id == s_id {
        i
    } else {
        find_id(es, s_id, i + 1)
    }
}

/// The first entry from `i` on that can be swapped out (see
/// `SwarmState::spec_swappable`), or -1.
pub open spec fn find_swappable(es: Seq<(SwarmName, SwarmState)>, active: SwarmID, i: int) -> int
    decreases es.len() - i,
{
    if i < 0 || i >= es.len() {
        -1
    } else if es[i].1.spec_swappable(active) {
        i
    } else {
        find_swappable(es, active, i + 1)
    }
}

proof fn lemma_find_name(es: Seq<(SwarmName, SwarmState)>, key: (u64, Seq<char>), i: int)
    requires
        0 <= i <= es.len(),
    ensures
        -1 <= find_name(es, key, i) < es.len(),
        find_name(es, key, i) >= 0 ==> i <= find_name(es, key, i) && name_key(es[find_name(es, key, i)].0) == key,
        forall|k: int| i <= k < es.len() && (find_name(es, key, i) < 0 || k < find_name(es, key, i)) ==> name_key(
            #[trigger] es[k].0,
        ) != key,
    decreases es.len() - i,
{
    if i < es.len() && name_key(es[i].0) != key {
        lemma_find_name(es, key, i + 1);
    }
}

proof fn lemma_find_id(es: Seq<(SwarmName, SwarmState)>, s_id: SwarmID, i: int)
    requires
        0 <= i <= es.len(),
    ensures
        -1 <= find_id(es, s_id, i) < es.len(),
        find_id(es, s_id, i) >= 0 ==> i <= find_id(es, s_id, i) && es[find_id(es, s_id, i)].1.s_id == s_id,
        forall|k: int| i <= k < es.len() && (find_id(es, s_id, i) < 0 || k < find_id(es, s_id, i)) ==> (#[trigger] es[k]).1.s_id
            != s_id,
    decreases es.len() - i,
{
    if i < es.len() && es[i].1.s_id != s_id {
        lemma_find_id(es, s_id, i + 1);
    }
}

proof fn lemma_find_swappable(es: Seq<(SwarmName, SwarmState)>, active: SwarmID, i: int)
    requires
        0 <= i <= es.len(),
    ensures
        -1 <= find_swappable(es, active, i) < es.len(),
        find_swappable(es, active, i) >= 0 ==> i <= find_swappable(es, active, i) && es[find_swappable(
            es,
            active,
            i,
        )].1.spec_swappable(active),
        forall|k: int| i <= k < es.len() && (find_swappable(es, active, i) < 0 || k < find_swappable(es, active, i))
            ==> !(#[trigger] es[k]).1.spec_swappable(active),
    decreases es.len() - i,
{
    if i < es.len() && !es[i].1.spec_swappable(active) {
        lemma_find_swappable(es, active, i + 1);
    }
}

/// The swarms this gnome takes part in, by name; no name twice.
#[derive(Debug)]
pub struct SwarmBook {
    pub entries: Vec<(SwarmName, SwarmState)>,
}

impl SwarmBook {
    /// No two entries have the same name.
    pub open spec fn wf(&self) -> bool {
        forall|i: int, j: int| 0 <= i < j < self.entries@.len() ==> name_key(#[trigger] self.entries@[i].0) != name_key(
            #[trigger] self.entries@[j].0,
        )
    }

    /// An empty book.
    pub fn new() -> (r: Self)
        ensures
            r.wf(),
            r.entries@.len() == 0,
    {
        SwarmBook { entries: Vec::new() }
    }

    /// How many swarms are listed.
    pub fn len(&self) -> (r: usize)
        ensures
            r == self.entries@.len(),
    {
        self.entries.len()
    }

    /// Where the swarm named `name` is listed, if it is.
    fn position_of(&self, name: &SwarmName) -> (r: Option<usize>)
        ensures
            find_name(self.entries@, name_key(*name), 0) < 0 ==> r is None,
            find_name(self.entries@, name_key(*name), 0) >= 0 ==> (r matches Some(i) && i as int == find_name(self.entries@, name_key(*name), 0)),
    {
        let ghost es = self.entries@;
        let ghost key = name_key(*name);
        let mut i: usize = 0;
        while i < self.entries.len()
            invariant
                es == self.entries@,
                key == name_key(*name),
                i <= es.len(),
                find_name(es, key, 0) == find_name(es, key, i as int),
            decreases es.len() - i,
        {
            let same = self.entries[i].0.equals(name);
            proof {
                if same {
                    assert(name_key(es[i as int].0) == key);
                } else {
                    assert(name_key(es[i as int].0) != key);
                }
            }
            if same {
                return Some(i);
            }
            i += 1;
        }
        None
    }

    /// Where swarm `s_id` is first listed, if it is.
    fn position_of_id(&self, s_id: SwarmID) -> (r: Option<usize>)
        ensures
            find_id(self.entries@, s_id, 0) < 0 ==> r is None,
            find_id(self.entries@, s_id, 0) >= 0 ==> (r matches Some(i) && i as int == find_id(self.entries@, s_id, 0)),
    {
        let ghost es = self.entries@;
        let mut i: usize = 0;
        while i < self.entries.len()
            invariant
                es == self.entries@,
                i <= es.len(),
                find_id(es, s_id, 0) == find_id(es, s_id, i as int),
            decreases es.len() - i,
        {
            if self.entries[i].1.s_id.0 == s_id.0 {
                assert(es[i as int].1.s_id == s_id);
                return Some(i);
            }
            i += 1;
        }
        None
    }

    /// The state of the swarm named `name`, if it is listed.
    pub fn get_swarm_state(&self, name: &SwarmName) -> (r: Option<SwarmState>)
        ensures
            ({
                let k = find_name(self.entries@, name_key(*name), 0);
                &&& k < 0 ==> r is None
                &&& k >= 0 ==> r == Some(self.entries@[k].1)
            }),
    {
        proof {
            lemma_find_name(self.entries@, name_key(*name), 0);
        }
        match self.position_of(name) {
            Some(i) => {
                let st = self.entries[i].1;
                Some(st)
            },
            None => None,
        }
    }

    /// The id of the swarm named `name`, if it is listed.
    pub fn get_swarm_id(&self, name: &SwarmName) -> (r: Option<SwarmID>)
        ensures
            ({
                let k = find_name(self.entries@, name_key(*name), 0);
                &&& k < 0 ==> r is None
                &&& k >= 0 ==> r == Some(self.entries@[k].1.s_id)
            }),
    {
        proof {
            lemma_find_name(self.entries@, name_key(*name), 0);
        }
        match self.position_of(name) {
            Some(i) => Some(self.entries[i].1.s_id),
            None => None,
        }
    }

    /// Whether swarm `s_id` is listed.
    pub fn has_swarm_id(&self, s_id: SwarmID) -> (r: bool)
        ensures
            r == (find_id(self.entries@, s_id, 0) >= 0),
    {
        self.position_of_id(s_id).is_some()
    }

    /// The name of swarm `s_id` (the first entry listing it), if it is
    /// listed.
    pub fn get_name(&self, s_id: SwarmID) -> (r: Option<SwarmName>)
        ensures
            ({
                let k = find_id(self.entries@, s_id, 0);
                &&& k < 0 ==> r is None
                &&& k >= 0 ==> (r matches Some(n) && name_key(n) == name_key(self.entries@[k].0))
            }),
    {
        proof {
            lemma_find_id(self.entries@, s_id, 0);
        }
        match self.position_of_id(s_id) {
            Some(i) => Some(self.entries[i].0.clone_name()),
            None => None,
        }
    }

    /// Lists the swarm named `name` with `state`, in place of its old state
    /// when it is listed already, else as the last entry.
    pub fn insert(&mut self, name: SwarmName, state: SwarmState)
        requires
            old(self).wf(),
        ensures
            final(self).wf(),
            ({
                let es = old(self).entries@;
                let k = find_name(es, name_key(name), 0);
                &&& k >= 0 ==> final(self).entries@.len() == es.len() && name_key(final(self).entries@[k].0) == name_key(name)
                    && final(self).entries@[k].1 == state
                    && forall|j: int| 0 <= j < es.len() && j != k ==> #[trigger] final(self).entries@[j] == es[j]
                &&& k < 0 ==> final(self).entries@.len() == es.len() + 1 && name_key(final(self).entries@[es.len() as int].0)
                    == name_key(name) && final(self).entries@[es.len() as int].1 == state && forall|j: int|
                    0 <= j < es.len() ==> #[trigger] final(self).entries@[j] == es[j]
            }),
    {
        let ghost es = self.entries@;
        proof {
            lemma_find_name(es, name_key(name), 0);
        }
        match self.position_of(&name) {
            Some(i) => {
                let n = self.entries[i].0.clone_name();
                self.entries.set(i, (n, state));
                proof {
                    assert forall|a: int, b: int| 0 <= a < b < self.entries@.len() implies name_key(
                        #[trigger] self.entries@[a].0,
                    ) != name_key(#[trigger] self.entries@[b].0) by {
                        assert(name_key(self.entries@[a].0) == name_key(es[a].0));
                        assert(name_key(self.entries@[b].0) == name_key(es[b].0));
                    }
                }
            },
            None => {
                self.entries.push((name, state));
                proof {
                    assert forall|a: int, b: int| 0 <= a < b < self.entries@.len() implies name_key(
                        #[trigger] self.entries@[a].0,
                    ) != name_key(#[trigger] self.entries@[b].0) by {
                        if b == es.len() {
                            assert(self.entries@[a] == es[a]);
                        } else {
                            assert(self.entries@[a] == es[a] && self.entries@[b] == es[b]);
                        }
                    }
                }
            },
        }
    }

    /// Takes the swarm named `name` off the list, and gives back its state.
    pub fn remove(&mut self, name: &SwarmName) -> (r: Option<SwarmState>)
        requires
            old(self).wf(),
        ensures
            final(self).wf(),
            ({
                let es = old(self).entries@;
                let k = find_name(es, name_key(*name), 0);
                &&& k < 0 ==> r is None && final(self).entries@ == es
                &&& k >= 0 ==> r == Some(es[k].1) && final(self).entries@ == es.remove(k)
            }),
    {
        let ghost es = self.entries@;
        proof {
            lemma_find_name(es, name_key(*name), 0);
        }
        match self.position_of(name) {
            Some(i) => {
                let (_n, st) = self.entries.remove(i);
                proof {
                    assert forall|a: int, b: int| 0 <= a < b < self.entries@.len() implies name_key(
                        #[trigger] self.entries@[a].0,
                    ) != name_key(#[trigger] self.entries@[b].0) by {
                        let ra = if a < i { a } else { a + 1 };
                        let rb = if b < i { b } else { b + 1 };
                        assert(self.entries@[a] == es[ra] && self.entries@[b] == es[rb]);
                    }
                }
                Some(st)
            },
            None => None,
        }
    }

    /// Marks swarm `s_id` (its first entry) synced; whether it can now be
    /// swapped out while `active` is the swarm the user works with.
    pub fn set_synced(&mut self, s_id: SwarmID, active: SwarmID) -> (r: bool)
        requires
            old(self).wf(),
        ensures
            final(self).wf(),
            ({
                let es = old(self).entries@;
                let k = find_id(es, s_id, 0);
                &&& k < 0 ==> !r && final(self).entries@ == es
                &&& k >= 0 ==> final(self).entries@ == es.update(k, (es[k].0, (SwarmState { is_synced: true, ..es[k].1 })))
                    && r == final(self).entries@[k].1.spec_swappable(active)
            }),
    {
        proof {
            lemma_find_id(self.entries@, s_id, 0);
        }
        self.set_flags(s_id, true, false, active)
    }

    /// Marks swarm `s_id` (its first entry) busy or not; whether it can now
    /// be swapped out while `active` is the swarm the user works with.
    pub fn set_busy(&mut self, s_id: SwarmID, is_busy: bool, active: SwarmID) -> (r: bool)
        requires
            old(self).wf(),
        ensures
            final(self).wf(),
            ({
                let es = old(self).entries@;
                let k = find_id(es, s_id, 0);
                &&& k < 0 ==> !r && final(self).entries@ == es
                &&& k >= 0 ==> final(self).entries@ == es.update(k, (es[k].0, (SwarmState { is_busy: is_busy, ..es[k].1 })))
                    && r == final(self).entries@[k].1.spec_swappable(active)
            }),
    {
        proof {
            lemma_find_id(self.entries@, s_id, 0);
        }
        self.set_flags(s_id, false, is_busy, active)
    }

    /// Sets synced (`synced_flag`) or the busy flag to `busy` of the first
    /// entry of swarm `s_id`.
    fn set_flags(&mut self, s_id: SwarmID, synced_flag: bool, busy: bool, active: SwarmID) -> (r: bool)
        requires
            old(self).wf(),
        ensures
            final(self).wf(),
            ({
                let es = old(self).entries@;
                let k = find_id(es, s_id, 0);
                let st = if k >= 0 {
                    if synced_flag {
                        (SwarmState { is_synced: true, ..es[k].1 })
                    } else {
                        (SwarmState { is_busy: busy, ..es[k].1 })
                    }
                } else {
                    es[0].1
                };
                &&& k < 0 ==> !r && final(self).entries@ == es
                &&& k >= 0 ==> final(self).entries@ == es.update(k, (es[k].0, st)) && r == st.spec_swappable(active)
            }),
    {
        let ghost es = self.entries@;
        proof {
            lemma_find_id(es, s_id, 0);
        }
        match self.position_of_id(s_id) {
            Some(i) => {
                let (n, mut st) = self.entries.remove(i);
                if synced_flag {
                    st.is_synced = true;
                } else {
                    st.is_busy = busy;
                }
                let r = st.swappable(active);
                self.entries.insert(i, (n, st));
                proof {
                    assert(self.entries@ =~= es.update(i as int, (es[i as int].0, st)));
                    assert forall|a: int, b: int| 0 <= a < b < self.entries@.len() implies name_key(
                        #[trigger] self.entries@[a].0,
                    ) != name_key(#[trigger] self.entries@[b].0) by {
                        assert(name_key(self.entries@[a].0) == name_key(es[a].0));
                        assert(name_key(self.entries@[b].0) == name_key(es[b].0));
                    }
                }
                r
            },
            None => false,
        }
    }

    /// The first listed swarm that can be swapped out while `active` is the
    /// swarm the user works with, with its id.
    pub fn ready_to_be_swapped(&self, active: SwarmID) -> (r: Option<(SwarmName, SwarmID)>)
        ensures
            ({
                let k = find_swappable(self.entries@, active, 0);
                &&& k < 0 ==> r is None
                &&& k >= 0 ==> (r matches Some((n, id)) && name_key(n) == name_key(self.entries@[k].0) && id
                    == self.entries@[k].1.s_id)
            }),
    {
        let ghost es = self.entries@;
        let mut i: usize = 0;
        while i < self.entries.len()
            invariant
                es == self.entries@,
                i <= es.len(),
                find_swappable(es, active, 0) == find_swappable(es, active, i as int),
            decreases es.len() - i,
        {
            if self.entries[i].1.swappable(active) {
                assert(es[i as int].1.spec_swappable(active));
                return Some((self.entries[i].0.clone_name(), self.entries[i].1.s_id));
            }
            i += 1;
        }
        None
    }
}

} // verus!
