//! Storage policies of a swarm, and the conditions under which a policy
//! applies.

use vstd::prelude::*;
use crate::app_type::{string_of, AppType};
use crate::swarm::{GnomeId, SwarmName};

verus! {

/// What of a swarm's contents is kept on disk.
#[derive(Debug, Copy, Clone, PartialEq, Eq, Structural)]
pub enum StoragePolicy {
    All,
    Datastore,
    Manifest,
    FirstPages,
    MatchOrFirstPages,
    MatchOrForget,
    MatchAndManifestOrFirstPages,
    MatchAndManifestOrForget,
    Forget,
}

impl StoragePolicy {
    /// The policy numbered `id`; every number from 8 on names `Forget`.
    pub open spec fn spec_get(id: int) -> StoragePolicy {
        if id == 0 {
            StoragePolicy::All
        } else if id == 1 {
            StoragePolicy::Datastore
        } else if id == 2 {
            StoragePolicy::Manifest
        } else if id == 3 {
            StoragePolicy::FirstPages
        } else if id == 4 {
            StoragePolicy::MatchOrFirstPages
        } else if id == 5 {
            StoragePolicy::MatchOrForget
        } else if id == 6 {
            StoragePolicy::MatchAndManifestOrFirstPages
        } else if id == 7 {
            StoragePolicy::MatchAndManifestOrForget
        } else {
            StoragePolicy::Forget
        }
    }

    /// The number of the policy.
    pub open spec fn spec_id(self) -> nat {
        match self {
            StoragePolicy::All => 0,
            StoragePolicy::Datastore => 1,
            StoragePolicy::Manifest => 2,
            StoragePolicy::FirstPages => 3,
            StoragePolicy::MatchOrFirstPages => 4,
            StoragePolicy::MatchOrForget => 5,
            StoragePolicy::MatchAndManifestOrFirstPages => 6,
            StoragePolicy::MatchAndManifestOrForget => 7,
            StoragePolicy::Forget => 8,
        }
    }

    /// The name of the policy, as it is written in a configuration file.
    pub open spec fn name(self) -> Seq<char> {
        match self {
            StoragePolicy::All => "All"@,
            StoragePolicy::Datastore => "Datastore"@,
            StoragePolicy::Manifest => "Manifest"@,
            StoragePolicy::FirstPages => "FirstPages"@,
            StoragePolicy::MatchOrFirstPages => "MatchOrFirstPages"@,
            StoragePolicy::MatchOrForget => "MatchOrForget"@,
            StoragePolicy::MatchAndManifestOrFirstPages => "MatchAndManifestOrFirstPages"@,
            StoragePolicy::MatchAndManifestOrForget => "MatchAndManifestOrForget"@,
            StoragePolicy::Forget => "Forget"@,
        }
    }

    pub fn get(id: usize) -> (r: Self)
        ensures
            r == Self::spec_get(id as int),
    {
        match id {
            0 => StoragePolicy::All,
            1 => StoragePolicy::Datastore,
            2 => StoragePolicy::Manifest,
            3 => StoragePolicy::FirstPages,
            4 => StoragePolicy::MatchOrFirstPages,
            5 => StoragePolicy::MatchOrForget,
            6 => StoragePolicy::MatchAndManifestOrFirstPages,
            7 => StoragePolicy::MatchAndManifestOrForget,
            _o => StoragePolicy::Forget,
        }
    }

    pub fn get_string(&self) -> (r: String)
        ensures
            r@ == self.name(),
    {
        match self {
            StoragePolicy::All => string_of("All"),
            StoragePolicy::Datastore => string_of("Datastore"),
            StoragePolicy::Manifest => string_of("Manifest"),
            StoragePolicy::FirstPages => string_of("FirstPages"),
            StoragePolicy::MatchOrFirstPages => string_of("MatchOrFirstPages"),
            StoragePolicy::MatchOrForget => string_of("MatchOrForget"),
            StoragePolicy::MatchAndManifestOrFirstPages => string_of("MatchAndManifestOrFirstPages"),
            StoragePolicy::MatchAndManifestOrForget => string_of("MatchAndManifestOrForget"),
            StoragePolicy::Forget => string_of("Forget"),
        }
    }

    pub fn get_id(&self) -> (r: usize)
        ensures
            r == self.spec_id(),
    {
        match self {
            StoragePolicy::All => 0,
            StoragePolicy::Datastore => 1,
            StoragePolicy::Manifest => 2,
            StoragePolicy::FirstPages => 3,
            StoragePolicy::MatchOrFirstPages => 4,
            StoragePolicy::MatchOrForget => 5,
            StoragePolicy::MatchAndManifestOrFirstPages => 6,
            StoragePolicy::MatchAndManifestOrForget => 7,
            StoragePolicy::Forget => 8,
        }
    }

    /// The names of all policies, in the order of their numbers.
    pub fn string_vec() -> (r: Vec<String>)
        ensures
            r@.len() == 9,
            forall|i: int| 0 <= i < 9 ==> (#[trigger] r@[i])@ == Self::spec_get(i).name(),
    {
        let mut v: Vec<String> = Vec::new();
        let mut i: usize = 0;
        while i < 9
            invariant
                i <= 9,
                v@.len() == i,
                forall|k: int| 0 <= k < i ==> (#[trigger] v@[k])@ == Self::spec_get(k).name(),
            decreases 9 - i,
        {
            let p = Self::get(i);
            v.push(p.get_string());
            i += 1;
        }
        v
    }

    pub fn is_a_match_policy(&self) -> (r: bool)
        ensures
            r == (*self == StoragePolicy::MatchOrFirstPages || *self == StoragePolicy::MatchOrForget
                || *self == StoragePolicy::MatchAndManifestOrFirstPages
                || *self == StoragePolicy::MatchAndManifestOrForget),
    {
        match self {
            StoragePolicy::MatchOrFirstPages => true,
            StoragePolicy::MatchOrForget => true,
            StoragePolicy::MatchAndManifestOrFirstPages => true,
            StoragePolicy::MatchAndManifestOrForget => true,
            _other => false,
        }
    }
}

/// Numbering the policies and reading them back by number agree: every
/// policy is read back from its number.
pub proof fn lemma_policy_id_roundtrip(p: StoragePolicy)
    ensures
        StoragePolicy::spec_get(p.spec_id() as int) == p,
{
}

/// Whether content `c_id` is written to disk under `policy` (with the ids
/// that a search marked, `selected`), and up to which page: none of it under
/// `Forget`; the first 64 pages of the manifest (id 0) under `Datastore`;
/// the manifest whole under `Manifest`; the first 64 pages of the manifest
/// and page 0 of every other content under `FirstPages`; whole contents
/// that are marked (and the manifest, for the policies that name it) under
/// the match policies, page 0 of the rest where they fall back to first
/// pages; everything under `All`.
pub open spec fn store_decision(policy: StoragePolicy, selected: Seq<u16>, c_id: u16) -> (bool, u16) {
    let first = if c_id == 0 { 64u16 } else { 0u16 };
    let marked = selected.contains(c_id);
    match policy {
        StoragePolicy::Forget => (false, 0),
        StoragePolicy::Datastore => (c_id == 0, first),
        StoragePolicy::Manifest => if c_id == 0 { (true, u16::MAX) } else { (false, 0) },
        StoragePolicy::FirstPages => (true, first),
        StoragePolicy::MatchOrFirstPages => if marked { (true, u16::MAX) } else { (true, 0) },
        StoragePolicy::MatchOrForget => if marked { (true, u16::MAX) } else { (false, 0) },
        StoragePolicy::MatchAndManifestOrFirstPages => if c_id == 0 || marked {
            (true, u16::MAX)
        } else {
            (true, 0)
        },
        StoragePolicy::MatchAndManifestOrForget => if c_id == 0 || marked {
            (true, u16::MAX)
        } else {
            (false, 0)
        },
        StoragePolicy::All => (true, u16::MAX),
    }
}

/// Whether `c_id` occurs in `ids`.
fn contains_id(ids: &Vec<u16>, c_id: u16) -> (r: bool)
    ensures
        r == ids@.contains(c_id),
{
    let mut i: usize = 0;
    while i < ids.len()
        invariant
            i <= ids@.len(),
            forall|j: int| 0 <= j < i ==> ids@[j] != c_id,
        decreases ids@.len() - i,
    {
        if ids[i] == c_id {
            return true;
        }
        i += 1;
    }
    false
}

/// Whether content `c_id` is written to disk under the policy, and the
/// last page to write (see `store_decision`).
pub fn should_store_content_on_disk(policy: &(StoragePolicy, Vec<u16>), c_id: u16) -> (r: (bool, u16))
    ensures
        r == store_decision(policy.0, policy.1@, c_id),
{
    let default_p_count: u16 = if c_id == 0 { 64 } else { 0 };
    match policy.0 {
        StoragePolicy::Forget => (false, 0),
        StoragePolicy::Datastore => (c_id == 0, default_p_count),
        StoragePolicy::Manifest => if c_id == 0 { (true, u16::MAX) } else { (false, 0) },
        StoragePolicy::FirstPages => (true, default_p_count),
        StoragePolicy::MatchOrFirstPages => if contains_id(&policy.1, c_id) {
            (true, u16::MAX)
        } else {
            (true, 0)
        },
        StoragePolicy::MatchOrForget => if contains_id(&policy.1, c_id) {
            (true, u16::MAX)
        } else {
            (false, 0)
        },
        StoragePolicy::MatchAndManifestOrFirstPages => if c_id == 0 || contains_id(&policy.1, c_id) {
            (true, u16::MAX)
        } else {
            (true, 0)
        },
        StoragePolicy::MatchAndManifestOrForget => if c_id == 0 || contains_id(&policy.1, c_id) {
            (true, u16::MAX)
        } else {
            (false, 0)
        },
        StoragePolicy::All => (true, u16::MAX),
    }
}

/// Under every policy whose name includes the manifest, the manifest
/// (content 0) is stored whole, whatever a search marked.
pub proof fn lemma_manifest_policies_keep_manifest(policy: StoragePolicy, selected: Seq<u16>)
    requires
        policy == StoragePolicy::Manifest || policy == StoragePolicy::MatchAndManifestOrFirstPages
            || policy == StoragePolicy::MatchAndManifestOrForget,
    ensures
        store_decision(policy, selected, 0) == (true, u16::MAX),
{
}

/// Under every policy that matches, a content that a search marked is
/// stored whole.
pub proof fn lemma_match_policies_keep_marked(policy: StoragePolicy, selected: Seq<u16>, c_id: u16)
    requires
        policy == StoragePolicy::MatchOrFirstPages || policy == StoragePolicy::MatchOrForget
            || policy == StoragePolicy::MatchAndManifestOrFirstPages || policy == StoragePolicy::MatchAndManifestOrForget,
        selected.contains(c_id),
    ensures
        store_decision(policy, selected, c_id) == (true, u16::MAX),
{
}

/// Under the policies that match, a content that is not marked (and is
/// not the manifest, where the policy names the manifest) falls back: to
/// its first page where the policy ends in first pages, to nothing where it
/// ends in forgetting.
pub proof fn lemma_match_policies_fall_back(policy: StoragePolicy, selected: Seq<u16>, c_id: u16)
    requires
        policy == StoragePolicy::MatchOrFirstPages || policy == StoragePolicy::MatchOrForget
            || policy == StoragePolicy::MatchAndManifestOrFirstPages || policy == StoragePolicy::MatchAndManifestOrForget,
        !selected.contains(c_id),
        c_id != 0 || policy == StoragePolicy::MatchOrFirstPages || policy == StoragePolicy::MatchOrForget,
    ensures
        store_decision(policy, selected, c_id) == if policy == StoragePolicy::MatchOrFirstPages
            || policy == StoragePolicy::MatchAndManifestOrFirstPages {
            (true, 0u16)
        } else {
            (false, 0u16)
        },
{
}

/// `Forget` stores nothing and `All` stores every content whole; under
/// `Manifest` and `Datastore` no content but the manifest is stored;
/// `Datastore` and `FirstPages` store the first 64 pages of the manifest,
/// and `FirstPages` page 0 of every other content.
pub proof fn lemma_fixed_policies(selected: Seq<u16>, c_id: u16)
    ensures
        !store_decision(StoragePolicy::Forget, selected, c_id).0,
        store_decision(StoragePolicy::All, selected, c_id) == (true, u16::MAX),
        c_id != 0 ==> !store_decision(StoragePolicy::Manifest, selected, c_id).0
            && !store_decision(StoragePolicy::Datastore, selected, c_id).0,
        store_decision(StoragePolicy::Datastore, selected, 0) == (true, 64u16),
        store_decision(StoragePolicy::FirstPages, selected, 0) == (true, 64u16),
        c_id != 0 ==> store_decision(StoragePolicy::FirstPages, selected, c_id) == (true, 0u16),
{
}

/// The contents among the first `n` that the policy stores, in order, each
/// with the last page to write (see `store_decision`).
pub open spec fn stored_plan(policy: StoragePolicy, selected: Seq<u16>, n: nat) -> Seq<(u16, u16)>
    decreases n,
{
    if n == 0 {
        Seq::empty()
    } else {
        let prev = stored_plan(policy, selected, (n - 1) as nat);
        let d = store_decision(policy, selected, (n - 1) as u16);
        if d.0 {
            prev.push(((n - 1) as u16, d.1))
        } else {
            prev
        }
    }
}

/// Which of the first `count` contents of a swarm to write to disk under
/// the policy, each with the last page to write: none under `Forget`, only
/// the first under `Datastore` (see `store_decision`).
pub fn contents_to_store(policy: &(StoragePolicy, Vec<u16>), count: u16) -> (r: Vec<(u16, u16)>)
    ensures
        r@ == stored_plan(policy.0, policy.1@, count as nat),
{
    let mut out: Vec<(u16, u16)> = Vec::new();
    if let StoragePolicy::Forget = policy.0 {
        proof {
            lemma_forget_stores_none(policy.1@, count as nat);
        }
        return out;
    }
    let mut c_id: u16 = 0;
    while c_id < count
        invariant
            c_id <= count,
            out@ == stored_plan(policy.0, policy.1@, c_id as nat),
        decreases count - c_id,
    {
        let (store, max_page) = should_store_content_on_disk(policy, c_id);
        if store {
            out.push((c_id, max_page));
        }
        c_id += 1;
    }
    out
}

proof fn lemma_forget_stores_none(selected: Seq<u16>, n: nat)
    ensures
        stored_plan(StoragePolicy::Forget, selected, n) == Seq::<(u16, u16)>::empty(),
    decreases n,
{
    if n > 0 {
        lemma_forget_stores_none(selected, (n - 1) as nat);
    }
}

/// A condition on a swarm under which a storage policy is chosen for it.
#[derive(Debug)]
pub enum StorageCondition {
    IamFounder,
    FounderIs(GnomeId),
    SwarmName(SwarmName),
    CatalogApp,
    ForumApp,
    SearchMatch,
    Default,
}

impl StorageCondition {
    /// The number of the condition's kind.
    pub open spec fn spec_id(&self) -> nat {
        match self {
            StorageCondition::IamFounder => 0,
            StorageCondition::FounderIs(_) => 1,
            StorageCondition::SwarmName(_) => 2,
            StorageCondition::CatalogApp => 3,
            StorageCondition::ForumApp => 4,
            StorageCondition::SearchMatch => 5,
            StorageCondition::Default => 6,
        }
    }

    /// The name of a condition's kind.
    pub open spec fn kind_name(id: int) -> Seq<char> {
        if id == 0 {
            "IamFounder"@
        } else if id == 1 {
            "FounderIs"@
        } else if id == 2 {
            "SwarmName"@
        } else if id == 3 {
            "CatalogApp"@
        } else if id == 4 {
            "ForumApp"@
        } else if id == 5 {
            "SearchMatch"@
        } else {
            "Default"@
        }
    }

    /// The condition of kind `id`, with a zero founder and an empty name
    /// where the kind carries them; numbers from 6 on give `Default`.
    pub fn get(id: usize) -> (r: Self)
        ensures
            r.spec_id() == if id < 6 { id as nat } else { 6 },
            r matches StorageCondition::FounderIs(g) ==> g.0 == 0,
            r matches StorageCondition::SwarmName(s) ==> s.founder.0 == 0 && s.name@.len() == 0,
    {
        match id {
            0 => StorageCondition::IamFounder,
            1 => StorageCondition::FounderIs(GnomeId(0)),
            2 => StorageCondition::SwarmName(SwarmName { founder: GnomeId(0), name: String::new() }),
            3 => StorageCondition::CatalogApp,
            4 => StorageCondition::ForumApp,
            5 => StorageCondition::SearchMatch,
            _o => StorageCondition::Default,
        }
    }

    pub fn get_id(&self) -> (r: usize)
        ensures
            r == self.spec_id(),
    {
        match self {
            StorageCondition::IamFounder => 0,
            StorageCondition::FounderIs(_id) => 1,
            StorageCondition::SwarmName(_n) => 2,
            StorageCondition::CatalogApp => 3,
            StorageCondition::ForumApp => 4,
            StorageCondition::SearchMatch => 5,
            StorageCondition::Default => 6,
        }
    }

    /// The names of the kinds of conditions, in the order of their numbers.
    pub fn string_vec() -> (r: Vec<String>)
        ensures
            r@.len() == 7,
            forall|i: int| 0 <= i < 7 ==> (#[trigger] r@[i])@ == Self::kind_name(i),
    {
        let mut v: Vec<String> = Vec::new();
        v.push(string_of("IamFounder"));
        v.push(string_of("FounderIs"));
        v.push(string_of("SwarmName"));
        v.push(string_of("CatalogApp"));
        v.push(string_of("ForumApp"));
        v.push(string_of("SearchMatch"));
        v.push(string_of("Default"));
        v
    }

    /// The condition with the founder and name replaced by those given,
    /// where the condition carries them.
    pub fn update(&self, gid_opt: Option<GnomeId>, n_opt: Option<String>) -> (r: Self)
        ensures
            r.spec_id() == self.spec_id(),
            self matches StorageCondition::FounderIs(old) ==> (r matches StorageCondition::FounderIs(g)
                && g.0 == (if gid_opt is Some { (gid_opt->0).0 } else { old.0 })),
            self matches StorageCondition::SwarmName(old) ==> (r matches StorageCondition::SwarmName(s)
                && s.founder.0 == (if gid_opt is Some { (gid_opt->0).0 } else { old.founder.0 })
                && s.name@ == (if n_opt is Some { n_opt->0@ } else { old.name@ })),
    {
        match self {
            StorageCondition::FounderIs(old_gid) => {
                match gid_opt {
                    Some(new_gid) => StorageCondition::FounderIs(new_gid),
                    None => StorageCondition::FounderIs(*old_gid),
                }
            },
            StorageCondition::SwarmName(old_name) => {
                let founder = match gid_opt {
                    Some(g) => g,
                    None => old_name.founder,
                };
                let name = match n_opt {
                    Some(n) => n,
                    None => old_name.name.clone(),
                };
                StorageCondition::SwarmName(SwarmName { founder, name })
            },
            StorageCondition::IamFounder => StorageCondition::IamFounder,
            StorageCondition::CatalogApp => StorageCondition::CatalogApp,
            StorageCondition::ForumApp => StorageCondition::ForumApp,
            StorageCondition::SearchMatch => StorageCondition::SearchMatch,
            StorageCondition::Default => StorageCondition::Default,
        }
    }

    /// Whether the condition holds of swarm `s_name` of application type
    /// `app_type`, as seen by gnome `my_id`.
    pub open spec fn spec_is_met(
        &self,
        my_id: GnomeId,
        app_type: Option<AppType>,
        s_name: SwarmName,
        marked: bool,
    ) -> bool {
        match self {
            StorageCondition::IamFounder => my_id.0 == s_name.founder.0,
            StorageCondition::FounderIs(g) => g.0 == s_name.founder.0,
            StorageCondition::SwarmName(s) => s.founder.0 == s_name.founder.0 && s.name@ == s_name.name@,
            StorageCondition::CatalogApp => app_type == Some(AppType::Catalog),
            StorageCondition::ForumApp => app_type == Some(AppType::Forum),
            StorageCondition::SearchMatch => marked,
            StorageCondition::Default => true,
        }
    }

    pub fn is_met(
        &self,
        my_id: GnomeId,
        app_type: Option<AppType>,
        s_name: &SwarmName,
        is_any_content_marked_by_search_engine: bool,
    ) -> (r: bool)
        ensures
            r == self.spec_is_met(my_id, app_type, *s_name, is_any_content_marked_by_search_engine),
    {
        match self {
            StorageCondition::IamFounder => my_id.0 == s_name.founder.0,
            StorageCondition::FounderIs(g_id) => g_id.0 == s_name.founder.0,
            StorageCondition::SwarmName(s_n) => {
                s_n.founder.0 == s_name.founder.0 && crate::app_type::str_eq(
                    s_n.name.as_str(),
                    s_name.name.as_str(),
                )
            },
            StorageCondition::CatalogApp => {
                match app_type {
                    Some(a_t) => a_t.is_catalog(),
                    None => false,
                }
            },
            StorageCondition::ForumApp => {
                match app_type {
                    Some(a_t) => a_t.is_forum(),
                    None => false,
                }
            },
            StorageCondition::SearchMatch => is_any_content_marked_by_search_engine,
            StorageCondition::Default => true,
        }
    }
}

/// A condition on a swarm's name holds of a swarm exactly when both the
/// founder and the name are those of the swarm; one on its founder, when
/// the founder is the one named; `IamFounder`, when the gnome asking
/// founded the swarm; an application condition, when the swarm runs that
/// application; `SearchMatch`, when a search marked some content; and
/// `Default` always.
pub proof fn lemma_swarm_conditions_met(
    c: StorageCondition,
    my_id: GnomeId,
    app_type: Option<AppType>,
    s_name: SwarmName,
    marked: bool,
)
    ensures
        c matches StorageCondition::SwarmName(s) ==> (c.spec_is_met(my_id, app_type, s_name, marked) <==> (
        s.founder.0 == s_name.founder.0 && s.name@ == s_name.name@)),
        c matches StorageCondition::FounderIs(g) ==> (c.spec_is_met(my_id, app_type, s_name, marked) <==> g.0
            == s_name.founder.0),
        c is IamFounder ==> (c.spec_is_met(my_id, app_type, s_name, marked) <==> my_id.0 == s_name.founder.0),
        c is SearchMatch ==> (c.spec_is_met(my_id, app_type, s_name, marked) <==> marked),
        c is CatalogApp ==> (c.spec_is_met(my_id, app_type, s_name, marked) <==> app_type == Some(AppType::Catalog)),
        c is ForumApp ==> (c.spec_is_met(my_id, app_type, s_name, marked) <==> app_type == Some(AppType::Forum)),
        c is Default ==> c.spec_is_met(my_id, app_type, s_name, marked),
{
}

} // verus!
