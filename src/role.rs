//! Roles and policies: declarative permissions over action and resource
//! patterns.
use vstd::prelude::*;

use crate::pattern::{match_key, Segments};

verus! {

/// Whether a policy grants or refuses what it names.
#[derive(Debug, Clone, Copy, PartialEq, Eq)]
pub enum Effect {
    Allow,
    Deny,
}

/// A policy: an effect on every pair of one of its action patterns and one of
/// its resource patterns.
#[derive(Debug)]
pub struct Policy {
    pub effect: Effect,
    pub actions: Vec<String>,
    pub resources: Vec<String>,
}

/// A named role, holding an ordered list of policies.
#[derive(Debug)]
pub struct Role {
    pub name: String,
    pub description: String,
    pub policies: Vec<Policy>,
}

/// The views of a sequence of strings.
pub open spec fn string_views(v: Seq<String>) -> Seq<Seq<char>> {
    v.map_values(|s: String| s@)
}

/// The match keys of every pair of an action pattern and a resource pattern.
pub open spec fn pair_keys(actions: Seq<Seq<char>>, resources: Seq<Seq<char>>) -> Set<Segments> {
    Set::new(
        |k: Segments|
            exists|i: int, j: int|
                0 <= i < actions.len() && 0 <= j < resources.len() && k == #[trigger] match_key(
                    actions[i],
                    resources[j],
                ),
    )
}

/// The match keys of the policies among `policies` that have `effect`.
pub open spec fn effect_keys(policies: Seq<Policy>, effect: Effect) -> Set<Segments> {
    Set::new(
        |k: Segments|
            exists|p: int|
                0 <= p < policies.len() && policies[p].effect == effect && (
                #[trigger] policies[p].keys()).contains(k),
    )
}

/// The match keys of the policies of `roles` that have `effect`.
pub open spec fn roles_keys(roles: Seq<Role>, effect: Effect) -> Set<Segments> {
    Set::new(
        |k: Segments|
            exists|r: int|
                0 <= r < roles.len() && #[trigger] effect_keys(roles[r].policies@, effect).contains(
                    k,
                ),
    )
}

impl Policy {
    /// The match keys this policy expands to.
    pub open spec fn keys(&self) -> Set<Segments> {
        pair_keys(string_views(self.actions@), string_views(self.resources@))
    }

    /// A policy that allows each action pattern on each resource pattern.
    pub fn allow(actions: Vec<String>, resources: Vec<String>) -> (r: Policy)
        ensures
            r.effect == Effect::Allow,
            r.actions == actions,
            r.resources == resources,
    {
        Policy { effect: Effect::Allow, actions, resources }
    }

    /// A policy that denies each action pattern on each resource pattern.
    pub fn deny(actions: Vec<String>, resources: Vec<String>) -> (r: Policy)
        ensures
            r.effect == Effect::Deny,
            r.actions == actions,
            r.resources == resources,
    {
        Policy { effect: Effect::Deny, actions, resources }
    }
}

impl Role {
    /// A role with no policies.
    pub fn new(name: &str, description: &str) -> (r: Role)
        ensures
            r.name@ == name@,
            r.description@ == description@,
            r.policies@.len() == 0,
    {
        Role { name: name.to_owned(), description: description.to_owned(), policies: Vec::new() }
    }

    /// This role with `policy` added after its other policies.
    pub fn with_policy(self, policy: Policy) -> (r: Role)
        ensures
            r.name == self.name,
            r.description == self.description,
            r.policies@ == self.policies@.push(policy),
    {
        let mut role = self;
        role.policies.push(policy);
        role
    }
}

} // verus!
