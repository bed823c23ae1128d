//! The access control model: an allow trie and a deny trie over match keys,
//! combined so that a matching deny rule always wins.
use vstd::prelude::*;

use crate::compiler::{apply_role, pair_key, policies_valid, reports, role_fails_at, role_keys_before};
use crate::error::ConfigurationError;
use crate::pattern::{
    key_segments, match_key, rules_match, split_on, split_str, views_of, Segments,
    ACTION_SEPARATOR, RESOURCE_SEPARATOR,
};
use crate::role::{effect_keys, Effect, Role};
use crate::trie::{first_invalid_pattern, key_is_valid, Trie};

verus! {

/// The decision for a match key: some allow rule matches it and no deny rule
/// does.
pub open spec fn decision(allow: Set<Segments>, deny: Set<Segments>, key: Segments) -> bool {
    !rules_match(deny, key) && rules_match(allow, key)
}

/// An access control model: the allow rules and the deny rules, each a set of
/// rule paths of segment patterns.
pub struct Acm {
    allow: Trie,
    deny: Trie,
}

/// The name under which the model is also known.
pub type ACM = Acm;

impl Default for Acm {
    fn default() -> (r: Acm)
        ensures
            r.allow_rules() == Set::<Segments>::empty(),
            r.deny_rules() == Set::<Segments>::empty(),
    {
        Acm::new()
    }
}

impl Acm {
    #[verifier::type_invariant]
    spec fn inv(self) -> bool {
        self.allow.wf() && self.deny.wf()
    }

    /// The match keys of the rules added by `allow`.
    pub closed spec fn allow_rules(&self) -> Set<Segments> {
        self.allow.rules()
    }

    /// The match keys of the rules added by `deny`.
    pub closed spec fn deny_rules(&self) -> Set<Segments> {
        self.deny.rules()
    }

    /// Whether the model grants `action` on `resource`.
    pub open spec fn permits(&self, action: Seq<char>, resource: Seq<char>) -> bool {
        decision(self.allow_rules(), self.deny_rules(), match_key(action, resource))
    }

    /// A model with no rules.
    pub fn new() -> (r: Acm)
        ensures
            r.allow_rules() == Set::<Segments>::empty(),
            r.deny_rules() == Set::<Segments>::empty(),
    {
        Acm { allow: Trie::new(), deny: Trie::new() }
    }

    /// The segments of an action, split on `:`.
    pub fn split_action(action: &str) -> (r: Vec<&str>)
        ensures
            views_of(r@) == split_on(action@, ACTION_SEPARATOR),
    {
        split_str(action, ACTION_SEPARATOR)
    }

    /// The segments of a resource path, split on `/`.
    pub fn split_resource_path(resource_path: &str) -> (r: Vec<&str>)
        ensures
            views_of(r@) == split_on(resource_path@, RESOURCE_SEPARATOR),
    {
        split_str(resource_path, RESOURCE_SEPARATOR)
    }

    /// Adds an allow rule for the `action` and `resource_path` patterns. Fails,
    /// changing nothing, when one of their segments holds the wildcard but is
    /// not a valid glob.
    pub fn allow(&mut self, action: &str, resource_path: &str) -> (r: Result<(), ConfigurationError>)
        ensures
            r is Ok <==> key_is_valid(match_key(action@, resource_path@)),
            r is Ok ==> final(self).allow_rules() == old(self).allow_rules().insert(
                match_key(action@, resource_path@),
            ),
            r is Err ==> final(self).allow_rules() == old(self).allow_rules(),
            final(self).deny_rules() == old(self).deny_rules(),
            r matches Err(ConfigurationError::InvalidGlob(p)) ==> first_invalid_pattern(
                match_key(action@, resource_path@),
                p@,
            ),
    {
        proof {
            use_type_invariant(&*self);
        }
        let segments = key_segments(action, resource_path);
        let mut trie = Trie::new();
        core::mem::swap(&mut self.allow, &mut trie);
        let r = trie.insert(segments.as_slice());
        self.allow = trie;
        r
    }

    /// Adds a deny rule for the `action` and `resource_path` patterns. Fails,
    /// changing nothing, when one of their segments holds the wildcard but is
    /// not a valid glob.
    pub fn deny(&mut self, action: &str, resource_path: &str) -> (r: Result<(), ConfigurationError>)
        ensures
            r is Ok <==> key_is_valid(match_key(action@, resource_path@)),
            r is Ok ==> final(self).deny_rules() == old(self).deny_rules().insert(
                match_key(action@, resource_path@),
            ),
            r is Err ==> final(self).deny_rules() == old(self).deny_rules(),
            final(self).allow_rules() == old(self).allow_rules(),
            r matches Err(ConfigurationError::InvalidGlob(p)) ==> first_invalid_pattern(
                match_key(action@, resource_path@),
                p@,
            ),
    {
        proof {
            use_type_invariant(&*self);
        }
        let segments = key_segments(action, resource_path);
        let mut trie = Trie::new();
        core::mem::swap(&mut self.deny, &mut trie);
        let r = trie.insert(segments.as_slice());
        self.deny = trie;
        r
    }

    /// Whether `action` is granted on `resource_path`: false as soon as a deny
    /// rule matches, otherwise whether an allow rule matches.
    pub fn enforce(&self, action: &str, resource_path: &str) -> (r: bool)
        ensures
            r == self.permits(action@, resource_path@),
    {
        proof {
            use_type_invariant(self);
        }
        let segments = key_segments(action, resource_path);
        self.decide_segments(segments.as_slice())
    }

    /// The decision for a match key given as segments.
    fn decide_segments(&self, segments: &[&str]) -> (r: bool)
        requires
            self.allow.wf(),
            self.deny.wf(),
        ensures
            r == decision(self.allow_rules(), self.deny_rules(), views_of(segments@)),
    {
        if self.deny.contains(segments) {
            return false;
        }
        self.allow.contains(segments)
    }

    /// Compiles the policies of `role` onto this model; see
    /// [`crate::compiler::apply_role`].
    pub fn apply_role(&mut self, role: &Role) -> (r: Result<(), ConfigurationError>)
        ensures
            r is Ok <==> policies_valid(role.policies@),
            r is Ok ==> final(self).allow_rules() == old(self).allow_rules().union(
                effect_keys(role.policies@, Effect::Allow),
            ),
            r is Ok ==> final(self).deny_rules() == old(self).deny_rules().union(
                effect_keys(role.policies@, Effect::Deny),
            ),
            r matches Err(e) ==> exists|p: int, ai: int, ri: int|
                #[trigger] role_fails_at(role.policies@, p, ai, ri) && reports(
                    e,
                    pair_key(role.policies@[p], ai, ri),
                ) && final(self).allow_rules() == old(self).allow_rules().union(
                    role_keys_before(role.policies@, Effect::Allow, p, ai, ri),
                ) && final(self).deny_rules() == old(self).deny_rules().union(
                    role_keys_before(role.policies@, Effect::Deny, p, ai, ri),
                ),
    {
        apply_role(self, role)
    }

    /// The same decision as [`Acm::enforce`].
    pub fn authorized(&self, action: &str, resource_path: &str) -> (r: bool)
        ensures
            r == self.permits(action@, resource_path@),
    {
        self.enforce(action, resource_path)
    }

    /// The decision for each (action, resource path) request, in order.
    pub fn enforce_batch(&self, requests: &[(&str, &str)]) -> (r: Vec<bool>)
        ensures
            r@ == requests@.map_values(|q: (&str, &str)| self.permits(q.0@, q.1@)),
    {
        proof {
            use_type_invariant(self);
        }
        let mut results: Vec<bool> = Vec::with_capacity(requests.len());
        let mut segments: Vec<&str> = Vec::new();
        let mut i: usize = 0;
        while i < requests.len()
            invariant
                self.allow.wf(),
                self.deny.wf(),
                i <= requests@.len(),
                results@ == requests@.take(i as int).map_values(
                    |q: (&str, &str)| self.permits(q.0@, q.1@),
                ),
            decreases requests@.len() - i,
        {
            let (action, resource_path) = requests[i];
            segments.clear();
            let mut action_segments = split_str(action, ACTION_SEPARATOR);
            let mut resource_segments = split_str(resource_path, RESOURCE_SEPARATOR);
            let ghost a = action_segments@;
            let ghost b = resource_segments@;
            segments.append(&mut action_segments);
            segments.append(&mut resource_segments);
            proof {
                assert(views_of(segments@) =~= views_of(a) + views_of(b));
            }
            let granted = self.decide_segments(segments.as_slice());
            results.push(granted);
            proof {
                assert(requests@.take(i + 1) =~= requests@.take(i as int).push(requests@[i as int]));
                assert(results@ =~= requests@.take(i + 1).map_values(
                    |q: (&str, &str)| self.permits(q.0@, q.1@),
                ));
            }
            i = i + 1;
        }
        proof {
            assert(requests@.take(i as int) =~= requests@);
        }
        results
    }
}

} // verus!
