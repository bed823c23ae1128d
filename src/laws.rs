//! Laws of the decision engine, stated over the models that the contracts of
//! its functions use, and proved.
use vstd::prelude::*;

use crate::acm::Acm;
use crate::decision::{cached_decision, model_permits, AcmModel};
use crate::error::{PdpError, PipError};
use crate::pattern::{is_glob, match_key, path_matches, rules_match, segment_matches, Segments};
use crate::trie::Trie;

verus! {

/// Deny precedence: a request matched by some deny rule is refused, however
/// many allow rules match it, and however specific they are.
pub proof fn lemma_deny_precedence(acm: &Acm, action: Seq<char>, resource: Seq<char>)
    requires
        rules_match(acm.deny_rules(), match_key(action, resource)),
        rules_match(acm.allow_rules(), match_key(action, resource)),
    ensures
        !acm.permits(action, resource),
{
}

/// Default deny: a model without rules, as `Acm::new` makes it, refuses every
/// request.
pub proof fn lemma_default_deny(acm: &Acm, action: Seq<char>, resource: Seq<char>)
    requires
        acm.allow_rules() == Set::<Segments>::empty(),
        acm.deny_rules() == Set::<Segments>::empty(),
    ensures
        !acm.permits(action, resource),
{
}

/// A pattern without the wildcard is literal.
pub open spec fn all_literal(key: Segments) -> bool {
    forall|i: int| 0 <= i < key.len() ==> !is_glob(#[trigger] key[i])
}

/// Literal exactness, granting side: an allowed rule whose segments are all
/// literal grants its own request, unless a deny rule matches it.
pub proof fn lemma_literal_rule_grants_itself(acm: &Acm, action: Seq<char>, resource: Seq<char>)
    requires
        acm.allow_rules().contains(match_key(action, resource)),
        all_literal(match_key(action, resource)),
        !rules_match(acm.deny_rules(), match_key(action, resource)),
    ensures
        acm.permits(action, resource),
{
    let key = match_key(action, resource);
    assert(path_matches(key, key));
}

/// Literal exactness, refusing side: when the only allow rule is all literal,
/// a granted request has exactly that rule's segments.
pub proof fn lemma_literal_rule_matches_only_itself(
    acm: &Acm,
    rule: Segments,
    action: Seq<char>,
    resource: Seq<char>,
)
    requires
        acm.allow_rules() == Set::<Segments>::empty().insert(rule),
        all_literal(rule),
        acm.permits(action, resource),
    ensures
        match_key(action, resource) == rule,
{
    let key = match_key(action, resource);
    let p = choose|p: Segments| #[trigger] acm.allow_rules().contains(p) && path_matches(p, key);
    assert(p == rule);
    assert forall|i: int| 0 <= i < key.len() implies key[i] == rule[i] by {
        assert(segment_matches(rule[i], key[i]));
    }
    assert(key =~= rule);
}

/// A pattern matches exactly one segment: a granted request has as many
/// segments as some allow rule, so no wildcard stands for several segments.
pub proof fn lemma_segment_counts_match(acm: &Acm, action: Seq<char>, resource: Seq<char>)
    requires
        acm.permits(action, resource),
    ensures
        exists|p: Segments|
            #[trigger] acm.allow_rules().contains(p) && p.len() == match_key(action, resource).len(),
{
    let key = match_key(action, resource);
    let p = choose|p: Segments| #[trigger] acm.allow_rules().contains(p) && path_matches(p, key);
    assert(acm.allow_rules().contains(p) && p.len() == key.len());
}

/// Idempotent insertion: after inserting a rule path into a trie, inserting
/// it again leaves every lookup with the answer it had after the first
/// insertion.
pub proof fn lemma_insert_idempotent(base: &Trie, once: &Trie, twice: &Trie, key: Segments, query: Segments)
    requires
        once.rules() == base.rules().insert(key),
        twice.rules() == once.rules().insert(key),
    ensures
        twice.rules() == once.rules(),
        rules_match(twice.rules(), query) == rules_match(once.rules(), query),
{
    assert(twice.rules() =~= once.rules());
}

/// The result of one decision for `principal`, and the cache after it, when a
/// miss loads `loaded`.
pub open spec fn decide_outcome(
    cache: Map<Seq<char>, AcmModel>,
    principal: Seq<char>,
    action: Seq<char>,
    resource: Seq<char>,
    loaded: Result<AcmModel, PipError>,
) -> (Result<bool, PdpError>, Map<Seq<char>, AcmModel>) {
    match cached_decision(cache, principal, action, resource) {
        Some(granted) => (Ok(granted), cache),
        None => match loaded {
            Ok(m) => (Ok(model_permits(m, action, resource)), cache.insert(principal, m)),
            Err(e) => (Err(PdpError::Pip(e)), cache),
        },
    }
}

/// Cache stability: two decisions in a row for the same request, with the
/// principal's policy data unchanged in between, have the same result.
pub proof fn lemma_cache_stability(
    cache: Map<Seq<char>, AcmModel>,
    principal: Seq<char>,
    action: Seq<char>,
    resource: Seq<char>,
    loaded: Result<AcmModel, PipError>,
)
    ensures
        ({
            let first = decide_outcome(cache, principal, action, resource, loaded);
            let second = decide_outcome(first.1, principal, action, resource, loaded);
            second.0 == first.0
        }),
{
    if !cache.contains_key(principal) {
        if let Ok(m) = loaded {
            assert(cache.insert(principal, m).contains_key(principal));
            assert(cache.insert(principal, m)[principal] == m);
        }
    }
}

} // verus!
