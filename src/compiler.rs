//! The policy compiler: expands roles into allow and deny rules of a model,
//! one rule per pair of an action pattern and a resource pattern.
use vstd::prelude::*;

use crate::acm::Acm;
use crate::error::ConfigurationError;
use crate::pattern::{match_key, Segments};
use crate::role::{effect_keys, pair_keys, roles_keys, string_views, Effect, Policy, Role};
use crate::trie::{first_invalid_pattern, key_is_valid};

verus! {

/// Every match key of the policies is acceptable as a rule.
pub open spec fn policies_valid(policies: Seq<Policy>) -> bool {
    forall|p: int, k: Segments|
        0 <= p < policies.len() && #[trigger] policies[p].keys().contains(k) ==> key_is_valid(k)
}

/// Every match key of the roles is acceptable as a rule.
pub open spec fn roles_valid(roles: Seq<Role>) -> bool {
    forall|r: int| 0 <= r < roles.len() ==> policies_valid(#[trigger] roles[r].policies@)
}

/// The keys of the pairs that come before pair (`ai`, `ri`) in the order of
/// expansion: actions in the outer loop, resources in the inner one.
pub open spec fn keys_before(
    actions: Seq<Seq<char>>,
    resources: Seq<Seq<char>>,
    ai: int,
    ri: int,
) -> Set<Segments> {
    Set::new(
        |k: Segments|
            exists|i: int, j: int|
                0 <= i < actions.len() && 0 <= j < resources.len() && (i < ai || (i == ai && j
                    < ri)) && k == #[trigger] match_key(actions[i], resources[j]),
    )
}

/// The rules of `effect` in `acm`.
pub open spec fn rules_of(acm: &Acm, effect: Effect) -> Set<Segments> {
    match effect {
        Effect::Allow => acm.allow_rules(),
        Effect::Deny => acm.deny_rules(),
    }
}

/// The other effect.
pub open spec fn opposite(effect: Effect) -> Effect {
    match effect {
        Effect::Allow => Effect::Deny,
        Effect::Deny => Effect::Allow,
    }
}

/// The match key of pair (`ai`, `ri`) of `policy`.
pub open spec fn pair_key(policy: Policy, ai: int, ri: int) -> Segments {
    match_key(string_views(policy.actions@)[ai], string_views(policy.resources@)[ri])
}

/// The keys of the pairs of `policy` before pair (`ai`, `ri`).
pub open spec fn policy_keys_before(policy: Policy, ai: int, ri: int) -> Set<Segments> {
    keys_before(string_views(policy.actions@), string_views(policy.resources@), ai, ri)
}

/// Pair (`ai`, `ri`) is the first pair of `policy` whose key is not
/// acceptable.
pub open spec fn policy_fails_at(policy: Policy, ai: int, ri: int) -> bool {
    &&& 0 <= ai < policy.actions@.len()
    &&& 0 <= ri < policy.resources@.len()
    &&& !key_is_valid(pair_key(policy, ai, ri))
    &&& forall|k: Segments| #[trigger] policy_keys_before(policy, ai, ri).contains(k) ==> key_is_valid(k)
}

/// `e` reports the first unacceptable pattern of `key`.
pub open spec fn reports(e: ConfigurationError, key: Segments) -> bool {
    match e {
        ConfigurationError::InvalidGlob(p) => first_invalid_pattern(key, p@),
    }
}

/// Adds one rule per pair of the policy's action and resource patterns, of
/// the policy's effect. Fails on the first pair that is not acceptable.
pub fn apply_policy(acm: &mut Acm, policy: &Policy) -> (r: Result<(), ConfigurationError>)
    ensures
        r is Ok <==> forall|k: Segments| policy.keys().contains(k) ==> key_is_valid(k),
        r is Ok ==> rules_of(final(acm), policy.effect) == rules_of(old(acm), policy.effect).union(
            policy.keys(),
        ),
        r matches Err(e) ==> exists|ai: int, ri: int|
            #[trigger] policy_fails_at(*policy, ai, ri) && reports(e, pair_key(*policy, ai, ri))
                && rules_of(final(acm), policy.effect) == rules_of(old(acm), policy.effect).union(
                policy_keys_before(*policy, ai, ri),
            ),
        rules_of(final(acm), opposite(policy.effect)) == rules_of(old(acm), opposite(policy.effect)),
{
    let ghost actions = string_views(policy.actions@);
    let ghost resources = string_views(policy.resources@);
    let ghost effect = policy.effect;
    let ghost start = rules_of(acm, effect);
    let ghost other = rules_of(acm, opposite(effect));
    proof {
        assert(keys_before(actions, resources, 0, 0) =~= Set::<Segments>::empty());
    }
    let mut ai: usize = 0;
    while ai < policy.actions.len()
        invariant
            actions == string_views(policy.actions@),
            resources == string_views(policy.resources@),
            effect == policy.effect,
            ai <= actions.len(),
            rules_of(acm, effect) == start.union(keys_before(actions, resources, ai as int, 0)),
            rules_of(acm, opposite(effect)) == other,
            start == rules_of(old(acm), effect),
            other == rules_of(old(acm), opposite(effect)),
            forall|k: Segments|
                #[trigger] keys_before(actions, resources, ai as int, 0).contains(k) ==> key_is_valid(k),
        decreases actions.len() - ai,
    {
        let mut ri: usize = 0;
        while ri < policy.resources.len()
            invariant
                actions == string_views(policy.actions@),
                resources == string_views(policy.resources@),
                effect == policy.effect,
                ai < actions.len(),
                ri <= resources.len(),
                rules_of(acm, effect) == start.union(keys_before(actions, resources, ai as int, ri as int)),
                rules_of(acm, opposite(effect)) == other,
                start == rules_of(old(acm), effect),
                other == rules_of(old(acm), opposite(effect)),
                forall|k: Segments|
                    #[trigger] keys_before(actions, resources, ai as int, ri as int).contains(k)
                        ==> key_is_valid(k),
            decreases resources.len() - ri,
        {
            let action = policy.actions[ai].as_str();
            let resource = policy.resources[ri].as_str();
            let ghost key = match_key(actions[ai as int], resources[ri as int]);
            let result = match policy.effect {
                Effect::Allow => acm.allow(action, resource),
                Effect::Deny => acm.deny(action, resource),
            };
            proof {
                assert(policy.keys().contains(key));
            }
            if let Err(e) = result {
                proof {
                    assert(key == pair_key(*policy, ai as int, ri as int));
                    assert(policy_keys_before(*policy, ai as int, ri as int) == keys_before(
                        actions,
                        resources,
                        ai as int,
                        ri as int,
                    ));
                    assert(policy_fails_at(*policy, ai as int, ri as int));
                }
                return Err(e);
            }
            proof {
                assert(keys_before(actions, resources, ai as int, ri + 1) =~= keys_before(
                    actions,
                    resources,
                    ai as int,
                    ri as int,
                ).insert(key));
            }
            ri = ri + 1;
        }
        proof {
            assert(keys_before(actions, resources, ai + 1, 0) =~= keys_before(
                actions,
                resources,
                ai as int,
                ri as int,
            ));
        }
        ai = ai + 1;
    }
    proof {
        assert(keys_before(actions, resources, ai as int, 0) =~= policy.keys());
    }
    Ok(())
}

/// The keys of effect `e` that compiling `policies` adds before it reaches
/// pair (`ai`, `ri`) of policy `p`: those of the first `p` policies, then
/// those of the pairs of policy `p` before that pair.
pub open spec fn role_keys_before(policies: Seq<Policy>, e: Effect, p: int, ai: int, ri: int) -> Set<
    Segments,
> {
    let partial = if policies[p].effect == e {
        policy_keys_before(policies[p], ai, ri)
    } else {
        Set::<Segments>::empty()
    };
    effect_keys(policies.take(p), e).union(partial)
}

/// Pair (`ai`, `ri`) of policy `p` is the first unacceptable pair met while
/// compiling `policies`.
pub open spec fn role_fails_at(policies: Seq<Policy>, p: int, ai: int, ri: int) -> bool {
    &&& 0 <= p < policies.len()
    &&& policies_valid(policies.take(p))
    &&& policy_fails_at(policies[p], ai, ri)
}

/// The keys of effect `e` that compiling `roles` adds before it reaches pair
/// (`ai`, `ri`) of policy `p` of role `i`.
pub open spec fn roles_keys_before(
    roles: Seq<Role>,
    e: Effect,
    i: int,
    p: int,
    ai: int,
    ri: int,
) -> Set<Segments> {
    roles_keys(roles.take(i), e).union(role_keys_before(roles[i].policies@, e, p, ai, ri))
}

/// Pair (`ai`, `ri`) of policy `p` of role `i` is the first unacceptable pair
/// met while compiling `roles`.
pub open spec fn roles_fail_at(roles: Seq<Role>, i: int, p: int, ai: int, ri: int) -> bool {
    &&& 0 <= i < roles.len()
    &&& roles_valid(roles.take(i))
    &&& role_fails_at(roles[i].policies@, p, ai, ri)
}

/// The keys of effect `e` in the first `p + 1` policies are those of the first
/// `p`, and those of policy `p` when it has that effect.
proof fn lemma_effect_keys_step(policies: Seq<Policy>, p: int, e: Effect)
    requires
        0 <= p < policies.len(),
    ensures
        effect_keys(policies.take(p + 1), e) == if policies[p].effect == e {
            effect_keys(policies.take(p), e).union(policies[p].keys())
        } else {
            effect_keys(policies.take(p), e)
        },
{
    let longer = policies.take(p + 1);
    let shorter = policies.take(p);
    assert forall|k: Segments| #[trigger] effect_keys(longer, e).contains(k) implies (if policies[p].effect == e {
        effect_keys(shorter, e).union(policies[p].keys())
    } else {
        effect_keys(shorter, e)
    }).contains(k) by {
        let q = choose|q: int|
            0 <= q < longer.len() && longer[q].effect == e && (#[trigger] longer[q].keys()).contains(k);
        if q < p {
            assert(shorter[q] == longer[q]);
        }
    }
    assert forall|k: Segments| (if policies[p].effect == e {
        effect_keys(shorter, e).union(policies[p].keys())
    } else {
        effect_keys(shorter, e)
    }).contains(k) implies #[trigger] effect_keys(longer, e).contains(k) by {
        if effect_keys(shorter, e).contains(k) {
            let q = choose|q: int|
                0 <= q < shorter.len() && shorter[q].effect == e && (#[trigger] shorter[q].keys()).contains(k);
            assert(longer[q] == shorter[q]);
        } else {
            assert(longer[p] == policies[p]);
        }
    }
    assert(effect_keys(longer, e) =~= (if policies[p].effect == e {
        effect_keys(shorter, e).union(policies[p].keys())
    } else {
        effect_keys(shorter, e)
    }));
}

/// Compiles the policies of `role` onto `acm`, in order: for each policy, one
/// rule per pair of its action and resource patterns, of the policy's effect.
/// Fails when one of those pairs is not acceptable; the rules added until then
/// stay.
pub fn apply_role(acm: &mut Acm, role: &Role) -> (r: Result<(), ConfigurationError>)
    ensures
        r is Ok <==> policies_valid(role.policies@),
        r is Ok ==> final(acm).allow_rules() == old(acm).allow_rules().union(
            effect_keys(role.policies@, Effect::Allow),
        ),
        r is Ok ==> final(acm).deny_rules() == old(acm).deny_rules().union(
            effect_keys(role.policies@, Effect::Deny),
        ),
        r matches Err(e) ==> exists|p: int, ai: int, ri: int|
            #[trigger] role_fails_at(role.policies@, p, ai, ri) && reports(
                e,
                pair_key(role.policies@[p], ai, ri),
            ) && final(acm).allow_rules() == old(acm).allow_rules().union(
                role_keys_before(role.policies@, Effect::Allow, p, ai, ri),
            ) && final(acm).deny_rules() == old(acm).deny_rules().union(
                role_keys_before(role.policies@, Effect::Deny, p, ai, ri),
            ),
{
    let ghost policies = role.policies@;
    proof {
        assert(effect_keys(policies.take(0), Effect::Allow) =~= Set::<Segments>::empty());
        assert(effect_keys(policies.take(0), Effect::Deny) =~= Set::<Segments>::empty());
    }
    let mut p: usize = 0;
    while p < role.policies.len()
        invariant
            policies == role.policies@,
            p <= policies.len(),
            acm.allow_rules() == old(acm).allow_rules().union(
                effect_keys(policies.take(p as int), Effect::Allow),
            ),
            acm.deny_rules() == old(acm).deny_rules().union(
                effect_keys(policies.take(p as int), Effect::Deny),
            ),
            policies_valid(policies.take(p as int)),
        decreases policies.len() - p,
    {
        let ghost before_acm = *acm;
        let result = apply_policy(acm, &role.policies[p]);
        proof {
            lemma_effect_keys_step(policies, p as int, Effect::Allow);
            lemma_effect_keys_step(policies, p as int, Effect::Deny);
            assert(effect_keys(policies.take(p as int), Effect::Allow).subset_of(
                effect_keys(policies, Effect::Allow),
            )) by {
                assert forall|k: Segments|
                    #[trigger] effect_keys(policies.take(p as int), Effect::Allow).contains(k) implies effect_keys(
                    policies,
                    Effect::Allow,
                ).contains(k) by {
                    let q = choose|q: int|
                        0 <= q < p && policies.take(p as int)[q].effect == Effect::Allow && (
                        #[trigger] policies.take(p as int)[q].keys()).contains(k);
                    assert(policies[q] == policies.take(p as int)[q]);
                }
            }
            assert(effect_keys(policies.take(p as int), Effect::Deny).subset_of(
                effect_keys(policies, Effect::Deny),
            )) by {
                assert forall|k: Segments|
                    #[trigger] effect_keys(policies.take(p as int), Effect::Deny).contains(k) implies effect_keys(
                    policies,
                    Effect::Deny,
                ).contains(k) by {
                    let q = choose|q: int|
                        0 <= q < p && policies.take(p as int)[q].effect == Effect::Deny && (
                        #[trigger] policies.take(p as int)[q].keys()).contains(k);
                    assert(policies[q] == policies.take(p as int)[q]);
                }
            }
            assert(policies[p as int].effect == Effect::Allow ==> policies[p as int].keys().subset_of(
                effect_keys(policies, Effect::Allow),
            ));
            assert(policies[p as int].effect == Effect::Deny ==> policies[p as int].keys().subset_of(
                effect_keys(policies, Effect::Deny),
            ));
        }
        if let Err(e) = result {
            proof {
                let q = policies[p as int];
                let (ai, ri) = choose|ai: int, ri: int|
                    #[trigger] policy_fails_at(q, ai, ri) && reports(e, pair_key(q, ai, ri))
                        && rules_of(acm, q.effect) == rules_of(&before_acm, q.effect).union(
                        policy_keys_before(q, ai, ri),
                    );
                assert(role_fails_at(policies, p as int, ai, ri));
                assert(acm.allow_rules() =~= old(acm).allow_rules().union(
                    role_keys_before(policies, Effect::Allow, p as int, ai, ri),
                ));
                assert(acm.deny_rules() =~= old(acm).deny_rules().union(
                    role_keys_before(policies, Effect::Deny, p as int, ai, ri),
                ));
            }
            return Err(e);
        }
        proof {
            assert forall|q: int, k: Segments|
                0 <= q < p + 1 && #[trigger] policies.take(p + 1)[q].keys().contains(k) implies key_is_valid(k) by {
                if q < p {
                    assert(policies.take(p + 1)[q] == policies.take(p as int)[q]);
                }
            }
        }
        p = p + 1;
    }
    proof {
        assert(policies.take(p as int) =~= policies);
    }
    Ok(())
}

/// Compiles each role of `roles` onto `acm`, in order.
pub fn apply_roles(acm: &mut Acm, roles: &[Role]) -> (r: Result<(), ConfigurationError>)
    ensures
        r is Ok <==> roles_valid(roles@),
        r is Ok ==> final(acm).allow_rules() == old(acm).allow_rules().union(
            roles_keys(roles@, Effect::Allow),
        ),
        r is Ok ==> final(acm).deny_rules() == old(acm).deny_rules().union(
            roles_keys(roles@, Effect::Deny),
        ),
        r matches Err(e) ==> exists|i: int, p: int, ai: int, ri: int|
            #[trigger] roles_fail_at(roles@, i, p, ai, ri) && reports(
                e,
                pair_key(roles@[i].policies@[p], ai, ri),
            ) && final(acm).allow_rules() == old(acm).allow_rules().union(
                roles_keys_before(roles@, Effect::Allow, i, p, ai, ri),
            ) && final(acm).deny_rules() == old(acm).deny_rules().union(
                roles_keys_before(roles@, Effect::Deny, i, p, ai, ri),
            ),
{
    proof {
        assert(roles_keys(roles@.take(0), Effect::Allow) =~= Set::<Segments>::empty());
        assert(roles_keys(roles@.take(0), Effect::Deny) =~= Set::<Segments>::empty());
    }
    let mut i: usize = 0;
    while i < roles.len()
        invariant
            i <= roles@.len(),
            acm.allow_rules() == old(acm).allow_rules().union(
                roles_keys(roles@.take(i as int), Effect::Allow),
            ),
            acm.deny_rules() == old(acm).deny_rules().union(
                roles_keys(roles@.take(i as int), Effect::Deny),
            ),
            roles_valid(roles@.take(i as int)),
        decreases roles@.len() - i,
    {
        let ghost before_acm = *acm;
        let result = apply_role(acm, &roles[i]);
        proof {
            lemma_roles_keys_step(roles@, i as int, Effect::Allow);
            lemma_roles_keys_step(roles@, i as int, Effect::Deny);
            assert(roles@.take(i + 1)[i as int] == roles@[i as int]);
        }
        if let Err(e) = result {
            proof {
                let policies = roles@[i as int].policies@;
                let (p, ai, ri) = choose|p: int, ai: int, ri: int|
                    #[trigger] role_fails_at(policies, p, ai, ri) && reports(e, pair_key(policies[p], ai, ri))
                        && acm.allow_rules() == before_acm.allow_rules().union(
                        role_keys_before(policies, Effect::Allow, p, ai, ri),
                    ) && acm.deny_rules() == before_acm.deny_rules().union(
                        role_keys_before(policies, Effect::Deny, p, ai, ri),
                    );
                assert(roles_fail_at(roles@, i as int, p, ai, ri));
                assert(acm.allow_rules() =~= old(acm).allow_rules().union(
                    roles_keys_before(roles@, Effect::Allow, i as int, p, ai, ri),
                ));
                assert(acm.deny_rules() =~= old(acm).deny_rules().union(
                    roles_keys_before(roles@, Effect::Deny, i as int, p, ai, ri),
                ));
            }
            return Err(e);
        }
        proof {
            assert forall|q: int| 0 <= q < i + 1 implies policies_valid(
                #[trigger] roles@.take(i + 1)[q].policies@,
            ) by {
                if q < i {
                    assert(roles@.take(i + 1)[q] == roles@.take(i as int)[q]);
                }
            }
        }
        i = i + 1;
    }
    proof {
        assert(roles@.take(i as int) =~= roles@);
    }
    Ok(())
}

/// The keys of the first `i + 1` roles are those of the first `i` and those of
/// role `i`.
proof fn lemma_roles_keys_step(roles: Seq<Role>, i: int, e: Effect)
    requires
        0 <= i < roles.len(),
    ensures
        roles_keys(roles.take(i + 1), e) == roles_keys(roles.take(i), e).union(
            effect_keys(roles[i].policies@, e),
        ),
{
    let longer = roles.take(i + 1);
    let shorter = roles.take(i);
    assert forall|k: Segments| #[trigger] roles_keys(longer, e).contains(k) implies roles_keys(shorter, e).union(
        effect_keys(roles[i].policies@, e),
    ).contains(k) by {
        let q = choose|q: int| 0 <= q < longer.len() && #[trigger] effect_keys(longer[q].policies@, e).contains(k);
        if q < i {
            assert(shorter[q] == longer[q]);
        }
    }
    assert forall|k: Segments| roles_keys(shorter, e).union(effect_keys(roles[i].policies@, e)).contains(
        k,
    ) implies #[trigger] roles_keys(longer, e).contains(k) by {
        if roles_keys(shorter, e).contains(k) {
            let q = choose|q: int| 0 <= q < shorter.len() && #[trigger] effect_keys(shorter[q].policies@, e).contains(k);
            assert(longer[q] == shorter[q]);
        } else {
            assert(longer[i] == roles[i]);
        }
    }
    assert(roles_keys(longer, e) =~= roles_keys(shorter, e).union(effect_keys(roles[i].policies@, e)));
}


} // verus!
