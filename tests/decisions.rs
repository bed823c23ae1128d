use rawr::acm::Acm;
use rawr::compiler::apply_roles;
use rawr::decision::DecisionCache;
use rawr::error::{ConfigurationError, PdpError, PipError};
use rawr::role::{Policy, Role};

#[test]
fn literal_exactness() {
    let mut acm = Acm::new();
    acm.allow("a:b", "c/d").unwrap();
    assert!(acm.enforce("a:b", "c/d"));
    assert!(!acm.enforce("a:b", "c/e"));
}

#[test]
fn single_segment_wildcard() {
    let mut acm = Acm::new();
    acm.allow("action:*", "resource/*").unwrap();
    assert!(acm.enforce("action:Get", "resource/123"));

    let mut exact = Acm::new();
    exact.allow("a:Get", "x/y").unwrap();
    assert!(!exact.enforce("a:Get", "x/y/z"));
    assert!(!acm.enforce("action:Get", "resource/123/456"));
}

#[test]
fn overlapping_rules() {
    let mut acm = Acm::new();
    acm.allow("networks:GetVLAN", "*").unwrap();
    acm.deny("networks:*", "VLAN-1").unwrap();
    assert!(acm.enforce("networks:GetVLAN", "VLAN-50"));
    assert!(!acm.enforce("networks:GetVLAN", "VLAN-1"));
}

#[test]
fn scenario_literal_rule() {
    let mut acm = Acm::new();
    acm.allow("action:Get", "resource/path").unwrap();
    assert!(acm.enforce("action:Get", "resource/path"));
    assert!(!acm.enforce("action:Get", "other/path"));
}

#[test]
fn scenario_deny_beats_wildcard_allow() {
    let mut acm = Acm::new();
    acm.allow("action:*", "resource/*").unwrap();
    acm.deny("action:Delete", "resource/sensitive").unwrap();
    assert!(acm.enforce("action:Get", "resource/normal"));
    assert!(!acm.enforce("action:Delete", "resource/sensitive"));
}

#[test]
fn scenario_specific_deny_under_wildcard_allow() {
    let mut acm = Acm::new();
    acm.allow("networks:*", "VLAN-1").unwrap();
    acm.deny("networks:DeleteVLAN", "VLAN-1").unwrap();
    assert!(acm.enforce("networks:GetVLAN", "VLAN-1"));
    assert!(!acm.enforce("networks:DeleteVLAN", "VLAN-1"));
}

#[test]
fn scenario_role_cross_product() {
    let role = Role::new("r", "d").with_policy(Policy::allow(
        vec!["a1".to_string(), "a2".to_string()],
        vec!["r1".to_string(), "r2".to_string()],
    ));
    let mut acm = Acm::new();
    acm.apply_role(&role).unwrap();
    assert!(acm.enforce("a1", "r1"));
    assert!(acm.enforce("a1", "r2"));
    assert!(acm.enforce("a2", "r1"));
    assert!(acm.enforce("a2", "r2"));
    assert!(!acm.enforce("a3", "r1"));
}

#[test]
fn empty_segments_are_literal() {
    let mut acm = Acm::new();
    acm.allow("a::b", "c").unwrap();
    assert!(acm.enforce("a::b", "c"));
    assert!(!acm.enforce("a:x:b", "c"));
    assert!(!acm.enforce("a:b", "c"));
}

#[test]
fn empty_action_and_resource() {
    let mut acm = Acm::new();
    acm.allow("", "").unwrap();
    assert!(acm.enforce("", ""));
    assert!(!acm.enforce("a", ""));
    assert!(!acm.enforce("", "/"));
}

#[test]
fn deny_precedence_with_general_deny() {
    let mut acm = Acm::new();
    acm.allow("s:Read", "b/x").unwrap();
    acm.deny("*:*", "*/*").unwrap();
    assert!(!acm.enforce("s:Read", "b/x"));
}

#[test]
fn default_deny() {
    let acm = Acm::new();
    assert!(!acm.enforce("", ""));
    assert!(!acm.enforce("a:b", "c/d"));
    assert_eq!(acm.enforce_batch(&[("x", "y"), ("", "")]), vec![false, false]);
}

#[test]
fn idempotent_insert() {
    let mut once = Acm::new();
    once.allow("a:*", "r/x").unwrap();
    let mut twice = Acm::new();
    twice.allow("a:*", "r/x").unwrap();
    twice.allow("a:*", "r/x").unwrap();
    for (a, r) in [("a:b", "r/x"), ("a:b", "r/y"), ("a", "r/x"), ("a:", "r/x")] {
        assert_eq!(once.enforce(a, r), twice.enforce(a, r));
    }
}

#[test]
fn batch_matches_pointwise() {
    let mut acm = Acm::new();
    acm.allow("n:*", "VLAN-*").unwrap();
    acm.deny("n:Delete", "VLAN-1").unwrap();
    let requests = [
        ("n:Get", "VLAN-1"),
        ("n:Delete", "VLAN-1"),
        ("n:Get", "VLAN-1"),
        ("n:Delete", "VLAN-2"),
        ("m:Get", "VLAN-1"),
    ];
    let batch = acm.enforce_batch(&requests);
    let pointwise: Vec<bool> = requests.iter().map(|(a, r)| acm.enforce(a, r)).collect();
    assert_eq!(batch, pointwise);
    assert_eq!(batch, vec![true, false, true, true, false]);
}

#[test]
fn glob_prefix_and_catch_all_both_explored() {
    let mut acm = Acm::new();
    acm.allow("*", "x").unwrap();
    acm.allow("Get*", "x/y").unwrap();
    assert!(acm.enforce("GetVLAN", "x"));
    assert!(acm.enforce("GetVLAN", "x/y"));
    assert!(!acm.enforce("PutVLAN", "x/y"));
}

#[test]
fn many_sorted_literals() {
    let mut acm = Acm::new();
    for name in ["m", "c", "x", "a", "q", "b", "z", "é", "ab"] {
        acm.allow(name, "r").unwrap();
    }
    for name in ["m", "c", "x", "a", "q", "b", "z", "é", "ab"] {
        assert!(acm.enforce(name, "r"));
    }
    for name in ["d", "aa", "y", "e", "", "abc"] {
        assert!(!acm.enforce(name, "r"));
    }
}

#[test]
fn invalid_glob_is_a_configuration_error() {
    let mut acm = Acm::new();
    let err = acm.allow("a:[*", "x").unwrap_err();
    assert_eq!(err, ConfigurationError::InvalidGlob("[*".to_string()));
    assert!(!acm.enforce("a:[b", "x"));
    let err = acm.deny("a", "{x*/y").unwrap_err();
    assert_eq!(err, ConfigurationError::InvalidGlob("{x*".to_string()));
    acm.allow("a", "*").unwrap();
    assert!(acm.enforce("a", "y"));
}

#[test]
fn invalid_glob_in_role() {
    let role = Role::new("r", "d")
        .with_policy(Policy::allow(vec!["ok".to_string()], vec!["x".to_string()]))
        .with_policy(Policy::deny(vec!["bad[*".to_string()], vec!["x".to_string()]));
    let mut acm = Acm::new();
    assert_eq!(
        acm.apply_role(&role).unwrap_err(),
        ConfigurationError::InvalidGlob("bad[*".to_string())
    );
}

#[test]
fn apply_roles_folds_over_roles() {
    let roles = vec![
        Role::new("one", "").with_policy(Policy::allow(vec!["a1".into()], vec!["r1".into()])),
        Role::new("two", "").with_policy(Policy::allow(vec!["a2".into()], vec!["r2".into()])),
    ];
    let mut acm = Acm::new();
    apply_roles(&mut acm, &roles).unwrap();
    assert!(acm.enforce("a1", "r1"));
    assert!(acm.enforce("a2", "r2"));
    assert!(!acm.enforce("a1", "r2"));
    assert!(!acm.enforce("a2", "r1"));
}

#[test]
fn split_helpers() {
    assert_eq!(Acm::split_action("a::b"), vec!["a", "", "b"]);
    assert_eq!(Acm::split_resource_path("x/y"), vec!["x", "y"]);
    assert_eq!(Acm::split_resource_path(""), vec![""]);
}

fn model_for_p1() -> Acm {
    let mut acm = Acm::new();
    acm.allow("s:*", "b/*").unwrap();
    acm
}

#[test]
fn cache_miss_then_hit() {
    let mut cache = DecisionCache::new();
    assert_eq!(cache.decide_cached("p1", "s:Read", "b/x"), None);
    let first = cache.decide_loaded("p1", Ok(model_for_p1()), "s:Read", "b/x");
    assert_eq!(first, Ok(true));
    let second = cache.decide_cached("p1", "s:Read", "b/x");
    assert_eq!(second, Some(true));
    assert_eq!(cache.decide_cached("p1", "s:Read", "c/x"), Some(false));
    assert_eq!(cache.decide_cached("p2", "s:Read", "b/x"), None);
    let shared = cache.get("p1").unwrap();
    assert!(shared.enforce("s:Write", "b/y"));
}

#[test]
fn failed_load_does_not_poison_the_cache() {
    let mut cache = DecisionCache::new();
    let err = PipError::InvalidAcmFormat("bad".to_string());
    assert_eq!(
        cache.decide_loaded("p1", Err(err.clone()), "s:Read", "b/x"),
        Err(PdpError::Pip(err))
    );
    assert_eq!(cache.decide_cached("p1", "s:Read", "b/x"), None);
    assert!(cache.get("p1").is_none());
    assert_eq!(
        cache.decide_loaded("p1", Ok(model_for_p1()), "s:Read", "b/x"),
        Ok(true)
    );
    assert_eq!(cache.decide_cached("p1", "s:Read", "b/x"), Some(true));
}

#[test]
fn cache_keeps_last_inserted_model() {
    let mut cache = DecisionCache::new();
    cache.decide_loaded("p1", Ok(model_for_p1()), "s:Read", "b/x").unwrap();
    cache.decide_loaded("p2", Ok(Acm::new()), "s:Read", "b/x").unwrap();
    let denied = cache.decide_loaded("p1", Ok(Acm::new()), "s:Read", "b/x");
    assert_eq!(denied, Ok(false));
    assert_eq!(cache.decide_cached("p1", "s:Read", "b/x"), Some(false));
    assert_eq!(cache.decide_cached("p2", "s:Read", "b/x"), Some(false));
}

#[test]
fn cache_stability() {
    let mut cache = DecisionCache::new();
    let first = match cache.decide_cached("p1", "s:Read", "b/x") {
        Some(granted) => Ok(granted),
        None => cache.decide_loaded("p1", Ok(model_for_p1()), "s:Read", "b/x"),
    };
    let second = match cache.decide_cached("p1", "s:Read", "b/x") {
        Some(granted) => Ok(granted),
        None => cache.decide_loaded("p1", Ok(model_for_p1()), "s:Read", "b/x"),
    };
    assert_eq!(first, second);
    assert_eq!(second, Ok(true));
}

#[test]
fn oversized_glob_is_a_configuration_error() {
    let pattern = format!("*{}", "[!a]".repeat(1_000_000));
    let mut acm = Acm::new();
    let err = acm.allow(&pattern, "x").unwrap_err();
    assert_eq!(err, ConfigurationError::InvalidGlob(pattern.clone()));
    assert!(!acm.enforce("b", "x"));
}

#[test]
fn same_glob_twice_in_one_rule_set() {
    let mut acm = Acm::new();
    acm.allow("n:Get*", "a").unwrap();
    acm.allow("n:Get*", "b").unwrap();
    acm.allow("n:Get*", "a").unwrap();
    assert!(acm.enforce("n:GetX", "a"));
    assert!(acm.enforce("n:GetY", "b"));
    assert!(!acm.enforce("n:PutX", "a"));
}
