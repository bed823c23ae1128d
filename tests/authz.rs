use rawr::acm::ACM;
use rawr::role::{Effect, Policy, Role};

#[test]
fn test_empty_acm_denies_all() {
    let acm = ACM::new();
    assert!(!acm.authorized("any:action", "any/resource"));
    assert!(!acm.authorized("networks:GetVLAN", "VLAN-1"));
}

#[test]
fn test_allow_basic() {
    let mut acm = ACM::new();
    acm.allow("networks:GetVLAN", "VLAN-1").unwrap();
    assert!(acm.authorized("networks:GetVLAN", "VLAN-1"));
    assert!(!acm.authorized("networks:GetVLAN", "VLAN-2"));
    assert!(!acm.authorized("networks:UpdateVLAN", "VLAN-1"));
}

#[test]
fn test_deny_basic() {
    let mut acm = ACM::new();
    acm.allow("networks:*", "VLAN-1").unwrap();
    acm.deny("networks:DeleteVLAN", "VLAN-1").unwrap();
    assert!(acm.authorized("networks:GetVLAN", "VLAN-1"));
    assert!(!acm.authorized("networks:DeleteVLAN", "VLAN-1"));
}

#[test]
fn test_deny_precedence_over_allow() {
    let mut acm = ACM::new();
    acm.allow("networks:*", "VLAN-1").unwrap();
    acm.deny("networks:DeleteVLAN", "VLAN-1").unwrap();

    assert!(acm.authorized("networks:GetVLAN", "VLAN-1"));
    assert!(acm.authorized("networks:UpdateVLAN", "VLAN-1"));
    assert!(!acm.authorized("networks:DeleteVLAN", "VLAN-1"));
}

#[test]
fn test_wildcard_action_patterns() {
    let mut acm = ACM::new();
    acm.allow("networks:*", "VLAN-1").unwrap();
    acm.allow("calendar:Get*", "laura/*").unwrap();

    assert!(acm.authorized("networks:GetVLAN", "VLAN-1"));
    assert!(acm.authorized("networks:UpdateVLAN", "VLAN-1"));
    assert!(acm.authorized("networks:DeleteVLAN", "VLAN-1"));
    assert!(acm.authorized("calendar:GetCalendar", "laura/shared"));
    assert!(acm.authorized("calendar:GetEvent", "laura/events"));
    assert!(!acm.authorized("calendar:CreateEvent", "laura/events"));
}

#[test]
fn test_wildcard_resource_patterns() {
    let mut acm = ACM::new();
    acm.allow("networks:GetVLAN", "*").unwrap();
    acm.allow("networks:UpdateVLAN", "VLAN-*").unwrap();
    acm.allow("networks:DeleteVLAN", "nick/lab/*").unwrap();

    assert!(acm.authorized("networks:GetVLAN", "VLAN-1"));
    assert!(acm.authorized("networks:GetVLAN", "VLAN-999"));
    assert!(acm.authorized("networks:GetVLAN", "anything"));
    assert!(acm.authorized("networks:UpdateVLAN", "VLAN-1"));
    assert!(acm.authorized("networks:UpdateVLAN", "VLAN-999"));
    assert!(!acm.authorized("networks:UpdateVLAN", "other-1"));
    assert!(acm.authorized("networks:DeleteVLAN", "nick/lab/VLAN-1"));
    assert!(acm.authorized("networks:DeleteVLAN", "nick/lab/anything"));
    assert!(!acm.authorized("networks:DeleteVLAN", "nick/other/VLAN-1"));
}

#[test]
fn test_complex_resource_paths() {
    let mut acm = ACM::new();
    acm.allow("storage:Read", "projects/*/buckets/*/objects/*").unwrap();
    acm.allow("storage:Write", "projects/myproject/buckets/*").unwrap();

    assert!(acm.authorized("storage:Read", "projects/p1/buckets/b1/objects/o1"));
    assert!(acm.authorized("storage:Read", "projects/p2/buckets/b2/objects/o2"));
    assert!(!acm.authorized("storage:Read", "projects/p1/buckets/b1"));
    assert!(acm.authorized("storage:Write", "projects/myproject/buckets/b1"));
    assert!(!acm.authorized("storage:Write", "projects/other/buckets/b1"));
}

#[test]
fn test_single_segment_resources() {
    let mut acm = ACM::new();
    acm.allow("admin:*", "root").unwrap();
    acm.allow("user:Read", "profile").unwrap();

    assert!(acm.authorized("admin:DoAnything", "root"));
    assert!(acm.authorized("user:Read", "profile"));
    assert!(!acm.authorized("user:Write", "profile"));
}

#[test]
fn authz_test_role_creation() {
    let role = Role::new("TestRole", "Test description");
    assert_eq!(role.name, "TestRole");
    assert_eq!(role.description, "Test description");
    assert_eq!(role.policies.len(), 0);
}

#[test]
fn test_role_with_policies() {
    let role = Role::new("TestRole", "Test")
        .with_policy(Policy::allow(
            vec!["action1".into()],
            vec!["resource1".into()],
        ))
        .with_policy(Policy::deny(
            vec!["action2".into()],
            vec!["resource2".into()],
        ));

    assert_eq!(role.policies.len(), 2);
    assert!(matches!(role.policies[0].effect, Effect::Allow));
    assert!(matches!(role.policies[1].effect, Effect::Deny));
}

#[test]
fn test_role_with_empty_policies() {
    let role = Role::new("EmptyRole", "No policies");
    let mut acm = ACM::new();
    acm.apply_role(&role).unwrap();
    assert!(!acm.authorized("any:action", "any/resource"));
}

#[test]
fn test_role_with_multiple_actions_and_resources() {
    let role = Role::new("MultiRole", "Test").with_policy(Policy {
        effect: Effect::Allow,
        actions: vec!["action1".into(), "action2".into()],
        resources: vec!["res1".into(), "res2".into()],
    });

    let mut acm = ACM::new();
    acm.apply_role(&role).unwrap();

    assert!(acm.authorized("action1", "res1"));
    assert!(acm.authorized("action1", "res2"));
    assert!(acm.authorized("action2", "res1"));
    assert!(acm.authorized("action2", "res2"));
}

#[test]
fn test_policy_allow_constructor() {
    let policy = Policy::allow(
        vec!["action1".into(), "action2".into()],
        vec!["resource1".into()],
    );
    assert!(matches!(policy.effect, Effect::Allow));
    assert_eq!(policy.actions.len(), 2);
    assert_eq!(policy.resources.len(), 1);
}

#[test]
fn test_policy_deny_constructor() {
    let policy = Policy::deny(
        vec!["action1".into()],
        vec!["resource1".into(), "resource2".into()],
    );
    assert!(matches!(policy.effect, Effect::Deny));
    assert_eq!(policy.actions.len(), 1);
    assert_eq!(policy.resources.len(), 2);
}

#[test]
fn test_role_policy_application() {
    let mut acm = ACM::new();
    let role = Role::new("MHQ.NetworkAdmin", "Lorem Ipsum.")
        .with_policy(Policy {
            effect: Effect::Deny,
            actions: vec!["networks:*".into()],
            resources: vec!["VLAN-1".into()],
        })
        .with_policy(Policy {
            effect: Effect::Allow,
            actions: vec!["networks:GetVLAN".into()],
            resources: vec!["*".into()],
        })
        .with_policy(Policy {
            effect: Effect::Allow,
            actions: vec!["networks:UpdateVLAN".into()],
            resources: vec!["VLAN-20".into()],
        })
        .with_policy(Policy {
            effect: Effect::Allow,
            actions: vec!["networks:*".into()],
            resources: vec!["VLAN-70".into()],
        })
        .with_policy(Policy {
            effect: Effect::Allow,
            actions: vec!["networks:AddVLANTag".into()],
            resources: vec!["nick/lab/*".into()],
        })
        .with_policy(Policy {
            effect: Effect::Allow,
            actions: vec!["calendar:Get*".into()],
            resources: vec!["laura/*".into()],
        });

    acm.apply_role(&role).unwrap();

    let cases = vec![
        ("networks:GetVLAN", "VLAN-50", true),
        ("networks:UpdateVLAN", "VLAN-20", true),
        ("networks:UpdateVLAN", "VLAN-30", false),
        ("networks:GetVLAN", "VLAN-1", false),
        ("networks:DeleteVLAN", "VLAN-70", true),
        ("networks:AddVLANTag", "nick/lab/VLAN-70", true),
        ("calendar:GetCalendar", "laura/shared-family-calendar", true),
    ];

    for (action, resource, expected) in cases {
        let granted = acm.authorized(action, resource);
        assert_eq!(
            granted, expected,
            "action: {}, resource: {}, expected: {}, granted: {}",
            action, resource, expected, granted
        );
    }
}

#[test]
fn test_multiple_roles() {
    let mut acm = ACM::new();

    let network_admin = Role::new("NetworkAdmin", "Network admin").with_policy(Policy::allow(
        vec!["networks:*".into()],
        vec!["VLAN-*".into()],
    ));

    let storage_admin = Role::new("StorageAdmin", "Storage admin")
        .with_policy(Policy::allow(
            vec!["storage:*".into()],
            vec!["buckets/*".into()],
        ))
        .with_policy(Policy::deny(
            vec!["storage:Delete".into()],
            vec!["buckets/production/*".into()],
        ));

    acm.apply_role(&network_admin).unwrap();
    acm.apply_role(&storage_admin).unwrap();

    assert!(acm.authorized("networks:GetVLAN", "VLAN-1"));
    assert!(acm.authorized("networks:UpdateVLAN", "VLAN-999"));

    assert!(acm.authorized("storage:Read", "buckets/test"));
    assert!(acm.authorized("storage:Write", "buckets/test"));
    assert!(acm.authorized("storage:Delete", "buckets/test"));
    assert!(!acm.authorized("storage:Delete", "buckets/production/test"));
    assert!(!acm.authorized("storage:Read", "buckets/production/test"));

    assert!(!acm.authorized("networks:GetVLAN", "buckets/test"));
    assert!(!acm.authorized("storage:Read", "VLAN-1"));
}

#[test]
fn test_conflicting_policies_same_role() {
    let mut acm = ACM::new();
    let role = Role::new("ConflictingRole", "Test")
        .with_policy(Policy::allow(
            vec!["action:*".into()],
            vec!["resource".into()],
        ))
        .with_policy(Policy::deny(
            vec!["action:Specific".into()],
            vec!["resource".into()],
        ));

    acm.apply_role(&role).unwrap();

    assert!(!acm.authorized("action:Specific", "resource"));
    assert!(acm.authorized("action:Other", "resource"));
}

#[test]
fn test_wildcard_edge_cases() {
    let mut acm = ACM::new();
    acm.allow("*", "*").unwrap();
    acm.deny("admin:*", "sensitive/*").unwrap();

    assert!(acm.authorized("any", "resource"));
    assert!(acm.authorized("user", "profile"));

    acm.allow("*:*", "*").unwrap();
    assert!(acm.authorized("user:Read", "profile"));

    assert!(acm.authorized("admin:Delete", "sensitive"));
    assert!(!acm.authorized("admin:Delete", "sensitive/data"));
    assert!(!acm.authorized("admin:Read", "sensitive/secret"));
    assert!(acm.authorized("admin:Read", "public"));

    acm.allow("*:*", "*/*").unwrap();
    assert!(acm.authorized("any:action", "any/resource"));
    assert!(!acm.authorized("any:action", "any/nested/resource/path"));
}
