use rawr::acm::Acm;

#[test]
fn acm_test_allow_and_enforce() {
    let mut acm = Acm::new();
    acm.allow("action:Get", "resource/path").unwrap();
    assert!(acm.enforce("action:Get", "resource/path"));
    assert!(!acm.enforce("action:Get", "other/path"));
}

#[test]
fn acm_test_deny_overrides_allow() {
    let mut acm = Acm::new();
    acm.allow("action:*", "resource/*").unwrap();
    acm.deny("action:Delete", "resource/sensitive").unwrap();
    assert!(acm.enforce("action:Get", "resource/normal"));
    assert!(!acm.enforce("action:Delete", "resource/sensitive"));
}

#[test]
fn test_enforce_batch() {
    let mut acm = Acm::new();
    acm.allow("action:Get", "resource/*").unwrap();
    acm.deny("action:Delete", "resource/protected").unwrap();

    let results = acm.enforce_batch(&[
        ("action:Get", "resource/foo"),
        ("action:Delete", "resource/bar"),
        ("action:Delete", "resource/protected"),
        ("action:Get", "resource/protected"),
    ]);

    assert_eq!(results, vec![true, false, false, true]);
}

#[test]
fn lib_test_allow_and_enforce() {
    let mut acm = Acm::new();
    acm.allow("action:Get", "resource/path").unwrap();
    assert!(acm.enforce("action:Get", "resource/path"));
    assert!(!acm.enforce("action:Get", "other/path"));
}

#[test]
fn lib_test_deny_overrides_allow() {
    let mut acm = Acm::new();
    acm.allow("action:*", "resource/*").unwrap();
    acm.deny("action:Delete", "resource/sensitive").unwrap();
    assert!(acm.enforce("action:Get", "resource/normal"));
    assert!(!acm.enforce("action:Delete", "resource/sensitive"));
}

#[test]
fn test_network_acm_with_logging() {
    let mut acm = Acm::new();

    acm.deny("networks:*", "VLAN-1").unwrap();
    acm.allow("networks:GetVLAN", "*").unwrap();
    acm.allow("networks:UpdateVLAN", "VLAN-20").unwrap();
    acm.allow("networks:*", "VLAN-70").unwrap();
    acm.allow("networks:AddVLANTag", "nick/lab/*").unwrap();
    acm.allow("calendar:Get*", "laura/*").unwrap();

    let test_cases = vec![
        ("networks:GetVLAN", "VLAN-50", true),
        ("networks:UpdateVLAN", "VLAN-20", true),
        ("networks:UpdateVLAN", "VLAN-30", false),
        ("networks:GetVLAN", "VLAN-1", false),
        ("networks:DeleteVLAN", "VLAN-70", true),
        ("networks:AddVLANTag", "nick/lab/VLAN-70", true),
        ("calendar:GetCalendar", "laura/shared-family-calendar", true),
    ];

    for (action, resource, expected) in test_cases {
        let granted = acm.authorized(action, resource);
        println!(
            "[acm.authorized] action: {action}, resource: {resource} - GRANTED: {granted}, EXPECTED: {expected}"
        );
        assert_eq!(granted, expected);
    }
}
