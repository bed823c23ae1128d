use rawr::resource_name::{ResourceName, ResourceNameError, SEGMENT_COUNT};

const VALID_RESOURCE_NAME: &str =
    "mrn:tycho:opa:sol-belt-1:36UeVtK7fIxhHyD9Dd5gc1XSd77:member/anderson-dawes";
const VALID_RESOURCE_NAME_AWS: &str =
    "arn:aws:ec2:us-east-1:123456789012:instance/i-01234567890123456";
const VALID_RESOURCE_NAME_KONNECT: &str = "krn:konnect:identity:us:df40c456-7dbb-4fbf-8b2c-a1c89997b7c4:team/157807aa-3a85-4504-8340-ad9c0baae569";

#[test]
fn test_parse_valid_resource_name() {
    let rn = ResourceName::parse(VALID_RESOURCE_NAME).unwrap();
    assert_eq!(rn.as_str(), VALID_RESOURCE_NAME);
}

#[test]
fn test_parse_valid_resource_name_aws() {
    let rn = ResourceName::parse(VALID_RESOURCE_NAME_AWS).unwrap();
    assert_eq!(rn.as_str(), VALID_RESOURCE_NAME_AWS);
}

#[test]
fn test_parse_valid_resource_name_konnect() {
    let rn = ResourceName::parse(VALID_RESOURCE_NAME_KONNECT).unwrap();
    assert_eq!(rn.as_str(), VALID_RESOURCE_NAME_KONNECT);
}

#[test]
fn test_parse_resource_name_with_invalid_number_of_segments() {
    let s = "mrn:sol-belt-1:36UeVtK7fIxhHyD9Dd5gc1XSd77:member";
    let result = ResourceName::parse(s);
    assert!(result.is_err());
    assert_eq!(
        result.unwrap_err(),
        ResourceNameError::InvalidSegmentCount {
            expected: SEGMENT_COUNT,
            found: 4,
        }
    );
}

#[test]
fn test_parse_resource_name_with_empty_prefix() {
    let s = ":tycho:opa:sol-belt-1:36UeVtK7fIxhHyD9Dd5gc1XSd77:member/anderson-dawes";
    let result = ResourceName::parse(s);
    assert!(result.is_err());
    assert_eq!(result.unwrap_err(), ResourceNameError::EmptyPrefix);
}

#[test]
fn test_parse_resource_name_with_empty_partition() {
    let s = "mrn::opa:sol-belt-1:36UeVtK7fIxhHyD9Dd5gc1XSd77:member/anderson-dawes";
    let result = ResourceName::parse(s);
    assert!(result.is_err());
    assert_eq!(result.unwrap_err(), ResourceNameError::EmptyPartition);
}

#[test]
fn test_parse_resource_name_with_empty_service() {
    let s = "mrn:tycho::sol-belt-1:36UeVtK7fIxhHyD9Dd5gc1XSd77:member/anderson-dawes";
    let result = ResourceName::parse(s);
    assert!(result.is_err());
    assert_eq!(result.unwrap_err(), ResourceNameError::EmptyService);
}

#[test]
fn test_parse_resource_name_with_invalid_qualified_resource_path() {
    let s = "mrn:tycho:opa:sol-belt-1:36UeVtK7fIxhHyD9Dd5gc1XSd77:";
    let result = ResourceName::parse(s);
    assert!(result.is_err());
    assert_eq!(
        result.unwrap_err(),
        ResourceNameError::EmptyQualifiedResourcePath
    );
}

#[test]
fn test_parse_resource_name_with_empty_resource_type() {
    let s = "mrn:tycho:opa:sol-belt-1:36UeVtK7fIxhHyD9Dd5gc1XSd77:/anderson-dawes";
    let result = ResourceName::parse(s);
    assert!(result.is_err());
    assert_eq!(result.unwrap_err(), ResourceNameError::EmptyResourceType);
}

#[test]
fn test_parse_resource_name_with_empty_resource_path() {
    let s = "mrn:tycho:opa:sol-belt-1:36UeVtK7fIxhHyD9Dd5gc1XSd77:member/";
    let result = ResourceName::parse(s);
    assert!(result.is_err());
    assert_eq!(result.unwrap_err(), ResourceNameError::EmptyResourcePath);
}

#[test]
fn test_parse_resource_name_with_extra_segments() {
    let s = "mrn:foo:tycho:bar:opa:baz:sol-belt-1:buzz:36UeVtK7fIxhHyD9Dd5gc1XSd77:member/anderson-dawes:extra";
    let result = ResourceName::parse(s);
    assert!(result.is_err());
    assert_eq!(
        result.unwrap_err(),
        ResourceNameError::InvalidSegmentCount {
            expected: SEGMENT_COUNT,
            found: 11
        }
    );
}

#[test]
fn test_parse_and_as_str_are_inverses() {
    let rn = ResourceName::parse(VALID_RESOURCE_NAME).unwrap();
    assert_eq!(rn.as_str(), VALID_RESOURCE_NAME);
}

#[test]
fn parse_rejects_empty_input() {
    assert_eq!(ResourceName::parse("").unwrap_err(), ResourceNameError::Empty);
}

#[test]
fn parse_rejects_missing_resource_path_separator() {
    let s = "mrn:tycho:opa:sol-belt-1:36UeVtK7fIxhHyD9Dd5gc1XSd77:member";
    assert_eq!(ResourceName::parse(s).unwrap_err(), ResourceNameError::EmptyResourcePath);
}

#[test]
fn parse_accepts_empty_region_and_account() {
    let s = "mrn:tycho:opa:::member/anderson-dawes";
    let rn = ResourceName::parse(s).unwrap();
    assert_eq!(rn.as_str(), s);
}

#[test]
fn parse_keeps_only_the_first_resource_path_part() {
    let rn = ResourceName::parse("mrn:tycho:opa:r:a:member/x/y").unwrap();
    assert_eq!(rn.as_str(), "mrn:tycho:opa:r:a:member/x");
}
