//! Structured resource names:
//! `prefix:partition:service:region:account_id:resource_type/resource_path`.
use vstd::prelude::*;

use crate::pattern::{split_on, split_str};
use crate::text::{push_char, push_str};

verus! {

/// The number of `:`-separated segments of a resource name.
pub const SEGMENT_COUNT: usize = 6;

/// The separator between the segments of a resource name.
pub const SEGMENT_SEPARATOR: char = ':';

/// The separator between the resource type and the resource path.
pub const RESOURCE_PATH_SEGMENT_SEPARATOR: char = '/';

/// Why a string is not a resource name.
#[derive(Debug, PartialEq, Eq)]
pub enum ResourceNameError {
    Empty,
    InvalidSegmentCount { expected: usize, found: usize },
    EmptyPrefix,
    EmptyPartition,
    EmptyService,
    EmptyQualifiedResourcePath,
    EmptyResourceType,
    EmptyResourcePath,
}

/// A resource name, its parts borrowed from the string it was parsed from.
/// The region and the account id may be empty.
#[derive(Debug)]
pub struct ResourceName<'a> {
    prefix: &'a str,
    partition: &'a str,
    service: &'a str,
    region: &'a str,
    account_id: &'a str,
    resource_type: &'a str,
    resource_path: &'a str,
}

/// Why `input` is not a resource name, or `None` when it is one.
pub open spec fn resource_name_error(input: Seq<char>) -> Option<ResourceNameError> {
    let segments = split_on(input, SEGMENT_SEPARATOR);
    let qualified = split_on(segments[5], RESOURCE_PATH_SEGMENT_SEPARATOR);
    if input.len() == 0 {
        Some(ResourceNameError::Empty)
    } else if segments.len() != SEGMENT_COUNT {
        Some(
            ResourceNameError::InvalidSegmentCount {
                expected: SEGMENT_COUNT,
                found: segments.len() as usize,
            },
        )
    } else if segments[0].len() == 0 {
        Some(ResourceNameError::EmptyPrefix)
    } else if segments[1].len() == 0 {
        Some(ResourceNameError::EmptyPartition)
    } else if segments[2].len() == 0 {
        Some(ResourceNameError::EmptyService)
    } else if segments[5].len() == 0 {
        Some(ResourceNameError::EmptyQualifiedResourcePath)
    } else if qualified.len() < 2 {
        Some(ResourceNameError::EmptyResourcePath)
    } else if qualified[0].len() == 0 {
        Some(ResourceNameError::EmptyResourceType)
    } else if qualified[1].len() == 0 {
        Some(ResourceNameError::EmptyResourcePath)
    } else {
        None
    }
}

/// The parts of a valid resource name `input`: its first five segments, then
/// the first two `/`-separated parts of the sixth.
pub open spec fn resource_name_parts(input: Seq<char>) -> Seq<Seq<char>> {
    let segments = split_on(input, SEGMENT_SEPARATOR);
    segments.take(5) + split_on(segments[5], RESOURCE_PATH_SEGMENT_SEPARATOR).take(2)
}

/// The text of a resource name with parts `v`.
pub open spec fn format_parts(v: Seq<Seq<char>>) -> Seq<char> {
    v[0] + seq![':'] + v[1] + seq![':'] + v[2] + seq![':'] + v[3] + seq![':'] + v[4] + seq![':']
        + v[5] + seq!['/'] + v[6]
}

impl<'a> View for ResourceName<'a> {
    type V = Seq<Seq<char>>;

    /// The seven parts, in order.
    closed spec fn view(&self) -> Seq<Seq<char>> {
        seq![
            self.prefix@,
            self.partition@,
            self.service@,
            self.region@,
            self.account_id@,
            self.resource_type@,
            self.resource_path@,
        ]
    }
}

impl<'a> ResourceName<'a> {
    /// Parses a resource name. The checks come in this order: emptiness, the
    /// number of `:`-separated segments, then the prefix, partition, service
    /// and qualified resource path being non-empty, then the resource type
    /// and resource path around the first `/`.
    pub fn parse(input: &'a str) -> (r: Result<ResourceName<'a>, ResourceNameError>)
        ensures
            match r {
                Ok(name) => resource_name_error(input@) is None && name@ == resource_name_parts(
                    input@,
                ),
                Err(e) => resource_name_error(input@) == Some(e),
            },
    {
        if input.is_empty() {
            return Err(ResourceNameError::Empty);
        }
        let segments = split_str(input, SEGMENT_SEPARATOR);
        let ghost parts = split_on(input@, SEGMENT_SEPARATOR);
        proof {
            assert(parts.len() == segments@.len());
        }
        if segments.len() != SEGMENT_COUNT {
            return Err(
                ResourceNameError::InvalidSegmentCount {
                    expected: SEGMENT_COUNT,
                    found: segments.len(),
                },
            );
        }
        let prefix = segments[0];
        let partition = segments[1];
        let service = segments[2];
        let region = segments[3];
        let account_id = segments[4];
        let qualified_resource_path = segments[5];
        proof {
            assert(prefix@ == parts[0]);
            assert(partition@ == parts[1]);
            assert(service@ == parts[2]);
            assert(region@ == parts[3]);
            assert(account_id@ == parts[4]);
            assert(qualified_resource_path@ == parts[5]);
        }
        if prefix.is_empty() {
            return Err(ResourceNameError::EmptyPrefix);
        }
        if partition.is_empty() {
            return Err(ResourceNameError::EmptyPartition);
        }
        if service.is_empty() {
            return Err(ResourceNameError::EmptyService);
        }
        if qualified_resource_path.is_empty() {
            return Err(ResourceNameError::EmptyQualifiedResourcePath);
        }
        let qualified = split_str(qualified_resource_path, RESOURCE_PATH_SEGMENT_SEPARATOR);
        let ghost qparts = split_on(parts[5], RESOURCE_PATH_SEGMENT_SEPARATOR);
        proof {
            assert(qparts.len() == qualified@.len());
        }
        if qualified.len() < 2 {
            return Err(ResourceNameError::EmptyResourcePath);
        }
        let resource_type = qualified[0];
        let resource_path = qualified[1];
        proof {
            assert(resource_type@ == qparts[0]);
            assert(resource_path@ == qparts[1]);
        }
        if resource_type.is_empty() {
            return Err(ResourceNameError::EmptyResourceType);
        }
        if resource_path.is_empty() {
            return Err(ResourceNameError::EmptyResourcePath);
        }
        let name = ResourceName {
            prefix,
            partition,
            service,
            region,
            account_id,
            resource_type,
            resource_path,
        };
        proof {
            assert(name@ =~= resource_name_parts(input@));
        }
        Ok(name)
    }

    /// The text of this resource name.
    pub fn as_str(&self) -> (r: String)
        ensures
            r@ == format_parts(self@),
    {
        let mut s = String::new();
        push_str(&mut s, self.prefix);
        push_char(&mut s, SEGMENT_SEPARATOR);
        push_str(&mut s, self.partition);
        push_char(&mut s, SEGMENT_SEPARATOR);
        push_str(&mut s, self.service);
        push_char(&mut s, SEGMENT_SEPARATOR);
        push_str(&mut s, self.region);
        push_char(&mut s, SEGMENT_SEPARATOR);
        push_str(&mut s, self.account_id);
        push_char(&mut s, SEGMENT_SEPARATOR);
        push_str(&mut s, self.resource_type);
        push_char(&mut s, RESOURCE_PATH_SEGMENT_SEPARATOR);
        push_str(&mut s, self.resource_path);
        proof {
            assert(s@ =~= format_parts(self@));
        }
        s
    }
}

} // verus!
