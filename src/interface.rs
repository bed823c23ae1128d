//! The data exchanged with policy stores and decision points.
use vstd::prelude::*;

use crate::resource_name::ResourceName;
use crate::role::Effect;

verus! {

/// The identifier of a principal (a user, group or role).
pub type PrincipalId = String;

/// The tenant of a request; `None` in a single-tenant or global context.
pub type TenantId = Option<String>;

/// A request for the policies attached to a principal, optionally within one
/// tenant.
pub struct ListPoliciesRequest {
    pub tenant_id: TenantId,
    pub principal_id: PrincipalId,
}

/// The answer to a request that adds a policy.
pub struct AddPolicyResponse {}

/// The answer to a request that removes a policy.
pub struct DeletePolicyResponse {}

/// A question for a decision point: may this principal perform this action on
/// this resource?
pub struct AuthorizationRequest<'a> {
    pub tenant_id: TenantId,
    pub principal_id: PrincipalId,
    pub action: &'a str,
    pub resource: ResourceName<'a>,
}

/// The answer of a decision point.
#[derive(Debug, Clone, Copy, PartialEq, Eq)]
pub enum AuthorizationResponse {
    Granted,
    Denied,
}

/// One permission of a policy: an effect on some actions and resources.
pub trait PolicyStatement {
    /// Whether the statement allows or denies.
    fn effect(&self) -> Effect;

    /// The action patterns the statement applies to.
    fn actions(&self) -> &[String];

    /// The resource patterns the statement applies to.
    fn resources(&self) -> &[String];
}

impl AuthorizationResponse {
    /// The response for a decision.
    pub fn from_decision(granted: bool) -> (r: AuthorizationResponse)
        ensures
            r == (if granted {
                AuthorizationResponse::Granted
            } else {
                AuthorizationResponse::Denied
            }),
    {
        if granted {
            AuthorizationResponse::Granted
        } else {
            AuthorizationResponse::Denied
        }
    }
}

} // verus!
