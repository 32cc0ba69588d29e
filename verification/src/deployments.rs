//! Deployment orchestration for the ultron service.

use vstd::prelude::*;

verus! {

/// Failures of a deployment.
#[derive(Debug, Clone, PartialEq, Eq)]
pub enum DeploymentError {
    /// The deployment failed.
    DeploymentFailed,
}

/// Kick off a deployment of the ultron service. The pipeline has no work
/// of its own to do here yet — the webhook notification is the whole of the
/// deployment — so this always succeeds.
pub fn deploy_ultron() -> (r: Result<(), DeploymentError>)
    ensures
        r is Ok,
{
    Ok(())
}

} // verus!
