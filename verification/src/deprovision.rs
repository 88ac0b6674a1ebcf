use vstd::prelude::*;

verus! {

/// Settings of the router's deprovisioning step: where Dapr listens and
/// which state store holds the subscription info.
pub struct DeprovisionController {
    pub dapr_host: String,
    pub dapr_port: u16,
    pub state_store: String,
}

impl DeprovisionController {
    /// Builds a controller from borrowed host and store names.
    pub fn new(dapr_host: &str, dapr_port: u16, state_store: &str) -> (r: Self)
        ensures
            r.dapr_host@ == dapr_host@,
            r.dapr_port == dapr_port,
            r.state_store@ == state_store@,
    {
        DeprovisionController {
            dapr_host: dapr_host.to_owned(),
            dapr_port,
            state_store: state_store.to_owned(),
        }
    }

    /// Deprovisions the router. Nothing is stored by this component, so
    /// there is nothing to remove: the call has no effect.
    pub fn deprovision() {
    }
}

} // verus!
