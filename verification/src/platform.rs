//! What setting up a device leaves behind for taking it down again.
use vstd::prelude::*;

verus! {

/// What was set up, so that exactly that is taken down.
#[derive(Debug)]
pub struct SetupState {
    pub routes_v4: Vec<String>,
    pub routes_v6: Vec<String>,
    /// Routes of excluded prefixes through the physical gateway.
    pub exclude_routes_v4: Vec<String>,
    pub exclude_routes_v6: Vec<String>,
    pub rule_priorities: Vec<u32>,
    pub wfp_session: usize,
    pub monitor_id: usize,
}

impl Default for SetupState {
    fn default() -> (s: Self)
        ensures
            s.routes_v4@.len() == 0,
            s.routes_v6@.len() == 0,
            s.exclude_routes_v4@.len() == 0,
            s.exclude_routes_v6@.len() == 0,
            s.rule_priorities@.len() == 0,
            s.wfp_session == 0,
            s.monitor_id == 0,
    {
        SetupState {
            routes_v4: Vec::new(),
            routes_v6: Vec::new(),
            exclude_routes_v4: Vec::new(),
            exclude_routes_v6: Vec::new(),
            rule_priorities: Vec::new(),
            wfp_session: 0,
            monitor_id: 0,
        }
    }
}

} // verus!
