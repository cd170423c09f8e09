use vstd::prelude::*;

verus! {

/// The settings of the server, as the command line gives them.
#[derive(Debug)]
pub struct Args {
    /// The port of the primary endpoint.
    pub port: u16,
    /// The port of the secondary endpoint.
    pub reserve_port: u16,
    /// The address on which every endpoint listens.
    pub host: String,
    /// The number of children on the primary endpoint.
    pub worker: u32,
    /// The number of children on the secondary endpoint.
    pub reserve: u32,
    /// The time, in milliseconds, that a write on a connection may take.
    pub timeout_ms: u64,
}

impl Default for Args {
    /// The settings where the command line gives none.
    fn default() -> (r: Self)
        ensures
            r.port == 10080,
            r.reserve_port == 10079,
            r.host@ == "0.0.0.0"@,
            r.worker == 60,
            r.reserve == 4,
            r.timeout_ms == 500,
    {
        Args {
            port: 10080,
            reserve_port: 10079,
            host: "0.0.0.0".to_owned(),
            worker: 60,
            reserve: 4,
            timeout_ms: 500,
        }
    }
}

} // verus!
