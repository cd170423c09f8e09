pub mod group;
pub mod helper;
pub mod manager;
pub mod worker;

use vstd::prelude::*;

verus! {

/// What a child process does between the fork that created it and its exit:
/// `init` once, then `run` until it returns, then `cleanup`.
pub trait Worker {
    fn init(&self);

    fn run(&self);

    fn cleanup(&self);
}

} // verus!
