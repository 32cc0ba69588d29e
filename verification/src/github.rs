//! The parts of a GitHub webhook payload that the application's own logic
//! reads: plain data carried through from the wire format.

use vstd::prelude::*;

verus! {

/// The repository a webhook event concerns.
#[derive(Debug, Clone, PartialEq, Eq)]
pub struct Repository {
    pub id: u64,
    pub name: String,
    pub full_name: String,
    pub private: bool,
}

/// The account that triggered a webhook event.
#[derive(Debug, Clone, PartialEq, Eq)]
pub struct Sender {
    pub id: u64,
    pub login: String,
}

} // verus!
