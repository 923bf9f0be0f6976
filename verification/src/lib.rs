//! Brute-force recovery of a password from its MD5 digest.
//!
//! Candidates of one length are the digit strings of a mixed-radix counter
//! over an alphabet; a round of the search splits them between workers, each
//! of which walks its own share and compares digests.

pub mod digest;
pub mod generator;
pub mod laws;
pub mod radix;
pub mod search;
mod signal;

pub use digest::hash;
pub use generator::PasswordGenerator;
pub use search::{
    check_candidate, conclude_round, printable_ascii, run_worker, search_round, SearchOutcome,
    Verdict, WorkerOutcome,
};
