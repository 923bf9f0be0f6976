//! One round of the search: every candidate of one length, split between
//! workers, each hashed and held against the target digest.

use crate::digest::{hash, md5_hex};
use crate::generator::{lemma_remaining_unfold, share_start, PasswordGenerator};
use crate::signal::{announce_match, stop_requested};
use std::sync::atomic::AtomicBool;
use vstd::prelude::*;

verus! {

/// How a worker's walk through its share ended.
#[derive(Debug, PartialEq, Eq)]
pub enum WorkerOutcome {
    /// The candidate whose digest is the target.
    Found(String),
    /// The share holds no candidate whose digest is the target.
    Exhausted,
    /// A peer raised the flag before the share was walked through.
    Stopped,
}

/// What a worker makes of one candidate.
#[derive(Debug, PartialEq, Eq)]
pub enum Verdict {
    /// A peer has found the password: the candidate is not looked at.
    Stop,
    /// The digest of the candidate is the target.
    Hit,
    /// The digest of the candidate is not the target.
    Miss,
}

/// How a round ended.
#[derive(Debug, PartialEq, Eq)]
pub enum SearchOutcome {
    /// No candidate of this length was reported.
    NoMatch,
    /// A worker recovered the password.
    Match { password: String, worker: usize },
}

/// The digest of `candidate` is `target`.
pub open spec fn is_match(candidate: Seq<char>, target: Seq<char>) -> bool {
    md5_hex(candidate) == target
}

/// `k` is the place of the first candidate whose digest is `target`.
pub open spec fn first_match_at(candidates: Seq<Seq<char>>, target: Seq<char>, k: int) -> bool {
    &&& 0 <= k < candidates.len()
    &&& is_match(candidates[k], target)
    &&& forall|j: int| 0 <= j < k ==> !is_match(#[trigger] candidates[j], target)
}

/// No candidate has the digest `target`.
pub open spec fn no_match(candidates: Seq<Seq<char>>, target: Seq<char>) -> bool {
    forall|k: int| 0 <= k < candidates.len() ==> !is_match(#[trigger] candidates[k], target)
}

/// The candidates that worker `worker` of `workers` walks through in a
/// round, in its order.
pub open spec fn share(charset: Seq<char>, length: nat, worker: nat, workers: nat) -> Seq<
    Seq<char>,
> {
    share_start(charset, length, worker, workers).remaining()
}

/// What a round of `workers` workers reports when they run one after the
/// other: the first match of the first worker whose share holds one, and no
/// match where no share holds one.
pub open spec fn round_reports(
    charset: Seq<char>,
    length: nat,
    workers: nat,
    target: Seq<char>,
    outcome: SearchOutcome,
) -> bool {
    match outcome {
        SearchOutcome::Match { password, worker } => {
            &&& worker < workers
            &&& exists|k: int|
                first_match_at(share(charset, length, worker as nat, workers), target, k) && share(
                    charset,
                    length,
                    worker as nat,
                    workers,
                )[k] == password@
            &&& forall|earlier: nat|
                earlier < worker ==> no_match(
                    #[trigger] share(charset, length, earlier, workers),
                    target,
                )
        },
        SearchOutcome::NoMatch => forall|worker: nat|
            worker < workers ==> no_match(#[trigger] share(charset, length, worker, workers), target),
    }
}

/// The alphabet of the search: the printable ASCII characters, from the
/// space to the tilde.
pub fn printable_ascii() -> (charset: Vec<char>)
    ensures
        charset@.len() == 95,
        forall|i: int| 0 <= i < 95 ==> charset@[i] as int == 32 + i,
{
    let mut charset: Vec<char> = Vec::new();
    let mut code: u8 = 32;
    while code < 127
        invariant
            32 <= code <= 127,
            charset@.len() == code - 32,
            forall|i: int| 0 <= i < charset@.len() ==> charset@[i] as int == 32 + i,
        decreases 127 - code,
    {
        charset.push(code as char);
        code += 1;
    }
    charset
}

/// Judges one candidate: nothing is hashed once a peer has asked to stop,
/// and otherwise the digest of the candidate decides.
pub fn check_candidate(candidate: &String, target: &String, stop: bool) -> (verdict: Verdict)
    ensures
        verdict == (if stop {
            Verdict::Stop
        } else if is_match(candidate@, target@) {
            Verdict::Hit
        } else {
            Verdict::Miss
        }),
{
    if stop {
        Verdict::Stop
    } else if hash(candidate.as_str()) == *target {
        Verdict::Hit
    } else {
        Verdict::Miss
    }
}

/// Walks through the share of worker `worker` of `workers` among the
/// candidates of `length` and returns the first whose digest is `target`.
///
/// With a flag, the worker looks at it before it hashes a candidate and
/// stops when a peer has raised it; it raises the flag itself when it finds
/// the password. Without a flag the walk only ends with a match or with the
/// share.
pub fn run_worker(
    charset: &[char],
    length: usize,
    worker: usize,
    workers: usize,
    target: &str,
    flag: Option<&AtomicBool>,
) -> (outcome: WorkerOutcome)
    requires
        length >= 1,
        worker < workers <= charset@.len(),
    ensures
        match outcome {
            WorkerOutcome::Found(password) => exists|k: int|
                first_match_at(
                    share(charset@, length as nat, worker as nat, workers as nat),
                    target@,
                    k,
                ) && share(charset@, length as nat, worker as nat, workers as nat)[k] == password@,
            WorkerOutcome::Exhausted => no_match(
                share(charset@, length as nat, worker as nat, workers as nat),
                target@,
            ),
            WorkerOutcome::Stopped => flag.is_some(),
        },
{
    let wanted = target.to_owned();
    let mut generator = PasswordGenerator::with_offset_and_stride(charset, length, worker, workers);
    let ghost candidates = generator@.remaining();
    let ghost mut seen: int = 0;
    loop
        invariant
            generator.wf(),
            wanted@ == target@,
            0 <= seen <= candidates.len(),
            generator@.remaining() == candidates.skip(seen),
            forall|j: int| 0 <= j < seen ==> !is_match(#[trigger] candidates[j], target@),
            candidates == share(charset@, length as nat, worker as nat, workers as nat),
        decreases candidates.len() - seen,
    {
        proof {
            lemma_remaining_unfold(generator@);
        }
        let ghost before = generator@;
        match generator.next() {
            None => {
                return WorkerOutcome::Exhausted;
            },
            Some(password) => {
                proof {
                    assert(candidates.skip(seen)[0] == candidates[seen]);
                    assert(candidates.skip(seen).skip(1) =~= candidates.skip(seen + 1));
                }
                let stop = stop_requested(flag);
                match check_candidate(&password, &wanted, stop) {
                    Verdict::Stop => {
                        return WorkerOutcome::Stopped;
                    },
                    Verdict::Hit => {
                        announce_match(flag);
                        assert(first_match_at(candidates, target@, seen));
                        return WorkerOutcome::Found(password);
                    },
                    Verdict::Miss => {
                        proof {
                            seen = seen + 1;
                        }
                    },
                }
            },
        }
    }
}

/// What the coordinator reports once every worker of a round has returned:
/// the password in the result slot if the flag was raised, and no match
/// otherwise.
pub fn conclude_round(found: bool, slot: Option<(String, usize)>) -> (outcome: SearchOutcome)
    ensures
        match outcome {
            SearchOutcome::Match { password, worker } => found && slot == Some((password, worker)),
            SearchOutcome::NoMatch => !found || slot.is_none(),
        },
{
    if found {
        match slot {
            Some((password, worker)) => SearchOutcome::Match { password, worker },
            None => SearchOutcome::NoMatch,
        }
    } else {
        SearchOutcome::NoMatch
    }
}

/// Runs the round of `length` with `workers` workers, one after the other,
/// and reports the first match of the first worker that has one.
pub fn search_round(charset: &[char], length: usize, workers: usize, target: &str) -> (outcome:
    SearchOutcome)
    requires
        length >= 1,
        1 <= workers <= charset@.len(),
    ensures
        round_reports(charset@, length as nat, workers as nat, target@, outcome),
{
    let mut worker: usize = 0;
    while worker < workers
        invariant
            length >= 1,
            worker <= workers <= charset@.len(),
            forall|earlier: nat|
                earlier < worker ==> no_match(
                    #[trigger] share(charset@, length as nat, earlier, workers as nat),
                    target@,
                ),
        decreases workers - worker,
    {
        let outcome = run_worker(charset, length, worker, workers, target, None);
        match outcome {
            WorkerOutcome::Found(password) => {
                return SearchOutcome::Match { password, worker };
            },
            _ => {},
        }
        worker += 1;
    }
    SearchOutcome::NoMatch
}

} // verus!
