use md5_search::{
    check_candidate, conclude_round, hash, printable_ascii, run_worker, search_round,
    SearchOutcome, Verdict, WorkerOutcome,
};
use std::sync::atomic::{AtomicBool, Ordering};

#[test]
fn digest_of_known_strings() {
    assert_eq!(hash("a"), "0cc175b9c0f1b6a831c399e269772661");
    assert_eq!(hash(""), "d41d8cd98f00b204e9800998ecf8427e");
    assert_eq!(hash("abc"), "900150983cd24fb0d6963f7d28e17f72");
    assert_eq!(hash("message digest"), "f96b697d7cb7938d525a2f31aaf161d0");
}

#[test]
fn digest_is_deterministic() {
    assert_eq!(hash("hunter2"), hash("hunter2"));
    assert_ne!(hash("hunter2"), hash("hunter3"));
    assert_ne!(hash("hunter2"), "hunter2");
}

#[test]
fn alphabet_is_printable_ascii() {
    let charset = printable_ascii();
    assert_eq!(charset.len(), 95);
    assert_eq!(charset[0], ' ');
    assert_eq!(charset[1], '!');
    assert_eq!(charset[65], 'a');
    assert_eq!(charset[94], '~');
    for (i, symbol) in charset.iter().enumerate() {
        assert_eq!(*symbol as usize, 32 + i);
    }
}

#[test]
fn single_letter_is_recovered_in_the_first_round() {
    let charset = printable_ascii();
    let outcome = search_round(&charset, 1, 4, "0cc175b9c0f1b6a831c399e269772661");
    assert_eq!(outcome, SearchOutcome::Match { password: "a".to_string(), worker: 1 });
}

#[test]
fn longer_password_is_not_found_in_the_first_round() {
    let charset = printable_ascii();
    let target = hash("ab");
    assert_eq!(search_round(&charset, 1, 4, &target), SearchOutcome::NoMatch);
    assert_eq!(
        search_round(&charset, 2, 4, &target),
        SearchOutcome::Match { password: "ab".to_string(), worker: 3 }
    );
}

#[test]
fn worker_count_does_not_change_the_password() {
    let charset = printable_ascii();
    let target = hash("a");
    let mut recovered = Vec::new();
    for workers in [1, 2, 3, 4, 7, 95] {
        match search_round(&charset, 1, workers, &target) {
            SearchOutcome::Match { password, worker } => {
                assert_eq!(worker, 65 % workers);
                recovered.push(password);
            }
            SearchOutcome::NoMatch => panic!("no match with {} workers", workers),
        }
    }
    assert_eq!(recovered, vec!["a"; 6]);
}

#[test]
fn one_worker_finds_what_lies_in_the_gap_of_four() {
    let charset = printable_ascii();
    let target = hash(" !");
    assert_eq!(
        search_round(&charset, 2, 1, &target),
        SearchOutcome::Match { password: " !".to_string(), worker: 0 }
    );
    assert_eq!(search_round(&charset, 2, 4, &target), SearchOutcome::NoMatch);
}

#[test]
fn target_outside_the_alphabet_is_never_matched() {
    let charset = ['a', 'b', 'c'];
    let target = hash("d");
    assert_eq!(search_round(&charset, 1, 3, &target), SearchOutcome::NoMatch);
    assert_eq!(search_round(&charset, 2, 1, &target), SearchOutcome::NoMatch);
}

#[test]
fn target_that_is_no_digest_is_never_matched() {
    let charset = ['a', 'b'];
    assert_eq!(search_round(&charset, 1, 2, "a"), SearchOutcome::NoMatch);
    assert_eq!(search_round(&charset, 1, 2, ""), SearchOutcome::NoMatch);
}

#[test]
fn worker_finds_the_first_match_of_its_share() {
    let charset = ['a', 'b', 'c', 'd', 'e'];
    let target = hash("d");
    assert_eq!(run_worker(&charset, 1, 1, 2, &target, None), WorkerOutcome::Found("d".to_string()));
    assert_eq!(run_worker(&charset, 1, 0, 2, &target, None), WorkerOutcome::Exhausted);
}

#[test]
fn worker_raises_the_flag_on_a_match() {
    let charset = ['a', 'b', 'c'];
    let target = hash("cb");
    let flag = AtomicBool::new(false);
    assert_eq!(run_worker(&charset, 2, 0, 2, &target, Some(&flag)), WorkerOutcome::Exhausted);
    assert!(!flag.load(Ordering::Relaxed));
    assert_eq!(
        run_worker(&charset, 2, 1, 2, &target, Some(&flag)),
        WorkerOutcome::Found("cb".to_string())
    );
    assert!(flag.load(Ordering::Relaxed));
}

#[test]
fn worker_stops_when_the_flag_is_raised() {
    let charset = ['a', 'b', 'c'];
    let target = hash("a");
    let flag = AtomicBool::new(true);
    assert_eq!(run_worker(&charset, 1, 0, 1, &target, Some(&flag)), WorkerOutcome::Stopped);
    assert!(flag.load(Ordering::Relaxed));
}

#[test]
fn round_reports_the_slot_only_when_the_flag_is_raised() {
    let slot = Some(("pw".to_string(), 2));
    assert_eq!(
        conclude_round(true, slot.clone()),
        SearchOutcome::Match { password: "pw".to_string(), worker: 2 }
    );
    assert_eq!(conclude_round(false, slot), SearchOutcome::NoMatch);
    assert_eq!(conclude_round(false, None), SearchOutcome::NoMatch);
    assert_eq!(conclude_round(true, None), SearchOutcome::NoMatch);
}

#[test]
fn round_walks_workers_in_turn() {
    let charset = ['z', 'z'];
    let target = hash("z");
    assert_eq!(
        search_round(&charset, 1, 2, &target),
        SearchOutcome::Match { password: "z".to_string(), worker: 0 }
    );
}

#[test]
fn candidate_is_judged_by_its_digest() {
    let target = "0cc175b9c0f1b6a831c399e269772661".to_string();
    assert_eq!(check_candidate(&"a".to_string(), &target, false), Verdict::Hit);
    assert_eq!(check_candidate(&"b".to_string(), &target, false), Verdict::Miss);
    assert_eq!(check_candidate(&target, &target, false), Verdict::Miss);
}

#[test]
fn candidate_is_not_judged_after_a_stop() {
    let target = hash("a");
    assert_eq!(check_candidate(&"a".to_string(), &target, true), Verdict::Stop);
    assert_eq!(check_candidate(&"b".to_string(), &target, true), Verdict::Stop);
}
