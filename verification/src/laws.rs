//! What holds of the enumeration and of a round as a whole.

use crate::generator::{
    candidate_of, lemma_remaining_ranks, share_start, spell, whole_space,
};
use crate::radix::{
    digits_of, digits_valid, lemma_digits_of_valid, lemma_rank_of_digits_of,
    lemma_rank_orders_lex, lemma_space_size_unfold, lex_less, space_size,
};
use crate::digest::md5_hex;
use crate::search::{first_match_at, is_match, no_match, round_reports, share, SearchOutcome};
use vstd::arithmetic::div_mod::{lemma_fundamental_div_mod, lemma_fundamental_div_mod_converse};
use vstd::prelude::*;

verus! {

/// Worker `worker` of `workers` hands out the candidate of rank `rank` in
/// the round of `length`.
pub open spec fn walks(
    charset: Seq<char>,
    length: nat,
    worker: nat,
    workers: nat,
    rank: nat,
) -> bool {
    let start = share_start(charset, length, worker, workers);
    exists|k: int| 0 <= k < start.remaining_len() && #[trigger] start.rank_at(k) == rank
}

/// The state in which a worker starts its share is valid.
pub proof fn lemma_share_start_valid(charset: Seq<char>, length: nat, worker: nat, workers: nat)
    requires
        length >= 1,
        worker < workers <= charset.len() <= usize::MAX,
    ensures
        share_start(charset, length, worker, workers).valid(),
{
    let base = charset.len();
    let shorter = (length - 1) as nat;
    lemma_space_size_unfold(base, shorter);
    let s = space_size(base, shorter) as int;
    assert(worker * s < s * base) by (nonlinear_arith)
        requires
            worker < base,
            s >= 1,
    ;
}

/// Over an alphabet without repeated symbols, different digit strings spell
/// different candidates.
pub proof fn lemma_spell_injective(charset: Seq<char>, a: Seq<usize>, b: Seq<usize>)
    requires
        charset.no_duplicates(),
        a.len() == b.len(),
        digits_valid(a, charset.len()),
        digits_valid(b, charset.len()),
        spell(charset, a) == spell(charset, b),
    ensures
        a == b,
{
    assert forall|i: int| 0 <= i < a.len() implies a[i] == b[i] by {
        assert(a[i] < charset.len() && b[i] < charset.len());
        assert(spell(charset, a)[i] == charset[a[i] as int]);
        assert(spell(charset, b)[i] == charset[b[i] as int]);
        if a[i] != b[i] {
            assert(charset[a[i] as int] != charset[b[i] as int]);
        }
    }
    assert(a =~= b);
}

/// A generator with stride one that starts at the first candidate hands out
/// every candidate of its length and then ends: as many as the space holds,
/// the candidate of rank `k` after `k` others, in strictly increasing
/// lexicographic order of their digits, and, where no symbol occurs twice in
/// the alphabet, no candidate twice.
pub proof fn lemma_enumerates_whole_space(charset: Seq<char>, length: nat)
    requires
        1 <= charset.len() <= usize::MAX,
        length >= 1,
    ensures
        whole_space(charset, length).valid(),
        whole_space(charset, length).remaining().len() == space_size(charset.len(), length),
        forall|k: int|
            0 <= k < space_size(charset.len(), length) ==> #[trigger] whole_space(
                charset,
                length,
            ).remaining()[k] == candidate_of(charset, length, k as nat),
        forall|j: int, k: int|
            0 <= j < k < space_size(charset.len(), length) ==> lex_less(
                #[trigger] digits_of(j as nat, charset.len(), length),
                #[trigger] digits_of(k as nat, charset.len(), length),
            ),
        charset.no_duplicates() ==> whole_space(charset, length).remaining().no_duplicates(),
{
    let base = charset.len();
    let start = whole_space(charset, length);
    let space = space_size(base, length) as int;
    let all = start.remaining();
    lemma_space_size_unfold(base, length);
    assert forall|k: int| 0 <= k implies #[trigger] start.rank_at(k) == k by {
        assert(k * 1 == k) by (nonlinear_arith);
    }
    lemma_remaining_ranks(start, space);
    lemma_remaining_ranks(start, space - 1);
    assert(start.rank_at(space) == space);
    assert(start.rank_at(space - 1) == space - 1);
    assert(all.len() == space);
    assert forall|k: int| 0 <= k < space implies #[trigger] all[k] == candidate_of(
        charset,
        length,
        k as nat,
    ) by {
        assert(start.rank_at(k) == k);
    }
    assert forall|j: int, k: int| 0 <= j < k < space implies lex_less(
        #[trigger] digits_of(j as nat, base, length),
        #[trigger] digits_of(k as nat, base, length),
    ) by {
        lemma_ranks_order_digits(base, length, j as nat, k as nat);
    }
    if charset.no_duplicates() {
        assert forall|j: int, k: int| 0 <= j < all.len() && 0 <= k < all.len() && j != k implies all[j]
            != all[k] by {
            let a = digits_of(j as nat, base, length);
            let b = digits_of(k as nat, base, length);
            lemma_digits_of_valid(j as nat, base, length);
            lemma_digits_of_valid(k as nat, base, length);
            lemma_rank_of_digits_of(j as nat, base, length);
            lemma_rank_of_digits_of(k as nat, base, length);
            assert(all[j] == spell(charset, a));
            assert(all[k] == spell(charset, b));
            if all[j] == all[k] {
                lemma_spell_injective(charset, a, b);
            }
        }
    }
}

/// Of two ranks inside the space, the smaller has the digit string that
/// comes first in lexicographic order.
pub proof fn lemma_ranks_order_digits(base: nat, length: nat, j: nat, k: nat)
    requires
        1 <= base <= usize::MAX,
        j < k < space_size(base, length),
    ensures
        lex_less(digits_of(j, base, length), digits_of(k, base, length)),
{
    lemma_digits_of_valid(j, base, length);
    lemma_digits_of_valid(k, base, length);
    lemma_rank_of_digits_of(j, base, length);
    lemma_rank_of_digits_of(k, base, length);
    lemma_rank_orders_lex(digits_of(j, base, length), digits_of(k, base, length), base);
}

/// Some worker of `workers` hands out the candidate of rank `rank`.
pub open spec fn covered(charset: Seq<char>, length: nat, workers: nat, rank: nat) -> bool {
    exists|worker: nat| worker < workers && #[trigger] walks(charset, length, worker, workers, rank)
}

/// The shares of `workers` workers split the candidates of `length`: each
/// candidate is in some worker's share, and in no second one.
pub open spec fn partition_exact(charset: Seq<char>, length: nat, workers: nat) -> bool {
    &&& forall|rank: nat|
        rank < space_size(charset.len(), length) ==> #[trigger] covered(
            charset,
            length,
            workers,
            rank,
        )
    &&& forall|rank: nat, a: nat, b: nat|
        a < workers && b < workers && #[trigger] walks(charset, length, a, workers, rank)
            && #[trigger] walks(charset, length, b, workers, rank) ==> a == b
}

/// A worker hands out candidates of strictly increasing rank, so none
/// twice, and each of them lies inside the space.
pub proof fn lemma_share_ranks_increase(
    charset: Seq<char>,
    length: nat,
    worker: nat,
    workers: nat,
    j: int,
    k: int,
)
    requires
        length >= 1,
        worker < workers <= charset.len() <= usize::MAX,
        0 <= j < k < share(charset, length, worker, workers).len(),
    ensures
        share_start(charset, length, worker, workers).rank_at(j) < share_start(
            charset,
            length,
            worker,
            workers,
        ).rank_at(k) < space_size(charset.len(), length),
{
    let start = share_start(charset, length, worker, workers);
    lemma_share_start_valid(charset, length, worker, workers);
    lemma_remaining_ranks(start, j);
    lemma_remaining_ranks(start, k);
    assert(j * workers < k * workers) by (nonlinear_arith)
        requires
            j < k,
            workers >= 1,
    ;
}

/// With one worker, or with candidates of one symbol, the shares split the
/// space.
pub proof fn lemma_partition_exact(charset: Seq<char>, length: nat, workers: nat)
    requires
        length >= 1,
        1 <= workers <= charset.len() <= usize::MAX,
        length == 1 || workers == 1,
    ensures
        partition_exact(charset, length, workers),
{
    let base = charset.len();
    let space = space_size(base, length);
    let unit = space_size(base, (length - 1) as nat);
    lemma_space_size_unfold(base, 0);
    lemma_space_size_unfold(base, (length - 1) as nat);
    assert forall|rank: nat| rank < space implies #[trigger] covered(
        charset,
        length,
        workers,
        rank,
    ) by {
        let worker = if workers == 1 {
            0nat
        } else {
            rank % workers
        };
        let k = if workers == 1 {
            rank as int
        } else {
            (rank / workers) as int
        };
        let start = share_start(charset, length, worker, workers);
        lemma_fundamental_div_mod(rank as int, workers as int);
        assert(0 <= rank % workers < workers) by (nonlinear_arith)
            requires
                workers >= 1,
        ;
        assert(0 <= rank as int / workers as int) by (nonlinear_arith)
            requires
                workers >= 1,
                rank >= 0,
                rank == workers * (rank as int / workers as int) + rank % workers,
                rank % workers < workers,
        ;
        lemma_share_start_valid(charset, length, worker, workers);
        assert(start.position + k * workers == rank) by (nonlinear_arith)
            requires
                start.position == worker * unit,
                workers == 1 ==> worker == 0 && k == rank,
                workers != 1 ==> unit == 1 && worker == rank % workers && k == rank as int
                    / workers as int,
                rank == workers * (rank as int / workers as int) + rank % workers,
        ;
        lemma_remaining_ranks(start, k);
        assert(start.rank_at(k) == rank);
        assert(walks(charset, length, worker, workers, rank));
    }
    assert forall|rank: nat, a: nat, b: nat|
        a < workers && b < workers && #[trigger] walks(charset, length, a, workers, rank)
            && #[trigger] walks(charset, length, b, workers, rank) implies a == b by {
        if workers > 1 {
            let start_a = share_start(charset, length, a, workers);
            let start_b = share_start(charset, length, b, workers);
            let ka = choose|k: int|
                0 <= k < start_a.remaining_len() && #[trigger] start_a.rank_at(k) == rank;
            let kb = choose|k: int|
                0 <= k < start_b.remaining_len() && #[trigger] start_b.rank_at(k) == rank;
            lemma_share_start_valid(charset, length, a, workers);
            lemma_share_start_valid(charset, length, b, workers);
            lemma_remaining_ranks(start_a, ka);
            lemma_remaining_ranks(start_b, kb);
            assert(a * unit == a && b * unit == b) by (nonlinear_arith)
                requires
                    unit == 1,
            ;
            assert(rank == workers * ka + a && rank == workers * kb + b) by (nonlinear_arith)
                requires
                    rank == a + ka * workers,
                    rank == b + kb * workers,
            ;
            lemma_fundamental_div_mod_converse(rank as int, workers as int, ka, a as int);
            lemma_fundamental_div_mod_converse(rank as int, workers as int, kb, b as int);
        }
    }
}

/// With two workers or more and candidates of two symbols or more, no
/// worker hands out the candidate of rank one: the shares leave a gap.
pub proof fn lemma_partition_gap(charset: Seq<char>, length: nat, workers: nat)
    requires
        length >= 2,
        2 <= workers <= charset.len() <= usize::MAX,
    ensures
        1 < space_size(charset.len(), length),
        !covered(charset, length, workers, 1),
{
    let base = charset.len();
    let unit = space_size(base, (length - 1) as nat);
    lemma_space_size_unfold(base, (length - 1) as nat);
    lemma_space_size_unfold(base, (length - 2) as nat);
    let below = space_size(base, (length - 2) as nat);
    assert(unit >= 2) by (nonlinear_arith)
        requires
            unit == below * base,
            below >= 1,
            base >= 2,
    ;
    assert(unit * base >= 4) by (nonlinear_arith)
        requires
            unit >= 2,
            base >= 2,
    ;
    assert forall|worker: nat| worker < workers implies !#[trigger] walks(
        charset,
        length,
        worker,
        workers,
        1,
    ) by {
        let start = share_start(charset, length, worker, workers);
        if walks(charset, length, worker, workers, 1) {
            let k = choose|k: int|
                0 <= k < start.remaining_len() && #[trigger] start.rank_at(k) == 1;
            lemma_share_start_valid(charset, length, worker, workers);
            lemma_remaining_ranks(start, k);
            assert(worker * unit + k * workers != 1) by (nonlinear_arith)
                requires
                    unit >= 2,
                    workers >= 2,
                    k >= 0,
                    worker >= 0,
            ;
        }
    }
}

/// The shares of a round split the space exactly when one worker walks
/// alone or the candidates have one symbol.
pub proof fn lemma_partition_exact_iff(charset: Seq<char>, length: nat, workers: nat)
    requires
        length >= 1,
        1 <= workers <= charset.len() <= usize::MAX,
    ensures
        partition_exact(charset, length, workers) <==> length == 1 || workers == 1,
{
    if length == 1 || workers == 1 {
        lemma_partition_exact(charset, length, workers);
    } else {
        lemma_partition_gap(charset, length, workers);
    }
}

/// Every candidate in a worker's share is the candidate of a rank inside the
/// space that the worker walks.
pub proof fn lemma_share_holds_walked(
    charset: Seq<char>,
    length: nat,
    worker: nat,
    workers: nat,
    k: int,
)
    requires
        length >= 1,
        worker < workers <= charset.len() <= usize::MAX,
        0 <= k < share(charset, length, worker, workers).len(),
    ensures
        share_start(charset, length, worker, workers).rank_at(k) < space_size(
            charset.len(),
            length,
        ),
        walks(
            charset,
            length,
            worker,
            workers,
            share_start(charset, length, worker, workers).rank_at(k),
        ),
        share(charset, length, worker, workers)[k] == candidate_of(
            charset,
            length,
            share_start(charset, length, worker, workers).rank_at(k),
        ),
{
    let start = share_start(charset, length, worker, workers);
    lemma_share_start_valid(charset, length, worker, workers);
    lemma_remaining_ranks(start, k);
}

/// A round reports a match exactly when some candidate that one of its
/// workers hands out has the target digest.
pub proof fn lemma_match_iff_candidate_hashes(
    charset: Seq<char>,
    length: nat,
    workers: nat,
    target: Seq<char>,
    outcome: SearchOutcome,
)
    requires
        round_reports(charset, length, workers, target, outcome),
    ensures
        outcome is Match <==> exists|worker: nat, k: int|
            worker < workers && 0 <= k < share(charset, length, worker, workers).len() && is_match(
                #[trigger] share(charset, length, worker, workers)[k],
                target,
            ),
{
    match outcome {
        SearchOutcome::Match { password, worker } => {
            let found = share(charset, length, worker as nat, workers);
            let k = choose|k: int| first_match_at(found, target, k) && found[k] == password@;
            assert(is_match(share(charset, length, worker as nat, workers)[k], target));
        },
        SearchOutcome::NoMatch => {
            assert forall|worker: nat, k: int|
                worker < workers && 0 <= k < share(charset, length, worker, workers).len()
                    implies !is_match(
                #[trigger] share(charset, length, worker, workers)[k],
                target,
            ) by {
                assert(no_match(share(charset, length, worker, workers), target));
            }
        },
    }
}

/// The number of workers does not change what a round recovers, provided
/// that every candidate with the target digest lies in some worker's share
/// and that all of them spell one password: the round of `workers` workers
/// and the round of one worker then report the same password, or both none.
pub proof fn lemma_worker_count_irrelevant(
    charset: Seq<char>,
    length: nat,
    workers: nat,
    target: Seq<char>,
    many: SearchOutcome,
    one: SearchOutcome,
)
    requires
        length >= 1,
        1 <= workers <= charset.len() <= usize::MAX,
        round_reports(charset, length, workers, target, many),
        round_reports(charset, length, 1, target, one),
        forall|rank: nat|
            rank < space_size(charset.len(), length) && is_match(
                #[trigger] candidate_of(charset, length, rank),
                target,
            ) ==> covered(charset, length, workers, rank),
        forall|a: nat, b: nat|
            a < space_size(charset.len(), length) && b < space_size(charset.len(), length)
                && is_match(#[trigger] candidate_of(charset, length, a), target) && is_match(
                #[trigger] candidate_of(charset, length, b),
                target,
            ) ==> candidate_of(charset, length, a) == candidate_of(charset, length, b),
    ensures
        match (many, one) {
            (
                SearchOutcome::Match { password: by_many, .. },
                SearchOutcome::Match { password: by_one, .. },
            ) => by_many@ == by_one@,
            (SearchOutcome::NoMatch, SearchOutcome::NoMatch) => true,
            _ => false,
        },
{
    let space = space_size(charset.len(), length);
    let all = share(charset, length, 0, 1);
    lemma_enumerates_whole_space(charset, length);
    assert(0 * space_size(charset.len(), (length - 1) as nat) == 0) by (nonlinear_arith);
    assert(share_start(charset, length, 0, 1) == whole_space(charset, length));
    match many {
        SearchOutcome::Match { password: by_many, worker } => {
            let found = share(charset, length, worker as nat, workers);
            let k = choose|k: int| first_match_at(found, target, k) && found[k] == by_many@;
            lemma_share_holds_walked(charset, length, worker as nat, workers, k);
            let rank = share_start(charset, length, worker as nat, workers).rank_at(k);
            assert(is_match(candidate_of(charset, length, rank), target));
            assert(all[rank as int] == candidate_of(charset, length, rank));
            match one {
                SearchOutcome::Match { password: by_one, worker: sole } => {
                    assert(sole == 0);
                    let at = choose|at: int| first_match_at(all, target, at) && all[at] == by_one@;
                    assert(all[at] == candidate_of(charset, length, at as nat));
                },
                SearchOutcome::NoMatch => {
                    assert(no_match(share(charset, length, 0, 1), target));
                    assert(!is_match(all[rank as int], target));
                },
            }
        },
        SearchOutcome::NoMatch => {
            match one {
                SearchOutcome::Match { password: by_one, worker: sole } => {
                    assert(sole == 0);
                    let at = choose|at: int| first_match_at(all, target, at) && all[at] == by_one@;
                    assert(all[at] == candidate_of(charset, length, at as nat));
                    assert(covered(charset, length, workers, at as nat));
                    let worker = choose|worker: nat|
                        worker < workers && #[trigger] walks(
                            charset,
                            length,
                            worker,
                            workers,
                            at as nat,
                        );
                    let start = share_start(charset, length, worker, workers);
                    let k = choose|k: int|
                        0 <= k < start.remaining_len() && #[trigger] start.rank_at(k) == at as nat;
                    assert(no_match(share(charset, length, worker, workers), target));
                    assert(share(charset, length, worker, workers)[k] == candidate_of(
                        charset,
                        length,
                        at as nat,
                    ));
                },
                SearchOutcome::NoMatch => {},
            }
        },
    }
}

/// A round over candidates shorter than a password reports no match for the
/// digest of that password, unless a candidate of the round has that digest
/// too.
pub proof fn lemma_no_match_below_length(
    charset: Seq<char>,
    length: nat,
    workers: nat,
    password: Seq<char>,
    outcome: SearchOutcome,
)
    requires
        1 <= length < password.len(),
        1 <= workers <= charset.len() <= usize::MAX,
        round_reports(charset, length, workers, md5_hex(password), outcome),
        forall|rank: nat|
            rank < space_size(charset.len(), length) ==> md5_hex(
                #[trigger] candidate_of(charset, length, rank),
            ) != md5_hex(password),
    ensures
        outcome is NoMatch,
{
    match outcome {
        SearchOutcome::Match { password: reported, worker } => {
            let found = share(charset, length, worker as nat, workers);
            let k = choose|k: int|
                first_match_at(found, md5_hex(password), k) && found[k] == reported@;
            lemma_share_holds_walked(charset, length, worker as nat, workers, k);
        },
        SearchOutcome::NoMatch => {},
    }
}

} // verus!
