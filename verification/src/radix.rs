//! The arithmetic of fixed-length digit strings over an alphabet.
//!
//! A candidate of length `len` over `base` symbols is a sequence of `len`
//! digits, most significant first. Read as a number in that base it has a
//! rank in `0 .. base^len`; ranks order candidates lexicographically.

use vstd::arithmetic::div_mod::{lemma_fundamental_div_mod, lemma_fundamental_div_mod_converse};
use vstd::arithmetic::power::{lemma0_pow, lemma_pow0, lemma_pow_positive, pow};
use vstd::prelude::*;

verus! {

/// How many digit strings of length `len` there are over `base` symbols.
pub open spec fn space_size(base: nat, len: nat) -> nat {
    pow(base as int, len) as nat
}

/// Every digit names a position of the alphabet.
pub open spec fn digits_valid(digits: Seq<usize>, base: nat) -> bool {
    forall|i: int| 0 <= i < digits.len() ==> (#[trigger] digits[i]) < base
}

/// The rank of a digit string: its value as a number written in `base`,
/// most significant digit first.
pub open spec fn rank_of(digits: Seq<usize>, base: nat) -> nat
    decreases digits.len(),
{
    if digits.len() == 0 {
        0
    } else {
        rank_of(digits.drop_last(), base) * base + digits.last() as nat
    }
}

/// The digit string of length `len` whose rank is `n` (taken modulo
/// `base^len`).
pub open spec fn digits_of(n: nat, base: nat, len: nat) -> Seq<usize>
    decreases len,
{
    if len == 0 {
        Seq::empty()
    } else {
        digits_of(n / base, base, (len - 1) as nat).push((n % base) as usize)
    }
}

/// `a` comes before `b` in lexicographic order: they agree up to some
/// position, at which `a` has the smaller digit.
pub open spec fn lex_less(a: Seq<usize>, b: Seq<usize>) -> bool {
    exists|i: int|
        0 <= i < a.len() && i < b.len() && #[trigger] a[i] < b[i] && a.subrange(0, i) == b.subrange(
            0,
            i,
        )
}

pub proof fn lemma_space_size_unfold(base: nat, len: nat)
    ensures
        space_size(base, 0) == 1,
        space_size(base, len + 1) == space_size(base, len) * base,
        base >= 1 ==> space_size(base, len) >= 1,
{
    reveal(pow);
    lemma_pow0(base as int);
    if base >= 1 {
        lemma_pow_positive(base as int, len);
    }
    assert(pow(base as int, len) >= 0) by {
        if base >= 1 {
            lemma_pow_positive(base as int, len);
        } else if len > 0 {
            lemma0_pow(len);
        }
    }
    assert(pow(base as int, len + 1) == base * pow(base as int, len));
    assert(base * pow(base as int, len) == pow(base as int, len) * base) by (nonlinear_arith);
    assert(pow(base as int, len) * base >= 0) by (nonlinear_arith)
        requires
            pow(base as int, len) >= 0,
            base >= 0,
    ;
}

/// A valid digit string has a rank below the size of its space.
pub proof fn lemma_rank_bound(digits: Seq<usize>, base: nat)
    requires
        digits_valid(digits, base),
    ensures
        rank_of(digits, base) < space_size(base, digits.len()),
    decreases digits.len(),
{
    if digits.len() == 0 {
        lemma_space_size_unfold(base, 0);
    } else {
        let front = digits.drop_last();
        assert forall|i: int| 0 <= i < front.len() implies (#[trigger] front[i]) < base by {
            assert(front[i] == digits[i]);
        }
        lemma_rank_bound(front, base);
        lemma_space_size_unfold(base, front.len());
        let r = rank_of(front, base);
        let s = space_size(base, front.len());
        assert(digits.last() < base);
        assert(r * base + base <= s * base) by (nonlinear_arith)
            requires
                r + 1 <= s,
        ;
        assert(digits.len() == front.len() + 1);
    }
}

/// `digits_of` yields a valid digit string of the length asked for.
pub proof fn lemma_digits_of_valid(n: nat, base: nat, len: nat)
    requires
        1 <= base <= usize::MAX,
    ensures
        digits_of(n, base, len).len() == len,
        digits_valid(digits_of(n, base, len), base),
    decreases len,
{
    if len > 0 {
        lemma_digits_of_valid(n / base, base, (len - 1) as nat);
        let front = digits_of(n / base, base, (len - 1) as nat);
        let all = digits_of(n, base, len);
        assert(n % base < base) by (nonlinear_arith)
            requires
                base >= 1,
        ;
        assert forall|i: int| 0 <= i < all.len() implies (#[trigger] all[i]) < base by {
            if i < len - 1 {
                assert(all[i] == front[i]);
            }
        }
    }
}

/// The rank of the digit string of `n` is `n`, for `n` inside the space.
pub proof fn lemma_rank_of_digits_of(n: nat, base: nat, len: nat)
    requires
        1 <= base <= usize::MAX,
        n < space_size(base, len),
    ensures
        rank_of(digits_of(n, base, len), base) == n,
    decreases len,
{
    if len == 0 {
        lemma_space_size_unfold(base, 0);
    } else {
        let shorter = (len - 1) as nat;
        lemma_space_size_unfold(base, shorter);
        let s = space_size(base, shorter);
        lemma_fundamental_div_mod(n as int, base as int);
        assert(n / base < s) by (nonlinear_arith)
            requires
                n < s * base,
                base >= 1,
                n == base * (n / base) + n % base,
                n % base >= 0,
        ;
        lemma_rank_of_digits_of(n / base, base, shorter);
        let front = digits_of(n / base, base, shorter);
        let all = digits_of(n, base, len);
        assert(all.drop_last() =~= front);
        assert(n % base < base) by (nonlinear_arith)
            requires
                base >= 1,
        ;
        assert((n / base) * base == base * (n / base)) by (nonlinear_arith);
    }
}

/// A valid digit string is the digit string of its rank.
pub proof fn lemma_digits_of_rank_of(digits: Seq<usize>, base: nat)
    requires
        digits_valid(digits, base),
    ensures
        digits_of(rank_of(digits, base), base, digits.len()) =~= digits,
    decreases digits.len(),
{
    if digits.len() > 0 {
        let front = digits.drop_last();
        assert forall|i: int| 0 <= i < front.len() implies (#[trigger] front[i]) < base by {
            assert(front[i] == digits[i]);
        }
        lemma_digits_of_rank_of(front, base);
        let r = rank_of(front, base);
        let d = digits.last() as nat;
        let n = rank_of(digits, base);
        assert(d < base);
        assert(n == base * r + d) by (nonlinear_arith)
            requires
                n == r * base + d,
        ;
        lemma_fundamental_div_mod_converse(n as int, base as int, r as int, d as int);
        assert(digits_of(n, base, digits.len()) == digits_of(r, base, front.len()).push(
            d as usize,
        ));
    }
}

/// Two valid digit strings of one length with one rank are equal.
pub proof fn lemma_rank_injective(a: Seq<usize>, b: Seq<usize>, base: nat)
    requires
        a.len() == b.len(),
        digits_valid(a, base),
        digits_valid(b, base),
        rank_of(a, base) == rank_of(b, base),
    ensures
        a == b,
{
    lemma_digits_of_rank_of(a, base);
    lemma_digits_of_rank_of(b, base);
}

/// Counting up by one. `next` arises from `cur` by raising digit `at` by one
/// and clearing every digit behind it, all of which stood at `base - 1`.
pub proof fn lemma_rank_successor(cur: Seq<usize>, next: Seq<usize>, base: nat, at: int)
    requires
        cur.len() == next.len(),
        0 <= at < cur.len(),
        forall|j: int| 0 <= j < at ==> next[j] == cur[j],
        next[at] == cur[at] + 1,
        forall|j: int| at < j < cur.len() ==> cur[j] == base - 1 && next[j] == 0,
    ensures
        rank_of(next, base) == rank_of(cur, base) + 1,
    decreases cur.len(),
{
    let cur_front = cur.drop_last();
    let next_front = next.drop_last();
    if at == cur.len() - 1 {
        assert(cur_front =~= next_front);
    } else {
        lemma_rank_successor(cur_front, next_front, base, at);
        let r = rank_of(cur_front, base);
        assert((r + 1) * base == r * base + base) by (nonlinear_arith);
    }
}

/// Counting up from the last digit string: every digit of `cur` stands at
/// `base - 1`, and clearing them all gives the first digit string again.
pub proof fn lemma_rank_wraps(cur: Seq<usize>, next: Seq<usize>, base: nat)
    requires
        cur.len() == next.len(),
        base >= 1,
        forall|j: int| 0 <= j < cur.len() ==> cur[j] == base - 1 && next[j] == 0,
    ensures
        rank_of(cur, base) + 1 == space_size(base, cur.len()),
        rank_of(next, base) == 0,
    decreases cur.len(),
{
    if cur.len() == 0 {
        lemma_space_size_unfold(base, 0);
    } else {
        let shorter = (cur.len() - 1) as nat;
        lemma_rank_wraps(cur.drop_last(), next.drop_last(), base);
        lemma_space_size_unfold(base, shorter);
        let r = rank_of(cur.drop_last(), base);
        let s = space_size(base, shorter);
        assert(r * base + base == s * base) by (nonlinear_arith)
            requires
                r + 1 == s,
        ;
        assert(rank_of(next.drop_last(), base) * base == 0) by (nonlinear_arith)
            requires
                rank_of(next.drop_last(), base) == 0,
        ;
    }
}

/// Ranks order valid digit strings of one length as the lexicographic order
/// of their digits does.
pub proof fn lemma_rank_orders_lex(a: Seq<usize>, b: Seq<usize>, base: nat)
    requires
        a.len() == b.len(),
        digits_valid(a, base),
        digits_valid(b, base),
    ensures
        rank_of(a, base) < rank_of(b, base) <==> lex_less(a, b),
    decreases a.len(),
{
    if a.len() > 0 {
        let last = a.len() - 1;
        let a_front = a.drop_last();
        let b_front = b.drop_last();
        assert forall|i: int| 0 <= i < a_front.len() implies (#[trigger] a_front[i]) < base by {
            assert(a_front[i] == a[i]);
        }
        assert forall|i: int| 0 <= i < b_front.len() implies (#[trigger] b_front[i]) < base by {
            assert(b_front[i] == b[i]);
        }
        lemma_rank_orders_lex(a_front, b_front, base);
        let ra = rank_of(a_front, base);
        let rb = rank_of(b_front, base);
        let x = a.last() as nat;
        let y = b.last() as nat;
        assert(x < base && y < base);
        assert(a_front =~= a.subrange(0, last));
        assert(b_front =~= b.subrange(0, last));
        if rank_of(a, base) < rank_of(b, base) {
            if ra < rb {
                let i = choose|i: int|
                    0 <= i < a_front.len() && i < b_front.len() && #[trigger] a_front[i]
                        < b_front[i] && a_front.subrange(0, i) == b_front.subrange(0, i);
                assert(a[i] == a_front[i] && b[i] == b_front[i]);
                assert(a.subrange(0, i) =~= a_front.subrange(0, i));
                assert(b.subrange(0, i) =~= b_front.subrange(0, i));
                assert(a[i] < b[i]);
            } else if ra == rb {
                lemma_rank_injective(a_front, b_front, base);
                assert(a[last] < b[last]);
            } else {
                assert(ra * base + x >= rb * base + base) by (nonlinear_arith)
                    requires
                        ra >= rb + 1,
                ;
            }
            assert(lex_less(a, b));
        }
        if lex_less(a, b) {
            let i = choose|i: int|
                0 <= i < a.len() && i < b.len() && #[trigger] a[i] < b[i] && a.subrange(0, i)
                    == b.subrange(0, i);
            if i < last {
                assert(a_front[i] == a[i] && b_front[i] == b[i]);
                assert(a_front.subrange(0, i) =~= a.subrange(0, i));
                assert(b_front.subrange(0, i) =~= b.subrange(0, i));
                assert(a_front[i] < b_front[i]);
                assert(lex_less(a_front, b_front));
                assert(ra * base + base <= rb * base) by (nonlinear_arith)
                    requires
                        ra + 1 <= rb,
                ;
            } else {
                assert(a_front == b_front);
            }
            assert(rank_of(a, base) < rank_of(b, base));
        }
    }
}

} // verus!
