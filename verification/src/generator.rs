//! The lazy enumerator of one worker's candidates for one length.

use crate::radix::{
    digits_of, digits_valid, lemma_digits_of_rank_of, lemma_rank_bound, lemma_rank_successor,
    lemma_rank_wraps, lemma_space_size_unfold, rank_of, space_size,
};
use vstd::arithmetic::div_mod::{
    lemma_add_mod_noop, lemma_fundamental_div_mod, lemma_mod_self_0, lemma_small_mod,
};
use vstd::prelude::*;
use vstd::slice::slice_to_vec;

verus! {

/// Taken on trust from the documentation of std's `String::push`: the
/// string afterwards is the string before with `ch` appended at its end.
pub assume_specification[ String::push ](s: &mut String, ch: char)
    ensures
        final(s)@ == old(s)@.push(ch),
;

/// The string that a digit string spells over an alphabet.
pub open spec fn spell(charset: Seq<char>, digits: Seq<usize>) -> Seq<char> {
    Seq::new(digits.len(), |i: int| charset[digits[i] as int])
}

/// The candidate of `length` symbols that has the rank `rank`.
pub open spec fn candidate_of(charset: Seq<char>, length: nat, rank: nat) -> Seq<char> {
    spell(charset, digits_of(rank, charset.len(), length))
}

/// What a generator is: a counter over the ranks of the candidates of one
/// length, which moves on by `stride` after each candidate it hands out.
pub struct GeneratorState {
    /// The alphabet.
    pub charset: Seq<char>,
    /// The length of every candidate.
    pub length: nat,
    /// The rank of the candidate that is handed out next.
    pub position: nat,
    /// Whether the counter has run past the last candidate.
    pub done: bool,
    /// The share of the space that this generator walks.
    pub offset: nat,
    /// How many ranks lie between one candidate and the next.
    pub stride: nat,
}

impl GeneratorState {
    /// The size of the alphabet.
    pub open spec fn base(self) -> nat {
        self.charset.len()
    }

    /// The number of candidates of this length.
    pub open spec fn space(self) -> nat {
        space_size(self.base(), self.length)
    }

    /// The state of a generator that can be asked for candidates.
    pub open spec fn valid(self) -> bool {
        &&& 1 <= self.base() <= usize::MAX
        &&& 1 <= self.length
        &&& self.offset < self.stride
        &&& self.position < self.space()
    }

    /// The candidate that is handed out next.
    pub open spec fn candidate(self) -> Seq<char> {
        candidate_of(self.charset, self.length, self.position)
    }

    /// The state after counting up `steps` times by one. The counter wraps
    /// round at the end of the space, and is done from then on.
    pub open spec fn shift(self, steps: nat) -> GeneratorState {
        GeneratorState {
            position: (self.position + steps) % self.space(),
            done: self.done || self.position + steps >= self.space(),
            ..self
        }
    }

    /// The state after handing out one candidate.
    pub open spec fn advance(self) -> GeneratorState {
        self.shift(self.stride)
    }

    /// How many candidates are still to come: one for each rank
    /// `position + k * stride` below the size of the space.
    pub open spec fn remaining_len(self) -> nat {
        if self.done || self.stride == 0 || self.position >= self.space() {
            0
        } else {
            ((self.space() - self.position + self.stride - 1) / (self.stride as int)) as nat
        }
    }

    /// The rank of the candidate that comes after `k` others.
    pub open spec fn rank_at(self, k: int) -> nat {
        (self.position + k * self.stride) as nat
    }

    /// The candidates still to come, in the order in which they are handed
    /// out.
    pub open spec fn remaining(self) -> Seq<Seq<char>> {
        Seq::new(
            self.remaining_len(),
            |k: int| candidate_of(self.charset, self.length, self.rank_at(k)),
        )
    }
}

/// The candidates to come are those at the ranks `position + k * stride`
/// that lie inside the space.
pub proof fn lemma_remaining_ranks(s: GeneratorState, k: int)
    requires
        s.valid(),
        !s.done,
        0 <= k,
    ensures
        k < s.remaining_len() <==> s.rank_at(k) < s.space(),
        s.rank_at(k) == s.position + k * s.stride,
{
    let room = s.space() - s.position - 1;
    let stride = s.stride as int;
    let len = s.remaining_len() as int;
    assert(len == (room + stride) / stride);
    lemma_fundamental_div_mod(room + stride, stride);
    assert(0 <= (room + stride) % stride < stride) by (nonlinear_arith)
        requires
            stride >= 1,
    ;
    assert(k * stride >= 0) by (nonlinear_arith)
        requires
            k >= 0,
            stride >= 1,
    ;
    if k < len {
        assert(k * stride <= room) by (nonlinear_arith)
            requires
                k + 1 <= len,
                stride >= 1,
                room + stride == stride * len + (room + stride) % stride,
                0 <= (room + stride) % stride,
        ;
    } else {
        assert(k * stride > room) by (nonlinear_arith)
            requires
                k >= len,
                stride >= 1,
                room + stride == stride * len + (room + stride) % stride,
                (room + stride) % stride < stride,
        ;
    }
}

/// Handing out one candidate takes the first of those to come and leaves
/// the rest; a generator that is done has none to come.
pub proof fn lemma_remaining_unfold(s: GeneratorState)
    requires
        s.valid(),
    ensures
        s.advance().valid(),
        s.done ==> s.remaining().len() == 0,
        !s.done ==> s.remaining().len() >= 1 && s.remaining()[0] == s.candidate()
            && s.advance().remaining() == s.remaining().skip(1),
{
    lemma_shift_once_more(s, s.stride);
    if !s.done {
        let next = s.advance();
        lemma_remaining_ranks(s, 0);
        assert(0 * s.stride == 0) by (nonlinear_arith);
        assert(s.rank_at(0) == s.position);
        lemma_remaining_ranks(s, 1);
        assert(1 * s.stride == s.stride) by (nonlinear_arith);
        if next.done {
            assert(next.remaining_len() == 0);
            assert(s.remaining_len() == 1);
        } else {
            lemma_small_mod(s.position + s.stride, s.space());
            assert(next.position == s.position + s.stride);
            let n = next.remaining_len() as int;
            let m = s.remaining_len() as int;
            assert forall|k: int| 0 <= k implies #[trigger] next.rank_at(k) == s.rank_at(k + 1) by {
                assert((k + 1) * s.stride == k * s.stride + s.stride) by (nonlinear_arith);
            }
            lemma_remaining_ranks(next, n);
            lemma_remaining_ranks(s, n + 1);
            assert(next.rank_at(n) == s.rank_at(n + 1));
            if n >= 1 {
                lemma_remaining_ranks(next, n - 1);
                lemma_remaining_ranks(s, n);
                assert(next.rank_at(n - 1) == s.rank_at(n - 1 + 1));
            }
            assert(n + 1 == m);
        }
        assert(next.remaining() =~= s.remaining().skip(1));
    }
}

/// The state of a generator that walks through every candidate of `length`
/// over `charset`: it starts at the first and takes each in turn.
pub open spec fn whole_space(charset: Seq<char>, length: nat) -> GeneratorState {
    GeneratorState { charset, length, position: 0, done: false, offset: 0, stride: 1 }
}

/// The state of a generator that walks the share `offset`: it starts at the
/// first candidate whose leading digit is `offset` and takes every
/// `stride`-th candidate from there.
pub open spec fn share_start(
    charset: Seq<char>,
    length: nat,
    offset: nat,
    stride: nat,
) -> GeneratorState {
    GeneratorState {
        charset,
        length,
        position: offset * space_size(charset.len(), (length - 1) as nat),
        done: false,
        offset,
        stride,
    }
}

/// Counting up by `steps` and then by one more is counting up by
/// `steps + 1`.
pub proof fn lemma_shift_once_more(s: GeneratorState, steps: nat)
    requires
        s.valid(),
    ensures
        s.shift(steps).shift(1) == s.shift(steps + 1),
        s.shift(0) == s,
        s.shift(steps).valid(),
{
    let space = s.space();
    lemma_add_mod_noop((s.position + steps) as int, 1, space as int);
    lemma_small_mod(s.position, s.space());
    if s.position + steps < space {
        lemma_small_mod(s.position + steps, s.space());
    }
    if space == 1 {
        assert((s.position + steps + 1) % 1 == 0);
        assert((s.position + steps) % 1 == 0);
    } else {
        lemma_small_mod(1, space);
    }
    assert(0 <= (s.position + steps) % space < space) by (nonlinear_arith)
        requires
            space >= 1,
    ;
}

/// A lazy enumerator of candidate passwords of one length over an alphabet.
///
/// It hands out the candidate at its position and then counts up by its
/// stride, until the count runs past the last candidate.
pub struct PasswordGenerator {
    charset: Vec<char>,
    current_password: Vec<usize>,
    length: usize,
    done: bool,
    offset: usize,
    stride: usize,
}

impl View for PasswordGenerator {
    type V = GeneratorState;

    closed spec fn view(&self) -> GeneratorState {
        GeneratorState {
            charset: self.charset@,
            length: self.length as nat,
            position: rank_of(self.current_password@, self.charset@.len()),
            done: self.done,
            offset: self.offset as nat,
            stride: self.stride as nat,
        }
    }
}

/// The rank of a digit string of zeros is zero.
proof fn lemma_rank_of_zeros(digits: Seq<usize>, base: nat)
    requires
        forall|j: int| 0 <= j < digits.len() ==> digits[j] == 0,
    ensures
        rank_of(digits, base) == 0,
    decreases digits.len(),
{
    if digits.len() > 0 {
        lemma_rank_of_zeros(digits.drop_last(), base);
        assert(rank_of(digits.drop_last(), base) * base == 0) by (nonlinear_arith)
            requires
                rank_of(digits.drop_last(), base) == 0,
        ;
    }
}

/// The rank of a digit string whose first digit alone is set.
proof fn lemma_rank_of_leading_digit(digits: Seq<usize>, base: nat)
    requires
        digits.len() >= 1,
        forall|j: int| 1 <= j < digits.len() ==> digits[j] == 0,
    ensures
        rank_of(digits, base) == digits[0] * space_size(base, (digits.len() - 1) as nat),
    decreases digits.len(),
{
    let front = digits.drop_last();
    let lead = digits[0] as int;
    if digits.len() == 1 {
        lemma_rank_of_zeros(front, base);
        lemma_space_size_unfold(base, 0);
        assert(rank_of(digits, base) == rank_of(front, base) * base + digits.last());
        assert(0 * base == 0) by (nonlinear_arith);
        assert(lead * 1 == lead) by (nonlinear_arith);
    } else {
        lemma_rank_of_leading_digit(front, base);
        let shorter = (front.len() - 1) as nat;
        lemma_space_size_unfold(base, shorter);
        let s = space_size(base, shorter) as int;
        assert(front[0] == digits[0]);
        assert(digits.last() == 0);
        assert(rank_of(front, base) == lead * s);
        assert(rank_of(digits, base) == rank_of(front, base) * base + digits.last());
        assert(space_size(base, (digits.len() - 1) as nat) == s * base);
        assert((lead * s) * base == lead * (s * base)) by (nonlinear_arith);
    }
}

/// A digit string of `length` zeros: the first candidate of its length.
fn first_candidate(length: usize) -> (digits: Vec<usize>)
    ensures
        digits@.len() == length,
        forall|j: int| 0 <= j < length ==> digits@[j] == 0,
{
    let mut digits: Vec<usize> = Vec::new();
    while digits.len() < length
        invariant
            digits@.len() <= length,
            forall|j: int| 0 <= j < digits@.len() ==> digits@[j] == 0,
        decreases length - digits@.len(),
    {
        digits.push(0);
    }
    digits
}

impl PasswordGenerator {
    /// What the fields must hold beyond what the view shows.
    pub closed spec fn inv(&self) -> bool {
        &&& self.current_password@.len() == self.length
        &&& digits_valid(self.current_password@, self.charset@.len())
    }

    /// The generator can be asked for candidates.
    pub open spec fn wf(&self) -> bool {
        self.inv() && self@.valid()
    }

    /// A generator of every candidate of `length` over `charset`, in
    /// lexicographic order.
    ///
    /// It is well formed unless the alphabet is empty or the length zero.
    pub fn new(charset: &[char], length: usize) -> (generator: Self)
        ensures
            generator@ == whole_space(charset@, length as nat),
            generator.wf() <==> charset@.len() >= 1 && length >= 1,
    {
        let base = charset.len();
        let generator = Self {
            charset: slice_to_vec(charset),
            current_password: first_candidate(length),
            length,
            done: false,
            offset: 0,
            stride: 1,
        };
        proof {
            let digits = generator.current_password@;
            lemma_rank_of_zeros(digits, base as nat);
            lemma_space_size_unfold(base as nat, length as nat);
            if base >= 1 {
                assert forall|j: int| 0 <= j < digits.len() implies (#[trigger] digits[j])
                    < base by {
                    assert(digits[j] == 0);
                }
            }
        }
        generator
    }

    /// A generator of the share `offset` of the candidates of `length` over
    /// `charset`: it starts at the first candidate whose leading digit is
    /// `offset` and takes every `stride`-th candidate from there.
    pub fn with_offset_and_stride(
        charset: &[char],
        length: usize,
        offset: usize,
        stride: usize,
    ) -> (generator: Self)
        requires
            length >= 1,
            offset < stride <= charset@.len(),
        ensures
            generator.wf(),
            generator@ == share_start(charset@, length as nat, offset as nat, stride as nat),
    {
        let base = charset.len();
        let mut current_password = first_candidate(length);
        current_password[0] = offset;
        let generator = Self {
            charset: slice_to_vec(charset),
            current_password,
            length,
            done: false,
            offset,
            stride,
        };
        proof {
            let digits = generator.current_password@;
            assert forall|j: int| 0 <= j < digits.len() implies (#[trigger] digits[j]) < base by {
                if j > 0 {
                    assert(digits[j] == 0);
                }
            }
            lemma_rank_of_leading_digit(digits, base as nat);
            lemma_rank_bound(digits, base as nat);
        }
        generator
    }
    /// Counts up by one: raises the last digit, and carries to the left
    /// while a digit runs past the alphabet. A carry out of the first digit
    /// leaves the first candidate again and marks the generator as done.
    fn step(&mut self)
        requires
            old(self).wf(),
        ensures
            final(self).wf(),
            final(self)@ == old(self)@.shift(1),
    {
        let ghost base = self.charset@.len();
        let ghost before = self.current_password@;
        let mut i: usize = self.length - 1;
        let mut carried_out = false;
        loop
            invariant_except_break
                !carried_out,
                forall|j: int| 0 <= j <= i ==> self.current_password@[j] == before[j],
            invariant
                0 <= i < self.length,
                base == self.charset@.len(),
                1 <= base <= usize::MAX,
                self.charset@ == old(self).charset@,
                self.length == old(self).length,
                self.offset == old(self).offset,
                self.stride == old(self).stride,
                self.current_password@.len() == self.length,
                before.len() == self.length,
                digits_valid(before, base),
                forall|j: int| i < j < self.length ==> before[j] == base - 1,
                forall|j: int| i < j < self.length ==> self.current_password@[j] == 0,
                carried_out ==> self.done,
                !carried_out ==> self.done == old(self).done,
            ensures
                carried_out ==> (forall|j: int| 0 <= j < self.length ==> before[j] == base - 1),
                carried_out ==> (forall|j: int|
                    0 <= j < self.length ==> self.current_password@[j] == 0),
                !carried_out ==> {
                    &&& forall|j: int| 0 <= j < i ==> self.current_password@[j] == before[j]
                    &&& self.current_password@[i as int] == before[i as int] + 1
                    &&& before[i as int] + 1 < base
                },
            decreases i,
        {
            let digit = self.current_password[i];
            assert(digit == before[i as int]);
            if digit + 1 < self.charset.len() {
                self.current_password[i] = digit + 1;
                break ;
            }
            self.current_password[i] = 0;
            if i == 0 {
                self.done = true;
                carried_out = true;
                break ;
            }
            i -= 1;
        }
        proof {
            let after = self.current_password@;
            lemma_rank_bound(before, base);
            if carried_out {
                lemma_rank_wraps(before, after, base);
                lemma_mod_self_0(old(self)@.space() as int);
                assert forall|j: int| 0 <= j < after.len() implies (#[trigger] after[j])
                    < base by {
                    assert(after[j] == 0);
                }
            } else {
                lemma_rank_successor(before, after, base, i as int);
                assert forall|j: int| 0 <= j < after.len() implies (#[trigger] after[j])
                    < base by {
                    if j < i {
                        assert(after[j] == before[j]);
                    }
                }
                lemma_rank_bound(after, base);
                lemma_small_mod(rank_of(after, base), old(self)@.space());
            }
        }
    }

    /// Moves on to the next candidate of this generator's share: counts up
    /// by one, `stride` times.
    pub fn increment(&mut self)
        requires
            old(self).wf(),
        ensures
            final(self).wf(),
            final(self)@ == old(self)@.advance(),
    {
        let mut steps: usize = 0;
        proof {
            lemma_shift_once_more(old(self)@, 0);
        }
        while steps < self.stride
            invariant
                steps <= self.stride,
                self.wf(),
                self.stride == old(self).stride,
                old(self)@.valid(),
                self@ == old(self)@.shift(steps as nat),
            decreases self.stride - steps,
        {
            proof {
                lemma_shift_once_more(old(self)@, steps as nat);
            }
            self.step();
            steps += 1;
        }
    }

    /// Hands out the candidate at the generator's position and moves on, or
    /// hands out nothing once the generator is done.
    pub fn next(&mut self) -> (candidate: Option<String>)
        requires
            old(self).wf(),
        ensures
            final(self).wf(),
            old(self)@.done ==> candidate.is_none() && final(self)@ == old(self)@,
            !old(self)@.done ==> candidate.is_some() && candidate.unwrap()@ == old(
                self,
            )@.candidate() && final(self)@ == old(self)@.advance(),
            old(self)@.remaining() == (match candidate {
                Some(password) => seq![password@] + final(self)@.remaining(),
                None => Seq::empty(),
            }),
    {
        proof {
            let state = self@;
            lemma_remaining_unfold(state);
            if !state.done {
                assert(state.remaining() =~= seq![state.candidate()] + state.remaining().skip(1));
            } else {
                assert(state.remaining() =~= Seq::empty());
            }
        }
        if self.done {
            return None;
        }
        let mut password = String::new();
        let mut i: usize = 0;
        while i < self.length
            invariant
                i <= self.length,
                self.current_password@.len() == self.length,
                digits_valid(self.current_password@, self.charset@.len() as nat),
                password@ == spell(self.charset@, self.current_password@.subrange(0, i as int)),
            decreases self.length - i,
        {
            let index = self.current_password[i];
            password.push(self.charset[index]);
            proof {
                let digits = self.current_password@;
                assert(password@ =~= spell(self.charset@, digits.subrange(0, i + 1)));
            }
            i += 1;
        }
        proof {
            let digits = self.current_password@;
            assert(digits.subrange(0, i as int) =~= digits);
            lemma_digits_of_rank_of(digits, self.charset@.len());
        }
        self.increment();
        Some(password)
    }
}

} // verus!
