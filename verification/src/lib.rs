//! A Fibonacci linear feedback shift register (LFSR).
//!
//! An [`Lfsr`] owns a register of bits (each 0 or 1) and a fixed set of
//! feedback taps. Taps are supplied as 1-based exponents of the feedback
//! polynomial and stored as 0-based state indices. Each [`Lfsr::clock`]
//! computes the feedback bit as the XOR of the state bits at the tap
//! positions, inserts it at the front of the register, and emits the bit
//! that was at the back.

use vstd::prelude::*;

verus! {

use std::collections::VecDeque;

/// The ways an engine operation can fail.
#[derive(Debug, Clone, Copy, PartialEq, Eq, Structural)]
pub enum LfsrError {
    /// `clock` was invoked while the state is empty (no key loaded) or
    /// shorter than the highest configured tap requires.
    UnkeyedClock,
    /// `set_key` was given a value outside {0, 1}.
    InvalidBit,
    /// `new` was given a tap value of 0, which has no 0-based state index.
    ZeroTap,
}

/// XOR of two bits (meaningful on values that are 0 or 1).
pub open spec fn xor_bit(a: u8, b: u8) -> u8 {
    if (a == 0) == (b == 0) {
        0u8
    } else {
        1u8
    }
}

/// Every element of the sequence is 0 or 1.
pub open spec fn bits_valid(s: Seq<u8>) -> bool {
    forall|i: int| 0 <= i < s.len() ==> s[i] == 0 || s[i] == 1
}

/// The feedback (carry) bit: the XOR of the state bits at every tap index.
pub open spec fn feedback(state: Seq<u8>, taps: Seq<u8>) -> u8
    decreases taps.len(),
{
    if taps.len() == 0 {
        0u8
    } else {
        xor_bit(feedback(state, taps.drop_last()), state[taps.last() as int])
    }
}

/// One clock step: the feedback bit of the pre-shift state enters at the
/// front and the back bit leaves, so the length is unchanged.
pub open spec fn step_state(state: Seq<u8>, taps: Seq<u8>) -> Seq<u8> {
    seq![feedback(state, taps)] + state.drop_last()
}

/// The bit a clock step emits: the back bit of the pre-shift state.
pub open spec fn step_output(state: Seq<u8>) -> u8 {
    state.last()
}

/// The state after `n` clock steps.
pub open spec fn iter_state(state: Seq<u8>, taps: Seq<u8>, n: nat) -> Seq<u8>
    decreases n,
{
    if n == 0 {
        state
    } else {
        iter_state(step_state(state, taps), taps, (n - 1) as nat)
    }
}

/// The first `n` output bits produced by clocking from `state`.
pub open spec fn output_stream(state: Seq<u8>, taps: Seq<u8>, n: nat) -> Seq<u8>
    decreases n,
{
    if n == 0 {
        Seq::empty()
    } else {
        seq![step_output(state)] + output_stream(step_state(state, taps), taps, (n - 1) as nat)
    }
}

/// The mathematical content of an engine: the register bits, front to back,
/// and the 0-based tap indices.
#[verifier::ext_equal]
pub struct LfsrView {
    pub state: Seq<u8>,
    pub taps: Seq<u8>,
}

/// A Fibonacci LFSR: a register of bits and a fixed tap configuration.
///
/// Constructed by [`Lfsr::new`] with the 1-based polynomial exponents; a key
/// must be loaded with [`Lfsr::set_key`] before [`Lfsr::clock`] can produce
/// output.
#[derive(Debug, Hash)]
pub struct Lfsr {
    state: VecDeque<u8>,
    taps: Vec<u8>,
}

impl Clone for Lfsr {
    /// Cloning copies the register state and the taps, so a clone clocks
    /// exactly as the original would.
    fn clone(&self) -> (res: Lfsr)
        ensures
            res@ == self@,
    {
        let state = self.state.clone();
        let taps = self.taps.clone();
        proof {
            assert forall|i: int| 0 <= i < self.state@.len() implies state@[i]
                == self.state@[i] by {
                assert(cloned::<u8>(self.state@[i], state@[i]));
            }
            assert(state@ =~= self.state@);
            assert forall|i: int| 0 <= i < self.taps@.len() implies taps@[i]
                == self.taps@[i] by {
                assert(cloned::<u8>(self.taps@[i], taps@[i]));
            }
            assert(taps@ =~= self.taps@);
        }
        Lfsr { state, taps }
    }
}

impl View for Lfsr {
    type V = LfsrView;

    closed spec fn view(&self) -> LfsrView {
        LfsrView { state: self.state@, taps: self.taps@ }
    }
}

impl Lfsr {
    /// Well-formedness: every bit of the register state is 0 or 1.
    pub open spec fn wf(self) -> bool {
        bits_valid(self@.state)
    }

    /// Every tap index points inside the current state.
    pub open spec fn taps_in_range(self) -> bool {
        forall|i: int| 0 <= i < self@.taps.len() ==> (self@.taps[i] as int) < self@.state.len()
    }

    /// A clock operation is defined: a key is loaded and it is long enough
    /// for every configured tap.
    pub open spec fn ready(self) -> bool {
        self@.state.len() > 0 && self.taps_in_range()
    }

    /// Build an engine from the 1-based exponents of the feedback polynomial.
    ///
    /// Each tap is stored decremented by one, as a 0-based state index; the
    /// state starts empty. A tap value of 0 has no valid index and is
    /// rejected.
    pub fn new(taps: Vec<u8>) -> (r: Result<Lfsr, LfsrError>)
        ensures
            match r {
                Ok(l) => {
                    &&& forall|i: int| 0 <= i < taps@.len() ==> taps@[i] >= 1
                    &&& l@.taps.len() == taps@.len()
                    &&& forall|i: int| 0 <= i < taps@.len() ==> l@.taps[i] == taps@[i] - 1
                    &&& l@.state == Seq::<u8>::empty()
                    &&& l.wf()
                },
                Err(e) => {
                    &&& e == LfsrError::ZeroTap
                    &&& exists|i: int| 0 <= i < taps@.len() && taps@[i] == 0
                },
            },
    {
        let mut adjusted: Vec<u8> = Vec::new();
        let mut i: usize = 0;
        while i < taps.len()
            invariant
                i <= taps@.len(),
                adjusted@.len() == i as int,
                forall|j: int| 0 <= j < i ==> taps@[j] >= 1,
                forall|j: int| 0 <= j < i ==> adjusted@[j] == taps@[j] - 1,
            decreases taps@.len() - i,
        {
            let t = taps[i];
            if t == 0 {
                return Err(LfsrError::ZeroTap);
            }
            adjusted.push(t - 1);
            i = i + 1;
        }
        Ok(Lfsr { state: VecDeque::new(), taps: adjusted })
    }

    /// Load a key: replace the register state wholesale with `key`, front
    /// first, leaving the taps untouched.
    ///
    /// Every value must be 0 or 1; a key holding any other value is rejected
    /// and the engine is left exactly as it was.
    pub fn set_key(&mut self, key: VecDeque<u8>) -> (r: Result<(), LfsrError>)
        ensures
            match r {
                Ok(_) => {
                    &&& bits_valid(key@)
                    &&& final(self)@.state == key@
                    &&& final(self)@.taps == old(self)@.taps
                    &&& final(self).wf()
                },
                Err(e) => {
                    &&& e == LfsrError::InvalidBit
                    &&& exists|i: int| 0 <= i < key@.len() && key@[i] > 1
                    &&& *final(self) == *old(self)
                },
            },
    {
        let mut i: usize = 0;
        while i < key.len()
            invariant
                i <= key@.len(),
                forall|j: int| 0 <= j < i ==> key@[j] <= 1,
            decreases key@.len() - i,
        {
            if key[i] > 1 {
                return Err(LfsrError::InvalidBit);
            }
            i = i + 1;
        }
        self.state = key;
        Ok(())
    }

    /// The carry of the register: the XOR of the state bits at every
    /// configured tap index, taken over the current (pre-shift) state.
    fn _carry(&self) -> (c: u8)
        requires
            self.wf(),
            self.taps_in_range(),
        ensures
            c == feedback(self@.state, self@.taps),
            c <= 1,
    {
        let mut acc: u8 = 0;
        let mut i: usize = 0;
        while i < self.taps.len()
            invariant
                self.wf(),
                self.taps_in_range(),
                i <= self@.taps.len(),
                acc == feedback(self@.state, self@.taps.take(i as int)),
                acc <= 1,
            decreases self@.taps.len() - i,
        {
            let t = self.taps[i];
            let b = self.state[t as usize];
            proof {
                assert(self@.taps.take(i + 1).drop_last() =~= self@.taps.take(i as int));
                assert(self@.taps.take(i + 1).last() == self@.taps[i as int]);
                assert(b == 0 || b == 1);
                assert(acc ^ b == xor_bit(acc, b)) by {
                    assert((0u8 ^ 0u8) == 0u8) by (bit_vector);
                    assert((0u8 ^ 1u8) == 1u8) by (bit_vector);
                    assert((1u8 ^ 0u8) == 1u8) by (bit_vector);
                    assert((1u8 ^ 1u8) == 0u8) by (bit_vector);
                };
            }
            acc = acc ^ b;
            i = i + 1;
        }
        proof {
            assert(self@.taps.take(self@.taps.len() as int) =~= self@.taps);
        }
        acc
    }

    /// Advance the register one step and emit one output bit.
    ///
    /// The feedback bit of the current state enters at the front, the back
    /// bit leaves and is returned; the state length is unchanged. With no
    /// key loaded, or with a state too short for the highest tap, the call
    /// fails and the engine is left exactly as it was.
    pub fn clock(&mut self) -> (r: Result<u8, LfsrError>)
        requires
            old(self).wf(),
        ensures
            old(self).ready() ==> {
                &&& r == Ok::<u8, LfsrError>(step_output(old(self)@.state))
                &&& final(self)@.state == step_state(old(self)@.state, old(self)@.taps)
                &&& final(self)@.taps == old(self)@.taps
                &&& final(self)@.state.len() == old(self)@.state.len()
                &&& final(self)@.state[0] == feedback(old(self)@.state, old(self)@.taps)
                &&& final(self).wf()
                &&& final(self).ready()
            },
            !old(self).ready() ==> {
                &&& r == Err::<u8, LfsrError>(LfsrError::UnkeyedClock)
                &&& *final(self) == *old(self)
            },
    {
        if self.state.len() == 0 {
            return Err(LfsrError::UnkeyedClock);
        }
        let mut i: usize = 0;
        while i < self.taps.len()
            invariant
                i <= self@.taps.len(),
                forall|j: int| 0 <= j < i ==> (self@.taps[j] as int) < self@.state.len(),
            decreases self@.taps.len() - i,
        {
            if self.taps[i] as usize >= self.state.len() {
                return Err(LfsrError::UnkeyedClock);
            }
            i = i + 1;
        }
        let c = self._carry();
        self.state.push_front(c);
        let out = self.state.pop_back().unwrap();
        proof {
            let s0 = old(self)@.state;
            let t = old(self)@.taps;
            assert(self@.state =~= seq![feedback(s0, t)] + s0.drop_last());
            assert(out == s0.last());
            assert forall|k: int| 0 <= k < self@.state.len() implies self@.state[k] == 0
                || self@.state[k] == 1 by {
                if k > 0 {
                    assert(self@.state[k] == s0[k - 1]);
                }
            }
        }
        Ok(out)
    }

    /// The number of bits currently held in the register state: 0 before a
    /// key is loaded, and thereafter the length of the most recent key.
    pub fn state_len(&self) -> (n: usize)
        ensures
            n == self@.state.len(),
    {
        self.state.len()
    }
}

/// Determinism: two engines with the same tap configuration and the same
/// register state produce the same output sequence for any number of clocks.
/// Together with [`Lfsr::clock`]'s contract, which pins each result to
/// [`step_output`] and [`step_state`] of the engine's view, a whole run is a
/// function of (taps, key) alone.
pub proof fn lemma_determinism(a: Lfsr, b: Lfsr, n: nat)
    requires
        a@ == b@,
    ensures
        output_stream(a@.state, a@.taps, n) == output_stream(b@.state, b@.taps, n),
{
}

/// Length invariance: however many clock steps are taken, the state keeps
/// the length of the loaded key.
pub proof fn lemma_length_invariance(state: Seq<u8>, taps: Seq<u8>, n: nat)
    requires
        state.len() > 0,
    ensures
        iter_state(state, taps, n).len() == state.len(),
    decreases n,
{
    if n > 0 {
        assert(step_state(state, taps).len() == state.len());
        lemma_length_invariance(step_state(state, taps), taps, (n - 1) as nat);
    }
}

/// Parity correctness: the bit a clock step inserts at the front of the
/// register is [`feedback`] — the XOR of the pre-shift state bits at the
/// configured tap positions.
pub proof fn lemma_parity_correctness(state: Seq<u8>, taps: Seq<u8>)
    requires
        state.len() > 0,
    ensures
        step_state(state, taps)[0] == feedback(state, taps),
{
}

} // verus!
