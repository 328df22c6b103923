//! Quadrature encoder decoding (X4): a 4-bit lookup table maps the previous
//! and current (A, B) states to a step of -1, 0 or +1, accumulated into a
//! wrapping 32-bit signed counter. Invalid transitions (both channels changed
//! at once, e.g. after a missed edge) count as no step and are tallied.
//!
//! State bits: bit0 = A, bit1 = B.

use vstd::prelude::*;

verus! {

/// Transition table, indexed by `(prev << 2) | curr`.
pub const LUT: [i8; 16] = [
    // prev = 00
    0, 1, -1, 0,
    // prev = 01
    -1, 0, 0, 1,
    // prev = 10
    1, 0, 0, -1,
    // prev = 11
    0, -1, 1, 0,
];

/// Position of an (A, B) state along the forward Gray sequence 00 → 01 → 11 → 10.
pub open spec fn gray_pos(s: u8) -> int {
    if s == 0 {
        0
    } else if s == 1 {
        1
    } else if s == 3 {
        2
    } else {
        3
    }
}

/// Steps from `prev` to `curr` along the Gray sequence, modulo 4.
pub open spec fn gray_distance(prev: u8, curr: u8) -> int {
    (gray_pos(curr) - gray_pos(prev) + 4) % 4
}

/// Count change for a transition: +1 one step forward, -1 one step back,
/// 0 for no change or for an invalid jump of two steps.
pub open spec fn spec_delta(prev: u8, curr: u8) -> int {
    if gray_distance(prev, curr) == 1 {
        1
    } else if gray_distance(prev, curr) == 3 {
        -1
    } else {
        0
    }
}

/// A transition in which both channels changed: direction unknown.
pub open spec fn spec_invalid(prev: u8, curr: u8) -> bool {
    gray_distance(prev, curr) == 2
}

/// Two's-complement wraparound of a 32-bit signed sum.
pub open spec fn wrap_i32(x: int) -> int {
    if x > i32::MAX {
        x - 0x1_0000_0000
    } else if x < i32::MIN {
        x + 0x1_0000_0000
    } else {
        x
    }
}

/// Wraparound of a 32-bit unsigned sum.
pub open spec fn wrap_u32(x: int) -> int {
    if x > u32::MAX {
        x - 0x1_0000_0000
    } else {
        x
    }
}

/// Table lookup for the transition from `prev` to `curr` (2-bit states).
pub fn quadrature_delta(prev: u8, curr: u8) -> (d: i8)
    requires
        prev < 4,
        curr < 4,
    ensures
        d as int == spec_delta(prev, curr),
{
    let index = ((prev << 2) | curr) as usize;
    assert(((prev << 2) | curr) as int == 4 * prev + curr) by (bit_vector)
        requires
            prev < 4,
            curr < 4,
    ;
    LUT[index]
}

/// (A, B) state sampled from a GPIOA input data register value (PA0 = A, PA1 = B).
pub fn sample_state(idr: u32) -> (s: u8)
    ensures
        s == idr % 4,
        s < 4,
{
    assert((idr & 0x3) == idr % 4) by (bit_vector);
    (idr & 0x3) as u8
}

/// Decoder state: previous (A, B) state, pulse counter, invalid-transition counter.
pub struct EncoderState {
    prev_state: u8,
    count: i32,
    invalid_count: u32,
}

impl EncoderState {
    pub closed spec fn prev(&self) -> u8 {
        self.prev_state
    }

    pub closed spec fn spec_count(&self) -> i32 {
        self.count
    }

    pub closed spec fn spec_invalid_count(&self) -> u32 {
        self.invalid_count
    }

    pub open spec fn wf(&self) -> bool {
        self.prev() < 4
    }

    /// Power-on state: all zero.
    pub fn new() -> (s: Self)
        ensures
            s.wf(),
            s.prev() == 0,
            s.spec_count() == 0,
            s.spec_invalid_count() == 0,
    {
        Self { prev_state: 0, count: 0, invalid_count: 0 }
    }
}

/// Takes the initial (A, B) state from a GPIO snapshot, so that the first
/// interrupt compares against the real previous state. Counters are unchanged.
pub fn init(state: &mut EncoderState, idr: u32)
    ensures
        final(state).wf(),
        final(state).prev() == idr % 4,
        final(state).spec_count() == old(state).spec_count(),
        final(state).spec_invalid_count() == old(state).spec_invalid_count(),
{
    // A → bit0, B → bit1
    let a = idr & 1;
    let b = (idr >> 1) & 1;
    assert((idr & 1) | (((idr >> 1) & 1) << 1) == idr % 4) by (bit_vector);
    state.prev_state = (a | (b << 1)) as u8;
}

/// Current pulse count.
pub fn get_count(state: &EncoderState) -> (c: i32)
    ensures
        c == state.spec_count(),
{
    state.count
}

/// Resets the pulse count to zero.
pub fn reset_count(state: &mut EncoderState)
    ensures
        final(state).spec_count() == 0,
        final(state).prev() == old(state).prev(),
        final(state).spec_invalid_count() == old(state).spec_invalid_count(),
        old(state).wf() ==> final(state).wf(),
{
    state.count = 0;
}

/// Number of invalid transitions seen.
pub fn get_invalid_count(state: &EncoderState) -> (c: u32)
    ensures
        c == state.spec_invalid_count(),
{
    state.invalid_count
}

/// Edge interrupt: decodes the transition to the state sampled from `idr`.
pub fn isr(state: &mut EncoderState, idr: u32)
    requires
        old(state).wf(),
    ensures
        final(state).wf(),
        final(state).prev() == idr % 4,
        final(state).spec_count() as int == wrap_i32(
            old(state).spec_count() + spec_delta(old(state).prev(), (idr % 4) as u8),
        ),
        final(state).spec_invalid_count() as int == wrap_u32(
            old(state).spec_invalid_count() + if spec_invalid(old(state).prev(), (idr % 4) as u8) {
                1int
            } else {
                0int
            },
        ),
{
    let curr_state = sample_state(idr);
    let prev = state.prev_state;
    let delta = quadrature_delta(prev, curr_state);
    state.count = state.count.wrapping_add(delta as i32);
    let invalid = ((delta == 0) as u32) & ((prev != curr_state) as u32);
    assert(invalid == (if delta == 0 && prev != curr_state { 1u32 } else { 0u32 })) by (bit_vector)
        requires
            invalid == ((delta == 0) as u32) & ((prev != curr_state) as u32),
    ;
    state.invalid_count = state.invalid_count.wrapping_add(invalid);
    state.prev_state = curr_state;
}


/// The state one step forward of `s` along 00 → 01 → 11 → 10 → 00.
pub open spec fn forward_next(s: u8) -> u8 {
    if s == 0 {
        1
    } else if s == 1 {
        3
    } else if s == 3 {
        2
    } else {
        0
    }
}

/// A step and the step back cancel: after a transition and its reverse the
/// count is where it started, wraparound included.
pub proof fn lemma_step_back_cancels(count: i32, prev: u8, curr: u8)
    requires
        prev < 4,
        curr < 4,
    ensures
        wrap_i32(wrap_i32(count + spec_delta(prev, curr)) + spec_delta(curr, prev)) == count,
        spec_delta(curr, prev) == -spec_delta(prev, curr),
        spec_invalid(curr, prev) == spec_invalid(prev, curr),
{
}

/// One forward step counts +1, and a full forward cycle of four edges counts +4;
/// the reverse cycle counts -4.
pub proof fn lemma_forward_cycle(s: u8)
    requires
        s < 4,
    ensures
        spec_delta(s, forward_next(s)) == 1,
        spec_delta(forward_next(s), s) == -1,
        spec_delta(s, forward_next(s)) + spec_delta(forward_next(s), forward_next(forward_next(s)))
            + spec_delta(forward_next(forward_next(s)), forward_next(forward_next(forward_next(s))))
            + spec_delta(
            forward_next(forward_next(forward_next(s))),
            forward_next(forward_next(forward_next(forward_next(s)))),
        ) == 4,
        forward_next(forward_next(forward_next(forward_next(s)))) == s,
{
}

/// A transition is invalid exactly when both channels change at once; it
/// counts no step. No change at all is neither a step nor invalid.
pub proof fn lemma_invalid_iff_both_change(prev: u8, curr: u8)
    requires
        prev < 4,
        curr < 4,
    ensures
        spec_invalid(prev, curr) <==> (prev % 2 != curr % 2 && prev / 2 != curr / 2),
        spec_invalid(prev, curr) ==> spec_delta(prev, curr) == 0,
        spec_delta(prev, prev) == 0 && !spec_invalid(prev, prev),
{
}

} // verus!
