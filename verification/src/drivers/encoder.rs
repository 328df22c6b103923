//! Minimal quadrature decoder: the same X4 lookup-table decoding as
//! `crate::encoder`, without the invalid-transition counter.

use vstd::prelude::*;
use crate::encoder::{quadrature_delta, sample_state, spec_delta, wrap_i32};

verus! {

/// Decoder state: previous (A, B) state and pulse counter.
pub struct EncoderState {
    prev_state: u8,
    count: i32,
}

impl EncoderState {
    pub closed spec fn prev(&self) -> u8 {
        self.prev_state
    }

    pub closed spec fn spec_count(&self) -> i32 {
        self.count
    }

    pub open spec fn wf(&self) -> bool {
        self.prev() < 4
    }

    /// Power-on state: all zero.
    pub fn new() -> (s: Self)
        ensures
            s.wf(),
            s.prev() == 0,
            s.spec_count() == 0,
    {
        Self { prev_state: 0, count: 0 }
    }
}

/// Takes the initial (A, B) state from a GPIO snapshot; the count is unchanged.
pub fn init(state: &mut EncoderState, idr: u32)
    ensures
        final(state).wf(),
        final(state).prev() == idr % 4,
        final(state).spec_count() == old(state).spec_count(),
{
    assert((idr & 1) | (((idr >> 1) & 1) << 1) == idr % 4) by (bit_vector);
    state.prev_state = ((idr & 1) | ((idr >> 1) & 1) << 1) as u8;
}

/// Current pulse count.
pub fn get_count(state: &EncoderState) -> (c: i32)
    ensures
        c == state.spec_count(),
{
    state.count
}

/// Resets the pulse count to zero.
pub fn reset_count(state: &mut EncoderState)
    ensures
        final(state).spec_count() == 0,
        final(state).prev() == old(state).prev(),
        old(state).wf() ==> final(state).wf(),
{
    state.count = 0;
}

/// Edge interrupt: decodes the transition to the state sampled from `idr`.
pub fn isr(state: &mut EncoderState, idr: u32)
    requires
        old(state).wf(),
    ensures
        final(state).wf(),
        final(state).prev() == idr % 4,
        final(state).spec_count() as int == wrap_i32(
            old(state).spec_count() + spec_delta(old(state).prev(), (idr % 4) as u8),
        ),
{
    let curr_state = sample_state(idr);
    let delta = quadrature_delta(state.prev_state, curr_state);
    state.count = state.count.wrapping_add(delta as i32);
    state.prev_state = curr_state;
}

} // verus!
