use vstd::prelude::*;

verus! {

/// The state that follows `s` in the generator of the classic numbered deals:
/// `(s * 214013 + 2531011) mod 2^32`, then `mod 2^31`.
pub open spec fn spec_next_state(s: u32) -> u32 {
    (((s as int * 214013 + 2531011) % 0x1_0000_0000) % 0x8000_0000) as u32
}

/// The value that the generator yields on reaching state `s`.
pub open spec fn spec_output(s: u32) -> u32 {
    s / 65536
}

/// The linear congruential generator that the classic numbered deals are shuffled with.
pub struct Prng {
    /// The current state.
    pub state: u32,
}

impl Prng {
    /// Advances the state and returns the next value, in `0..32768`.
    pub fn get_next(&mut self) -> (r: u32)
        ensures
            final(self).state == spec_next_state(old(self).state),
            r == spec_output(final(self).state),
            r < 32768,
    {
        self.state = (self.state.wrapping_mul(214013)).wrapping_add(2531011) % 2147483648;
        proof {
            let s = old(self).state as int;
            vstd::arithmetic::div_mod::lemma_add_mod_noop(s * 214013, 2531011, 0x1_0000_0000);
            vstd::arithmetic::div_mod::lemma_mod_twice(2531011, 0x1_0000_0000);
        }
        self.state / 65536
    }
}

} // verus!
