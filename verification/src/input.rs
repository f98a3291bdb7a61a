use vstd::prelude::*;

verus! {

/// Number of keys whose state is tracked.
pub const KEY_CODE_COUNT: usize = 40;

/// Which keys are down now and which were down a frame ago, and where the
/// pointer is and was.
pub struct InputState {
    pub keys_pressed: [bool; 40],
    pub previous_keys_pressed: [bool; 40],
    pub mouse_pos: [u32; 2],
    pub previous_mouse_pos: [u32; 2],
}

impl InputState {
    /// No key is down and the pointer is at the origin.
    pub fn new() -> (r: Self)
        ensures
            forall|k: int| 0 <= k < KEY_CODE_COUNT ==> !r.keys_pressed@[k],
            forall|k: int| 0 <= k < KEY_CODE_COUNT ==> !r.previous_keys_pressed@[k],
            r.mouse_pos@ == seq![0u32, 0u32],
            r.previous_mouse_pos@ == seq![0u32, 0u32],
    {
        let r = InputState {
            keys_pressed: [false; 40],
            previous_keys_pressed: [false; 40],
            mouse_pos: [0, 0],
            previous_mouse_pos: [0, 0],
        };
        proof {
            assert(r.mouse_pos@ =~= seq![0u32, 0u32]);
            assert(r.previous_mouse_pos@ =~= seq![0u32, 0u32]);
        }
        r
    }

    /// Whether the key with the given code is down.
    #[inline]
    pub fn is_key_pressed(&self, key_code: usize) -> (r: bool)
        requires
            key_code < KEY_CODE_COUNT,
        ensures
            r == self.keys_pressed@[key_code as int],
    {
        self.keys_pressed[key_code]
    }

    /// Whether the key with the given code was down a frame ago.
    #[inline]
    pub fn was_key_pressed(&self, key_code: usize) -> (r: bool)
        requires
            key_code < KEY_CODE_COUNT,
        ensures
            r == self.previous_keys_pressed@[key_code as int],
    {
        self.previous_keys_pressed[key_code]
    }

    /// Records that the key with the given code is down, or up.
    #[inline]
    pub fn set_key_pressed(&mut self, key_code: usize, pressed: bool)
        requires
            key_code < KEY_CODE_COUNT,
        ensures
            final(self).keys_pressed@ == old(self).keys_pressed@.update(key_code as int, pressed),
            final(self).previous_keys_pressed == old(self).previous_keys_pressed,
            final(self).mouse_pos == old(self).mouse_pos,
            final(self).previous_mouse_pos == old(self).previous_mouse_pos,
    {
        self.keys_pressed[key_code] = pressed;
    }
}

} // verus!
