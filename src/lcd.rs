//! The three buttons of the LCD emulator and their state.
use vstd::prelude::*;

verus! {

/// A snapshot of the state of the buttons.
#[derive(Debug, Clone, Copy, PartialEq, Eq, Structural)]
pub struct ButtonsState {
    pub left_pressed: bool,
    pub middle_pressed: bool,
    pub right_pressed: bool,
}

/// The three buttons.
#[derive(Debug, Clone, Copy, PartialEq, Eq, Structural)]
pub enum Button {
    Left,
    Middle,
    Right,
}

/// The callbacks registered for the three buttons. An interrupt entry point
/// of fixed shape, one per button, looks its callback up here.
pub struct ButtonCallbacks<F> {
    left_cb: Option<F>,
    middle_cb: Option<F>,
    right_cb: Option<F>,
}

impl<F> ButtonCallbacks<F> {
    /// The callback registered for `b`, if any.
    pub closed spec fn slot(&self, b: Button) -> Option<F> {
        match b {
            Button::Left => self.left_cb,
            Button::Middle => self.middle_cb,
            Button::Right => self.right_cb,
        }
    }

    /// No callback registered.
    pub fn new() -> (r: ButtonCallbacks<F>)
        ensures
            forall|b: Button| r.slot(b) is None,
    {
        ButtonCallbacks { left_cb: None, middle_cb: None, right_cb: None }
    }

    /// Registers `cb` for `b`, replacing what was there; the other buttons
    /// keep theirs.
    pub fn set(&mut self, b: Button, cb: F)
        ensures
            final(self).slot(b) == Some(cb),
            forall|o: Button| o != b ==> final(self).slot(o) == old(self).slot(o),
    {
        match b {
            Button::Left => { self.left_cb = Some(cb); },
            Button::Middle => { self.middle_cb = Some(cb); },
            Button::Right => { self.right_cb = Some(cb); },
        }
    }

    /// The callback registered for `b`.
    pub fn get(&self, b: Button) -> (r: Option<&F>)
        ensures
            r is Some <==> self.slot(b) is Some,
            r matches Some(f) ==> self.slot(b) == Some(*f),
    {
        let slot = match b {
            Button::Left => &self.left_cb,
            Button::Middle => &self.middle_cb,
            Button::Right => &self.right_cb,
        };
        match slot {
            Some(f) => Some(f),
            None => None,
        }
    }
}

/// Whether every bit set in `mask` is also set in `bit`.
pub open spec fn only_bits(mask: u8, bit: u8) -> bool {
    mask & bit == mask
}

/// Decodes the button bit mask that the display reports: bit 0 is the left
/// button, bit 1 the middle one, bit 2 the right one. A button reads as
/// pressed when the mask holds no other bit than its own.
pub fn buttons_from_mask(bit_mask: u8) -> (r: ButtonsState)
    ensures
        r.left_pressed == only_bits(bit_mask, 1),
        r.middle_pressed == only_bits(bit_mask, 2),
        r.right_pressed == only_bits(bit_mask, 4),
{
    ButtonsState {
        left_pressed: bit_mask & 0b001 == bit_mask,
        middle_pressed: bit_mask & 0b010 == bit_mask,
        right_pressed: bit_mask & 0b100 == bit_mask,
    }
}

} // verus!
