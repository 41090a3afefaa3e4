use vstd::prelude::*;

verus! {

/// Edge detector for a single key: remembers whether the key is held and
/// latches a trigger on each press transition until it is consumed.
#[derive(Debug, Default, Clone, Copy, PartialEq, Eq, Structural)]
pub struct KeyTrigger {
    pub pressed: bool,
    pub trigger: bool,
}

impl KeyTrigger {
    /// Feeds the current physical state of the key. A transition from
    /// released to pressed sets the trigger; releasing only clears `pressed`.
    pub fn event(&mut self, is_pressed: bool)
        ensures
            final(self).pressed == is_pressed,
            final(self).trigger == (old(self).trigger || (!old(self).pressed && is_pressed)),
    {
        match (self.pressed, is_pressed) {
            (true, true) => {},
            (true, false) => self.pressed = false,
            (false, true) => {
                self.pressed = true;
                self.trigger = true;
            },
            (false, false) => {},
        }
    }

    /// Returns whether a press happened since the last call, and clears it.
    pub fn get_trigger(&mut self) -> (t: bool)
        ensures
            t == old(self).trigger,
            !final(self).trigger,
            final(self).pressed == old(self).pressed,
    {
        let t = self.trigger;
        self.trigger = false;
        t
    }
}

/// Held keys and press triggers of the viewer's keyboard.
#[derive(Default, Clone, Copy)]
pub struct KeyboardState {
    pub w: bool,
    pub a: bool,
    pub s: bool,
    pub d: bool,
    pub up: bool,
    pub left: bool,
    pub down: bool,
    pub right: bool,
    pub home: bool,
    pub pgup: bool,
    pub plus: bool,
    pub minus: bool,
    pub f: KeyTrigger,
    pub g: KeyTrigger,
    pub h: KeyTrigger,
    pub space: KeyTrigger,
    pub j: KeyTrigger,
}

impl KeyboardState {
    /// Whether any movement key is held.
    pub fn any_dir(&self) -> (r: bool)
        ensures
            r == (self.w || self.a || self.s || self.d),
    {
        self.w || self.a || self.s || self.d
    }

    /// Whether any zoom key is held.
    pub fn any_zoom(&self) -> (r: bool)
        ensures
            r == (self.plus || self.minus),
    {
        self.plus || self.minus
    }

    /// Whether any rotation key is held.
    pub fn any_rot(&self) -> (r: bool)
        ensures
            r == (self.up || self.down || self.right || self.left || self.home || self.pgup),
    {
        self.up || self.down || self.right || self.left || self.home || self.pgup
    }
}

} // verus!
