//! When the cursor last moved: its previous position, and the moment it
//! was last seen to change (or was made to look as if it had).
use vstd::prelude::*;
use std::time::Instant;
use crate::gdi_frame::CursorShape;

verus! {

/// A cursor position in stable rows, with its shape and visibility.
#[derive(Clone, Copy, Debug, PartialEq, Eq, Structural)]
pub struct StableCursorPosition {
    pub x: usize,
    pub y: isize,
    pub shape: CursorShape,
    pub visible: bool,
}

/// The default position: the origin, default shape, visible.
pub open spec fn default_cursor_position() -> StableCursorPosition {
    StableCursorPosition { x: 0, y: 0, shape: CursorShape::Default, visible: true }
}

/// Trusted: `Instant::now` reads the monotonic clock; what it returns
/// depends on the time of the call, so nothing is claimed of it.
#[verifier::external_body]
fn instant_now() -> (r: Instant) {
    Instant::now()
}

/// `t` is what a reading of the clock (`instant_now`) returned: the
/// moment of that call. Nothing else about clock readings is known, so
/// this holds of an instant only where a call of `instant_now` produced
/// it.
pub closed spec fn clock_reading(t: Instant) -> bool {
    call_ensures(instant_now, (), t)
}

/// The previous cursor position and when it last moved.
#[derive(Clone, Copy, Debug)]
pub struct PrevCursorPos {
    pos: StableCursorPosition,
    when: Instant,
}

impl PrevCursorPos {
    /// The remembered position.
    pub closed spec fn position(&self) -> StableCursorPosition {
        self.pos
    }

    /// The moment of the last movement.
    pub closed spec fn moved_at(&self) -> Instant {
        self.when
    }

    /// The default position, moved at `now`.
    pub fn new_at(now: Instant) -> (r: Self)
        ensures
            r.position() == default_cursor_position(),
            r.moved_at() == now,
    {
        PrevCursorPos {
            pos: StableCursorPosition { x: 0, y: 0, shape: CursorShape::Default, visible: true },
            when: now,
        }
    }

    /// The default position, moved now (the moment the clock gives).
    pub fn new() -> (r: Self)
        ensures
            r.position() == default_cursor_position(),
            clock_reading(r.moved_at()),
    {
        Self::new_at(instant_now())
    }

    /// Make the cursor look like it moved at `now`: the position stays.
    pub fn bump_at(&mut self, now: Instant)
        ensures
            final(self).position() == old(self).position(),
            final(self).moved_at() == now,
    {
        self.when = now;
    }

    /// Make the cursor look like it moved: `bump_at` with the moment the
    /// clock gives.
    pub fn bump(&mut self)
        ensures
            final(self).position() == old(self).position(),
            clock_reading(final(self).moved_at()),
    {
        let now = instant_now();
        self.bump_at(now);
    }

    /// Update the cursor position if it is different, and then only; the
    /// moment of a change becomes `now`.
    pub fn update_at(&mut self, newpos: &StableCursorPosition, now: Instant)
        ensures
            final(self).position() == *newpos,
            old(self).position() != *newpos ==> final(self).moved_at() == now,
            old(self).position() == *newpos ==> final(self).moved_at() == old(self).moved_at(),
    {
        if self.pos != *newpos {
            self.pos = *newpos;
            self.when = now;
        }
    }

    /// Update the cursor position if it is different: `update_at` with
    /// the moment the clock gives, read only when the position changes.
    pub fn update(&mut self, newpos: &StableCursorPosition)
        ensures
            final(self).position() == *newpos,
            old(self).position() != *newpos ==> clock_reading(final(self).moved_at()),
            old(self).position() == *newpos ==> final(self).moved_at() == old(self).moved_at(),
    {
        if self.pos != *newpos {
            let now = instant_now();
            self.update_at(newpos, now);
        }
    }

    /// When did the cursor last move?
    pub fn last_cursor_movement(&self) -> (r: Instant)
        ensures
            r == self.moved_at(),
    {
        self.when
    }
}

} // verus!
