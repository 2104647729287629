//! The editor's working document, with a flag that records whether it may
//! have changed since the last time it was drawn.
use vstd::prelude::*;
use crate::document::{g, SVG};

verus! {

pub struct Arrangement {
    pub svg: SVG,
    pub dirty: bool,
    pub undo: Vec<g>,
}

impl Arrangement {
    /// A fresh arrangement: marked changed, with nothing to undo.
    pub fn new(svg: SVG) -> (r: Arrangement)
        ensures
            r.svg == svg,
            r.dirty,
            r.undo@.len() == 0,
    {
        Arrangement { svg, dirty: true, undo: Vec::new() }
    }

    /// The document, for changing it: the arrangement is marked changed.
    pub fn get_mut(&mut self) -> (r: &mut SVG)
        ensures
            *r == old(self).svg,
            final(self).dirty,
            final(self).undo == old(self).undo,
            final(self).svg == *final(r),
    {
        self.dirty = true;
        &mut self.svg
    }

    pub fn get(&self) -> (r: &SVG)
        ensures
            *r == self.svg,
    {
        &self.svg
    }
}

/// The longest key-repeat interval, in nanoseconds, that still counts as a
/// held key.
pub const FAST_REPEAT_NANOS: u128 = 1_000_000;

/// How far a cursor moves for one key event: four times as far while the
/// key repeats quickly.
pub fn mouse_move(delta: i32, repeat_nanos: u128) -> (r: i32)
    requires
        repeat_nanos <= FAST_REPEAT_NANOS ==> i32::MIN <= delta * 4 <= i32::MAX,
    ensures
        r == (if repeat_nanos <= FAST_REPEAT_NANOS {
            delta * 4
        } else {
            delta as int
        }),
{
    if repeat_nanos <= FAST_REPEAT_NANOS {
        delta * 4
    } else {
        delta
    }
}

} // verus!
