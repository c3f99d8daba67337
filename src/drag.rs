//! Dragging: an offset overlay on top of an element's committed position.
use vstd::prelude::*;

verus! {

/// The offset of an element that is being dragged.
#[derive(Clone, Copy, Debug, PartialEq, Eq, Structural)]
pub struct DraggableElement {
    pub drag_x: i32,
    pub drag_y: i32,
}

impl Default for DraggableElement {
    fn default() -> (d: DraggableElement)
        ensures
            d.drag_x == 0,
            d.drag_y == 0,
    {
        DraggableElement { drag_x: 0, drag_y: 0 }
    }
}

pub open spec fn clamp_i32(v: int) -> int {
    if v < i32::MIN {
        i32::MIN as int
    } else if v > i32::MAX {
        i32::MAX as int
    } else {
        v
    }
}

/// `a + b`, saturated to the range of `i32`.
pub fn add_clamped(a: i32, b: i32) -> (r: i32)
    ensures
        r as int == clamp_i32(a + b),
{
    let s: i64 = a as i64 + b as i64;
    if s < i32::MIN as i64 {
        i32::MIN
    } else if s > i32::MAX as i64 {
        i32::MAX
    } else {
        s as i32
    }
}

/// Something that can be dragged: a committed base position with an offset
/// overlay while a drag is in progress.
pub trait Draggable {
    /// The offset overlay, present exactly when dragging is supported.
    spec fn drag_offset(&self) -> Option<DraggableElement>;

    /// The committed position.
    spec fn base(&self) -> (i32, i32);

    /// `self` and `other` agree on everything but the position and offset.
    spec fn same_apart_from_drag(&self, other: &Self) -> bool;

    /// Whether dragging is supported.
    fn is_draggable(&self) -> (r: bool)
        ensures
            r == self.drag_offset().is_some();

    /// The pointer moved by `(x, y)` since the drag began: only the overlay
    /// changes.
    fn process_drag(&mut self, x: i32, y: i32)
        ensures
            final(self).drag_offset() == (if old(self).drag_offset().is_some() {
                Some(DraggableElement { drag_x: x, drag_y: y })
            } else {
                None::<DraggableElement>
            }),
            final(self).base() == old(self).base(),
            final(self).same_apart_from_drag(old(self)),
    ;

    /// The element was dropped: the offset is folded into the base position
    /// (saturating) and reset.
    fn process_drop(&mut self)
        ensures
            final(self).drag_offset() == (if old(self).drag_offset().is_some() {
                Some(DraggableElement { drag_x: 0, drag_y: 0 })
            } else {
                None::<DraggableElement>
            }),
            final(self).base() == (match old(self).drag_offset() {
                Some(d) => (
                    clamp_i32(old(self).base().0 + d.drag_x) as i32,
                    clamp_i32(old(self).base().1 + d.drag_y) as i32,
                ),
                None => old(self).base(),
            }),
            final(self).same_apart_from_drag(old(self)),
    ;

    /// The drag was abandoned: the offset is discarded.
    fn process_cancel(&mut self)
        ensures
            final(self).drag_offset() == (if old(self).drag_offset().is_some() {
                Some(DraggableElement { drag_x: 0, drag_y: 0 })
            } else {
                None::<DraggableElement>
            }),
            final(self).base() == old(self).base(),
            final(self).same_apart_from_drag(old(self)),
    ;
}

} // verus!
