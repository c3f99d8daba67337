//! Pointer and keyboard decisions of the user interface. The platform
//! layer draws the picking pass and performs the actions; this state
//! machine decides what each message does.
use vstd::prelude::*;
use crate::components::UserEvent;
use crate::drag::Draggable;
use crate::fields::FieldSelector;
use crate::messaging::{DragOp, HandlersBean, Msg};
use crate::picking::flip_y;
use crate::drag::clamp_i32;

verus! {

/// Key code of the space bar.
pub const KEY_SPACE: u32 = 32;

/// Key code of the letter C.
pub const KEY_C: u32 = 67;

/// What the platform layer is asked to do after a message.
#[derive(Clone, Copy, Debug, PartialEq, Eq, Structural)]
pub enum UiAction {
    Nothing,
    ToggleFullscreen,
    ConnectHeartRateMonitor,
    /// Resize the canvas and its picking buffer.
    ResizeCanvas(i32, i32),
}

#[derive(Clone, Copy, Debug, PartialEq, Eq, Structural)]
pub enum Cursor {
    Move,
    Default,
}

/// The outcome of one message.
#[derive(Clone, Copy, Debug)]
pub struct UiResponse {
    /// The message was handled here and goes no further.
    pub consumed: bool,
    pub action: UiAction,
    /// The pointer's new look, if it changes.
    pub cursor: Option<Cursor>,
}

/// The store together with the state of the drag in progress.
pub struct UiCore {
    pub handling: HandlersBean,
    pub drag_elem: Option<usize>,
    pub start_drag_x: i32,
    pub start_drag_y: i32,
}

impl UiCore {
    pub open spec fn wf(&self) -> bool {
        self.handling.wf()
    }

    /// A store holding only a root of the canvas's size, and no drag.
    pub fn new(w: i32, h: i32) -> (u: UiCore)
        ensures
            u.wf(),
            u.drag_elem.is_none(),
            u.handling.present(0),
            u.handling.elem(0).width == w,
            u.handling.elem(0).height == h,
    {
        UiCore { handling: HandlersBean::new(w, h), drag_elem: None, start_drag_x: 0, start_drag_y: 0 }
    }

    /// Handles one message. `canvas_height` is the canvas's height in
    /// pixels; for a pointer press, `pick` is what the picking pass found
    /// under the pointer.
    pub fn msg(&mut self, msg: &Msg, canvas_height: i32, pick: Option<usize>, now: u64) -> (r: UiResponse)
        requires
            old(self).wf(),
        ensures
            final(self).wf(),
            *msg is AdvanceClock ==> {
                &&& !r.consumed
                &&& r.action == UiAction::Nothing
                &&& HandlersBean::drained(old(self).handling, final(self).handling)
                &&& final(self).drag_elem == old(self).drag_elem
            },
            *msg is MouseDown && pick is None ==> !r.consumed && *final(self) == *old(self),
            *msg is MouseDown && pick is Some ==> ({
                let t = pick->Some_0;
                let x = msg->MouseDown_0;
                let y = msg->MouseDown_1;
                exists|mid: HandlersBean, c: bool| {
                    let drag = mid.present(t) && mid.elem(t).draggable is Some;
                    &&& #[trigger] HandlersBean::dispatched(old(self).handling, mid, t, *msg, now, c)
                    &&& r.consumed == (c || drag)
                    &&& drag ==> final(self).handling == mid && final(self).drag_elem == Some(t)
                        && final(self).start_drag_x == x
                        && final(self).start_drag_y as int == clamp_i32(canvas_height - y)
                        && r.cursor == Some(Cursor::Move)
                    &&& !drag ==> final(self).drag_elem.is_none() && match old(self).drag_elem {
                        Some(d) => exists|c2: bool| HandlersBean::dragged(mid, final(self).handling, d, DragOp::Cancel, c2),
                        None => final(self).handling == mid,
                    }
                }
            }),
            *msg is MouseMove && old(self).drag_elem is None ==> !r.consumed && *final(self) == *old(self),
            *msg is MouseMove && old(self).drag_elem is Some ==> ({
                let d = old(self).drag_elem->Some_0;
                let x = msg->MouseMove_0;
                let y = msg->MouseMove_1;
                let dx = clamp_i32(x + clamp_i32(-(old(self).start_drag_x as int))) as i32;
                let dy = clamp_i32(clamp_i32(canvas_height - y) + clamp_i32(-(old(self).start_drag_y as int))) as i32;
                &&& r.consumed
                &&& final(self).drag_elem == Some(d)
                &&& exists|mid: HandlersBean, c: bool| #[trigger] HandlersBean::dragged(old(self).handling, mid, d, DragOp::Move(dx, dy), c)
                    && HandlersBean::event_pushed(mid, final(self).handling, UserEvent::ProcessDrag((d, dx, dy)))
            }),
            *msg is MouseUp && old(self).drag_elem is None ==> !r.consumed && *final(self) == *old(self),
            *msg is MouseUp && old(self).drag_elem is Some ==> ({
                let d = old(self).drag_elem->Some_0;
                let fy = clamp_i32(canvas_height - msg->MouseUp_1) as i32;
                &&& r.consumed
                &&& final(self).drag_elem.is_none()
                &&& r.cursor == Some(Cursor::Default)
                &&& exists|mid: HandlersBean, c: bool| #[trigger] HandlersBean::dragged(old(self).handling, mid, d, DragOp::Drop, c)
                    && HandlersBean::event_pushed(mid, final(self).handling, UserEvent::ProcessDrop((d, msg->MouseUp_0, fy)))
            }),
            *msg is KeyDown ==> !r.consumed && *final(self) == *old(self) && r.action == (if msg->KeyDown_0 == KEY_SPACE {
                UiAction::ToggleFullscreen
            } else if msg->KeyDown_0 == KEY_C {
                UiAction::ConnectHeartRateMonitor
            } else {
                UiAction::Nothing
            }),
            *msg is ResizeViewport ==> !r.consumed && r.action == UiAction::ResizeCanvas(msg->ResizeViewport_0, msg->ResizeViewport_1)
                && final(self).drag_elem == old(self).drag_elem
                && exists|mid: HandlersBean, c1: bool, c2: bool|
                    #[trigger] HandlersBean::set_result(old(self).handling, mid, 0, FieldSelector::Width(msg->ResizeViewport_0), c1)
                    && #[trigger] HandlersBean::set_result(mid, final(self).handling, 0, FieldSelector::Height(msg->ResizeViewport_1), c2),
            !(*msg is AdvanceClock || *msg is MouseDown || *msg is MouseMove || *msg is MouseUp || *msg is KeyDown
                || *msg is ResizeViewport) ==> !r.consumed && *final(self) == *old(self),
    {
        let none = UiResponse { consumed: false, action: UiAction::Nothing, cursor: None };
        match *msg {
            Msg::AdvanceClock(_) => {
                assert(*msg is AdvanceClock);
                self.handling.process_events();
                assert(HandlersBean::drained(old(self).handling, self.handling));
                assert(self.drag_elem == old(self).drag_elem);
                assert(!none.consumed && none.action == UiAction::Nothing);
                none
            },
            Msg::MouseDown(x, y) => {
                let target = match pick {
                    Some(t) => t,
                    None => { return none; },
                };
                let y = flip_y(canvas_height, y);
                let mut consumed = self.handling.dispatch(target, msg, now);
                let ghost mid = self.handling;
                let ghost c = consumed;
                let draggable = match self.handling.elem_by_id(target) {
                    Some(e) => e.is_draggable(),
                    None => false,
                };
                assert(draggable == (mid.present(target) && mid.elem(target).draggable is Some));
                if draggable {
                    self.drag_elem = Some(target);
                    self.start_drag_x = x;
                    self.start_drag_y = y;
                    consumed = true;
                    UiResponse { consumed, action: UiAction::Nothing, cursor: Some(Cursor::Move) }
                } else {
                    if let Some(d) = self.drag_elem {
                        let c2 = self.handling.drag_element(d, DragOp::Cancel);
                        assert(HandlersBean::dragged(mid, self.handling, d, DragOp::Cancel, c2));
                        self.drag_elem = None;
                    }
                    UiResponse { consumed, action: UiAction::Nothing, cursor: None }
                }
            },
            Msg::KeyDown(code) => {
                let action = if code == KEY_SPACE {
                    UiAction::ToggleFullscreen
                } else if code == KEY_C {
                    UiAction::ConnectHeartRateMonitor
                } else {
                    UiAction::Nothing
                };
                UiResponse { consumed: false, action, cursor: None }
            },
            Msg::ResizeViewport(w, h) => {
                let c1 = self.handling.set(0, FieldSelector::Width(w));
                let ghost mid = self.handling;
                let c2 = self.handling.set(0, FieldSelector::Height(h));
                assert(HandlersBean::set_result(mid, self.handling, 0, FieldSelector::Height(h), c2));
                UiResponse { consumed: false, action: UiAction::ResizeCanvas(w, h), cursor: None }
            },
            Msg::MouseMove(x, y) => {
                match self.drag_elem {
                    Some(d) => {
                        let dx = crate::drag::add_clamped(x, neg_clamped(self.start_drag_x));
                        let dy = crate::drag::add_clamped(flip_y(canvas_height, y), neg_clamped(self.start_drag_y));
                        let c = self.handling.drag_element(d, DragOp::Move(dx, dy));
                        let ghost mid = self.handling;
                        self.handling.push_event(UserEvent::ProcessDrag((d, dx, dy)));
                        assert(HandlersBean::dragged(old(self).handling, mid, d, DragOp::Move(dx, dy), c));
                        assert(HandlersBean::event_pushed(mid, self.handling, UserEvent::ProcessDrag((d, dx, dy))));
                        assert(dx == clamp_i32(msg->MouseMove_0 + clamp_i32(-(old(self).start_drag_x as int))) as i32);
                        assert(dy == clamp_i32(clamp_i32(canvas_height - msg->MouseMove_1) + clamp_i32(-(old(self).start_drag_y as int))) as i32);
                        assert(self.drag_elem == Some(d));
                        UiResponse { consumed: true, action: UiAction::Nothing, cursor: None }
                    },
                    None => none,
                }
            },
            Msg::MouseUp(x, y) => {
                let y = flip_y(canvas_height, y);
                match self.drag_elem {
                    Some(d) => {
                        let c = self.handling.drag_element(d, DragOp::Drop);
                        let ghost mid = self.handling;
                        self.handling.push_event(UserEvent::ProcessDrop((d, x, y)));
                        assert(HandlersBean::dragged(old(self).handling, mid, d, DragOp::Drop, c));
                        self.drag_elem = None;
                        UiResponse { consumed: true, action: UiAction::Nothing, cursor: Some(Cursor::Default) }
                    },
                    None => none,
                }
            },
            _ => none,
        }
    }
}

/// `-v`, saturated to the range of `i32`.
fn neg_clamped(v: i32) -> (r: i32)
    ensures
        r as int == crate::drag::clamp_i32(-(v as int)),
{
    if v == i32::MIN {
        i32::MAX
    } else {
        -v
    }
}

} // verus!
