//! Components: stateful widgets built from elements, bindings and
//! handlers, which talk through a queue of user events.
use vstd::prelude::*;
use crate::binding::{Dim, MapRule, Mapping, SourceTerm};
use crate::drag::{add_clamped, clamp_i32};
use crate::element::{ElemBuilder, LineStyle};
use crate::fields::{FieldKind, FieldSelector, SizedStr, Vec4, sized_chars};
use crate::messaging::{HandlerCallback, HandlersBean, Msg, MsgKind, current_height};
use crate::links::Binding;

verus! {

/// An event exchanged between components.
#[derive(Clone, Copy, Debug)]
pub enum UserEvent {
    HrChanged(i32),
    ProcessDrag((usize, i32, i32)),
    ProcessDrop((usize, i32, i32)),
    Clicked(usize),
}

/// A widget built from elements of the store.
pub trait Component: Sized {
    /// `next` is `self` after creating its elements under `parent`, which
    /// took the store from `before` to `after` and returned `r`.
    spec fn initialized(self, next: Self, parent: usize, before: HandlersBean, after: HandlersBean, r: Option<usize>) -> bool;

    /// `next` is `self` after consuming `event`, which took the store from
    /// `before` to `after` and produced `out`.
    spec fn handled(self, next: Self, event: UserEvent, before: HandlersBean, after: HandlersBean, out: Seq<UserEvent>) -> bool;

    /// Creates the widget's elements under `parent`; returns the id of its
    /// main element, or `None` when the store could not take them.
    fn initialize(&mut self, parent: usize, ui: &mut HandlersBean) -> (r: Option<usize>)
        requires
            old(ui).wf(),
        ensures
            final(ui).wf(),
            old(self).initialized(*final(self), parent, *old(ui), *final(ui), r),
    ;

    /// Consumes `event` and produces events for the next drain.
    fn handle(&mut self, event: &UserEvent, ui: &mut HandlersBean) -> (r: Option<Vec<UserEvent>>)
        requires
            old(ui).wf(),
        ensures
            final(ui).wf(),
            old(self).handled(*final(self), *event, *old(ui), *final(ui), events_of(r)),
    ;
}

/// The events an optional list holds.
pub open spec fn events_of(r: Option<Vec<UserEvent>>) -> Seq<UserEvent> {
    match r {
        Some(v) => v@,
        None => Seq::empty(),
    }
}

pub open spec fn digit_char(d: nat) -> char {
    if d == 0 { '0' } else if d == 1 { '1' } else if d == 2 { '2' } else if d == 3 { '3' }
    else if d == 4 { '4' } else if d == 5 { '5' } else if d == 6 { '6' } else if d == 7 { '7' }
    else if d == 8 { '8' } else { '9' }
}

/// The decimal digits of `n`, most significant first.
pub open spec fn decimal_digits(n: nat) -> Seq<char>
    decreases n,
{
    if n < 10 {
        seq![digit_char(n)]
    } else {
        decimal_digits(n / 10).push(digit_char(n % 10))
    }
}

/// `n` written in decimal, with a leading minus sign when negative.
pub open spec fn decimal(n: int) -> Seq<char> {
    if n < 0 {
        seq!['-'] + decimal_digits((-n) as nat)
    } else {
        decimal_digits(n as nat)
    }
}

fn digit(d: u64) -> (c: char)
    requires
        d < 10,
    ensures
        c == digit_char(d as nat),
{
    if d == 0 { '0' } else if d == 1 { '1' } else if d == 2 { '2' } else if d == 3 { '3' }
    else if d == 4 { '4' } else if d == 5 { '5' } else if d == 6 { '6' } else if d == 7 { '7' }
    else if d == 8 { '8' } else { '9' }
}

fn push_digits(n: u64, out: &mut Vec<char>)
    ensures
        final(out)@ == old(out)@ + decimal_digits(n as nat),
    decreases n,
{
    if n >= 10 {
        push_digits(n / 10, out);
    }
    out.push(digit(n % 10));
    proof {
        if n < 10 {
            assert(old(out)@.push(digit_char(n as nat)) =~= old(out)@ + seq![digit_char(n as nat)]);
        } else {
            assert(old(out)@ + decimal_digits((n / 10) as nat) + seq![digit_char((n % 10) as nat)]
                =~= old(out)@ + decimal_digits(n as nat));
        }
    }
}

/// `n` in decimal, as a label text.
pub fn decimal_label(n: i32) -> (r: SizedStr)
    ensures
        r@ == sized_chars(decimal(n as int)),
{
    let mut chars: Vec<char> = Vec::new();
    if n < 0 {
        chars.push('-');
        push_digits((-(n as i64)) as u64, &mut chars);
    } else {
        push_digits(n as u64, &mut chars);
    }
    proof {
        if n < 0 {
            assert(chars@ =~= decimal(n as int));
        } else {
            assert(chars@ =~= decimal(n as int));
        }
    }
    let mut t: [char; 256] = [' '; 256];
    proof {
        vstd::array::axiom_spec_array_fill_for_copy_type::<char, 256>(' ');
    }
    let take: usize = if chars.len() < 256 { chars.len() } else { 256 };
    let mut k: usize = 0;
    while k < take
        invariant
            take <= 256,
            take <= chars@.len(),
            take == (if chars@.len() < 256 { chars@.len() } else { 256 }),
            k <= take,
            forall|i: int| 0 <= i < k ==> t@[i] == chars@[i],
            forall|i: int| k <= i < 256 ==> t@[i] == ' ',
        decreases take - k,
    {
        t[k] = chars[k];
        k = k + 1;
    }
    assert(t@ =~= sized_chars(chars@));
    t
}

/// A heart-rate read-out: a heart image beside a number.
#[derive(Debug)]
pub struct HRMDisplay {
    pub root_el: usize,
    pub heart_img: usize,
    pub text: usize,
    pub value: u32,
}

impl HRMDisplay {
    pub fn new() -> (d: HRMDisplay)
        ensures
            d.root_el == 0 && d.heart_img == 0 && d.text == 0 && d.value == 0,
    {
        HRMDisplay { root_el: 0, heart_img: 0, text: 0, value: 0 }
    }

    /// The heart follows the root's position and height, and is 11/10 as
    /// wide as it is high; the number follows the root 150 pixels to its
    /// right.
    /// `self` is the display after creating its elements under `parent`, taking
    /// the store from `before` to `after` and returning `r`.
    pub open spec fn built(self, parent: usize, before: HandlersBean, after: HandlersBean, r: Option<usize>) -> bool {
        before.present(parent) && before.id_bound() + 3 <= usize::MAX ==> {
            let root = self.root_el;
            let pre = before.bindings_from(root);
            let p = pre.len() as int;
            let now = after.bindings_from(root);
            &&& r == Some(root)
            &&& root == before.id_bound()
            &&& self.heart_img == root + 1
            &&& self.text == root + 2
            &&& after.present(root) && after.parent_of(root) == parent
            &&& after.present(self.heart_img) && after.parent_of(self.heart_img) == root
            &&& after.present(self.text) && after.parent_of(self.text) == 0
            &&& now.len() == pre.len() + 5
            &&& now.subrange(0, pre.len() as int) == pre
            &&& now[p + 0].target == self.heart_img
            &&& now[p + 0].map.rules@ == seq![
                MapRule::Affine { on: Dim::Height, emit: Dim::Height, num: 1, den: 1, offset: 0, plus: None },
                MapRule::Affine { on: Dim::Height, emit: Dim::Width, num: 11, den: 10, offset: 0, plus: None },
            ]
            &&& now[p + 1].target == self.heart_img
            &&& now[p + 1].map.rules@ == seq![MapRule::Forward(FieldKind::X)]
            &&& now[p + 2].target == self.heart_img
            &&& now[p + 2].map.rules@ == seq![MapRule::Forward(FieldKind::Y)]
            &&& now[p + 3].target == self.text
            &&& now[p + 3].map.rules@
                == seq![MapRule::Affine { on: Dim::X, emit: Dim::X, num: 1, den: 1, offset: 150, plus: None }]
            &&& now[p + 4].target == self.text
            &&& now[p + 4].map.rules@ == seq![MapRule::Forward(FieldKind::Y)]
        }
    }

    pub fn create_hr_control(&mut self, parent: usize, ui: &mut HandlersBean) -> (r: Option<usize>)
        requires
            old(ui).wf(),
        ensures
            final(ui).wf(),
            final(self).built(parent, *old(ui), *final(ui), r),
    {
        let ghost u0 = *ui;
        proof {
            u0.lemma_root_present();
        }
        let root = ElemBuilder::new(0, 0, 300, 120).build();
        self.root_el = match ui.add_element(root, parent) {
            Some(id) => id,
            None => { return None; },
        };
        let ghost u1 = *ui;
        let ghost r = self.root_el;
        proof {
            assert(r == u0.id_bound());
        }
        let heart = ElemBuilder::new(0, 0, 130, 120).svg("HRM").build();
        self.heart_img = match ui.add_element(heart, self.root_el) {
            Some(id) => id,
            None => { return None; },
        };
        let ghost u2 = *ui;
        let ghost h = self.heart_img;
        proof {
            assert(u2.parent_of(r) == parent) by {
                assert(u2.elem(r).same_frame_but_children(u1.elem(r)));
            }
            assert(u2.bindings_from(r) == u0.bindings_from(r));
        }
        let m1 = Mapping::new(vec![
            MapRule::Affine { on: Dim::Height, emit: Dim::Height, num: 1, den: 1, offset: 0, plus: None },
            MapRule::Affine { on: Dim::Height, emit: Dim::Width, num: 11, den: 10, offset: 0, plus: None },
        ]);
        let ghost g1 = m1;
        ui.add_bind(self.root_el, self.heart_img, m1);
        let m2 = Mapping::new(vec![MapRule::Forward(FieldKind::X)]);
        let ghost g2 = m2;
        ui.add_bind(self.root_el, self.heart_img, m2);
        let m3 = Mapping::new(vec![MapRule::Forward(FieldKind::Y)]);
        let ghost g3 = m3;
        ui.add_bind(self.root_el, self.heart_img, m3);
        let ghost u5 = *ui;
        proof {
            u5.lemma_root_present();
        }
        let heart_rate = ElemBuilder::new(150, 0, 150, 100)
            .with_label("180", "SourceSansPro-Black", 96, Vec4::new(1000, 1000, 1000, 1000))
            .build();
        self.text = match ui.add_element(heart_rate, 0) {
            Some(id) => id,
            None => { return None; },
        };
        let ghost u6 = *ui;
        let ghost t = self.text;
        proof {
            u5.lemma_root_present();
            assert(u1.present(r));
            assert(r != h);
            assert(u2.present(r));
            assert(u2.present(h));
            assert(u5.present(r));
            assert(u5.present(h));
            assert(r != 0);
            assert(h != 0);
            assert(u6.elem(r) == u5.elem(r));
            assert(u6.elem(h) == u5.elem(h));
        }
        let m4 = Mapping::new(vec![
            MapRule::Affine { on: Dim::X, emit: Dim::X, num: 1, den: 1, offset: 150, plus: None },
        ]);
        let ghost g4 = m4;
        ui.add_bind(self.root_el, self.text, m4);
        let m5 = Mapping::new(vec![MapRule::Forward(FieldKind::Y)]);
        let ghost g5 = m5;
        ui.add_bind(self.root_el, self.text, m5);
        proof {
            let pre = u0.bindings_from(r);
            let now = ui.bindings_from(r);
            assert(now =~= pre.push(Binding { target: h, map: g1 }).push(Binding { target: h, map: g2 })
                .push(Binding { target: h, map: g3 }).push(Binding { target: t, map: g4 }).push(Binding { target: t, map: g5 }));
            assert(now.subrange(0, pre.len() as int) =~= pre);
            assert(ui.elem(r) == u6.elem(r));
            assert(ui.elem(h) == u6.elem(h));
            assert(ui.elem(t) == u6.elem(t));
            assert(r == u0.id_bound());
            assert(u1.id_bound() == u0.id_bound() + 1);
            assert(h == u1.id_bound());
            assert(u2.id_bound() == u1.id_bound() + 1);
            assert(u5.id_bound() == u2.id_bound());
            assert(t == u5.id_bound());
            assert(u6.present(t));
            assert(u6.present(r));
            assert(u6.present(h));
            assert(ui.slot_table() == u6.slot_table());
            assert(ui.present(r) && ui.present(h) && ui.present(t));
            assert(ui.parent_of(r) == parent);
            assert(ui.parent_of(h) == r);
            assert(ui.parent_of(t) == 0);
            assert(g1.rules@ == seq![
                MapRule::Affine { on: Dim::Height, emit: Dim::Height, num: 1, den: 1, offset: 0, plus: None },
                MapRule::Affine { on: Dim::Height, emit: Dim::Width, num: 11, den: 10, offset: 0, plus: None },
            ]);
            assert(r == u0.id_bound() && h == r + 1 && t == r + 2);
            let p = pre.len() as int;
            assert(now[p + 0] == Binding { target: h, map: g1 });
            assert(now[p + 1] == Binding { target: h, map: g2 });
            assert(now[p + 2] == Binding { target: h, map: g3 });
            assert(now[p + 3] == Binding { target: t, map: g4 });
            assert(now[p + 4] == Binding { target: t, map: g5 });
            assert(g2.rules@ == seq![MapRule::Forward(FieldKind::X)]);
            assert(g3.rules@ == seq![MapRule::Forward(FieldKind::Y)]);
            assert(g4.rules@ == seq![MapRule::Affine { on: Dim::X, emit: Dim::X, num: 1, den: 1, offset: 150, plus: None }]);
            assert(g5.rules@ == seq![MapRule::Forward(FieldKind::Y)]);
            assert(self.root_el == r && self.heart_img == h && self.text == t);
        }
        Some(self.root_el)
    }
}

impl Component for HRMDisplay {
    open spec fn initialized(self, next: Self, parent: usize, before: HandlersBean, after: HandlersBean, r: Option<usize>) -> bool {
        next.built(parent, before, after, r)
    }

    /// A new heart rate is shown as the number's text; nothing else changes.
    open spec fn handled(self, next: Self, event: UserEvent, before: HandlersBean, after: HandlersBean, out: Seq<UserEvent>) -> bool {
        &&& next == self
        &&& out.len() == 0
        &&& match event {
            UserEvent::HrChanged(hr) => exists|t: SizedStr, c: bool| t@ == sized_chars(decimal(hr as int))
                && #[trigger] HandlersBean::set_result(before, after, self.text, FieldSelector::LabelText(t), c),
            _ => after == before,
        }
    }

    fn initialize(&mut self, parent: usize, ui: &mut HandlersBean) -> (r: Option<usize>) {
        self.create_hr_control(parent, ui)
    }

    /// A new heart rate is shown as the number's text.
    fn handle(&mut self, event: &UserEvent, ui: &mut HandlersBean) -> (r: Option<Vec<UserEvent>>) {
        if let UserEvent::HrChanged(hr) = event {
            let t = decimal_label(*hr);
            let c = ui.set(self.text, FieldSelector::LabelText(t));
            assert(HandlersBean::set_result(*old(ui), *ui, self.text, FieldSelector::LabelText(t), c));
        }
        None
    }
}

/// Height of the draggable edge below a slide box.
pub const EDGE_SIZE: i32 = 6;

/// A panel with a draggable bottom edge that resizes it, and an arrow
/// below that collapses and restores it.
#[derive(Debug)]
pub struct SlideBox {
    pub root: usize,
    pub edge: usize,
    pub handle: usize,
    /// The panel's height when the current drag began.
    pub drag_base: Option<i32>,
}

impl SlideBox {
    pub fn new() -> (b: SlideBox)
        ensures
            b.root == 0 && b.edge == 0 && b.handle == 0 && b.drag_base.is_none(),
    {
        SlideBox { root: 0, edge: 0, handle: 0, drag_base: None }
    }
}

impl SlideBox {
    /// Creates the panel under `parent`, its edge and its arrow.
    /// `self` is the panel after creating its elements under `parent`, taking
    /// the store from `before` to `after` and returning `r`.
    pub open spec fn built(self, parent: usize, before: HandlersBean, after: HandlersBean, r: Option<usize>) -> bool {
        before.present(parent) && before.id_bound() + 3 <= usize::MAX ==> {
            let root = self.root;
            let pre = before.bindings_from(root);
            let p = pre.len() as int;
            let now = after.bindings_from(root);
            &&& r == Some(root)
            &&& root == before.id_bound()
            &&& self.edge == root + 1
            &&& self.handle == root + 2
            &&& after.present(root) && after.parent_of(root) == parent
            &&& after.present(self.edge) && after.parent_of(self.edge) == root
            &&& after.present(self.handle) && after.parent_of(self.handle) == root
            &&& after.elem(self.edge).draggable is Some
            &&& after.elem(self.edge).gradient_stops == 2
            &&& now.len() == pre.len() + 2
            &&& now.subrange(0, p) == pre
            &&& now[p].target == self.edge
            &&& now[p].map.rules@ == seq![
                MapRule::Forward(FieldKind::X),
                MapRule::Affine { on: Dim::Y, emit: Dim::Y, num: 1, den: 1, offset: 0, plus: Some(SourceTerm { field: Dim::Height, num: 1, den: 1 }) },
                MapRule::Affine { on: Dim::Height, emit: Dim::Y, num: 1, den: 1, offset: 0, plus: Some(SourceTerm { field: Dim::Y, num: 1, den: 1 }) },
                MapRule::Forward(FieldKind::Width),
            ]
            &&& now[p + 1].target == self.handle
            &&& now[p + 1].map.rules@ == seq![
                MapRule::Affine { on: Dim::X, emit: Dim::X, num: 1, den: 1, offset: -30i32, plus: Some(SourceTerm { field: Dim::Width, num: 1, den: 2 }) },
                MapRule::Affine { on: Dim::Y, emit: Dim::Y, num: 1, den: 1, offset: EDGE_SIZE, plus: Some(SourceTerm { field: Dim::Height, num: 1, den: 1 }) },
                MapRule::Affine { on: Dim::Height, emit: Dim::Y, num: 1, den: 1, offset: EDGE_SIZE, plus: Some(SourceTerm { field: Dim::Y, num: 1, den: 1 }) },
                MapRule::Affine { on: Dim::Width, emit: Dim::X, num: 1, den: 2, offset: -30i32, plus: Some(SourceTerm { field: Dim::X, num: 1, den: 1 }) },
            ]
            &&& after.handler(self.handle, MsgKind::MouseDown)
                == Some(HandlerCallback::ToggleHeight { target: root, saved: 0 })
        }
    }

    pub fn create_slide_box(&mut self, parent: usize, ui: &mut HandlersBean) -> (r: Option<usize>)
        requires
            old(ui).wf(),
        ensures
            final(ui).wf(),
            final(self).built(parent, *old(ui), *final(ui), r),
    {
        let ghost u0 = *ui;
        proof {
            u0.lemma_root_present();
        }
        let root = ElemBuilder::new(0, 0, 100, 100)
            .with_line_style(&LineStyle { color: Vec4::new(200, 200, 200, 1000), dashed: false, width: 1000 })
            .filled_rect(&[0, 0, 0, 900])
            .build();
        self.root = match ui.add_element(root, parent) {
            Some(id) => id,
            None => { return None; },
        };
        let ghost u1 = *ui;
        let ghost r = self.root;
        let edge = ElemBuilder::new(0, 100, 100, EDGE_SIZE)
            .filled_rect(&[500, 500, 500, 1000])
            .with_gradient(2, vec![1000, 0], vec![Vec4::new(500, 500, 500, 1000), Vec4::new(0, 0, 0, 1000)], (0, 0), (0, 1000))
            .draggable()
            .build();
        self.edge = match ui.add_element(edge, self.root) {
            Some(id) => id,
            None => { return None; },
        };
        let ghost u2 = *ui;
        let ghost e = self.edge;
        let handle = ElemBuilder::new(30, 100 + EDGE_SIZE, 60, 16).svg("ArrowDown").build();
        self.handle = match ui.add_element(handle, self.root) {
            Some(id) => id,
            None => { return None; },
        };
        let ghost u3 = *ui;
        let ghost h = self.handle;
        proof {
            assert(r != 0 && e != 0 && h != 0 && r != e && r != h && e != h);
            assert(u2.elem(e).draggable is Some && u2.elem(e).gradient_stops == 2);
            assert(u3.elem(e) == u2.elem(e));
            assert(u2.parent_of(r) == parent) by {
                assert(u2.elem(r).same_frame_but_children(u1.elem(r)));
            }
            assert(u3.parent_of(r) == parent) by {
                assert(u3.elem(r).same_frame_but_children(u2.elem(r)));
            }
            assert(u3.present(r) && u3.present(e) && u3.present(h));
        }
        let m1 = Mapping::new(vec![
            MapRule::Forward(FieldKind::X),
            MapRule::Affine { on: Dim::Y, emit: Dim::Y, num: 1, den: 1, offset: 0, plus: Some(SourceTerm { field: Dim::Height, num: 1, den: 1 }) },
            MapRule::Affine { on: Dim::Height, emit: Dim::Y, num: 1, den: 1, offset: 0, plus: Some(SourceTerm { field: Dim::Y, num: 1, den: 1 }) },
            MapRule::Forward(FieldKind::Width),
        ]);
        let ghost g1 = m1;
        ui.add_bind(self.root, self.edge, m1);
        let m2 = Mapping::new(vec![
            MapRule::Affine { on: Dim::X, emit: Dim::X, num: 1, den: 1, offset: -30, plus: Some(SourceTerm { field: Dim::Width, num: 1, den: 2 }) },
            MapRule::Affine { on: Dim::Y, emit: Dim::Y, num: 1, den: 1, offset: EDGE_SIZE, plus: Some(SourceTerm { field: Dim::Height, num: 1, den: 1 }) },
            MapRule::Affine { on: Dim::Height, emit: Dim::Y, num: 1, den: 1, offset: EDGE_SIZE, plus: Some(SourceTerm { field: Dim::Y, num: 1, den: 1 }) },
            MapRule::Affine { on: Dim::Width, emit: Dim::X, num: 1, den: 2, offset: -30, plus: Some(SourceTerm { field: Dim::X, num: 1, den: 1 }) },
        ]);
        let ghost g2 = m2;
        ui.add_bind(self.root, self.handle, m2);
        let ghost u5 = *ui;
        ui.register_handler(self.handle, Msg::MouseDown(0, 0), HandlerCallback::ToggleHeight { target: self.root, saved: 0 });
        proof {
            let pre = u0.bindings_from(r);
            let now = ui.bindings_from(r);
            assert(now =~= pre.push(Binding { target: e, map: g1 }).push(Binding { target: h, map: g2 }));
            assert(now.subrange(0, pre.len() as int) =~= pre);
            assert(ui.elem(r) == u3.elem(r));
            assert(ui.elem(e) == u3.elem(e));
            assert(ui.elem(h) == u3.elem(h));
            assert(ui.slot_table() == u3.slot_table());
        }
        Some(self.root)
    }

}

/// The height a drag of `y` gives a panel that was `base` high.
pub open spec fn dragged_height(y: i32, base: i32) -> i32 {
    clamp_i32(y + base) as i32
}

impl SlideBox {
    /// The panel's height when the current drag began, or its height in
    /// `before` when no drag is under way.
    pub open spec fn base_height(self, before: HandlersBean) -> i32 {
        match self.drag_base {
            Some(b) => b,
            None => current_height(before, self.root),
        }
    }
}

impl Component for SlideBox {
    open spec fn initialized(self, next: Self, parent: usize, before: HandlersBean, after: HandlersBean, r: Option<usize>) -> bool {
        next.built(parent, before, after, r)
    }

    /// A drag remembers the panel's height when it began; a drag of the
    /// edge sets the height to that plus the offset; a drop forgets it.
    open spec fn handled(self, next: Self, event: UserEvent, before: HandlersBean, after: HandlersBean, out: Seq<UserEvent>) -> bool {
        &&& out.len() == 0
        &&& match event {
            UserEvent::ProcessDrag((id, _x, y)) => {
                &&& next == SlideBox { drag_base: Some(self.base_height(before)), ..self }
                &&& if id == self.edge {
                    exists|c: bool| #[trigger] HandlersBean::set_result(before, after, self.root,
                        FieldSelector::Height(dragged_height(y, self.base_height(before))), c)
                } else {
                    after == before
                }
            },
            UserEvent::ProcessDrop(_) => next == SlideBox { drag_base: None, ..self } && after == before,
            _ => next == self && after == before,
        }
    }

    /// The edge sits just below the panel and is as wide; the arrow is
    /// centred below the edge.
    fn initialize(&mut self, parent: usize, ui: &mut HandlersBean) -> (r: Option<usize>) {
        self.create_slide_box(parent, ui)
    }

    /// Dragging the edge sets the panel's height to its height when the drag
    /// began plus the vertical offset; a drop ends the drag.
    fn handle(&mut self, event: &UserEvent, ui: &mut HandlersBean) -> (r: Option<Vec<UserEvent>>) {
        match event {
            UserEvent::ProcessDrag((id, _x, y)) => {
                let base = match self.drag_base {
                    Some(b) => b,
                    None => {
                        let h = match ui.get(self.root, FieldKind::Height) {
                            Some(FieldSelector::Height(h)) => h,
                            _ => 0,
                        };
                        self.drag_base = Some(h);
                        h
                    },
                };
                if *id == self.edge {
                    let c = ui.set(self.root, FieldSelector::Height(add_clamped(*y, base)));
                    assert(HandlersBean::set_result(*old(ui), *ui, self.root, FieldSelector::Height(dragged_height(*y, base)), c));
                }
            },
            UserEvent::ProcessDrop(_) => {
                self.drag_base = None;
            },
            _ => {},
        }
        None
    }
}

/// The components this library provides.
#[derive(Debug)]
pub enum Widget {
    Hrm(HRMDisplay),
    Slide(SlideBox),
}

impl Component for Widget {
    open spec fn initialized(self, next: Self, parent: usize, before: HandlersBean, after: HandlersBean, r: Option<usize>) -> bool {
        match (self, next) {
            (Widget::Hrm(a), Widget::Hrm(b)) => a.initialized(b, parent, before, after, r),
            (Widget::Slide(a), Widget::Slide(b)) => a.initialized(b, parent, before, after, r),
            _ => false,
        }
    }

    open spec fn handled(self, next: Self, event: UserEvent, before: HandlersBean, after: HandlersBean, out: Seq<UserEvent>) -> bool {
        match (self, next) {
            (Widget::Hrm(a), Widget::Hrm(b)) => a.handled(b, event, before, after, out),
            (Widget::Slide(a), Widget::Slide(b)) => a.handled(b, event, before, after, out),
            _ => false,
        }
    }

    fn initialize(&mut self, parent: usize, ui: &mut HandlersBean) -> (r: Option<usize>) {
        match self {
            Widget::Hrm(w) => w.initialize(parent, ui),
            Widget::Slide(w) => w.initialize(parent, ui),
        }
    }

    fn handle(&mut self, event: &UserEvent, ui: &mut HandlersBean) -> (r: Option<Vec<UserEvent>>) {
        match self {
            Widget::Hrm(w) => w.handle(event, ui),
            Widget::Slide(w) => w.handle(event, ui),
        }
    }
}

} // verus!
