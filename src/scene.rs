//! The client's opening scene: a logo that flies in and out, a slide box
//! across the top and a frame-rate label in the top right corner.
use vstd::prelude::*;
use crate::animation::{Animation, AnimationSequence, Animator, CompositeAnimation};
use crate::binding::{Dim, MapRule, Mapping};
use crate::components::{SlideBox, Widget};
use crate::drag::add_clamped;
use crate::element::ElemBuilder;
use crate::fields::{FieldSelector, Vec4};
use crate::messaging::{HandlerCallback, HandlersBean};

verus! {

/// The ids of the opening scene's parts; `None` where the store could not
/// take one.
#[derive(Clone, Copy, Debug)]
pub struct SceneIds {
    pub logo: Option<usize>,
    pub slider: Option<usize>,
    pub fps_label: Option<usize>,
}

/// A label in the top right corner of a `w` by `h` canvas that stays there
/// when the root is resized.
pub fn create_fps_label(w: i32, h: i32, ui: &mut HandlersBean) -> (r: Option<usize>)
    requires
        old(ui).wf(),
    ensures
        final(ui).wf(),
        r matches Some(id) ==> final(ui).present(id),
{
    let label = ElemBuilder::new(add_clamped(w, -100), add_clamped(h, -20), 100, 20)
        .with_background(&[0, 0, 0, 1000])
        .with_label("0 FPS", "Roboto-Light", 16, Vec4::new(1000, 1000, 1000, 1000))
        .build();
    let id = match ui.add_element(label, 0) {
        Some(id) => id,
        None => { return None; },
    };
    ui.add_bind(0, id, Mapping::new(vec![
        MapRule::Affine { on: Dim::Height, emit: Dim::Y, num: 1, den: 1, offset: -20, plus: None },
        MapRule::Affine { on: Dim::Width, emit: Dim::X, num: 1, den: 1, offset: -100, plus: None },
    ]));
    Some(id)
}

/// The logo grows in from the bottom edge over a second, holds for two,
/// then shrinks away upward over two more and is removed.
pub fn init_ui(ui: &mut HandlersBean, w: i32, h: i32, now: u64) -> (r: Option<usize>)
    requires
        old(ui).wf(),
    ensures
        final(ui).wf(),
        r matches Some(id) ==> final(ui).present(id),
{
    let logo = ElemBuilder::new(400, 200, 400, 250).svg("test.svg").build();
    let svg_id = match ui.add_element(logo, 0) {
        Some(id) => id,
        None => { return None; },
    };
    let mid_y = h / 2 - 125;
    let left = w / 2 - 300;
    let right = w / 2 - 200;
    let composite1 = Animator::Composite(CompositeAnimation {
        animations: vec![
            Animator::Single(Animation::linear(svg_id, FieldSelector::Y(h), FieldSelector::Y(mid_y), 1000)),
            Animator::Single(Animation::linear(svg_id, FieldSelector::BGColor(Vec4::new(0, 0, 0, 0)),
                FieldSelector::BGColor(Vec4::new(0, 0, 0, 1000)), 1000)),
            Animator::Single(Animation::linear(svg_id, FieldSelector::Width(400), FieldSelector::Width(600), 1000)),
            Animator::Single(Animation::linear(svg_id, FieldSelector::Height(250), FieldSelector::Height(375), 1000)),
            Animator::Single(Animation::linear(svg_id, FieldSelector::X(right), FieldSelector::X(left), 1000)),
        ],
    });
    let composite2 = Animator::Composite(CompositeAnimation {
        animations: vec![
            Animator::Single(Animation::linear(svg_id, FieldSelector::Y(mid_y), FieldSelector::Y(-250), 2000)),
            Animator::Single(Animation::linear(svg_id, FieldSelector::BGColor(Vec4::new(0, 0, 0, 1000)),
                FieldSelector::BGColor(Vec4::new(0, 0, 0, 0)), 2000)),
            Animator::Single(Animation::linear(svg_id, FieldSelector::Width(600), FieldSelector::Width(400), 2000)),
            Animator::Single(Animation::linear(svg_id, FieldSelector::Height(375), FieldSelector::Height(250), 2000)),
            Animator::Single(Animation::linear(svg_id, FieldSelector::X(left), FieldSelector::X(right), 2000)),
        ],
    });
    let pause = Animator::Single(Animation::pause(svg_id, 2000));
    let seq = Animator::Sequence(AnimationSequence::new(vec![composite1, pause, composite2], false));
    proof {
        assert(seq.wf()) by {
            let q = seq->Sequence_0;
            assert forall|i: int| 0 <= i < q.animations@.len() implies (#[trigger] q.animations@[i]).wf() by {
                if i == 0 {
                    let c = q.animations@[0]->Composite_0;
                    assert forall|j: int| 0 <= j < c.animations@.len() implies (#[trigger] c.animations@[j]).wf() by {}
                } else if i == 2 {
                    let c = q.animations@[2]->Composite_0;
                    assert forall|j: int| 0 <= j < c.animations@.len() implies (#[trigger] c.animations@[j]).wf() by {}
                }
            }
        }
    }
    ui.start_animation(seq, Some(HandlerCallback::RemoveElement(svg_id)), now);
    Some(svg_id)
}

/// Builds the opening scene on a `w` by `h` canvas at time `now`: the
/// logo, a slide box 15 pixels from the corner and 30 narrower than the
/// canvas, and the frame-rate label.
pub fn setup(ui: &mut HandlersBean, w: i32, h: i32, now: u64) -> (r: SceneIds)
    requires
        old(ui).wf(),
    ensures
        final(ui).wf(),
        r.fps_label matches Some(id) ==> final(ui).present(id),
{
    let logo = init_ui(ui, w, h, now);
    let slider = ui.add_component(Widget::Slide(SlideBox::new()), 0);
    if let Some(s) = slider {
        ui.set(s, FieldSelector::Width(add_clamped(w, -30)));
        ui.set(s, FieldSelector::Height(300));
        ui.set(s, FieldSelector::X(15));
        ui.set(s, FieldSelector::Y(15));
        ui.add_bind(0, s, Mapping::new(vec![
            MapRule::Affine { on: Dim::Width, emit: Dim::Width, num: 1, den: 1, offset: -30, plus: None },
        ]));
    }
    let fps_label = create_fps_label(w, h, ui);
    SceneIds { logo, slider, fps_label }
}

} // verus!
