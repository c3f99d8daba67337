use ui_core::binding::{Dim, MapRule, Mapping, SourceTerm};
use ui_core::element::ElemBuilder;
use ui_core::fields::{FieldKind, FieldSelector};
use ui_core::messaging::{HandlerCallback, HandlerImpact, HandlersBean, Msg, MsgKind};
use ui_core::animation::{Animation, Animator};

fn boxed(x: i32, y: i32, w: i32, h: i32) -> ui_core::element::Element {
    ElemBuilder::new(x, y, w, h).build()
}

fn width_minus(offset: i32) -> Mapping {
    Mapping::new(vec![MapRule::Affine { on: Dim::Width, emit: Dim::Width, num: 1, den: 1, offset, plus: None }])
}

#[test]
fn ids_follow_insertion_order() {
    let mut s = HandlersBean::new(800, 600);
    assert_eq!(s.add_element(boxed(0, 0, 10, 10), 0), Some(1));
    assert_eq!(s.add_element(boxed(0, 0, 10, 10), 1), Some(2));
    assert_eq!(s.add_element(boxed(0, 0, 10, 10), 0), Some(3));
    assert_eq!(s.element_count(), 4);
    assert_eq!(s.elem_by_id(0).unwrap().children(), &[1, 3]);
    assert_eq!(s.elem_by_id(2).unwrap().get_parent(), 1);
}

#[test]
fn add_under_missing_parent_fails() {
    let mut s = HandlersBean::new(800, 600);
    assert_eq!(s.add_element(boxed(0, 0, 10, 10), 7), None);
    assert_eq!(s.element_count(), 1);
}

#[test]
fn binding_fans_out_width_minus_thirty() {
    let mut s = HandlersBean::new(800, 600);
    let a = s.add_element(boxed(0, 0, 100, 100), 0).unwrap();
    let b = s.add_element(boxed(0, 0, 50, 50), a).unwrap();
    assert_eq!((a, b), (1, 2));
    s.add_bind(a, b, width_minus(-30));
    assert!(s.set(a, FieldSelector::Width(200)));
    assert!(matches!(s.get(a, FieldKind::Width), Some(FieldSelector::Width(200))));
    assert!(matches!(s.get(b, FieldKind::Width), Some(FieldSelector::Width(170))));
}

#[test]
fn set_then_get_returns_value_despite_bindings() {
    let mut s = HandlersBean::new(800, 600);
    let a = s.add_element(boxed(0, 0, 100, 100), 0).unwrap();
    let b = s.add_element(boxed(0, 0, 50, 50), a).unwrap();
    s.add_bind(a, b, Mapping::new(vec![MapRule::Forward(FieldKind::X)]));
    s.add_bind(b, 0, Mapping::new(vec![MapRule::Forward(FieldKind::Y)]));
    s.set(a, FieldSelector::X(42));
    assert!(matches!(s.get(a, FieldKind::X), Some(FieldSelector::X(42))));
    assert!(matches!(s.get(b, FieldKind::X), Some(FieldSelector::X(42))));
}

#[test]
fn binding_returning_none_leaves_target_alone() {
    let mut s = HandlersBean::new(800, 600);
    let a = s.add_element(boxed(0, 0, 100, 100), 0).unwrap();
    let b = s.add_element(boxed(5, 6, 50, 50), 0).unwrap();
    s.add_bind(a, b, Mapping::new(vec![MapRule::Forward(FieldKind::X)]));
    s.set(a, FieldSelector::Width(300));
    assert!(matches!(s.get(b, FieldKind::X), Some(FieldSelector::X(5))));
    assert!(matches!(s.get(b, FieldKind::Width), Some(FieldSelector::Width(50))));
}

#[test]
fn fan_out_of_one_value_to_two_fields() {
    let mut s = HandlersBean::new(800, 600);
    let a = s.add_element(boxed(0, 0, 100, 100), 0).unwrap();
    let b = s.add_element(boxed(0, 0, 10, 10), a).unwrap();
    s.add_bind(a, b, Mapping::new(vec![
        MapRule::Affine { on: Dim::Height, emit: Dim::Height, num: 1, den: 1, offset: 0, plus: None },
        MapRule::Affine { on: Dim::Height, emit: Dim::Width, num: 11, den: 10, offset: 0, plus: None },
    ]));
    s.set(a, FieldSelector::Height(120));
    assert!(matches!(s.get(b, FieldKind::Height), Some(FieldSelector::Height(120))));
    assert!(matches!(s.get(b, FieldKind::Width), Some(FieldSelector::Width(132))));
}

#[test]
fn source_term_reads_source_geometry() {
    let mut s = HandlersBean::new(800, 600);
    let a = s.add_element(boxed(0, 10, 100, 40), 0).unwrap();
    let b = s.add_element(boxed(0, 0, 10, 10), a).unwrap();
    s.add_bind(a, b, Mapping::new(vec![MapRule::Affine {
        on: Dim::Y, emit: Dim::Y, num: 1, den: 1, offset: 0,
        plus: Some(SourceTerm { field: Dim::Height, num: 1, den: 1 }),
    }]));
    s.set(a, FieldSelector::Y(15));
    assert!(matches!(s.get(b, FieldKind::Y), Some(FieldSelector::Y(55))));
}

#[test]
fn binding_cycle_is_cut_off() {
    let mut s = HandlersBean::new(800, 600);
    let a = s.add_element(boxed(0, 0, 10, 10), 0).unwrap();
    let b = s.add_element(boxed(0, 0, 10, 10), 0).unwrap();
    s.add_bind(a, b, Mapping::new(vec![MapRule::Forward(FieldKind::X)]));
    s.add_bind(b, a, Mapping::new(vec![MapRule::Forward(FieldKind::X)]));
    assert!(!s.set(a, FieldSelector::X(3)));
    assert!(matches!(s.get(b, FieldKind::X), Some(FieldSelector::X(3))));
}

#[test]
fn set_on_missing_element_is_ignored() {
    let mut s = HandlersBean::new(800, 600);
    assert!(s.set(9, FieldSelector::X(3)));
    assert!(s.get(9, FieldKind::X).is_none());
}

#[test]
fn removing_parent_removes_child_and_references() {
    let mut s = HandlersBean::new(800, 600);
    let p = s.add_element(boxed(0, 0, 100, 100), 0).unwrap();
    let c = s.add_element(boxed(0, 0, 10, 10), p).unwrap();
    let other = s.add_element(boxed(0, 0, 10, 10), 0).unwrap();
    s.add_bind(p, c, Mapping::new(vec![MapRule::Forward(FieldKind::X)]));
    s.add_bind(other, c, Mapping::new(vec![MapRule::Forward(FieldKind::X)]));
    s.add_bind(other, 0, Mapping::new(vec![MapRule::Forward(FieldKind::Y)]));
    s.register_handler(c, Msg::MouseDown(0, 0), HandlerCallback::RemoveElement(c));
    let anim = Animation::linear(c, FieldSelector::X(0), FieldSelector::X(10), 100);
    s.start_animation(Animator::Single(anim), None, 0);
    assert!(s.remove_element(p));
    assert!(s.elem_by_id(p).is_none());
    assert!(s.elem_by_id(c).is_none());
    assert!(s.bindings_of(p).is_none());
    assert_eq!(s.bindings_of(other).unwrap().len(), 1);
    assert_eq!(s.bindings_of(other).unwrap()[0].target, 0);
    assert!(s.get_handler(c, Msg::MouseDown(1, 2)).is_none());
    assert_eq!(s.animation_count(), 0);
    assert_eq!(s.elem_by_id(0).unwrap().children(), &[other]);
}

#[test]
fn removing_a_leaf_keeps_other_ids() {
    let mut s = HandlersBean::new(800, 600);
    for _ in 0..6 {
        s.add_element(boxed(0, 0, 10, 10), 0).unwrap();
    }
    s.add_bind(2, 3, Mapping::new(vec![MapRule::Forward(FieldKind::X)]));
    s.register_handler(4, Msg::MouseDown(0, 0), HandlerCallback::RemoveElement(4));
    assert!(s.remove_element(5));
    assert!(s.elem_by_id(5).is_none());
    for id in [0usize, 1, 2, 3, 4, 6] {
        assert_eq!(s.elem_by_id(id).unwrap().get_id(), id);
    }
    assert_eq!(s.bindings_of(2).unwrap()[0].target, 3);
    assert!(s.get_handler(4, Msg::MouseDown(0, 0)).is_some());
    let next = s.add_element(boxed(0, 0, 1, 1), 0).unwrap();
    assert_eq!(next, 7);
}

#[test]
fn removing_root_or_missing_does_nothing() {
    let mut s = HandlersBean::new(800, 600);
    s.add_element(boxed(0, 0, 10, 10), 0).unwrap();
    assert!(!s.remove_element(0));
    assert!(!s.remove_element(42));
    assert_eq!(s.element_count(), 2);
}

#[test]
fn handlers_are_keyed_by_message_kind() {
    let mut s = HandlersBean::new(800, 600);
    let a = s.add_element(boxed(0, 0, 10, 10), 0).unwrap();
    s.register_handler(a, Msg::MouseDown(1, 1), HandlerCallback::SetField(a, FieldSelector::X(1)));
    s.register_handler(a, Msg::MouseDown(9, 9), HandlerCallback::SetField(a, FieldSelector::X(2)));
    assert!(matches!(s.get_handler(a, Msg::MouseDown(5, 5)), Some(HandlerCallback::SetField(_, FieldSelector::X(2)))));
    assert!(s.get_handler(a, Msg::MouseUp(5, 5)).is_none());
    assert_eq!(Msg::MouseDown(3, 4).kind(), MsgKind::MouseDown);
    s.remove_handler(a, Msg::MouseDown(0, 0));
    assert!(s.get_handler(a, Msg::MouseDown(5, 5)).is_none());
}

#[test]
fn dispatch_applies_the_impact() {
    let mut s = HandlersBean::new(800, 600);
    let a = s.add_element(boxed(0, 0, 10, 10), 0).unwrap();
    s.register_handler(a, Msg::MouseDown(0, 0), HandlerCallback::SetField(a, FieldSelector::Y(77)));
    assert!(s.dispatch(a, &Msg::MouseDown(1, 1), 0));
    assert!(matches!(s.get(a, FieldKind::Y), Some(FieldSelector::Y(77))));
    assert!(!s.dispatch(a, &Msg::MouseUp(1, 1), 0));
}

#[test]
fn toggle_height_collapses_and_restores() {
    let mut s = HandlersBean::new(800, 600);
    let a = s.add_element(boxed(0, 0, 10, 40), 0).unwrap();
    s.register_handler(a, Msg::MouseDown(0, 0), HandlerCallback::ToggleHeight { target: a, saved: 0 });
    s.dispatch(a, &Msg::MouseDown(0, 0), 0);
    assert!(matches!(s.get(a, FieldKind::Height), Some(FieldSelector::Height(0))));
    s.dispatch(a, &Msg::MouseDown(0, 0), 0);
    assert!(matches!(s.get(a, FieldKind::Height), Some(FieldSelector::Height(40))));
}

#[test]
fn process_impact_variants() {
    let mut s = HandlersBean::new(800, 600);
    s.process_impact(HandlerImpact::AddElement(boxed(1, 2, 3, 4), 0), 0);
    assert!(s.elem_by_id(1).is_some());
    s.process_impact(HandlerImpact::SetField(1, FieldSelector::X(9)), 0);
    assert!(matches!(s.get(1, FieldKind::X), Some(FieldSelector::X(9))));
    s.process_impact(HandlerImpact::RegisterHandler(1, Msg::KeyDown(0), HandlerCallback::RemoveElement(1)), 0);
    assert!(s.get_handler(1, Msg::KeyDown(5)).is_some());
    s.process_impact(HandlerImpact::RemoveHandler(1, Msg::KeyDown(0)), 0);
    assert!(s.get_handler(1, Msg::KeyDown(5)).is_none());
    s.process_impact(HandlerImpact::AddBind(1, 0, Mapping::new(vec![MapRule::Forward(FieldKind::X)])), 0);
    assert!(s.bindings_of(1).is_some());
    s.process_impact(HandlerImpact::Nothing, 0);
    s.process_impact(HandlerImpact::RemoveElement(1), 0);
    assert!(s.elem_by_id(1).is_none());
    assert!(s.bindings_of(1).is_none());
}

#[test]
fn click_starts_linear_animation_end_to_end() {
    let mut s = HandlersBean::new(800, 600);
    let e = s.add_element(boxed(0, 0, 10, 10), 0).unwrap();
    let anim = Animation::linear(e, FieldSelector::X(0), FieldSelector::X(100), 1000);
    s.register_handler(e, Msg::MouseDown(0, 0), HandlerCallback::StartAnimation(anim));
    assert!(s.dispatch(e, &Msg::MouseDown(3, 3), 5000));
    assert_eq!(s.animation_count(), 1);
    s.tick_animations(5500);
    assert!(matches!(s.get(e, FieldKind::X), Some(FieldSelector::X(50))));
    s.remove_finished_animations(5500);
    assert_eq!(s.animation_count(), 1);
    s.tick_animations(6000);
    assert!(matches!(s.get(e, FieldKind::X), Some(FieldSelector::X(100))));
    s.remove_finished_animations(6000);
    assert_eq!(s.animation_count(), 0);
}

#[test]
fn finished_animation_fires_its_callback() {
    let mut s = HandlersBean::new(800, 600);
    let e = s.add_element(boxed(0, 0, 10, 10), 0).unwrap();
    let anim = Animation::pause(e, 100);
    s.start_animation(Animator::Single(anim), Some(HandlerCallback::RemoveElement(e)), 0);
    s.tick_animations(50);
    s.remove_finished_animations(50);
    assert!(s.elem_by_id(e).is_some());
    s.tick_animations(150);
    s.remove_finished_animations(150);
    assert!(s.elem_by_id(e).is_none());
    assert_eq!(s.animation_count(), 0);
}
