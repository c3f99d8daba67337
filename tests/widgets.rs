use ui_core::components::{decimal_label, Component, HRMDisplay, SlideBox, UserEvent, Widget};
use ui_core::fields::{FieldKind, FieldSelector};
use ui_core::heart_rate::{next_heart_rate, simulate_heart_rate};
use ui_core::messaging::{HandlersBean, Msg};
use ui_core::picking::{canvas_pixel, flip_y, pick_color, pick_id, PickBuffer};
use ui_core::texture_unit::TextureUnit;
use ui_core::ui::{Cursor, UiAction, UiCore, KEY_C, KEY_SPACE};

#[test]
fn picking_finds_the_element_under_the_pointer() {
    let mut b = PickBuffer::new(100, 100);
    b.fill_rect(3, 10, 10, 20, 20);
    b.fill_rect(7, 50, 50, 30, 10);
    assert_eq!(b.sample(60, 55), Some(7));
    assert_eq!(b.sample(15, 29), Some(3));
    assert_eq!(b.sample(90, 90), None);
    assert_eq!(b.sample(-1, 5), None);
    assert_eq!(b.sample(100, 5), None);
}

#[test]
fn picking_rect_is_clipped() {
    let mut b = PickBuffer::new(10, 10);
    b.fill_rect(5, -5, -5, 8, 8);
    assert_eq!(b.sample(0, 0), Some(5));
    assert_eq!(b.sample(2, 2), Some(5));
    assert_eq!(b.sample(3, 3), None);
}

#[test]
fn pick_colour_encoding() {
    assert_eq!(pick_color(0x010203), [1, 2, 3, 255]);
    assert_eq!(pick_id([1, 2, 3, 255]), Some(0x010203));
    assert_eq!(pick_id([0, 0, 0, 255]), None);
    assert_eq!(pick_id(pick_color(7)), Some(7));
}

#[test]
fn pointer_coordinates() {
    assert_eq!(canvas_pixel(100, 1600, 800), 200);
    assert_eq!(canvas_pixel(-3, 1, 2), -1);
    assert_eq!(flip_y(600, 100), 500);
}

#[test]
fn decimal_label_text() {
    let t = decimal_label(72);
    assert_eq!(&t[0..3], &['7', '2', ' ']);
    let n = decimal_label(-105);
    assert_eq!(&n[0..5], &['-', '1', '0', '5', ' ']);
    assert_eq!(decimal_label(0)[0], '0');
}

#[test]
fn heart_rate_display_shows_new_rate() {
    let mut s = HandlersBean::new(800, 600);
    let root = s.add_component(Widget::Hrm(HRMDisplay::new()), 0).unwrap();
    assert_eq!(root, 1);
    s.set(root, FieldSelector::Height(100));
    assert!(matches!(s.get(2, FieldKind::Width), Some(FieldSelector::Width(110))));
    s.set(root, FieldSelector::X(20));
    assert!(matches!(s.get(3, FieldKind::X), Some(FieldSelector::X(170))));
    s.push_event(UserEvent::HrChanged(93));
    s.process_events();
    match s.get(3, FieldKind::LabelText) {
        Some(FieldSelector::LabelText(t)) => assert_eq!(&t[0..3], &['9', '3', ' ']),
        _ => panic!("no label"),
    }
}

#[test]
fn slide_box_edge_follows_and_drag_resizes() {
    let mut s = HandlersBean::new(800, 600);
    let mut sb = SlideBox::new();
    let root = sb.initialize(0, &mut s).unwrap();
    assert_eq!((sb.root, sb.edge, sb.handle), (1, 2, 3));
    s.set(root, FieldSelector::Y(15));
    assert!(matches!(s.get(sb.edge, FieldKind::Y), Some(FieldSelector::Y(115))));
    assert!(matches!(s.get(sb.handle, FieldKind::Y), Some(FieldSelector::Y(121))));
    s.set(root, FieldSelector::Width(300));
    assert!(matches!(s.get(sb.handle, FieldKind::X), Some(FieldSelector::X(120))));
    sb.handle(&UserEvent::ProcessDrag((sb.edge, 0, 40)), &mut s);
    assert!(matches!(s.get(root, FieldKind::Height), Some(FieldSelector::Height(140))));
    sb.handle(&UserEvent::ProcessDrag((sb.edge, 0, 50)), &mut s);
    assert!(matches!(s.get(root, FieldKind::Height), Some(FieldSelector::Height(150))));
    sb.handle(&UserEvent::ProcessDrop((sb.edge, 0, 50)), &mut s);
    assert!(sb.drag_base.is_none());
    assert!(s.dispatch(sb.handle, &Msg::MouseDown(0, 0), 0));
    assert!(matches!(s.get(root, FieldKind::Height), Some(FieldSelector::Height(0))));
}

#[test]
fn ui_keys_and_resize() {
    let mut u = UiCore::new(800, 600);
    assert_eq!(u.msg(&Msg::KeyDown(KEY_SPACE), 600, None, 0).action, UiAction::ToggleFullscreen);
    assert_eq!(u.msg(&Msg::KeyDown(KEY_C), 600, None, 0).action, UiAction::ConnectHeartRateMonitor);
    assert_eq!(u.msg(&Msg::KeyDown(1), 600, None, 0).action, UiAction::Nothing);
    let r = u.msg(&Msg::ResizeViewport(1024, 768), 600, None, 0);
    assert_eq!(r.action, UiAction::ResizeCanvas(1024, 768));
    assert!(matches!(u.handling.get(0, FieldKind::Width), Some(FieldSelector::Width(1024))));
}

#[test]
fn ui_drag_lifecycle() {
    let mut u = UiCore::new(800, 600);
    let e = u.handling.add_element(ui_core::element::ElemBuilder::new(10, 10, 50, 50).draggable().build(), 0).unwrap();
    let down = u.msg(&Msg::MouseDown(100, 500), 600, Some(e), 0);
    assert!(down.consumed);
    assert_eq!(down.cursor, Some(Cursor::Move));
    assert_eq!(u.drag_elem, Some(e));
    assert_eq!(u.start_drag_y, 100);
    assert!(u.msg(&Msg::MouseMove(110, 480), 600, None, 0).consumed);
    let d = u.handling.elem_by_id(e).unwrap().draggable.unwrap();
    assert_eq!((d.drag_x, d.drag_y), (10, 20));
    let up = u.msg(&Msg::MouseUp(110, 480), 600, None, 0);
    assert!(up.consumed);
    assert_eq!(up.cursor, Some(Cursor::Default));
    assert!(u.drag_elem.is_none());
    assert!(matches!(u.handling.get(e, FieldKind::X), Some(FieldSelector::X(20))));
    assert!(matches!(u.handling.get(e, FieldKind::Y), Some(FieldSelector::Y(30))));
    assert_eq!(u.handling.queued_events().len(), 2);
    assert!(!u.msg(&Msg::MouseMove(1, 1), 600, None, 0).consumed);
    assert!(!u.msg(&Msg::MouseDown(1, 1), 600, None, 0).consumed);
}

#[test]
fn heart_rate_walk() {
    assert_eq!(next_heart_rate(120, 5), 125);
    assert_eq!(next_heart_rate(82, -5), 79);
    assert_eq!(next_heart_rate(158, 5), 161);
    assert_eq!(next_heart_rate(75, 0), 77);
    for _ in 0..50 {
        let r = simulate_heart_rate(120);
        assert!(r >= 110 && r <= 129);
    }
}

#[test]
fn texture_units() {
    assert_eq!(TextureUnit::Velodrome.texture_unit(), 1);
    assert_eq!(TextureUnit::Stad.texture_unit(), 2);
    assert_eq!(TextureUnit::VelodromeFlat.texture_unit(), 3);
    assert_eq!(TextureUnit::NormalMap.texture_unit(), 4);
    assert_eq!(TextureUnit::NormalMap.name(), "NormalMap");
}

#[test]
fn opening_scene_builds_and_retires_logo() {
    let mut s = HandlersBean::new(800, 600);
    let ids = ui_core::scene::setup(&mut s, 800, 600, 0);
    assert_eq!(ids.logo, Some(1));
    assert_eq!(ids.slider, Some(2));
    assert_eq!(ids.fps_label, Some(5));
    assert!(matches!(s.get(2, FieldKind::Width), Some(FieldSelector::Width(770))));
    assert!(matches!(s.get(5, FieldKind::X), Some(FieldSelector::X(700))));
    s.set(0, FieldSelector::Width(1000));
    assert!(matches!(s.get(5, FieldKind::X), Some(FieldSelector::X(900))));
    assert!(matches!(s.get(2, FieldKind::Width), Some(FieldSelector::Width(970))));
    assert_eq!(s.animation_count(), 1);
    let mut t = 0u64;
    while t <= 6000 {
        s.tick_animations(t);
        s.remove_finished_animations(t);
        t += 100;
    }
    assert_eq!(s.animation_count(), 0);
    assert!(s.elem_by_id(1).is_none());
}

#[test]
fn simulated_heart_rate_varies() {
    let mut seen = std::collections::HashSet::new();
    for _ in 0..100 {
        seen.insert(simulate_heart_rate(120));
    }
    assert!(seen.len() > 1);
}
