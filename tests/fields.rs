use ui_core::fields::{scale_i32, FieldKind, FieldSelector, SizedStr, Sizing, Vec4};
use ui_core::element::{ElemBuilder, LineStyle, ShapeSegment};
use ui_core::drag::{add_clamped, Draggable};

#[test]
fn field_arithmetic() {
    assert!(matches!(FieldSelector::X(3).add(FieldSelector::X(4)), FieldSelector::X(7)));
    assert!(matches!(FieldSelector::Width(3).sub(FieldSelector::Width(4)), FieldSelector::Width(-1)));
    assert!(matches!(FieldSelector::GradientStart((10, 20)).mul(1, 2), FieldSelector::GradientStart((5, 10))));
    match FieldSelector::GradientColors0(Vec4::new(1, 2, 3, 4)).sub(FieldSelector::GradientColors0(Vec4::new(1, 1, 1, 1))) {
        FieldSelector::GradientColors0(c) => assert_eq!(c.as_slice(), &[0, 1, 2, 3]),
        _ => panic!("wrong kind"),
    }
    assert_eq!(scale_i32(-7, 1, 2), -3);
    assert_eq!(scale_i32(i32::MIN, 1, 1), i32::MIN);
}

#[test]
fn sizify_pads_and_truncates() {
    let s: SizedStr = SizedStr::sizify("72");
    assert_eq!(s[0], '7');
    assert_eq!(s[1], '2');
    assert_eq!(s[2], ' ');
    let long: String = std::iter::repeat('a').take(300).collect();
    let t: SizedStr = SizedStr::sizify(long.as_str());
    assert!(t.iter().all(|c| *c == 'a'));
}

#[test]
fn element_set_and_get() {
    let mut e = ElemBuilder::new(1, 2, 3, 4)
        .with_label("hi", "Roboto-Light", 16, Vec4::new(1000, 1000, 1000, 1000))
        .with_gradient(2, vec![0, 1000], vec![Vec4::new(0, 0, 0, 1000), Vec4::new(1000, 0, 0, 1000)], (0, 0), (1000, 0))
        .build();
    e.set(FieldSelector::GradientPos1(500));
    assert!(matches!(e.get(FieldKind::GradientPos1), Some(FieldSelector::GradientPos1(500))));
    e.set(FieldSelector::GradientPos3(500));
    assert!(e.get(FieldKind::GradientPos3).is_none());
    e.set(FieldSelector::LabelText(SizedStr::sizify("ok")));
    match e.get(FieldKind::LabelText) {
        Some(FieldSelector::LabelText(t)) => assert_eq!(&t[0..3], &['o', 'k', ' ']),
        _ => panic!("no label"),
    }
    assert_eq!(e.get_size(), (3, 4));
}

#[test]
fn element_without_label_ignores_label_text() {
    let mut e = ElemBuilder::new(0, 0, 1, 1).build();
    e.set(FieldSelector::LabelText(SizedStr::sizify("x")));
    assert!(e.get(FieldKind::LabelText).is_none());
}

#[test]
fn builder_options() {
    let style = LineStyle { color: Vec4::new(1, 2, 3, 4), width: 1000, dashed: true };
    let b = ElemBuilder::new(0, 0, 10, 10)
        .with_shape(&[ShapeSegment::new(0, 0), ShapeSegment::new(1000, 1000)])
        .with_line_style(&style)
        .blur_on()
        .direct_drag()
        .with_background(&[1, 2, 3, 4])
        .svg("star");
    let e = b.build();
    assert_eq!(e.shape.len(), 2);
    assert!(e.blur);
    assert!(e.direct_drag);
    assert_eq!(e.bgcolor.val, [1, 2, 3, 4]);
    assert_eq!(e.get_svg().as_deref(), Some("star"));
    let r = ElemBuilder::new(0, 0, 1, 1).filled_rect(&[5, 5, 5, 5]).build();
    assert_eq!(r.shape.len(), 5);
    assert_eq!(r.shape[2].x, 1000);
}

#[test]
fn drag_offset_then_drop_commits() {
    let mut e = ElemBuilder::new(10, 20, 5, 5).draggable().direct_drag().build();
    assert!(e.is_draggable());
    e.process_drag(3, -4);
    assert_eq!(e.get_position(), (13, 16));
    assert_eq!((e.x, e.y), (10, 20));
    e.process_drop();
    assert_eq!((e.x, e.y), (13, 16));
    e.process_drag(1, 1);
    e.process_cancel();
    assert_eq!(e.get_position(), (13, 16));
}

#[test]
fn drag_on_plain_element_does_nothing() {
    let mut e = ElemBuilder::new(10, 20, 5, 5).build();
    assert!(!e.is_draggable());
    e.process_drag(3, 4);
    e.process_drop();
    assert_eq!((e.x, e.y), (10, 20));
    assert_eq!(add_clamped(i32::MAX, 1), i32::MAX);
}
