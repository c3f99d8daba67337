use ui_core::animation::{interpolate, lerp_i32, Animation, AnimationSequence, Animator, CompositeAnimation, Motion};
use ui_core::fields::{FieldSelector, Vec4};

fn x_of(out: &[(usize, FieldSelector)]) -> i32 {
    match out[0].1 {
        FieldSelector::X(v) => v,
        _ => panic!("not an X value"),
    }
}

#[test]
fn linear_starts_at_from_and_lands_on_to() {
    let mut a = Animation::linear(4, FieldSelector::X(10), FieldSelector::X(110), 1000);
    a.reset(2000);
    let out = a.animate(2000);
    assert_eq!(out.len(), 1);
    assert_eq!(out[0].0, 4);
    assert_eq!(x_of(&out), 10);
    assert!(!a.finished);
    assert_eq!(x_of(&a.animate(2250)), 35);
    assert_eq!(x_of(&a.animate(3000)), 110);
    assert!(a.finished);
    assert!(a.animate(3500).is_empty());
}

#[test]
fn linear_before_start_yields_from() {
    let mut a = Animation::linear(1, FieldSelector::Y(-5), FieldSelector::Y(5), 100);
    a.reset(1000);
    assert!(matches!(a.animate(900)[0].1, FieldSelector::Y(-5)));
    assert!(!a.finished);
}

#[test]
fn linear_never_overshoots() {
    let mut a = Animation::linear(1, FieldSelector::Width(100), FieldSelector::Width(0), 300);
    a.reset(0);
    let mut t = 0u64;
    while t <= 400 {
        let out = a.animate(t);
        if let Some((_, FieldSelector::Width(w))) = out.first() {
            assert!(*w >= 0 && *w <= 100);
        }
        t += 7;
    }
    assert!(a.finished);
}

#[test]
fn repeating_animation_restarts() {
    let mut a = Animation::linear(1, FieldSelector::X(0), FieldSelector::X(10), 100).repeated();
    a.reset(0);
    assert_eq!(x_of(&a.animate(100)), 10);
    assert_eq!(x_of(&a.animate(150)), 0);
    assert_eq!(a.started, 150);
    assert!(!a.finished);
}

#[test]
fn fade_in_out_peaks_half_way() {
    let mut a = Animation::fade_in_out(1, FieldSelector::X(0), FieldSelector::X(100), 1000);
    a.reset(0);
    assert_eq!(x_of(&a.animate(250)), 50);
    assert_eq!(x_of(&a.animate(500)), 100);
    assert_eq!(x_of(&a.animate(750)), 50);
    assert_eq!(x_of(&a.animate(1000)), 0);
}

#[test]
fn pause_yields_nothing() {
    let mut a = Animation::pause(1, 100);
    a.reset(0);
    assert!(a.animate(50).is_empty());
    assert!(a.animate(100).is_empty());
    assert!(a.finished);
}

#[test]
fn composite_is_finished_when_all_children_are() {
    let short = Animation::linear(1, FieldSelector::X(0), FieldSelector::X(10), 100);
    let long = Animation::linear(2, FieldSelector::Y(0), FieldSelector::Y(10), 200);
    let mut c = Animator::Composite(CompositeAnimation { animations: vec![Animator::Single(short), Animator::Single(long)] });
    c.reset(0);
    let out = c.animate(100);
    assert_eq!(out.len(), 2);
    assert_eq!(out[0].0, 1);
    assert_eq!(out[1].0, 2);
    assert!(!c.is_finished());
    c.animate(200);
    assert!(c.is_finished());
    assert_eq!(c.get_target(), 1);
}

#[test]
fn sequence_runs_children_in_turn() {
    let first = Animation::linear(1, FieldSelector::X(0), FieldSelector::X(10), 100);
    let second = Animation::linear(1, FieldSelector::X(10), FieldSelector::X(20), 100);
    let mut q = Animator::Sequence(AnimationSequence::new(vec![Animator::Single(first), Animator::Single(second)], false));
    q.reset(0);
    assert_eq!(x_of(&q.animate(100)), 10);
    assert!(!q.is_finished());
    assert_eq!(x_of(&q.animate(150)), 15);
    assert_eq!(x_of(&q.animate(200)), 20);
    assert!(q.is_finished());
}

#[test]
fn repeating_sequence_never_finishes() {
    let only = Animation::linear(1, FieldSelector::X(0), FieldSelector::X(10), 100);
    let mut q = Animator::Sequence(AnimationSequence::new(vec![Animator::Single(only)], true));
    q.reset(0);
    q.animate(100);
    assert!(!q.is_finished());
    assert_eq!(x_of(&q.animate(150)), 5);
}

#[test]
fn lerp_rounds_toward_the_start() {
    assert_eq!(lerp_i32(0, 10, 1, 3), 3);
    assert_eq!(lerp_i32(10, 0, 1, 3), 7);
    assert_eq!(lerp_i32(-7, 7, 1, 2), 0);
    assert_eq!(lerp_i32(i32::MIN, i32::MAX, 1, 1), i32::MAX);
}

#[test]
fn interpolate_colours_per_channel() {
    let from = FieldSelector::BGColor(Vec4::new(0, 1000, 500, 1000));
    let to = FieldSelector::BGColor(Vec4::new(1000, 0, 500, 0));
    match interpolate(from, to, 1, 4) {
        FieldSelector::BGColor(c) => assert_eq!(c.val, [250, 750, 500, 750]),
        _ => panic!("wrong kind"),
    }
}

#[test]
fn invalid_motion_is_detected() {
    let a = Animation { target_id: 1, duration: 10, motion: Motion::Linear(FieldSelector::X(0), FieldSelector::Y(1)), repeat: false, started: 0, finished: false };
    assert!(!a.is_valid());
    assert!(Animation::pause(1, 10).is_valid());
}
