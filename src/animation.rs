//! Animators: stateful, time-driven generators of field mutations.
//!
//! Time is a millisecond count handed in by the caller. A leaf animation
//! interpolates between two values of one field kind; composites run their
//! children in parallel, sequences run them one after the other.
use vstd::prelude::*;
use crate::fields::{FieldKind, FieldSelector, lemma_fraction_bounded, lemma_same_parts, scaled};

verus! {

broadcast use vstd::std_specs::vec::axiom_vec_index_decreases;

/// The value `num / den` of the way from `a` to `b`, rounded toward `a`.
pub open spec fn lerp(a: int, b: int, num: int, den: int) -> int {
    a + scaled(b - a, num, den)
}

pub open spec fn lerp_parts(a: Seq<int>, b: Seq<int>, num: int, den: int) -> Seq<int> {
    Seq::new(a.len(), |i: int| lerp(a[i], b[i], num, den))
}

/// `v` lies between `a` and `b`, both included.
pub open spec fn between(v: int, a: int, b: int) -> bool {
    (a <= v <= b) || (b <= v <= a)
}

/// The fraction of the way from `a` to `b` when rising and falling back
/// symmetrically, peaking half way: `1 - |2p - 1|` at progress `p = num / den`.
pub open spec fn pulse_num(num: int, den: int) -> int {
    if 2 * num >= den {
        2 * den - 2 * num
    } else {
        2 * num
    }
}

proof fn lemma_lerp_between(a: int, b: int, num: int, den: int)
    requires
        0 <= num <= den,
        0 < den,
    ensures
        between(lerp(a, b, num, den), a, b),
        num == 0 ==> lerp(a, b, num, den) == a,
        num == den ==> lerp(a, b, num, den) == b,
{
    let d = b - a;
    if d >= 0 {
        lemma_fraction_bounded(d, num, den);
        assert(d * num >= 0) by (nonlinear_arith) requires d >= 0, num >= 0;
    } else {
        lemma_fraction_bounded(-d, num, den);
        assert(d * num == -((-d) * num)) by (nonlinear_arith);
        assert((-d) * num >= 0) by (nonlinear_arith) requires -d >= 0, num >= 0;
    }
    if num == 0 {
        assert(d * num == 0) by (nonlinear_arith) requires num == 0;
    }
    if num == den {
        if d >= 0 {
            vstd::arithmetic::div_mod::lemma_div_by_multiple(d, den);
        } else {
            vstd::arithmetic::div_mod::lemma_div_by_multiple(-d, den);
            assert(d * num == -((-d) * den)) by (nonlinear_arith) requires num == den;
        }
    }
}

/// `num / den` of the way from `a` to `b`, rounded toward `a`.
pub fn lerp_i32(a: i32, b: i32, num: u64, den: u64) -> (r: i32)
    requires
        0 < den,
        num <= den,
    ensures
        r as int == lerp(a as int, b as int, num as int, den as int),
{
    proof {
        lemma_lerp_between(a as int, b as int, num as int, den as int);
    }
    let d: i128 = b as i128 - a as i128;
    let neg = d < 0;
    let mag: u128 = if neg { (-d) as u128 } else { d as u128 };
    proof {
        assert(mag as int * num as int <= 0x1_0000_0000 * 0xffff_ffff_ffff_ffff) by (nonlinear_arith)
            requires mag <= 0x1_0000_0000, num <= 0xffff_ffff_ffff_ffff;
        lemma_fraction_bounded(mag as int, num as int, den as int);
        if neg {
            assert((d as int) * (num as int) == -((mag as int) * (num as int))) by (nonlinear_arith)
                requires d as int == -(mag as int);
            assert(0 <= (mag as int) * (num as int)) by (nonlinear_arith);
        } else {
            assert(0 <= (d as int) * (num as int)) by (nonlinear_arith) requires 0 <= d, 0 <= num;
        }
    }
    let q: u128 = (mag * num as u128) / den as u128;
    let step: i128 = if neg { -(q as i128) } else { q as i128 };
    (a as i128 + step) as i32
}

/// Two values of one numeric kind, the one `num / den` of the way to the
/// other, part by part.
pub fn interpolate(from: FieldSelector, to: FieldSelector, num: u64, den: u64) -> (r: FieldSelector)
    requires
        from.compatible(to),
        0 < den,
        num <= den,
    ensures
        r.kind() == from.kind(),
        r.parts() == lerp_parts(from.parts(), to.parts(), num as int, den as int),
{
    let r = match (from, to) {
        (FieldSelector::X(a), FieldSelector::X(b)) => FieldSelector::X(lerp_i32(a, b, num, den)),
        (FieldSelector::Y(a), FieldSelector::Y(b)) => FieldSelector::Y(lerp_i32(a, b, num, den)),
        (FieldSelector::Width(a), FieldSelector::Width(b)) => FieldSelector::Width(lerp_i32(a, b, num, den)),
        (FieldSelector::Height(a), FieldSelector::Height(b)) => FieldSelector::Height(lerp_i32(a, b, num, den)),
        (FieldSelector::BGColor(a), FieldSelector::BGColor(b)) => FieldSelector::BGColor(lerp_vec4(a, b, num, den)),
        (FieldSelector::GradientPos0(a), FieldSelector::GradientPos0(b)) => FieldSelector::GradientPos0(lerp_i32(a, b, num, den)),
        (FieldSelector::GradientColors0(a), FieldSelector::GradientColors0(b)) => FieldSelector::GradientColors0(lerp_vec4(a, b, num, den)),
        (FieldSelector::GradientPos1(a), FieldSelector::GradientPos1(b)) => FieldSelector::GradientPos1(lerp_i32(a, b, num, den)),
        (FieldSelector::GradientColors1(a), FieldSelector::GradientColors1(b)) => FieldSelector::GradientColors1(lerp_vec4(a, b, num, den)),
        (FieldSelector::GradientPos2(a), FieldSelector::GradientPos2(b)) => FieldSelector::GradientPos2(lerp_i32(a, b, num, den)),
        (FieldSelector::GradientColors2(a), FieldSelector::GradientColors2(b)) => FieldSelector::GradientColors2(lerp_vec4(a, b, num, den)),
        (FieldSelector::GradientPos3(a), FieldSelector::GradientPos3(b)) => FieldSelector::GradientPos3(lerp_i32(a, b, num, den)),
        (FieldSelector::GradientColors3(a), FieldSelector::GradientColors3(b)) => FieldSelector::GradientColors3(lerp_vec4(a, b, num, den)),
        (FieldSelector::GradientStart(a), FieldSelector::GradientStart(b)) => FieldSelector::GradientStart((lerp_i32(a.0, b.0, num, den), lerp_i32(a.1, b.1, num, den))),
        (FieldSelector::GradientEnd(a), FieldSelector::GradientEnd(b)) => FieldSelector::GradientEnd((lerp_i32(a.0, b.0, num, den), lerp_i32(a.1, b.1, num, den))),
        (FieldSelector::LabelColor(a), FieldSelector::LabelColor(b)) => FieldSelector::LabelColor(lerp_vec4(a, b, num, den)),
        _ => vstd::pervasive::unreached(),
    };
    assert(r.parts() =~= lerp_parts(from.parts(), to.parts(), num as int, den as int));
    r
}

fn lerp_vec4(a: crate::fields::Vec4, b: crate::fields::Vec4, num: u64, den: u64) -> (r: crate::fields::Vec4)
    requires
        0 < den,
        num <= den,
    ensures
        r.channels() == lerp_parts(a.channels(), b.channels(), num as int, den as int),
{
    let r = crate::fields::Vec4 {
        val: [
            lerp_i32(a.val[0], b.val[0], num, den),
            lerp_i32(a.val[1], b.val[1], num, den),
            lerp_i32(a.val[2], b.val[2], num, den),
            lerp_i32(a.val[3], b.val[3], num, den),
        ],
    };
    assert(r.channels() =~= lerp_parts(a.channels(), b.channels(), num as int, den as int));
    r
}

/// How a leaf animation moves its field.
#[derive(Clone, Copy, Debug)]
pub enum Motion {
    /// No value changes: the animation only takes up time.
    Pause,
    /// From the first value to the second at constant speed.
    Linear(FieldSelector, FieldSelector),
    /// From the first value to the second and back, peaking half way.
    FadeInOut(FieldSelector, FieldSelector),
}

impl Motion {
    pub open spec fn wf(self) -> bool {
        match self {
            Motion::Pause => true,
            Motion::Linear(f, t) => f.compatible(t),
            Motion::FadeInOut(f, t) => f.compatible(t),
        }
    }

    /// `out` is what the motion yields for element `target` at progress
    /// `num / den`.
    pub open spec fn yields(self, target: usize, num: int, den: int, out: Seq<(usize, FieldSelector)>) -> bool {
        match self {
            Motion::Pause => out.len() == 0,
            Motion::Linear(f, t) => out.len() == 1 && out[0].0 == target && out[0].1.kind() == f.kind()
                && out[0].1.parts() == lerp_parts(f.parts(), t.parts(), num, den),
            Motion::FadeInOut(f, t) => out.len() == 1 && out[0].0 == target && out[0].1.kind() == f.kind()
                && out[0].1.parts() == lerp_parts(f.parts(), t.parts(), pulse_num(num, den), den),
        }
    }

    fn values_at(&self, target: usize, num: u64, den: u64) -> (r: Vec<(usize, FieldSelector)>)
        requires
            self.wf(),
            0 < den <= 0x7fff_ffff_ffff_ffff,
            num <= den,
        ensures
            self.yields(target, num as int, den as int, r@),
    {
        match self {
            Motion::Pause => Vec::new(),
            Motion::Linear(f, t) => vec![(target, interpolate(*f, *t, num, den))],
            Motion::FadeInOut(f, t) => {
                let m: u64 = if 2 * num >= den { 2 * den - 2 * num } else { 2 * num };
                vec![(target, interpolate(*f, *t, m, den))]
            },
        }
    }
}

/// One field of one element driven over `duration` milliseconds.
#[derive(Clone, Copy, Debug)]
pub struct Animation {
    pub target_id: usize,
    pub duration: u64,
    pub motion: Motion,
    pub repeat: bool,
    pub started: u64,
    pub finished: bool,
}

/// Durations are capped so that twice a duration fits in 64 bits.
pub const MAX_DURATION: u64 = 0x3fff_ffff_ffff_ffff;

impl Animation {
    pub open spec fn wf(self) -> bool {
        &&& self.motion.wf()
        &&& self.duration <= MAX_DURATION
    }

    /// One tick at time `now` takes `self` to `next`, yielding `out`.
    pub open spec fn stepped(self, next: Animation, now: u64, out: Seq<(usize, FieldSelector)>) -> bool {
        if self.finished {
            next == self && out.len() == 0
        } else if now <= self.started {
            next == self && self.motion.yields(self.target_id, 0, 1, out)
        } else if now - self.started < self.duration {
            next == self && self.motion.yields(self.target_id, now - self.started, self.duration as int, out)
        } else if !self.repeat {
            next == (Animation { finished: true, ..self }) && self.motion.yields(self.target_id, 1, 1, out)
        } else if now - self.started > self.duration {
            next == (Animation { started: now, ..self }) && self.motion.yields(self.target_id, 0, 1, out)
        } else {
            next == self && self.motion.yields(self.target_id, 1, 1, out)
        }
    }

    /// Whether the animation is well formed: its two values can be
    /// interpolated and its duration is within bounds.
    pub fn is_valid(&self) -> (r: bool)
        ensures
            r == self.wf(),
    {
        let ok = match &self.motion {
            Motion::Pause => true,
            Motion::Linear(f, t) => {
                let k = f.get_kind();
                k == t.get_kind() && k != FieldKind::LabelText
            },
            Motion::FadeInOut(f, t) => {
                let k = f.get_kind();
                k == t.get_kind() && k != FieldKind::LabelText
            },
        };
        ok && self.duration <= MAX_DURATION
    }

    /// Holds still for `duration` milliseconds.
    pub fn pause(target_id: usize, duration: u64) -> (a: Animation)
        requires
            duration <= MAX_DURATION,
        ensures
            a == (Animation { target_id, duration, motion: Motion::Pause, repeat: false, started: 0, finished: false }),
            a.wf(),
    {
        Animation { target_id, duration, motion: Motion::Pause, repeat: false, started: 0, finished: false }
    }

    /// Moves from `from` to `to` at constant speed over `duration` ms.
    pub fn linear(target_id: usize, from: FieldSelector, to: FieldSelector, duration: u64) -> (a: Animation)
        requires
            from.compatible(to),
            duration <= MAX_DURATION,
        ensures
            a == (Animation { target_id, duration, motion: Motion::Linear(from, to), repeat: false, started: 0, finished: false }),
            a.wf(),
    {
        Animation { target_id, duration, motion: Motion::Linear(from, to), repeat: false, started: 0, finished: false }
    }

    /// Moves from `from` to `to` and back within `duration` ms.
    pub fn fade_in_out(target_id: usize, from: FieldSelector, to: FieldSelector, duration: u64) -> (a: Animation)
        requires
            from.compatible(to),
            duration <= MAX_DURATION,
        ensures
            a == (Animation { target_id, duration, motion: Motion::FadeInOut(from, to), repeat: false, started: 0, finished: false }),
            a.wf(),
    {
        Animation { target_id, duration, motion: Motion::FadeInOut(from, to), repeat: false, started: 0, finished: false }
    }

    /// The same animation, starting over each time it completes.
    pub fn repeated(self) -> (a: Animation)
        ensures
            a == (Animation { repeat: true, ..self }),
    {
        Animation { repeat: true, ..self }
    }

    /// Advances to time `now` and yields the field values for this tick.
    pub fn animate(&mut self, now: u64) -> (r: Vec<(usize, FieldSelector)>)
        requires
            old(self).wf(),
        ensures
            old(self).stepped(*final(self), now, r@),
            final(self).wf(),
    {
        if self.finished {
            Vec::new()
        } else if now <= self.started {
            self.motion.values_at(self.target_id, 0, 1)
        } else if now - self.started < self.duration {
            self.motion.values_at(self.target_id, now - self.started, self.duration)
        } else if !self.repeat {
            self.finished = true;
            self.motion.values_at(self.target_id, 1, 1)
        } else if now - self.started > self.duration {
            self.started = now;
            self.motion.values_at(self.target_id, 0, 1)
        } else {
            self.motion.values_at(self.target_id, 1, 1)
        }
    }

    /// Starts the clock again at `now`.
    pub fn reset(&mut self, now: u64)
        ensures
            *final(self) == (Animation { started: now, finished: false, ..*old(self) }),
    {
        self.started = now;
        self.finished = false;
    }
}

/// A linear animation yields exactly its start value before or at its start,
/// exactly its end value once its duration has elapsed (and then it is
/// finished, unless it repeats), and never a part beyond the two values.
pub proof fn lemma_linear_endpoints(a: Animation, next: Animation, now: u64, out: Seq<(usize, FieldSelector)>)
    requires
        a.wf(),
        a.motion is Linear,
        !a.finished,
        a.stepped(next, now, out),
    ensures
        now <= a.started ==> out == seq![(a.target_id, a.motion->Linear_0)],
        now > a.started && now - a.started >= a.duration && !a.repeat
            ==> out == seq![(a.target_id, a.motion->Linear_1)] && next.finished,
        out.len() == 1,
        forall|i: int| 0 <= i < out[0].1.parts().len() ==> between(
            #[trigger] out[0].1.parts()[i],
            a.motion->Linear_0.parts()[i],
            a.motion->Linear_1.parts()[i],
        ),
{
    let f = a.motion->Linear_0;
    let t = a.motion->Linear_1;
    let (num, den): (int, int) = if a.finished || now <= a.started {
        (0, 1)
    } else if now - a.started < a.duration {
        ((now - a.started) as int, a.duration as int)
    } else if !a.repeat {
        (1, 1)
    } else if now - a.started > a.duration {
        (0, 1)
    } else {
        (1, 1)
    };
    assert(a.motion.yields(a.target_id, num, den, out));
    assert forall|i: int| 0 <= i < f.parts().len() implies between(
        #[trigger] lerp_parts(f.parts(), t.parts(), num, den)[i], f.parts()[i], t.parts()[i])
        && (num == 0 ==> lerp_parts(f.parts(), t.parts(), num, den)[i] == f.parts()[i])
        && (num == den ==> lerp_parts(f.parts(), t.parts(), num, den)[i] == t.parts()[i]) by {
        lemma_lerp_between(f.parts()[i], t.parts()[i], num, den);
    }
    if num == 0 {
        assert(out[0].1.parts() =~= f.parts());
        lemma_same_parts(out[0].1, f);
        assert(out =~= seq![(a.target_id, f)]);
    }
    if num == den {
        assert(out[0].1.parts() =~= t.parts());
        lemma_same_parts(out[0].1, t);
        assert(out =~= seq![(a.target_id, t)]);
    }
}

/// Children that run in parallel, each against its own target.
#[derive(Debug)]
pub struct CompositeAnimation {
    pub animations: Vec<Animator>,
}

/// Children that run one after the other; with `repeat` the sequence wraps
/// around after its last child.
#[derive(Debug)]
pub struct AnimationSequence {
    pub animations: Vec<Animator>,
    pub repeat: bool,
    pub current_animation: usize,
}

impl AnimationSequence {
    /// A sequence positioned on its first child.
    pub fn new(animations: Vec<Animator>, repeat: bool) -> (s: AnimationSequence)
        requires
            animations@.len() > 0,
        ensures
            s.animations == animations,
            s.repeat == repeat,
            s.current_animation == 0,
    {
        AnimationSequence { animations, repeat, current_animation: 0 }
    }
}

/// A time-driven generator of field mutations.
#[derive(Debug)]
pub enum Animator {
    Single(Animation),
    Composite(CompositeAnimation),
    Sequence(AnimationSequence),
}

/// `rest` equals `s` but at index `i`.
pub open spec fn same_but(s: Seq<Animator>, rest: Seq<Animator>, i: int) -> bool {
    &&& rest.len() == s.len()
    &&& forall|j: int| 0 <= j < s.len() && j != i ==> #[trigger] rest[j] == s[j]
}

impl Animator {
    /// Composites and sequences have children; a sequence's position is one
    /// of them; every leaf is well formed.
    pub open spec fn wf(self) -> bool
        decreases self,
    {
        match self {
            Animator::Single(a) => a.wf(),
            Animator::Composite(c) => c.animations@.len() > 0
                && forall|i: int| 0 <= i < c.animations@.len() ==> (#[trigger] c.animations@[i]).wf(),
            Animator::Sequence(q) => q.animations@.len() > 0
                && q.current_animation < q.animations@.len()
                && forall|i: int| 0 <= i < q.animations@.len() ==> (#[trigger] q.animations@[i]).wf(),
        }
    }

    /// A composite is finished when all of its children are; a sequence when
    /// it does not repeat and its last child, the current one, is finished.
    pub open spec fn finished(self) -> bool
        decreases self,
    {
        match self {
            Animator::Single(a) => a.finished,
            Animator::Composite(c) => forall|i: int| 0 <= i < c.animations@.len() ==> (#[trigger] c.animations@[i]).finished(),
            Animator::Sequence(q) => !q.repeat && q.current_animation == q.animations@.len() - 1
                && q.current_animation < q.animations@.len()
                && q.animations@[q.current_animation as int].finished(),
        }
    }

    /// Some leaf of the animator drives element `id`.
    pub open spec fn targets(self, id: usize) -> bool
        decreases self,
    {
        match self {
            Animator::Single(a) => a.target_id == id,
            Animator::Composite(c) => exists|i: int| 0 <= i < c.animations@.len() && (#[trigger] c.animations@[i]).targets(id),
            Animator::Sequence(q) => exists|i: int| 0 <= i < q.animations@.len() && (#[trigger] q.animations@[i]).targets(id),
        }
    }

    /// The target of the first leaf.
    pub open spec fn first_target(self) -> usize
        decreases self,
    {
        match self {
            Animator::Single(a) => a.target_id,
            Animator::Composite(c) => if c.animations@.len() > 0 { c.animations@[0].first_target() } else { 0 },
            Animator::Sequence(q) => if q.animations@.len() > 0 { q.animations@[0].first_target() } else { 0 },
        }
    }

    /// `next` is `self` with every clock that a reset restarts set to `now`:
    /// every leaf of a composite, the first child of a sequence, which
    /// becomes current.
    pub open spec fn restarted(self, next: Animator, now: u64) -> bool
        decreases self,
    {
        match (self, next) {
            (Animator::Single(a), Animator::Single(b)) => b == (Animation { started: now, finished: false, ..a }),
            (Animator::Composite(c), Animator::Composite(d)) => d.animations@.len() == c.animations@.len()
                && forall|i: int| 0 <= i < c.animations@.len() ==> (#[trigger] c.animations@[i]).restarted(d.animations@[i], now),
            (Animator::Sequence(q), Animator::Sequence(r)) => r.repeat == q.repeat && r.current_animation == 0
                && q.animations@.len() > 0
                && same_but(q.animations@, r.animations@, 0)
                && q.animations@[0].restarted(r.animations@[0], now),
            _ => false,
        }
    }


    /// One tick at time `now` takes `self` to `next`, yielding `out`: a leaf
    /// advances its clock; a composite ticks every child and yields their
    /// values in order; a sequence ticks its current child and, when that
    /// child has finished, moves on to the next one and restarts it, or
    /// wraps around to the first one when it repeats.
    pub open spec fn stepped(self, next: Animator, now: u64, out: Seq<(usize, FieldSelector)>) -> bool
        decreases self,
    {
        match (self, next) {
            (Animator::Single(a), Animator::Single(b)) => a.stepped(b, now, out),
            (Animator::Composite(c), Animator::Composite(d)) => {
                &&& d.animations@.len() == c.animations@.len()
                &&& exists|outs: Seq<Seq<(usize, FieldSelector)>>| {
                    &&& outs.len() == c.animations@.len()
                    &&& out == outs.flatten_alt()
                    &&& forall|i: int| 0 <= i < outs.len()
                        ==> (#[trigger] c.animations@[i]).stepped(d.animations@[i], now, outs[i])
                }
            },
            (Animator::Sequence(q), Animator::Sequence(r)) => {
                let i = q.current_animation as int;
                let n = q.animations@.len();
                &&& 0 <= i < n
                &&& r.repeat == q.repeat
                &&& exists|mid: Animator| {
                    &&& q.animations@[i].stepped(mid, now, out)
                    &&& if mid.finished() && i + 1 < n {
                        &&& r.current_animation == i + 1
                        &&& same_but(q.animations@.update(i, mid), r.animations@, i + 1)
                        &&& q.animations@[i + 1].restarted(r.animations@[i + 1], now)
                    } else if mid.finished() && q.repeat {
                        &&& r.current_animation == 0
                        &&& same_but(q.animations@.update(i, mid), r.animations@, 0)
                        &&& q.animations@.update(i, mid)[0].restarted(r.animations@[0], now)
                    } else {
                        &&& r.current_animation == i
                        &&& r.animations@ == q.animations@.update(i, mid)
                    }
                }
            },
            _ => false,
        }
    }

    /// Some leaf drives an element marked in `gone`.
    pub open spec fn hits(self, gone: Seq<bool>) -> bool {
        exists|id: usize| #[trigger] self.targets(id) && id < gone.len() && gone[id as int]
    }

    /// Whether some leaf drives an element marked in `gone`.
    pub fn touches(&self, gone: &Vec<bool>) -> (r: bool)
        requires
            self.wf(),
        ensures
            r == self.hits(gone@),
        decreases self,
    {
        match self {
            Animator::Single(a) => {
                let r = a.target_id < gone.len() && gone[a.target_id];
                proof {
                    if r {
                        assert(self.targets(a.target_id));
                    }
                }
                r
            },
            Animator::Composite(c) => {
                let mut i: usize = 0;
                while i < c.animations.len()
                    invariant
                        self.wf(),
                        *self == Animator::Composite(*c),
                        i <= c.animations@.len(),
                        forall|j: int| 0 <= j < i ==> !(#[trigger] c.animations@[j]).hits(gone@),
                    decreases c.animations@.len() - i,
                {
                    if c.animations[i].touches(gone) {
                        proof {
                            let id = choose|id: usize| #[trigger] c.animations@[i as int].targets(id) && id < gone@.len() && gone@[id as int];
                            assert(self.targets(id));
                        }
                        return true;
                    }
                    i = i + 1;
                }
                proof {
                    if self.hits(gone@) {
                        let id = choose|id: usize| #[trigger] self.targets(id) && id < gone@.len() && gone@[id as int];
                        let j = choose|j: int| 0 <= j < c.animations@.len() && (#[trigger] c.animations@[j]).targets(id);
                        assert(c.animations@[j].hits(gone@));
                    }
                }
                false
            },
            Animator::Sequence(q) => {
                let mut i: usize = 0;
                while i < q.animations.len()
                    invariant
                        self.wf(),
                        *self == Animator::Sequence(*q),
                        i <= q.animations@.len(),
                        forall|j: int| 0 <= j < i ==> !(#[trigger] q.animations@[j]).hits(gone@),
                    decreases q.animations@.len() - i,
                {
                    if q.animations[i].touches(gone) {
                        proof {
                            let id = choose|id: usize| #[trigger] q.animations@[i as int].targets(id) && id < gone@.len() && gone@[id as int];
                            assert(self.targets(id));
                        }
                        return true;
                    }
                    i = i + 1;
                }
                proof {
                    if self.hits(gone@) {
                        let id = choose|id: usize| #[trigger] self.targets(id) && id < gone@.len() && gone@[id as int];
                        let j = choose|j: int| 0 <= j < q.animations@.len() && (#[trigger] q.animations@[j]).targets(id);
                        assert(q.animations@[j].hits(gone@));
                    }
                }
                false
            },
        }
    }

    pub fn get_target(&self) -> (r: usize)
        requires
            self.wf(),
        ensures
            r == self.first_target(),
        decreases self,
    {
        match self {
            Animator::Single(a) => a.target_id,
            Animator::Composite(c) => c.animations[0].get_target(),
            Animator::Sequence(q) => q.animations[0].get_target(),
        }
    }

    pub fn is_finished(&self) -> (r: bool)
        requires
            self.wf(),
        ensures
            r == self.finished(),
        decreases self,
    {
        match self {
            Animator::Single(a) => a.finished,
            Animator::Composite(c) => {
                let mut i: usize = 0;
                while i < c.animations.len()
                    invariant
                        self.wf(),
                        *self == Animator::Composite(*c),
                        i <= c.animations@.len(),
                        forall|j: int| 0 <= j < i ==> (#[trigger] c.animations@[j]).finished(),
                    decreases c.animations@.len() - i,
                {
                    if !c.animations[i].is_finished() {
                        return false;
                    }
                    i = i + 1;
                }
                true
            },
            Animator::Sequence(q) => {
                !q.repeat && q.current_animation == q.animations.len() - 1
                    && q.animations[q.current_animation].is_finished()
            },
        }
    }


    /// Advances to time `now` and yields the field values for this tick.
    pub fn animate(&mut self, now: u64) -> (r: Vec<(usize, FieldSelector)>)
        requires
            old(self).wf(),
        ensures
            old(self).stepped(*final(self), now, r@),
            final(self).wf(),
        decreases *old(self),
    {
        match self {
            Animator::Single(a) => a.animate(now),
            Animator::Composite(c) => {
                let ghost c0 = c.animations@;
                let ghost v0 = c.animations;
                let ghost mut outs: Seq<Seq<(usize, FieldSelector)>> = Seq::empty();
                let mut res: Vec<(usize, FieldSelector)> = Vec::new();
                let mut i: usize = 0;
                while i < c.animations.len()
                    invariant
                        c.animations@.len() == c0.len(),
                        c0.len() > 0,
                        i <= c0.len(),
                        outs.len() == i,
                        res@ == outs.flatten_alt(),
                        forall|j: int| 0 <= j < i ==> (#[trigger] c0[j]).stepped(c.animations@[j], now, outs[j]),
                        forall|j: int| 0 <= j < i ==> (#[trigger] c.animations@[j]).wf(),
                        forall|j: int| i <= j < c0.len() ==> #[trigger] c.animations@[j] == c0[j],
                        forall|j: int| 0 <= j < c0.len() ==> (#[trigger] c0[j]).wf(),
                        v0@ == c0,
                        *old(self) == Animator::Composite(CompositeAnimation { animations: v0 }),
                    decreases c0.len() - i,
                {
                    proof {
                        let ca = old(self)->Composite_0;
                        assert(decreases_to!(*old(self) => ca));
                        assert(decreases_to!(ca => ca.animations));
                        assert(decreases_to!(v0 => v0[i as int]));
                    }
                    let mut part = c.animations[i].animate(now);
                    proof {
                        let outs2 = outs.push(part@);
                        assert(outs2.drop_last() =~= outs);
                        assert(outs2.flatten_alt() == outs.flatten_alt() + part@);
                        outs = outs2;
                    }
                    res.append(&mut part);
                    i = i + 1;
                }
                proof {
                    assert(forall|j: int| 0 <= j < outs.len()
                        ==> (#[trigger] c0[j]).stepped(c.animations@[j], now, outs[j]));
                }
                res
            },
            Animator::Sequence(q) => {
                let ghost v0 = q.animations;
                let i = q.current_animation;
                proof {
                    let sq = old(self)->Sequence_0;
                    assert(decreases_to!(*old(self) => sq));
                    assert(decreases_to!(sq => sq.animations));
                    assert(decreases_to!(v0 => v0[i as int]));
                }
                let res = q.animations[i].animate(now);
                let ghost mid = q.animations@[i as int];
                if q.animations[i].is_finished() {
                    if i < q.animations.len() - 1 {
                        q.current_animation = i + 1;
                        q.animations[i + 1].reset(now);
                    } else if q.repeat {
                        q.current_animation = 0;
                        q.animations[0].reset(now);
                    }
                }
                res
            },
        }
    }

    /// Starts the clock again at `now`.
    pub fn reset(&mut self, now: u64)
        requires
            old(self).wf(),
        ensures
            old(self).restarted(*final(self), now),
            final(self).wf(),
        decreases *old(self),
    {
        match self {
            Animator::Single(a) => {
                a.reset(now);
            },
            Animator::Composite(c) => {
                let ghost c0 = c.animations@;
                let ghost v0 = c.animations;
                let mut i: usize = 0;
                while i < c.animations.len()
                    invariant
                        c.animations@.len() == c0.len(),
                        c0.len() > 0,
                        i <= c0.len(),
                        forall|j: int| 0 <= j < i ==> (#[trigger] c0[j]).restarted(c.animations@[j], now),
                        forall|j: int| 0 <= j < i ==> (#[trigger] c.animations@[j]).wf(),
                        forall|j: int| i <= j < c0.len() ==> #[trigger] c.animations@[j] == c0[j],
                        forall|j: int| 0 <= j < c0.len() ==> (#[trigger] c0[j]).wf(),
                        v0@ == c0,
                        *old(self) == Animator::Composite(CompositeAnimation { animations: v0 }),
                    decreases c0.len() - i,
                {
                    proof {
                        let ca = old(self)->Composite_0;
                        assert(decreases_to!(*old(self) => ca));
                        assert(decreases_to!(ca => ca.animations));
                        assert(decreases_to!(v0 => v0[i as int]));
                    }
                    c.animations[i].reset(now);
                    i = i + 1;
                }
            },
            Animator::Sequence(q) => {
                q.current_animation = 0;
                q.animations[0].reset(now);
            },
        }
    }
}

} // verus!
