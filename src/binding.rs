//! Bindings: directional rules that turn a value applied to a source element
//! into values for a target element.
use vstd::prelude::*;
use crate::fields::{FieldKind, FieldSelector, tdiv};
use crate::drag::clamp_i32;
use crate::element::Element;

verus! {

/// One of the four geometric fields of an element.
#[derive(Clone, Copy, Debug, PartialEq, Eq, Structural)]
pub enum Dim {
    X,
    Y,
    Width,
    Height,
}

pub open spec fn dim_kind(d: Dim) -> FieldKind {
    match d {
        Dim::X => FieldKind::X,
        Dim::Y => FieldKind::Y,
        Dim::Width => FieldKind::Width,
        Dim::Height => FieldKind::Height,
    }
}

pub open spec fn dim_selector(d: Dim, v: i32) -> FieldSelector {
    match d {
        Dim::X => FieldSelector::X(v),
        Dim::Y => FieldSelector::Y(v),
        Dim::Width => FieldSelector::Width(v),
        Dim::Height => FieldSelector::Height(v),
    }
}

/// The number a geometric selector carries.
pub open spec fn dim_amount(f: FieldSelector) -> int {
    match f {
        FieldSelector::X(v) => v as int,
        FieldSelector::Y(v) => v as int,
        FieldSelector::Width(v) => v as int,
        FieldSelector::Height(v) => v as int,
        _ => 0,
    }
}

/// Position and size of an element: x, y, width, height.
pub type Geom = (i32, i32, i32, i32);

pub open spec fn geom_of(e: Element) -> Geom {
    (e.x, e.y, e.width, e.height)
}

/// `g` after the geometric value `f` is applied; other kinds leave it alone.
pub open spec fn moved(g: Geom, f: FieldSelector) -> Geom {
    match f {
        FieldSelector::X(v) => (v, g.1, g.2, g.3),
        FieldSelector::Y(v) => (g.0, v, g.2, g.3),
        FieldSelector::Width(v) => (g.0, g.1, v, g.3),
        FieldSelector::Height(v) => (g.0, g.1, g.2, v),
        _ => g,
    }
}

pub open spec fn dim_of(g: Geom, d: Dim) -> int {
    match d {
        Dim::X => g.0 as int,
        Dim::Y => g.1 as int,
        Dim::Width => g.2 as int,
        Dim::Height => g.3 as int,
    }
}

/// A term `field * num / den` over the source element's current geometry.
#[derive(Clone, Copy, Debug)]
pub struct SourceTerm {
    pub field: Dim,
    pub num: i32,
    pub den: i32,
}

/// One rule of a binding.
#[derive(Clone, Copy, Debug)]
pub enum MapRule {
    /// A value of this kind is passed on unchanged.
    Forward(FieldKind),
    /// A value `v` of field `on` gives field `emit` the value
    /// `v * num / den + offset`, plus the source term when there is one,
    /// each quotient rounded toward zero and the sum saturated to `i32`.
    Affine { on: Dim, emit: Dim, num: i32, den: i32, offset: i32, plus: Option<SourceTerm> },
}

impl MapRule {
    pub open spec fn wf(self) -> bool {
        match self {
            MapRule::Forward(_) => true,
            MapRule::Affine { den, plus, .. } => den > 0 && match plus {
                Some(t) => t.den > 0,
                None => true,
            },
        }
    }

    /// Whether the rule reacts to `v`.
    pub open spec fn matches(self, v: FieldSelector) -> bool {
        match self {
            MapRule::Forward(k) => v.kind() == k,
            MapRule::Affine { on, .. } => v.kind() == dim_kind(on),
        }
    }

    /// What the rule gives for `v` applied to `src`, when it matches.
    pub open spec fn emit(self, v: FieldSelector, src: Geom) -> FieldSelector {
        match self {
            MapRule::Forward(_) => v,
            MapRule::Affine { emit, num, den, offset, plus, .. } => dim_selector(
                emit,
                clamp_i32(tdiv(dim_amount(v) * num, den as int) + offset + match plus {
                    Some(t) => tdiv(dim_of(src, t.field) * t.num, t.den as int),
                    None => 0,
                }) as i32,
            ),
        }
    }
}

/// What `rules` give, in order, for `v` applied to `src`.
pub open spec fn emitted(rules: Seq<MapRule>, v: FieldSelector, src: Geom) -> Seq<FieldSelector>
    decreases rules.len(),
{
    if rules.len() == 0 {
        Seq::empty()
    } else {
        let head = emitted(rules.drop_last(), v, src);
        if rules.last().matches(v) {
            head.push(rules.last().emit(v, src))
        } else {
            head
        }
    }
}

/// Rules that do not react to `v` give nothing, wherever it was applied.
pub proof fn lemma_ignored_gives_nothing(rules: Seq<MapRule>, v: FieldSelector, src: Geom)
    requires
        forall|i: int| 0 <= i < rules.len() ==> !(#[trigger] rules[i]).matches(v),
    ensures
        emitted(rules, v, src).len() == 0,
    decreases rules.len(),
{
    if rules.len() > 0 {
        let init = rules.drop_last();
        assert forall|i: int| 0 <= i < init.len() implies !(#[trigger] init[i]).matches(v) by {
            assert(init[i] == rules[i]);
        }
        lemma_ignored_gives_nothing(init, v, src);
        assert(!rules[rules.len() - 1].matches(v));
    }
}

/// A pure mapping from one applied value to the values for the target.
#[derive(Debug)]
pub struct Mapping {
    pub rules: Vec<MapRule>,
}

/// `a * num / den` rounded toward zero, for operands of at most 63 bits.
fn tdiv_i64(a: i64, den: i64) -> (r: i64)
    requires
        den > 0,
        -0x4000_0000_0000_0000 <= a <= 0x4000_0000_0000_0000,
    ensures
        r as int == tdiv(a as int, den as int),
        -0x4000_0000_0000_0000 <= r <= 0x4000_0000_0000_0000,
{
    if a >= 0 {
        proof {
            crate::fields::lemma_fraction_bounded(a as int, 1, den as int);
        }
        a / den
    } else {
        proof {
            crate::fields::lemma_fraction_bounded(-a, 1, den as int);
        }
        -((-a) / den)
    }
}

fn clamp_to_i32(v: i128) -> (r: i32)
    ensures
        r as int == clamp_i32(v as int),
{
    if v < i32::MIN as i128 {
        i32::MIN
    } else if v > i32::MAX as i128 {
        i32::MAX
    } else {
        v as i32
    }
}

fn amount_of(v: &FieldSelector) -> (r: i32)
    ensures
        r as int == dim_amount(*v),
{
    match v {
        FieldSelector::X(a) => *a,
        FieldSelector::Y(a) => *a,
        FieldSelector::Width(a) => *a,
        FieldSelector::Height(a) => *a,
        _ => 0,
    }
}

fn dim_value(e: &Element, d: Dim) -> (r: i32)
    ensures
        r as int == dim_of(geom_of(*e), d),
{
    match d {
        Dim::X => e.x,
        Dim::Y => e.y,
        Dim::Width => e.width,
        Dim::Height => e.height,
    }
}

fn make_dim(d: Dim, v: i32) -> (r: FieldSelector)
    ensures
        r == dim_selector(d, v),
{
    match d {
        Dim::X => FieldSelector::X(v),
        Dim::Y => FieldSelector::Y(v),
        Dim::Width => FieldSelector::Width(v),
        Dim::Height => FieldSelector::Height(v),
    }
}

fn product(a: i32, b: i32) -> (r: i64)
    ensures
        r as int == a as int * b as int,
        -0x4000_0000_0000_0000 <= r <= 0x4000_0000_0000_0000,
{
    proof {
        assert(-0x4000_0000_0000_0000 <= a as int * b as int <= 0x4000_0000_0000_0000) by (nonlinear_arith)
            requires -0x8000_0000 <= a <= 0x7fff_ffff, -0x8000_0000 <= b <= 0x7fff_ffff;
    }
    a as i64 * b as i64
}

impl MapRule {
    pub fn rule_matches(&self, v: &FieldSelector) -> (r: bool)
        ensures
            r == self.matches(*v),
    {
        let k = v.get_kind();
        match self {
            MapRule::Forward(kind) => k == *kind,
            MapRule::Affine { on, .. } => match on {
                Dim::X => k == FieldKind::X,
                Dim::Y => k == FieldKind::Y,
                Dim::Width => k == FieldKind::Width,
                Dim::Height => k == FieldKind::Height,
            },
        }
    }

    pub fn apply(&self, v: &FieldSelector, src: &Element) -> (r: FieldSelector)
        requires
            self.wf(),
        ensures
            r == self.emit(*v, geom_of(*src)),
    {
        match self {
            MapRule::Forward(_) => *v,
            MapRule::Affine { emit, num, den, offset, plus, .. } => {
                let base = tdiv_i64(product(amount_of(v), *num), *den as i64);
                let extra: i64 = match plus {
                    Some(t) => tdiv_i64(product(dim_value(src, t.field), t.num), t.den as i64),
                    None => 0,
                };
                make_dim(*emit, clamp_to_i32(base as i128 + *offset as i128 + extra as i128))
            },
        }
    }
}

impl Mapping {
    pub open spec fn wf(self) -> bool {
        forall|i: int| 0 <= i < self.rules@.len() ==> (#[trigger] self.rules@[i]).wf()
    }

    /// `None` when no rule reacts to `v`, else the values the rules give.
    pub open spec fn maps(self, v: FieldSelector, src: Geom) -> Option<Seq<FieldSelector>> {
        let out = emitted(self.rules@, v, src);
        if out.len() == 0 {
            None
        } else {
            Some(out)
        }
    }

    /// No rule reacts to `v`.
    pub open spec fn ignores(self, v: FieldSelector) -> bool {
        forall|i: int| 0 <= i < self.rules@.len() ==> !(#[trigger] self.rules@[i]).matches(v)
    }

    pub fn new(rules: Vec<MapRule>) -> (m: Mapping)
        ensures
            m.rules == rules,
    {
        Mapping { rules }
    }

    /// The values for the target when `v` was applied to `src`, or `None`
    /// when the mapping takes no interest in `v`.
    pub fn map(&self, v: &FieldSelector, src: &Element) -> (r: Option<Vec<FieldSelector>>)
        requires
            self.wf(),
        ensures
            match r {
                Some(w) => self.maps(*v, geom_of(*src)) == Some(w@),
                None => self.maps(*v, geom_of(*src)).is_none(),
            },
    {
        let mut out: Vec<FieldSelector> = Vec::new();
        let mut i: usize = 0;
        while i < self.rules.len()
            invariant
                self.wf(),
                i <= self.rules@.len(),
                out@ == emitted(self.rules@.subrange(0, i as int), *v, geom_of(*src)),
            decreases self.rules@.len() - i,
        {
            proof {
                let next = self.rules@.subrange(0, i + 1);
                assert(next.drop_last() =~= self.rules@.subrange(0, i as int));
                assert(next.last() == self.rules@[i as int]);
            }
            if self.rules[i].rule_matches(v) {
                out.push(self.rules[i].apply(v, src));
            }
            i = i + 1;
        }
        assert(self.rules@.subrange(0, self.rules@.len() as int) =~= self.rules@);
        if out.len() == 0 {
            None
        } else {
            Some(out)
        }
    }
}

} // verus!
