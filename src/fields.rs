//! Field selectors: one mutable element property together with its value,
//! and the arithmetic used to interpolate between two values of one kind.
//!
//! Fractional quantities (colour channels, gradient stop positions and
//! gradient end points) are held in thousandths: 1000 stands for 1.0.
use vstd::prelude::*;

verus! {

/// A label text of fixed size, padded with spaces.
pub type SizedStr = [char; 256];

/// Turns a value into a fixed-size representation.
pub trait Sizing<T>: Sized {
    fn sizify(v: T) -> Self;
}

/// The first 256 characters of `s`, followed by spaces up to 256.
pub open spec fn sized_chars(s: Seq<char>) -> Seq<char> {
    Seq::new(256, |i: int| if i < s.len() { s[i] } else { ' ' })
}

impl<'a> Sizing<&'a str> for SizedStr {
    fn sizify(v: &'a str) -> (r: Self)
        ensures
            r@ == sized_chars(v@),
    {
        let mut t: [char; 256] = [' '; 256];
        proof {
            vstd::array::axiom_spec_array_fill_for_copy_type::<char, 256>(' ');
        }
        let n = v.unicode_len();
        let take: usize = if n < 256 { n } else { 256 };
        let mut k: usize = 0;
        while k < take
            invariant
                take <= 256,
                take <= v@.len(),
                take == (if v@.len() < 256 { v@.len() } else { 256 }),
                k <= take,
                forall|i: int| 0 <= i < k ==> t@[i] == v@[i],
                forall|i: int| k <= i < 256 ==> t@[i] == ' ',
            decreases take - k,
        {
            t[k] = v.get_char(k);
            k = k + 1;
        }
        assert(t@ =~= sized_chars(v@));
        t
    }
}

/// Four channels (red, green, blue, alpha for a colour), in thousandths.
#[derive(Clone, Copy, Debug)]
pub struct Vec4 {
    pub val: [i32; 4],
}

impl Vec4 {
    pub open spec fn channels(self) -> Seq<int> {
        seq![self.val[0] as int, self.val[1] as int, self.val[2] as int, self.val[3] as int]
    }

    pub fn new(r: i32, g: i32, b: i32, a: i32) -> (v: Vec4)
        ensures
            v.channels() == seq![r as int, g as int, b as int, a as int],
    {
        Vec4 { val: [r, g, b, a] }
    }

    pub fn as_slice(&self) -> (s: &[i32])
        ensures
            s@ == self.val@,
    {
        self.val.as_slice()
    }
}

/// The kind of a field selector, without its value.
#[derive(Clone, Copy, Debug, PartialEq, Eq, Structural)]
pub enum FieldKind {
    X,
    Y,
    Width,
    Height,
    BGColor,
    GradientPos0,
    GradientColors0,
    GradientPos1,
    GradientColors1,
    GradientPos2,
    GradientColors2,
    GradientPos3,
    GradientColors3,
    GradientStart,
    GradientEnd,
    LabelText,
    LabelColor,
}

/// One mutable property of an element together with its new value.
#[derive(Clone, Copy, Debug)]
pub enum FieldSelector {
    X(i32),
    Y(i32),
    Width(i32),
    Height(i32),
    BGColor(Vec4),
    GradientPos0(i32),
    GradientColors0(Vec4),
    GradientPos1(i32),
    GradientColors1(Vec4),
    GradientPos2(i32),
    GradientColors2(Vec4),
    GradientPos3(i32),
    GradientColors3(Vec4),
    GradientStart((i32, i32)),
    GradientEnd((i32, i32)),
    LabelText(SizedStr),
    LabelColor(Vec4),
}

pub open spec fn fits_i32(v: int) -> bool {
    i32::MIN <= v <= i32::MAX
}

/// Division that rounds toward zero, as integer division does in Rust.
pub open spec fn tdiv(a: int, d: int) -> int {
    if a >= 0 {
        a / d
    } else {
        -((-a) / d)
    }
}

/// `a` scaled by the fraction `num / den`, rounded toward zero.
pub open spec fn scaled(a: int, num: int, den: int) -> int {
    tdiv(a * num, den)
}

pub open spec fn sum_parts(a: Seq<int>, b: Seq<int>) -> Seq<int> {
    Seq::new(a.len(), |i: int| a[i] + b[i])
}

pub open spec fn diff_parts(a: Seq<int>, b: Seq<int>) -> Seq<int> {
    Seq::new(a.len(), |i: int| a[i] - b[i])
}

pub open spec fn scaled_parts(a: Seq<int>, num: int, den: int) -> Seq<int> {
    Seq::new(a.len(), |i: int| scaled(a[i], num, den))
}

pub open spec fn all_fit(a: Seq<int>) -> bool {
    forall|i: int| 0 <= i < a.len() ==> fits_i32(#[trigger] a[i])
}


/// A fraction of at most one of a natural number stays between zero and it.
pub proof fn lemma_fraction_bounded(x: int, num: int, den: int)
    requires
        0 <= x,
        0 <= num <= den,
        0 < den,
    ensures
        0 <= (x * num) / den <= x,
{
    vstd::arithmetic::mul::lemma_mul_inequality(num, den, x);
    assert(x * num == num * x) by (nonlinear_arith);
    assert(x * den == den * x) by (nonlinear_arith);
    assert(0 <= x * num) by (nonlinear_arith) requires 0 <= x, 0 <= num;
    vstd::arithmetic::div_mod::lemma_div_is_ordered(x * num, x * den, den);
    vstd::arithmetic::div_mod::lemma_div_by_multiple(x, den);
    vstd::arithmetic::div_mod::lemma_div_pos_is_pos(x * num, den);
}

/// `a * num / den`, rounded toward zero.
pub fn scale_i32(a: i32, num: u32, den: u32) -> (r: i32)
    requires
        0 < den,
        num <= den,
    ensures
        r as int == scaled(a as int, num as int, den as int),
{
    let neg = a < 0;
    let mag: u64 = if neg { (-(a as i64)) as u64 } else { a as u64 };
    proof {
        assert(mag as int * num as int <= 0x8000_0000 * 0xffff_ffff) by (nonlinear_arith)
            requires mag <= 0x8000_0000, num <= 0xffff_ffff;
        lemma_fraction_bounded(mag as int, num as int, den as int);
    }
    let q: u64 = (mag * num as u64) / den as u64;
    proof {
        if neg {
            assert((a as int) * (num as int) == -((mag as int) * (num as int))) by (nonlinear_arith)
                requires a as int == -(mag as int);
            assert(0 <= (mag as int) * (num as int)) by (nonlinear_arith);
        } else {
            assert(0 <= (a as int) * (num as int)) by (nonlinear_arith) requires 0 <= a, 0 <= num;
        }
    }
    if neg {
        -(q as i64) as i32
    } else {
        q as i32
    }
}

impl Vec4 {
    pub fn add(self, rhs: Vec4) -> (r: Vec4)
        requires
            all_fit(sum_parts(self.channels(), rhs.channels())),
        ensures
            r.channels() == sum_parts(self.channels(), rhs.channels()),
    {
        assert(fits_i32(sum_parts(self.channels(), rhs.channels())[0]));
        assert(fits_i32(sum_parts(self.channels(), rhs.channels())[1]));
        assert(fits_i32(sum_parts(self.channels(), rhs.channels())[2]));
        assert(fits_i32(sum_parts(self.channels(), rhs.channels())[3]));
        let r = Vec4 { val: [self.val[0] + rhs.val[0], self.val[1] + rhs.val[1], self.val[2] + rhs.val[2], self.val[3] + rhs.val[3]] };
        assert(r.channels() =~= sum_parts(self.channels(), rhs.channels()));
        r
    }

    pub fn sub(self, rhs: Vec4) -> (r: Vec4)
        requires
            all_fit(diff_parts(self.channels(), rhs.channels())),
        ensures
            r.channels() == diff_parts(self.channels(), rhs.channels()),
    {
        assert(fits_i32(diff_parts(self.channels(), rhs.channels())[0]));
        assert(fits_i32(diff_parts(self.channels(), rhs.channels())[1]));
        assert(fits_i32(diff_parts(self.channels(), rhs.channels())[2]));
        assert(fits_i32(diff_parts(self.channels(), rhs.channels())[3]));
        let r = Vec4 { val: [self.val[0] - rhs.val[0], self.val[1] - rhs.val[1], self.val[2] - rhs.val[2], self.val[3] - rhs.val[3]] };
        assert(r.channels() =~= diff_parts(self.channels(), rhs.channels()));
        r
    }

    pub fn scale(self, num: u32, den: u32) -> (r: Vec4)
        requires
            0 < den,
            num <= den,
        ensures
            r.channels() == scaled_parts(self.channels(), num as int, den as int),
    {
        let r = Vec4 { val: [scale_i32(self.val[0], num, den), scale_i32(self.val[1], num, den), scale_i32(self.val[2], num, den), scale_i32(self.val[3], num, den)] };
        assert(r.channels() =~= scaled_parts(self.channels(), num as int, den as int));
        r
    }
}

/// Two colours with the same channels are the same colour.
pub proof fn lemma_same_channels(a: Vec4, b: Vec4)
    requires
        a.channels() == b.channels(),
    ensures
        a == b,
{
    assert(a.channels()[0] == b.channels()[0]);
    assert(a.channels()[1] == b.channels()[1]);
    assert(a.channels()[2] == b.channels()[2]);
    assert(a.channels()[3] == b.channels()[3]);
    assert(a.val =~= b.val);
}

/// A numeric selector is determined by its kind and its parts.
pub proof fn lemma_same_parts(a: FieldSelector, b: FieldSelector)
    requires
        a.kind() == b.kind(),
        a.is_numeric(),
        a.parts() == b.parts(),
    ensures
        a == b,
{
    assert(a.parts()[0] == b.parts()[0]);
    match (a, b) {
        (FieldSelector::BGColor(x), FieldSelector::BGColor(y)) => lemma_same_channels(x, y),
        (FieldSelector::GradientColors0(x), FieldSelector::GradientColors0(y)) => lemma_same_channels(x, y),
        (FieldSelector::GradientColors1(x), FieldSelector::GradientColors1(y)) => lemma_same_channels(x, y),
        (FieldSelector::GradientColors2(x), FieldSelector::GradientColors2(y)) => lemma_same_channels(x, y),
        (FieldSelector::GradientColors3(x), FieldSelector::GradientColors3(y)) => lemma_same_channels(x, y),
        (FieldSelector::LabelColor(x), FieldSelector::LabelColor(y)) => lemma_same_channels(x, y),
        (FieldSelector::GradientStart(x), FieldSelector::GradientStart(y)) => {
            assert(a.parts()[1] == b.parts()[1]);
            assert(x == y);
        },
        (FieldSelector::GradientEnd(x), FieldSelector::GradientEnd(y)) => {
            assert(a.parts()[1] == b.parts()[1]);
            assert(x == y);
        },
        (FieldSelector::X(x), FieldSelector::X(y)) => {
            assert(a.parts()[0] == x as int && b.parts()[0] == y as int);
        },
        (FieldSelector::Y(x), FieldSelector::Y(y)) => {
            assert(a.parts()[0] == x as int && b.parts()[0] == y as int);
        },
        (FieldSelector::Width(x), FieldSelector::Width(y)) => {
            assert(a.parts()[0] == x as int && b.parts()[0] == y as int);
        },
        (FieldSelector::Height(x), FieldSelector::Height(y)) => {
            assert(a.parts()[0] == x as int && b.parts()[0] == y as int);
        },
        (FieldSelector::GradientPos0(x), FieldSelector::GradientPos0(y)) => {
            assert(a.parts()[0] == x as int && b.parts()[0] == y as int);
        },
        (FieldSelector::GradientPos1(x), FieldSelector::GradientPos1(y)) => {
            assert(a.parts()[0] == x as int && b.parts()[0] == y as int);
        },
        (FieldSelector::GradientPos2(x), FieldSelector::GradientPos2(y)) => {
            assert(a.parts()[0] == x as int && b.parts()[0] == y as int);
        },
        (FieldSelector::GradientPos3(x), FieldSelector::GradientPos3(y)) => {
            assert(a.parts()[0] == x as int && b.parts()[0] == y as int);
        },
        _ => {},
    }
}

impl FieldSelector {

    /// The component-wise sum of two values of one kind.
    pub fn add(self, rhs: FieldSelector) -> (r: FieldSelector)
        requires
            self.compatible(rhs),
            all_fit(sum_parts(self.parts(), rhs.parts())),
        ensures
            r.kind() == self.kind(),
            r.parts() == sum_parts(self.parts(), rhs.parts()),
    {
        proof {
            let s = sum_parts(self.parts(), rhs.parts());
            if s.len() > 0 {
                assert(fits_i32(s[0]));
            }
            if s.len() > 1 {
                assert(fits_i32(s[1]));
            }
        }
        let r = match (self, rhs) {
            (FieldSelector::X(a), FieldSelector::X(b)) => FieldSelector::X(a + b),
            (FieldSelector::Y(a), FieldSelector::Y(b)) => FieldSelector::Y(a + b),
            (FieldSelector::Width(a), FieldSelector::Width(b)) => FieldSelector::Width(a + b),
            (FieldSelector::Height(a), FieldSelector::Height(b)) => FieldSelector::Height(a + b),
            (FieldSelector::GradientPos0(a), FieldSelector::GradientPos0(b)) => FieldSelector::GradientPos0(a + b),
            (FieldSelector::GradientPos1(a), FieldSelector::GradientPos1(b)) => FieldSelector::GradientPos1(a + b),
            (FieldSelector::GradientPos2(a), FieldSelector::GradientPos2(b)) => FieldSelector::GradientPos2(a + b),
            (FieldSelector::GradientPos3(a), FieldSelector::GradientPos3(b)) => FieldSelector::GradientPos3(a + b),
            (FieldSelector::BGColor(a), FieldSelector::BGColor(b)) => FieldSelector::BGColor(a.add(b)),
            (FieldSelector::GradientColors0(a), FieldSelector::GradientColors0(b)) => FieldSelector::GradientColors0(a.add(b)),
            (FieldSelector::GradientColors1(a), FieldSelector::GradientColors1(b)) => FieldSelector::GradientColors1(a.add(b)),
            (FieldSelector::GradientColors2(a), FieldSelector::GradientColors2(b)) => FieldSelector::GradientColors2(a.add(b)),
            (FieldSelector::GradientColors3(a), FieldSelector::GradientColors3(b)) => FieldSelector::GradientColors3(a.add(b)),
            (FieldSelector::LabelColor(a), FieldSelector::LabelColor(b)) => FieldSelector::LabelColor(a.add(b)),
            (FieldSelector::GradientStart(a), FieldSelector::GradientStart(b)) => FieldSelector::GradientStart((a.0 + b.0, a.1 + b.1)),
            (FieldSelector::GradientEnd(a), FieldSelector::GradientEnd(b)) => FieldSelector::GradientEnd((a.0 + b.0, a.1 + b.1)),
            _ => vstd::pervasive::unreached(),
        };
        assert(r.parts() =~= sum_parts(self.parts(), rhs.parts()));
        r
    }

    /// The component-wise difference of two values of one kind.
    pub fn sub(self, rhs: FieldSelector) -> (r: FieldSelector)
        requires
            self.compatible(rhs),
            all_fit(diff_parts(self.parts(), rhs.parts())),
        ensures
            r.kind() == self.kind(),
            r.parts() == diff_parts(self.parts(), rhs.parts()),
    {
        proof {
            let s = diff_parts(self.parts(), rhs.parts());
            if s.len() > 0 {
                assert(fits_i32(s[0]));
            }
            if s.len() > 1 {
                assert(fits_i32(s[1]));
            }
        }
        let r = match (self, rhs) {
            (FieldSelector::X(a), FieldSelector::X(b)) => FieldSelector::X(a - b),
            (FieldSelector::Y(a), FieldSelector::Y(b)) => FieldSelector::Y(a - b),
            (FieldSelector::Width(a), FieldSelector::Width(b)) => FieldSelector::Width(a - b),
            (FieldSelector::Height(a), FieldSelector::Height(b)) => FieldSelector::Height(a - b),
            (FieldSelector::GradientPos0(a), FieldSelector::GradientPos0(b)) => FieldSelector::GradientPos0(a - b),
            (FieldSelector::GradientPos1(a), FieldSelector::GradientPos1(b)) => FieldSelector::GradientPos1(a - b),
            (FieldSelector::GradientPos2(a), FieldSelector::GradientPos2(b)) => FieldSelector::GradientPos2(a - b),
            (FieldSelector::GradientPos3(a), FieldSelector::GradientPos3(b)) => FieldSelector::GradientPos3(a - b),
            (FieldSelector::BGColor(a), FieldSelector::BGColor(b)) => FieldSelector::BGColor(a.sub(b)),
            (FieldSelector::GradientColors0(a), FieldSelector::GradientColors0(b)) => FieldSelector::GradientColors0(a.sub(b)),
            (FieldSelector::GradientColors1(a), FieldSelector::GradientColors1(b)) => FieldSelector::GradientColors1(a.sub(b)),
            (FieldSelector::GradientColors2(a), FieldSelector::GradientColors2(b)) => FieldSelector::GradientColors2(a.sub(b)),
            (FieldSelector::GradientColors3(a), FieldSelector::GradientColors3(b)) => FieldSelector::GradientColors3(a.sub(b)),
            (FieldSelector::LabelColor(a), FieldSelector::LabelColor(b)) => FieldSelector::LabelColor(a.sub(b)),
            (FieldSelector::GradientStart(a), FieldSelector::GradientStart(b)) => FieldSelector::GradientStart((a.0 - b.0, a.1 - b.1)),
            (FieldSelector::GradientEnd(a), FieldSelector::GradientEnd(b)) => FieldSelector::GradientEnd((a.0 - b.0, a.1 - b.1)),
            _ => vstd::pervasive::unreached(),
        };
        assert(r.parts() =~= diff_parts(self.parts(), rhs.parts()));
        r
    }

    /// The value scaled by the fraction `num / den` in [0, 1], each part
    /// rounded toward zero.
    pub fn mul(self, num: u32, den: u32) -> (r: FieldSelector)
        requires
            self.is_numeric(),
            0 < den,
            num <= den,
        ensures
            r.kind() == self.kind(),
            r.parts() == scaled_parts(self.parts(), num as int, den as int),
    {
        let r = match self {
            FieldSelector::X(a) => FieldSelector::X(scale_i32(a, num, den)),
            FieldSelector::Y(a) => FieldSelector::Y(scale_i32(a, num, den)),
            FieldSelector::Width(a) => FieldSelector::Width(scale_i32(a, num, den)),
            FieldSelector::Height(a) => FieldSelector::Height(scale_i32(a, num, den)),
            FieldSelector::GradientPos0(a) => FieldSelector::GradientPos0(scale_i32(a, num, den)),
            FieldSelector::GradientPos1(a) => FieldSelector::GradientPos1(scale_i32(a, num, den)),
            FieldSelector::GradientPos2(a) => FieldSelector::GradientPos2(scale_i32(a, num, den)),
            FieldSelector::GradientPos3(a) => FieldSelector::GradientPos3(scale_i32(a, num, den)),
            FieldSelector::BGColor(a) => FieldSelector::BGColor(a.scale(num, den)),
            FieldSelector::GradientColors0(a) => FieldSelector::GradientColors0(a.scale(num, den)),
            FieldSelector::GradientColors1(a) => FieldSelector::GradientColors1(a.scale(num, den)),
            FieldSelector::GradientColors2(a) => FieldSelector::GradientColors2(a.scale(num, den)),
            FieldSelector::GradientColors3(a) => FieldSelector::GradientColors3(a.scale(num, den)),
            FieldSelector::LabelColor(a) => FieldSelector::LabelColor(a.scale(num, den)),
            FieldSelector::GradientStart(a) => FieldSelector::GradientStart((scale_i32(a.0, num, den), scale_i32(a.1, num, den))),
            FieldSelector::GradientEnd(a) => FieldSelector::GradientEnd((scale_i32(a.0, num, den), scale_i32(a.1, num, den))),
            FieldSelector::LabelText(_) => vstd::pervasive::unreached(),
        };
        assert(r.parts() =~= scaled_parts(self.parts(), num as int, den as int));
        r
    }
    pub open spec fn kind(self) -> FieldKind {
        match self {
            FieldSelector::X(_) => FieldKind::X,
            FieldSelector::Y(_) => FieldKind::Y,
            FieldSelector::Width(_) => FieldKind::Width,
            FieldSelector::Height(_) => FieldKind::Height,
            FieldSelector::BGColor(_) => FieldKind::BGColor,
            FieldSelector::GradientPos0(_) => FieldKind::GradientPos0,
            FieldSelector::GradientColors0(_) => FieldKind::GradientColors0,
            FieldSelector::GradientPos1(_) => FieldKind::GradientPos1,
            FieldSelector::GradientColors1(_) => FieldKind::GradientColors1,
            FieldSelector::GradientPos2(_) => FieldKind::GradientPos2,
            FieldSelector::GradientColors2(_) => FieldKind::GradientColors2,
            FieldSelector::GradientPos3(_) => FieldKind::GradientPos3,
            FieldSelector::GradientColors3(_) => FieldKind::GradientColors3,
            FieldSelector::GradientStart(_) => FieldKind::GradientStart,
            FieldSelector::GradientEnd(_) => FieldKind::GradientEnd,
            FieldSelector::LabelText(_) => FieldKind::LabelText,
            FieldSelector::LabelColor(_) => FieldKind::LabelColor,
        }
    }

    /// The numbers that make up the value; a label text has none.
    pub open spec fn parts(self) -> Seq<int> {
        match self {
            FieldSelector::X(v) => seq![v as int],
            FieldSelector::Y(v) => seq![v as int],
            FieldSelector::Width(v) => seq![v as int],
            FieldSelector::Height(v) => seq![v as int],
            FieldSelector::BGColor(c) => c.channels(),
            FieldSelector::GradientPos0(v) => seq![v as int],
            FieldSelector::GradientColors0(c) => c.channels(),
            FieldSelector::GradientPos1(v) => seq![v as int],
            FieldSelector::GradientColors1(c) => c.channels(),
            FieldSelector::GradientPos2(v) => seq![v as int],
            FieldSelector::GradientColors2(c) => c.channels(),
            FieldSelector::GradientPos3(v) => seq![v as int],
            FieldSelector::GradientColors3(c) => c.channels(),
            FieldSelector::GradientStart(p) => seq![p.0 as int, p.1 as int],
            FieldSelector::GradientEnd(p) => seq![p.0 as int, p.1 as int],
            FieldSelector::LabelText(_) => seq![],
            FieldSelector::LabelColor(c) => c.channels(),
        }
    }

    /// Arithmetic is defined on every kind but label text.
    pub open spec fn is_numeric(self) -> bool {
        !(self is LabelText)
    }

    /// Two selectors that can be combined arithmetically.
    pub open spec fn compatible(self, other: FieldSelector) -> bool {
        self.kind() == other.kind() && self.is_numeric()
    }

    pub fn get_kind(&self) -> (k: FieldKind)
        ensures
            k == self.kind(),
    {
        match self {
            FieldSelector::X(_) => FieldKind::X,
            FieldSelector::Y(_) => FieldKind::Y,
            FieldSelector::Width(_) => FieldKind::Width,
            FieldSelector::Height(_) => FieldKind::Height,
            FieldSelector::BGColor(_) => FieldKind::BGColor,
            FieldSelector::GradientPos0(_) => FieldKind::GradientPos0,
            FieldSelector::GradientColors0(_) => FieldKind::GradientColors0,
            FieldSelector::GradientPos1(_) => FieldKind::GradientPos1,
            FieldSelector::GradientColors1(_) => FieldKind::GradientColors1,
            FieldSelector::GradientPos2(_) => FieldKind::GradientPos2,
            FieldSelector::GradientColors2(_) => FieldKind::GradientColors2,
            FieldSelector::GradientPos3(_) => FieldKind::GradientPos3,
            FieldSelector::GradientColors3(_) => FieldKind::GradientColors3,
            FieldSelector::GradientStart(_) => FieldKind::GradientStart,
            FieldSelector::GradientEnd(_) => FieldKind::GradientEnd,
            FieldSelector::LabelText(_) => FieldKind::LabelText,
            FieldSelector::LabelColor(_) => FieldKind::LabelColor,
        }
    }
}

} // verus!
