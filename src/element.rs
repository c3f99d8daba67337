//! Elements of the retained scene graph, and the builder that configures
//! one before it is inserted into the store.
use vstd::prelude::*;
use crate::fields::{FieldKind, FieldSelector, SizedStr, Sizing, Vec4, sized_chars};
use crate::drag::{add_clamped, clamp_i32, Draggable, DraggableElement};

verus! {

/// Outline style; the width is in thousandths of a pixel.
#[derive(Clone, Copy, Debug)]
pub struct LineStyle {
    pub color: Vec4,
    pub width: i32,
    pub dashed: bool,
}

/// One vertex of an element's outline, relative to the element's box in
/// thousandths (0 is the left or bottom edge, 1000 the right or top edge).
#[derive(Clone, Copy, Debug)]
pub struct ShapeSegment {
    pub x: i32,
    pub y: i32,
    pub style: Option<LineStyle>,
    pub event_id: Option<i32>,
}

impl ShapeSegment {
    pub fn new(x: i32, y: i32) -> (s: ShapeSegment)
        ensures
            s.x == x,
            s.y == y,
            s.style.is_none(),
            s.event_id.is_none(),
    {
        ShapeSegment { x, y, style: None, event_id: None }
    }
}

/// A text label drawn inside an element.
#[derive(Debug)]
pub struct RenderableString {
    pub string: SizedStr,
    pub font_size: i32,
    pub color: Vec4,
    pub font: String,
}

impl RenderableString {
    pub fn duplicate(&self) -> (r: RenderableString)
        ensures
            r.string == self.string,
            r.font_size == self.font_size,
            r.color == self.color,
            r.font@ == self.font@,
    {
        RenderableString {
            string: self.string,
            font_size: self.font_size,
            color: self.color,
            font: self.font.clone(),
        }
    }
}

/// A node of the scene graph.
#[derive(Debug)]
pub struct Element {
    pub id: usize,
    pub shape: Vec<ShapeSegment>,
    pub style: Option<LineStyle>,
    pub blur: bool,
    pub bgcolor: Vec4,
    pub x: i32,
    pub y: i32,
    pub width: i32,
    pub height: i32,
    pub children_elems: Vec<usize>,
    pub parent_element: usize,
    pub draggable: Option<DraggableElement>,
    pub gradient_stops: u8,
    pub gradient_pos: Vec<i32>,
    pub gradient_colors: Vec<Vec4>,
    pub gradient_start: Option<(i32, i32)>,
    pub gradient_end: Option<(i32, i32)>,
    pub svg: Option<String>,
    pub label: Option<RenderableString>,
    pub direct_drag: bool,
}

pub open spec fn opt_string_view(s: Option<String>) -> Option<Seq<char>> {
    match s {
        Some(v) => Some(v@),
        None => None,
    }
}

/// Everything about a label but its text and colour.
pub open spec fn label_frame(l: Option<RenderableString>) -> Option<(i32, Seq<char>)> {
    match l {
        Some(v) => Some((v.font_size, v.font@)),
        None => None,
    }
}

/// The gradient stop index that a kind addresses, if any.
pub open spec fn gradient_pos_index(k: FieldKind) -> Option<int> {
    match k {
        FieldKind::GradientPos0 => Some(0),
        FieldKind::GradientPos1 => Some(1),
        FieldKind::GradientPos2 => Some(2),
        FieldKind::GradientPos3 => Some(3),
        _ => None,
    }
}

pub open spec fn gradient_color_index(k: FieldKind) -> Option<int> {
    match k {
        FieldKind::GradientColors0 => Some(0),
        FieldKind::GradientColors1 => Some(1),
        FieldKind::GradientColors2 => Some(2),
        FieldKind::GradientColors3 => Some(3),
        _ => None,
    }
}

pub open spec fn pos_selector(i: int, v: i32) -> FieldSelector {
    if i == 0 {
        FieldSelector::GradientPos0(v)
    } else if i == 1 {
        FieldSelector::GradientPos1(v)
    } else if i == 2 {
        FieldSelector::GradientPos2(v)
    } else {
        FieldSelector::GradientPos3(v)
    }
}

pub open spec fn color_selector(i: int, v: Vec4) -> FieldSelector {
    if i == 0 {
        FieldSelector::GradientColors0(v)
    } else if i == 1 {
        FieldSelector::GradientColors1(v)
    } else if i == 2 {
        FieldSelector::GradientColors2(v)
    } else {
        FieldSelector::GradientColors3(v)
    }
}

impl Element {
    /// The current value of the field of kind `k`, if the element has one.
    pub open spec fn field_value(self, k: FieldKind) -> Option<FieldSelector> {
        match k {
            FieldKind::X => Some(FieldSelector::X(self.x)),
            FieldKind::Y => Some(FieldSelector::Y(self.y)),
            FieldKind::Width => Some(FieldSelector::Width(self.width)),
            FieldKind::Height => Some(FieldSelector::Height(self.height)),
            FieldKind::BGColor => Some(FieldSelector::BGColor(self.bgcolor)),
            FieldKind::GradientStart => match self.gradient_start {
                Some(p) => Some(FieldSelector::GradientStart(p)),
                None => None,
            },
            FieldKind::GradientEnd => match self.gradient_end {
                Some(p) => Some(FieldSelector::GradientEnd(p)),
                None => None,
            },
            FieldKind::LabelText => match self.label {
                Some(l) => Some(FieldSelector::LabelText(l.string)),
                None => None,
            },
            FieldKind::LabelColor => match self.label {
                Some(l) => Some(FieldSelector::LabelColor(l.color)),
                None => None,
            },
            _ => {
                if let Some(i) = gradient_pos_index(k) {
                    if i < self.gradient_pos@.len() {
                        Some(pos_selector(i, self.gradient_pos@[i]))
                    } else {
                        None
                    }
                } else if let Some(i) = gradient_color_index(k) {
                    if i < self.gradient_colors@.len() {
                        Some(color_selector(i, self.gradient_colors@[i]))
                    } else {
                        None
                    }
                } else {
                    None
                }
            },
        }
    }

    /// Whether the element has a slot for a value of `f`'s kind: gradient
    /// stops that it lacks and a label that it lacks ignore a mutation.
    pub open spec fn accepts(self, f: FieldSelector) -> bool {
        match f {
            FieldSelector::LabelText(_) => self.label.is_some(),
            FieldSelector::LabelColor(_) => self.label.is_some(),
            FieldSelector::GradientStart(_) => true,
            FieldSelector::GradientEnd(_) => true,
            _ => {
                if let Some(i) = gradient_pos_index(f.kind()) {
                    i < self.gradient_pos@.len()
                } else if let Some(i) = gradient_color_index(f.kind()) {
                    i < self.gradient_colors@.len()
                } else {
                    true
                }
            },
        }
    }

    /// What a field mutation leaves alone: identity, links and configuration.
    pub open spec fn same_frame(self, other: Element) -> bool {
        &&& self.id == other.id
        &&& self.shape@ == other.shape@
        &&& self.style == other.style
        &&& self.blur == other.blur
        &&& self.children_elems@ == other.children_elems@
        &&& self.parent_element == other.parent_element
        &&& self.draggable == other.draggable
        &&& self.gradient_stops == other.gradient_stops
        &&& self.gradient_pos@.len() == other.gradient_pos@.len()
        &&& self.gradient_colors@.len() == other.gradient_colors@.len()
        &&& opt_string_view(self.svg) == opt_string_view(other.svg)
        &&& label_frame(self.label) == label_frame(other.label)
        &&& self.direct_drag == other.direct_drag
    }

    /// The same place in the tree: id, parent and children.
    pub open spec fn same_tree(self, other: Element) -> bool {
        &&& self.id == other.id
        &&& self.parent_element == other.parent_element
        &&& self.children_elems@ == other.children_elems@
    }

    /// The same configuration and field values; identity and links aside.
    pub open spec fn same_config(self, other: Element) -> bool {
        &&& self.shape@ == other.shape@
        &&& self.style == other.style
        &&& self.blur == other.blur
        &&& self.draggable == other.draggable
        &&& self.gradient_stops == other.gradient_stops
        &&& self.gradient_pos@ == other.gradient_pos@
        &&& self.gradient_colors@ == other.gradient_colors@
        &&& opt_string_view(self.svg) == opt_string_view(other.svg)
        &&& label_frame(self.label) == label_frame(other.label)
        &&& self.direct_drag == other.direct_drag
        &&& forall|k: FieldKind| #[trigger] self.field_value(k) == other.field_value(k)
    }

    /// The same frame, but for the list of children.
    pub open spec fn same_frame_but_children(self, other: Element) -> bool {
        &&& self.id == other.id
        &&& self.shape@ == other.shape@
        &&& self.style == other.style
        &&& self.blur == other.blur
        &&& self.parent_element == other.parent_element
        &&& self.draggable == other.draggable
        &&& self.gradient_stops == other.gradient_stops
        &&& self.gradient_pos@.len() == other.gradient_pos@.len()
        &&& self.gradient_colors@.len() == other.gradient_colors@.len()
        &&& opt_string_view(self.svg) == opt_string_view(other.svg)
        &&& label_frame(self.label) == label_frame(other.label)
        &&& self.direct_drag == other.direct_drag
        &&& forall|k: FieldKind| #[trigger] self.field_value(k) == other.field_value(k)
    }

    /// `self` is `old` with `f` applied.
    pub open spec fn applied(self, old: Element, f: FieldSelector) -> bool {
        &&& self.same_frame(old)
        &&& forall|k: FieldKind| #[trigger] self.field_value(k) == if k == f.kind() && old.accepts(f) {
            Some(f)
        } else {
            old.field_value(k)
        }
    }

    pub fn get_svg(&self) -> (r: &Option<String>)
        ensures
            r == &self.svg,
    {
        &self.svg
    }

    pub fn get_id(&self) -> (r: usize)
        ensures
            r == self.id,
    {
        self.id
    }

    pub fn get_parent(&self) -> (r: usize)
        ensures
            r == self.parent_element,
    {
        self.parent_element
    }

    pub fn children(&self) -> (r: &[usize])
        ensures
            r@ == self.children_elems@,
    {
        self.children_elems.as_slice()
    }

    pub fn get_size(&self) -> (r: (i32, i32))
        ensures
            r == (self.width, self.height),
    {
        (self.width, self.height)
    }

    /// The current value of the field of kind `k`, if the element has one.
    pub fn get(&self, k: FieldKind) -> (r: Option<FieldSelector>)
        ensures
            r == self.field_value(k),
    {
        match k {
            FieldKind::X => Some(FieldSelector::X(self.x)),
            FieldKind::Y => Some(FieldSelector::Y(self.y)),
            FieldKind::Width => Some(FieldSelector::Width(self.width)),
            FieldKind::Height => Some(FieldSelector::Height(self.height)),
            FieldKind::BGColor => Some(FieldSelector::BGColor(self.bgcolor)),
            FieldKind::GradientStart => match self.gradient_start {
                Some(p) => Some(FieldSelector::GradientStart(p)),
                None => None,
            },
            FieldKind::GradientEnd => match self.gradient_end {
                Some(p) => Some(FieldSelector::GradientEnd(p)),
                None => None,
            },
            FieldKind::LabelText => match &self.label {
                Some(l) => Some(FieldSelector::LabelText(l.string)),
                None => None,
            },
            FieldKind::LabelColor => match &self.label {
                Some(l) => Some(FieldSelector::LabelColor(l.color)),
                None => None,
            },
            FieldKind::GradientPos0 => if 0 < self.gradient_pos.len() { Some(FieldSelector::GradientPos0(self.gradient_pos[0])) } else { None },
            FieldKind::GradientPos1 => if 1 < self.gradient_pos.len() { Some(FieldSelector::GradientPos1(self.gradient_pos[1])) } else { None },
            FieldKind::GradientPos2 => if 2 < self.gradient_pos.len() { Some(FieldSelector::GradientPos2(self.gradient_pos[2])) } else { None },
            FieldKind::GradientPos3 => if 3 < self.gradient_pos.len() { Some(FieldSelector::GradientPos3(self.gradient_pos[3])) } else { None },
            FieldKind::GradientColors0 => if 0 < self.gradient_colors.len() { Some(FieldSelector::GradientColors0(self.gradient_colors[0])) } else { None },
            FieldKind::GradientColors1 => if 1 < self.gradient_colors.len() { Some(FieldSelector::GradientColors1(self.gradient_colors[1])) } else { None },
            FieldKind::GradientColors2 => if 2 < self.gradient_colors.len() { Some(FieldSelector::GradientColors2(self.gradient_colors[2])) } else { None },
            FieldKind::GradientColors3 => if 3 < self.gradient_colors.len() { Some(FieldSelector::GradientColors3(self.gradient_colors[3])) } else { None },
        }
    }

    fn set_pos(&mut self, i: usize, v: i32)
        requires
            i < 4,
        ensures
            final(self).gradient_pos@ == if i < old(self).gradient_pos@.len() {
                old(self).gradient_pos@.update(i as int, v)
            } else {
                old(self).gradient_pos@
            },
            final(self).gradient_colors == old(self).gradient_colors,
            final(self).id == old(self).id,
            final(self).shape == old(self).shape,
            final(self).style == old(self).style,
            final(self).blur == old(self).blur,
            final(self).bgcolor == old(self).bgcolor,
            final(self).x == old(self).x,
            final(self).y == old(self).y,
            final(self).width == old(self).width,
            final(self).height == old(self).height,
            final(self).children_elems == old(self).children_elems,
            final(self).parent_element == old(self).parent_element,
            final(self).draggable == old(self).draggable,
            final(self).gradient_stops == old(self).gradient_stops,
            final(self).gradient_start == old(self).gradient_start,
            final(self).gradient_end == old(self).gradient_end,
            final(self).svg == old(self).svg,
            final(self).label == old(self).label,
            final(self).direct_drag == old(self).direct_drag,
    {
        if i < self.gradient_pos.len() {
            self.gradient_pos.set(i, v);
        }
    }

    fn set_color(&mut self, i: usize, v: Vec4)
        requires
            i < 4,
        ensures
            final(self).gradient_colors@ == if i < old(self).gradient_colors@.len() {
                old(self).gradient_colors@.update(i as int, v)
            } else {
                old(self).gradient_colors@
            },
            final(self).gradient_pos == old(self).gradient_pos,
            final(self).id == old(self).id,
            final(self).shape == old(self).shape,
            final(self).style == old(self).style,
            final(self).blur == old(self).blur,
            final(self).bgcolor == old(self).bgcolor,
            final(self).x == old(self).x,
            final(self).y == old(self).y,
            final(self).width == old(self).width,
            final(self).height == old(self).height,
            final(self).children_elems == old(self).children_elems,
            final(self).parent_element == old(self).parent_element,
            final(self).draggable == old(self).draggable,
            final(self).gradient_stops == old(self).gradient_stops,
            final(self).gradient_start == old(self).gradient_start,
            final(self).gradient_end == old(self).gradient_end,
            final(self).svg == old(self).svg,
            final(self).label == old(self).label,
            final(self).direct_drag == old(self).direct_drag,
    {
        if i < self.gradient_colors.len() {
            self.gradient_colors.set(i, v);
        }
    }

    /// Applies one field mutation; a gradient stop or label that the
    /// element lacks leaves it unchanged.
    pub fn set(&mut self, field: FieldSelector)
        ensures
            final(self).applied(*old(self), field),
    {
        match field {
            FieldSelector::X(value) => { self.x = value; },
            FieldSelector::Y(value) => { self.y = value; },
            FieldSelector::Width(value) => { self.width = value; },
            FieldSelector::Height(value) => { self.height = value; },
            FieldSelector::BGColor(value) => { self.bgcolor = value; },
            FieldSelector::GradientPos0(value) => { self.set_pos(0, value); },
            FieldSelector::GradientColors0(value) => { self.set_color(0, value); },
            FieldSelector::GradientPos1(value) => { self.set_pos(1, value); },
            FieldSelector::GradientColors1(value) => { self.set_color(1, value); },
            FieldSelector::GradientPos2(value) => { self.set_pos(2, value); },
            FieldSelector::GradientColors2(value) => { self.set_color(2, value); },
            FieldSelector::GradientPos3(value) => { self.set_pos(3, value); },
            FieldSelector::GradientColors3(value) => { self.set_color(3, value); },
            FieldSelector::GradientStart(value) => { self.gradient_start = Some(value); },
            FieldSelector::GradientEnd(value) => { self.gradient_end = Some(value); },
            FieldSelector::LabelText(value) => {
                if let Some(l) = &mut self.label {
                    l.string = value;
                }
            },
            FieldSelector::LabelColor(value) => {
                if let Some(l) = &mut self.label {
                    l.color = value;
                }
            },
        }
        assert forall|k: FieldKind| #[trigger] self.field_value(k) == if k == field.kind() && old(self).accepts(field) {
            Some(field)
        } else {
            old(self).field_value(k)
        } by {}
    }
}

impl Element {
    /// Where the element is drawn: with direct dragging on, the drag offset
    /// is added to the committed position (saturating).
    pub fn get_position(&self) -> (r: (i32, i32))
        ensures
            r == (match self.draggable {
                Some(d) if self.direct_drag => (
                    clamp_i32(self.x + d.drag_x) as i32,
                    clamp_i32(self.y + d.drag_y) as i32,
                ),
                _ => (self.x, self.y),
            }),
    {
        match self.draggable {
            Some(d) if self.direct_drag => (add_clamped(self.x, d.drag_x), add_clamped(self.y, d.drag_y)),
            _ => (self.x, self.y),
        }
    }
}

impl Draggable for Element {
    open spec fn drag_offset(&self) -> Option<DraggableElement> {
        self.draggable
    }

    open spec fn base(&self) -> (i32, i32) {
        (self.x, self.y)
    }

    open spec fn same_apart_from_drag(&self, other: &Self) -> bool {
        &&& self.id == other.id
        &&& self.shape@ == other.shape@
        &&& self.style == other.style
        &&& self.blur == other.blur
        &&& self.bgcolor == other.bgcolor
        &&& self.width == other.width
        &&& self.height == other.height
        &&& self.children_elems@ == other.children_elems@
        &&& self.parent_element == other.parent_element
        &&& self.gradient_stops == other.gradient_stops
        &&& self.gradient_pos@ == other.gradient_pos@
        &&& self.gradient_colors@ == other.gradient_colors@
        &&& self.gradient_start == other.gradient_start
        &&& self.gradient_end == other.gradient_end
        &&& opt_string_view(self.svg) == opt_string_view(other.svg)
        &&& self.label == other.label
        &&& self.direct_drag == other.direct_drag
    }

    fn is_draggable(&self) -> (r: bool) {
        self.draggable.is_some()
    }

    fn process_drag(&mut self, x: i32, y: i32) {
        if self.draggable.is_some() {
            self.draggable = Some(DraggableElement { drag_x: x, drag_y: y });
        }
    }

    fn process_drop(&mut self) {
        if let Some(d) = self.draggable {
            self.x = add_clamped(self.x, d.drag_x);
            self.y = add_clamped(self.y, d.drag_y);
            self.draggable = Some(DraggableElement { drag_x: 0, drag_y: 0 });
        }
    }

    fn process_cancel(&mut self) {
        if self.draggable.is_some() {
            self.draggable = Some(DraggableElement { drag_x: 0, drag_y: 0 });
        }
    }
}

/// The configuration of an element before it is inserted into the store.
pub struct ElemBuilder {
    pub shape: Vec<ShapeSegment>,
    pub style: Option<LineStyle>,
    pub blur: bool,
    pub bgcolor: Vec4,
    pub x: i32,
    pub y: i32,
    pub width: i32,
    pub height: i32,
    pub draggable: bool,
    pub gradient_stops: u8,
    pub gradient_pos: Vec<i32>,
    pub gradient_colors: Vec<Vec4>,
    pub gradient_start: Option<(i32, i32)>,
    pub gradient_end: Option<(i32, i32)>,
    pub svg: Option<String>,
    pub label: Option<RenderableString>,
    pub direct_drag: bool,
}

/// The outline of the unit square, closed.
pub open spec fn unit_square() -> Seq<ShapeSegment> {
    seq![
        ShapeSegment { x: 0, y: 0, style: None, event_id: None },
        ShapeSegment { x: 0, y: 1000, style: None, event_id: None },
        ShapeSegment { x: 1000, y: 1000, style: None, event_id: None },
        ShapeSegment { x: 1000, y: 0, style: None, event_id: None },
        ShapeSegment { x: 0, y: 0, style: None, event_id: None },
    ]
}

impl ElemBuilder {
    /// A box at `(x, y)` of size `w` by `h`, opaque black, with no outline.
    pub fn new(x: i32, y: i32, w: i32, h: i32) -> (b: ElemBuilder)
        ensures
            b.x == x && b.y == y && b.width == w && b.height == h,
            b.shape@.len() == 0,
            b.style.is_none(),
            !b.blur,
            b.bgcolor.channels() == seq![0int, 0, 0, 1000],
            !b.draggable,
            b.gradient_stops == 0,
            b.gradient_pos@.len() == 0,
            b.gradient_colors@.len() == 0,
            b.gradient_start.is_none(),
            b.gradient_end.is_none(),
            b.svg.is_none(),
            b.label.is_none(),
            !b.direct_drag,
    {
        ElemBuilder {
            shape: Vec::new(),
            style: None,
            blur: false,
            bgcolor: Vec4::new(0, 0, 0, 1000),
            x,
            y,
            width: w,
            height: h,
            draggable: false,
            gradient_stops: 0,
            gradient_pos: Vec::new(),
            gradient_colors: Vec::new(),
            gradient_start: None,
            gradient_end: None,
            svg: None,
            label: None,
            direct_drag: false,
        }
    }

    pub fn with_shape(self, shape: &[ShapeSegment]) -> (r: Self)
        ensures
            r == (ElemBuilder { shape: r.shape, ..self }),
            r.shape@ == shape@,
    {
        let mut v: Vec<ShapeSegment> = Vec::new();
        let mut i: usize = 0;
        while i < shape.len()
            invariant
                i <= shape@.len(),
                v@ == shape@.subrange(0, i as int),
            decreases shape@.len() - i,
        {
            v.push(shape[i]);
            i = i + 1;
        }
        assert(v@ =~= shape@);
        ElemBuilder { shape: v, ..self }
    }

    /// A filled rectangle: the unit-square outline with background `color`.
    pub fn filled_rect(self, color: &[i32; 4]) -> (r: Self)
        ensures
            r == (ElemBuilder { shape: r.shape, bgcolor: Vec4 { val: *color }, ..self }),
            r.shape@ == unit_square(),
    {
        let shape = vec![
            ShapeSegment::new(0, 0),
            ShapeSegment::new(0, 1000),
            ShapeSegment::new(1000, 1000),
            ShapeSegment::new(1000, 0),
            ShapeSegment::new(0, 0),
        ];
        assert(shape@ =~= unit_square());
        ElemBuilder { shape, bgcolor: Vec4 { val: *color }, ..self }
    }

    /// A label reading `value` (its first 256 characters) in `font`.
    pub fn with_label(self, value: &str, font: &str, size: i32, color: Vec4) -> (r: Self)
        ensures
            r == (ElemBuilder { label: r.label, ..self }),
            r.label is Some,
            r.label->Some_0.string@ == sized_chars(value@),
            r.label->Some_0.font@ == font@,
            r.label->Some_0.font_size == size,
            r.label->Some_0.color == color,
    {
        let label = RenderableString {
            string: <SizedStr as Sizing<&str>>::sizify(value),
            font_size: size,
            color,
            font: font.to_owned(),
        };
        ElemBuilder { label: Some(label), ..self }
    }

    pub fn with_line_style(self, line_style: &LineStyle) -> (r: Self)
        ensures
            r == (ElemBuilder { style: Some(*line_style), ..self }),
    {
        ElemBuilder { style: Some(*line_style), ..self }
    }

    pub fn blur_on(self) -> (r: Self)
        ensures
            r == (ElemBuilder { blur: true, ..self }),
    {
        ElemBuilder { blur: true, ..self }
    }

    /// While dragged, the element is drawn at its position plus the offset.
    pub fn direct_drag(self) -> (r: Self)
        ensures
            r == (ElemBuilder { direct_drag: true, ..self }),
    {
        ElemBuilder { direct_drag: true, ..self }
    }

    pub fn with_background(self, color: &[i32; 4]) -> (r: Self)
        ensures
            r == (ElemBuilder { bgcolor: Vec4 { val: *color }, ..self }),
    {
        ElemBuilder { bgcolor: Vec4 { val: *color }, ..self }
    }

    pub fn draggable(self) -> (r: Self)
        ensures
            r == (ElemBuilder { draggable: true, ..self }),
    {
        ElemBuilder { draggable: true, ..self }
    }

    /// An image drawn from the named vector graphic.
    pub fn svg(self, svg: &str) -> (r: Self)
        ensures
            r == (ElemBuilder { svg: r.svg, ..self }),
            opt_string_view(r.svg) == Some(svg@),
    {
        ElemBuilder { svg: Some(svg.to_owned()), ..self }
    }

    /// A gradient of `n` stops, between 2 and 10.
    pub fn with_gradient(self, n: u8, pos: Vec<i32>, colors: Vec<Vec4>, start: (i32, i32), end: (i32, i32)) -> (r: Self)
        requires
            2 <= n <= 10,
        ensures
            r == (ElemBuilder {
                gradient_stops: n,
                gradient_pos: pos,
                gradient_colors: colors,
                gradient_start: Some(start),
                gradient_end: Some(end),
                ..self
            }),
    {
        ElemBuilder {
            gradient_stops: n,
            gradient_pos: pos,
            gradient_colors: colors,
            gradient_start: Some(start),
            gradient_end: Some(end),
            ..self
        }
    }

    /// The element, with no parent and no children yet.
    pub fn build(&self) -> (e: Element)
        ensures
            e.id == 0,
            e.parent_element == 0,
            e.children_elems@.len() == 0,
            e.x == self.x && e.y == self.y && e.width == self.width && e.height == self.height,
            opt_string_view(e.svg) == opt_string_view(self.svg),
            e.built_from(*self),
    {
        Element {
            id: 0,
            shape: self.shape.clone(),
            style: self.style,
            blur: self.blur,
            bgcolor: self.bgcolor,
            x: self.x,
            y: self.y,
            width: self.width,
            height: self.height,
            children_elems: Vec::new(),
            parent_element: 0,
            draggable: if self.draggable { Some(DraggableElement { drag_x: 0, drag_y: 0 }) } else { None },
            gradient_stops: self.gradient_stops,
            gradient_pos: self.gradient_pos.clone(),
            gradient_colors: self.gradient_colors.clone(),
            gradient_start: self.gradient_start,
            gradient_end: self.gradient_end,
            svg: match &self.svg { Some(s) => Some(s.clone()), None => None },
            label: match &self.label { Some(l) => Some(l.duplicate()), None => None },
            direct_drag: self.direct_drag,
        }
    }
}

impl Element {
    /// `self` is what `b` builds.
    pub open spec fn built_from(self, b: ElemBuilder) -> bool {
        &&& self.id == 0
        &&& self.parent_element == 0
        &&& self.children_elems@.len() == 0
        &&& self.shape@ == b.shape@
        &&& self.style == b.style
        &&& self.blur == b.blur
        &&& self.bgcolor == b.bgcolor
        &&& self.x == b.x
        &&& self.y == b.y
        &&& self.width == b.width
        &&& self.height == b.height
        &&& self.draggable == (if b.draggable {
            Some(DraggableElement { drag_x: 0, drag_y: 0 })
        } else {
            None::<DraggableElement>
        })
        &&& self.gradient_stops == b.gradient_stops
        &&& self.gradient_pos@ == b.gradient_pos@
        &&& self.gradient_colors@ == b.gradient_colors@
        &&& self.gradient_start == b.gradient_start
        &&& self.gradient_end == b.gradient_end
        &&& opt_string_view(self.svg) == opt_string_view(b.svg)
        &&& label_frame(self.label) == label_frame(b.label)
        &&& (self.label is Some ==> self.label->Some_0.string == b.label->Some_0.string
            && self.label->Some_0.color == b.label->Some_0.color)
        &&& self.direct_drag == b.direct_drag
    }
}

} // verus!
