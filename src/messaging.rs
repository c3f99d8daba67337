//! The scene graph store: it owns every element, the binding table, the
//! handler table, the running animations and the user-event queue, and is
//! the single place where they change.
use vstd::prelude::*;
use multimap::MultiMap;
use crate::animation::{Animation, Animator};
use crate::binding::{Geom, Mapping, emitted, geom_of, lemma_ignored_gives_nothing, moved};
use crate::components::{Component, UserEvent, Widget, events_of};
use crate::element::{ElemBuilder, Element};
use crate::drag::{Draggable, DraggableElement, clamp_i32};
use crate::fields::{FieldKind, FieldSelector};
use crate::links::{Binding, kept, links_get, links_insert, links_new, links_of, links_retain, pruned};

verus! {

/// The kind of a message, without its payload.
#[derive(Clone, Copy, Debug, PartialEq, Eq, Structural)]
pub enum MsgKind {
    AdvanceClock,
    MouseDown,
    MouseUp,
    MouseMove,
    Zoom,
    ShowScenery,
    KeyDown,
    KeyUp,
    ResizeViewport,
    DragEvent,
    DropEvent,
    AnimationFinished,
}

/// A discrete input message. Times are in milliseconds, a zoom step in
/// thousandths.
#[derive(Clone, Copy, Debug)]
pub enum Msg {
    AdvanceClock(u32),
    MouseDown(i32, i32),
    MouseUp(i32, i32),
    MouseMove(i32, i32),
    Zoom(i32),
    ShowScenery(bool),
    KeyDown(u32),
    KeyUp(u32),
    ResizeViewport(i32, i32),
    DragEvent(i32, i32),
    DropEvent(i32, i32),
    AnimationFinished,
}

impl Msg {
    pub open spec fn kind_of(self) -> MsgKind {
        match self {
            Msg::AdvanceClock(..) => MsgKind::AdvanceClock,
            Msg::MouseDown(..) => MsgKind::MouseDown,
            Msg::MouseUp(..) => MsgKind::MouseUp,
            Msg::MouseMove(..) => MsgKind::MouseMove,
            Msg::Zoom(..) => MsgKind::Zoom,
            Msg::ShowScenery(..) => MsgKind::ShowScenery,
            Msg::KeyDown(..) => MsgKind::KeyDown,
            Msg::KeyUp(..) => MsgKind::KeyUp,
            Msg::ResizeViewport(..) => MsgKind::ResizeViewport,
            Msg::DragEvent(..) => MsgKind::DragEvent,
            Msg::DropEvent(..) => MsgKind::DropEvent,
            Msg::AnimationFinished => MsgKind::AnimationFinished,
        }
    }

    /// The kind of the message: handlers are registered per kind, whatever
    /// the payload.
    pub fn kind(&self) -> (k: MsgKind)
        ensures
            k == self.kind_of(),
    {
        match self {
            Msg::AdvanceClock(..) => MsgKind::AdvanceClock,
            Msg::MouseDown(..) => MsgKind::MouseDown,
            Msg::MouseUp(..) => MsgKind::MouseUp,
            Msg::MouseMove(..) => MsgKind::MouseMove,
            Msg::Zoom(..) => MsgKind::Zoom,
            Msg::ShowScenery(..) => MsgKind::ShowScenery,
            Msg::KeyDown(..) => MsgKind::KeyDown,
            Msg::KeyUp(..) => MsgKind::KeyUp,
            Msg::ResizeViewport(..) => MsgKind::ResizeViewport,
            Msg::DragEvent(..) => MsgKind::DragEvent,
            Msg::DropEvent(..) => MsgKind::DropEvent,
            Msg::AnimationFinished => MsgKind::AnimationFinished,
        }
    }
}

/// What a handler does when its message arrives: it describes an effect
/// and never touches the store itself.
#[derive(Clone, Copy, Debug)]
pub enum HandlerCallback {
    /// Asks for a field mutation.
    SetField(usize, FieldSelector),
    /// Asks for the removal of an element and its subtree.
    RemoveElement(usize),
    /// Asks for the removal of a handler.
    RemoveHandler(usize, Msg),
    /// Asks for the animation to be started from the beginning.
    StartAnimation(Animation),
    /// Collapses `target` to height zero, remembering its height in `saved`,
    /// or restores the remembered height when it is collapsed.
    ToggleHeight { target: usize, saved: i32 },
}

/// A deferred mutation of the store.
#[derive(Debug)]
pub enum HandlerImpact {
    AddBind(usize, usize, Mapping),
    StartAnimation(Animator, Option<HandlerCallback>),
    RegisterHandler(usize, Msg, HandlerCallback),
    RemoveHandler(usize, Msg),
    AddElement(Element, usize),
    RemoveElement(usize),
    SetField(usize, FieldSelector),
    Nothing,
}

/// A running animation and the callback to run when it finishes.
#[derive(Debug)]
pub struct StoredAnimation {
    pub animator: Animator,
    pub on_finish: Option<HandlerCallback>,
}

/// One entry of the handler table.
#[derive(Clone, Copy, Debug)]
pub struct HandlerEntry {
    pub target_id: usize,
    pub kind: MsgKind,
    pub callback: HandlerCallback,
}

/// Propagation of one mutation applies at most this many values; a binding
/// cycle is cut off there.
pub const MAX_PROPAGATION: u32 = 100_000;

pub struct HandlersBean {
    elements: Vec<Element>,
    slots: Vec<Option<usize>>,
    next_id: usize,
    animations: Vec<StoredAnimation>,
    dep_links: MultiMap<usize, Binding>,
    elem_handlers: Vec<HandlerEntry>,
    components: Vec<Widget>,
    event_queue: Vec<UserEvent>,
}

impl HandlersBean {
    pub closed spec fn elems(self) -> Seq<Element> {
        self.elements@
    }

    pub closed spec fn slot_table(self) -> Seq<Option<usize>> {
        self.slots@
    }

    pub closed spec fn id_bound(self) -> nat {
        self.next_id as nat
    }

    pub closed spec fn links(self) -> Map<usize, Seq<Binding>> {
        links_of(self.dep_links)
    }

    pub closed spec fn handlers(self) -> Seq<HandlerEntry> {
        self.elem_handlers@
    }

    pub closed spec fn running(self) -> Seq<StoredAnimation> {
        self.animations@
    }

    pub closed spec fn events(self) -> Seq<UserEvent> {
        self.event_queue@
    }

    pub closed spec fn widgets(self) -> Seq<Widget> {
        self.components@
    }

    /// Whether an element with id `id` is alive.
    pub open spec fn present(self, id: usize) -> bool {
        &&& id < self.slot_table().len()
        &&& self.slot_table()[id as int] is Some
    }

    /// The storage index of a live element.
    pub open spec fn index(self, id: usize) -> int {
        self.slot_table()[id as int]->Some_0 as int
    }

    /// The live element with id `id`.
    pub open spec fn elem(self, id: usize) -> Element {
        self.elems()[self.index(id)]
    }

    pub open spec fn parent_of(self, id: usize) -> usize {
        self.elem(id).parent_element
    }

    /// `id` is `ancestor` or lies in its subtree.
    pub open spec fn under(self, id: usize, ancestor: usize) -> bool
        decreases id,
    {
        id == ancestor || (self.present(id) && id != 0 && self.parent_of(id) < id
            && self.under(self.parent_of(id), ancestor))
    }

    /// The callback registered for (`id`, `kind`), if any.
    pub open spec fn handler(self, id: usize, kind: MsgKind) -> Option<HandlerCallback> {
        find_handler(self.handlers(), id, kind)
    }

    /// Whether a binding from `source` to `target` exists.
    pub open spec fn linked(self, source: usize, target: usize) -> bool {
        &&& self.links().contains_key(source)
        &&& exists|i: int| 0 <= i < self.links()[source].len() && (#[trigger] self.links()[source][i]).target == target
    }

    pub closed spec fn wf(self) -> bool {
        let e = self.elements@;
        &&& e.len() > 0
        &&& e[0].id == 0
        &&& e[0].parent_element == 0
        &&& self.slots@.len() == self.next_id
        &&& forall|i: int, j: int| 0 <= i < j < e.len() ==> (#[trigger] e[i]).id < (#[trigger] e[j]).id
        &&& forall|i: int| 0 <= i < e.len() ==> (#[trigger] e[i]).id < self.next_id
        &&& forall|i: int| 0 <= i < e.len() ==> self.slots@[(#[trigger] e[i]).id as int] == Some(i as usize)
        &&& forall|id: int| 0 <= id < self.slots@.len() && (#[trigger] self.slots@[id]) is Some
            ==> self.slots@[id]->Some_0 < e.len() && e[self.slots@[id]->Some_0 as int].id == id
        &&& forall|i: int| 0 < i < e.len() ==> {
            let p = (#[trigger] e[i]).parent_element;
            &&& p < e[i].id
            &&& p < self.slots@.len()
            &&& self.slots@[p as int] is Some
        }
        &&& forall|i: int, c: usize| 0 <= i < e.len() ==> (#[trigger] e[i].children_elems@.contains(c) <==> (
            c != 0 && c < self.slots@.len() && self.slots@[c as int] is Some
            && e[self.slots@[c as int]->Some_0 as int].parent_element == e[i].id))
        &&& forall|i: int| 0 <= i < e.len() ==> (#[trigger] e[i]).children_elems@.no_duplicates()
        &&& forall|k: usize| #[trigger] links_of(self.dep_links).contains_key(k)
            ==> links_of(self.dep_links)[k].len() > 0
            && forall|j: int| 0 <= j < links_of(self.dep_links)[k].len()
                ==> (#[trigger] links_of(self.dep_links)[k][j]).map.wf()
        &&& forall|i: int| 0 <= i < self.animations@.len() ==> (#[trigger] self.animations@[i]).animator.wf()
        &&& forall|i: int, j: int| 0 <= i < j < self.elem_handlers@.len()
            ==> !((#[trigger] self.elem_handlers@[i]).target_id == (#[trigger] self.elem_handlers@[j]).target_id
                && self.elem_handlers@[i].kind == self.elem_handlers@[j].kind)
    }
}

proof fn lemma_push_contains(s: Seq<usize>, x: usize, c: usize)
    ensures
        s.push(x).contains(c) <==> (s.contains(c) || c == x),
{
    if s.contains(c) {
        let j = choose|j: int| 0 <= j < s.len() && s[j] == c;
        assert(s.push(x)[j] == c);
    }
    if c == x {
        assert(s.push(x)[s.len() as int] == c);
    }
    if s.push(x).contains(c) && c != x {
        let j = choose|j: int| 0 <= j < s.len() + 1 && s.push(x)[j] == c;
        assert(s[j] == c);
    }
}

/// The entry is keyed by (`id`, `kind`).
pub open spec fn entry_matches(e: HandlerEntry, id: usize, kind: MsgKind) -> bool {
    e.target_id == id && e.kind == kind
}

/// The callback of the last entry keyed by (`id`, `kind`).
pub open spec fn find_handler(hs: Seq<HandlerEntry>, id: usize, kind: MsgKind) -> Option<HandlerCallback>
    decreases hs.len(),
{
    if hs.len() == 0 {
        None
    } else if entry_matches(hs.last(), id, kind) {
        Some(hs.last().callback)
    } else {
        find_handler(hs.drop_last(), id, kind)
    }
}

proof fn lemma_find_absent(hs: Seq<HandlerEntry>, id: usize, kind: MsgKind)
    requires
        forall|j: int| 0 <= j < hs.len() ==> !entry_matches(#[trigger] hs[j], id, kind),
    ensures
        find_handler(hs, id, kind).is_none(),
    decreases hs.len(),
{
    if hs.len() > 0 {
        let init = hs.drop_last();
        assert forall|j: int| 0 <= j < init.len() implies !entry_matches(#[trigger] init[j], id, kind) by {
            assert(init[j] == hs[j]);
        }
        lemma_find_absent(init, id, kind);
    }
}

/// With keys unique, the entry keyed by (`id`, `kind`) is the one found.
proof fn lemma_find_unique(hs: Seq<HandlerEntry>, i: int, id: usize, kind: MsgKind)
    requires
        0 <= i < hs.len(),
        entry_matches(hs[i], id, kind),
        forall|a: int, b: int| 0 <= a < b < hs.len()
            ==> !((#[trigger] hs[a]).target_id == (#[trigger] hs[b]).target_id && hs[a].kind == hs[b].kind),
    ensures
        find_handler(hs, id, kind) == Some(hs[i].callback),
        forall|j: int| 0 <= j < hs.len() && j != i ==> !entry_matches(#[trigger] hs[j], id, kind),
    decreases hs.len(),
{
    assert forall|j: int| 0 <= j < hs.len() && j != i implies !entry_matches(#[trigger] hs[j], id, kind) by {
        if j < i {
            assert(!(hs[j].target_id == hs[i].target_id && hs[j].kind == hs[i].kind));
        } else {
            assert(!(hs[i].target_id == hs[j].target_id && hs[i].kind == hs[j].kind));
        }
    }
    if i < hs.len() - 1 {
        let init = hs.drop_last();
        assert forall|a: int, b: int| 0 <= a < b < init.len()
            implies !((#[trigger] init[a]).target_id == (#[trigger] init[b]).target_id && init[a].kind == init[b].kind) by {
            assert(init[a] == hs[a] && init[b] == hs[b]);
        }
        assert(init[i] == hs[i]);
        lemma_find_unique(init, i, id, kind);
    }
}

impl HandlersBean {
    /// `new` is `old` with `elem` inserted under `parent`, which yielded `r`.
    pub open spec fn added(old: HandlersBean, new: HandlersBean, elem: Element, parent: usize, r: Option<usize>) -> bool {
        if !old.present(parent) || old.id_bound() == usize::MAX {
            r.is_none() && new == old
        } else {
            let id = r->Some_0;
            &&& r is Some
            &&& id == old.id_bound()
            &&& !old.present(id)
            &&& new.id_bound() == old.id_bound() + 1
            &&& new.present(id)
            &&& new.parent_of(id) == parent
            &&& new.elem(id).children_elems@.len() == 0
            &&& forall|k: FieldKind| #[trigger] new.elem(id).field_value(k) == elem.field_value(k)
            &&& new.elem(id).same_config(elem)
            &&& forall|x: usize| x != id ==> (#[trigger] new.present(x) <==> old.present(x))
            &&& forall|x: usize| old.present(x) && x != parent ==> #[trigger] new.elem(x) == old.elem(x)
            &&& new.elem(parent).children_elems@ == old.elem(parent).children_elems@.push(id)
            &&& new.elem(parent).same_frame_but_children(old.elem(parent))
            &&& new.links() == old.links()
            &&& new.handlers() == old.handlers()
            &&& new.running() == old.running()
            &&& new.events() == old.events()
        }
    }

    /// A store that holds only the root element, id 0, of size `w` by `h`.
    pub fn new(w: i32, h: i32) -> (s: HandlersBean)
        ensures
            s.wf(),
            forall|x: usize| #[trigger] s.present(x) <==> x == 0,
            s.id_bound() == 1,
            s.elem(0).width == w,
            s.elem(0).height == h,
            s.elem(0).children_elems@.len() == 0,
            s.elem(0).parent_element == 0,
            s.links().is_empty(),
            s.handlers().len() == 0,
            s.running().len() == 0,
            s.events().len() == 0,
    {
        let root = ElemBuilder::new(0, 0, w, h).build();
        let s = HandlersBean {
            elements: vec![root],
            slots: vec![Some(0)],
            next_id: 1,
            animations: Vec::new(),
            dep_links: links_new(),
            elem_handlers: Vec::new(),
            components: Vec::new(),
            event_queue: Vec::new(),
        };
        proof {
            assert forall|i: int, c: usize| 0 <= i < s.elements@.len() implies (#[trigger] s.elements@[i].children_elems@.contains(c) <==> (
                c != 0 && c < s.slots@.len() && s.slots@[c as int] is Some
                && s.elements@[s.slots@[c as int]->Some_0 as int].parent_element == s.elements@[i].id)) by {
            }
        }
        s
    }

    /// The storage index of element `id`.
    pub fn index_of(&self, id: usize) -> (r: Option<usize>)
        requires
            self.wf(),
        ensures
            match r {
                Some(i) => self.present(id) && i as int == self.index(id) && i < self.elems().len()
                    && self.elems()[i as int].id == id,
                None => !self.present(id),
            },
    {
        if id < self.slots.len() {
            self.slots[id]
        } else {
            None
        }
    }

    /// The live element with id `id`.
    pub fn elem_by_id(&self, id: usize) -> (r: Option<&Element>)
        requires
            self.wf(),
        ensures
            match r {
                Some(e) => self.present(id) && *e == self.elem(id) && e.id == id,
                None => !self.present(id),
            },
    {
        match self.index_of(id) {
            Some(i) => Some(&self.elements[i]),
            None => None,
        }
    }

    /// The current value of field `kind` of element `id`.
    pub fn get(&self, id: usize, kind: FieldKind) -> (r: Option<FieldSelector>)
        requires
            self.wf(),
        ensures
            r == (if self.present(id) { self.elem(id).field_value(kind) } else { None }),
    {
        match self.index_of(id) {
            Some(i) => self.elements[i].get(kind),
            None => None,
        }
    }

    /// Inserts `elem` under `parent_id`. The new element gets the next unused
    /// id, never one of a live element; `None` when the parent is not alive.
    pub fn add_element(&mut self, elem: Element, parent_id: usize) -> (r: Option<usize>)
        requires
            old(self).wf(),
        ensures
            final(self).wf(),
            HandlersBean::added(*old(self), *final(self), elem, parent_id, r),
    {
        let pidx = match self.index_of(parent_id) {
            Some(p) => p,
            None => { return None; },
        };
        if self.next_id == usize::MAX {
            return None;
        }
        let id = self.next_id;
        let pos = self.elements.len();
        let mut element = elem;
        element.id = id;
        element.parent_element = parent_id;
        element.children_elems = Vec::new();
        let ghost e0 = self.elements@;
        let ghost s0 = self.slots@;
        proof {
            assert(!e0[pidx as int].children_elems@.contains(id));
            assert forall|i: int| 0 <= i < e0.len() implies (#[trigger] e0[i]).parent_element != id by {
                if i > 0 {
                    assert(e0[i].parent_element < e0[i].id);
                }
            }
        }
        self.elements[pidx].children_elems.push(id);
        self.elements.push(element);
        self.slots.push(Some(pos));
        self.next_id = id + 1;
        proof {
            let e = self.elements@;
            assert(e.len() == pos + 1);
            assert(e[pos as int] == element);
            assert(e[pidx as int].children_elems@ == e0[pidx as int].children_elems@.push(id));
            assert(forall|x: int| 0 <= x < pos ==> (#[trigger] e[x]).parent_element == e0[x].parent_element && e[x].id == e0[x].id);
            assert(forall|x: int| 0 <= x < pos && x != pidx ==> #[trigger] e[x] == e0[x]);
            assert(self.slots@ == s0.push(Some(pos)));
            assert(e0[pidx as int].id == parent_id);
            assert forall|i: int, c: usize| 0 <= i < e.len() implies (#[trigger] e[i].children_elems@.contains(c) <==> (
                c != 0 && c < self.slots@.len() && self.slots@[c as int] is Some
                && e[self.slots@[c as int]->Some_0 as int].parent_element == e[i].id)) by {
                if i < pos {
                    assert(e0[i].children_elems@.contains(c) <==> (
                        c != 0 && c < s0.len() && s0[c as int] is Some
                        && e0[s0[c as int]->Some_0 as int].parent_element == e0[i].id));
                }
                if c == id {
                    assert(self.slots@[c as int] == Some(pos));
                    if i == pidx {
                        lemma_push_contains(e0[i].children_elems@, id, c);
                    } else if i < pos {
                        assert(e[i] == e0[i]);
                        assert(e0[i].id != e0[pidx as int].id);
                    }
                } else if c < id {
                    assert(self.slots@[c as int] == s0[c as int]);
                    if s0[c as int] is Some {
                        let x = s0[c as int]->Some_0 as int;
                        assert(x < pos);
                        assert(e[x].parent_element == e0[x].parent_element);
                        assert(e0[x].parent_element != id);
                    }
                    if i == pidx {
                        lemma_push_contains(e0[i].children_elems@, id, c);
                    }
                } else {
                    if i == pidx {
                        lemma_push_contains(e0[i].children_elems@, id, c);
                    }
                }
            }
            assert forall|i: int| 0 <= i < e.len() implies (#[trigger] e[i]).children_elems@.no_duplicates() by {
                if i == pidx {
                    assert(e0[i].children_elems@.no_duplicates());
                }
            }
            assert forall|k: FieldKind| #[trigger] self.elem(id).field_value(k) == elem.field_value(k) by {
                assert(self.elem(id) == element);
            }
        }
        Some(id)
    }
}

/// Extending a binding chain by one more binding.
proof fn lemma_reaches_extend(s: HandlersBean, a: usize, n: usize, t: usize)
    requires
        s.reaches(a, n),
        s.linked(n, t),
    ensures
        s.reaches(a, t),
{
    let path = choose|path: Seq<usize>| path.len() > 0 && path[0] == a && path.last() == n
        && forall|k: int| 0 <= k < path.len() - 1 ==> s.linked(#[trigger] path[k], path[k + 1]);
    let p2 = path.push(t);
    assert forall|k: int| 0 <= k < p2.len() - 1 implies s.linked(#[trigger] p2[k], p2[k + 1]) by {
        if k < path.len() - 1 {
            assert(p2[k] == path[k] && p2[k + 1] == path[k + 1]);
        }
    }
    assert(p2[0] == a);
    assert(p2.last() == t);
    assert(p2.len() > 0 && p2[0] == a && p2.last() == t
        && forall|k: int| 0 <= k < p2.len() - 1 ==> s.linked(#[trigger] p2[k], p2[k + 1]));
}

proof fn lemma_reaches_one(s: HandlersBean, a: usize, t: usize)
    requires
        s.linked(a, t),
    ensures
        s.reaches(a, t),
{
    let path = seq![a, t];
    assert forall|k: int| 0 <= k < path.len() - 1 implies s.linked(#[trigger] path[k], path[k + 1]) by {
        assert(k == 0);
    }
    assert(path.len() > 0 && path[0] == a && path.last() == t
        && forall|k: int| 0 <= k < path.len() - 1 ==> s.linked(#[trigger] path[k], path[k + 1]));
}

proof fn lemma_reaches_self(s: HandlersBean, a: usize)
    ensures
        s.reaches(a, a),
{
    let path = seq![a];
    assert(path.len() > 0 && path[0] == a && path.last() == a
        && forall|k: int| 0 <= k < path.len() - 1 ==> s.linked(#[trigger] path[k], path[k + 1]));
}

/// `vs`, each paired with element `t`.
pub open spec fn tagged(t: usize, vs: Seq<FieldSelector>) -> Seq<(usize, FieldSelector)> {
    Seq::new(vs.len(), |i: int| (t, vs[i]))
}

/// What the bindings `bs` give, in order, for `v` applied to an element
/// whose geometry is now `g`: each binding's values paired with its target.
pub open spec fn fan_out(bs: Seq<Binding>, v: FieldSelector, g: Geom) -> Seq<(usize, FieldSelector)>
    decreases bs.len(),
{
    if bs.len() == 0 {
        Seq::empty()
    } else {
        fan_out(bs.drop_last(), v, g) + tagged(bs.last().target, emitted(bs.last().map.rules@, v, g))
    }
}

/// Depth-first propagation with at most `budget` steps: the last entry of
/// `stack` is taken off; if its element is alive, its value is applied (so
/// its geometry in `geoms` changes) and what the element's bindings give is
/// pushed. Returns the applied `(id, value)` pairs in order and what was
/// left on the stack when the budget ran out.
pub open spec fn propagation(
    links: Map<usize, Seq<Binding>>,
    geoms: Map<usize, Geom>,
    stack: Seq<(usize, FieldSelector)>,
    budget: nat,
) -> (Seq<(usize, FieldSelector)>, Seq<(usize, FieldSelector)>)
    decreases budget,
{
    if budget == 0 || stack.len() == 0 {
        (Seq::empty(), stack)
    } else {
        let (n, v) = stack.last();
        let rest = stack.drop_last();
        if !geoms.contains_key(n) {
            propagation(links, geoms, rest, (budget - 1) as nat)
        } else {
            let g = moved(geoms[n], v);
            let fan = if links.contains_key(n) { fan_out(links[n], v, g) } else { Seq::empty() };
            let (tr, left) = propagation(links, geoms.insert(n, g), rest + fan, (budget - 1) as nat);
            (seq![(n, v)] + tr, left)
        }
    }
}

/// The value of field `k` of element `x` after the pairs of `tr` were
/// applied in order to `e0`, the element before.
pub open spec fn last_value(tr: Seq<(usize, FieldSelector)>, x: usize, k: FieldKind, e0: Element) -> Option<FieldSelector>
    decreases tr.len(),
{
    if tr.len() == 0 {
        e0.field_value(k)
    } else if tr.last().0 == x && tr.last().1.kind() == k && e0.accepts(tr.last().1) {
        Some(tr.last().1)
    } else {
        last_value(tr.drop_last(), x, k, e0)
    }
}

proof fn lemma_applied_geom(new: Element, old: Element, f: FieldSelector)
    requires
        new.applied(old, f),
    ensures
        geom_of(new) == moved(geom_of(old), f),
{
    assert(new.field_value(FieldKind::X) == if FieldKind::X == f.kind() && old.accepts(f) { Some(f) } else { old.field_value(FieldKind::X) });
    assert(new.field_value(FieldKind::Y) == if FieldKind::Y == f.kind() && old.accepts(f) { Some(f) } else { old.field_value(FieldKind::Y) });
    assert(new.field_value(FieldKind::Width) == if FieldKind::Width == f.kind() && old.accepts(f) { Some(f) } else { old.field_value(FieldKind::Width) });
    assert(new.field_value(FieldKind::Height) == if FieldKind::Height == f.kind() && old.accepts(f) { Some(f) } else { old.field_value(FieldKind::Height) });
}

impl HandlersBean {
    /// The bindings whose source is `id`, in the order they were added.
    pub open spec fn bindings_from(self, id: usize) -> Seq<Binding> {
        if self.links().contains_key(id) {
            self.links()[id]
        } else {
            Seq::empty()
        }
    }

    /// The root is always alive.
    pub proof fn lemma_root_present(self)
        requires
            self.wf(),
        ensures
            self.present(0),
            self.id_bound() >= 1,
    {
        assert(self.slots@[self.elements@[0].id as int] == Some(0usize));
    }

    /// The geometry of every live element.
    pub open spec fn geoms(self) -> Map<usize, Geom> {
        Map::new(|id: usize| self.present(id), |id: usize| geom_of(self.elem(id)))
    }

    /// What applying `v` to element `id` pushes.
    pub open spec fn fan(self, id: usize, v: FieldSelector) -> Seq<(usize, FieldSelector)> {
        if self.present(id) && self.links().contains_key(id) {
            fan_out(self.links()[id], v, moved(geom_of(self.elem(id)), v))
        } else {
            Seq::empty()
        }
    }

    /// A chain of bindings leads from `a` to `b`.
    pub open spec fn reaches(self, a: usize, b: usize) -> bool {
        exists|path: Seq<usize>| path.len() > 0 && path[0] == a && path.last() == b
            && forall|k: int| 0 <= k < path.len() - 1 ==> self.linked(#[trigger] path[k], path[k + 1])
    }

    /// No chain of bindings that starts at `id` binds back to `id`.
    pub open spec fn no_feedback(self, id: usize) -> bool {
        forall|x: usize| #[trigger] self.reaches(id, x) ==> !self.linked(x, id)
    }

    /// Every binding of `id` takes no interest in `v`.
    pub open spec fn all_ignore(self, id: usize, v: FieldSelector) -> bool {
        self.links().contains_key(id) ==> forall|j: int| 0 <= j < self.links()[id].len()
            ==> (#[trigger] self.links()[id][j]).map.ignores(v)
    }

    /// Only field values may differ between `self` and `other`.
    pub open spec fn same_frames(self, other: HandlersBean) -> bool {
        &&& self.slot_table() == other.slot_table()
        &&& self.id_bound() == other.id_bound()
        &&& self.elems().len() == other.elems().len()
        &&& forall|i: int| 0 <= i < self.elems().len() ==> (#[trigger] self.elems()[i]).same_frame(other.elems()[i])
        &&& self.links() == other.links()
        &&& self.handlers() == other.handlers()
        &&& self.running() == other.running()
        &&& self.events() == other.events()
        &&& self.widgets() == other.widgets()
    }

    proof fn lemma_same_tree_wf(self, other: HandlersBean)
        requires
            other.wf(),
            self.slots@ == other.slots@,
            self.next_id == other.next_id,
            self.elements@.len() == other.elements@.len(),
            forall|i: int| 0 <= i < self.elements@.len() ==> (#[trigger] self.elements@[i]).same_tree(other.elements@[i]),
            self.dep_links == other.dep_links,
            self.animations == other.animations,
            self.elem_handlers == other.elem_handlers,
        ensures
            self.wf(),
    {
        let e = self.elements@;
        let e0 = other.elements@;
        assert(e[0].same_tree(e0[0]));
        assert forall|i: int, j: int| 0 <= i < j < e.len() implies (#[trigger] e[i]).id < (#[trigger] e[j]).id by {
            assert(e[i].same_tree(e0[i]) && e[j].same_tree(e0[j]));
        }
        assert forall|i: int| 0 <= i < e.len() implies (#[trigger] e[i]).id < self.next_id && self.slots@[e[i].id as int] == Some(i as usize) by {
            assert(e[i].same_tree(e0[i]));
        }
        assert forall|id: int| 0 <= id < self.slots@.len() && (#[trigger] self.slots@[id]) is Some
            implies self.slots@[id]->Some_0 < e.len() && e[self.slots@[id]->Some_0 as int].id == id by {
            assert(e[self.slots@[id]->Some_0 as int].same_tree(e0[self.slots@[id]->Some_0 as int]));
        }
        assert forall|i: int| 0 < i < e.len() implies ({
            let p = (#[trigger] e[i]).parent_element;
            &&& p < e[i].id
            &&& p < self.slots@.len()
            &&& self.slots@[p as int] is Some
        }) by {
            assert(e[i].same_tree(e0[i]));
        }
        assert forall|i: int, c: usize| 0 <= i < e.len() implies (#[trigger] e[i].children_elems@.contains(c) <==> (
            c != 0 && c < self.slots@.len() && self.slots@[c as int] is Some
            && e[self.slots@[c as int]->Some_0 as int].parent_element == e[i].id)) by {
            assert(e[i].same_tree(e0[i]));
            assert(e0[i].children_elems@.contains(c) <==> (
                c != 0 && c < other.slots@.len() && other.slots@[c as int] is Some
                && e0[other.slots@[c as int]->Some_0 as int].parent_element == e0[i].id));
            if c < self.slots@.len() && self.slots@[c as int] is Some {
                assert(e[self.slots@[c as int]->Some_0 as int].same_tree(e0[self.slots@[c as int]->Some_0 as int]));
            }
        }
        assert forall|i: int| 0 <= i < e.len() implies (#[trigger] e[i]).children_elems@.no_duplicates() by {
            assert(e[i].same_tree(e0[i]));
        }
    }

    proof fn lemma_same_frames_wf(self, other: HandlersBean)
        requires
            other.wf(),
            self.same_frames(other),
            self.dep_links == other.dep_links,
            self.animations == other.animations,
            self.elem_handlers == other.elem_handlers,
        ensures
            self.wf(),
    {
        assert forall|i: int| 0 <= i < self.elements@.len() implies (#[trigger] self.elements@[i]).same_tree(other.elements@[i]) by {
            assert(self.elems()[i].same_frame(other.elems()[i]));
        }
        self.lemma_same_tree_wf(other);
    }

    /// Applies `val` to element `id`, if alive, and pushes what its bindings
    /// give onto `stack`.
    fn apply_and_fan_out(&mut self, id: usize, val: FieldSelector, stack: &mut Vec<(usize, FieldSelector)>)
        requires
            old(self).wf(),
        ensures
            final(self).wf(),
            final(self).same_frames(*old(self)),
            forall|x: usize| old(self).present(x) && x != id ==> #[trigger] final(self).elem(x) == old(self).elem(x),
            old(self).present(id) ==> final(self).elem(id).applied(old(self).elem(id), val),
            final(stack)@.subrange(0, old(stack)@.len() as int) == old(stack)@,
            final(stack)@.len() >= old(stack)@.len(),
            forall|k: int| old(stack)@.len() <= k < final(stack)@.len()
                ==> old(self).present(id) && old(self).linked(id, (#[trigger] final(stack)@[k]).0),
            old(self).all_ignore(id, val) ==> final(stack)@ == old(stack)@,
            final(stack)@ == old(stack)@ + old(self).fan(id, val),
    {
        let pos = match self.index_of(id) {
            Some(p) => p,
            None => { return; },
        };
        let ghost s0 = *self;
        self.elements[pos].set(val);
        proof {
            assert(self.same_frames(s0));
            self.lemma_same_frames_wf(s0);
            assert forall|x: usize| s0.present(x) && x != id implies #[trigger] self.elem(x) == s0.elem(x) by {
                assert(s0.index(x) != pos);
            }
            lemma_applied_geom(self.elem(id), s0.elem(id), val);
        }
        let ghost st0 = stack@;
        let ghost g = geom_of(self.elements@[pos as int]);
        match links_get(&self.dep_links, id) {
            None => {},
            Some(links) => {
                let mut j: usize = 0;
                while j < links.len()
                    invariant
                        self.wf(),
                        links@ == self.links()[id],
                        self.links().contains_key(id),
                        pos < self.elems().len(),
                        stack@.subrange(0, st0.len() as int) == st0,
                        stack@.len() >= st0.len(),
                        forall|k: int| st0.len() <= k < stack@.len()
                            ==> self.linked(id, (#[trigger] stack@[k]).0),
                        s0.all_ignore(id, val) ==> stack@ == st0,
                        self.links() == s0.links(),
                        j <= links@.len(),
                        geom_of(self.elements@[pos as int]) == g,
                        stack@ == st0 + fan_out(links@.subrange(0, j as int), val, g),
                    decreases links@.len() - j,
                {
                    let b = &links[j];
                    proof {
                        let sub = links@.subrange(0, j + 1);
                        assert(sub.drop_last() =~= links@.subrange(0, j as int));
                        assert(sub.last() == links@[j as int]);
                    }
                    proof {
                        assert(self.links()[id][j as int].map.wf());
                    }
                    match b.map.map(&val, &self.elements[pos]) {
                        None => {
                            proof {
                                assert(tagged(b.target, emitted(b.map.rules@, val, g)) =~= Seq::<(usize, FieldSelector)>::empty());
                                assert(stack@ =~= st0 + fan_out(links@.subrange(0, j + 1), val, g));
                            }
                        },
                        Some(vs) => {
                            proof {
                                if s0.all_ignore(id, val) {
                                    assert(self.links()[id][j as int].map.ignores(val));
                                    lemma_ignored_gives_nothing(b.map.rules@, val, geom_of(self.elements@[pos as int]));
                                }
                            }
                            let mut k: usize = 0;
                            while k < vs.len()
                                invariant
                                    k <= vs@.len(),
                                    vs@.len() > 0,
                                    !s0.all_ignore(id, val),
                                    stack@.subrange(0, st0.len() as int) == st0,
                                    stack@.len() >= st0.len(),
                                    forall|q: int| st0.len() <= q < stack@.len()
                                        ==> self.linked(id, (#[trigger] stack@[q]).0),
                                    self.links().contains_key(id),
                                    links@ == self.links()[id],
                                    j < links@.len(),
                                    b == links@[j as int],
                                    vs@ == emitted(b.map.rules@, val, g),
                                    stack@ == st0 + fan_out(links@.subrange(0, j as int), val, g)
                                        + tagged(b.target, vs@.subrange(0, k as int)),
                                decreases vs@.len() - k,
                            {
                                let ghost before = stack@;
                                stack.push((b.target, vs[k]));
                                proof {
                                    assert(self.links()[id][j as int].target == b.target);
                                    assert(self.linked(id, b.target));
                                    assert(stack@.subrange(0, st0.len() as int) =~= before.subrange(0, st0.len() as int));
                                    assert(tagged(b.target, vs@.subrange(0, k + 1)) =~= tagged(b.target, vs@.subrange(0, k as int)).push((b.target, vs@[k as int])));
                                    assert(stack@ =~= st0 + fan_out(links@.subrange(0, j as int), val, g)
                                        + tagged(b.target, vs@.subrange(0, k + 1)));
                                }
                                k = k + 1;
                            }
                            proof {
                                assert(vs@.subrange(0, vs@.len() as int) =~= vs@);
                                assert(stack@ =~= st0 + fan_out(links@.subrange(0, j + 1), val, g));
                            }
                        },
                    }
                    j = j + 1;
                }
            },
        }
        proof {
            assert(forall|x: usize| s0.present(x) && x != id ==> #[trigger] self.elem(x) == s0.elem(x));
            assert(stack@.subrange(0, st0.len() as int) == st0);
            assert(self.elem(id) == self.elements@[pos as int]);
            if s0.links().contains_key(id) {
                let l = s0.links()[id];
                assert(l.subrange(0, l.len() as int) =~= l);
            } else {
                assert(stack@ =~= st0 + s0.fan(id, val));
            }
        }
    }
}

impl HandlersBean {
    /// `new` is `old` after `set(target, value)` returned `completed`: every
    /// live element holds, field by field, what the depth-first propagation
    /// of `propagation` applied to it last, and nothing else changes.
    pub open spec fn set_result(old: HandlersBean, new: HandlersBean, target: usize, value: FieldSelector, completed: bool) -> bool {
        let (tr, left) = propagation(old.links(), old.geoms(), seq![(target, value)], MAX_PROPAGATION as nat);
        &&& new.same_frames(old)
        &&& completed == (left.len() == 0)
        &&& forall|x: usize, k: FieldKind| old.present(x)
            ==> #[trigger] new.elem(x).field_value(k) == last_value(tr, x, k, old.elem(x))
        &&& !old.present(target) ==> completed
            && forall|x: usize| old.present(x) ==> #[trigger] new.elem(x) == old.elem(x)
        &&& old.present(target) && old.elem(target).accepts(value) && old.no_feedback(target)
            ==> new.elem(target).field_value(value.kind()) == Some(value)
        &&& old.present(target) && old.all_ignore(target, value) ==> completed
            && new.elem(target).applied(old.elem(target), value)
            && forall|x: usize| old.present(x) && x != target
                ==> #[trigger] new.elem(x) == old.elem(x)
        &&& forall|x: usize| old.present(x) && x != target && !old.reaches(target, x)
            ==> #[trigger] new.elem(x) == old.elem(x)
    }

    /// Applies `value` to element `target_id`, then propagates through the
    /// bindings depth first: each applied value is handed to every binding
    /// of its element, and what a binding gives is applied to its target in
    /// turn. Returns `false` when a binding cycle made propagation stop after
    /// `MAX_PROPAGATION` applications.
    pub fn set(&mut self, target_id: usize, value: FieldSelector) -> (completed: bool)
        requires
            old(self).wf(),
        ensures
            final(self).wf(),
            HandlersBean::set_result(*old(self), *final(self), target_id, value, completed),
    {
        let ghost s0 = *self;
        let mut stack: Vec<(usize, FieldSelector)> = Vec::new();
        assert(stack@.len() == 0);
        self.apply_and_fan_out(target_id, value, &mut stack);
        let ghost s1 = *self;
        proof {
            if stack@.len() > 0 {
                let first = stack@[0];
                assert(s0.present(target_id) && s0.linked(target_id, first.0));
                if s0.all_ignore(target_id, value) {
                    assert(stack@ == Seq::<(usize, FieldSelector)>::empty());
                }
            }
            lemma_reaches_self(s0, target_id);
            assert forall|k: int| 0 <= k < stack@.len() implies s0.reaches(target_id, (#[trigger] stack@[k]).0)
                && (s0.no_feedback(target_id) ==> stack@[k].0 != target_id) by {
                lemma_reaches_one(s0, target_id, stack@[k].0);
            }
            if s0.present(target_id) && s0.elem(target_id).accepts(value) {
                assert(self.elem(target_id).field_value(value.kind()) == Some(value));
            }
        }
        let ghost mut tr: Seq<(usize, FieldSelector)> = Seq::empty();
        proof {
            let init = seq![(target_id, value)];
            assert(init.last() == (target_id, value));
            assert(init.drop_last() =~= Seq::<(usize, FieldSelector)>::empty());
            if s0.present(target_id) {
                lemma_applied_geom(self.elem(target_id), s0.elem(target_id), value);
                assert(self.geoms() =~= s0.geoms().insert(target_id, moved(geom_of(s0.elem(target_id)), value)));
                assert(Seq::<(usize, FieldSelector)>::empty() + s0.fan(target_id, value) =~= stack@);
                tr = seq![(target_id, value)];
            } else {
                assert(stack@ =~= Seq::<(usize, FieldSelector)>::empty());
                assert(self.geoms() =~= s0.geoms());
            }
            let rest = propagation(s0.links(), self.geoms(), stack@, (MAX_PROPAGATION - 1) as nat);
            assert(tr + rest.0 =~= if s0.present(target_id) { seq![(target_id, value)] + rest.0 } else { rest.0 });
            assert forall|x: usize, k: FieldKind| s0.present(x)
                implies #[trigger] self.elem(x).field_value(k) == last_value(tr, x, k, s0.elem(x)) by {
                if s0.present(target_id) {
                    assert(tr.drop_last() =~= Seq::<(usize, FieldSelector)>::empty());
                    assert(tr.last() == (target_id, value));
                    assert(last_value(tr.drop_last(), x, k, s0.elem(x)) == s0.elem(x).field_value(k));
                    if x == target_id {
                        assert(self.elem(x).applied(s0.elem(x), value));
                    } else {
                        assert(self.elem(x) == s0.elem(x));
                    }
                } else {
                    assert(self.elem(x) == s0.elem(x));
                    assert(tr =~= Seq::<(usize, FieldSelector)>::empty());
                }
            }
        }
        let mut budget: u32 = MAX_PROPAGATION - 1;
        while stack.len() > 0 && budget > 0
            invariant
                self.wf(),
                self.same_frames(s0),
                forall|k: int| 0 <= k < stack@.len() ==> s0.reaches(target_id, (#[trigger] stack@[k]).0)
                    && (s0.no_feedback(target_id) ==> stack@[k].0 != target_id),
                s0.present(target_id) && s0.elem(target_id).accepts(value) && s0.no_feedback(target_id)
                    ==> self.elem(target_id).field_value(value.kind()) == Some(value),
                !s0.present(target_id) || s0.all_ignore(target_id, value) ==> stack@.len() == 0 && *self == s1,
                forall|x: usize| s0.present(x) && x != target_id && !s0.reaches(target_id, x)
                    ==> #[trigger] self.elem(x) == s0.elem(x),
                propagation(s0.links(), s0.geoms(), seq![(target_id, value)], MAX_PROPAGATION as nat) == (
                    tr + propagation(s0.links(), self.geoms(), stack@, budget as nat).0,
                    propagation(s0.links(), self.geoms(), stack@, budget as nat).1,
                ),
                forall|x: usize, k: FieldKind| s0.present(x)
                    ==> #[trigger] self.elem(x).field_value(k) == last_value(tr, x, k, s0.elem(x)),
            decreases budget,
        {
            let ghost sk = *self;
            let ghost st = stack@;
            let (n, v) = stack.pop().unwrap();
            proof {
                assert(st[st.len() - 1] == (n, v));
            }
            self.apply_and_fan_out(n, v, &mut stack);
            proof {
                assert forall|k: int| 0 <= k < stack@.len() implies s0.reaches(target_id, (#[trigger] stack@[k]).0)
                    && (s0.no_feedback(target_id) ==> stack@[k].0 != target_id) by {
                    if k < st.len() - 1 {
                        assert(stack@[k] == stack@.subrange(0, st.len() - 1)[k]);
                    } else {
                        assert(sk.linked(n, stack@[k].0));
                        assert(s0.linked(n, stack@[k].0));
                        lemma_reaches_extend(s0, target_id, n, stack@[k].0);
                    }
                }
                assert(st.drop_last() == st.subrange(0, st.len() - 1));
                assert(st.last() == (n, v));
                let b1 = (budget - 1) as nat;
                if sk.present(n) {
                    lemma_applied_geom(self.elem(n), sk.elem(n), v);
                    assert(self.geoms() =~= sk.geoms().insert(n, moved(geom_of(sk.elem(n)), v)));
                    assert(sk.links() == s0.links());
                    let rest = propagation(s0.links(), self.geoms(), stack@, b1);
                    assert(tr + (seq![(n, v)] + rest.0) =~= tr.push((n, v)) + rest.0);
                    let tr2 = tr.push((n, v));
                    assert forall|x: usize, k: FieldKind| s0.present(x)
                        implies #[trigger] self.elem(x).field_value(k) == last_value(tr2, x, k, s0.elem(x)) by {
                        assert(tr2.drop_last() =~= tr);
                        assert(sk.elem(x).field_value(k) == last_value(tr, x, k, s0.elem(x)));
                        if x == n {
                            assert(sk.elem(n).same_frame(s0.elem(n)));
                        }
                    }
                    tr = tr2;
                } else {
                    assert(self.geoms() =~= sk.geoms());
                    assert(stack@ =~= st.drop_last());
                }
            }
            budget = budget - 1;
        }
        stack.len() == 0
    }
}

impl HandlersBean {
    /// Adds a binding from `source_id` to `target_id` after those already
    /// there for `source_id`.
    pub fn add_bind(&mut self, source_id: usize, target_id: usize, map_fn: Mapping)
        requires
            old(self).wf(),
            map_fn.wf(),
        ensures
            final(self).wf(),
            final(self).links() == old(self).links().insert(
                source_id,
                if old(self).links().contains_key(source_id) {
                    old(self).links()[source_id].push(Binding { target: target_id, map: map_fn })
                } else {
                    seq![Binding { target: target_id, map: map_fn }]
                },
            ),
            final(self).elems() == old(self).elems(),
            final(self).slot_table() == old(self).slot_table(),
            final(self).id_bound() == old(self).id_bound(),
            final(self).handlers() == old(self).handlers(),
            final(self).running() == old(self).running(),
            final(self).events() == old(self).events(),
            final(self).widgets() == old(self).widgets(),
            final(self).bindings_from(source_id)
                == old(self).bindings_from(source_id).push(Binding { target: target_id, map: map_fn }),
            forall|k: usize| k != source_id ==> #[trigger] final(self).bindings_from(k) == old(self).bindings_from(k),
    {
        let ghost m0 = links_of(self.dep_links);
        links_insert(&mut self.dep_links, source_id, Binding { target: target_id, map: map_fn });
        proof {
            let m = links_of(self.dep_links);
            assert forall|k: usize| #[trigger] m.contains_key(k)
                implies m[k].len() > 0 && forall|j: int| 0 <= j < m[k].len() ==> (#[trigger] m[k][j]).map.wf() by {
                if k != source_id {
                    assert(m[k] == m0[k]);
                } else if m0.contains_key(k) {
                    assert forall|j: int| 0 <= j < m[k].len() implies (#[trigger] m[k][j]).map.wf() by {
                        if j < m0[k].len() {
                            assert(m[k][j] == m0[k][j]);
                        }
                    }
                }
            }
        }
    }

    /// The callback registered for `message_type`'s kind at `target_id`.
    pub fn get_handler(&self, target_id: usize, message_type: Msg) -> (r: Option<HandlerCallback>)
        requires
            self.wf(),
        ensures
            r == self.handler(target_id, message_type.kind_of()),
    {
        let kind = message_type.kind();
        match self.handler_position(target_id, kind) {
            Some(i) => Some(self.elem_handlers[i].callback),
            None => None,
        }
    }

    /// Where the entry for (`target_id`, `kind`) stands in the table.
    fn handler_position(&self, target_id: usize, kind: MsgKind) -> (r: Option<usize>)
        requires
            self.wf(),
        ensures
            match r {
                Some(i) => i < self.handlers().len() && entry_matches(self.handlers()[i as int], target_id, kind)
                    && self.handler(target_id, kind) == Some(self.handlers()[i as int].callback),
                None => self.handler(target_id, kind).is_none()
                    && forall|j: int| 0 <= j < self.handlers().len() ==> !entry_matches(#[trigger] self.handlers()[j], target_id, kind),
            },
    {
        let mut i: usize = 0;
        while i < self.elem_handlers.len()
            invariant
                self.wf(),
                i <= self.handlers().len(),
                forall|j: int| 0 <= j < i ==> !entry_matches(#[trigger] self.handlers()[j], target_id, kind),
            decreases self.handlers().len() - i,
        {
            let e = self.elem_handlers[i];
            if e.target_id == target_id && e.kind == kind {
                proof {
                    lemma_find_unique(self.handlers(), i as int, target_id, kind);
                }
                return Some(i);
            }
            i = i + 1;
        }
        proof {
            lemma_find_absent(self.handlers(), target_id, kind);
        }
        None
    }

    /// Registers `callback` for `message_type`'s kind at `target_id`,
    /// replacing the one registered there before.
    pub fn register_handler(&mut self, target_id: usize, message_type: Msg, callback: HandlerCallback)
        requires
            old(self).wf(),
        ensures
            final(self).wf(),
            final(self).handler(target_id, message_type.kind_of()) == Some(callback),
            forall|id: usize, k: MsgKind| !(id == target_id && k == message_type.kind_of())
                ==> #[trigger] final(self).handler(id, k) == old(self).handler(id, k),
            final(self).elems() == old(self).elems(),
            final(self).slot_table() == old(self).slot_table(),
            final(self).id_bound() == old(self).id_bound(),
            final(self).links() == old(self).links(),
            final(self).running() == old(self).running(),
            final(self).events() == old(self).events(),
            final(self).widgets() == old(self).widgets(),
    {
        let kind = message_type.kind();
        let entry = HandlerEntry { target_id, kind, callback };
        let ghost h0 = self.elem_handlers@;
        let pos = self.handler_position(target_id, kind);
        match pos {
            Some(i) => { self.elem_handlers.set(i, entry); },
            None => { self.elem_handlers.push(entry); },
        }
        proof {
            let h = self.elem_handlers@;
            let i: int = match pos { Some(i) => i as int, None => h0.len() as int };
            assert(h[i] == entry);
            assert(forall|j: int| 0 <= j < h.len() && j != i ==> #[trigger] h[j] == h0[j]);
            assert forall|a: int, b: int| 0 <= a < b < h.len()
                implies !((#[trigger] h[a]).target_id == (#[trigger] h[b]).target_id && h[a].kind == h[b].kind) by {
                if a != i && b != i {
                    assert(h[a] == h0[a] && h[b] == h0[b]);
                } else if a == i {
                    assert(h[b] == h0[b]);
                    assert(!entry_matches(h0[b], target_id, kind) || b == i);
                } else {
                    assert(h[a] == h0[a]);
                    assert(!entry_matches(h0[a], target_id, kind));
                }
            }
            lemma_find_unique(h, i, target_id, kind);
            assert forall|id: usize, k: MsgKind| !(id == target_id && k == kind)
                implies #[trigger] self.handler(id, k) == old(self).handler(id, k) by {
                if exists|j: int| 0 <= j < h0.len() && entry_matches(#[trigger] h0[j], id, k) {
                    let j = choose|j: int| 0 <= j < h0.len() && entry_matches(#[trigger] h0[j], id, k);
                    lemma_find_unique(h0, j, id, k);
                    assert(h[j] == h0[j]);
                    lemma_find_unique(h, j, id, k);
                } else {
                    lemma_find_absent(h0, id, k);
                    assert forall|j: int| 0 <= j < h.len() implies !entry_matches(#[trigger] h[j], id, k) by {
                        if j != i {
                            assert(h[j] == h0[j]);
                        }
                    }
                    lemma_find_absent(h, id, k);
                }
            }
        }
    }

    /// Removes the callback registered for `message_type`'s kind at
    /// `target_id`, if any.
    pub fn remove_handler(&mut self, target_id: usize, message_type: Msg)
        requires
            old(self).wf(),
        ensures
            final(self).wf(),
            final(self).handler(target_id, message_type.kind_of()).is_none(),
            forall|id: usize, k: MsgKind| !(id == target_id && k == message_type.kind_of())
                ==> #[trigger] final(self).handler(id, k) == old(self).handler(id, k),
            final(self).elems() == old(self).elems(),
            final(self).slot_table() == old(self).slot_table(),
            final(self).id_bound() == old(self).id_bound(),
            final(self).links() == old(self).links(),
            final(self).running() == old(self).running(),
            final(self).events() == old(self).events(),
            final(self).widgets() == old(self).widgets(),
    {
        let kind = message_type.kind();
        let ghost h0 = self.elem_handlers@;
        match self.handler_position(target_id, kind) {
            None => {},
            Some(i) => {
                self.elem_handlers.remove(i);
                proof {
                    let h = self.elem_handlers@;
                    assert(h == h0.remove(i as int));
                    assert(forall|j: int| 0 <= j < i ==> #[trigger] h[j] == h0[j]);
                    assert(forall|j: int| i <= j < h.len() ==> #[trigger] h[j] == h0[j + 1]);
                    assert forall|a: int, b: int| 0 <= a < b < h.len()
                        implies !((#[trigger] h[a]).target_id == (#[trigger] h[b]).target_id && h[a].kind == h[b].kind) by {
                        let a0 = if a < i { a } else { a + 1 };
                        let b0 = if b < i { b } else { b + 1 };
                        assert(h[a] == h0[a0] && h[b] == h0[b0]);
                    }
                    assert forall|j: int| 0 <= j < h.len() implies !entry_matches(#[trigger] h[j], target_id, kind) by {
                        let j0 = if j < i { j } else { j + 1 };
                        assert(h[j] == h0[j0]);
                    }
                    lemma_find_absent(h, target_id, kind);
                    assert forall|id: usize, k: MsgKind| !(id == target_id && k == kind)
                        implies #[trigger] self.handler(id, k) == old(self).handler(id, k) by {
                        if exists|j: int| 0 <= j < h0.len() && entry_matches(#[trigger] h0[j], id, k) {
                            let j = choose|j: int| 0 <= j < h0.len() && entry_matches(#[trigger] h0[j], id, k);
                            lemma_find_unique(h0, j, id, k);
                            assert(j != i);
                            let jn = if j < i { j } else { j - 1 };
                            assert(h[jn] == h0[j]);
                            lemma_find_unique(h, jn, id, k);
                        } else {
                            lemma_find_absent(h0, id, k);
                            assert forall|j: int| 0 <= j < h.len() implies !entry_matches(#[trigger] h[j], id, k) by {
                                let j0 = if j < i { j } else { j + 1 };
                                assert(h[j] == h0[j0]);
                            }
                            lemma_find_absent(h, id, k);
                        }
                    }
                }
            },
        }
    }
}

impl HandlerImpact {
    pub open spec fn wf(&self) -> bool {
        match self {
            HandlerImpact::AddBind(_, _, m) => m.wf(),
            HandlerImpact::StartAnimation(a, _) => a.wf(),
            _ => true,
        }
    }
}

/// The height of element `id`, or zero when it is not alive.
pub open spec fn current_height(s: HandlersBean, id: usize) -> i32 {
    if s.present(id) {
        s.elem(id).height
    } else {
        0
    }
}

impl HandlerCallback {
    pub open spec fn wf(self) -> bool {
        match self {
            HandlerCallback::StartAnimation(a) => a.wf(),
            _ => true,
        }
    }

    /// The impact the callback describes in store `s`, and the callback's
    /// state afterwards.
    pub open spec fn response(self, s: HandlersBean) -> (HandlerImpact, HandlerCallback) {
        match self {
            HandlerCallback::SetField(id, v) => (HandlerImpact::SetField(id, v), self),
            HandlerCallback::RemoveElement(id) => (HandlerImpact::RemoveElement(id), self),
            HandlerCallback::RemoveHandler(id, m) => (HandlerImpact::RemoveHandler(id, m), self),
            HandlerCallback::StartAnimation(a) => if a.wf() {
                (HandlerImpact::StartAnimation(Animator::Single(a), None), self)
            } else {
                (HandlerImpact::Nothing, self)
            },
            HandlerCallback::ToggleHeight { target, saved } => {
                let h = current_height(s, target);
                if h != 0 {
                    (HandlerImpact::SetField(target, FieldSelector::Height(0)), HandlerCallback::ToggleHeight { target, saved: h })
                } else {
                    (HandlerImpact::SetField(target, FieldSelector::Height(saved)), self)
                }
            },
        }
    }

    /// Describes the impact of the callback on `store`, which it only reads.
    pub fn respond(&self, store: &HandlersBean) -> (r: (HandlerImpact, HandlerCallback))
        requires
            store.wf(),
        ensures
            r == self.response(*store),
            r.0.wf(),
    {
        match self {
            HandlerCallback::SetField(id, v) => (HandlerImpact::SetField(*id, *v), *self),
            HandlerCallback::RemoveElement(id) => (HandlerImpact::RemoveElement(*id), *self),
            HandlerCallback::RemoveHandler(id, m) => (HandlerImpact::RemoveHandler(*id, *m), *self),
            HandlerCallback::StartAnimation(a) => if a.is_valid() {
                (HandlerImpact::StartAnimation(Animator::Single(*a), None), *self)
            } else {
                (HandlerImpact::Nothing, *self)
            },
            HandlerCallback::ToggleHeight { target, saved } => {
                let h = match store.elem_by_id(*target) {
                    Some(e) => e.height,
                    None => 0,
                };
                if h != 0 {
                    (HandlerImpact::SetField(*target, FieldSelector::Height(0)), HandlerCallback::ToggleHeight { target: *target, saved: h })
                } else {
                    (HandlerImpact::SetField(*target, FieldSelector::Height(*saved)), *self)
                }
            },
        }
    }
}

impl HandlersBean {
    /// Starts `a`, with its clock restarted at `now`; `on_finish` runs when
    /// it has finished.
    pub fn start_animation(&mut self, a: Animator, on_finish: Option<HandlerCallback>, now: u64)
        requires
            old(self).wf(),
            a.wf(),
        ensures
            final(self).wf(),
            final(self).running().len() == old(self).running().len() + 1,
            final(self).running().drop_last() == old(self).running(),
            a.restarted(final(self).running().last().animator, now),
            final(self).running().last().on_finish == on_finish,
            final(self).elems() == old(self).elems(),
            final(self).slot_table() == old(self).slot_table(),
            final(self).id_bound() == old(self).id_bound(),
            final(self).links() == old(self).links(),
            final(self).handlers() == old(self).handlers(),
            final(self).events() == old(self).events(),
            final(self).widgets() == old(self).widgets(),
    {
        let mut animator = a;
        animator.reset(now);
        self.animations.push(StoredAnimation { animator, on_finish });
        proof {
            assert(self.running().drop_last() =~= old(self).running());
        }
    }

    /// Takes the finished animations out of the running list, keeping the
    /// others in order, and returns their completion callbacks in order.
    pub fn retire_finished(&mut self) -> (r: Vec<HandlerCallback>)
        requires
            old(self).wf(),
        ensures
            final(self).wf(),
            final(self).running() == unfinished(old(self).running()),
            r@ == finish_callbacks(old(self).running()),
            final(self).elems() == old(self).elems(),
            final(self).slot_table() == old(self).slot_table(),
            final(self).id_bound() == old(self).id_bound(),
            final(self).links() == old(self).links(),
            final(self).handlers() == old(self).handlers(),
            final(self).events() == old(self).events(),
            final(self).widgets() == old(self).widgets(),
    {
        let mut rest: Vec<StoredAnimation> = Vec::new();
        std::mem::swap(&mut rest, &mut self.animations);
        let ghost all = rest@;
        let n = rest.len();
        assert(all.len() == n);
        let mut kept: Vec<StoredAnimation> = Vec::new();
        let mut callbacks: Vec<HandlerCallback> = Vec::new();
        let mut i: usize = 0;
        while rest.len() > 0
            invariant
                rest@ == all.subrange(i as int, all.len() as int),
                i <= all.len(),
                kept@ == unfinished(all.subrange(0, i as int)),
                i + rest@.len() == all.len(),
                all.len() == n,
                forall|j: int| 0 <= j < kept@.len() ==> (#[trigger] kept@[j]).animator.wf(),
                callbacks@ == finish_callbacks(all.subrange(0, i as int)),
                forall|j: int| 0 <= j < all.len() ==> (#[trigger] all[j]).animator.wf(),
            decreases rest@.len(),
        {
            let a = rest.remove(0);
            proof {
                assert(a == all[i as int]);
                let pre = all.subrange(0, i as int);
                let next = all.subrange(0, i + 1);
                assert(next.drop_last() =~= pre);
                assert(next.last() == a);
                assert(all.subrange(i + 1, all.len() as int) =~= rest@);
            }
            if a.animator.is_finished() {
                match a.on_finish {
                    Some(cb) => callbacks.push(cb),
                    None => {},
                }
            } else {
                kept.push(a);
            }
            i = i + 1;
        }
        proof {
            assert(all.subrange(0, all.len() as int) =~= all);
        }
        self.animations = kept;
        callbacks
    }
}

/// A chain of `set` calls ending in `s` also ends in any state that has
/// the same elements, slots and bindings.
proof fn lemma_sets_applied_scene(old: HandlersBean, s: HandlersBean, s2: HandlersBean, vals: Seq<(usize, FieldSelector)>)
    requires
        HandlersBean::sets_applied(old, s, vals),
        s2.elems() == s.elems(),
        s2.slot_table() == s.slot_table(),
        s2.links() == s.links(),
    ensures
        HandlersBean::sets_applied(old, s2, vals),
{
    reveal(HandlersBean::sets_applied);
    if vals.len() > 0 {
        let (b, m, c) = choose|b: HandlersBean, m: HandlersBean, c: bool| {
            &&& HandlersBean::sets_applied(old, b, vals.drop_last())
            &&& #[trigger] HandlersBean::set_result(b, m, vals.last().0, vals.last().1, c)
            &&& s.elems() == m.elems()
            &&& s.slot_table() == m.slot_table()
            &&& s.links() == m.links()
        };
        assert(HandlersBean::set_result(b, m, vals.last().0, vals.last().1, c));
    }
}

/// The animations of `s` that have not finished, in order.
pub open spec fn unfinished(s: Seq<StoredAnimation>) -> Seq<StoredAnimation>
    decreases s.len(),
{
    if s.len() == 0 {
        Seq::empty()
    } else {
        let init = unfinished(s.drop_last());
        if s.last().animator.finished() {
            init
        } else {
            init.push(s.last())
        }
    }
}

/// The completion callbacks of the finished animations of `s`, in order.
pub open spec fn finish_callbacks(s: Seq<StoredAnimation>) -> Seq<HandlerCallback>
    decreases s.len(),
{
    if s.len() == 0 {
        Seq::empty()
    } else {
        let init = finish_callbacks(s.drop_last());
        if s.last().animator.finished() && s.last().on_finish is Some {
            init.push(s.last().on_finish->Some_0)
        } else {
            init
        }
    }
}

/// The animations of `s` that drive no element marked in `gone`, in order.
pub open spec fn untouched(s: Seq<StoredAnimation>, gone: Seq<bool>) -> Seq<StoredAnimation>
    decreases s.len(),
{
    if s.len() == 0 {
        Seq::empty()
    } else {
        let init = untouched(s.drop_last(), gone);
        if s.last().animator.hits(gone) {
            init
        } else {
            init.push(s.last())
        }
    }
}

/// No two entries of `s` share a key.
pub open spec fn keys_unique(s: Seq<HandlerEntry>) -> bool {
    forall|a: int, b: int| 0 <= a < b < s.len()
        ==> !((#[trigger] s[a]).target_id == (#[trigger] s[b]).target_id && s[a].kind == s[b].kind)
}

/// The entries of `s` whose element is not marked in `gone`, in order.
pub open spec fn handlers_kept(s: Seq<HandlerEntry>, gone: Seq<bool>) -> Seq<HandlerEntry>
    decreases s.len(),
{
    if s.len() == 0 {
        Seq::empty()
    } else {
        let init = handlers_kept(s.drop_last(), gone);
        if s.last().target_id < gone.len() && gone[s.last().target_id as int] {
            init
        } else {
            init.push(s.last())
        }
    }
}

/// The ids of `s` not marked in `gone`, in order.
pub open spec fn ids_kept(s: Seq<usize>, gone: Seq<bool>) -> Seq<usize>
    decreases s.len(),
{
    if s.len() == 0 {
        Seq::empty()
    } else {
        let init = ids_kept(s.drop_last(), gone);
        if s.last() < gone.len() && gone[s.last() as int] {
            init
        } else {
            init.push(s.last())
        }
    }
}

proof fn lemma_ids_kept(s: Seq<usize>, gone: Seq<bool>)
    ensures
        forall|c: usize| #[trigger] ids_kept(s, gone).contains(c) <==> (s.contains(c) && !(c < gone.len() && gone[c as int])),
        s.no_duplicates() ==> ids_kept(s, gone).no_duplicates(),
    decreases s.len(),
{
    if s.len() > 0 {
        let init = s.drop_last();
        lemma_ids_kept(init, gone);
        assert forall|c: usize| #[trigger] ids_kept(s, gone).contains(c) <==> (s.contains(c) && !(c < gone.len() && gone[c as int])) by {
            lemma_push_contains(ids_kept(init, gone), s.last(), c);
            lemma_push_contains(init, s.last(), c);
            assert(init.push(s.last()) =~= s);
        }
        if s.no_duplicates() {
            assert(init.no_duplicates()) by {
                assert forall|a: int, b: int| 0 <= a < b < init.len() implies init[a] != init[b] by {
                    assert(init[a] == s[a] && init[b] == s[b]);
                }
            }
            if !(s.last() < gone.len() && gone[s.last() as int]) {
                let k = ids_kept(init, gone);
                if k.contains(s.last()) {
                    let j = choose|j: int| 0 <= j < init.len() && init[j] == s.last();
                    assert(s[j] == s[s.len() - 1]);
                }
                assert forall|a: int, b: int| 0 <= a < b < k.push(s.last()).len() implies k.push(s.last())[a] != k.push(s.last())[b] by {
                    if b == k.len() {
                        assert(k.contains(k[a]));
                    }
                }
            }
        }
    }
}

proof fn lemma_handlers_kept(s: Seq<HandlerEntry>, gone: Seq<bool>)
    ensures
        forall|e: HandlerEntry| #[trigger] handlers_kept(s, gone).contains(e)
            <==> (s.contains(e) && !(e.target_id < gone.len() && gone[e.target_id as int])),
        keys_unique(s) ==> keys_unique(handlers_kept(s, gone)),
    decreases s.len(),
{
    if s.len() > 0 {
        let init = s.drop_last();
        lemma_handlers_kept(init, gone);
        let k0 = handlers_kept(init, gone);
        assert forall|e: HandlerEntry| #[trigger] handlers_kept(s, gone).contains(e)
            <==> (s.contains(e) && !(e.target_id < gone.len() && gone[e.target_id as int])) by {
            assert(init.push(s.last()) =~= s);
            if k0.push(s.last()).contains(e) && e != s.last() {
                let j = choose|j: int| 0 <= j < k0.len() + 1 && k0.push(s.last())[j] == e;
                assert(k0.contains(e));
            }
            if init.push(s.last()).contains(e) && e != s.last() {
                let j = choose|j: int| 0 <= j < init.len() + 1 && init.push(s.last())[j] == e;
                assert(init.contains(e));
            }
            if init.contains(e) {
                let j = choose|j: int| 0 <= j < init.len() && init[j] == e;
                assert(s[j] == e);
            }
            if k0.contains(e) {
                let j = choose|j: int| 0 <= j < k0.len() && k0[j] == e;
                assert(k0.push(s.last())[j] == e);
            }
            assert(k0.push(s.last())[k0.len() as int] == s.last());
            assert(s[s.len() - 1] == s.last());
        }
        if keys_unique(s) {
            assert forall|a: int, b: int| 0 <= a < b < init.len()
                implies !((#[trigger] init[a]).target_id == (#[trigger] init[b]).target_id && init[a].kind == init[b].kind) by {
                assert(init[a] == s[a] && init[b] == s[b]);
            }
            let k = handlers_kept(s, gone);
            if !(s.last().target_id < gone.len() && gone[s.last().target_id as int]) {
                assert forall|a: int, b: int| 0 <= a < b < k.len()
                    implies !((#[trigger] k[a]).target_id == (#[trigger] k[b]).target_id && k[a].kind == k[b].kind) by {
                    if b == k0.len() {
                        assert(k0.contains(k0[a]));
                        assert(init.contains(k0[a]));
                        let j = choose|j: int| 0 <= j < init.len() && init[j] == k0[a];
                        assert(s[j] == k0[a]);
                        assert(k[b] == s[s.len() - 1]);
                    } else {
                        assert(k[a] == k0[a] && k[b] == k0[b]);
                    }
                }
            }
        }
    }
}

impl HandlersBean {
    /// Which ids below the id bound lie in the subtree of `target`.
    pub open spec fn gone_ids(self, target: usize) -> Seq<bool> {
        Seq::new(self.id_bound(), |x: int| self.present(x as usize) && self.under(x as usize, target))
    }

    /// Storage order follows id order.
    proof fn lemma_index_order(self, p: usize, q: usize)
        requires
            self.wf(),
            self.present(p),
            self.present(q),
            p < q,
        ensures
            self.index(p) < self.index(q),
    {
        let e = self.elements@;
        let ip = self.index(p);
        let iq = self.index(q);
        assert(e[ip].id == p && e[iq].id == q);
        if ip >= iq {
            if ip > iq {
                assert(e[iq].id < e[ip].id);
            }
        }
    }

    /// Marks the subtree of `target`, which is alive and not the root.
    fn mark_subtree(&self, target: usize) -> (gone: Vec<bool>)
        requires
            self.wf(),
            self.present(target),
            target != 0,
        ensures
            gone@ == self.gone_ids(target),
    {
        let mut gone: Vec<bool> = Vec::new();
        let mut x: usize = 0;
        while x < self.next_id
            invariant
                self.wf(),
                x <= self.next_id,
                gone@.len() == x,
                forall|y: int| 0 <= y < x ==> gone@[y] == false,
            decreases self.next_id - x,
        {
            gone.push(false);
            x = x + 1;
        }
        let e = &self.elements;
        let mut i: usize = 0;
        while i < e.len()
            invariant
                self.wf(),
                e@ == self.elems(),
                i <= e@.len(),
                gone@.len() == self.id_bound(),
                target != 0,
                forall|y: usize| y < self.id_bound() ==> #[trigger] gone@[y as int]
                    == (self.present(y) && self.index(y) < i && self.under(y, target)),
            decreases e@.len() - i,
        {
            let id = e[i].id;
            let p = e[i].parent_element;
            proof {
                assert(self.slots@[id as int] == Some(i));
                assert(self.present(id) && self.index(id) == i);
                if i > 0 {
                    assert(e@[0].id < e@[i as int].id);
                    assert(self.present(p));
                    self.lemma_index_order(p, id);
                }
            }
            let mark = id == target || (i > 0 && gone[p]);
            proof {
                assert(mark == self.under(id, target)) by {
                    if i == 0 {
                        assert(id == 0);
                    } else {
                        assert(self.parent_of(id) == p);
                        assert(gone@[p as int] == (self.present(p) && self.index(p) < i && self.under(p, target)));
                    }
                }
            }
            gone.set(id, mark);
            proof {
                assert forall|y: usize| y < self.id_bound() implies #[trigger] gone@[y as int]
                    == (self.present(y) && self.index(y) < i + 1 && self.under(y, target)) by {
                    if y != id && self.present(y) && self.index(y) == i {
                        assert(self.elems()[self.index(y)].id == y);
                    }
                }
            }
            i = i + 1;
        }
        proof {
            assert forall|y: int| 0 <= y < gone@.len() implies gone@[y] == self.gone_ids(target)[y] by {
                let yy = y as usize;
                assert(gone@[yy as int] == (self.present(yy) && self.index(yy) < i && self.under(yy, target)));
            }
            assert(gone@ =~= self.gone_ids(target));
        }
        gone
    }
}

/// The ids of `children` not marked in `gone`, in order.
fn keep_ids(children: &Vec<usize>, gone: &Vec<bool>) -> (r: Vec<usize>)
    ensures
        r@ == ids_kept(children@, gone@),
{
    let mut r: Vec<usize> = Vec::new();
    let mut i: usize = 0;
    while i < children.len()
        invariant
            i <= children@.len(),
            r@ == ids_kept(children@.subrange(0, i as int), gone@),
        decreases children@.len() - i,
    {
        proof {
            let next = children@.subrange(0, i + 1);
            assert(next.drop_last() =~= children@.subrange(0, i as int));
        }
        let c = children[i];
        if !(c < gone.len() && gone[c]) {
            r.push(c);
        }
        i = i + 1;
    }
    assert(children@.subrange(0, children@.len() as int) =~= children@);
    r
}

impl HandlersBean {
    /// Drops the handlers of the elements marked in `gone`.
    fn prune_handlers(&mut self, gone: &Vec<bool>)
        requires
            keys_unique(old(self).elem_handlers@),
        ensures
            final(self).elem_handlers@ == handlers_kept(old(self).elem_handlers@, gone@),
            keys_unique(final(self).elem_handlers@),
            final(self).elements == old(self).elements,
            final(self).slots == old(self).slots,
            final(self).next_id == old(self).next_id,
            final(self).animations == old(self).animations,
            final(self).dep_links == old(self).dep_links,
            final(self).components == old(self).components,
            final(self).event_queue == old(self).event_queue,
    {
        let ghost all = self.elem_handlers@;
        let mut kept: Vec<HandlerEntry> = Vec::new();
        let mut i: usize = 0;
        while i < self.elem_handlers.len()
            invariant
                self.elem_handlers@ == all,
                i <= all.len(),
                kept@ == handlers_kept(all.subrange(0, i as int), gone@),
            decreases all.len() - i,
        {
            proof {
                let next = all.subrange(0, i + 1);
                assert(next.drop_last() =~= all.subrange(0, i as int));
            }
            let h = self.elem_handlers[i];
            if !(h.target_id < gone.len() && gone[h.target_id]) {
                kept.push(h);
            }
            i = i + 1;
        }
        proof {
            assert(all.subrange(0, all.len() as int) =~= all);
            lemma_handlers_kept(all, gone@);
        }
        self.elem_handlers = kept;
    }

    /// Drops the animations that drive an element marked in `gone`.
    fn prune_animations(&mut self, gone: &Vec<bool>)
        requires
            forall|i: int| 0 <= i < old(self).animations@.len() ==> (#[trigger] old(self).animations@[i]).animator.wf(),
        ensures
            final(self).animations@ == untouched(old(self).animations@, gone@),
            forall|i: int| 0 <= i < final(self).animations@.len() ==> (#[trigger] final(self).animations@[i]).animator.wf(),
            forall|i: int| 0 <= i < final(self).animations@.len() ==> !(#[trigger] final(self).animations@[i]).animator.hits(gone@),
            final(self).elements == old(self).elements,
            final(self).slots == old(self).slots,
            final(self).next_id == old(self).next_id,
            final(self).elem_handlers == old(self).elem_handlers,
            final(self).dep_links == old(self).dep_links,
            final(self).components == old(self).components,
            final(self).event_queue == old(self).event_queue,
    {
        let mut rest: Vec<StoredAnimation> = Vec::new();
        std::mem::swap(&mut rest, &mut self.animations);
        let ghost all = rest@;
        let n = rest.len();
        let mut kept: Vec<StoredAnimation> = Vec::new();
        let mut i: usize = 0;
        while rest.len() > 0
            invariant
                rest@ == all.subrange(i as int, all.len() as int),
                all.len() == n,
                i + rest@.len() == all.len(),
                kept@ == untouched(all.subrange(0, i as int), gone@),
                forall|j: int| 0 <= j < all.len() ==> (#[trigger] all[j]).animator.wf(),
                forall|j: int| 0 <= j < kept@.len() ==> (#[trigger] kept@[j]).animator.wf(),
                forall|j: int| 0 <= j < kept@.len() ==> !(#[trigger] kept@[j]).animator.hits(gone@),
            decreases rest@.len(),
        {
            let a = rest.remove(0);
            proof {
                assert(a == all[i as int]);
                let next = all.subrange(0, i + 1);
                assert(next.drop_last() =~= all.subrange(0, i as int));
                assert(all.subrange(i + 1, all.len() as int) =~= rest@);
            }
            if !a.animator.touches(gone) {
                kept.push(a);
            }
            i = i + 1;
        }
        proof {
            assert(all.subrange(0, all.len() as int) =~= all);
        }
        self.animations = kept;
    }
}

impl HandlersBean {
    /// `new` is `old` after removing `target` with its subtree, which
    /// yielded `r`: the root and ids that are not alive are left alone.
    pub open spec fn removed(old: HandlersBean, new: HandlersBean, target: usize, r: bool) -> bool {
        if target == 0 || !old.present(target) {
            !r && new == old
        } else {
            &&& r
            &&& new.id_bound() == old.id_bound()
            &&& forall|x: usize| #[trigger] new.present(x) <==> (old.present(x) && !old.under(x, target))
            &&& forall|x: usize| new.present(x) ==> #[trigger] new.elem(x).same_frame_but_children(old.elem(x))
            &&& forall|x: usize| new.present(x) ==> #[trigger] new.elem(x).children_elems@
                == ids_kept(old.elem(x).children_elems@, old.gone_ids(target))
            &&& new.links() == pruned(old.links(), old.gone_ids(target))
            &&& forall|id: usize, k: MsgKind| #[trigger] new.handler(id, k)
                == if old.present(id) && old.under(id, target) { None } else { old.handler(id, k) }
            &&& new.running() == untouched(old.running(), old.gone_ids(target))
            &&& new.events() == old.events()
            &&& new.widgets() == old.widgets()
        }
    }

    /// Removes element `target_id` and its whole subtree, with every binding
    /// whose source or target is in it, every handler registered on it and
    /// every animation that drives part of it. The other elements keep their
    /// ids. Returns `false`, changing nothing, for the root or an id that is
    /// not alive.
    pub fn remove_element(&mut self, target_id: usize) -> (r: bool)
        requires
            old(self).wf(),
        ensures
            final(self).wf(),
            HandlersBean::removed(*old(self), *final(self), target_id, r),
    {
        if target_id == 0 {
            return false;
        }
        if self.index_of(target_id).is_none() {
            return false;
        }
        let ghost s0 = *self;
        proof {
            assert(forall|j: int| 0 <= j < s0.elems().len() ==> (#[trigger] s0.elems()[j]).id < s0.next_id);
            assert(forall|a: int, b: int| 0 <= a < b < s0.elems().len() ==> (#[trigger] s0.elems()[a]).id < (#[trigger] s0.elems()[b]).id);
        }
        let gone = self.mark_subtree(target_id);
        let ghost g = gone@;
        links_retain(&mut self.dep_links, &gone);
        self.prune_handlers(&gone);
        self.prune_animations(&gone);

        let mut rest: Vec<Element> = Vec::new();
        std::mem::swap(&mut rest, &mut self.elements);
        let ghost all = rest@;
        let (kept, src) = survivors(rest, &gone);
        let ghost src = src@;
        proof {
            assert forall|a: int, b: int| 0 <= a < b < kept@.len() implies (#[trigger] kept@[a]).id < (#[trigger] kept@[b]).id by {
                assert(src[a] < src[b]);
                assert(kept@[a].same_frame_but_children(all[src[a]]));
                assert(kept@[b].same_frame_but_children(all[src[b]]));
            }
            assert forall|a: int| 0 <= a < kept@.len() implies (#[trigger] kept@[a]).id < self.next_id by {
                assert(kept@[a].same_frame_but_children(all[src[a]]));
            }
        }
        let slots = slot_table_for(&kept, self.next_id);
        self.elements = kept;
        self.slots = slots;
        proof {
            lemma_removal(s0, *self, target_id, src);
        }
        true
    }
}

/// `kept` holds, in order, the elements of `all` not marked in `gone`, each
/// with its children not marked in `gone`; `src` tells where each came from.
pub open spec fn survivors_of(kept: Seq<Element>, all: Seq<Element>, gone: Seq<bool>, src: Seq<int>) -> bool {
    &&& src.len() == kept.len()
    &&& forall|k: int| 0 <= k < src.len() ==> 0 <= #[trigger] src[k] < all.len()
    &&& forall|a: int, b: int| 0 <= a < b < src.len() ==> #[trigger] src[a] < #[trigger] src[b]
    &&& forall|k: int| 0 <= k < src.len() ==> {
        let o = all[#[trigger] src[k]];
        &&& kept[k].same_frame_but_children(o)
        &&& kept[k].children_elems@ == ids_kept(o.children_elems@, gone)
        &&& !gone[o.id as int]
    }
    &&& forall|j: int| 0 <= j < all.len() && !gone[(#[trigger] all[j]).id as int] ==> exists|k: int| 0 <= k < src.len() && src[k] == j
}

/// The elements of `all` that are not marked in `gone`, with their lists of
/// children pruned the same way.
fn survivors(all: Vec<Element>, gone: &Vec<bool>) -> (r: (Vec<Element>, Ghost<Seq<int>>))
    requires
        forall|j: int| 0 <= j < all@.len() ==> (#[trigger] all@[j]).id < gone@.len(),
    ensures
        survivors_of(r.0@, all@, gone@, r.1@),
{
    let ghost orig = all@;
    let mut rest = all;
    let n = rest.len();
    let mut kept: Vec<Element> = Vec::new();
    let ghost mut src: Seq<int> = Seq::empty();
    let mut i: usize = 0;
    while rest.len() > 0
        invariant
            forall|j: int| 0 <= j < orig.len() ==> (#[trigger] orig[j]).id < gone@.len(),
            rest@ == orig.subrange(i as int, orig.len() as int),
            orig.len() == n,
            i + rest@.len() == orig.len(),
            src.len() == kept@.len(),
            forall|k: int| 0 <= k < src.len() ==> 0 <= #[trigger] src[k] < i,
            forall|a: int, b: int| 0 <= a < b < src.len() ==> #[trigger] src[a] < #[trigger] src[b],
            forall|k: int| 0 <= k < src.len() ==> {
                let o = orig[#[trigger] src[k]];
                &&& kept@[k].same_frame_but_children(o)
                &&& kept@[k].children_elems@ == ids_kept(o.children_elems@, gone@)
                &&& !gone@[o.id as int]
            },
            forall|j: int| 0 <= j < i && !gone@[(#[trigger] orig[j]).id as int] ==> exists|k: int| 0 <= k < src.len() && src[k] == j,
        decreases rest@.len(),
    {
        let ghost src_before = src;
        let mut e = rest.remove(0);
        proof {
            assert(e == orig[i as int]);
            assert(orig.subrange(i + 1, orig.len() as int) =~= rest@);
        }
        if !gone[e.id] {
            let ghost e0 = e;
            e.children_elems = keep_ids(&e.children_elems, gone);
            proof {
                assert(e.same_frame_but_children(e0));
            }
            kept.push(e);
            proof {
                src = src.push(i as int);
                assert(src[src.len() - 1] == i as int);
            }
        }
        proof {
            assert forall|j: int| 0 <= j < i + 1 && !gone@[(#[trigger] orig[j]).id as int]
                implies exists|k: int| 0 <= k < src.len() && src[k] == j by {
                if j < i {
                    let k = choose|k: int| 0 <= k < src_before.len() && src_before[k] == j;
                    assert(src[k] == src_before[k]);
                } else {
                    assert(src[src.len() - 1] == j);
                }
            }
        }
        i = i + 1;
    }
    (kept, Ghost(src))
}

/// The table from id to storage index for `kept`, whose ids increase and
/// stay below `bound`.
fn slot_table_for(kept: &Vec<Element>, bound: usize) -> (slots: Vec<Option<usize>>)
    requires
        forall|a: int, b: int| 0 <= a < b < kept@.len() ==> (#[trigger] kept@[a]).id < (#[trigger] kept@[b]).id,
        forall|a: int| 0 <= a < kept@.len() ==> (#[trigger] kept@[a]).id < bound,
    ensures
        slots@.len() == bound,
        forall|q: int| 0 <= q < kept@.len() ==> slots@[(#[trigger] kept@[q]).id as int] == Some(q as usize),
        forall|y: int| 0 <= y < slots@.len() && (#[trigger] slots@[y]) is Some
            ==> slots@[y]->Some_0 < kept@.len() && kept@[slots@[y]->Some_0 as int].id == y,
{
    let mut slots: Vec<Option<usize>> = Vec::new();
    let mut x: usize = 0;
    while x < bound
        invariant
            x <= bound,
            slots@.len() == x,
            forall|y: int| 0 <= y < x ==> slots@[y] is None,
        decreases bound - x,
    {
        slots.push(None);
        x = x + 1;
    }
    let mut k: usize = 0;
    while k < kept.len()
        invariant
            forall|a: int, b: int| 0 <= a < b < kept@.len() ==> (#[trigger] kept@[a]).id < (#[trigger] kept@[b]).id,
            forall|a: int| 0 <= a < kept@.len() ==> (#[trigger] kept@[a]).id < bound,
            slots@.len() == bound,
            k <= kept@.len(),
            forall|q: int| 0 <= q < k ==> slots@[(#[trigger] kept@[q]).id as int] == Some(q as usize),
            forall|y: int| 0 <= y < slots@.len() && (#[trigger] slots@[y]) is Some
                ==> slots@[y]->Some_0 < k && kept@[slots@[y]->Some_0 as int].id == y,
        decreases kept@.len() - k,
    {
        let id = kept[k].id;
        slots.set(id, Some(k));
        k = k + 1;
    }
    slots
}

proof fn lemma_removal_tables(s0: HandlersBean, s: HandlersBean, target: usize)
    requires
        s0.wf(),
        links_of(s.dep_links) == pruned(links_of(s0.dep_links), s0.gone_ids(target)),
        s.elem_handlers@ == handlers_kept(s0.elem_handlers@, s0.gone_ids(target)),
    ensures
        forall|k: usize| #[trigger] links_of(s.dep_links).contains_key(k)
            ==> links_of(s.dep_links)[k].len() > 0
            && forall|j: int| 0 <= j < links_of(s.dep_links)[k].len()
                ==> (#[trigger] links_of(s.dep_links)[k][j]).map.wf(),
        forall|id: usize, k: MsgKind| #[trigger] s.handler(id, k)
            == if s0.present(id) && s0.under(id, target) { None } else { s0.handler(id, k) },
{
    let g = s0.gone_ids(target);
    // bindings
    let m0 = links_of(s0.dep_links);
    let m = links_of(s.dep_links);
    assert forall|k: usize| #[trigger] m.contains_key(k)
        implies m[k].len() > 0 && forall|j: int| 0 <= j < m[k].len() ==> (#[trigger] m[k][j]).map.wf() by {
        let f = |b: Binding| kept(k, b.target, g);
        assert(m[k] == m0[k].filter(f));
        assert forall|j: int| 0 <= j < m[k].len() implies (#[trigger] m[k][j]).map.wf() by {
            assert(m0[k].filter(f).contains(m[k][j]));
            m0[k].lemma_filter_contains_rev(f, m[k][j]);
            let jj = choose|jj: int| 0 <= jj < m0[k].len() && m0[k][jj] == m[k][j];
        }
    }
    // handlers
    let h0 = s0.elem_handlers@;
    let h = s.elem_handlers@;
    lemma_handlers_kept(h0, g);
    assert forall|id: usize, k: MsgKind| #[trigger] s.handler(id, k)
        == if s0.present(id) && s0.under(id, target) { None } else { s0.handler(id, k) } by {
        let gid = id < g.len() && g[id as int];
        assert(gid == (s0.present(id) && s0.under(id, target)));
        if exists|j: int| 0 <= j < h0.len() && entry_matches(#[trigger] h0[j], id, k) {
            let j = choose|j: int| 0 <= j < h0.len() && entry_matches(#[trigger] h0[j], id, k);
            lemma_find_unique(h0, j, id, k);
            if gid {
                assert forall|jn: int| 0 <= jn < h.len() implies !entry_matches(#[trigger] h[jn], id, k) by {
                    assert(h.contains(h[jn]));
                }
                lemma_find_absent(h, id, k);
            } else {
                assert(h0.contains(h0[j]));
                assert(h.contains(h0[j]));
                let jn = choose|jn: int| 0 <= jn < h.len() && h[jn] == h0[j];
                lemma_find_unique(h, jn, id, k);
            }
        } else {
            lemma_find_absent(h0, id, k);
            assert forall|jn: int| 0 <= jn < h.len() implies !entry_matches(#[trigger] h[jn], id, k) by {
                assert(h.contains(h[jn]));
                assert(h0.contains(h[jn]));
                let j = choose|j: int| 0 <= j < h0.len() && h0[j] == h[jn];
            }
            lemma_find_absent(h, id, k);
        }
    }
}

proof fn lemma_removal(s0: HandlersBean, s: HandlersBean, target: usize, src: Seq<int>)
    requires
        s0.wf(),
        target != 0,
        s0.present(target),
        s.next_id == s0.next_id,
        s.slots@.len() == s.next_id,
        src.len() == s.elements@.len(),
        forall|q: int| 0 <= q < src.len() ==> 0 <= #[trigger] src[q] < s0.elements@.len(),
        forall|a: int, b: int| 0 <= a < b < src.len() ==> #[trigger] src[a] < #[trigger] src[b],
        forall|q: int| 0 <= q < src.len() ==> {
            let o = s0.elements@[#[trigger] src[q]];
            &&& s.elements@[q].same_frame_but_children(o)
            &&& s.elements@[q].children_elems@ == ids_kept(o.children_elems@, s0.gone_ids(target))
            &&& !s0.gone_ids(target)[o.id as int]
        },
        forall|j: int| 0 <= j < s0.elements@.len() && !s0.gone_ids(target)[(#[trigger] s0.elements@[j]).id as int]
            ==> exists|q: int| 0 <= q < src.len() && src[q] == j,
        forall|q: int| 0 <= q < s.elements@.len() ==> s.slots@[(#[trigger] s.elements@[q]).id as int] == Some(q as usize),
        forall|y: int| 0 <= y < s.slots@.len() && (#[trigger] s.slots@[y]) is Some
            ==> s.slots@[y]->Some_0 < s.elements@.len() && s.elements@[s.slots@[y]->Some_0 as int].id == y,
        links_of(s.dep_links) == pruned(links_of(s0.dep_links), s0.gone_ids(target)),
        s.elem_handlers@ == handlers_kept(s0.elem_handlers@, s0.gone_ids(target)),
        keys_unique(s.elem_handlers@),
        s.animations@ == untouched(s0.animations@, s0.gone_ids(target)),
        forall|i: int| 0 <= i < s.animations@.len() ==> (#[trigger] s.animations@[i]).animator.wf(),
        s.event_queue == s0.event_queue,
        s.components == s0.components,
    ensures
        s.wf(),
        HandlersBean::removed(s0, s, target, true),
{
    let g = s0.gone_ids(target);
    let e = s.elements@;
    let e0 = s0.elements@;
    // the root survives and stays first
    assert(!s0.under(0, target));
    assert(s0.present(0) && s0.index(0) == 0) by {
        assert(s0.slots@[e0[0].id as int] == Some(0usize));
    }
    assert(!g[0]);
    let q0 = choose|q: int| 0 <= q < src.len() && src[q] == 0;
    if q0 != 0 {
        assert(src[0] < src[q0]);
    }
    assert(e[0].same_frame_but_children(e0[0]));
    // presence
    assert forall|x: usize| #[trigger] s.present(x) <==> (s0.present(x) && !s0.under(x, target)) by {
        if s.present(x) {
            let q = s.slots@[x as int]->Some_0 as int;
            assert(e[q].id == x);
            let j = src[q];
            assert(e[q].same_frame_but_children(e0[j]));
            assert(s0.slots@[e0[j].id as int] == Some(j as usize));
            assert(!g[x as int]);
        }
        if s0.present(x) && !s0.under(x, target) {
            let j = s0.index(x);
            assert(e0[j].id == x);
            assert(!g[x as int]);
            let q = choose|q: int| 0 <= q < src.len() && src[q] == j;
            assert(e[q].same_frame_but_children(e0[j]));
            assert(s.slots@[e[q].id as int] == Some(q as usize));
        }
    }
    // each live element keeps its frame
    assert forall|x: usize| s.present(x) implies #[trigger] s.elem(x).same_frame_but_children(s0.elem(x))
        && s.elem(x).children_elems@ == ids_kept(s0.elem(x).children_elems@, g) by {
        let q = s.slots@[x as int]->Some_0 as int;
        let j = src[q];
        assert(e[q].same_frame_but_children(e0[j]));
        assert(s0.slots@[e0[j].id as int] == Some(j as usize));
    }
    // ids strictly increase
    assert forall|a: int, b: int| 0 <= a < b < e.len() implies (#[trigger] e[a]).id < (#[trigger] e[b]).id by {
        assert(src[a] < src[b]);
        assert(e[a].same_frame_but_children(e0[src[a]]));
        assert(e[b].same_frame_but_children(e0[src[b]]));
    }
    assert forall|a: int| 0 <= a < e.len() implies (#[trigger] e[a]).id < s.next_id by {
        assert(e[a].same_frame_but_children(e0[src[a]]));
    }
    // parents stay alive
    assert forall|a: int| 0 < a < e.len() implies ({
        let p = (#[trigger] e[a]).parent_element;
        &&& p < e[a].id
        &&& p < s.slots@.len()
        &&& s.slots@[p as int] is Some
    }) by {
        let j = src[a];
        assert(e[a].same_frame_but_children(e0[j]));
        assert(src[0] < src[a]);
        assert(j > 0);
        let x = e0[j].id;
        let p = e0[j].parent_element;
        assert(s0.slots@[x as int] == Some(j as usize));
        assert(s0.present(x) && s0.index(x) == j);
        assert(!g[x as int]);
        assert(!s0.under(x, target));
        assert(x != 0) by {
            assert(e0[0].id < e0[j].id);
        }
        assert(s0.parent_of(x) == p);
        assert(!s0.under(p, target));
        assert(s.present(p));
    }
    // children lists
    assert forall|a: int, c: usize| 0 <= a < e.len() implies (#[trigger] e[a].children_elems@.contains(c) <==> (
        c != 0 && c < s.slots@.len() && s.slots@[c as int] is Some
        && e[s.slots@[c as int]->Some_0 as int].parent_element == e[a].id)) by {
        let j = src[a];
        let o = e0[j];
        assert(e[a].same_frame_but_children(o));
        lemma_ids_kept(o.children_elems@, g);
        assert(o.children_elems@.contains(c) <==> (
            c != 0 && c < s0.slots@.len() && s0.slots@[c as int] is Some
            && e0[s0.slots@[c as int]->Some_0 as int].parent_element == o.id));
        if c < s.slots@.len() {
            assert(s.present(c) <==> (s0.present(c) && !s0.under(c, target)));
            if s.present(c) {
                assert(s.elem(c).same_frame_but_children(s0.elem(c)));
            }
            if c < g.len() {
                assert(g[c as int] == (s0.present(c) && s0.under(c, target)));
            }
        }
    }
    assert forall|a: int| 0 <= a < e.len() implies (#[trigger] e[a]).children_elems@.no_duplicates() by {
        lemma_ids_kept(e0[src[a]].children_elems@, g);
    }
    lemma_removal_tables(s0, s, target);

}

proof fn lemma_untouched(s: Seq<StoredAnimation>, gone: Seq<bool>)
    ensures
        forall|i: int| 0 <= i < untouched(s, gone).len() ==> !(#[trigger] untouched(s, gone)[i]).animator.hits(gone),
    decreases s.len(),
{
    if s.len() > 0 {
        lemma_untouched(s.drop_last(), gone);
        let init = untouched(s.drop_last(), gone);
        assert forall|i: int| 0 <= i < untouched(s, gone).len() implies !(#[trigger] untouched(s, gone)[i]).animator.hits(gone) by {
            if i < init.len() {
                assert(untouched(s, gone)[i] == init[i]);
            }
        }
    }
}

/// After removing `target`, nothing refers to an id of its former subtree:
/// no live element, no binding source or target, no handler and no
/// animation.
pub proof fn lemma_removed_subtree_is_gone(old: HandlersBean, new: HandlersBean, target: usize, x: usize)
    requires
        old.wf(),
        HandlersBean::removed(old, new, target, true),
        old.present(x),
        old.under(x, target),
    ensures
        !new.present(x),
        !new.links().contains_key(x),
        forall|s: usize| #[trigger] new.links().contains_key(s) ==> forall|j: int| 0 <= j < new.links()[s].len()
            ==> (#[trigger] new.links()[s][j]).target != x,
        forall|k: MsgKind| #[trigger] new.handler(x, k).is_none(),
        forall|i: int| 0 <= i < new.running().len() ==> !(#[trigger] new.running()[i]).animator.targets(x),
{
    let g = old.gone_ids(target);
    assert(x < g.len() && g[x as int]);
    let m0 = old.links();
    let m = new.links();
    if m.contains_key(x) {
        let f = |b: Binding| kept(x, b.target, g);
        assert(m[x] == m0[x].filter(f));
        assert(m[x].len() > 0);
        m0[x].lemma_filter_pred(f, 0);
    }
    assert forall|s: usize| #[trigger] m.contains_key(s) implies forall|j: int| 0 <= j < m[s].len()
        ==> (#[trigger] m[s][j]).target != x by {
        let f = |b: Binding| kept(s, b.target, g);
        assert(m[s] == m0[s].filter(f));
        assert forall|j: int| 0 <= j < m[s].len() implies (#[trigger] m[s][j]).target != x by {
            m0[s].lemma_filter_pred(f, j);
        }
    }
    lemma_untouched(old.running(), g);
    assert forall|i: int| 0 <= i < new.running().len() implies !(#[trigger] new.running()[i]).animator.targets(x) by {
        assert(!new.running()[i].animator.hits(g));
    }
}

/// Adding an element under `p` and then removing `p` removes the new
/// element too, and nothing refers to it afterwards.
pub proof fn lemma_remove_parent_removes_child(
    s0: HandlersBean,
    s1: HandlersBean,
    s2: HandlersBean,
    elem: Element,
    p: usize,
    c: usize,
)
    requires
        s0.wf(),
        s1.wf(),
        HandlersBean::added(s0, s1, elem, p, Some(c)),
        HandlersBean::removed(s1, s2, p, true),
    ensures
        !s2.present(c),
        !s2.links().contains_key(c),
        forall|s: usize| #[trigger] s2.links().contains_key(s) ==> forall|j: int| 0 <= j < s2.links()[s].len()
            ==> (#[trigger] s2.links()[s][j]).target != c,
        forall|k: MsgKind| #[trigger] s2.handler(c, k).is_none(),
        forall|i: int| 0 <= i < s2.running().len() ==> !(#[trigger] s2.running()[i]).animator.targets(c),
{
    assert(s0.elems()[0].id < s0.next_id);
    assert(c != 0);
    assert(s1.present(p));
    assert(s1.elems()[s1.index(c)].parent_element < s1.elems()[s1.index(c)].id) by {
        assert(s1.elems()[s1.index(c)].id == c);
        assert(s1.index(c) != 0) by {
            assert(s1.elems()[0].id == 0);
        }
    }
    assert(s1.under(p, p));
    assert(s1.under(c, p));
    lemma_removed_subtree_is_gone(s1, s2, p, c);
}

proof fn lemma_filter_keeps_all(s: Seq<Binding>, f: spec_fn(Binding) -> bool)
    requires
        forall|j: int| 0 <= j < s.len() ==> f(#[trigger] s[j]),
    ensures
        s.filter(f) == s,
    decreases s.len(),
{
    reveal(Seq::filter);
    if s.len() > 0 {
        let init = s.drop_last();
        assert forall|j: int| 0 <= j < init.len() implies f(#[trigger] init[j]) by {
            assert(init[j] == s[j]);
        }
        lemma_filter_keeps_all(init, f);
        assert(f(s[s.len() - 1]));
        assert(init.push(s.last()) =~= s);
    }
}

impl HandlersBean {
    /// A strict descendant of `t` means that `t` has a child.
    proof fn lemma_under_has_child(self, x: usize, t: usize)
        requires
            self.wf(),
            self.under(x, t),
            x != t,
        ensures
            exists|y: usize| #[trigger] self.present(y) && y != 0 && self.parent_of(y) == t,
        decreases x,
    {
        let p = self.parent_of(x);
        if p == t {
            assert(self.present(x) && x != 0 && self.parent_of(x) == t);
        } else {
            self.lemma_under_has_child(p, t);
        }
    }
}

/// Removing an element that has no children and no bindings touches no
/// other element, binding or handler, and every other id stays as it was.
pub proof fn lemma_remove_leaf(old: HandlersBean, new: HandlersBean, t: usize)
    requires
        old.wf(),
        HandlersBean::removed(old, new, t, true),
        old.elem(t).children_elems@.len() == 0,
        !old.links().contains_key(t),
        forall|s: usize| #[trigger] old.links().contains_key(s) ==> forall|j: int| 0 <= j < old.links()[s].len()
            ==> (#[trigger] old.links()[s][j]).target != t,
    ensures
        !new.present(t),
        forall|x: usize| x != t ==> (#[trigger] new.present(x) <==> old.present(x)),
        forall|x: usize| x != t && new.present(x) ==> (#[trigger] new.elem(x)).id == old.elem(x).id,
        new.links() == old.links(),
        forall|id: usize, k: MsgKind| id != t ==> #[trigger] new.handler(id, k) == old.handler(id, k),
{
    let g = old.gone_ids(t);
    assert forall|x: usize| x != t && old.present(x) implies !old.under(x, t) by {
        if old.under(x, t) {
            old.lemma_under_has_child(x, t);
            let y = choose|y: usize| #[trigger] old.present(y) && y != 0 && old.parent_of(y) == t;
            let ti = old.index(t);
            assert(old.elems()[ti].id == t);
            assert(old.elems()[ti].children_elems@.contains(y));
        }
    }
    assert forall|x: usize| x != t && new.present(x) implies (#[trigger] new.elem(x)).id == old.elem(x).id by {
        assert(new.elem(x).same_frame_but_children(old.elem(x)));
    }
    let m0 = old.links();
    let m = new.links();
    assert forall|k: usize| #[trigger] m0.contains_key(k)
        implies m0[k].filter(|b: Binding| kept(k, b.target, g)) == m0[k] by {
        let f = |b: Binding| kept(k, b.target, g);
        assert forall|j: int| 0 <= j < m0[k].len() implies f(#[trigger] m0[k][j]) by {
            let b = m0[k][j];
            assert(b.target != t);
            if b.target < g.len() {
                assert(!g[b.target as int]);
            }
            if k < g.len() {
                assert(k != t);
                assert(!g[k as int]);
            }
        }
        lemma_filter_keeps_all(m0[k], f);
    }
    assert(m =~= m0);
}

impl HandlersBean {
    /// `new` is `old` after `dispatch(target, msg, now)` returned `r`: the
    /// handler registered for the message's kind, if any, had its impact
    /// applied.
    pub open spec fn dispatched(old: HandlersBean, new: HandlersBean, target: usize, msg: Msg, now: u64, r: bool) -> bool {
        &&& r == old.handler(target, msg.kind_of()).is_some()
        &&& !r ==> new == old
        &&& r ==> exists|mid: HandlersBean| {
            &&& mid.elems() == old.elems()
            &&& mid.slot_table() == old.slot_table()
            &&& mid.links() == old.links()
            &&& mid.running() == old.running()
            &&& HandlersBean::impacted(mid, new, old.handler(target, msg.kind_of())->Some_0.response(old).0, now)
        }
    }

    /// What applying `impact` does to `old`, giving `new`.
    pub open spec fn impacted(old: HandlersBean, new: HandlersBean, impact: HandlerImpact, now: u64) -> bool {
        match impact {
            HandlerImpact::AddBind(source, target, map) => new.links() == old.links().insert(
                source,
                if old.links().contains_key(source) {
                    old.links()[source].push(Binding { target, map })
                } else {
                    seq![Binding { target, map }]
                },
            ) && new.elems() == old.elems() && new.handlers() == old.handlers() && new.running() == old.running(),
            HandlerImpact::StartAnimation(a, on_finish) => new.running().len() == old.running().len() + 1
                && new.running().drop_last() == old.running()
                && a.restarted(new.running().last().animator, now)
                && new.running().last().on_finish == on_finish
                && new.elems() == old.elems() && new.handlers() == old.handlers() && new.links() == old.links(),
            HandlerImpact::RegisterHandler(target, msg, cb) => new.handler(target, msg.kind_of()) == Some(cb)
                && (forall|id: usize, k: MsgKind| !(id == target && k == msg.kind_of())
                    ==> #[trigger] new.handler(id, k) == old.handler(id, k))
                && new.elems() == old.elems() && new.links() == old.links() && new.running() == old.running(),
            HandlerImpact::RemoveHandler(target, msg) => new.handler(target, msg.kind_of()).is_none()
                && (forall|id: usize, k: MsgKind| !(id == target && k == msg.kind_of())
                    ==> #[trigger] new.handler(id, k) == old.handler(id, k))
                && new.elems() == old.elems() && new.links() == old.links() && new.running() == old.running(),
            HandlerImpact::AddElement(elem, parent) => exists|r: Option<usize>| HandlersBean::added(old, new, elem, parent, r),
            HandlerImpact::RemoveElement(target) => exists|r: bool| HandlersBean::removed(old, new, target, r),
            HandlerImpact::SetField(target, v) => exists|c: bool| HandlersBean::set_result(old, new, target, v, c),
            HandlerImpact::Nothing => new == old,
        }
    }

    /// Applies `impact`: the one place where handlers and completed
    /// animations change the store.
    pub fn process_impact(&mut self, impact: HandlerImpact, now: u64)
        requires
            old(self).wf(),
            impact.wf(),
        ensures
            final(self).wf(),
            HandlersBean::impacted(*old(self), *final(self), impact, now),
    {
        let ghost imp = impact;
        match impact {
            HandlerImpact::AddBind(source_id, target_id, map_fn) => { self.add_bind(source_id, target_id, map_fn); },
            HandlerImpact::StartAnimation(animator, on_finish) => { self.start_animation(animator, on_finish, now); },
            HandlerImpact::RegisterHandler(target_id, message_type, callback) => {
                self.register_handler(target_id, message_type, callback);
            },
            HandlerImpact::RemoveHandler(target_id, message_type) => { self.remove_handler(target_id, message_type); },
            HandlerImpact::AddElement(elem, parent_id) => {
                let r = self.add_element(elem, parent_id);
                assert(HandlersBean::added(*old(self), *self, elem, parent_id, r));
            },
            HandlerImpact::RemoveElement(target_id) => {
                let r = self.remove_element(target_id);
                assert(HandlersBean::removed(*old(self), *self, target_id, r));
            },
            HandlerImpact::SetField(target_id, value) => {
                let c = self.set(target_id, value);
                assert(HandlersBean::set_result(*old(self), *self, target_id, value, c));
            },
            HandlerImpact::Nothing => {},
        }
    }

    /// Runs the handler registered for `msg`'s kind at `target_id`, if any,
    /// and applies the impact it describes. Returns whether there was one.
    pub fn dispatch(&mut self, target_id: usize, msg: &Msg, now: u64) -> (r: bool)
        requires
            old(self).wf(),
        ensures
            final(self).wf(),
            HandlersBean::dispatched(*old(self), *final(self), target_id, *msg, now, r),
    {
        let kind = msg.kind();
        match self.handler_position(target_id, kind) {
            None => false,
            Some(i) => {
                let cb = self.elem_handlers[i].callback;
                let (impact, next) = cb.respond(self);
                let ghost h0 = self.elem_handlers@;
                self.elem_handlers.set(i, HandlerEntry { target_id, kind, callback: next });
                proof {
                    let h = self.elem_handlers@;
                    assert forall|a: int, b: int| 0 <= a < b < h.len()
                        implies !((#[trigger] h[a]).target_id == (#[trigger] h[b]).target_id && h[a].kind == h[b].kind) by {
                        assert(a == i || h[a] == h0[a]);
                        assert(b == i || h[b] == h0[b]);
                    }
                }
                let ghost mid = *self;
                proof {
                    assert(impact == old(self).handler(target_id, msg.kind_of())->Some_0.response(*old(self)).0);
                }
                self.process_impact(impact, now);
                assert(HandlersBean::impacted(mid, *self, impact, now));
                assert(mid.elems() == old(self).elems() && mid.slot_table() == old(self).slot_table()
                    && mid.links() == old(self).links() && mid.running() == old(self).running());
                true
            },
        }
    }

    /// Advances every running animation to `now` and applies the values
    /// they yield, each through `set`.
    pub fn tick_animations(&mut self, now: u64)
        requires
            old(self).wf(),
        ensures
            final(self).wf(),
            final(self).running().len() == old(self).running().len(),
            exists|outs: Seq<Seq<(usize, FieldSelector)>>| {
                &&& outs.len() == old(self).running().len()
                &&& forall|i: int| 0 <= i < old(self).running().len()
                    ==> (#[trigger] old(self).running()[i]).animator.stepped(final(self).running()[i].animator, now, outs[i])
                &&& HandlersBean::sets_applied(*old(self), *final(self), outs.flatten_alt())
            },
            forall|i: int| 0 <= i < old(self).running().len()
                ==> (#[trigger] final(self).running()[i]).on_finish == old(self).running()[i].on_finish,
            final(self).handlers() == old(self).handlers(),
            final(self).links() == old(self).links(),
            final(self).slot_table() == old(self).slot_table(),
    {
        let ghost a0 = self.animations@;
        let ghost mut outs: Seq<Seq<(usize, FieldSelector)>> = Seq::empty();
        proof {
            reveal(HandlersBean::sets_applied);
            assert(HandlersBean::sets_applied(*old(self), *self, outs.flatten_alt()));
        }
        let mut i: usize = 0;
        while i < self.animations.len()
            invariant
                self.wf(),
                self.animations@.len() == a0.len(),
                i <= a0.len(),
                outs.len() == i,
                forall|j: int| 0 <= j < i ==> (#[trigger] a0[j]).animator.stepped(self.animations@[j].animator, now, outs[j]),
                forall|j: int| i <= j < a0.len() ==> #[trigger] self.animations@[j] == a0[j],
                forall|j: int| 0 <= j < a0.len() ==> (#[trigger] self.animations@[j]).on_finish == a0[j].on_finish,
                self.handlers() == old(self).handlers(),
                self.links() == old(self).links(),
                self.slot_table() == old(self).slot_table(),
                HandlersBean::sets_applied(*old(self), *self, outs.flatten_alt()),
            decreases a0.len() - i,
        {
            let ghost before = self.animations@;
            let ghost s_before = *self;
            let vals = self.animations[i].animator.animate(now);
            proof {
                reveal(HandlersBean::sets_applied);
                assert(a0[i as int].animator.stepped(self.animations@[i as int].animator, now, vals@));
                assert forall|j: int| 0 <= j < self.animations@.len() implies (#[trigger] self.animations@[j]).animator.wf() by {
                    if j != i {
                        assert(self.animations@[j] == before[j]);
                    }
                }
                assert forall|j: int| 0 <= j < i implies (#[trigger] a0[j]).animator.stepped(self.animations@[j].animator, now, outs[j]) by {
                    assert(self.animations@[j] == before[j]);
                }
                lemma_sets_applied_scene(*old(self), s_before, *self, outs.flatten_alt());
                assert(outs.flatten_alt() + vals@.subrange(0, 0) =~= outs.flatten_alt());
            }
            let ghost stepped_anims = self.animations@;
            let mut k: usize = 0;
            while k < vals.len()
                invariant
                    self.wf(),
                    self.animations@ == stepped_anims,
                    self.handlers() == old(self).handlers(),
                    self.links() == old(self).links(),
                    self.slot_table() == old(self).slot_table(),
                    k <= vals@.len(),
                    HandlersBean::sets_applied(*old(self), *self, outs.flatten_alt() + vals@.subrange(0, k as int)),
                decreases vals@.len() - k,
            {
                let (t, v) = vals[k];
                let ghost sb = *self;
                let c = self.set(t, v);
                proof {
                    reveal(HandlersBean::sets_applied);
                    let pre = outs.flatten_alt() + vals@.subrange(0, k as int);
                    let nxt = outs.flatten_alt() + vals@.subrange(0, k + 1);
                    assert(nxt.drop_last() =~= pre);
                    assert(nxt.last() == vals@[k as int]);
                    assert(HandlersBean::set_result(sb, *self, t, v, c));
                }
                k = k + 1;
            }
            proof {
                reveal(HandlersBean::sets_applied);
                let outs2 = outs.push(vals@);
                assert(outs2.drop_last() =~= outs);
                assert(vals@.subrange(0, vals@.len() as int) =~= vals@);
                assert(outs2.flatten_alt() == outs.flatten_alt() + vals@);
                outs = outs2;
                assert forall|j: int| 0 <= j < i + 1 implies (#[trigger] a0[j]).animator.stepped(self.animations@[j].animator, now, outs[j]) by {
                    if j < i {
                        assert(outs[j] == outs2.drop_last()[j]);
                    }
                }
            }
            i = i + 1;
        }
    }

    /// `new` is `old` after each `(id, value)` of `vals` was handed to `set`
    /// in order; between two of them only the animations may change.
    #[verifier::opaque]
    pub open spec fn sets_applied(old: HandlersBean, new: HandlersBean, vals: Seq<(usize, FieldSelector)>) -> bool
        decreases vals.len(),
    {
        if vals.len() == 0 {
            new.elems() == old.elems() && new.slot_table() == old.slot_table() && new.links() == old.links()
        } else {
            exists|b: HandlersBean, m: HandlersBean, c: bool| {
                &&& HandlersBean::sets_applied(old, b, vals.drop_last())
                &&& #[trigger] HandlersBean::set_result(b, m, vals.last().0, vals.last().1, c)
                &&& new.elems() == m.elems()
                &&& new.slot_table() == m.slot_table()
                &&& new.links() == m.links()
            }
        }
    }

    /// `new` is `old` after the completion callbacks `cbs` had their impacts
    /// applied in order.
    #[verifier::opaque]
    pub open spec fn callbacks_run(old: HandlersBean, new: HandlersBean, cbs: Seq<HandlerCallback>, now: u64) -> bool
        decreases cbs.len(),
    {
        if cbs.len() == 0 {
            new == old
        } else {
            exists|mid: HandlersBean| {
                &&& HandlersBean::callbacks_run(old, mid, cbs.drop_last(), now)
                &&& #[trigger] HandlersBean::impacted(mid, new, cbs.last().response(mid).0, now)
            }
        }
    }

    /// Retires the finished animations and applies the impacts of their
    /// completion callbacks, in order.
    pub fn remove_finished_animations(&mut self, now: u64)
        requires
            old(self).wf(),
        ensures
            final(self).wf(),
            exists|retired: HandlersBean| {
                &&& retired.running() == unfinished(old(self).running())
                &&& retired.elems() == old(self).elems()
                &&& retired.slot_table() == old(self).slot_table()
                &&& retired.links() == old(self).links()
                &&& retired.handlers() == old(self).handlers()
                &&& retired.events() == old(self).events()
                &&& #[trigger] HandlersBean::callbacks_run(retired, *final(self), finish_callbacks(old(self).running()), now)
            },
    {
        let callbacks = self.retire_finished();
        let ghost retired = *self;
        proof {
            reveal(HandlersBean::callbacks_run);
            assert(callbacks@.subrange(0, 0) =~= Seq::<HandlerCallback>::empty());
        }
        let mut i: usize = 0;
        while i < callbacks.len()
            invariant
                self.wf(),
                i <= callbacks@.len(),
                HandlersBean::callbacks_run(retired, *self, callbacks@.subrange(0, i as int), now),
            decreases callbacks@.len() - i,
        {
            let ghost sb = *self;
            let (impact, _) = callbacks[i].respond(self);
            self.process_impact(impact, now);
            proof {
                reveal(HandlersBean::callbacks_run);
                let nxt = callbacks@.subrange(0, i + 1);
                assert(nxt.drop_last() =~= callbacks@.subrange(0, i as int));
                assert(nxt.last() == callbacks@[i as int]);
                assert(HandlersBean::impacted(sb, *self, impact, now));
            }
            i = i + 1;
        }
        proof {
            reveal(HandlersBean::callbacks_run);
            assert(callbacks@.subrange(0, callbacks@.len() as int) =~= callbacks@);
        }
    }

    /// `new` is `old` with `e` queued.
    pub open spec fn event_pushed(old: HandlersBean, new: HandlersBean, e: UserEvent) -> bool {
        &&& new.events() == old.events().push(e)
        &&& new.elems() == old.elems()
        &&& new.slot_table() == old.slot_table()
        &&& new.links() == old.links()
        &&& new.handlers() == old.handlers()
        &&& new.running() == old.running()
        &&& new.widgets() == old.widgets()
    }

    /// Queues a user event for the next drain.
    pub fn push_event(&mut self, event: UserEvent)
        requires
            old(self).wf(),
        ensures
            final(self).wf(),
            HandlersBean::event_pushed(*old(self), *final(self), event),
    {
        self.event_queue.push(event);
    }

    /// The events waiting for the next drain.
    pub fn queued_events(&self) -> (r: &Vec<UserEvent>)
        ensures
            r@ == self.events(),
    {
        &self.event_queue
    }

    /// The number of running animations.
    pub fn animation_count(&self) -> (r: usize)
        ensures
            r == self.running().len(),
    {
        self.animations.len()
    }

    /// The number of live elements.
    pub fn element_count(&self) -> (r: usize)
        ensures
            r == self.elems().len(),
    {
        self.elements.len()
    }

    /// The live elements in storage order, for drawing.
    pub fn elements(&self) -> (r: &Vec<Element>)
        ensures
            r@ == self.elems(),
    {
        &self.elements
    }

    /// The bindings whose source is `source_id`, in the order they were added.
    pub fn bindings_of(&self, source_id: usize) -> (r: Option<&Vec<Binding>>)
        ensures
            match r {
                Some(v) => self.links().contains_key(source_id) && v@ == self.links()[source_id],
                None => !self.links().contains_key(source_id),
            },
    {
        links_get(&self.dep_links, source_id)
    }
}

impl HandlersBean {
    /// `new` is `old` after one drain of the event queue.
    pub open spec fn drained(old: HandlersBean, new: HandlersBean) -> bool {
        exists|start: HandlersBean, end: HandlersBean, ws: Seq<Widget>, produced: Seq<UserEvent>| {
            &&& start.elems() == old.elems()
            &&& start.slot_table() == old.slot_table()
            &&& start.links() == old.links()
            &&& start.handlers() == old.handlers()
            &&& start.running() == old.running()
            &&& start.events().len() == 0
            &&& start.widgets().len() == 0
            &&& #[trigger] drained_events(old.events(), old.widgets(), ws, start, end, produced)
            &&& new.widgets() == ws
            &&& new.events() == end.events() + produced
            &&& new.elems() == end.elems()
            &&& new.slot_table() == end.slot_table()
            &&& new.links() == end.links()
            &&& new.handlers() == end.handlers()
            &&& new.running() == end.running()
        }
    }

    /// Lets `component` create its elements under `parent`, then keeps it to
    /// receive user events. Returns the id of its main element.
    pub fn add_component(&mut self, component: Widget, parent: usize) -> (r: Option<usize>)
        requires
            old(self).wf(),
        ensures
            final(self).wf(),
            exists|start: HandlersBean, end: HandlersBean, w: Widget| {
                &&& start.elems() == old(self).elems()
                &&& start.slot_table() == old(self).slot_table()
                &&& start.links() == old(self).links()
                &&& start.handlers() == old(self).handlers()
                &&& start.running() == old(self).running()
                &&& start.events() == old(self).events()
                &&& #[trigger] component.initialized(w, parent, start, end, r)
                &&& final(self).widgets() == old(self).widgets().push(w)
                &&& final(self).elems() == end.elems()
                &&& final(self).slot_table() == end.slot_table()
                &&& final(self).links() == end.links()
                &&& final(self).handlers() == end.handlers()
                &&& final(self).running() == end.running()
                &&& final(self).events() == end.events()
            },
    {
        let mut c = component;
        let mut kept: Vec<Widget> = Vec::new();
        std::mem::swap(&mut kept, &mut self.components);
        let ghost start = *self;
        let root = c.initialize(parent, self);
        let ghost end = *self;
        kept.push(c);
        self.components = kept;
        proof {
            assert(component.initialized(c, parent, start, end, root));
        }
        root
    }

    /// Drains the event queue once: every queued event goes to every
    /// component in turn. What the components produce, and what is queued
    /// meanwhile, waits for the next drain.
    pub fn process_events(&mut self)
        requires
            old(self).wf(),
        ensures
            final(self).wf(),
            HandlersBean::drained(*old(self), *final(self)),
    {
        let mut queue: Vec<UserEvent> = Vec::new();
        std::mem::swap(&mut queue, &mut self.event_queue);
        let mut comps: Vec<Widget> = Vec::new();
        std::mem::swap(&mut comps, &mut self.components);
        let ghost start = *self;
        let ghost ws0 = comps@;
        let ghost q = queue@;
        let mut produced: Vec<UserEvent> = Vec::new();
        let mut i: usize = 0;
        proof {
            reveal(delivered);
            reveal(drained_events);
            assert(q.subrange(0, 0) =~= Seq::<UserEvent>::empty());
        }
        while i < queue.len()
            invariant
                self.wf(),
                queue@ == q,
                comps@.len() == ws0.len(),
                i <= q.len(),
                drained_events(q.subrange(0, i as int), ws0, comps@, start, *self, produced@),
            decreases q.len() - i,
        {
            let event = queue[i];
            let ghost wsm = comps@;
            let ghost uim = *self;
            let ghost o1 = produced@;
            let mut j: usize = 0;
            proof {
                reveal(delivered);
                reveal(drained_events);
                assert(wsm.subrange(0, 0) =~= comps@.subrange(0, 0));
                assert(produced@.subrange(o1.len() as int, produced@.len() as int) =~= Seq::<UserEvent>::empty());
            }
            while j < comps.len()
                invariant
                    self.wf(),
                    comps@.len() == wsm.len(),
                    j <= wsm.len(),
                    comps@.subrange(j as int, wsm.len() as int) == wsm.subrange(j as int, wsm.len() as int),
                    produced@.len() >= o1.len(),
                    produced@.subrange(0, o1.len() as int) == o1,
                    delivered(wsm.subrange(0, j as int), comps@.subrange(0, j as int), event, uim, *self,
                        produced@.subrange(o1.len() as int, produced@.len() as int)),
                decreases wsm.len() - j,
            {
                let ghost before = *self;
                let ghost cs = comps@;
                let ghost pr = produced@;
                proof {
                    reveal(delivered);
                    reveal(drained_events);
                    assert(delivered(wsm.subrange(0, j as int), cs.subrange(0, j as int), event, uim, before,
                        pr.subrange(o1.len() as int, pr.len() as int)));
                    assert(cs.subrange(j as int, wsm.len() as int)[0] == cs[j as int]);
                    assert(wsm.subrange(j as int, wsm.len() as int)[0] == wsm[j as int]);
                }
                let r = comps[j].handle(&event, self);
                let ghost out = events_of(r);
                match r {
                    Some(mut evts) => produced.append(&mut evts),
                    None => {},
                }
                proof {
                    reveal(delivered);
                    reveal(drained_events);
                    assert(produced@ =~= pr + out);
                    let pre_w = wsm.subrange(0, j + 1);
                    let new_w = comps@.subrange(0, j + 1);
                    assert(pre_w.drop_last() =~= wsm.subrange(0, j as int));
                    assert(cs.subrange(0, j as int) =~= comps@.subrange(0, j as int));
                    let prev = pr.subrange(o1.len() as int, pr.len() as int);
                    let cur = produced@.subrange(o1.len() as int, produced@.len() as int);
                    assert(pre_w.drop_last() == wsm.subrange(0, j as int));
                    assert(new_w.drop_last() == cs.subrange(0, j as int));
                    assert(delivered(pre_w.drop_last(), new_w.drop_last(), event, uim, before, prev));
                    assert(pre_w.last().handled(new_w.last(), event, before, *self, out));
                    assert(cur == prev + out);
                    assert(pre_w.len() > 0 && new_w.len() == pre_w.len());
                    lemma_delivered_step(pre_w, new_w, event, uim, before, *self, prev, out);
                    assert(pre_w == wsm.subrange(0, j + 1));
                    assert(pre_w.last() == cs[j as int]);
                    assert(cs[j as int].handled(new_w.last(), event, before, *self, out));
                    assert(produced@.subrange(o1.len() as int, produced@.len() as int)
                        =~= pr.subrange(o1.len() as int, pr.len() as int) + out);
                    assert(produced@.subrange(0, o1.len() as int) =~= pr.subrange(0, o1.len() as int));
                    assert(comps@ == cs.update(j as int, comps@[j as int]));
                    assert(comps@.subrange(j + 1, wsm.len() as int) =~= cs.subrange(j + 1, wsm.len() as int));
                    assert(cs.subrange(j + 1, wsm.len() as int) =~= wsm.subrange(j + 1, wsm.len() as int)) by {
                        assert forall|k: int| 0 <= k < wsm.len() - (j + 1) implies #[trigger] cs.subrange(j + 1, wsm.len() as int)[k]
                            == wsm.subrange(j + 1, wsm.len() as int)[k] by {
                            assert(cs.subrange(j as int, wsm.len() as int)[k + 1] == wsm.subrange(j as int, wsm.len() as int)[k + 1]);
                        }
                    }
                    assert(new_w.drop_last() =~= comps@.subrange(0, j as int));
                }
                j = j + 1;
            }
            proof {
                reveal(delivered);
                reveal(drained_events);
                assert(wsm.subrange(0, wsm.len() as int) =~= wsm);
                assert(comps@.subrange(0, wsm.len() as int) =~= comps@);
                let qi = q.subrange(0, i + 1);
                assert(qi.drop_last() =~= q.subrange(0, i as int));
                assert(qi.last() == event);
                assert(produced@ =~= o1 + produced@.subrange(o1.len() as int, produced@.len() as int));
                let o2 = produced@.subrange(o1.len() as int, produced@.len() as int);
                assert(delivered(wsm, comps@, event, uim, *self, o2));
                assert(drained_events(qi.drop_last(), ws0, wsm, start, uim, o1));
                lemma_drained_step(qi, ws0, wsm, comps@, start, uim, *self, o1, o2);
            }
            i = i + 1;
        }
        let ghost end = *self;
        self.components = comps;
        let ghost pr = produced@;
        self.event_queue.append(&mut produced);
        proof {
            reveal(delivered);
            reveal(drained_events);
            assert(q.subrange(0, q.len() as int) =~= q);
            assert(self.events() == end.events() + pr);
            assert(drained_events(old(self).events(), old(self).widgets(), self.widgets(), start, end, pr));
        }
    }
}

proof fn lemma_delivered_step(ws: Seq<Widget>, ws2: Seq<Widget>, e: UserEvent, ui: HandlersBean, mid: HandlersBean,
    ui2: HandlersBean, o1: Seq<UserEvent>, o2: Seq<UserEvent>)
    requires
        ws.len() > 0,
        ws2.len() == ws.len(),
        delivered(ws.drop_last(), ws2.drop_last(), e, ui, mid, o1),
        ws.last().handled(ws2.last(), e, mid, ui2, o2),
    ensures
        delivered(ws, ws2, e, ui, ui2, o1 + o2),
{
    reveal(delivered);
    let out = o1 + o2;
    assert(out.subrange(out.len() - o2.len(), out.len() as int) =~= o2);
    assert(out.subrange(0, out.len() - o2.len()) =~= o1);
}

proof fn lemma_drained_step(q: Seq<UserEvent>, ws: Seq<Widget>, wsm: Seq<Widget>, ws2: Seq<Widget>, ui: HandlersBean,
    uim: HandlersBean, ui2: HandlersBean, o1: Seq<UserEvent>, o2: Seq<UserEvent>)
    requires
        q.len() > 0,
        drained_events(q.drop_last(), ws, wsm, ui, uim, o1),
        delivered(wsm, ws2, q.last(), uim, ui2, o2),
    ensures
        drained_events(q, ws, ws2, ui, ui2, o1 + o2),
{
    reveal(drained_events);
    let out = o1 + o2;
    assert(out.subrange(out.len() - o2.len(), out.len() as int) =~= o2);
    assert(out.subrange(0, out.len() - o2.len()) =~= o1);
}

/// Event `e` handed to each widget of `ws` in order, which become `ws2`,
/// taking the store from `ui` to `ui2` and producing `out`.
#[verifier::opaque]
pub open spec fn delivered(ws: Seq<Widget>, ws2: Seq<Widget>, e: UserEvent, ui: HandlersBean, ui2: HandlersBean, out: Seq<UserEvent>) -> bool
    decreases ws.len(),
{
    if ws.len() == 0 {
        ws2.len() == 0 && ui2 == ui && out.len() == 0
    } else {
        exists|mid: HandlersBean, o2: Seq<UserEvent>| {
            &&& ws2.len() == ws.len()
            &&& o2.len() <= out.len()
            &&& out.subrange(out.len() - o2.len(), out.len() as int) == o2
            &&& delivered(ws.drop_last(), ws2.drop_last(), e, ui, mid, out.subrange(0, out.len() - o2.len()))
            &&& #[trigger] ws.last().handled(ws2.last(), e, mid, ui2, o2)
        }
    }
}

/// The events of `q` each delivered to all widgets in turn, the widgets
/// going from `ws` to `ws2` and the store from `ui` to `ui2`, producing `out`.
#[verifier::opaque]
pub open spec fn drained_events(q: Seq<UserEvent>, ws: Seq<Widget>, ws2: Seq<Widget>, ui: HandlersBean, ui2: HandlersBean, out: Seq<UserEvent>) -> bool
    decreases q.len(),
{
    if q.len() == 0 {
        ws2 == ws && ui2 == ui && out.len() == 0
    } else {
        exists|wsm: Seq<Widget>, uim: HandlersBean, o2: Seq<UserEvent>| {
            &&& o2.len() <= out.len()
            &&& out.subrange(out.len() - o2.len(), out.len() as int) == o2
            &&& drained_events(q.drop_last(), ws, wsm, ui, uim, out.subrange(0, out.len() - o2.len()))
            &&& #[trigger] delivered(wsm, ws2, q.last(), uim, ui2, o2)
        }
    }
}

/// A step of a drag.
#[derive(Clone, Copy, Debug)]
pub enum DragOp {
    /// The pointer moved by this offset since the drag began.
    Move(i32, i32),
    /// The element was dropped.
    Drop,
    /// The drag was abandoned.
    Cancel,
}

impl HandlersBean {
    /// `new` is `old` after the drag step `op` on element `id`, which
    /// returned `r`.
    pub open spec fn dragged(old: HandlersBean, new: HandlersBean, id: usize, op: DragOp, r: bool) -> bool {
        let o = old.elem(id);
        let n = new.elem(id);
        &&& r == old.present(id)
        &&& forall|x: usize| #[trigger] new.present(x) == old.present(x)
        &&& forall|x: usize| old.present(x) && x != id ==> #[trigger] new.elem(x) == old.elem(x)
        &&& r ==> n.same_apart_from_drag(&o)
        &&& r ==> match op {
            DragOp::Move(dx, dy) => n.drag_offset() == (if o.drag_offset().is_some() {
                Some(DraggableElement { drag_x: dx, drag_y: dy })
            } else {
                None::<DraggableElement>
            }) && n.base() == o.base(),
            DragOp::Drop => n.drag_offset() == (if o.drag_offset().is_some() {
                Some(DraggableElement { drag_x: 0, drag_y: 0 })
            } else {
                None::<DraggableElement>
            }) && n.base() == (match o.drag_offset() {
                Some(d) => (clamp_i32(o.base().0 + d.drag_x) as i32, clamp_i32(o.base().1 + d.drag_y) as i32),
                None => o.base(),
            }),
            DragOp::Cancel => n.drag_offset() == (if o.drag_offset().is_some() {
                Some(DraggableElement { drag_x: 0, drag_y: 0 })
            } else {
                None::<DraggableElement>
            }) && n.base() == o.base(),
        }
        &&& new.links() == old.links()
        &&& new.handlers() == old.handlers()
        &&& new.running() == old.running()
        &&& new.events() == old.events()
        &&& new.widgets() == old.widgets()
    }

    /// Applies a drag step to element `id`; returns whether it is alive.
    pub fn drag_element(&mut self, id: usize, op: DragOp) -> (r: bool)
        requires
            old(self).wf(),
        ensures
            final(self).wf(),
            HandlersBean::dragged(*old(self), *final(self), id, op, r),
    {
        let i = match self.index_of(id) {
            Some(i) => i,
            None => { return false; },
        };
        let ghost s0 = *self;
        match op {
            DragOp::Move(dx, dy) => self.elements[i].process_drag(dx, dy),
            DragOp::Drop => self.elements[i].process_drop(),
            DragOp::Cancel => self.elements[i].process_cancel(),
        }
        proof {
            assert forall|j: int| 0 <= j < self.elements@.len() implies (#[trigger] self.elements@[j]).same_tree(s0.elements@[j]) by {
                if j != i {
                    assert(self.elements@[j] == s0.elements@[j]);
                }
            }
            self.lemma_same_tree_wf(s0);
            assert forall|x: usize| s0.present(x) && x != id implies #[trigger] self.elem(x) == s0.elem(x) by {
                assert(s0.index(x) != i);
            }
        }
        true
    }
}

} // verus!
