//! Reactive core of a retained-mode 2D user interface: a scene graph of
//! elements, field mutations that cascade through bindings, time-driven
//! animators, a handler/impact command protocol and colour-coded picking.

pub mod fields;
pub mod heart_rate;
pub mod drag;
pub mod element;
pub mod links;
pub mod messaging;
pub mod picking;
pub mod scene;
pub mod texture_unit;
pub mod ui;
pub mod animation;
pub mod binding;
pub mod components;
