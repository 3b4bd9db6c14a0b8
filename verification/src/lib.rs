use vstd::prelude::*;

pub mod text;
pub mod week;
pub mod note;
pub mod order;
pub mod graph;
pub mod components;
pub mod view;
pub mod screen;
pub mod hotkey;
pub mod single_instance;
pub mod reading;
pub mod images;
pub mod vocab;

verus! {
} // verus!
