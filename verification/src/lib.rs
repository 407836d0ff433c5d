//! A dynamic tiling window manager's decision logic: client lists, tags,
//! layouts, size hints, focus and the text helpers of its status bar.

use vstd::prelude::*;

pub mod bar;
pub mod clients;
pub mod commands;
pub mod config;
pub mod drag;
pub mod engine;
pub mod events;
pub mod laws;
pub mod manage;
pub mod lifecycle;
pub mod membership;
pub mod focus;
pub mod geom;
pub mod hints;
pub mod input;
pub mod model;
pub mod procs;
pub mod rules;
pub mod seqs;
pub mod stack;
pub mod swallow;
pub mod tags;
pub mod text;
pub mod transfer;
pub mod util;
pub mod utf8;
pub mod window;
pub mod xres;

verus! {

} // verus!
