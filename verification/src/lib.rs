//! The core of Zygote: node definitions and graphs, their parameters and
//! uniform layout, the protocol between the timeline UI and a renderer, and
//! the decisions of the UI and of the renderer supervisor.
use vstd::prelude::*;

pub mod args;
pub mod camera;
pub mod graph;
pub mod graph_params;
pub mod graph_view;
pub mod header;
pub mod keys;
pub mod layout;
pub mod link;
pub mod modulate;
pub mod node_def;
pub mod params;
pub mod projects;
pub mod protocol;
pub mod shader;
pub mod shell;
pub mod supervisor;
pub mod text;
pub mod timeline;

verus! {

} // verus!
