//! A lazy Pure Data engine: typed messages, nodes that turn inlet values into
//! outlet values, patches that describe how nodes are wired, and the planning
//! that turns a changed patch into spawn and despawn work.

pub mod data;
pub mod signal;
pub mod patch;
pub mod activation;
pub mod nodes;
pub mod loading;
pub mod mapping;
