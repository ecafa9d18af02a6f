//! An engine for browsing live publish/subscribe traffic in a terminal:
//! a hierarchical topic tree with per-topic message history, search,
//! visibility queries and render projections, plus the selection and
//! focus state machines that drive the interactive session.

pub mod controller;
pub mod laws;
pub mod items;
pub mod overview;
pub mod payload;
pub mod text;
pub mod tree;
