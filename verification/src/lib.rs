//! Editing Starlark build files and large text buffers, and the decisions
//! the editor makes around them.
pub mod batch;
pub mod big;
pub mod buck;
pub mod dirs;
pub mod edit;
pub mod graph;
pub mod index;
pub mod install;
pub mod lang;
pub mod lines;
pub mod menu;
pub mod nesting;
pub mod outline;
pub mod paths;
pub mod piece;
pub mod recent;
pub mod starlark;
pub mod strings;
pub mod tabs;
pub mod template;
pub mod utf8_text;
pub mod workbench;
