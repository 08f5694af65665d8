//! A JSON document explorer: a JSON tree is flattened into a list of
//! entries (one per value, in document order), which can be filtered by a
//! regular expression, edited in place, and rendered row by row with
//! folded containers.

pub mod json_tree;
pub mod json_utils;
pub mod json_enviroment;
pub mod text;
pub mod text_filter;
pub mod ui_handles;
pub mod input_manager;
pub mod json_parser;
