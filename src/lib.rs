//! Table rendering in two layouts and `::`-delimited hierarchical paths.
pub mod path;
pub mod table;
pub mod output_format;
pub mod commands;
pub mod actions;
pub mod column_filter;
