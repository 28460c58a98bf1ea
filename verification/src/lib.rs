//! Architecture documentation generator.
//!
//! Component README files carry a small metadata block at their top. This
//! crate extracts that metadata, groups the components by category and renders
//! one Markdown document. Every function states its behaviour as a contract
//! over sequences of characters.

pub mod component;
pub mod config;
pub mod front_matter;
pub mod generator;
pub mod grouping;
pub mod order;
pub mod pattern;
pub mod text;

pub use component::{component_from, keep_declared, relative_path, Component};
pub use config::{CategoryConfig, Config, DEFAULT_TITLE};
pub use front_matter::{extract_first_paragraph, extract_front_matter, FrontMatter};
pub use generator::generate_document;
pub use grouping::{group_by_category, order_categories, CategoryGroup};
pub use pattern::get_base_dir_from_pattern;
