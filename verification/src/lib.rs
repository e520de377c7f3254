//! Core logic of a component-hierarchy manager: marker files that record a
//! component's source and documentation licenses are discovered in a
//! deterministic order, their license fields are deduplicated while keeping
//! first-seen order, and the combined license expression is written back into
//! a manifest file by a key-scoped line rewrite.
//!
//! Everything here works on plain values (strings and vectors of strings);
//! the surrounding process, filesystem and network plumbing hand those values
//! in and carry the results back out.

pub mod amalgamate;
pub mod component;
pub mod kv;
pub mod output;
pub mod platform;
pub mod render;
pub mod templates;
pub mod text;
pub mod walk;

pub use amalgamate::amalgamate_licenses;
pub use amalgamate::get_licenses;
pub use amalgamate::license_expression;
pub use amalgamate::list_all_licenses;
pub use component::add_user_pass_to_https;
pub use component::get_level;
pub use component::get_version;
pub use kv::get_value;
pub use kv::update_value;
pub use output::combine_sroutputs;
pub use output::SROutput;
pub use platform::get_newline;
pub use render::render_template;
pub use walk::get_parent_dir;
pub use walk::sort_paths;
pub use walk::str_lex_leq;
