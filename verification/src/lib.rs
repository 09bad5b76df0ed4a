//! Markdown-it plugins: Jotdown-style attributes, icon shortcodes, spans,
//! superscript/subscript and an HTML validator, with their logic verified.
pub mod attrs;
pub mod icon;
pub mod jotdown_attr;
pub mod rules;
pub mod span;
pub mod sup_sub;
pub mod text;
