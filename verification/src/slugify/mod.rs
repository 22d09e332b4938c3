//! Slugify orchestration: the slugifier combined with date-aware pre and
//! post passes.
pub mod camel_iso;
pub mod textual;
