//! What most users of this crate need.
pub use crate::settings::SkinnedAabbPlugin;
