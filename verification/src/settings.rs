//! The plugin and its settings.
use vstd::prelude::*;

verus! {

/// Stands for keeping the bounding boxes of skinned meshes up to date. It is registered with an app
/// by the plugin of the same name.
#[derive(Copy, Clone, Debug)]
pub struct SkinnedAabbPlugin;

impl Default for SkinnedAabbPlugin {
    fn default() -> (r: Self)
        ensures
            r == SkinnedAabbPlugin,
    {
        SkinnedAabbPlugin
    }
}

/// How the bounding boxes are updated.
#[derive(Copy, Clone, Debug, PartialEq, Eq, Structural)]
pub struct SkinnedAabbPluginSettings {
    /// If true, the boxes are updated on multiple threads. Defaults to true.
    pub parallel: bool,
}

impl Default for SkinnedAabbPluginSettings {
    fn default() -> (r: Self)
        ensures
            r.parallel,
    {
        SkinnedAabbPluginSettings { parallel: true }
    }
}

} // verus!
