//! When the terrain textures count as ready for use.
use vstd::prelude::*;

verus! {

/// How far the loading of a group of assets has come.
#[derive(Clone, Copy, Debug, PartialEq, Eq, Structural)]
pub enum GroupLoad {
    /// Some asset of the group is still loading.
    Loading,
    /// Every asset of the group is loaded.
    Loaded,
    /// Not loaded, failed or unloaded.
    Other,
}

/// Whether a frame walks the textures to set their samplers: only while they
/// are not ready yet and the whole group has loaded.
pub fn should_configure(ready: bool, load: GroupLoad) -> (r: bool)
    ensures
        r == (!ready && load == GroupLoad::Loaded),
{
    !ready && match load {
        GroupLoad::Loaded => true,
        _ => false,
    }
}

/// Readiness after a frame in which the group was in state `load` and
/// `configured_any` says whether some texture had its sampler set: ready
/// stays ready; a loaded group becomes ready once a texture was
/// configured; a group still loading is not ready.
pub fn ready_after(ready: bool, load: GroupLoad, configured_any: bool) -> (r: bool)
    ensures
        r == (if ready {
            true
        } else {
            match load {
                GroupLoad::Loaded => configured_any,
                GroupLoad::Loading => false,
                GroupLoad::Other => false,
            }
        }),
{
    if ready {
        return true;
    }
    match load {
        GroupLoad::Loaded => configured_any,
        GroupLoad::Loading => false,
        GroupLoad::Other => ready,
    }
}

} // verus!
