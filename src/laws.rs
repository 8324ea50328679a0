//! Properties that hold across the library's operations.
use vstd::prelude::*;
use crate::cache::{CacheEntry, HeightBinding, ImageHandle};
use crate::prepare::{height_follows, HeightSource};

verus! {

/// A cache entry never carries both a uniform height buffer and a height
/// texture: whatever the preparation stages did, at most one is bound.
pub proof fn lemma_height_exclusive(e: CacheEntry)
    ensures
        !(e.has_uniform_height() && e.has_height_texture()),
        e.has_uniform_height() ==> e.height matches HeightBinding::Uniform { .. },
        e.has_height_texture() ==> e.height matches HeightBinding::Texture { .. },
{
}

/// An entry whose height was last set from a texture has the texture bound
/// and no uniform height buffer, whether the texture was resident or not.
pub proof fn lemma_texture_mode_has_no_uniform(e: CacheEntry, t: ImageHandle, resolved: Seq<ImageHandle>)
    requires
        height_follows(e.height, HeightSource::Texture(t), resolved),
    ensures
        e.has_height_texture(),
        !e.has_uniform_height(),
{
}

} // verus!
