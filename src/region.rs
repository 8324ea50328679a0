//! The region-wide uniforms: colours and wind, with the wind-noise texture,
//! shared by every chunk and rebuilt only when something they depend on
//! changed.
use vstd::prelude::*;
use crate::cache::{CacheEntry, EntityId, ImageHandle, TextureRef};
use crate::deferred::handle_resolved;
use crate::gpu::{buffer_command, Binding, BufferUsage, GpuCommand, Layout};
use crate::prepare::{extends, id_after, view_for, GrassRenderer};

verus! {

/// The region configuration, each component as the bit pattern of a 32-bit
/// float.
#[derive(Clone, Copy, Debug)]
pub struct RegionConfig {
    pub main_color: [u32; 4],
    pub bottom_color: [u32; 4],
    pub wind: [u32; 2],
}

/// The uniform block the shader reads: both colours, the wind vector, and
/// two words of padding to a multiple of sixteen bytes.
pub open spec fn shader_layout(c: RegionConfig) -> Seq<u32> {
    c.main_color@ + c.bottom_color@ + c.wind@ + seq![0u32, 0u32]
}

/// The words of the shader's uniform block for `config`.
pub fn shader_region_words(config: &RegionConfig) -> (w: Vec<u32>)
    ensures
        w@ == shader_layout(*config),
{
    let mut w: Vec<u32> = Vec::new();
    w.push(config.main_color[0]);
    w.push(config.main_color[1]);
    w.push(config.main_color[2]);
    w.push(config.main_color[3]);
    w.push(config.bottom_color[0]);
    w.push(config.bottom_color[1]);
    w.push(config.bottom_color[2]);
    w.push(config.bottom_color[3]);
    w.push(config.wind[0]);
    w.push(config.wind[1]);
    w.push(0);
    w.push(0);
    assert(w@ =~= shader_layout(*config));
    w
}

/// The region bind group can be kept: the configuration did not change,
/// the wind-noise view is the one it was built with, and no chunk came or
/// went.
pub open spec fn region_is_current(
    r: GrassRenderer,
    config_changed: bool,
    noise: ImageHandle,
    resolved: Seq<ImageHandle>,
) -> bool {
    !config_changed && r.last_noise == Some(view_for(noise, resolved)) && !r.cache_changed
}

impl GrassRenderer {
    /// Rebuilds the region uniform buffer and bind group and points every
    /// chunk at it, unless the bind group is current.
    pub fn prepare_uniform_buffers(
        &mut self,
        config: &RegionConfig,
        config_changed: bool,
        noise: ImageHandle,
        resolved: &Vec<ImageHandle>,
        out: &mut Vec<GpuCommand>,
    )
        requires
            old(self).wf(),
        ensures
            final(self).wf(),
            region_is_current(*old(self), config_changed, noise, resolved@) ==> *final(self) == *old(self)
                && final(out)@ == old(out)@,
            !region_is_current(*old(self), config_changed, noise, resolved@) ==> {
                &&& final(out)@.len() == old(out)@.len() + 2
                &&& extends(final(out)@, old(out)@)
                &&& final(out)@[old(out)@.len() as int].is_buffer(
                    old(self).next_id,
                    BufferUsage::Uniform,
                    shader_layout(*config),
                )
                &&& final(out)@[old(out)@.len() + 1int].is_bind_group(
                    id_after(old(self).next_id),
                    Layout::Region,
                    Binding::Buffer(old(self).next_id),
                    Some(Binding::Asset(view_for(noise, resolved@))),
                )
                &&& final(self).cache@.dom() == old(self).cache@.dom()
                &&& forall|k: EntityId| #[trigger] final(self).cache@.contains_key(k)
                    ==> final(self).cache@[k] == (CacheEntry {
                        region_bindgroup: Some(id_after(old(self).next_id)),
                        ..old(self).cache@[k]
                    })
                &&& final(self).last_noise == Some(view_for(noise, resolved@))
                &&& !final(self).cache_changed
                &&& final(self).heights == old(self).heights
                &&& final(self).height_maps == old(self).height_maps
            },
    {
        let view = if handle_resolved(resolved, noise) {
            TextureRef::Image(noise)
        } else {
            TextureRef::Fallback
        };
        let same_view = match self.last_noise {
            Some(v) => v == view,
            None => false,
        };
        if !config_changed && same_view && !self.cache_changed {
            return;
        }
        let ghost out0 = out@;
        self.last_noise = Some(view);
        self.cache_changed = false;
        let buffer = self.fresh_id();
        out.push(buffer_command(buffer, BufferUsage::Uniform, shader_region_words(config)));
        let group = self.fresh_id();
        out.push(GpuCommand::BindGroup {
            id: group,
            layout: Layout::Region,
            first: Binding::Buffer(buffer),
            second: Some(Binding::Asset(view)),
        });
        self.cache.set_region_bindgroup(group);
        assert(out@.subrange(0, out0.len() as int) =~= out0);
    }
}

} // verus!
