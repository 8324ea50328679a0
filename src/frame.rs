//! One frame of preparation: the stages in their fixed order.
use vstd::prelude::*;
use crate::cache::{CacheEntry, EntityId, HeightBinding, ImageHandle, Instance, TextureRef};
use crate::deferred::{has_record, lemma_released_from, released};
use crate::gpu::GpuCommand;
use crate::packer::MAX_TEXELS;
use crate::positions::{
    explicit_emitted, instances_emitted, lemma_explicit_emitted_kept, lemma_instances_emitted_kept,
    ExplicitGrass,
};
use crate::prepare::{
    has_event, height_emitted, height_follows, height_map_emitted, height_map_follows, last_event,
    lemma_extends_trans, lemma_height_emitted_kept, lemma_height_map_emitted_kept, lemma_last_event_in,
    waits, GrassRenderer, HeightMapSource, HeightSource,
};
use crate::region::{region_is_current, RegionConfig};

verus! {

/// What the host observed this frame.
#[derive(Debug)]
pub struct FrameInput {
    /// The image assets that are resident on the GPU.
    pub resolved: Vec<ImageHandle>,
    /// Chunks whose explicit positions are new or changed.
    pub explicit: Vec<(EntityId, ExplicitGrass)>,
    /// Chunks whose instance data is new or changed.
    pub instances: Vec<(EntityId, Vec<Instance>)>,
    /// Chunks whose height source is new or changed.
    pub heights: Vec<(EntityId, HeightSource)>,
    /// Chunks whose terrain height map is new or changed.
    pub height_maps: Vec<(EntityId, HeightMapSource)>,
    pub region: RegionConfig,
    pub region_changed: bool,
    /// The wind-noise image asset.
    pub noise: ImageHandle,
}

/// What a frame of preparation asks of the host.
#[derive(Debug)]
pub struct FrameOutput {
    /// The GPU objects to create, in order.
    pub commands: Vec<GpuCommand>,
    /// Chunks that had change events but no cache entry yet.
    pub skipped: Vec<EntityId>,
}

impl FrameInput {
    /// The sizes the buffers and textures can hold.
    pub open spec fn within_limits(&self) -> bool {
        &&& forall|k: int| 0 <= k < self.explicit@.len()
            ==> (#[trigger] self.explicit@[k]).1.positions@.len() <= MAX_TEXELS
        &&& forall|k: int| 0 <= k < self.instances@.len()
            ==> (#[trigger] self.instances@[k]).1@.len() <= 0x3FFF_FFFF
    }

    /// Nothing changed: no events, and the region bind group of `r` is
    /// current.
    pub open spec fn is_quiet_for(&self, r: GrassRenderer) -> bool {
        &&& self.explicit@.len() == 0
        &&& self.instances@.len() == 0
        &&& self.heights@.len() == 0
        &&& self.height_maps@.len() == 0
        &&& region_is_current(r, self.region_changed, self.noise, self.resolved@)
    }
}

/// Nothing is pending in `r`.
pub open spec fn nothing_pending(r: GrassRenderer) -> bool {
    r.heights@.len() == 0 && r.height_maps@.len() == 0
}

impl GrassRenderer {
    /// The chunk stages of a frame, before the region uniforms: heights and
    /// height maps (pending loads first, then changes), explicit positions,
    /// and instance data.
    #[verifier::rlimit(100)]
    #[verifier::spinoff_prover]
    fn prepare_entries(&mut self, input: &FrameInput, commands: &mut Vec<GpuCommand>, skipped: &mut Vec<EntityId>)
        requires
            old(self).wf(),
            input.within_limits(),
            old(commands)@.len() == 0,
            old(skipped)@.len() == 0,
        ensures
            final(self).wf(),
            final(self).cache_changed == old(self).cache_changed,
            final(self).last_noise == old(self).last_noise,
            forall|k: EntityId| #[trigger] final(self).cache@.contains_key(k)
                ==> final(self).cache@[k].region_bindgroup == old(self).cache@[k].region_bindgroup,
            final(self).cache@.dom() == old(self).cache@.dom(),
            forall|k: int| 0 <= k < final(skipped)@.len() ==> !old(self).cache@.contains_key(#[trigger] final(skipped)@[k]),
            input.explicit@.len() == 0 && input.instances@.len() == 0 && input.heights@.len() == 0
                && input.height_maps@.len() == 0 && nothing_pending(*old(self))
                ==> *final(self) == *old(self) && final(commands)@.len() == 0,
            forall|x: EntityId| #[trigger] final(self).cache@.contains_key(x) ==> {
                &&& has_event(input.heights@, x) && !has_event(input.explicit@, x) ==> {
                    &&& height_follows(final(self).cache@[x].height, last_event(input.heights@, x), input.resolved@)
                    &&& has_record(final(self).heights@, x) == waits(last_event(input.heights@, x), input.resolved@)
                }
                &&& has_event(input.height_maps@, x) ==> {
                    &&& height_map_follows(final(self).cache@[x].height_map, last_event(input.height_maps@, x), input.resolved@)
                    &&& has_record(final(self).height_maps@, x) == !input.resolved@.contains(last_event(input.height_maps@, x).handle)
                }
                &&& has_event(input.explicit@, x) ==> {
                    let g = last_event(input.explicit@, x);
                    &&& final(self).cache@[x].explicit_count == g.positions@.len()
                    &&& final(self).cache@[x].explicit_xz_buffer is Some
                    &&& final(self).cache@[x].explicit_y is Some
                    &&& final(self).cache@[x].height matches HeightBinding::Uniform { height, .. } && height == g.height
                    &&& !has_record(final(self).heights@, x)
                }
                &&& has_event(input.instances@, x) ==> {
                    &&& final(self).cache@[x].instances@ == last_event(input.instances@, x)@
                    &&& final(self).cache@[x].instance_buffer is Some
                }
            },
            forall|j: int| 0 <= j < released(old(self).heights@, input.resolved@).len() ==> {
                let r = #[trigger] released(old(self).heights@, input.resolved@)[j];
                !has_event(input.heights@, r.entity) && !has_event(input.explicit@, r.entity) ==> {
                    &&& final(self).cache@[r.entity].height matches HeightBinding::Texture { texture, .. }
                        && texture == TextureRef::Image(r.handle)
                    &&& !has_record(final(self).heights@, r.entity)
                }
            },
            forall|j: int| 0 <= j < released(old(self).height_maps@, input.resolved@).len() ==> {
                let r = #[trigger] released(old(self).height_maps@, input.resolved@)[j];
                !has_event(input.height_maps@, r.entity) ==> {
                    &&& final(self).cache@[r.entity].height_map matches Some(m)
                        && m.texture == TextureRef::Image(r.handle) && m.extent == r.aux
                    &&& !has_record(final(self).height_maps@, r.entity)
                }
            },
            forall|x: EntityId| !old(self).cache@.contains_key(x) && (has_event(input.heights@, x)
                || has_event(input.height_maps@, x) || has_event(input.explicit@, x) || has_event(input.instances@, x))
                ==> final(skipped)@.contains(x),
            forall|x: EntityId| #[trigger] final(self).cache@.contains_key(x) ==> {
                &&& has_event(input.explicit@, x)
                    ==> explicit_emitted(final(commands)@, 0, final(self).cache@[x], last_event(input.explicit@, x))
                &&& has_event(input.instances@, x)
                    ==> instances_emitted(final(commands)@, 0, final(self).cache@[x], last_event(input.instances@, x)@)
            },
            forall|x: EntityId| #[trigger] final(self).cache@.contains_key(x) ==> {
                &&& (has_event(input.heights@, x) || has_record(released(old(self).heights@, input.resolved@), x))
                    && !has_event(input.explicit@, x)
                    ==> height_emitted(final(commands)@, 0, final(self).cache@[x].height)
                &&& (has_event(input.height_maps@, x) || has_record(released(old(self).height_maps@, input.resolved@), x))
                    ==> height_map_emitted(final(commands)@, 0, final(self).cache@[x].height_map)
            },
            forall|k: int| 0 <= k < final(self).heights@.len() ==> {
                let r = #[trigger] final(self).heights@[k];
                &&& !input.resolved@.contains(r.handle)
                &&& has_event(input.heights@, r.entity) ==> last_event(input.heights@, r.entity) == HeightSource::Texture(r.handle)
                &&& !has_event(input.heights@, r.entity) ==> old(self).heights@.contains(r)
            },
            forall|k: int| 0 <= k < final(self).height_maps@.len() ==> {
                let r = #[trigger] final(self).height_maps@[k];
                &&& !input.resolved@.contains(r.handle)
                &&& has_event(input.height_maps@, r.entity)
                    ==> last_event(input.height_maps@, r.entity) == (HeightMapSource { handle: r.handle, extent: r.aux })
                &&& !has_event(input.height_maps@, r.entity) ==> old(self).height_maps@.contains(r)
            },
    {
        let ghost s0 = *self;
        proof {
            lemma_released_from(s0.heights@, input.resolved@);
            lemma_released_from(s0.height_maps@, input.resolved@);
        }
        self.prepare_height_buffer(&input.heights, &input.resolved, commands, skipped);
        let ghost s1 = *self;
        let ghost c1 = commands@;
        let ghost k1 = skipped@;
        self.prepare_height_map_buffer(&input.height_maps, &input.resolved, commands, skipped);
        let ghost s2 = *self;
        let ghost c2 = commands@;
        let ghost k2 = skipped@;
        self.prepare_explicit_positions_buffer(&input.explicit, commands, skipped);
        let ghost s3 = *self;
        let ghost c3 = commands@;
        let ghost k3 = skipped@;
        self.prepare_instance_buffers(&input.instances, commands, skipped);
        let ghost s4 = *self;
        let ghost c4 = commands@;
        proof {
            assert forall|k: int| 0 <= k < self.heights@.len() implies {
                let r = #[trigger] self.heights@[k];
                &&& !input.resolved@.contains(r.handle)
                &&& has_event(input.heights@, r.entity) ==> last_event(input.heights@, r.entity) == HeightSource::Texture(r.handle)
                &&& !has_event(input.heights@, r.entity) ==> s0.heights@.contains(r)
            } by {
                let r = self.heights@[k];
                assert(s2.heights@.contains(r));
                let j = choose|j: int| 0 <= j < s1.heights@.len() && s1.heights@[j] == r;
                assert(s1.heights@[j] == r);
            }
        }
        proof {
            lemma_extends_trans(c2, c3, c4);
            lemma_extends_trans(c1, c2, c4);
            assert forall|x: EntityId| #[trigger] self.cache@.contains_key(x)
                && (has_event(input.heights@, x) || has_record(released(s0.heights@, input.resolved@), x))
                && !has_event(input.explicit@, x)
                implies height_emitted(c4, 0, self.cache@[x].height) by {
                assert(s3.cache@.contains_key(x));
                assert(s2.cache@.contains_key(x));
                assert(s1.cache@.contains_key(x));
                lemma_height_emitted_kept(c4, c1, 0, s1.cache@[x].height);
            }
            assert forall|x: EntityId| #[trigger] self.cache@.contains_key(x)
                && (has_event(input.height_maps@, x) || has_record(released(s0.height_maps@, input.resolved@), x))
                implies height_map_emitted(c4, 0, self.cache@[x].height_map) by {
                assert(s3.cache@.contains_key(x));
                assert(s2.cache@.contains_key(x));
                lemma_height_map_emitted_kept(c4, c2, 0, s2.cache@[x].height_map);
            }
        }
        proof {
            assert forall|x: EntityId| #[trigger] self.cache@.contains_key(x) && has_event(input.explicit@, x)
                implies explicit_emitted(c4, 0, self.cache@[x], last_event(input.explicit@, x)) by {
                assert(s3.cache@.contains_key(x));
                lemma_explicit_emitted_kept(c4, c3, 0, s3.cache@[x], last_event(input.explicit@, x));
            }
        }
        proof {
            assert forall|x: EntityId| !s0.cache@.contains_key(x) && (has_event(input.heights@, x)
                || has_event(input.height_maps@, x) || has_event(input.explicit@, x) || has_event(input.instances@, x))
                implies skipped@.contains(x) by {
                if has_event(input.heights@, x) {
                    let j = choose|j: int| 0 <= j < k1.len() && k1[j] == x;
                    assert(skipped@[j] == k1[j]);
                } else if has_event(input.height_maps@, x) {
                    let j = choose|j: int| 0 <= j < k2.len() && k2[j] == x;
                    assert(skipped@[j] == k2[j]);
                } else if has_event(input.explicit@, x) {
                    let j = choose|j: int| 0 <= j < k3.len() && k3[j] == x;
                    assert(skipped@[j] == k3[j]);
                }
            }
        }
        proof {
        }
        proof {
            assert forall|x: EntityId| #[trigger] self.cache@.contains_key(x) implies {
                &&& has_event(input.heights@, x) && !has_event(input.explicit@, x) ==> {
                    &&& height_follows(self.cache@[x].height, last_event(input.heights@, x), input.resolved@)
                    &&& has_record(self.heights@, x) == waits(last_event(input.heights@, x), input.resolved@)
                }
                &&& has_event(input.height_maps@, x) ==> {
                    &&& height_map_follows(self.cache@[x].height_map, last_event(input.height_maps@, x), input.resolved@)
                    &&& has_record(self.height_maps@, x) == !input.resolved@.contains(last_event(input.height_maps@, x).handle)
                }
                &&& has_event(input.explicit@, x) ==> {
                    let g = last_event(input.explicit@, x);
                    &&& self.cache@[x].explicit_count == g.positions@.len()
                    &&& self.cache@[x].explicit_xz_buffer is Some
                    &&& self.cache@[x].explicit_y is Some
                    &&& self.cache@[x].height matches HeightBinding::Uniform { height, .. } && height == g.height
                    &&& !has_record(self.heights@, x)
                }
                &&& has_event(input.instances@, x) ==> {
                    &&& self.cache@[x].instances@ == last_event(input.instances@, x)@
                    &&& self.cache@[x].instance_buffer is Some
                }
            } by {
                if has_event(input.explicit@, x) {
                    lemma_last_event_in(input.explicit@, x);
                    let k = choose|k: int| 0 <= k < input.explicit@.len() && input.explicit@[k].0 == x
                        && input.explicit@[k].1 == last_event(input.explicit@, x);
                    assert(input.explicit@[k].1.positions@.len() <= MAX_TEXELS);
                }
                assert(s4.cache@.contains_key(x));
                assert(s3.cache@.contains_key(x));
                assert(s2.cache@.contains_key(x));
                assert(s1.cache@.contains_key(x));
                assert(s0.cache@.contains_key(x));
            }
            assert forall|k: EntityId| #[trigger] self.cache@.contains_key(k) implies
                self.cache@[k].region_bindgroup == s0.cache@[k].region_bindgroup by {
                assert(s0.cache@.contains_key(k));
                assert(s1.cache@.contains_key(k));
                assert(s2.cache@.contains_key(k));
                assert(s3.cache@.contains_key(k));
                if has_record(released(s0.heights@, input.resolved@), k) {
                    let j = choose|j: int| 0 <= j < released(s0.heights@, input.resolved@).len()
                        && released(s0.heights@, input.resolved@)[j].entity == k;
                    assert(released(s0.heights@, input.resolved@)[j].entity == k);
                }
                if has_record(released(s0.height_maps@, input.resolved@), k) {
                    let j = choose|j: int| 0 <= j < released(s0.height_maps@, input.resolved@).len()
                        && released(s0.height_maps@, input.resolved@)[j].entity == k;
                    assert(released(s0.height_maps@, input.resolved@)[j].entity == k);
                }
            }
            let rh = released(s0.heights@, input.resolved@);
            assert forall|j: int| 0 <= j < rh.len() implies {
                let r = #[trigger] rh[j];
                !has_event(input.heights@, r.entity) && !has_event(input.explicit@, r.entity) ==> {
                    &&& self.cache@[r.entity].height matches HeightBinding::Texture { texture, .. }
                        && texture == TextureRef::Image(r.handle)
                    &&& !has_record(self.heights@, r.entity)
                }
            } by {
                let r = rh[j];
                assert(s0.heights@.contains(r));
                assert(s0.cache@.contains_key(r.entity));
                assert(s1.cache@.contains_key(r.entity));
                assert(s2.cache@.contains_key(r.entity));
                assert(s3.cache@.contains_key(r.entity));
                assert(s4.cache@.contains_key(r.entity));
                assert(self.cache@.contains_key(r.entity));
            }
            let rm = released(s0.height_maps@, input.resolved@);
            assert forall|j: int| 0 <= j < rm.len() implies {
                let r = #[trigger] rm[j];
                !has_event(input.height_maps@, r.entity) ==> {
                    &&& self.cache@[r.entity].height_map matches Some(m)
                        && m.texture == TextureRef::Image(r.handle) && m.extent == r.aux
                    &&& !has_record(self.height_maps@, r.entity)
                }
            } by {
                let r = rm[j];
                assert(s0.height_maps@.contains(r));
                assert(s0.cache@.contains_key(r.entity));
                assert(s1.cache@.contains_key(r.entity));
                assert(s2.cache@.contains_key(r.entity));
                assert(s3.cache@.contains_key(r.entity));
                assert(s4.cache@.contains_key(r.entity));
                assert(self.cache@.contains_key(r.entity));
            }
        }
    }

    /// Runs the preparation stages of one frame: heights and height maps
    /// (pending loads first, then changes), explicit positions, instance
    /// data, and last the region uniforms.
    #[verifier::rlimit(100)]
    #[verifier::spinoff_prover]
    pub fn prepare_frame(&mut self, input: &FrameInput) -> (o: FrameOutput)
        requires
            old(self).wf(),
            input.within_limits(),
        ensures
            final(self).wf(),
            old(self).region_complete() ==> !final(self).cache_changed && forall|k: EntityId|
                #[trigger] final(self).cache@.contains_key(k) ==> final(self).cache@[k].region_bindgroup is Some,
            final(self).cache@.dom() == old(self).cache@.dom(),
            forall|k: int| 0 <= k < o.skipped@.len() ==> !old(self).cache@.contains_key(#[trigger] o.skipped@[k]),
            input.is_quiet_for(*old(self)) && nothing_pending(*old(self)) ==> *final(self) == *old(self)
                && o.commands@.len() == 0,
            forall|x: EntityId| #[trigger] final(self).cache@.contains_key(x) ==> {
                &&& has_event(input.heights@, x) && !has_event(input.explicit@, x) ==> {
                    &&& height_follows(final(self).cache@[x].height, last_event(input.heights@, x), input.resolved@)
                    &&& has_record(final(self).heights@, x) == waits(last_event(input.heights@, x), input.resolved@)
                }
                &&& has_event(input.height_maps@, x) ==> {
                    &&& height_map_follows(final(self).cache@[x].height_map, last_event(input.height_maps@, x), input.resolved@)
                    &&& has_record(final(self).height_maps@, x) == !input.resolved@.contains(last_event(input.height_maps@, x).handle)
                }
                &&& has_event(input.explicit@, x) ==> {
                    let g = last_event(input.explicit@, x);
                    &&& final(self).cache@[x].explicit_count == g.positions@.len()
                    &&& final(self).cache@[x].explicit_xz_buffer is Some
                    &&& final(self).cache@[x].explicit_y is Some
                    &&& final(self).cache@[x].height matches HeightBinding::Uniform { height, .. } && height == g.height
                    &&& !has_record(final(self).heights@, x)
                }
                &&& has_event(input.instances@, x) ==> {
                    &&& final(self).cache@[x].instances@ == last_event(input.instances@, x)@
                    &&& final(self).cache@[x].instance_buffer is Some
                }
            },
            forall|j: int| 0 <= j < released(old(self).heights@, input.resolved@).len() ==> {
                let r = #[trigger] released(old(self).heights@, input.resolved@)[j];
                !has_event(input.heights@, r.entity) && !has_event(input.explicit@, r.entity) ==> {
                    &&& final(self).cache@[r.entity].height matches HeightBinding::Texture { texture, .. }
                        && texture == TextureRef::Image(r.handle)
                    &&& !has_record(final(self).heights@, r.entity)
                }
            },
            forall|j: int| 0 <= j < released(old(self).height_maps@, input.resolved@).len() ==> {
                let r = #[trigger] released(old(self).height_maps@, input.resolved@)[j];
                !has_event(input.height_maps@, r.entity) ==> {
                    &&& final(self).cache@[r.entity].height_map matches Some(m)
                        && m.texture == TextureRef::Image(r.handle) && m.extent == r.aux
                    &&& !has_record(final(self).height_maps@, r.entity)
                }
            },
            forall|x: EntityId| !old(self).cache@.contains_key(x) && (has_event(input.heights@, x)
                || has_event(input.height_maps@, x) || has_event(input.explicit@, x) || has_event(input.instances@, x))
                ==> o.skipped@.contains(x),
            forall|x: EntityId| #[trigger] final(self).cache@.contains_key(x) ==> {
                &&& has_event(input.explicit@, x)
                    ==> explicit_emitted(o.commands@, 0, final(self).cache@[x], last_event(input.explicit@, x))
                &&& has_event(input.instances@, x)
                    ==> instances_emitted(o.commands@, 0, final(self).cache@[x], last_event(input.instances@, x)@)
            },
            forall|x: EntityId| #[trigger] final(self).cache@.contains_key(x) ==> {
                &&& (has_event(input.heights@, x) || has_record(released(old(self).heights@, input.resolved@), x))
                    && !has_event(input.explicit@, x)
                    ==> height_emitted(o.commands@, 0, final(self).cache@[x].height)
                &&& (has_event(input.height_maps@, x) || has_record(released(old(self).height_maps@, input.resolved@), x))
                    ==> height_map_emitted(o.commands@, 0, final(self).cache@[x].height_map)
            },
            forall|k: int| 0 <= k < final(self).heights@.len() ==> {
                let r = #[trigger] final(self).heights@[k];
                &&& !input.resolved@.contains(r.handle)
                &&& has_event(input.heights@, r.entity) ==> last_event(input.heights@, r.entity) == HeightSource::Texture(r.handle)
                &&& !has_event(input.heights@, r.entity) ==> old(self).heights@.contains(r)
            },
            forall|k: int| 0 <= k < final(self).height_maps@.len() ==> {
                let r = #[trigger] final(self).height_maps@[k];
                &&& !input.resolved@.contains(r.handle)
                &&& has_event(input.height_maps@, r.entity)
                    ==> last_event(input.height_maps@, r.entity) == (HeightMapSource { handle: r.handle, extent: r.aux })
                &&& !has_event(input.height_maps@, r.entity) ==> old(self).height_maps@.contains(r)
            },
    {
        let ghost s0 = *self;
        let mut commands: Vec<GpuCommand> = Vec::new();
        let mut skipped: Vec<EntityId> = Vec::new();
        self.prepare_entries(input, &mut commands, &mut skipped);
        let ghost s4 = *self;
        let ghost c4 = commands@;
        self.prepare_uniform_buffers(&input.region, input.region_changed, input.noise, &input.resolved, &mut commands);
        proof {
            let c5 = commands@;
            if c5 == c4 {
                assert(c5.subrange(0, c4.len() as int) =~= c4);
            }
            assert forall|x: EntityId| #[trigger] self.cache@.contains_key(x) implies {
                &&& (has_event(input.heights@, x) || has_record(released(s0.heights@, input.resolved@), x))
                    && !has_event(input.explicit@, x)
                    ==> height_emitted(c5, 0, self.cache@[x].height)
                &&& (has_event(input.height_maps@, x) || has_record(released(s0.height_maps@, input.resolved@), x))
                    ==> height_map_emitted(c5, 0, self.cache@[x].height_map)
            } by {
                assert(s4.cache@.contains_key(x));
                if (has_event(input.heights@, x) || has_record(released(s0.heights@, input.resolved@), x))
                    && !has_event(input.explicit@, x) {
                    lemma_height_emitted_kept(c5, c4, 0, s4.cache@[x].height);
                }
                if has_event(input.height_maps@, x) || has_record(released(s0.height_maps@, input.resolved@), x) {
                    lemma_height_map_emitted_kept(c5, c4, 0, s4.cache@[x].height_map);
                }
            }
            assert forall|x: EntityId| #[trigger] self.cache@.contains_key(x) implies {
                &&& has_event(input.explicit@, x)
                    ==> explicit_emitted(c5, 0, self.cache@[x], last_event(input.explicit@, x))
                &&& has_event(input.instances@, x)
                    ==> instances_emitted(c5, 0, self.cache@[x], last_event(input.instances@, x)@)
            } by {
                assert(s4.cache@.contains_key(x));
                if has_event(input.explicit@, x) {
                    lemma_explicit_emitted_kept(c5, c4, 0, s4.cache@[x], last_event(input.explicit@, x));
                }
                if has_event(input.instances@, x) {
                    lemma_instances_emitted_kept(c5, c4, 0, s4.cache@[x], last_event(input.instances@, x)@);
                }
            }
            lemma_released_from(s0.heights@, input.resolved@);
            lemma_released_from(s0.height_maps@, input.resolved@);
            assert forall|x: EntityId| #[trigger] self.cache@.contains_key(x) implies
                self.cache@[x] == (CacheEntry { region_bindgroup: self.cache@[x].region_bindgroup, ..s4.cache@[x] }) by {
                assert(s4.cache@.contains_key(x));
            }
            let rh = released(s0.heights@, input.resolved@);
            assert forall|j: int| 0 <= j < rh.len() implies s4.cache@.contains_key(#[trigger] rh[j].entity) by {
                assert(s0.heights@.contains(rh[j]));
            }
            let rm = released(s0.height_maps@, input.resolved@);
            assert forall|j: int| 0 <= j < rm.len() implies s4.cache@.contains_key(#[trigger] rm[j].entity) by {
                assert(s0.height_maps@.contains(rm[j]));
            }
        }
        FrameOutput { commands, skipped }
    }
}


} // verus!
