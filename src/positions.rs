//! Per-blade placement: instance buffers, and explicit positions split into
//! a vertex buffer of XZ pairs and a packed texture of Y values.
use vstd::prelude::*;
use crate::cache::{CacheEntry, EntityId, HeightBinding, Instance};
use crate::deferred::has_record;
use crate::gpu::{buffer_command, prepare_texture_from_data, Binding, BufferUsage, GpuCommand, Layout};
use crate::packer::{padded, side_for, MAX_TEXELS};
use crate::prepare::{extends, has_event, id_after, last_event, lemma_event_step, lemma_extends_keeps, GrassRenderer};

verus! {

/// One explicit blade position, each coordinate as the bit pattern of a
/// 32-bit float.
#[derive(PartialEq, Eq, Structural, Clone, Copy, Debug)]
pub struct Position {
    pub x: u32,
    pub y: u32,
    pub z: u32,
}

/// A chunk placed blade by blade, with one height for every blade.
#[derive(Debug)]
pub struct ExplicitGrass {
    pub positions: Vec<Position>,
    pub height: u32,
}

/// The XZ pairs of `ps`, flattened: `x0, z0, x1, z1, ...`.
pub open spec fn xz_words(ps: Seq<Position>) -> Seq<u32> {
    Seq::new(2 * ps.len(), |i: int| if i % 2 == 0 { ps[i / 2].x } else { ps[i / 2].z })
}

/// The Y values of `ps`, in order.
pub open spec fn y_words(ps: Seq<Position>) -> Seq<u32> {
    Seq::new(ps.len(), |i: int| ps[i].y)
}

/// The instance data flattened into words, four per blade.
pub open spec fn instance_words(v: Seq<Instance>) -> Seq<u32> {
    Seq::new(
        4 * v.len(),
        |i: int| {
            let b = v[i / 4];
            if i % 4 == 0 { b.x } else if i % 4 == 1 { b.y } else if i % 4 == 2 { b.z } else { b.scale }
        },
    )
}

/// Splits explicit positions into the XZ vertex words and the Y values.
pub fn split_positions(ps: &Vec<Position>) -> (r: (Vec<u32>, Vec<u32>))
    requires
        ps@.len() <= MAX_TEXELS,
    ensures
        r.0@ == xz_words(ps@),
        r.1@ == y_words(ps@),
{
    let mut xz: Vec<u32> = Vec::new();
    let mut y: Vec<u32> = Vec::new();
    let mut i: usize = 0;
    while i < ps.len()
        invariant
            i <= ps@.len(),
            ps@.len() <= MAX_TEXELS,
            xz@ =~= xz_words(ps@.take(i as int)),
            y@ =~= y_words(ps@.take(i as int)),
        decreases ps@.len() - i,
    {
        let p = ps[i];
        xz.push(p.x);
        xz.push(p.z);
        y.push(p.y);
        proof {
            let t = ps@.take(i + 1);
            assert forall|k: int| 0 <= k < xz@.len() implies xz@[k] == xz_words(t)[k] by {
                if k < 2 * i {
                    assert(ps@.take(i as int)[k / 2] == t[k / 2]);
                }
            }
            assert forall|k: int| 0 <= k < y@.len() implies y@[k] == y_words(t)[k] by {}
        }
        i = i + 1;
    }
    assert(ps@.take(ps@.len() as int) =~= ps@);
    (xz, y)
}

/// The instance data as words, four per blade.
pub fn flatten_instances(v: &Vec<Instance>) -> (w: Vec<u32>)
    requires
        v@.len() <= 0x3FFF_FFFF,
    ensures
        w@ == instance_words(v@),
{
    let mut w: Vec<u32> = Vec::new();
    let mut i: usize = 0;
    while i < v.len()
        invariant
            i <= v@.len(),
            v@.len() <= 0x3FFF_FFFF,
            w@ =~= instance_words(v@.take(i as int)),
        decreases v@.len() - i,
    {
        let b = v[i];
        w.push(b.x);
        w.push(b.y);
        w.push(b.z);
        w.push(b.scale);
        proof {
            let t = v@.take(i + 1);
            assert forall|k: int| 0 <= k < w@.len() implies w@[k] == instance_words(t)[k] by {
                if k < 4 * i {
                    assert(v@.take(i as int)[k / 4] == t[k / 4]);
                }
            }
        }
        i = i + 1;
    }
    assert(v@.take(v@.len() as int) =~= v@);
    w
}

/// A copy of the instance data.
pub fn copy_instances(v: &Vec<Instance>) -> (c: Vec<Instance>)
    ensures
        c@ == v@,
{
    let mut c: Vec<Instance> = Vec::new();
    let mut i: usize = 0;
    while i < v.len()
        invariant
            i <= v@.len(),
            c@ =~= v@.take(i as int),
        decreases v@.len() - i,
    {
        c.push(v[i]);
        i = i + 1;
    }
    assert(v@.take(v@.len() as int) =~= v@);
    c
}

impl GrassRenderer {
    /// Takes new instance data for the registered chunk `e`: the shadow
    /// copy, and a vertex buffer holding it.
    pub fn apply_instances(&mut self, e: EntityId, instances: &Vec<Instance>, out: &mut Vec<GpuCommand>)
        requires
            old(self).wf(),
            old(self).cache@.contains_key(e),
            instances@.len() <= 0x3FFF_FFFF,
        ensures
            final(self).wf(),
            final(self).cache@ == old(self).cache@.insert(e, final(self).cache@[e]),
            final(self).cache@[e] == (CacheEntry {
                instances: final(self).cache@[e].instances,
                instance_buffer: Some(old(self).next_id),
                ..old(self).cache@[e]
            }),
            final(self).cache@[e].instances@ == instances@,
            instances_emitted(final(out)@, old(out)@.len() as int, final(self).cache@[e], instances@),
            final(self).heights == old(self).heights,
            final(self).height_maps == old(self).height_maps,
            final(self).last_noise == old(self).last_noise,
            final(self).cache_changed == old(self).cache_changed,
            extends(final(out)@, old(out)@),
            final(out)@.len() == old(out)@.len() + 1,
            final(out)@[old(out)@.len() as int].is_buffer(
                old(self).next_id,
                BufferUsage::Vertex,
                instance_words(instances@),
            ),
    {
        let ghost out0 = out@;
        let buffer = self.fresh_id();
        out.push(buffer_command(buffer, BufferUsage::Vertex, flatten_instances(instances)));
        let (i, mut entry) = self.cache.take_entry(e);
        entry.instances = copy_instances(instances);
        entry.instance_buffer = Some(buffer);
        self.cache.replace_at(i, entry);
        assert(out@.subrange(0, out0.len() as int) =~= out0);
        assert(out@[out0.len() as int].is_buffer(buffer, BufferUsage::Vertex, instance_words(instances@)));
        assert(self.cache@[e].instance_buffer == Some(out@[out0.len() as int].id()));
    }

    /// Takes explicit positions for the registered chunk `e`: a vertex
    /// buffer of XZ pairs, the Y values packed into a square texture with
    /// its bind group, and a uniform height buffer with its bind group. The
    /// uniform height replaces any pending height texture.
    #[verifier::rlimit(50)]
    pub fn apply_explicit(&mut self, e: EntityId, grass: &ExplicitGrass, out: &mut Vec<GpuCommand>)
        requires
            old(self).wf(),
            old(self).cache@.contains_key(e),
            grass.positions@.len() <= MAX_TEXELS,
        ensures
            final(self).wf(),
            final(self).cache@ == old(self).cache@.insert(
                e,
                CacheEntry {
                    explicit_count: grass.positions@.len() as usize,
                    explicit_xz_buffer: Some(old(self).next_id),
                    explicit_y: Some(id_after(id_after(old(self).next_id))),
                    height: HeightBinding::Uniform {
                        bind_group: id_after(id_after(id_after(id_after(old(self).next_id)))),
                        height: grass.height,
                    },
                    ..old(self).cache@[e]
                },
            ),
            !has_record(final(self).heights@, e),
            forall|x: EntityId| x != e ==> has_record(final(self).heights@, x) == has_record(old(self).heights@, x),
            explicit_emitted(final(out)@, old(out)@.len() as int, final(self).cache@[e], *grass),
            forall|k: int| 0 <= k < final(self).heights@.len() ==> old(self).heights@.contains(#[trigger] final(self).heights@[k]),
            final(self).height_maps == old(self).height_maps,
            final(self).last_noise == old(self).last_noise,
            final(self).cache_changed == old(self).cache_changed,
            extends(final(out)@, old(out)@),
            final(out)@.len() == old(out)@.len() + 5,
            final(out)@[old(out)@.len() as int].is_buffer(
                old(self).next_id,
                BufferUsage::Vertex,
                xz_words(grass.positions@),
            ),
            final(out)@[old(out)@.len() + 1int] matches GpuCommand::Texture { id, side, bytes_per_row, texels, bytes }
                && id == id_after(old(self).next_id)
                && side_for(grass.positions@.len() as int, side as int)
                && texels@ == padded(y_words(grass.positions@), side as nat)
                && bytes_per_row == 4 * side
                && bytes@.len() == 4 * texels@.len(),
            final(out)@[old(out)@.len() + 2int].is_bind_group(
                id_after(id_after(old(self).next_id)),
                Layout::ExplicitY,
                Binding::Created(id_after(old(self).next_id)),
                None,
            ),
            final(out)@[old(out)@.len() + 3int].is_buffer(
                id_after(id_after(id_after(old(self).next_id))),
                BufferUsage::Uniform,
                seq![grass.height],
            ),
            final(out)@[old(out)@.len() + 4int].is_bind_group(
                id_after(id_after(id_after(id_after(old(self).next_id)))),
                Layout::UniformHeight,
                Binding::Buffer(id_after(id_after(id_after(old(self).next_id)))),
                None,
            ),
    {
        let ghost out0 = out@;
        let (xz, y) = split_positions(&grass.positions);
        let xz_buffer = self.fresh_id();
        out.push(buffer_command(xz_buffer, BufferUsage::Vertex, xz));
        let texture = self.fresh_id();
        out.push(prepare_texture_from_data(texture, &y));
        let y_group = self.fresh_id();
        out.push(GpuCommand::BindGroup {
            id: y_group,
            layout: Layout::ExplicitY,
            first: Binding::Created(texture),
            second: None,
        });
        let height_buffer = self.fresh_id();
        let mut words: Vec<u32> = Vec::new();
        words.push(grass.height);
        assert(words@ =~= seq![grass.height]);
        out.push(buffer_command(height_buffer, BufferUsage::Uniform, words));
        let height_group = self.fresh_id();
        out.push(GpuCommand::BindGroup {
            id: height_group,
            layout: Layout::UniformHeight,
            first: Binding::Buffer(height_buffer),
            second: None,
        });
        let ghost h0 = self.heights@;
        self.heights.cancel(e);
        let (i, mut entry) = self.cache.take_entry(e);
        entry.explicit_count = grass.positions.len();
        entry.explicit_xz_buffer = Some(xz_buffer);
        entry.explicit_y = Some(y_group);
        entry.height = HeightBinding::Uniform { bind_group: height_group, height: grass.height };
        self.cache.replace_at(i, entry);
        proof {
            assert(out@.subrange(0, out0.len() as int) =~= out0);
            let k0 = out0.len() as int;
            assert(explicit_block(out@, k0, self.cache@[e], *grass));
            lemma_explicit_block(out@, k0, k0, self.cache@[e], *grass);
            assert forall|k: int| 0 <= k < self.heights@.len() implies
                self.cache@.contains_key(#[trigger] self.heights@[k].entity) by {
                assert(h0.contains(self.heights@[k]));
                let j = choose|j: int| 0 <= j < h0.len() && h0[j] == self.heights@[k];
                assert(old(self).cache@.contains_key(h0[j].entity));
            }
        }
    }
}

/// Commands from position `from` on create the instance buffer that `e`
/// names, holding `v`.
pub open spec fn instances_emitted(out: Seq<GpuCommand>, from: int, e: CacheEntry, v: Seq<Instance>) -> bool {
    exists|k: int| 0 <= from <= k && k < out.len()
        && e.instance_buffer == Some((#[trigger] out[k]).id())
        && out[k].is_buffer(out[k].id(), BufferUsage::Vertex, instance_words(v))
}

/// Commands from position `from` on create, in order, what `e` names for
/// the explicit positions of `g`: the XZ vertex buffer, the packed Y
/// texture, its bind group, the uniform height buffer and its bind group.
pub open spec fn explicit_emitted(out: Seq<GpuCommand>, from: int, e: CacheEntry, g: ExplicitGrass) -> bool {
    exists|k: int| 0 <= from <= k && k + 4 < out.len() && {
        &&& e.explicit_xz_buffer == Some((#[trigger] out[k]).id())
        &&& out[k].is_buffer(out[k].id(), BufferUsage::Vertex, xz_words(g.positions@))
        &&& out[k + 1] matches GpuCommand::Texture { side, bytes_per_row, texels, bytes, .. }
            && side_for(g.positions@.len() as int, side as int)
            && texels@ == padded(y_words(g.positions@), side as nat)
            && bytes_per_row == 4 * side && bytes@.len() == 4 * texels@.len()
        &&& e.explicit_y == Some(out[k + 2].id())
        &&& out[k + 2].is_bind_group(out[k + 2].id(), Layout::ExplicitY, Binding::Created(out[k + 1].id()), None)
        &&& out[k + 3].is_buffer(out[k + 3].id(), BufferUsage::Uniform, seq![g.height])
        &&& e.height == (HeightBinding::Uniform { bind_group: out[k + 4].id(), height: g.height })
        &&& out[k + 4].is_bind_group(out[k + 4].id(), Layout::UniformHeight, Binding::Buffer(out[k + 3].id()), None)
    }
}

/// The five commands from position `k` create what `e` names for `g`.
pub open spec fn explicit_block(out: Seq<GpuCommand>, k: int, e: CacheEntry, g: ExplicitGrass) -> bool {
    &&& 0 <= k && k + 4 < out.len()
        &&& e.explicit_xz_buffer == Some(out[k].id())
        &&& out[k].is_buffer(out[k].id(), BufferUsage::Vertex, xz_words(g.positions@))
        &&& out[k + 1] matches GpuCommand::Texture { side, bytes_per_row, texels, bytes, .. }
            && side_for(g.positions@.len() as int, side as int)
            && texels@ == padded(y_words(g.positions@), side as nat)
            && bytes_per_row == 4 * side && bytes@.len() == 4 * texels@.len()
        &&& e.explicit_y == Some(out[k + 2].id())
        &&& out[k + 2].is_bind_group(out[k + 2].id(), Layout::ExplicitY, Binding::Created(out[k + 1].id()), None)
        &&& out[k + 3].is_buffer(out[k + 3].id(), BufferUsage::Uniform, seq![g.height])
        &&& e.height == (HeightBinding::Uniform { bind_group: out[k + 4].id(), height: g.height })
        &&& out[k + 4].is_bind_group(out[k + 4].id(), Layout::UniformHeight, Binding::Buffer(out[k + 3].id()), None)
}

proof fn lemma_explicit_block(out: Seq<GpuCommand>, from: int, k: int, e: CacheEntry, g: ExplicitGrass)
    requires
        0 <= from <= k,
        explicit_block(out, k, e, g),
    ensures
        explicit_emitted(out, from, e, g),
{
    assert(out[k] == out[k]);
}

pub proof fn lemma_instances_emitted_kept(new: Seq<GpuCommand>, old: Seq<GpuCommand>, from: int, e: CacheEntry, v: Seq<Instance>)
    requires
        extends(new, old),
        instances_emitted(old, from, e, v),
    ensures
        instances_emitted(new, from, e, v),
{
    lemma_extends_keeps(new, old);
    let k = choose|k: int| 0 <= from <= k && k < old.len()
        && e.instance_buffer == Some((#[trigger] old[k]).id())
        && old[k].is_buffer(old[k].id(), BufferUsage::Vertex, instance_words(v));
    assert(new[k] == old[k]);
}

pub proof fn lemma_explicit_emitted_kept(new: Seq<GpuCommand>, old: Seq<GpuCommand>, from: int, e: CacheEntry, g: ExplicitGrass)
    requires
        extends(new, old),
        explicit_emitted(old, from, e, g),
    ensures
        explicit_emitted(new, from, e, g),
{
    lemma_extends_keeps(new, old);
    let k = choose|k: int| 0 <= from <= k && k + 4 < old.len() && {
        &&& e.explicit_xz_buffer == Some((#[trigger] old[k]).id())
        &&& old[k].is_buffer(old[k].id(), BufferUsage::Vertex, xz_words(g.positions@))
        &&& old[k + 1] matches GpuCommand::Texture { side, bytes_per_row, texels, bytes, .. }
            && side_for(g.positions@.len() as int, side as int)
            && texels@ == padded(y_words(g.positions@), side as nat)
            && bytes_per_row == 4 * side && bytes@.len() == 4 * texels@.len()
        &&& e.explicit_y == Some(old[k + 2].id())
        &&& old[k + 2].is_bind_group(old[k + 2].id(), Layout::ExplicitY, Binding::Created(old[k + 1].id()), None)
        &&& old[k + 3].is_buffer(old[k + 3].id(), BufferUsage::Uniform, seq![g.height])
        &&& e.height == (HeightBinding::Uniform { bind_group: old[k + 4].id(), height: g.height })
        &&& old[k + 4].is_bind_group(old[k + 4].id(), Layout::UniformHeight, Binding::Buffer(old[k + 3].id()), None)
    };
    assert(new[k] == old[k] && new[k + 1] == old[k + 1] && new[k + 2] == old[k + 2]
        && new[k + 3] == old[k + 3] && new[k + 4] == old[k + 4]);
}

/// The entry `new` holds the explicit positions of `g` on top of `old`.
pub open spec fn explicit_applied(new: CacheEntry, old: CacheEntry, g: ExplicitGrass) -> bool {
    &&& new.explicit_xz_buffer is Some
    &&& new.explicit_y is Some
    &&& new.height matches HeightBinding::Uniform { height, .. } && height == g.height
    &&& new == (CacheEntry {
        explicit_count: g.positions@.len() as usize,
        explicit_xz_buffer: new.explicit_xz_buffer,
        explicit_y: new.explicit_y,
        height: new.height,
        ..old
    })
}

/// The entry `new` holds the instance data `v` on top of `old`.
pub open spec fn instances_applied(new: CacheEntry, old: CacheEntry, v: Seq<Instance>) -> bool {
    &&& new.instance_buffer is Some
    &&& new.instances@ == v
    &&& new == (CacheEntry { instances: new.instances, instance_buffer: new.instance_buffer, ..old })
}

impl GrassRenderer {
    /// The instance stage of a frame: every registered chunk with new
    /// instance data gets it, with a new vertex buffer. An event for an
    /// unregistered chunk is skipped and reported in `skipped`.
    pub fn prepare_instance_buffers(
        &mut self,
        events: &Vec<(EntityId, Vec<Instance>)>,
        out: &mut Vec<GpuCommand>,
        skipped: &mut Vec<EntityId>,
    )
        requires
            old(self).wf(),
            forall|k: int| 0 <= k < events@.len() ==> (#[trigger] events@[k]).1@.len() <= 0x3FFF_FFFF,
        ensures
            final(self).wf(),
            final(self).cache@.dom() == old(self).cache@.dom(),
            forall|x: EntityId| #[trigger] final(self).cache@.contains_key(x) ==> if has_event(events@, x) {
                instances_applied(final(self).cache@[x], old(self).cache@[x], last_event(events@, x)@)
            } else {
                final(self).cache@[x] == old(self).cache@[x]
            },
            forall|k: int| old(skipped)@.len() <= k < final(skipped)@.len()
                ==> !old(self).cache@.contains_key(#[trigger] final(skipped)@[k]),
            old(skipped)@.len() <= final(skipped)@.len(),
            forall|k: int| 0 <= k < old(skipped)@.len() ==> #[trigger] final(skipped)@[k] == old(skipped)@[k],
            events@.len() == 0 ==> *final(self) == *old(self) && final(out)@ == old(out)@,
            final(self).heights == old(self).heights,
            final(self).height_maps == old(self).height_maps,
            final(self).last_noise == old(self).last_noise,
            final(self).cache_changed == old(self).cache_changed,
            extends(final(out)@, old(out)@),
            forall|x: EntityId| #[trigger] final(self).cache@.contains_key(x) && has_event(events@, x)
                ==> instances_emitted(final(out)@, old(out)@.len() as int, final(self).cache@[x], last_event(events@, x)@),
            forall|x: EntityId| has_event(events@, x) && !old(self).cache@.contains_key(x)
                ==> final(skipped)@.contains(x),
    {
        let ghost c0 = self.cache@;
        let ghost out0 = out@;
        let ghost sk0 = skipped@;
        assert(out@.subrange(0, out0.len() as int) =~= out0);
        assert(events@.take(0).len() == 0);
        let mut i: usize = 0;
        while i < events.len()
            invariant
                self.wf(),
                self.cache@.dom() == c0.dom(),
                i <= events@.len(),
                forall|k: int| 0 <= k < events@.len() ==> (#[trigger] events@[k]).1@.len() <= 0x3FFF_FFFF,
                forall|x: EntityId| #[trigger] self.cache@.contains_key(x) ==> if has_event(events@.take(i as int), x) {
                    instances_applied(self.cache@[x], c0[x], last_event(events@.take(i as int), x)@)
                } else {
                    self.cache@[x] == c0[x]
                },
                forall|k: int| sk0.len() <= k < skipped@.len() ==> !c0.contains_key(#[trigger] skipped@[k]),
                sk0.len() <= skipped@.len(),
                forall|k: int| 0 <= k < sk0.len() ==> #[trigger] skipped@[k] == sk0[k],
                events@.len() == 0 ==> *self == *old(self) && out@ == out0,
                self.heights == old(self).heights,
                self.height_maps == old(self).height_maps,
                self.last_noise == old(self).last_noise,
                self.cache_changed == old(self).cache_changed,
                extends(out@, out0),
                forall|x: EntityId| #[trigger] self.cache@.contains_key(x) && has_event(events@.take(i as int), x)
                    ==> instances_emitted(out@, out0.len() as int, self.cache@[x], last_event(events@.take(i as int), x)@),
                forall|x: EntityId| has_event(events@.take(i as int), x) && !c0.contains_key(x)
                    ==> skipped@.contains(x),
            decreases events@.len() - i,
        {
            let e = events[i].0;
            proof {
                lemma_event_step(events@, i as int);
                assert(events@[i as int].1@.len() <= 0x3FFF_FFFF);
            }
            if self.cache.contains(e) {
                let ghost o1 = out@;
                self.apply_instances(e, &events[i].1, out);
                proof {
                    let post = events@.take(i + 1);
                    assert(out@.subrange(0, o1.len() as int) =~= o1);
                    assert forall|x: EntityId| #[trigger] self.cache@.contains_key(x) && has_event(post, x) && x != e
                        implies instances_emitted(out@, out0.len() as int, self.cache@[x], last_event(post, x)@) by {
                        lemma_instances_emitted_kept(out@, o1, out0.len() as int, self.cache@[x], last_event(post, x)@);
                    }
                    assert forall|x: EntityId| has_event(post, x) && !c0.contains_key(x)
                        implies skipped@.contains(x) by {
                        assert(x != e);
                    }
                    assert(out@.subrange(0, out0.len() as int) =~= out0);
                }
            } else {
                let ghost sk1 = skipped@;
                skipped.push(e);
                proof {
                    let post = events@.take(i + 1);
                    assert(skipped@[sk1.len() as int] == e);
                    assert forall|x: EntityId| has_event(post, x) && !c0.contains_key(x)
                        implies skipped@.contains(x) by {
                        if x != e {
                            assert(sk1.contains(x));
                            let k2 = choose|k2: int| 0 <= k2 < sk1.len() && sk1[k2] == x;
                            assert(skipped@[k2] == x);
                        }
                    }
                }
            }
            i = i + 1;
        }
        proof {
            assert(events@.take(events@.len() as int) =~= events@);
        }
    }

    /// The explicit-position stage of a frame: every registered chunk with
    /// new explicit positions gets its XZ buffer, Y texture and uniform
    /// height. An event for an unregistered chunk is skipped and reported
    /// in `skipped`.
    pub fn prepare_explicit_positions_buffer(
        &mut self,
        events: &Vec<(EntityId, ExplicitGrass)>,
        out: &mut Vec<GpuCommand>,
        skipped: &mut Vec<EntityId>,
    )
        requires
            old(self).wf(),
            forall|k: int| 0 <= k < events@.len() ==> (#[trigger] events@[k]).1.positions@.len() <= MAX_TEXELS,
        ensures
            final(self).wf(),
            final(self).cache@.dom() == old(self).cache@.dom(),
            forall|x: EntityId| #[trigger] final(self).cache@.contains_key(x) ==> if has_event(events@, x) {
                explicit_applied(final(self).cache@[x], old(self).cache@[x], last_event(events@, x))
                    && !has_record(final(self).heights@, x)
            } else {
                final(self).cache@[x] == old(self).cache@[x]
                    && has_record(final(self).heights@, x) == has_record(old(self).heights@, x)
            },
            forall|k: int| old(skipped)@.len() <= k < final(skipped)@.len()
                ==> !old(self).cache@.contains_key(#[trigger] final(skipped)@[k]),
            old(skipped)@.len() <= final(skipped)@.len(),
            forall|k: int| 0 <= k < old(skipped)@.len() ==> #[trigger] final(skipped)@[k] == old(skipped)@[k],
            events@.len() == 0 ==> *final(self) == *old(self) && final(out)@ == old(out)@,
            final(self).height_maps == old(self).height_maps,
            final(self).last_noise == old(self).last_noise,
            final(self).cache_changed == old(self).cache_changed,
            extends(final(out)@, old(out)@),
            forall|x: EntityId| #[trigger] final(self).cache@.contains_key(x) && has_event(events@, x)
                ==> explicit_emitted(final(out)@, old(out)@.len() as int, final(self).cache@[x], last_event(events@, x)),
            forall|x: EntityId| has_event(events@, x) && !old(self).cache@.contains_key(x)
                ==> final(skipped)@.contains(x),
            forall|k: int| 0 <= k < final(self).heights@.len() ==> old(self).heights@.contains(#[trigger] final(self).heights@[k]),
    {
        let ghost c0 = self.cache@;
        let ghost h0 = self.heights@;
        let ghost out0 = out@;
        let ghost sk0 = skipped@;
        assert(out@.subrange(0, out0.len() as int) =~= out0);
        assert(events@.take(0).len() == 0);
        let mut i: usize = 0;
        while i < events.len()
            invariant
                self.wf(),
                self.cache@.dom() == c0.dom(),
                i <= events@.len(),
                forall|k: int| 0 <= k < events@.len() ==> (#[trigger] events@[k]).1.positions@.len() <= MAX_TEXELS,
                forall|x: EntityId| #[trigger] self.cache@.contains_key(x) ==> if has_event(events@.take(i as int), x) {
                    explicit_applied(self.cache@[x], c0[x], last_event(events@.take(i as int), x))
                        && !has_record(self.heights@, x)
                } else {
                    self.cache@[x] == c0[x] && has_record(self.heights@, x) == has_record(h0, x)
                },
                forall|k: int| sk0.len() <= k < skipped@.len() ==> !c0.contains_key(#[trigger] skipped@[k]),
                sk0.len() <= skipped@.len(),
                forall|k: int| 0 <= k < sk0.len() ==> #[trigger] skipped@[k] == sk0[k],
                events@.len() == 0 ==> *self == *old(self) && out@ == out0,
                self.height_maps == old(self).height_maps,
                self.last_noise == old(self).last_noise,
                self.cache_changed == old(self).cache_changed,
                extends(out@, out0),
                forall|x: EntityId| #[trigger] self.cache@.contains_key(x) && has_event(events@.take(i as int), x)
                    ==> explicit_emitted(out@, out0.len() as int, self.cache@[x], last_event(events@.take(i as int), x)),
                forall|x: EntityId| has_event(events@.take(i as int), x) && !c0.contains_key(x)
                    ==> skipped@.contains(x),
                forall|k: int| 0 <= k < self.heights@.len() ==> h0.contains(#[trigger] self.heights@[k]),
            decreases events@.len() - i,
        {
            let e = events[i].0;
            proof {
                lemma_event_step(events@, i as int);
                assert(events@[i as int].1.positions@.len() <= MAX_TEXELS);
            }
            if self.cache.contains(e) {
                let ghost o1 = out@;
                let ghost hq = self.heights@;
                self.apply_explicit(e, &events[i].1, out);
                proof {
                    let post = events@.take(i + 1);
                    assert(out@.subrange(0, o1.len() as int) =~= o1);
                    assert forall|x: EntityId| #[trigger] self.cache@.contains_key(x) && has_event(post, x) && x != e
                        implies explicit_emitted(out@, out0.len() as int, self.cache@[x], last_event(post, x)) by {
                        lemma_explicit_emitted_kept(out@, o1, out0.len() as int, self.cache@[x], last_event(post, x));
                    }
                    assert forall|x: EntityId| has_event(post, x) && !c0.contains_key(x)
                        implies skipped@.contains(x) by {
                        assert(x != e);
                    }
                    assert forall|k: int| 0 <= k < self.heights@.len() implies h0.contains(#[trigger] self.heights@[k]) by {
                        assert(hq.contains(self.heights@[k]));
                        let k2 = choose|k2: int| 0 <= k2 < hq.len() && hq[k2] == self.heights@[k];
                        assert(h0.contains(hq[k2]));
                    }
                    assert(out@.subrange(0, out0.len() as int) =~= out0);
                }
            } else {
                let ghost sk1 = skipped@;
                skipped.push(e);
                proof {
                    let post = events@.take(i + 1);
                    assert(skipped@[sk1.len() as int] == e);
                    assert forall|x: EntityId| has_event(post, x) && !c0.contains_key(x)
                        implies skipped@.contains(x) by {
                        if x != e {
                            assert(sk1.contains(x));
                            let k2 = choose|k2: int| 0 <= k2 < sk1.len() && sk1[k2] == x;
                            assert(skipped@[k2] == x);
                        }
                    }
                }
            }
            i = i + 1;
        }
        proof {
            assert(events@.take(events@.len() as int) =~= events@);
        }
    }
}

} // verus!
