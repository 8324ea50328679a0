//! The preparation stage: each frame, bring the cache entries up to date
//! with what changed, and ask the host for the GPU objects that takes.
use vstd::prelude::*;
use crate::cache::{
    CacheEntry, EntityId, Extent, GpuId, GrassCache, HeightBinding, HeightMapBinding,
    ImageHandle, TextureRef,
};
use crate::deferred::{
    handle_resolved, has_record, lemma_released_from, lemma_released_not_pending,
    lemma_still_pending_records, lemma_kept_from, released, still_pending, unique_entities, DeferredQueue,
    PendingLoad,
};
use crate::gpu::{buffer_command, Binding, BufferUsage, GpuCommand, Layout};

verus! {

/// Where a chunk's blade heights come from.
#[derive(PartialEq, Eq, Structural, Clone, Copy, Debug)]
pub enum HeightSource {
    /// One height for every blade, as the bit pattern of a 32-bit float.
    Uniform(u32),
    /// A per-blade height texture.
    Texture(ImageHandle),
}

/// The identity issued after `x`.
pub open spec fn id_after(x: GpuId) -> GpuId {
    if x == u64::MAX { 0 } else { (x + 1) as u64 }
}

/// The view a bind group samples for the asset `h` this frame: the asset
/// when it is resident, the fallback image otherwise.
pub open spec fn view_for(h: ImageHandle, resolved: Seq<ImageHandle>) -> TextureRef {
    if resolved.contains(h) { TextureRef::Image(h) } else { TextureRef::Fallback }
}

/// `e` with its height binding replaced by `b`.
pub open spec fn with_height(e: CacheEntry, b: HeightBinding) -> CacheEntry {
    CacheEntry { height: b, ..e }
}

/// The height binding `b` realises the source `src` this frame.
pub open spec fn height_follows(b: HeightBinding, src: HeightSource, resolved: Seq<ImageHandle>) -> bool {
    match src {
        HeightSource::Uniform(h) => b matches HeightBinding::Uniform { height, .. } && height == h,
        HeightSource::Texture(t) => b matches HeightBinding::Texture { texture, .. }
            && texture == view_for(t, resolved),
    }
}

/// The source `src` leaves a chunk waiting for its texture.
pub open spec fn waits(src: HeightSource, resolved: Seq<ImageHandle>) -> bool {
    src matches HeightSource::Texture(t) && !resolved.contains(t)
}

/// Some change event of `events` is about `e`.
pub open spec fn has_event<T>(events: Seq<(EntityId, T)>, e: EntityId) -> bool {
    exists|i: int| 0 <= i < events.len() && events[i].0 == e
}

/// The last change event of `events` about `e`, which is the one that
/// counts when a chunk changed more than once.
pub open spec fn last_event<T>(events: Seq<(EntityId, T)>, e: EntityId) -> T
    decreases events.len(),
{
    if events.len() == 0 {
        arbitrary()
    } else if events.last().0 == e {
        events.last().1
    } else {
        last_event(events.drop_last(), e)
    }
}

/// The new event list `post` is `pre` with one event about `e` appended.
pub proof fn lemma_event_step<T>(events: Seq<(EntityId, T)>, i: int)
    requires
        0 <= i < events.len(),
    ensures
        forall|x: EntityId| has_event(events.take(i + 1), x) == (has_event(events.take(i), x) || x == events[i].0),
        forall|x: EntityId| x != events[i].0 ==> last_event(events.take(i + 1), x) == last_event(events.take(i), x),
        last_event(events.take(i + 1), events[i].0) == events[i].1,
{
    let pre = events.take(i);
    let post = events.take(i + 1);
    assert(post.drop_last() =~= pre);
    assert forall|x: EntityId| has_event(post, x) == (has_event(pre, x) || x == events[i].0) by {
        if has_event(post, x) {
            let j = choose|j: int| 0 <= j < post.len() && post[j].0 == x;
            if j < i {
                assert(pre[j].0 == x);
            }
        }
        if has_event(pre, x) {
            let j = choose|j: int| 0 <= j < pre.len() && pre[j].0 == x;
            assert(post[j].0 == x);
        }
        if x == events[i].0 {
            assert(post[i].0 == x);
        }
    }
}

/// The last event about `e` is one of the events.
pub proof fn lemma_last_event_in<T>(events: Seq<(EntityId, T)>, e: EntityId)
    requires
        has_event(events, e),
    ensures
        exists|k: int| 0 <= k < events.len() && events[k].0 == e && events[k].1 == last_event(events, e),
    decreases events.len(),
{
    let n = events.len();
    if events.last().0 == e {
        assert(events[n - 1].0 == e && events[n - 1].1 == last_event(events, e));
    } else {
        let init = events.drop_last();
        let j = choose|j: int| 0 <= j < n && events[j].0 == e;
        assert(init[j].0 == e);
        lemma_last_event_in(init, e);
        let k = choose|k: int| 0 <= k < init.len() && init[k].0 == e && init[k].1 == last_event(init, e);
        assert(events[k] == init[k]);
    }
}

/// The entry `new` is `old` rebound to the resident texture `h`.
pub open spec fn rebound_height(new: CacheEntry, old: CacheEntry, h: ImageHandle) -> bool {
    &&& new == with_height(old, new.height)
    &&& new.height matches HeightBinding::Texture { texture, .. } && texture == TextureRef::Image(h)
}

/// A chunk's terrain height map and the size of its bounding box.
#[derive(PartialEq, Eq, Structural, Clone, Copy, Debug)]
pub struct HeightMapSource {
    pub handle: ImageHandle,
    pub extent: Extent,
}

/// `e` with its height-map binding replaced by `b`.
pub open spec fn with_height_map(e: CacheEntry, b: Option<HeightMapBinding>) -> CacheEntry {
    CacheEntry { height_map: b, ..e }
}

/// The height-map binding `b` realises the source `src` this frame.
pub open spec fn height_map_follows(
    b: Option<HeightMapBinding>,
    src: HeightMapSource,
    resolved: Seq<ImageHandle>,
) -> bool {
    b matches Some(m) && m.texture == view_for(src.handle, resolved) && m.extent == src.extent
}

/// The entry `new` is `old` with the height map of the released record `r`.
pub open spec fn rebound_height_map(new: CacheEntry, old: CacheEntry, r: PendingLoad<Extent>) -> bool {
    &&& new == with_height_map(old, new.height_map)
    &&& new.height_map matches Some(m) && m.texture == TextureRef::Image(r.handle)
        && m.extent == r.aux
}

/// `new` is `old` with commands appended.
pub open spec fn extends(new: Seq<GpuCommand>, old: Seq<GpuCommand>) -> bool {
    old.len() <= new.len() && new.subrange(0, old.len() as int) == old
}

/// Appending keeps every command where it was.
pub proof fn lemma_extends_keeps(new: Seq<GpuCommand>, old: Seq<GpuCommand>)
    requires
        extends(new, old),
    ensures
        forall|k: int| 0 <= k < old.len() ==> new[k] == #[trigger] old[k],
{
    assert forall|k: int| 0 <= k < old.len() implies new[k] == #[trigger] old[k] by {
        assert(new.subrange(0, old.len() as int)[k] == new[k]);
    }
}

/// Appending twice is appending.
pub proof fn lemma_extends_trans(a: Seq<GpuCommand>, b: Seq<GpuCommand>, c: Seq<GpuCommand>)
    requires
        extends(b, a),
        extends(c, b),
    ensures
        extends(c, a),
{
    lemma_extends_keeps(b, a);
    lemma_extends_keeps(c, b);
    assert(c.subrange(0, a.len() as int) =~= a);
}

/// Commands from position `from` on create the height binding `b`: the
/// uniform buffer and its bind group, or the texture bind group.
pub open spec fn height_emitted(out: Seq<GpuCommand>, from: int, b: HeightBinding) -> bool {
    match b {
        HeightBinding::Uniform { bind_group, height } => exists|k: int|
            0 <= from <= k && k + 1 < out.len()
            && (#[trigger] out[k]).is_buffer(out[k].id(), BufferUsage::Uniform, seq![height])
            && out[k + 1].is_bind_group(bind_group, Layout::UniformHeight, Binding::Buffer(out[k].id()), None),
        HeightBinding::Texture { bind_group, texture } => exists|k: int|
            0 <= from <= k && k < out.len()
            && (#[trigger] out[k]).is_bind_group(bind_group, Layout::HeightTexture, Binding::Asset(texture), None),
        HeightBinding::Unset => false,
    }
}

/// Commands from position `from` on create the height-map binding `m`: the
/// bounding-box buffer and the bind group over it and the texture.
pub open spec fn height_map_emitted(out: Seq<GpuCommand>, from: int, m: Option<HeightMapBinding>) -> bool {
    m matches Some(b) && exists|k: int|
        0 <= from <= k && k + 1 < out.len()
        && (#[trigger] out[k]).is_buffer(out[k].id(), BufferUsage::Uniform, seq![b.extent.x, b.extent.y, b.extent.z])
        && out[k + 1].is_bind_group(b.bind_group, Layout::HeightMap, Binding::Asset(b.texture), Some(Binding::Buffer(out[k].id())))
}

pub proof fn lemma_height_emitted_earlier(out: Seq<GpuCommand>, a: int, b: int, h: HeightBinding)
    requires
        0 <= a <= b,
        height_emitted(out, b, h),
    ensures
        height_emitted(out, a, h),
{
}

pub proof fn lemma_height_map_emitted_earlier(out: Seq<GpuCommand>, a: int, b: int, m: Option<HeightMapBinding>)
    requires
        0 <= a <= b,
        height_map_emitted(out, b, m),
    ensures
        height_map_emitted(out, a, m),
{
}

pub proof fn lemma_height_emitted_kept(new: Seq<GpuCommand>, old: Seq<GpuCommand>, from: int, b: HeightBinding)
    requires
        extends(new, old),
        height_emitted(old, from, b),
    ensures
        height_emitted(new, from, b),
{
    lemma_extends_keeps(new, old);
    match b {
        HeightBinding::Uniform { bind_group, height } => {
            let k = choose|k: int| 0 <= from <= k && k + 1 < old.len()
                && (#[trigger] old[k]).is_buffer(old[k].id(), BufferUsage::Uniform, seq![height])
                && old[k + 1].is_bind_group(bind_group, Layout::UniformHeight, Binding::Buffer(old[k].id()), None);
            assert(new[k] == old[k] && new[k + 1] == old[k + 1]);
        }
        HeightBinding::Texture { bind_group, texture } => {
            let k = choose|k: int| 0 <= from <= k && k < old.len()
                && (#[trigger] old[k]).is_bind_group(bind_group, Layout::HeightTexture, Binding::Asset(texture), None);
            assert(new[k] == old[k]);
        }
        HeightBinding::Unset => {}
    }
}

pub proof fn lemma_height_map_emitted_kept(new: Seq<GpuCommand>, old: Seq<GpuCommand>, from: int, m: Option<HeightMapBinding>)
    requires
        extends(new, old),
        height_map_emitted(old, from, m),
    ensures
        height_map_emitted(new, from, m),
{
    lemma_extends_keeps(new, old);
    let b = m.unwrap();
    let k = choose|k: int| 0 <= from <= k && k + 1 < old.len()
        && (#[trigger] old[k]).is_buffer(old[k].id(), BufferUsage::Uniform, seq![b.extent.x, b.extent.y, b.extent.z])
        && old[k + 1].is_bind_group(b.bind_group, Layout::HeightMap, Binding::Asset(b.texture), Some(Binding::Buffer(old[k].id())));
    assert(new[k] == old[k] && new[k + 1] == old[k + 1]);
}

/// The whole state of the grass renderer between frames.
pub struct GrassRenderer {
    pub cache: GrassCache,
    /// Chunks waiting for their per-blade height texture.
    pub heights: DeferredQueue<()>,
    /// Chunks waiting for their terrain height map.
    pub height_maps: DeferredQueue<Extent>,
    /// The wind-noise view the region bind group was last built with.
    pub last_noise: Option<TextureRef>,
    /// The set of chunks changed since the region bind group was built.
    pub cache_changed: bool,
    pub next_id: GpuId,
}

impl GrassRenderer {
    /// The cache is well formed, each queue holds at most one record per
    /// chunk, and every record belongs to a registered chunk.
    pub open spec fn wf(&self) -> bool {
        &&& self.cache.wf()
        &&& self.heights.wf()
        &&& self.height_maps.wf()
        &&& forall|i: int| 0 <= i < self.heights@.len()
            ==> self.cache@.contains_key(#[trigger] self.heights@[i].entity)
        &&& forall|i: int| 0 <= i < self.height_maps@.len()
            ==> self.cache@.contains_key(#[trigger] self.height_maps@[i].entity)
    }

    /// Unless the set of chunks changed since, every chunk has the region
    /// bind group.
    pub open spec fn region_complete(&self) -> bool {
        !self.cache_changed ==> forall|k: EntityId| #[trigger] self.cache@.contains_key(k)
            ==> self.cache@[k].region_bindgroup is Some
    }

    pub fn new() -> (r: GrassRenderer)
        ensures
            r.wf(),
            r.region_complete(),
            r.cache@ == Map::<EntityId, CacheEntry>::empty(),
            r.heights@.len() == 0,
            r.height_maps@.len() == 0,
            r.last_noise is None,
            !r.cache_changed,
    {
        GrassRenderer {
            cache: GrassCache::new(),
            heights: DeferredQueue::new(),
            height_maps: DeferredQueue::new(),
            last_noise: None,
            cache_changed: false,
            next_id: 0,
        }
    }

    pub(crate) fn fresh_id(&mut self) -> (id: GpuId)
        ensures
            id == old(self).next_id,
            final(self).next_id == id_after(id),
            final(self).cache == old(self).cache,
            final(self).heights == old(self).heights,
            final(self).height_maps == old(self).height_maps,
            final(self).last_noise == old(self).last_noise,
            final(self).cache_changed == old(self).cache_changed,
    {
        let id = self.next_id;
        self.next_id = if id == u64::MAX { 0 } else { id + 1 };
        id
    }

    /// Creates the entry of a chunk on first sight; a registered chunk is
    /// left as it is.
    pub fn register(&mut self, id: EntityId)
        requires
            old(self).wf(),
        ensures
            final(self).wf(),
            old(self).region_complete() ==> final(self).region_complete(),
            old(self).cache@.contains_key(id) ==> final(self).cache@ == old(self).cache@,
            !old(self).cache@.contains_key(id) ==> final(self).cache@ == old(self).cache@.insert(
                id,
                final(self).cache@[id],
            ) && final(self).cache@[id].is_blank(),
            final(self).cache_changed == (old(self).cache_changed || !old(self).cache@.contains_key(id)),
            final(self).heights == old(self).heights,
            final(self).height_maps == old(self).height_maps,
            final(self).last_noise == old(self).last_noise,
            final(self).next_id == old(self).next_id,
    {
        if !self.cache.contains(id) {
            self.cache.register(id);
            self.cache_changed = true;
        }
    }

    /// Drops a despawned chunk: its entry and its pending records.
    pub fn remove(&mut self, id: EntityId)
        requires
            old(self).wf(),
        ensures
            final(self).wf(),
            old(self).region_complete() ==> final(self).region_complete(),
            final(self).cache@ == old(self).cache@.remove(id),
            !has_record(final(self).heights@, id),
            !has_record(final(self).height_maps@, id),
            final(self).cache_changed == (old(self).cache_changed || old(self).cache@.contains_key(id)),
            final(self).last_noise == old(self).last_noise,
            final(self).next_id == old(self).next_id,
    {
        if self.cache.contains(id) {
            self.cache_changed = true;
        }
        self.cache.remove(id);
        self.heights.cancel(id);
        self.height_maps.cancel(id);
        proof {
            assert forall|i: int| 0 <= i < self.heights@.len() implies
                self.cache@.contains_key(#[trigger] self.heights@[i].entity) by {
                assert(old(self).heights@.contains(self.heights@[i]));
                let x = self.heights@[i].entity;
                assert(has_record(self.heights@, x));
            }
            assert forall|i: int| 0 <= i < self.height_maps@.len() implies
                self.cache@.contains_key(#[trigger] self.height_maps@[i].entity) by {
                assert(old(self).height_maps@.contains(self.height_maps@[i]));
                let x = self.height_maps@[i].entity;
                assert(has_record(self.height_maps@, x));
            }
        }
    }

    /// Rebinds the height of the registered chunk `e` from `src`: a uniform
    /// buffer, the resident texture, or the fallback image with a pending
    /// record. A newer source replaces any pending one.
    pub fn apply_height(
        &mut self,
        e: EntityId,
        src: HeightSource,
        resolved: &Vec<ImageHandle>,
        out: &mut Vec<GpuCommand>,
    )
        requires
            old(self).wf(),
            old(self).cache@.contains_key(e),
        ensures
            final(self).wf(),
            final(self).cache@ == old(self).cache@.insert(
                e,
                with_height(old(self).cache@[e], final(self).cache@[e].height),
            ),
            height_follows(final(self).cache@[e].height, src, resolved@),
            height_emitted(final(out)@, old(out)@.len() as int, final(self).cache@[e].height),
            has_record(final(self).heights@, e) == waits(src, resolved@),
            forall|i: int| 0 <= i < final(self).heights@.len() && (#[trigger] final(self).heights@[i]).entity == e
                ==> (src matches HeightSource::Texture(t) && !resolved@.contains(t)
                    && final(self).heights@[i] == (PendingLoad { entity: e, handle: t, aux: () })),
            forall|x: EntityId| x != e ==> has_record(final(self).heights@, x) == has_record(old(self).heights@, x),
            forall|i: int| 0 <= i < final(self).heights@.len() && #[trigger] final(self).heights@[i].entity != e
                ==> old(self).heights@.contains(final(self).heights@[i]),
            final(self).height_maps == old(self).height_maps,
            final(self).last_noise == old(self).last_noise,
            final(self).cache_changed == old(self).cache_changed,
            extends(final(out)@, old(out)@),
            match src {
                HeightSource::Uniform(h) => final(out)@.len() == old(out)@.len() + 2
                    && final(out)@[old(out)@.len() as int].is_buffer(old(self).next_id, BufferUsage::Uniform, seq![h])
                    && final(self).cache@[e].height == (HeightBinding::Uniform {
                        bind_group: id_after(old(self).next_id),
                        height: h,
                    })
                    && final(out)@[old(out)@.len() + 1int].is_bind_group(
                        id_after(old(self).next_id),
                        Layout::UniformHeight,
                        Binding::Buffer(old(self).next_id),
                        None,
                    ),
                HeightSource::Texture(t) => final(out)@.len() == old(out)@.len() + 1
                    && final(self).cache@[e].height == (HeightBinding::Texture {
                        bind_group: old(self).next_id,
                        texture: view_for(t, resolved@),
                    })
                    && final(out)@[old(out)@.len() as int].is_bind_group(
                        old(self).next_id,
                        Layout::HeightTexture,
                        Binding::Asset(view_for(t, resolved@)),
                        None,
                    ),
            },
    {
        let ghost out0 = out@;
        let binding = match src {
            HeightSource::Uniform(h) => {
                let buffer = self.fresh_id();
                let mut words: Vec<u32> = Vec::new();
                words.push(h);
                assert(words@ =~= seq![h]);
                out.push(buffer_command(buffer, BufferUsage::Uniform, words));
                let group = self.fresh_id();
                out.push(GpuCommand::BindGroup {
                    id: group,
                    layout: Layout::UniformHeight,
                    first: Binding::Buffer(buffer),
                    second: None,
                });
                self.heights.cancel(e);
                HeightBinding::Uniform { bind_group: group, height: h }
            }
            HeightSource::Texture(t) => {
                let texture = if handle_resolved(resolved, t) {
                    self.heights.cancel(e);
                    TextureRef::Image(t)
                } else {
                    self.heights.enqueue(e, t, ());
                    TextureRef::Fallback
                };
                let group = self.fresh_id();
                out.push(GpuCommand::BindGroup {
                    id: group,
                    layout: Layout::HeightTexture,
                    first: Binding::Asset(texture),
                    second: None,
                });
                HeightBinding::Texture { bind_group: group, texture }
            }
        };
        let (i, mut entry) = self.cache.take_entry(e);
        entry.height = binding;
        self.cache.replace_at(i, entry);
        proof {
            assert(out@.subrange(0, out0.len() as int) =~= out0);
            let k0 = out0.len() as int;
            match src {
                HeightSource::Uniform(h) => {
                    assert(out@[k0].is_buffer(out@[k0].id(), BufferUsage::Uniform, seq![h]));
                    assert(height_emitted(out@, k0, self.cache@[e].height));
                }
                HeightSource::Texture(t) => {
                    assert(out@[k0].is_bind_group(out@[k0].id(), Layout::HeightTexture, Binding::Asset(view_for(t, resolved@)), None));
                }
            }
            let hs = self.heights@;
            let oh = old(self).heights@;
            if waits(src, resolved@) {
                if has_record(oh, e) {
                    let j = choose|j: int| 0 <= j < oh.len() && oh[j].entity == e
                        && hs == oh.update(j, PendingLoad { entity: e, handle: hs[j].handle, aux: () });
                    assert(hs[j].entity == e);
                } else {
                    assert(hs[oh.len() as int].entity == e);
                }
            }
            assert forall|k: int| 0 <= k < hs.len() && #[trigger] hs[k].entity != e
                implies oh.contains(hs[k]) by {
                if !has_record(oh, e) && waits(src, resolved@) {
                    if k == oh.len() {
                    } else {
                        assert(oh[k] == hs[k]);
                    }
                } else if waits(src, resolved@) {
                    let j = choose|j: int| 0 <= j < oh.len() && oh[j].entity == e
                        && hs == oh.update(j, PendingLoad { entity: e, handle: hs[j].handle, aux: () });
                    assert(k != j);
                    assert(oh[k] == hs[k]);
                }
            }
            assert forall|x: EntityId| x != e implies
                has_record(hs, x) == has_record(oh, x) by {
                if waits(src, resolved@) {
                    if has_record(oh, x) {
                        let j = choose|j: int| 0 <= j < oh.len() && oh[j].entity == x;
                        assert(hs[j].entity == x);
                    }
                    if has_record(hs, x) {
                        let j = choose|j: int| 0 <= j < hs.len() && hs[j].entity == x;
                        assert(oh[j].entity == x);
                    }
                }
            }
            assert forall|k: int| 0 <= k < hs.len() implies
                self.cache@.contains_key(#[trigger] hs[k].entity) by {
                if hs[k].entity != e {
                    let j = choose|j: int| 0 <= j < oh.len() && oh[j] == hs[k];
                    assert(old(self).cache@.contains_key(oh[j].entity));
                }
            }
        }
    }

    /// Rebuilds the height bind group of every chunk whose pending texture
    /// is now resident, and drops those records.
    pub fn resolve_heights(&mut self, resolved: &Vec<ImageHandle>, out: &mut Vec<GpuCommand>)
        requires
            old(self).wf(),
        ensures
            final(self).wf(),
            final(self).cache@.dom() == old(self).cache@.dom(),
            final(self).heights@ == still_pending(old(self).heights@, resolved@),
            forall|j: int| 0 <= j < released(old(self).heights@, resolved@).len() ==> {
                let r = #[trigger] released(old(self).heights@, resolved@)[j];
                rebound_height(final(self).cache@[r.entity], old(self).cache@[r.entity], r.handle)
                    && !has_record(final(self).heights@, r.entity)
                    && height_emitted(final(out)@, old(out)@.len() as int, final(self).cache@[r.entity].height)
            },
            final(out)@.len() == old(out)@.len() + 1 * released(old(self).heights@, resolved@).len(),
            forall|i: int| 0 <= i < final(self).heights@.len() ==> !resolved@.contains(#[trigger] final(self).heights@[i].handle),
            forall|x: EntityId| final(self).cache@.contains_key(x)
                && !has_record(released(old(self).heights@, resolved@), x)
                ==> final(self).cache@[x] == old(self).cache@[x],
            old(self).heights@.len() == 0 ==> *final(self) == *old(self),
            final(self).height_maps == old(self).height_maps,
            final(self).last_noise == old(self).last_noise,
            final(self).cache_changed == old(self).cache_changed,
            extends(final(out)@, old(out)@),
            old(self).heights@.len() == 0 ==> final(out)@ == old(out)@,
    {
        if self.heights.len() == 0 {
            assert(out@.subrange(0, out@.len() as int) =~= out@);
            assert(released(self.heights@, resolved@).len() == 0) by {
                reveal(Seq::filter);
            }
            return;
        }
        let ghost c0 = self.cache@;
        let ghost h0 = self.heights@;
        let ghost out0 = out@;
        let recs = self.heights.take_resolved(resolved);
        proof {
            assert(out@.subrange(0, out0.len() as int) =~= out0);
            lemma_released_from(h0, resolved@);
            assert forall|k: int| 0 <= k < self.heights@.len() implies
                self.cache@.contains_key(#[trigger] self.heights@[k].entity) by {
                lemma_still_pending_records(h0, resolved@, self.heights@[k].entity);
                assert(has_record(self.heights@, self.heights@[k].entity));
            }
        }
        let mut i: usize = 0;
        while i < recs.len()
            invariant
                self.wf(),
                self.cache@.dom() == c0.dom(),
                self.heights@ == still_pending(h0, resolved@),
                recs@ == released(h0, resolved@),
                unique_entities(recs@),
                forall|k: int| 0 <= k < recs@.len() ==> c0.contains_key(#[trigger] recs@[k].entity),
                i <= recs@.len(),
                forall|j: int| 0 <= j < i ==> rebound_height(
                    self.cache@[#[trigger] recs@[j].entity], c0[recs@[j].entity], recs@[j].handle),
                forall|x: EntityId| self.cache@.contains_key(x)
                    && !(exists|j: int| 0 <= j < i && #[trigger] recs@[j].entity == x)
                    ==> self.cache@[x] == c0[x],
                self.height_maps == old(self).height_maps,
                self.last_noise == old(self).last_noise,
                self.cache_changed == old(self).cache_changed,
                extends(out@, out0),
                out@.len() == out0.len() + 1 * i,
                forall|j: int| 0 <= j < i ==> height_emitted(out@, out0.len() as int, self.cache@[#[trigger] recs@[j].entity].height),
            decreases recs@.len() - i,
        {
            let r = recs[i];
            let ghost o1 = out@;
            let group = self.fresh_id();
            out.push(GpuCommand::BindGroup {
                id: group,
                layout: Layout::HeightTexture,
                first: Binding::Asset(TextureRef::Image(r.handle)),
                second: None,
            });
            let (pos, mut entry) = self.cache.take_entry(r.entity);
            entry.height = HeightBinding::Texture { bind_group: group, texture: TextureRef::Image(r.handle) };
            self.cache.replace_at(pos, entry);
            proof {
                assert(out@.subrange(0, out0.len() as int) =~= out0);
                assert forall|j: int| 0 <= j < i implies #[trigger] recs@[j].entity != r.entity by {}
                assert(out@.subrange(0, o1.len() as int) =~= o1);
                assert forall|j: int| 0 <= j < i implies height_emitted(out@, out0.len() as int, self.cache@[#[trigger] recs@[j].entity].height) by {
                    lemma_height_emitted_kept(out@, o1, out0.len() as int, self.cache@[recs@[j].entity].height);
                }
                let k0 = o1.len() as int;
                assert(out@[k0].is_bind_group(group, Layout::HeightTexture, Binding::Asset(TextureRef::Image(r.handle)), None));
                assert(height_emitted(out@, out0.len() as int, self.cache@[r.entity].height));
                assert forall|x: EntityId| self.cache@.contains_key(x)
                    && !(exists|j: int| 0 <= j < i + 1 && #[trigger] recs@[j].entity == x)
                    implies self.cache@[x] == c0[x] by {
                    assert(recs@[i as int].entity != x);
                }
            }
            i = i + 1;
        }
        proof {
            assert forall|i: int| 0 <= i < self.heights@.len() implies !resolved@.contains(#[trigger] self.heights@[i].handle) by {
                h0.lemma_filter_pred(|r: PendingLoad<()>| !resolved@.contains(r.handle), i);
            }
            assert forall|j: int| 0 <= j < recs@.len() implies
                !has_record(self.heights@, #[trigger] recs@[j].entity) by {
                assert(h0.contains(recs@[j]));
                let k = choose|k: int| 0 <= k < h0.len() && h0[k] == recs@[j];
                lemma_released_not_pending(h0, resolved@, k);
            }
            assert forall|x: EntityId| self.cache@.contains_key(x)
                && !has_record(recs@, x) implies self.cache@[x] == c0[x] by {
                if exists|j: int| 0 <= j < recs@.len() && #[trigger] recs@[j].entity == x {
                    let j = choose|j: int| 0 <= j < recs@.len() && #[trigger] recs@[j].entity == x;
                    assert(has_record(recs@, x));
                }
            }
        }
    }

    /// The height stage of a frame: first the pending textures that are now
    /// resident, then the chunks whose height source changed. An event for
    /// an unregistered chunk is skipped and reported in `skipped`.
    pub fn prepare_height_buffer(
        &mut self,
        events: &Vec<(EntityId, HeightSource)>,
        resolved: &Vec<ImageHandle>,
        out: &mut Vec<GpuCommand>,
        skipped: &mut Vec<EntityId>,
    )
        requires
            old(self).wf(),
        ensures
            final(self).wf(),
            final(self).cache@.dom() == old(self).cache@.dom(),
            forall|x: EntityId| #[trigger] final(self).cache@.contains_key(x) && has_event(events@, x) ==> {
                &&& final(self).cache@[x] == with_height(old(self).cache@[x], final(self).cache@[x].height)
                &&& height_follows(final(self).cache@[x].height, last_event(events@, x), resolved@)
                &&& has_record(final(self).heights@, x) == waits(last_event(events@, x), resolved@)
            },
            forall|j: int| 0 <= j < released(old(self).heights@, resolved@).len() ==> {
                let r = #[trigger] released(old(self).heights@, resolved@)[j];
                !has_event(events@, r.entity) ==> rebound_height(
                    final(self).cache@[r.entity],
                    old(self).cache@[r.entity],
                    r.handle,
                ) && !has_record(final(self).heights@, r.entity)
            },
            forall|x: EntityId| #[trigger] final(self).cache@.contains_key(x) && !has_event(events@, x)
                && !has_record(released(old(self).heights@, resolved@), x) ==> {
                &&& final(self).cache@[x] == old(self).cache@[x]
                &&& has_record(final(self).heights@, x) == has_record(old(self).heights@, x)
            },
            forall|k: int| old(skipped)@.len() <= k < final(skipped)@.len()
                ==> !old(self).cache@.contains_key(#[trigger] final(skipped)@[k]),
            old(skipped)@.len() <= final(skipped)@.len(),
            forall|k: int| 0 <= k < old(skipped)@.len() ==> #[trigger] final(skipped)@[k] == old(skipped)@[k],
            events@.len() == 0 && old(self).heights@.len() == 0 ==> *final(self) == *old(self)
                && final(out)@ == old(out)@,
            final(self).height_maps == old(self).height_maps,
            final(self).last_noise == old(self).last_noise,
            final(self).cache_changed == old(self).cache_changed,
            extends(final(out)@, old(out)@),
            forall|x: EntityId| #[trigger] final(self).cache@.contains_key(x)
                && (has_event(events@, x) || has_record(released(old(self).heights@, resolved@), x))
                ==> height_emitted(final(out)@, old(out)@.len() as int, final(self).cache@[x].height),
            forall|k: int| 0 <= k < final(self).heights@.len() ==> {
                let r = #[trigger] final(self).heights@[k];
                &&& !resolved@.contains(r.handle)
                &&& has_event(events@, r.entity) ==> last_event(events@, r.entity) == HeightSource::Texture(r.handle)
                &&& !has_event(events@, r.entity) ==> old(self).heights@.contains(r)
            },
            forall|x: EntityId| has_event(events@, x) && !old(self).cache@.contains_key(x)
                ==> final(skipped)@.contains(x),
    {
        let ghost h0 = self.heights@;
        let ghost out0 = out@;
        let ghost sk0 = skipped@;
        self.resolve_heights(resolved, out);
        let ghost c1 = self.cache@;
        let ghost h1 = self.heights@;
        proof {
            lemma_released_from(h0, resolved@);
            assert forall|x: EntityId| has_record(h1, x) implies has_record(h0, x) by {
                lemma_still_pending_records(h0, resolved@, x);
            }
            assert forall|x: EntityId| has_record(h0, x) && !has_record(released(h0, resolved@), x)
                implies has_record(h1, x) by {
                let k = choose|k: int| 0 <= k < h0.len() && h0[k].entity == x;
                if resolved@.contains(h0[k].handle) {
                    h0.lemma_filter_contains(|r: PendingLoad<()>| resolved@.contains(r.handle), k);
                    assert(released(h0, resolved@).contains(h0[k]));
                    let j = choose|j: int| 0 <= j < released(h0, resolved@).len()
                        && released(h0, resolved@)[j] == h0[k];
                    assert(released(h0, resolved@)[j].entity == x);
                } else {
                    h0.lemma_filter_contains(|r: PendingLoad<()>| !resolved@.contains(r.handle), k);
                    assert(h1.contains(h0[k]));
                    let j = choose|j: int| 0 <= j < h1.len() && h1[j] == h0[k];
                    assert(h1[j].entity == x);
                }
            }
        }
        proof {
            assert(events@.take(0) =~= Seq::<(EntityId, HeightSource)>::empty());
            assert forall|x: EntityId| #[trigger] self.cache@.contains_key(x)
                && has_record(released(h0, resolved@), x)
                implies height_emitted(out@, out0.len() as int, self.cache@[x].height) by {
                let j = choose|j: int| 0 <= j < released(h0, resolved@).len() && released(h0, resolved@)[j].entity == x;
                assert(released(h0, resolved@)[j].entity == x);
            }
            assert forall|k: int| 0 <= k < h1.len() implies h1.contains(#[trigger] h1[k]) by {}
        }
        let mut i: usize = 0;
        while i < events.len()
            invariant
                self.wf(),
                self.cache@.dom() == c1.dom(),
                i <= events@.len(),
                forall|x: EntityId| #[trigger] self.cache@.contains_key(x) && has_event(events@.take(i as int), x) ==> {
                    &&& self.cache@[x] == with_height(c1[x], self.cache@[x].height)
                    &&& height_follows(self.cache@[x].height, last_event(events@.take(i as int), x), resolved@)
                    &&& has_record(self.heights@, x) == waits(last_event(events@.take(i as int), x), resolved@)
                },
                forall|x: EntityId| #[trigger] self.cache@.contains_key(x) && !has_event(events@.take(i as int), x) ==> {
                    &&& self.cache@[x] == c1[x]
                    &&& has_record(self.heights@, x) == has_record(h1, x)
                },
                forall|k: int| sk0.len() <= k < skipped@.len()
                    ==> !c1.contains_key(#[trigger] skipped@[k]),
                sk0.len() <= skipped@.len(),
                forall|k: int| 0 <= k < sk0.len() ==> #[trigger] skipped@[k] == sk0[k],
                events@.len() == 0 && h0.len() == 0 ==> *self == *old(self) && out@ == out0,
                self.height_maps == old(self).height_maps,
                self.last_noise == old(self).last_noise,
                self.cache_changed == old(self).cache_changed,
                extends(out@, out0),
                forall|x: EntityId| #[trigger] self.cache@.contains_key(x)
                    && (has_event(events@.take(i as int), x) || has_record(released(h0, resolved@), x))
                    ==> height_emitted(out@, out0.len() as int, self.cache@[x].height),
                forall|k: int| 0 <= k < self.heights@.len() ==> {
                    let r = #[trigger] self.heights@[k];
                    &&& !resolved@.contains(r.handle)
                    &&& has_event(events@.take(i as int), r.entity) ==> last_event(events@.take(i as int), r.entity) == HeightSource::Texture(r.handle)
                    &&& !has_event(events@.take(i as int), r.entity) ==> h1.contains(r)
                },
                forall|x: EntityId| has_event(events@.take(i as int), x) && !c1.contains_key(x)
                    ==> skipped@.contains(x),
            decreases events@.len() - i,
        {
            let (e, src) = events[i];
            let ghost pre = events@.take(i as int);
            let ghost post = events@.take(i + 1);
            proof {
                assert(post.drop_last() =~= pre);
                assert(post.last() == (e, src));
                assert forall|x: EntityId| has_event(post, x) == (has_event(pre, x) || x == e) by {
                    if has_event(post, x) {
                        let j = choose|j: int| 0 <= j < post.len() && post[j].0 == x;
                        if j < i {
                            assert(pre[j].0 == x);
                        }
                    }
                    if has_event(pre, x) {
                        let j = choose|j: int| 0 <= j < pre.len() && pre[j].0 == x;
                        assert(post[j].0 == x);
                    }
                    if x == e {
                        assert(post[i as int].0 == x);
                    }
                }
            }
            if self.cache.contains(e) {
                let ghost hs = self.heights@;
                let ghost cs = self.cache@;
                let ghost o1 = out@;
                self.apply_height(e, src, resolved, out);
                proof {
                    lemma_event_step(events@, i as int);
                    assert(out@.subrange(0, o1.len() as int) =~= o1);
                    lemma_height_emitted_earlier(out@, out0.len() as int, o1.len() as int, self.cache@[e].height);
                    assert forall|x: EntityId| #[trigger] self.cache@.contains_key(x) && x != e
                        && (has_event(post, x) || has_record(released(h0, resolved@), x))
                        implies height_emitted(out@, out0.len() as int, self.cache@[x].height) by {
                        lemma_height_emitted_kept(out@, o1, out0.len() as int, self.cache@[x].height);
                    }
                    assert forall|k: int| 0 <= k < self.heights@.len() implies {
                        let r = #[trigger] self.heights@[k];
                        &&& !resolved@.contains(r.handle)
                        &&& has_event(post, r.entity) ==> last_event(post, r.entity) == HeightSource::Texture(r.handle)
                        &&& !has_event(post, r.entity) ==> h1.contains(r)
                    } by {
                        let r = self.heights@[k];
                        if r.entity != e {
                            assert(hs.contains(r));
                            let k2 = choose|k2: int| 0 <= k2 < hs.len() && hs[k2] == r;
                            assert(hs[k2] == r);
                        }
                    }
                    assert forall|x: EntityId| has_event(post, x) && !c1.contains_key(x)
                        implies skipped@.contains(x) by {
                        assert(x != e);
                    }
                    assert(out@.subrange(0, out0.len() as int) =~= out0);
                    assert forall|x: EntityId| #[trigger] self.cache@.contains_key(x) && x != e implies
                        has_record(self.heights@, x) == has_record(hs, x) by {}
                }
            } else {
                let ghost sk1 = skipped@;
                skipped.push(e);
                proof {
                    lemma_event_step(events@, i as int);
                    assert(skipped@[sk1.len() as int] == e);
                    assert forall|x: EntityId| has_event(post, x) && !c1.contains_key(x)
                        implies skipped@.contains(x) by {
                        if x != e {
                            assert(sk1.contains(x));
                            let k2 = choose|k2: int| 0 <= k2 < sk1.len() && sk1[k2] == x;
                            assert(skipped@[k2] == x);
                        }
                    }
                    assert forall|k: int| 0 <= k < self.heights@.len() implies
                        (#[trigger] self.heights@[k]).entity != e by {
                        assert(self.cache@.contains_key(self.heights@[k].entity));
                    }
                    assert forall|x: EntityId| #[trigger] self.cache@.contains_key(x) implies x != e by {}
                }
            }
            i = i + 1;
        }
        proof {
            assert(events@.take(events@.len() as int) =~= events@);
            lemma_kept_from(h0, resolved@);
            assert forall|k: int| 0 <= k < self.heights@.len() && !has_event(events@, self.heights@[k].entity)
                implies h0.contains(#[trigger] self.heights@[k]) by {
                let r = self.heights@[k];
                let k2 = choose|k2: int| 0 <= k2 < h1.len() && h1[k2] == r;
                assert(h0.contains(h1[k2]));
            }
            if events@.len() == 0 && h0.len() == 0 {
                assert(out@.subrange(0, out0.len() as int) =~= out0);
            }
        }
    }

    /// The height-map stage of a frame: first the pending height maps that
    /// are now resident, then the chunks whose height map changed. An event
    /// for an unregistered chunk is skipped and reported in `skipped`.
    pub fn prepare_height_map_buffer(
        &mut self,
        events: &Vec<(EntityId, HeightMapSource)>,
        resolved: &Vec<ImageHandle>,
        out: &mut Vec<GpuCommand>,
        skipped: &mut Vec<EntityId>,
    )
        requires
            old(self).wf(),
        ensures
            final(self).wf(),
            final(self).cache@.dom() == old(self).cache@.dom(),
            forall|x: EntityId| #[trigger] final(self).cache@.contains_key(x) && has_event(events@, x) ==> {
                &&& final(self).cache@[x] == with_height_map(old(self).cache@[x], final(self).cache@[x].height_map)
                &&& height_map_follows(final(self).cache@[x].height_map, last_event(events@, x), resolved@)
                &&& has_record(final(self).height_maps@, x) == !resolved@.contains(last_event(events@, x).handle)
            },
            forall|j: int| 0 <= j < released(old(self).height_maps@, resolved@).len() ==> {
                let r = #[trigger] released(old(self).height_maps@, resolved@)[j];
                !has_event(events@, r.entity) ==> rebound_height_map(
                    final(self).cache@[r.entity],
                    old(self).cache@[r.entity],
                    r,
                ) && !has_record(final(self).height_maps@, r.entity)
            },
            forall|x: EntityId| #[trigger] final(self).cache@.contains_key(x) && !has_event(events@, x)
                && !has_record(released(old(self).height_maps@, resolved@), x) ==> {
                &&& final(self).cache@[x] == old(self).cache@[x]
                &&& has_record(final(self).height_maps@, x) == has_record(old(self).height_maps@, x)
            },
            forall|k: int| old(skipped)@.len() <= k < final(skipped)@.len()
                ==> !old(self).cache@.contains_key(#[trigger] final(skipped)@[k]),
            old(skipped)@.len() <= final(skipped)@.len(),
            forall|k: int| 0 <= k < old(skipped)@.len() ==> #[trigger] final(skipped)@[k] == old(skipped)@[k],
            events@.len() == 0 && old(self).height_maps@.len() == 0 ==> *final(self) == *old(self)
                && final(out)@ == old(out)@,
            final(self).heights == old(self).heights,
            final(self).last_noise == old(self).last_noise,
            final(self).cache_changed == old(self).cache_changed,
            extends(final(out)@, old(out)@),
            forall|x: EntityId| #[trigger] final(self).cache@.contains_key(x)
                && (has_event(events@, x) || has_record(released(old(self).height_maps@, resolved@), x))
                ==> height_map_emitted(final(out)@, old(out)@.len() as int, final(self).cache@[x].height_map),
            forall|k: int| 0 <= k < final(self).height_maps@.len() ==> {
                let r = #[trigger] final(self).height_maps@[k];
                &&& !resolved@.contains(r.handle)
                &&& has_event(events@, r.entity) ==> last_event(events@, r.entity) == (HeightMapSource { handle: r.handle, extent: r.aux })
                &&& !has_event(events@, r.entity) ==> old(self).height_maps@.contains(r)
            },
            forall|x: EntityId| has_event(events@, x) && !old(self).cache@.contains_key(x)
                ==> final(skipped)@.contains(x),
    {
        let ghost h0 = self.height_maps@;
        let ghost out0 = out@;
        let ghost sk0 = skipped@;
        self.resolve_height_maps(resolved, out);
        let ghost c1 = self.cache@;
        let ghost h1 = self.height_maps@;
        proof {
            lemma_released_from(h0, resolved@);
            assert forall|x: EntityId| has_record(h1, x) implies has_record(h0, x) by {
                lemma_still_pending_records(h0, resolved@, x);
            }
            assert forall|x: EntityId| has_record(h0, x) && !has_record(released(h0, resolved@), x)
                implies has_record(h1, x) by {
                let k = choose|k: int| 0 <= k < h0.len() && h0[k].entity == x;
                if resolved@.contains(h0[k].handle) {
                    h0.lemma_filter_contains(|r: PendingLoad<Extent>| resolved@.contains(r.handle), k);
                    assert(released(h0, resolved@).contains(h0[k]));
                    let j = choose|j: int| 0 <= j < released(h0, resolved@).len()
                        && released(h0, resolved@)[j] == h0[k];
                    assert(released(h0, resolved@)[j].entity == x);
                } else {
                    h0.lemma_filter_contains(|r: PendingLoad<Extent>| !resolved@.contains(r.handle), k);
                    assert(h1.contains(h0[k]));
                    let j = choose|j: int| 0 <= j < h1.len() && h1[j] == h0[k];
                    assert(h1[j].entity == x);
                }
            }
        }
        proof {
            assert(events@.take(0) =~= Seq::<(EntityId, HeightMapSource)>::empty());
            assert forall|x: EntityId| #[trigger] self.cache@.contains_key(x)
                && has_record(released(h0, resolved@), x)
                implies height_map_emitted(out@, out0.len() as int, self.cache@[x].height_map) by {
                let j = choose|j: int| 0 <= j < released(h0, resolved@).len() && released(h0, resolved@)[j].entity == x;
                assert(released(h0, resolved@)[j].entity == x);
            }
            assert forall|k: int| 0 <= k < h1.len() implies h1.contains(#[trigger] h1[k]) by {}
        }
        let mut i: usize = 0;
        while i < events.len()
            invariant
                self.wf(),
                self.cache@.dom() == c1.dom(),
                i <= events@.len(),
                forall|x: EntityId| #[trigger] self.cache@.contains_key(x) && has_event(events@.take(i as int), x) ==> {
                    &&& self.cache@[x] == with_height_map(c1[x], self.cache@[x].height_map)
                    &&& height_map_follows(self.cache@[x].height_map, last_event(events@.take(i as int), x), resolved@)
                    &&& has_record(self.height_maps@, x) == !resolved@.contains(last_event(events@.take(i as int), x).handle)
                },
                forall|x: EntityId| #[trigger] self.cache@.contains_key(x) && !has_event(events@.take(i as int), x) ==> {
                    &&& self.cache@[x] == c1[x]
                    &&& has_record(self.height_maps@, x) == has_record(h1, x)
                },
                forall|k: int| sk0.len() <= k < skipped@.len()
                    ==> !c1.contains_key(#[trigger] skipped@[k]),
                sk0.len() <= skipped@.len(),
                forall|k: int| 0 <= k < sk0.len() ==> #[trigger] skipped@[k] == sk0[k],
                events@.len() == 0 && h0.len() == 0 ==> *self == *old(self) && out@ == out0,
                self.heights == old(self).heights,
                self.last_noise == old(self).last_noise,
                self.cache_changed == old(self).cache_changed,
                extends(out@, out0),
                forall|x: EntityId| #[trigger] self.cache@.contains_key(x)
                    && (has_event(events@.take(i as int), x) || has_record(released(h0, resolved@), x))
                    ==> height_map_emitted(out@, out0.len() as int, self.cache@[x].height_map),
                forall|k: int| 0 <= k < self.height_maps@.len() ==> {
                    let r = #[trigger] self.height_maps@[k];
                    &&& !resolved@.contains(r.handle)
                    &&& has_event(events@.take(i as int), r.entity) ==> last_event(events@.take(i as int), r.entity) == (HeightMapSource { handle: r.handle, extent: r.aux })
                    &&& !has_event(events@.take(i as int), r.entity) ==> h1.contains(r)
                },
                forall|x: EntityId| has_event(events@.take(i as int), x) && !c1.contains_key(x)
                    ==> skipped@.contains(x),
            decreases events@.len() - i,
        {
            let (e, src) = events[i];
            let ghost pre = events@.take(i as int);
            let ghost post = events@.take(i + 1);
            proof {
                assert(post.drop_last() =~= pre);
                assert(post.last() == (e, src));
                assert forall|x: EntityId| has_event(post, x) == (has_event(pre, x) || x == e) by {
                    if has_event(post, x) {
                        let j = choose|j: int| 0 <= j < post.len() && post[j].0 == x;
                        if j < i {
                            assert(pre[j].0 == x);
                        }
                    }
                    if has_event(pre, x) {
                        let j = choose|j: int| 0 <= j < pre.len() && pre[j].0 == x;
                        assert(post[j].0 == x);
                    }
                    if x == e {
                        assert(post[i as int].0 == x);
                    }
                }
            }
            if self.cache.contains(e) {
                let ghost hs = self.height_maps@;
                let ghost cs = self.cache@;
                let ghost o1 = out@;
                self.apply_height_map(e, src, resolved, out);
                proof {
                    lemma_event_step(events@, i as int);
                    assert(out@.subrange(0, o1.len() as int) =~= o1);
                    lemma_height_map_emitted_earlier(out@, out0.len() as int, o1.len() as int, self.cache@[e].height_map);
                    assert forall|x: EntityId| #[trigger] self.cache@.contains_key(x) && x != e
                        && (has_event(post, x) || has_record(released(h0, resolved@), x))
                        implies height_map_emitted(out@, out0.len() as int, self.cache@[x].height_map) by {
                        lemma_height_map_emitted_kept(out@, o1, out0.len() as int, self.cache@[x].height_map);
                    }
                    assert forall|k: int| 0 <= k < self.height_maps@.len() implies {
                        let r = #[trigger] self.height_maps@[k];
                        &&& !resolved@.contains(r.handle)
                        &&& has_event(post, r.entity) ==> last_event(post, r.entity) == (HeightMapSource { handle: r.handle, extent: r.aux })
                        &&& !has_event(post, r.entity) ==> h1.contains(r)
                    } by {
                        let r = self.height_maps@[k];
                        if r.entity != e {
                            assert(hs.contains(r));
                            let k2 = choose|k2: int| 0 <= k2 < hs.len() && hs[k2] == r;
                            assert(hs[k2] == r);
                        }
                    }
                    assert forall|x: EntityId| has_event(post, x) && !c1.contains_key(x)
                        implies skipped@.contains(x) by {
                        assert(x != e);
                    }
                    assert(out@.subrange(0, out0.len() as int) =~= out0);
                    assert forall|x: EntityId| #[trigger] self.cache@.contains_key(x) && x != e implies
                        has_record(self.height_maps@, x) == has_record(hs, x) by {}
                }
            } else {
                let ghost sk1 = skipped@;
                skipped.push(e);
                proof {
                    lemma_event_step(events@, i as int);
                    assert(skipped@[sk1.len() as int] == e);
                    assert forall|x: EntityId| has_event(post, x) && !c1.contains_key(x)
                        implies skipped@.contains(x) by {
                        if x != e {
                            assert(sk1.contains(x));
                            let k2 = choose|k2: int| 0 <= k2 < sk1.len() && sk1[k2] == x;
                            assert(skipped@[k2] == x);
                        }
                    }
                    assert forall|k: int| 0 <= k < self.height_maps@.len() implies
                        (#[trigger] self.height_maps@[k]).entity != e by {
                        assert(self.cache@.contains_key(self.height_maps@[k].entity));
                    }
                    assert forall|x: EntityId| #[trigger] self.cache@.contains_key(x) implies x != e by {}
                }
            }
            i = i + 1;
        }
        proof {
            assert(events@.take(events@.len() as int) =~= events@);
            lemma_kept_from(h0, resolved@);
            assert forall|k: int| 0 <= k < self.height_maps@.len() && !has_event(events@, self.height_maps@[k].entity)
                implies h0.contains(#[trigger] self.height_maps@[k]) by {
                let r = self.height_maps@[k];
                let k2 = choose|k2: int| 0 <= k2 < h1.len() && h1[k2] == r;
                assert(h0.contains(h1[k2]));
            }
            if events@.len() == 0 && h0.len() == 0 {
                assert(out@.subrange(0, out0.len() as int) =~= out0);
            }
        }
    }

    /// Rebinds the terrain height map of the registered chunk `e`: the
    /// resident texture, or the fallback image with a pending record, and a
    /// uniform buffer holding the bounding-box size.
    pub fn apply_height_map(
        &mut self,
        e: EntityId,
        src: HeightMapSource,
        resolved: &Vec<ImageHandle>,
        out: &mut Vec<GpuCommand>,
    )
        requires
            old(self).wf(),
            old(self).cache@.contains_key(e),
        ensures
            final(self).wf(),
            final(self).cache@ == old(self).cache@.insert(
                e,
                with_height_map(old(self).cache@[e], final(self).cache@[e].height_map),
            ),
            final(self).cache@[e].height_map == Some(HeightMapBinding {
                bind_group: id_after(old(self).next_id),
                texture: view_for(src.handle, resolved@),
                extent: src.extent,
            }),
            has_record(final(self).height_maps@, e) == !resolved@.contains(src.handle),
            height_map_emitted(final(out)@, old(out)@.len() as int, final(self).cache@[e].height_map),
            forall|i: int| 0 <= i < final(self).height_maps@.len() && (#[trigger] final(self).height_maps@[i]).entity == e
                ==> !resolved@.contains(src.handle)
                    && final(self).height_maps@[i] == (PendingLoad { entity: e, handle: src.handle, aux: src.extent }),
            forall|i: int| 0 <= i < final(self).height_maps@.len() && (#[trigger] final(self).height_maps@[i]).entity != e
                ==> old(self).height_maps@.contains(final(self).height_maps@[i]),
            forall|x: EntityId| x != e ==> has_record(final(self).height_maps@, x) == has_record(old(self).height_maps@, x),
            final(self).heights == old(self).heights,
            final(self).last_noise == old(self).last_noise,
            final(self).cache_changed == old(self).cache_changed,
            extends(final(out)@, old(out)@),
            final(out)@.len() == old(out)@.len() + 2,
            final(out)@[old(out)@.len() as int].is_buffer(
                old(self).next_id,
                BufferUsage::Uniform,
                seq![src.extent.x, src.extent.y, src.extent.z],
            ),
            final(out)@[old(out)@.len() + 1int].is_bind_group(
                id_after(old(self).next_id),
                Layout::HeightMap,
                Binding::Asset(view_for(src.handle, resolved@)),
                Some(Binding::Buffer(old(self).next_id)),
            ),
    {
        let ghost out0 = out@;
        let texture = if handle_resolved(resolved, src.handle) {
            self.height_maps.cancel(e);
            TextureRef::Image(src.handle)
        } else {
            self.height_maps.enqueue(e, src.handle, src.extent);
            TextureRef::Fallback
        };
        let group = self.build_height_map_group(texture, src.extent, out);
        let (i, mut entry) = self.cache.take_entry(e);
        entry.height_map = Some(HeightMapBinding { bind_group: group, texture, extent: src.extent });
        self.cache.replace_at(i, entry);
        proof {
            let hs = self.height_maps@;
            let oh = old(self).height_maps@;
            if !resolved@.contains(src.handle) {
                if has_record(oh, e) {
                    let j = choose|j: int| 0 <= j < oh.len() && oh[j].entity == e
                        && hs == oh.update(j, PendingLoad { entity: e, handle: src.handle, aux: src.extent });
                    assert(hs[j].entity == e);
                } else {
                    assert(hs[oh.len() as int].entity == e);
                }
            }
            assert forall|x: EntityId| x != e implies
                has_record(hs, x) == has_record(oh, x) by {
                if !resolved@.contains(src.handle) {
                    if has_record(oh, x) {
                        let j = choose|j: int| 0 <= j < oh.len() && oh[j].entity == x;
                        assert(hs[j].entity == x);
                    }
                    if has_record(hs, x) {
                        let j = choose|j: int| 0 <= j < hs.len() && hs[j].entity == x;
                        assert(oh[j].entity == x);
                    }
                }
            }
            assert forall|k: int| 0 <= k < hs.len() implies
                self.cache@.contains_key(#[trigger] hs[k].entity) by {
                if hs[k].entity != e {
                    assert(has_record(hs, hs[k].entity));
                    let j = choose|j: int| 0 <= j < oh.len() && oh[j].entity == hs[k].entity;
                    assert(old(self).cache@.contains_key(oh[j].entity));
                }
            }
        }
    }

    /// Asks for the bounding-box buffer and the height-map bind group over
    /// `texture`, and returns the group's identity.
    fn build_height_map_group(&mut self, texture: TextureRef, extent: Extent, out: &mut Vec<GpuCommand>) -> (group: GpuId)
        ensures
            group == id_after(old(self).next_id),
            final(self).next_id == id_after(group),
            final(self).cache == old(self).cache,
            final(self).heights == old(self).heights,
            final(self).height_maps == old(self).height_maps,
            final(self).last_noise == old(self).last_noise,
            final(self).cache_changed == old(self).cache_changed,
            extends(final(out)@, old(out)@),
            final(out)@.len() == old(out)@.len() + 2,
            final(out)@[old(out)@.len() as int].is_buffer(
                old(self).next_id,
                BufferUsage::Uniform,
                seq![extent.x, extent.y, extent.z],
            ),
            final(out)@[old(out)@.len() + 1int].is_bind_group(
                group,
                Layout::HeightMap,
                Binding::Asset(texture),
                Some(Binding::Buffer(old(self).next_id)),
            ),
    {
        let ghost out0 = out@;
        let buffer = self.fresh_id();
        let mut words: Vec<u32> = Vec::new();
        words.push(extent.x);
        words.push(extent.y);
        words.push(extent.z);
        assert(words@ =~= seq![extent.x, extent.y, extent.z]);
        out.push(buffer_command(buffer, BufferUsage::Uniform, words));
        let group = self.fresh_id();
        out.push(GpuCommand::BindGroup {
            id: group,
            layout: Layout::HeightMap,
            first: Binding::Asset(texture),
            second: Some(Binding::Buffer(buffer)),
        });
        assert(out@.subrange(0, out0.len() as int) =~= out0);
        group
    }

    /// Rebuilds the height-map bind group of every chunk whose pending
    /// height map is now resident, and drops those records.
    pub fn resolve_height_maps(&mut self, resolved: &Vec<ImageHandle>, out: &mut Vec<GpuCommand>)
        requires
            old(self).wf(),
        ensures
            final(self).wf(),
            final(self).cache@.dom() == old(self).cache@.dom(),
            final(self).height_maps@ == still_pending(old(self).height_maps@, resolved@),
            forall|j: int| 0 <= j < released(old(self).height_maps@, resolved@).len() ==> {
                let r = #[trigger] released(old(self).height_maps@, resolved@)[j];
                rebound_height_map(final(self).cache@[r.entity], old(self).cache@[r.entity], r)
                    && !has_record(final(self).height_maps@, r.entity)
                    && height_map_emitted(final(out)@, old(out)@.len() as int, final(self).cache@[r.entity].height_map)
            },
            final(out)@.len() == old(out)@.len() + 2 * released(old(self).height_maps@, resolved@).len(),
            forall|i: int| 0 <= i < final(self).height_maps@.len() ==> !resolved@.contains(#[trigger] final(self).height_maps@[i].handle),
            forall|x: EntityId| final(self).cache@.contains_key(x)
                && !has_record(released(old(self).height_maps@, resolved@), x)
                ==> final(self).cache@[x] == old(self).cache@[x],
            old(self).height_maps@.len() == 0 ==> *final(self) == *old(self),
            final(self).heights == old(self).heights,
            final(self).last_noise == old(self).last_noise,
            final(self).cache_changed == old(self).cache_changed,
            extends(final(out)@, old(out)@),
            old(self).height_maps@.len() == 0 ==> final(out)@ == old(out)@,
    {
        if self.height_maps.len() == 0 {
            assert(out@.subrange(0, out@.len() as int) =~= out@);
            assert(released(self.height_maps@, resolved@).len() == 0) by {
                reveal(Seq::filter);
            }
            return;
        }
        let ghost c0 = self.cache@;
        let ghost h0 = self.height_maps@;
        let ghost out0 = out@;
        let recs = self.height_maps.take_resolved(resolved);
        proof {
            assert(out@.subrange(0, out0.len() as int) =~= out0);
            lemma_released_from(h0, resolved@);
            assert forall|k: int| 0 <= k < self.height_maps@.len() implies
                self.cache@.contains_key(#[trigger] self.height_maps@[k].entity) by {
                lemma_still_pending_records(h0, resolved@, self.height_maps@[k].entity);
                assert(has_record(self.height_maps@, self.height_maps@[k].entity));
            }
        }
        let mut i: usize = 0;
        while i < recs.len()
            invariant
                self.wf(),
                self.cache@.dom() == c0.dom(),
                self.height_maps@ == still_pending(h0, resolved@),
                recs@ == released(h0, resolved@),
                unique_entities(recs@),
                forall|k: int| 0 <= k < recs@.len() ==> c0.contains_key(#[trigger] recs@[k].entity),
                i <= recs@.len(),
                forall|j: int| 0 <= j < i ==> rebound_height_map(
                    self.cache@[#[trigger] recs@[j].entity], c0[recs@[j].entity], recs@[j]),
                forall|x: EntityId| self.cache@.contains_key(x)
                    && !(exists|j: int| 0 <= j < i && #[trigger] recs@[j].entity == x)
                    ==> self.cache@[x] == c0[x],
                self.heights == old(self).heights,
                self.last_noise == old(self).last_noise,
                self.cache_changed == old(self).cache_changed,
                extends(out@, out0),
                out@.len() == out0.len() + 2 * i,
                forall|j: int| 0 <= j < i ==> height_map_emitted(out@, out0.len() as int, self.cache@[#[trigger] recs@[j].entity].height_map),
            decreases recs@.len() - i,
        {
            let r = recs[i];
            let ghost o1 = out@;
            let ghost o1 = out@;
            let group = self.build_height_map_group(TextureRef::Image(r.handle), r.aux, out);
            let (pos, mut entry) = self.cache.take_entry(r.entity);
            entry.height_map = Some(HeightMapBinding {
                bind_group: group,
                texture: TextureRef::Image(r.handle),
                extent: r.aux,
            });
            self.cache.replace_at(pos, entry);
            proof {
                assert(out@.subrange(0, o1.len() as int) =~= o1);
                assert(out@.subrange(0, out0.len() as int) =~= out0);
                assert forall|j: int| 0 <= j < i implies #[trigger] recs@[j].entity != r.entity by {}
                assert(out@.subrange(0, o1.len() as int) =~= o1);
                assert forall|j: int| 0 <= j < i implies height_map_emitted(out@, out0.len() as int, self.cache@[#[trigger] recs@[j].entity].height_map) by {
                    lemma_height_map_emitted_kept(out@, o1, out0.len() as int, self.cache@[recs@[j].entity].height_map);
                }
                let k0 = o1.len() as int;
                assert(out@[k0] == out@[k0]);
                assert forall|x: EntityId| self.cache@.contains_key(x)
                    && !(exists|j: int| 0 <= j < i + 1 && #[trigger] recs@[j].entity == x)
                    implies self.cache@[x] == c0[x] by {
                    assert(recs@[i as int].entity != x);
                }
            }
            i = i + 1;
        }
        proof {
            assert forall|i: int| 0 <= i < self.height_maps@.len() implies !resolved@.contains(#[trigger] self.height_maps@[i].handle) by {
                h0.lemma_filter_pred(|r: PendingLoad<Extent>| !resolved@.contains(r.handle), i);
            }
            assert forall|j: int| 0 <= j < recs@.len() implies
                !has_record(self.height_maps@, #[trigger] recs@[j].entity) by {
                assert(h0.contains(recs@[j]));
                let k = choose|k: int| 0 <= k < h0.len() && h0[k] == recs@[j];
                lemma_released_not_pending(h0, resolved@, k);
            }
            assert forall|x: EntityId| self.cache@.contains_key(x)
                && !has_record(recs@, x) implies self.cache@[x] == c0[x] by {
                if exists|j: int| 0 <= j < recs@.len() && #[trigger] recs@[j].entity == x {
                    let j = choose|j: int| 0 <= j < recs@.len() && #[trigger] recs@[j].entity == x;
                    assert(has_record(recs@, x));
                }
            }
        }
    }
}

} // verus!
