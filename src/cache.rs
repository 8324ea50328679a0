//! The per-chunk resource cache: one entry per live chunk, holding the
//! identities of the GPU objects that drawing the chunk needs.
use vstd::prelude::*;

verus! {

/// Stable identity of one spawned grass chunk.
pub type EntityId = u64;

/// Opaque handle of an image asset, which may or may not be resident yet.
pub type ImageHandle = u64;

/// Identity of a GPU object (buffer, texture or bind group) issued by this
/// library; the host maps it to the object it created.
pub type GpuId = u64;

/// Which texture view a bind group samples.
#[derive(PartialEq, Eq, Structural, Clone, Copy, Debug)]
pub enum TextureRef {
    /// The neutral placeholder used while an asset is loading.
    Fallback,
    /// The resident image asset with this handle.
    Image(ImageHandle),
}

/// One blade's placement: position and height scale, each as the bit
/// pattern of a 32-bit float.
#[derive(PartialEq, Eq, Structural, Clone, Copy, Debug)]
pub struct Instance {
    pub x: u32,
    pub y: u32,
    pub z: u32,
    pub scale: u32,
}

/// How blade heights reach the shader: nothing yet, one uniform height, or
/// a sampled texture. The variants exclude each other by construction.
#[derive(PartialEq, Eq, Structural, Clone, Copy, Debug)]
pub enum HeightBinding {
    Unset,
    /// Bind group over a four-byte uniform buffer holding `height`.
    Uniform { bind_group: GpuId, height: u32 },
    /// Bind group over a per-blade height texture.
    Texture { bind_group: GpuId, texture: TextureRef },
}

/// Size of a chunk's bounding box, each axis as the bit pattern of a
/// 32-bit float.
#[derive(PartialEq, Eq, Structural, Clone, Copy, Debug)]
pub struct Extent {
    pub x: u32,
    pub y: u32,
    pub z: u32,
}

/// The terrain height map of a chunk: its texture and the size of the
/// chunk's bounding box, which scales texture samples to world heights.
#[derive(PartialEq, Eq, Structural, Clone, Copy, Debug)]
pub struct HeightMapBinding {
    pub bind_group: GpuId,
    pub texture: TextureRef,
    pub extent: Extent,
}

/// What a draw of one chunk binds: the per-instance vertex buffer and how
/// many instances it holds, the region bind group, and the height-map bind
/// group when there is one.
#[derive(PartialEq, Eq, Structural, Clone, Copy, Debug)]
pub struct DrawBindings {
    pub instances: GpuId,
    pub count: usize,
    pub region: GpuId,
    pub height_map: Option<GpuId>,
}

/// Everything the cache keeps for one chunk.
#[derive(Debug)]
pub struct CacheEntry {
    /// CPU shadow copy of the instance data, empty until first prepared.
    pub instances: Vec<Instance>,
    pub instance_buffer: Option<GpuId>,
    pub explicit_count: usize,
    pub explicit_xz_buffer: Option<GpuId>,
    /// Bind group over the packed texture of explicit Y positions.
    pub explicit_y: Option<GpuId>,
    pub height: HeightBinding,
    pub height_map: Option<HeightMapBinding>,
    pub region_bindgroup: Option<GpuId>,
}

impl CacheEntry {
    /// The entry of a chunk that was registered and not prepared yet.
    pub open spec fn is_blank(&self) -> bool {
        &&& self.instances@.len() == 0
        &&& self.instance_buffer is None
        &&& self.explicit_count == 0
        &&& self.explicit_xz_buffer is None
        &&& self.explicit_y is None
        &&& self.height is Unset
        &&& self.height_map is None
        &&& self.region_bindgroup is None
    }

    pub fn blank() -> (e: CacheEntry)
        ensures
            e.is_blank(),
    {
        CacheEntry {
            instances: Vec::new(),
            instance_buffer: None,
            explicit_count: 0,
            explicit_xz_buffer: None,
            explicit_y: None,
            height: HeightBinding::Unset,
            height_map: None,
            region_bindgroup: None,
        }
    }

    /// A uniform height buffer is bound.
    pub open spec fn has_uniform_height(&self) -> bool {
        self.height is Uniform
    }

    /// A height texture is bound.
    pub open spec fn has_height_texture(&self) -> bool {
        self.height is Texture
    }

    /// The chunk has what a draw needs: instance data and the region bind
    /// group.
    pub open spec fn drawable(&self) -> bool {
        (self.instance_buffer is Some || self.explicit_xz_buffer is Some)
            && self.region_bindgroup is Some
    }

    /// The entry refers to the GPU object `id`.
    pub open spec fn references(&self, id: GpuId) -> bool {
        ||| self.instance_buffer == Some(id)
        ||| self.explicit_xz_buffer == Some(id)
        ||| self.explicit_y == Some(id)
        ||| self.height matches HeightBinding::Uniform { bind_group, .. } && bind_group == id
        ||| self.height matches HeightBinding::Texture { bind_group, .. } && bind_group == id
        ||| self.height_map matches Some(m) && m.bind_group == id
        ||| self.region_bindgroup == Some(id)
    }

    /// Appends the GPU objects the entry refers to.
    pub fn push_references(&self, out: &mut Vec<GpuId>)
        ensures
            forall|id: GpuId| final(out)@.contains(id) <==> (old(out)@.contains(id) || self.references(id)),
    {
        if let Some(b) = self.instance_buffer {
            push_id(out, b);
        }
        if let Some(b) = self.explicit_xz_buffer {
            push_id(out, b);
        }
        if let Some(g) = self.explicit_y {
            push_id(out, g);
        }
        match self.height {
            HeightBinding::Uniform { bind_group, .. } => push_id(out, bind_group),
            HeightBinding::Texture { bind_group, .. } => push_id(out, bind_group),
            HeightBinding::Unset => {},
        }
        if let Some(m) = self.height_map {
            push_id(out, m.bind_group);
        }
        if let Some(g) = self.region_bindgroup {
            push_id(out, g);
        }
    }

    /// The bindings of a draw: instance data when the chunk has it, else
    /// its explicit XZ positions; nothing when the chunk is not drawable.
    pub fn draw_bindings(&self) -> (r: Option<DrawBindings>)
        ensures
            r is Some == self.drawable(),
            r matches Some(d) ==> {
                &&& d.region == self.region_bindgroup->0
                &&& d.height_map == (match self.height_map { Some(m) => Some(m.bind_group), None => None })
                &&& match self.instance_buffer {
                    Some(b) => d.instances == b && d.count == self.instances@.len(),
                    None => self.explicit_xz_buffer == Some(d.instances) && d.count == self.explicit_count,
                }
            },
    {
        let region = match self.region_bindgroup {
            Some(g) => g,
            None => return None,
        };
        let (instances, count) = match self.instance_buffer {
            Some(b) => (b, self.instances.len()),
            None => match self.explicit_xz_buffer {
                Some(b) => (b, self.explicit_count),
                None => return None,
            },
        };
        let height_map = match self.height_map {
            Some(m) => Some(m.bind_group),
            None => None,
        };
        Some(DrawBindings { instances, count, region, height_map })
    }

    pub fn is_drawable(&self) -> (r: bool)
        ensures
            r == self.drawable(),
    {
        (self.instance_buffer.is_some() || self.explicit_xz_buffer.is_some())
            && self.region_bindgroup.is_some()
    }
}

fn push_id(out: &mut Vec<GpuId>, id: GpuId)
    ensures
        forall|x: GpuId| final(out)@.contains(x) <==> (old(out)@.contains(x) || x == id),
{
    let ghost o = out@;
    out.push(id);
    assert forall|x: GpuId| out@.contains(x) implies (o.contains(x) || x == id) by {
        let k = choose|k: int| 0 <= k < out@.len() && out@[k] == x;
        if k < o.len() {
            assert(o[k] == x);
        }
    }
    assert forall|x: GpuId| o.contains(x) implies out@.contains(x) by {
        let k = choose|k: int| 0 <= k < o.len() && o[k] == x;
        assert(out@[k] == x);
    }
    assert(out@[o.len() as int] == id);
}

/// The position of `id` in `ids`, when `ids` holds no duplicates.
proof fn lemma_index_of_unique(ids: Seq<u64>, i: int)
    requires
        ids.no_duplicates(),
        0 <= i < ids.len(),
    ensures
        ids.index_of(ids[i]) == i,
{
    assert(ids.contains(ids[i]));
}

/// The cache: chunk identities and their entries, side by side.
pub struct GrassCache {
    ids: Vec<EntityId>,
    entries: Vec<CacheEntry>,
}

impl GrassCache {
    /// Identities are unique and each has exactly one entry.
    pub closed spec fn wf(&self) -> bool {
        &&& self.ids@.len() == self.entries@.len()
        &&& self.ids@.no_duplicates()
    }

    /// The cache as a map from chunk identity to entry.
    pub closed spec fn view(&self) -> Map<EntityId, CacheEntry> {
        Map::new(
            |k: EntityId| self.ids@.contains(k),
            |k: EntityId| self.entries@[self.ids@.index_of(k)],
        )
    }

    /// The identities in the order the entries are stored.
    pub closed spec fn keys(&self) -> Seq<EntityId> {
        self.ids@
    }

    pub proof fn lemma_keys(&self)
        requires
            self.wf(),
        ensures
            self.keys().no_duplicates(),
            self@.dom() == self.keys().to_set(),
            self@.dom().finite(),
            self@.dom().len() == self.keys().len(),
    {
        assert(self@.dom() =~= self.keys().to_set());
        self.ids@.unique_seq_to_set();
    }

    pub fn new() -> (c: GrassCache)
        ensures
            c.wf(),
            c@ == Map::<EntityId, CacheEntry>::empty(),
    {
        let c = GrassCache { ids: Vec::new(), entries: Vec::new() };
        assert(c@ =~= Map::<EntityId, CacheEntry>::empty());
        c
    }

    pub fn len(&self) -> (n: usize)
        requires
            self.wf(),
        ensures
            n == self@.dom().len(),
    {
        proof {
            self.lemma_keys();
        }
        self.ids.len()
    }

    /// Position of `id` among the stored entries.
    fn find(&self, id: EntityId) -> (r: Option<usize>)
        requires
            self.wf(),
        ensures
            r is None ==> !self@.contains_key(id),
            r matches Some(i) ==> i < self.ids@.len() && self.ids@[i as int] == id
                && self@.contains_key(id) && self@[id] == self.entries@[i as int],
    {
        let mut i: usize = 0;
        while i < self.ids.len()
            invariant
                self.wf(),
                i <= self.ids@.len(),
                forall|j: int| 0 <= j < i ==> self.ids@[j] != id,
            decreases self.ids@.len() - i,
        {
            if self.ids[i] == id {
                proof {
                    lemma_index_of_unique(self.ids@, i as int);
                }
                return Some(i);
            }
            i = i + 1;
        }
        None
    }

    /// The registered identities, in storage order.
    pub fn ids(&self) -> (r: Vec<EntityId>)
        requires
            self.wf(),
        ensures
            r@ == self.keys(),
            r@.to_set() == self@.dom(),
    {
        proof {
            self.lemma_keys();
        }
        let mut r: Vec<EntityId> = Vec::new();
        let mut i: usize = 0;
        while i < self.ids.len()
            invariant
                i <= self.ids@.len(),
                r@ =~= self.ids@.take(i as int),
            decreases self.ids@.len() - i,
        {
            r.push(self.ids[i]);
            i = i + 1;
        }
        assert(self.ids@.take(self.ids@.len() as int) =~= self.ids@);
        r
    }

    /// Every GPU object some entry refers to; the host may release the
    /// others.
    pub fn live_objects(&self) -> (r: Vec<GpuId>)
        requires
            self.wf(),
        ensures
            forall|g: GpuId| r@.contains(g) <==> exists|k: EntityId|
                #[trigger] self@.contains_key(k) && self@[k].references(g),
    {
        let mut r: Vec<GpuId> = Vec::new();
        let mut i: usize = 0;
        while i < self.entries.len()
            invariant
                self.wf(),
                i <= self.entries@.len(),
                forall|g: GpuId| r@.contains(g) <==> exists|j: int| 0 <= j < i && (#[trigger] self.entries@[j]).references(g),
            decreases self.entries@.len() - i,
        {
            self.entries[i].push_references(&mut r);
            proof {
                assert forall|g: GpuId| r@.contains(g) <==> exists|j: int| 0 <= j < i + 1 && (#[trigger] self.entries@[j]).references(g) by {
                    if exists|j: int| 0 <= j < i + 1 && (#[trigger] self.entries@[j]).references(g) {
                        let j = choose|j: int| 0 <= j < i + 1 && (#[trigger] self.entries@[j]).references(g);
                        if j < i {
                            assert(exists|j: int| 0 <= j < i && (#[trigger] self.entries@[j]).references(g));
                        }
                    }
                    if self.entries@[i as int].references(g) {
                        assert(exists|j: int| 0 <= j < i + 1 && (#[trigger] self.entries@[j]).references(g));
                    }
                }
            }
            i = i + 1;
        }
        proof {
            assert forall|g: GpuId| r@.contains(g) implies exists|k: EntityId|
                #[trigger] self@.contains_key(k) && self@[k].references(g) by {
                let j = choose|j: int| 0 <= j < self.entries@.len() && (#[trigger] self.entries@[j]).references(g);
                let k = self.ids@[j];
                lemma_index_of_unique(self.ids@, j);
                assert(self@.contains_key(k));
            }
            assert forall|g: GpuId| (exists|k: EntityId| #[trigger] self@.contains_key(k) && self@[k].references(g))
                implies r@.contains(g) by {
                let k = choose|k: EntityId| #[trigger] self@.contains_key(k) && self@[k].references(g);
                let j = self.ids@.index_of(k);
                assert(self.entries@[j].references(g));
            }
        }
        r
    }

    pub fn contains(&self, id: EntityId) -> (r: bool)
        requires
            self.wf(),
        ensures
            r == self@.contains_key(id),
    {
        self.find(id).is_some()
    }

    /// Shared access to the entry of `id`, if it is registered.
    pub fn get(&self, id: EntityId) -> (r: Option<&CacheEntry>)
        requires
            self.wf(),
        ensures
            r is Some == self@.contains_key(id),
            r matches Some(e) ==> *e == self@[id],
    {
        match self.find(id) {
            Some(i) => Some(&self.entries[i]),
            None => None,
        }
    }

    /// Creates the entry of a newly observed chunk; an identity that is
    /// already registered keeps its entry.
    pub fn register(&mut self, id: EntityId)
        requires
            old(self).wf(),
        ensures
            final(self).wf(),
            old(self)@.contains_key(id) ==> final(self)@ == old(self)@,
            !old(self)@.contains_key(id) ==> final(self)@ == old(self)@.insert(id, final(self)@[id])
                && final(self)@[id].is_blank(),
    {
        if self.find(id).is_none() {
            let ghost old_ids = self.ids@;
            self.ids.push(id);
            self.entries.push(CacheEntry::blank());
            proof {
                assert forall|a: int, b: int| 0 <= a < b < self.ids@.len()
                    implies self.ids@[a] != self.ids@[b] by {
                    if b == old_ids.len() {
                        assert(old_ids.contains(old_ids[a]));
                    }
                }
                lemma_index_of_unique(self.ids@, old_ids.len() as int);
                assert forall|k: EntityId| old_ids.contains(k) implies
                    self.ids@.index_of(k) == old_ids.index_of(k) by {
                    let j = old_ids.index_of(k);
                    assert(self.ids@[j] == k);
                    lemma_index_of_unique(self.ids@, j);
                }
                assert forall|k: EntityId| self.ids@.contains(k) implies
                    old_ids.contains(k) || k == id by {
                    let j = self.ids@.index_of(k);
                    if j < old_ids.len() {
                        assert(old_ids[j] == k);
                    }
                }
                assert forall|k: EntityId| old_ids.contains(k) implies
                    self.ids@.contains(k) by {
                    assert(self.ids@[old_ids.index_of(k)] == k);
                }
                assert(self.ids@[old_ids.len() as int] == id);
                assert(self@ =~= old(self)@.insert(id, self@[id]));
            }
        }
    }

    /// Drops the entry of a despawned chunk.
    pub fn remove(&mut self, id: EntityId)
        requires
            old(self).wf(),
        ensures
            final(self).wf(),
            final(self)@ == old(self)@.remove(id),
    {
        match self.find(id) {
            Some(i) => {
                let ghost old_ids = self.ids@;
                self.ids.remove(i);
                self.entries.remove(i);
                proof {
                    assert forall|a: int, b: int| 0 <= a < b < self.ids@.len()
                        implies self.ids@[a] != self.ids@[b] by {
                        let oa = if a < i { a } else { a + 1 };
                        let ob = if b < i { b } else { b + 1 };
                        assert(self.ids@[a] == old_ids[oa]);
                        assert(self.ids@[b] == old_ids[ob]);
                    }
                    assert forall|k: EntityId| self.ids@.contains(k) implies
                        k != id && old_ids.contains(k)
                        && self.entries@[self.ids@.index_of(k)]
                            == old(self).entries@[old_ids.index_of(k)] by {
                        let j = self.ids@.index_of(k);
                        let oj = if j < i { j } else { j + 1 };
                        assert(old_ids[oj] == k);
                        lemma_index_of_unique(old_ids, oj);
                        lemma_index_of_unique(old_ids, i as int);
                    }
                    assert forall|k: EntityId| old_ids.contains(k) && k != id implies
                        self.ids@.contains(k) by {
                        let oj = old_ids.index_of(k);
                        assert(oj != i);
                        let j = if oj < i { oj } else { oj - 1 };
                        assert(self.ids@[j] == k);
                    }
                    assert(self@ =~= old(self)@.remove(id));
                }
            }
            None => {
                assert(self@ =~= old(self)@.remove(id));
            }
        }
    }

    /// Moves the entry of `id` out, leaving a blank one in its place, and
    /// returns it with its position.
    pub(crate) fn take_entry(&mut self, id: EntityId) -> (r: (usize, CacheEntry))
        requires
            old(self).wf(),
            old(self)@.contains_key(id),
        ensures
            final(self).wf(),
            final(self).keys() == old(self).keys(),
            r.0 < final(self).keys().len(),
            final(self).keys()[r.0 as int] == id,
            r.1 == old(self)@[id],
            final(self)@ == old(self)@.insert(id, final(self)@[id]),
    {
        let i = match self.find(id) {
            Some(i) => i,
            None => 0,
        };
        let e = self.entries.remove(i);
        self.entries.insert(i, CacheEntry::blank());
        proof {
            lemma_index_of_unique(self.ids@, i as int);
            assert forall|k: EntityId| self.ids@.contains(k) && k != id implies
                self.ids@.index_of(k) != i by {}
            assert(self@ =~= old(self)@.insert(id, self@[id]));
        }
        (i, e)
    }

    /// Replaces the entry stored at position `i`.
    pub(crate) fn replace_at(&mut self, i: usize, e: CacheEntry)
        requires
            old(self).wf(),
            i < old(self).keys().len(),
        ensures
            final(self).wf(),
            final(self).keys() == old(self).keys(),
            final(self)@ == old(self)@.insert(old(self).keys()[i as int], e),
    {
        let ghost id = self.ids@[i as int];
        self.entries.remove(i);
        self.entries.insert(i, e);
        proof {
            lemma_index_of_unique(self.ids@, i as int);
            assert forall|k: EntityId| self.ids@.contains(k) && k != id implies
                self.ids@.index_of(k) != i by {}
            assert(self@ =~= old(self)@.insert(id, e));
        }
    }

    /// Points every entry at the region bind group `group`.
    pub(crate) fn set_region_bindgroup(&mut self, group: GpuId)
        requires
            old(self).wf(),
        ensures
            final(self).wf(),
            final(self).keys() == old(self).keys(),
            final(self)@.dom() == old(self)@.dom(),
            forall|k: EntityId| #[trigger] final(self)@.contains_key(k) ==> final(self)@[k] == (CacheEntry {
                region_bindgroup: Some(group),
                ..old(self)@[k]
            }),
    {
        let ghost e0 = self.entries@;
        let mut i: usize = 0;
        while i < self.entries.len()
            invariant
                self.wf(),
                self.ids@ == old(self).ids@,
                self.entries@.len() == e0.len(),
                i <= e0.len(),
                forall|j: int| 0 <= j < i ==> #[trigger] self.entries@[j] == (CacheEntry {
                    region_bindgroup: Some(group),
                    ..e0[j]
                }),
                forall|j: int| i <= j < e0.len() ==> #[trigger] self.entries@[j] == e0[j],
            decreases e0.len() - i,
        {
            let mut e = self.entries.remove(i);
            e.region_bindgroup = Some(group);
            self.entries.insert(i, e);
            i = i + 1;
        }
        assert(self@.dom() =~= old(self)@.dom());
    }

}

} // verus!
