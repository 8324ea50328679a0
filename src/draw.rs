//! Draw registration: which chunks each view draws this frame.
use vstd::prelude::*;
use crate::cache::{CacheEntry, EntityId, GrassCache};

verus! {

/// A grass-tagged entity as the draw stage sees it.
#[derive(PartialEq, Eq, Structural, Clone, Copy, Debug)]
pub struct Drawable {
    pub entity: EntityId,
    /// Its mesh asset has finished loading.
    pub mesh_ready: bool,
}

/// One draw of one chunk in one view. The host specializes the pipeline
/// for the view and mesh, computes the sort distance, and queues it.
#[derive(PartialEq, Eq, Structural, Clone, Copy, Debug)]
pub struct DrawRequest {
    pub view: usize,
    pub entity: EntityId,
}

/// `d` is drawn: its mesh is loaded and its chunk has instance data and
/// the region bind group.
pub open spec fn draws(c: Map<EntityId, CacheEntry>, d: Drawable) -> bool {
    d.mesh_ready && c.contains_key(d.entity) && c[d.entity].drawable()
}

/// The draws of view `v`, in the order of `ds`.
pub open spec fn view_draws(v: nat, ds: Seq<Drawable>, c: Map<EntityId, CacheEntry>) -> Seq<DrawRequest>
    decreases ds.len(),
{
    if ds.len() == 0 {
        Seq::empty()
    } else {
        view_draws(v, ds.drop_last(), c) + if draws(c, ds.last()) {
            seq![DrawRequest { view: v as usize, entity: ds.last().entity }]
        } else {
            Seq::empty()
        }
    }
}

/// The draws of views `0 .. n`, view by view.
pub open spec fn planned_draws(n: nat, ds: Seq<Drawable>, c: Map<EntityId, CacheEntry>) -> Seq<DrawRequest>
    decreases n,
{
    if n == 0 {
        Seq::empty()
    } else {
        planned_draws((n - 1) as nat, ds, c) + view_draws((n - 1) as nat, ds, c)
    }
}

/// For each of `views` views in turn, one draw per drawable entity in the
/// order given; entities whose mesh is still loading, or whose chunk is not
/// ready, are left for a later frame.
pub fn queue_grass_buffers(cache: &GrassCache, views: usize, drawables: &Vec<Drawable>) -> (r: Vec<DrawRequest>)
    requires
        cache.wf(),
    ensures
        r@ == planned_draws(views as nat, drawables@, cache@),
{
    let mut r: Vec<DrawRequest> = Vec::new();
    let mut v: usize = 0;
    while v < views
        invariant
            cache.wf(),
            v <= views,
            r@ == planned_draws(v as nat, drawables@, cache@),
        decreases views - v,
    {
        let ghost r0 = r@;
        let mut i: usize = 0;
        while i < drawables.len()
            invariant
                cache.wf(),
                v < views,
                i <= drawables@.len(),
                r@ == r0 + view_draws(v as nat, drawables@.take(i as int), cache@),
            decreases drawables@.len() - i,
        {
            let d = drawables[i];
            let ghost t = drawables@.take(i + 1);
            proof {
                assert(t.drop_last() =~= drawables@.take(i as int));
                assert(t.last() == d);
            }
            let ready = match cache.get(d.entity) {
                Some(e) => d.mesh_ready && e.is_drawable(),
                None => false,
            };
            if ready {
                r.push(DrawRequest { view: v, entity: d.entity });
                assert(r@ =~= r0 + view_draws(v as nat, t, cache@));
            } else {
                assert(r@ =~= r0 + view_draws(v as nat, t, cache@));
            }
            i = i + 1;
        }
        assert(drawables@.take(drawables@.len() as int) =~= drawables@);
        v = v + 1;
    }
    r
}

} // verus!
