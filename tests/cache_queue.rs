use warbler_grass::prepare::{GrassRenderer, HeightSource};
use warbler_grass::cache::{GrassCache, HeightBinding};
use warbler_grass::deferred::{handle_resolved, DeferredQueue};

#[test]
fn register_get_remove() {
    let mut c = GrassCache::new();
    assert_eq!(c.len(), 0);
    c.register(5);
    c.register(9);
    assert_eq!(c.len(), 2);
    assert!(c.contains(5));
    let e = c.get(9).unwrap();
    assert_eq!(e.height, HeightBinding::Unset);
    assert!(e.instance_buffer.is_none());
    assert!(!e.is_drawable());
    c.remove(5);
    assert!(!c.contains(5));
    assert!(c.get(5).is_none());
    assert_eq!(c.len(), 1);
    c.remove(5);
    assert_eq!(c.len(), 1);
}

#[test]
fn register_twice_keeps_one_entry() {
    let mut c = GrassCache::new();
    c.register(1);
    c.register(1);
    assert_eq!(c.len(), 1);
}

#[test]
fn queue_holds_one_record_per_chunk() {
    let mut q: DeferredQueue<()> = DeferredQueue::new();
    q.enqueue(1, 100, ());
    q.enqueue(1, 100, ());
    assert_eq!(q.len(), 1);
    assert_eq!(q.count_for(1), 1);
    q.enqueue(2, 200, ());
    q.enqueue(1, 101, ());
    assert_eq!(q.len(), 2);
    q.cancel(2);
    assert_eq!(q.count_for(2), 0);
    assert_eq!(q.len(), 1);
}

#[test]
fn take_resolved_splits_in_order() {
    let mut q: DeferredQueue<u32> = DeferredQueue::new();
    q.enqueue(1, 10, 7);
    q.enqueue(2, 20, 8);
    q.enqueue(3, 10, 9);
    let out = q.take_resolved(&vec![10, 99]);
    assert_eq!(out.len(), 2);
    assert_eq!((out[0].entity, out[0].handle, out[0].aux), (1, 10, 7));
    assert_eq!((out[1].entity, out[1].handle, out[1].aux), (3, 10, 9));
    assert_eq!(q.len(), 1);
    assert_eq!(q.count_for(2), 1);
    assert_eq!(q.count_for(1), 0);
}

#[test]
fn resolved_lookup() {
    assert!(handle_resolved(&vec![3, 4], 4));
    assert!(!handle_resolved(&vec![3, 4], 5));
    assert!(!handle_resolved(&vec![], 0));
}

#[test]
fn live_objects_are_those_entries_refer_to() {
    let mut r = GrassRenderer::new();
    r.register(1);
    let mut out = Vec::new();
    r.apply_height(1, HeightSource::Uniform(5), &vec![], &mut out);
    // the buffer is 0, the bind group over it is 1
    assert_eq!(r.cache.live_objects(), vec![1]);
    r.apply_height(1, HeightSource::Texture(9), &vec![9], &mut out);
    assert_eq!(r.cache.live_objects(), vec![2]);
    r.remove(1);
    assert!(r.cache.live_objects().is_empty());
}
