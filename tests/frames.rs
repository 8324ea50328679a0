use warbler_grass::cache::{Extent, HeightBinding, Instance, TextureRef};
use warbler_grass::draw::{queue_grass_buffers, DrawRequest, Drawable};
use warbler_grass::frame::FrameInput;
use warbler_grass::gpu::{Binding, BufferUsage, GpuCommand, Layout};
use warbler_grass::positions::{ExplicitGrass, Position};
use warbler_grass::prepare::{GrassRenderer, HeightMapSource, HeightSource};
use warbler_grass::region::{shader_region_words, RegionConfig};

fn region(wind: (f32, f32)) -> RegionConfig {
    RegionConfig {
        main_color: [0.2f32.to_bits(), 0.8f32.to_bits(), 0.1f32.to_bits(), 1.0f32.to_bits()],
        bottom_color: [0.1f32.to_bits(), 0.3f32.to_bits(), 0.0f32.to_bits(), 1.0f32.to_bits()],
        wind: [wind.0.to_bits(), wind.1.to_bits()],
    }
}

fn quiet_input(wind: (f32, f32)) -> FrameInput {
    FrameInput {
        resolved: vec![],
        explicit: vec![],
        instances: vec![],
        heights: vec![],
        height_maps: vec![],
        region: region(wind),
        region_changed: false,
        noise: 900,
    }
}

fn region_groups(cmds: &[GpuCommand]) -> usize {
    cmds.iter()
        .filter(|c| matches!(c, GpuCommand::BindGroup { layout: Layout::Region, .. }))
        .count()
}

#[test]
fn uniform_height_is_a_buffer_and_group() {
    let mut r = GrassRenderer::new();
    r.register(1);
    let mut out = Vec::new();
    r.apply_height(1, HeightSource::Uniform(2.5f32.to_bits()), &vec![], &mut out);
    assert_eq!(out.len(), 2);
    match &out[0] {
        GpuCommand::Buffer { usage, words, .. } => {
            assert_eq!(*usage, BufferUsage::Uniform);
            assert_eq!(words, &vec![2.5f32.to_bits()]);
        }
        other => panic!("unexpected {:?}", other),
    }
    let h = r.cache.get(1).unwrap().height;
    assert!(matches!(h, HeightBinding::Uniform { height, .. } if height == 2.5f32.to_bits()));
    assert_eq!(r.heights.count_for(1), 0);
}

#[test]
fn height_texture_falls_back_until_resident() {
    let mut r = GrassRenderer::new();
    r.register(7);
    let mut frame = quiet_input((1.0, 0.0));
    frame.heights = vec![(7, HeightSource::Texture(55))];
    let o = r.prepare_frame(&frame);
    assert!(o.skipped.is_empty());
    let h = r.cache.get(7).unwrap().height;
    assert!(matches!(h, HeightBinding::Texture { texture: TextureRef::Fallback, .. }));
    assert_eq!(r.heights.count_for(7), 1);

    // still loading, the same request arrives again: no second record
    let mut again = quiet_input((1.0, 0.0));
    again.heights = vec![(7, HeightSource::Texture(55))];
    r.prepare_frame(&again);
    assert_eq!(r.heights.len(), 1);

    // resident now: rebound within this frame and the record is gone
    let mut loaded = quiet_input((1.0, 0.0));
    loaded.resolved = vec![55];
    let o = r.prepare_frame(&loaded);
    let h = r.cache.get(7).unwrap().height;
    assert!(matches!(h, HeightBinding::Texture { texture: TextureRef::Image(55), .. }));
    assert_eq!(r.heights.count_for(7), 0);
    assert!(o.commands.iter().any(|c| matches!(c,
        GpuCommand::BindGroup { layout: Layout::HeightTexture, first: Binding::Asset(TextureRef::Image(55)), .. })));

    // later frames keep the real texture and queue nothing
    let o = r.prepare_frame(&loaded);
    assert!(o.commands.is_empty());
    let h = r.cache.get(7).unwrap().height;
    assert!(matches!(h, HeightBinding::Texture { texture: TextureRef::Image(55), .. }));
    assert_eq!(r.heights.len(), 0);
}

#[test]
fn height_map_fallback_then_real_texture() {
    let mut r = GrassRenderer::new();
    r.register(3);
    let extent = Extent { x: 10.0f32.to_bits(), y: 4.0f32.to_bits(), z: 10.0f32.to_bits() };
    let mut frame = quiet_input((1.0, 0.0));
    frame.height_maps = vec![(3, HeightMapSource { handle: 70, extent })];
    r.prepare_frame(&frame);
    let m = r.cache.get(3).unwrap().height_map.unwrap();
    assert_eq!(m.texture, TextureRef::Fallback);
    assert_eq!(m.extent, extent);
    for _ in 0..3 {
        let o = r.prepare_frame(&quiet_input((1.0, 0.0)));
        assert!(o.commands.is_empty());
        assert_eq!(r.cache.get(3).unwrap().height_map.unwrap().texture, TextureRef::Fallback);
        assert_eq!(r.height_maps.count_for(3), 1);
    }
    let mut loaded = quiet_input((1.0, 0.0));
    loaded.resolved = vec![70];
    r.prepare_frame(&loaded);
    let m = r.cache.get(3).unwrap().height_map.unwrap();
    assert_eq!(m.texture, TextureRef::Image(70));
    assert_eq!(m.extent, extent);
    assert_eq!(r.height_maps.len(), 0);
    r.prepare_frame(&loaded);
    assert_eq!(r.height_maps.len(), 0);
}

#[test]
fn quiet_frame_changes_nothing() {
    let mut r = GrassRenderer::new();
    r.register(1);
    let mut first = quiet_input((1.0, 0.0));
    first.instances = vec![(1, vec![Instance { x: 1, y: 2, z: 3, scale: 4 }])];
    first.heights = vec![(1, HeightSource::Uniform(9))];
    let o = r.prepare_frame(&first);
    assert!(!o.commands.is_empty());
    let before = format!("{:?}", r.cache.get(1).unwrap());
    let next = r.next_id;
    let o = r.prepare_frame(&quiet_input((1.0, 0.0)));
    assert!(o.commands.is_empty());
    assert_eq!(format!("{:?}", r.cache.get(1).unwrap()), before);
    assert_eq!(r.next_id, next);
}

#[test]
fn ten_thousand_explicit_positions() {
    let mut r = GrassRenderer::new();
    r.register(11);
    let positions: Vec<Position> = (0..10_000u32)
        .map(|i| Position { x: (i as f32).to_bits(), y: ((i % 7) as f32).to_bits(), z: (i as f32 * 0.5).to_bits() })
        .collect();
    let mut frame = quiet_input((1.0, 0.0));
    frame.explicit = vec![(11, ExplicitGrass { positions: positions.clone(), height: 1.5f32.to_bits() })];
    let o = r.prepare_frame(&frame);
    let e = r.cache.get(11).unwrap();
    assert_eq!(e.explicit_count, 10_000);
    assert!(e.explicit_xz_buffer.is_some());
    assert!(e.explicit_y.is_some());
    let xz = o.commands.iter().find_map(|c| match c {
        GpuCommand::Buffer { usage: BufferUsage::Vertex, words, .. } => Some(words.clone()),
        _ => None,
    });
    let xz = xz.unwrap();
    assert_eq!(xz.len() / 2, 10_000);
    assert_eq!(xz[2], positions[1].x);
    assert_eq!(xz[3], positions[1].z);
    let side = o.commands.iter().find_map(|c| match c {
        GpuCommand::Texture { side, texels, .. } => Some((*side, texels[5])),
        _ => None,
    });
    assert_eq!(side, Some((101, positions[5].y)));
    let drawables = vec![Drawable { entity: 11, mesh_ready: true }];
    let draws = queue_grass_buffers(&r.cache, 2, &drawables);
    assert_eq!(draws, vec![DrawRequest { view: 0, entity: 11 }, DrawRequest { view: 1, entity: 11 }]);
}

#[test]
fn wind_change_rebuilds_region_once() {
    let mut r = GrassRenderer::new();
    r.register(1);
    let o = r.prepare_frame(&quiet_input((1.0, 0.0)));
    assert_eq!(region_groups(&o.commands), 1);
    let o = r.prepare_frame(&quiet_input((1.0, 0.0)));
    assert_eq!(region_groups(&o.commands), 0);

    let mut changed = quiet_input((0.0, 1.0));
    changed.region_changed = true;
    let o = r.prepare_frame(&changed);
    assert_eq!(region_groups(&o.commands), 1);
    let words = o.commands.iter().find_map(|c| match c {
        GpuCommand::Buffer { words, .. } => Some(words.clone()),
        _ => None,
    });
    assert_eq!(words.unwrap(), shader_region_words(&region((0.0, 1.0))));
    let o = r.prepare_frame(&quiet_input((0.0, 1.0)));
    assert_eq!(region_groups(&o.commands), 0);
}

#[test]
fn region_words_layout() {
    let c = region((0.0, 1.0));
    let w = shader_region_words(&c);
    assert_eq!(w.len(), 12);
    assert_eq!(&w[0..4], &c.main_color);
    assert_eq!(&w[4..8], &c.bottom_color);
    assert_eq!(&w[8..10], &c.wind);
    assert_eq!(&w[10..12], &[0, 0]);
}

#[test]
fn noise_texture_arrival_rebuilds_region() {
    let mut r = GrassRenderer::new();
    r.register(1);
    r.prepare_frame(&quiet_input((1.0, 0.0)));
    assert_eq!(r.last_noise, Some(TextureRef::Fallback));
    let mut loaded = quiet_input((1.0, 0.0));
    loaded.resolved = vec![900];
    let o = r.prepare_frame(&loaded);
    assert_eq!(region_groups(&o.commands), 1);
    assert_eq!(r.last_noise, Some(TextureRef::Image(900)));
}

#[test]
fn unregistered_chunk_is_skipped() {
    let mut r = GrassRenderer::new();
    let mut frame = quiet_input((1.0, 0.0));
    frame.heights = vec![(4, HeightSource::Texture(1))];
    frame.instances = vec![(4, vec![])];
    let o = r.prepare_frame(&frame);
    assert_eq!(o.skipped, vec![4, 4]);
    assert_eq!(r.heights.len(), 0);
}

#[test]
fn despawn_drops_entry_and_records() {
    let mut r = GrassRenderer::new();
    r.register(2);
    let mut frame = quiet_input((1.0, 0.0));
    frame.heights = vec![(2, HeightSource::Texture(8))];
    r.prepare_frame(&frame);
    assert_eq!(r.heights.len(), 1);
    r.remove(2);
    assert!(!r.cache.contains(2));
    assert_eq!(r.heights.len(), 0);
    assert!(r.cache_changed);
}

#[test]
fn draws_skip_loading_meshes_and_unready_chunks() {
    let mut r = GrassRenderer::new();
    r.register(1);
    r.register(2);
    let mut frame = quiet_input((1.0, 0.0));
    frame.instances = vec![(1, vec![Instance { x: 0, y: 0, z: 0, scale: 1 }])];
    r.prepare_frame(&frame);
    let drawables = vec![
        Drawable { entity: 1, mesh_ready: false },
        Drawable { entity: 2, mesh_ready: true },
        Drawable { entity: 3, mesh_ready: true },
    ];
    assert!(queue_grass_buffers(&r.cache, 1, &drawables).is_empty());
    let ready = vec![Drawable { entity: 1, mesh_ready: true }];
    assert_eq!(queue_grass_buffers(&r.cache, 1, &ready), vec![DrawRequest { view: 0, entity: 1 }]);
    assert!(queue_grass_buffers(&r.cache, 0, &ready).is_empty());
}

#[test]
fn later_event_for_same_chunk_wins() {
    let mut r = GrassRenderer::new();
    r.register(1);
    let mut frame = quiet_input((1.0, 0.0));
    frame.heights = vec![(1, HeightSource::Texture(5)), (1, HeightSource::Uniform(3))];
    r.prepare_frame(&frame);
    assert!(matches!(r.cache.get(1).unwrap().height, HeightBinding::Uniform { height: 3, .. }));
    assert_eq!(r.heights.len(), 0);
}

#[test]
fn explicit_positions_replace_a_pending_height_texture() {
    let mut r = GrassRenderer::new();
    r.register(6);
    let mut frame = quiet_input((1.0, 0.0));
    frame.heights = vec![(6, HeightSource::Texture(44))];
    frame.explicit = vec![(6, ExplicitGrass { positions: vec![Position { x: 1, y: 2, z: 3 }], height: 8 })];
    r.prepare_frame(&frame);
    let e = r.cache.get(6).unwrap();
    assert!(matches!(e.height, HeightBinding::Uniform { height: 8, .. }));
    assert_eq!(e.explicit_count, 1);
    assert_eq!(r.heights.len(), 0);
    // the texture arriving later does not bring the record back
    let mut loaded = quiet_input((1.0, 0.0));
    loaded.resolved = vec![44];
    let o = r.prepare_frame(&loaded);
    assert!(o.commands.is_empty());
    assert!(matches!(r.cache.get(6).unwrap().height, HeightBinding::Uniform { height: 8, .. }));
}

#[test]
fn every_chunk_gets_the_region_group() {
    let mut r = GrassRenderer::new();
    r.register(1);
    r.prepare_frame(&quiet_input((1.0, 0.0)));
    r.register(2);
    let o = r.prepare_frame(&quiet_input((1.0, 0.0)));
    assert_eq!(region_groups(&o.commands), 1);
    let g1 = r.cache.get(1).unwrap().region_bindgroup;
    let g2 = r.cache.get(2).unwrap().region_bindgroup;
    assert!(g1.is_some());
    assert_eq!(g1, g2);
    assert!(!r.cache_changed);
}

#[test]
fn stage_commands_name_what_entries_hold() {
    let mut r = GrassRenderer::new();
    r.register(1);
    let blades = vec![Instance { x: 1, y: 2, z: 3, scale: 4 }, Instance { x: 5, y: 6, z: 7, scale: 8 }];
    let mut out = Vec::new();
    let mut skipped = Vec::new();
    r.prepare_instance_buffers(&vec![(1, blades.clone()), (9, vec![])], &mut out, &mut skipped);
    assert_eq!(skipped, vec![9]);
    let id = r.cache.get(1).unwrap().instance_buffer.unwrap();
    let words = out.iter().find_map(|c| match c {
        GpuCommand::Buffer { id: i, usage: BufferUsage::Vertex, words, .. } if *i == id => Some(words.clone()),
        _ => None,
    });
    assert_eq!(words.unwrap(), vec![1, 2, 3, 4, 5, 6, 7, 8]);
}

#[test]
fn height_map_record_and_box_buffer() {
    let mut r = GrassRenderer::new();
    r.register(2);
    let extent = Extent { x: 1, y: 2, z: 3 };
    let mut out = Vec::new();
    let mut skipped = Vec::new();
    r.prepare_height_map_buffer(&vec![(2, HeightMapSource { handle: 12, extent })], &vec![], &mut out, &mut skipped);
    assert_eq!(r.height_maps.len(), 1);
    let taken = r.height_maps.take_resolved(&vec![12]);
    assert_eq!((taken[0].entity, taken[0].handle, taken[0].aux), (2, 12, extent));
    assert!(matches!(&out[0], GpuCommand::Buffer { usage: BufferUsage::Uniform, words, .. } if *words == vec![1, 2, 3]));
    let m = r.cache.get(2).unwrap().height_map.unwrap();
    assert!(matches!(out[1], GpuCommand::BindGroup { id, layout: Layout::HeightMap,
        first: Binding::Asset(TextureRef::Fallback), second: Some(Binding::Buffer(_)) } if id == m.bind_group));
}

#[test]
fn waiting_chunk_gets_no_commands() {
    let mut r = GrassRenderer::new();
    r.register(3);
    let mut out = Vec::new();
    let mut skipped = Vec::new();
    r.prepare_height_buffer(&vec![(3, HeightSource::Texture(40))], &vec![], &mut out, &mut skipped);
    assert_eq!(out.len(), 1);
    let mut later = Vec::new();
    r.prepare_height_buffer(&vec![], &vec![41], &mut later, &mut skipped);
    assert!(later.is_empty());
    assert_eq!(r.heights.count_for(3), 1);
}

#[test]
fn draw_bindings_follow_the_entry() {
    let mut r = GrassRenderer::new();
    r.register(1);
    assert!(r.cache.get(1).unwrap().draw_bindings().is_none());
    let mut frame = quiet_input((1.0, 0.0));
    frame.instances = vec![(1, vec![Instance { x: 0, y: 0, z: 0, scale: 1 }; 3])];
    r.prepare_frame(&frame);
    let e = r.cache.get(1).unwrap();
    let b = e.draw_bindings().unwrap();
    assert_eq!(b.instances, e.instance_buffer.unwrap());
    assert_eq!(b.count, 3);
    assert_eq!(b.region, e.region_bindgroup.unwrap());
    assert_eq!(b.height_map, None);
}
