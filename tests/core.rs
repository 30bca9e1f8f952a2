use qd::gfx::{apply_upload, Drawable, Gfx, GfxError, Settings, Upload};
use qd::math::UV2;
use qd::mem::{BitMap, HandlePool, Handles, MetaAllocator};
use qd::scene::{Node, Scene, INACTIVE, NONE};

#[derive(Clone, Copy, Debug, PartialEq)]
struct Shift([f32; 3]);

fn shift_concat(p: &Shift, l: &Shift) -> Shift {
    Shift([p.0[0] + l.0[0], p.0[1] + l.0[1], p.0[2] + l.0[2]])
}

fn node(sib: u32, kid: u32, pos: [f32; 3], draw: Drawable<f32>) -> Node<Shift, f32> {
    Node { sib, kid, local: Shift(pos), world: Shift([0.0; 3]), draw }
}

fn settings() -> Settings {
    Settings {
        screen_size: UV2([640, 480]),
        vtx_buffer_size: 1024,
        idx_buffer_size: 1024,
        tex_dim: 4,
        tex_count: 2,
        store_count: 4,
        store_width: 3,
    }
}

#[test]
fn handles_reuse_released_index() {
    let mut h: Handles<u32> = Handles::new();
    assert_eq!(h.track(10), 0);
    assert_eq!(h.track(11), 1);
    h.untrack(0);
    assert_eq!(h.track(12), 0);
    assert_eq!(*h.get(0), 12);
    assert_eq!(h.track(13), 2);
    assert_eq!(h.len(), 3);
}

#[test]
fn handle_pool_fills_from_default() {
    let mut p: HandlePool<u32> = HandlePool::new();
    assert_eq!(p.track(|v| v + 5), 0);
    assert_eq!(*p.get(0), 5);
    p.untrack(0);
    assert_eq!(p.track(|v| v * 3), 0);
    assert_eq!(*p.get(0), 15);
}

#[test]
fn bitmap_fills_exactly_its_capacity() {
    for n in [1usize, 5, 64, 65, 130] {
        let mut b = BitMap::new(n);
        let mut got = Vec::new();
        for _ in 0..n {
            got.push(b.set_any().expect("slot"));
        }
        assert!(b.set_any().is_none());
        got.sort();
        assert_eq!(got, (0..n).collect::<Vec<_>>());
    }
}

#[test]
fn bitmap_reuses_freed_slot() {
    let mut b = BitMap::new(8);
    for _ in 0..8 {
        b.set_any().unwrap();
    }
    b.unset(5);
    assert_eq!(b.set_any(), Some(5));
    b.unset(2);
    b.unset(6);
    assert_eq!(b.set_any(), Some(6));
    assert_eq!(b.set_any(), Some(2));
    assert_eq!(b.set_any(), None);
}

#[test]
fn bitmap_zero_capacity_fails() {
    let mut b = BitMap::new(0);
    assert_eq!(b.set_any(), None);
}

#[test]
fn buddy_rounds_up_and_splits() {
    let mut m = MetaAllocator::new(1024, 64);
    let a = m.allocate(100).unwrap();
    assert_eq!(a.range.start, 0);
    assert_eq!(a.range.end, 128);
    let b = m.allocate(0).unwrap();
    assert_eq!(b.range.end - b.range.start, 64);
    assert_eq!(b.range.start, 128);
    let c = m.allocate(512).unwrap();
    assert_eq!((c.range.start, c.range.end), (512, 1024));
    assert!(m.allocate(512).is_none());
    assert!(m.allocate(2048).is_none());
}

#[test]
fn buddy_ranges_never_overlap() {
    let mut m = MetaAllocator::new(4096, 16);
    let mut live: Vec<(usize, usize)> = Vec::new();
    for size in [16usize, 100, 7, 300, 1000, 16, 64, 33, 500] {
        if let Some(a) = m.allocate(size) {
            assert!(a.range.end - a.range.start >= size);
            for &(s, e) in &live {
                assert!(a.range.end <= s || e <= a.range.start);
            }
            live.push((a.range.start, a.range.end));
        }
    }
    assert!(live.len() >= 8);
}

#[test]
fn buddy_coalesces_after_freeing_everything() {
    let mut m = MetaAllocator::new(1024, 32);
    let mut held = Vec::new();
    while let Some(a) = m.allocate(32) {
        held.push(a);
    }
    assert_eq!(held.len(), 32);
    // free in an interleaved order
    let mut order: Vec<usize> = (0..32).filter(|i| i % 2 == 1).collect();
    order.extend((0..32).filter(|i| i % 2 == 0).rev());
    let mut slots: Vec<Option<qd::mem::MetaAlloc>> = held.into_iter().map(Some).collect();
    for i in order {
        m.free(slots[i].take().unwrap());
    }
    let whole = m.allocate(1024).unwrap();
    assert_eq!((whole.range.start, whole.range.end), (0, 1024));
}

#[test]
fn scene_chain_translations_compose() {
    let mut s: Scene<Shift, f32> = Scene::new();
    s.add_node(node(NONE, 1, [1.0, 0.0, 0.0], Drawable::Empty));
    s.add_node(node(NONE, 2, [0.0, 1.0, 0.0], Drawable::Empty));
    s.add_node(node(NONE, NONE, [0.0, 0.0, 1.0], Drawable::Empty));
    s.update(Shift([0.0; 3]), shift_concat);
    assert_eq!(s.node(2).world, Shift([1.0, 1.0, 1.0]));
    s.set_local(0, Shift([5.0, 0.0, 0.0]));
    s.update(Shift([0.0; 3]), shift_concat);
    assert_eq!(s.node(2).world, Shift([5.0, 1.0, 1.0]));
    assert_eq!(s.node(1).world, Shift([5.0, 1.0, 0.0]));
}

#[test]
fn scene_siblings_share_parent() {
    let mut s: Scene<Shift, f32> = Scene::new();
    s.add_node(node(NONE, 1, [10.0, 0.0, 0.0], Drawable::Empty));
    s.add_node(node(2, NONE, [1.0, 0.0, 0.0], Drawable::Empty));
    s.add_node(node(NONE, NONE, [2.0, 0.0, 0.0], Drawable::Empty));
    s.update(Shift([0.0; 3]), shift_concat);
    assert_eq!(s.node(1).world, Shift([11.0, 0.0, 0.0]));
    assert_eq!(s.node(2).world, Shift([12.0, 0.0, 0.0]));
}

#[test]
fn scene_cycle_terminates() {
    let mut s: Scene<Shift, f32> = Scene::new();
    s.add_node(node(NONE, 1, [1.0, 0.0, 0.0], Drawable::Empty));
    s.add_node(node(NONE, 1, [1.0, 0.0, 0.0], Drawable::Empty));
    s.update(Shift([0.0; 3]), shift_concat);
    assert_eq!(s.node(1).world, Shift([2.0, 0.0, 0.0]));
}

#[test]
fn add_node_reuses_deactivated_slot() {
    let mut s: Scene<Shift, f32> = Scene::new();
    for _ in 0..3 {
        s.add_node(node(NONE, NONE, [0.0; 3], Drawable::Empty));
    }
    s.deactivate(1);
    assert_eq!(s.node(1).kid, INACTIVE);
    assert!(!s.node(1).is_active());
    s.add_node(node(NONE, NONE, [7.0, 0.0, 0.0], Drawable::Empty));
    assert_eq!(s.len(), 3);
    assert_eq!(s.node(1).local, Shift([7.0, 0.0, 0.0]));
    s.add_node(node(NONE, NONE, [8.0, 0.0, 0.0], Drawable::Empty));
    assert_eq!(s.len(), 4);
}

#[test]
fn drawables_skip_inactive_and_empty() {
    let mut s: Scene<Shift, f32> = Scene::new();
    s.add_node(node(NONE, 1, [0.0; 3], Drawable::Empty));
    s.add_node(node(2, NONE, [1.0, 0.0, 0.0], Drawable::Mesh { hnd: 0, tex: 0, blend: 0.5 }));
    s.add_node(node(NONE, NONE, [2.0, 0.0, 0.0], Drawable::Mesh { hnd: 1, tex: 1, blend: 1.0 }));
    s.update(Shift([0.0; 3]), shift_concat);
    assert_eq!(s.drawables().len(), 2);
    assert_eq!(s.active_ids(), vec![0, 1, 2]);
    s.deactivate(2);
    let d = s.drawables();
    assert_eq!(d.len(), 1);
    assert_eq!(d[0].0, Shift([1.0, 0.0, 0.0]));
    assert_eq!(s.active_ids(), vec![0, 1]);
}

fn mesh(h: u32) -> Drawable<f32> {
    Drawable::Mesh { hnd: h, tex: 0, blend: 1.0 }
}

#[test]
fn batching_groups_by_mesh() {
    let mut g: Gfx<[f32; 4], Shift, f32> = Gfx::new(&settings());
    let m = g.mesh_alloc(4, 6).unwrap();
    let n = g.mesh_alloc(3, 3).unwrap();
    assert_eq!((m, n), (0, 1));
    let items = vec![
        (Shift([0.0; 3]), mesh(n)),
        (Shift([1.0; 3]), mesh(m)),
        (Shift([2.0; 3]), Drawable::Empty),
        (Shift([3.0; 3]), mesh(m)),
    ];
    g.draw(&items).unwrap();
    let calls = g.draw_calls();
    assert_eq!(calls.len(), 2);
    assert_eq!(calls[0].mesh, m);
    assert_eq!(calls[0].instances, 2);
    assert_eq!(calls[1].mesh, n);
    assert_eq!(calls[1].instances, 1);
    assert_ne!(calls[0].store, calls[1].store);
    assert_eq!(g.batch(0).insts[1].world, Shift([3.0; 3]));
    g.clear_batches();
    assert_eq!(g.draw_calls().len(), 0);
    g.draw(&vec![(Shift([0.0; 3]), mesh(n))]).unwrap();
    let again = g.draw_calls();
    assert_eq!(again.len(), 1);
    assert_eq!(again[0].store, calls[1].store);
}

#[test]
fn draw_call_regions() {
    let mut g: Gfx<[f32; 4], Shift, f32> = Gfx::new(&settings());
    let a = g.mesh_alloc(4, 6).unwrap();
    let b = g.mesh_alloc(40, 200).unwrap();
    let (vb, ib) = g.mesh_map(b);
    g.draw(&vec![(Shift([0.0; 3]), mesh(b))]).unwrap();
    let call = g.draw_calls()[0];
    assert_eq!(call.index_offset, ib.offset);
    assert_eq!(call.index_count, ib.len / 4);
    assert_eq!(call.base_vertex, vb.offset / 16);
    let (va, _) = g.mesh_map(a);
    assert_eq!(va.offset, 0);
    assert_eq!(va.len, 512);
    assert_eq!(ib.len, 1024);
}

#[test]
fn batch_overflow_is_reported() {
    let mut g: Gfx<[f32; 4], Shift, f32> = Gfx::new(&settings());
    let m = g.mesh_alloc(1, 1).unwrap();
    let items: Vec<_> = (0..4).map(|_| (Shift([0.0; 3]), mesh(m))).collect();
    assert_eq!(g.draw(&items), Err(GfxError::StoreOverflow));
}

#[test]
fn store_exhaustion_is_reported() {
    let mut s = settings();
    s.store_count = 1;
    let mut g: Gfx<[f32; 4], Shift, f32> = Gfx::new(&s);
    let m = g.mesh_alloc(1, 1).unwrap();
    let n = g.mesh_alloc(1, 1).unwrap();
    assert_eq!(g.draw(&vec![(Shift([0.0; 3]), mesh(m)), (Shift([0.0; 3]), mesh(n))]), Err(GfxError::OutOfSpace));
}

#[test]
fn buffer_exhaustion_is_reported() {
    let mut g: Gfx<[f32; 4], Shift, f32> = Gfx::new(&settings());
    assert_eq!(g.mesh_alloc(100_000, 1), Err(GfxError::OutOfSpace));
    assert_eq!(g.mesh_alloc(1, 1), Ok(0));
}

#[test]
fn texture_slots_run_out() {
    let mut g: Gfx<[f32; 4], Shift, f32> = Gfx::new(&settings());
    assert_eq!(g.tex_alloc(), Ok(0));
    assert_eq!(g.tex_alloc(), Ok(1));
    assert_eq!(g.tex_alloc(), Err(GfxError::OutOfSpace));
    let t = g.tex_map(1);
    assert_eq!(t.write(&[0u32; 15]).err(), Some(GfxError::LengthMismatch));
    let up = t.write(&[7u32; 16]).unwrap();
    assert_eq!(up.layer, 1);
    assert_eq!(up.pixels, vec![7u32; 16]);
}

#[test]
fn map_write_round_trip() {
    let mut g: Gfx<[f32; 4], Shift, f32> = Gfx::new(&settings());
    let a = g.mesh_alloc(32, 128).unwrap();
    let b = g.mesh_alloc(32, 128).unwrap();
    let (_, ia) = g.mesh_map(a);
    let (_, ib) = g.mesh_map(b);
    assert_eq!(ia.len, 512);
    let da: Vec<u32> = (0..128).collect();
    let db: Vec<u32> = (1000..1128).collect();
    let ua = ia.write(&da).unwrap();
    let ub = ib.write(&db).unwrap();
    assert_eq!(ua.offset, ia.offset);
    assert_eq!(ua.bytes.len(), 512);
    assert_eq!(&ua.bytes[4..8], &1u32.to_ne_bytes());
    let mut mem = vec![0u8; 4096];
    apply_upload(&mut mem, &ua);
    apply_upload(&mut mem, &ub);
    assert_eq!(&mem[ia.offset..ia.offset + 512], &ua.bytes[..]);
    assert_eq!(&mem[ib.offset..ib.offset + 512], &ub.bytes[..]);
    assert_eq!(ia.write(&da[..10]).err(), Some(GfxError::LengthMismatch));
}

#[test]
fn apply_upload_leaves_rest() {
    let mut mem = vec![9u8; 8];
    apply_upload(&mut mem, &Upload { offset: 2, bytes: vec![1, 2, 3] });
    assert_eq!(mem, vec![9, 9, 1, 2, 3, 9, 9, 9]);
}

#[test]
fn draw_of_empty_items_changes_nothing() {
    let mut g: Gfx<[f32; 4], Shift, f32> = Gfx::new(&settings());
    let m = g.mesh_alloc(1, 1).unwrap();
    g.draw(&vec![(Shift([0.0; 3]), mesh(m))]).unwrap();
    let before = g.draw_calls();
    assert_eq!(g.draw(&vec![(Shift([1.0; 3]), Drawable::Empty), (Shift([2.0; 3]), Drawable::Empty)]), Ok(()));
    assert_eq!(g.draw_calls(), before);
    g.clear_batches();
    assert_eq!(g.draw(&vec![(Shift([1.0; 3]), Drawable::Empty)]), Ok(()));
    assert!(g.draw_calls().is_empty());
}

#[test]
fn draw_stops_at_failing_item() {
    let mut s = settings();
    s.store_count = 1;
    let mut g: Gfx<[f32; 4], Shift, f32> = Gfx::new(&s);
    let m = g.mesh_alloc(1, 1).unwrap();
    let n = g.mesh_alloc(1, 1).unwrap();
    let items = vec![(Shift([0.0; 3]), mesh(m)), (Shift([1.0; 3]), mesh(n)), (Shift([2.0; 3]), mesh(m))];
    assert_eq!(g.draw(&items), Err(GfxError::OutOfSpace));
    let calls = g.draw_calls();
    assert_eq!(calls.len(), 1);
    assert_eq!((calls[0].mesh, calls[0].instances), (m, 1));
}
