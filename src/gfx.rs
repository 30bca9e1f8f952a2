use crate::buddy_math::{block_len, holds};
use crate::mem::{order_for, BitMap, Handles, MetaAlloc, MetaAllocator};
use bytemuck::NoUninit;
use std::marker::PhantomData;
use vstd::prelude::*;

verus! {

/// What a scene node draws: nothing, or a mesh with a texture and a blend factor.
#[derive(Clone, Copy, Debug)]
pub enum Drawable<B> {
    Empty,
    Mesh { hnd: u32, tex: u32, blend: B },
}

impl<B> Drawable<B> {
    pub open spec fn is_mesh(&self) -> bool {
        self is Mesh
    }

    pub fn is_some(&self) -> (r: bool)
        ensures
            r == self.is_mesh(),
    {
        match self {
            Drawable::Empty => false,
            Drawable::Mesh { .. } => true,
        }
    }
}

/// What the graphics core reports instead of aborting.
#[derive(Clone, Copy, Debug, PartialEq, Eq, Structural)]
pub enum GfxError {
    /// A buffer, the texture array or the instance store has no room left.
    OutOfSpace,
    /// The data written through a map does not fill its region exactly.
    LengthMismatch,
    /// A batch already holds as many instances as one store slot takes.
    StoreOverflow,
}

/// Where a pass draws: the screen or a texture slot.
pub enum Target {
    Screen,
    Tex(u32),
}

/// The bytes to copy into a device buffer at a byte offset.
pub struct Upload {
    pub offset: usize,
    pub bytes: Vec<u8>,
}

/// `mem` with the bytes at `offset` replaced by `bytes`.
pub open spec fn uploaded(mem: Seq<u8>, offset: int, bytes: Seq<u8>) -> Seq<u8> {
    mem.take(offset) + bytes + mem.skip(offset + bytes.len())
}

/// Copies an upload into a byte image of a device buffer, as the device does.
pub fn apply_upload(mem: &mut Vec<u8>, up: &Upload)
    requires
        up.offset + up.bytes@.len() <= old(mem)@.len(),
    ensures
        final(mem)@ == uploaded(old(mem)@, up.offset as int, up.bytes@),
{
    let n = up.bytes.len();
    let total = mem.len();
    let mut i: usize = 0;
    while i < n
        invariant
            n == up.bytes@.len(),
            total == mem@.len(),
            up.offset + n <= mem@.len(),
            mem@.len() == old(mem)@.len(),
            i <= n,
            mem@ =~= old(mem)@.take(up.offset as int) + up.bytes@.take(i as int) + old(mem)@.skip(
                up.offset + i,
            ),
        decreases n - i,
    {
        mem.set(up.offset + i, up.bytes[i]);
        i += 1;
        assert(mem@ =~= old(mem)@.take(up.offset as int) + up.bytes@.take(i as int) + old(
            mem,
        )@.skip(up.offset + i));
    }
    assert(up.bytes@.take(n as int) =~= up.bytes@);
}

/// Bytes written into one region are still there after a write into a region
/// that does not overlap it.
pub proof fn lemma_neighbour_write_kept(mem: Seq<u8>, a: int, da: Seq<u8>, b: int, db: Seq<u8>)
    requires
        0 <= a,
        0 <= b,
        a + da.len() <= mem.len(),
        b + db.len() <= mem.len(),
        a + da.len() <= b || b + db.len() <= a,
    ensures
        uploaded(uploaded(mem, a, da), b, db).subrange(a, a + da.len()) == da,
        uploaded(uploaded(mem, a, da), b, db).len() == mem.len(),
{
    let m1 = uploaded(mem, a, da);
    let m2 = uploaded(m1, b, db);
    assert forall|i: int| 0 <= i < da.len() implies m2[a + i] == da[i] by {
        assert(m1[a + i] == da[i]);
    }
    assert(m2.subrange(a, a + da.len()) =~= da);
}

/// Relies on bytemuck::cast_slice: the bytes of a slice of plain values, with
/// `size_of::<T>()` bytes for each value.
#[verifier::external_body]
fn bytes_of<T: NoUninit>(data: &[T]) -> (r: Vec<u8>)
    ensures
        r@.len() == data@.len() * vstd::layout::size_of::<T>(),
{
    bytemuck::cast_slice::<T, u8>(data).to_vec()
}

/// The handle that an allocation returned, or -1 when it failed.
pub open spec fn new_handle(r: Result<u32, GfxError>) -> int {
    match r {
        Ok(h) => h as int,
        Err(_) => -1,
    }
}

/// The block that a region handed out by `MetaAllocator` stands for.
pub open spec fn block_of(a: MetaAlloc, min: int) -> (int, int) {
    (a.range.start as int, order_for(min, a.range.end - a.range.start))
}

/// A device buffer's byte arena, carved by a buddy allocator, with a handle for
/// each region handed out.
pub struct RawBuf {
    space: MetaAllocator,
    allocs: Handles<MetaAlloc>,
    live: Ghost<Set<int>>,
}

impl RawBuf {
    /// Whether handle `h` names a region handed out and not yet freed.
    pub closed spec fn live(&self, h: int) -> bool {
        self.live@.contains(h)
    }

    /// The region of handle `h`.
    pub closed spec fn region(&self, h: int) -> MetaAlloc {
        self.allocs.slots()[h]
    }

    pub closed spec fn min_ord(&self) -> int {
        self.space.min_ord()
    }

    /// Every handle but `skip` is live here exactly when it is live in `other`,
    /// with the same region.
    pub open spec fn keeps(&self, other: &RawBuf, skip: int) -> bool {
        forall|g: int|
            #![trigger self.live(g)]
            #![trigger other.live(g)]
            g != skip ==> (self.live(g) <==> other.live(g)) && (other.live(g) ==> self.region(g)
                == other.region(g))
    }

    /// Whether the allocator has a block for `size` bytes.
    pub closed spec fn can_fit(&self, size: int) -> bool {
        self.space.can_fit(size)
    }

    /// Whether the handle table can name one more region.
    pub closed spec fn has_room(&self) -> bool {
        self.allocs.free_ids().len() > 0 || self.allocs.slots().len() <= u32::MAX
    }

    /// The length of the arena in bytes.
    pub closed spec fn capacity(&self) -> int {
        self.space.capacity()
    }

    pub closed spec fn wf(&self) -> bool {
        &&& self.space.wf()
        &&& self.allocs.wf()
        &&& self.allocs.slots().len() <= u32::MAX + 1
        &&& forall|i: int, j: int|
            0 <= i < j < self.allocs.free_ids().len() ==> self.allocs.free_ids()[i]
                != self.allocs.free_ids()[j]
        &&& forall|k: int|
            0 <= k < self.allocs.free_ids().len() ==> !self.live@.contains(
                #[trigger] self.allocs.free_ids()[k] as int,
            )
        &&& forall|h: int|
            #![trigger self.live@.contains(h)]
            self.live@.contains(h) ==> {
                let a = self.allocs.slots()[h];
                &&& 0 <= h < self.allocs.slots().len()
                &&& a.range.start <= a.range.end
                &&& self.space.handed_out().contains(block_of(a, self.min_ord()))
                &&& a.range.end == a.range.start + block_len(block_of(a, self.min_ord()).1)
            }
        &&& forall|h1: int, h2: int|
            #![trigger self.live@.contains(h1), self.live@.contains(h2)]
            self.live@.contains(h1) && self.live@.contains(h2) && h1 != h2 ==> block_of(
                self.allocs.slots()[h1],
                self.min_ord(),
            ) != block_of(self.allocs.slots()[h2], self.min_ord())
    }

    /// A buffer of `size` bytes rounded up to a power of two, carved in blocks of
    /// at least 512 bytes.
    pub fn new(size: usize) -> (r: Self)
        requires
            size <= usize::MAX / 2 + 1,
        ensures
            r.wf(),
            r.capacity() >= size,
            forall|h: int| !r.live(h),
    {
        RawBuf {
            space: MetaAllocator::new(size, 512),
            allocs: Handles::new(),
            live: Ghost(Set::empty()),
        }
    }

    /// Hands out a region of at least `size` bytes under a new handle. Fails when
    /// the allocator has no block for it, or the handle table is full.
    pub fn alloc_region(&mut self, size: usize) -> (r: Result<u32, GfxError>)
        requires
            old(self).wf(),
        ensures
            final(self).wf(),
            final(self).min_ord() == old(self).min_ord(),
            final(self).capacity() == old(self).capacity(),
            r is Ok <==> old(self).can_fit(size as int) && old(self).has_room(),
            r is Err ==> r == Err::<u32, GfxError>(GfxError::OutOfSpace),
            final(self).keeps(old(self), new_handle(r)),
            r matches Ok(h) ==> {
                &&& !old(self).live(h as int)
                &&& final(self).live(h as int)
                &&& final(self).region(h as int).range.end - final(self).region(
                    h as int,
                ).range.start == block_len(order_for(old(self).min_ord(), size as int))
            },
    {
        if self.allocs.free_count() == 0 && self.allocs.len() > u32::MAX as usize {
            return Err(GfxError::OutOfSpace);
        }
        let ghost old_free = self.allocs.free_ids();
        match self.space.allocate(size) {
            None => Err(GfxError::OutOfSpace),
            Some(a) => {
                let h = self.allocs.track(a);
                proof {
                    assert(!self.live@.contains(h as int)) by {
                        if old_free.len() > 0 {
                            assert(old_free[old_free.len() - 1] == h);
                        }
                    }
                    self.live@ = self.live@.insert(h as int);
                    assert forall|k: int|
                        0 <= k < self.allocs.free_ids().len() implies !self.live@.contains(
                        #[trigger] self.allocs.free_ids()[k] as int,
                    ) by {
                        assert(self.allocs.free_ids()[k] == old_free[k]);
                        assert(old_free[k] != old_free[old_free.len() - 1]);
                    }
                    assert forall|i: int, j: int|
                        0 <= i < j < self.allocs.free_ids().len() implies self.allocs.free_ids()[i]
                        != self.allocs.free_ids()[j] by {
                        assert(self.allocs.free_ids()[i] == old_free[i]);
                        assert(self.allocs.free_ids()[j] == old_free[j]);
                    }
                    assert(self.allocs.slots()[h as int] == a);
                    assert(h <= u32::MAX);
                    assert((h as u32) as int == h as int);
                    assert forall|g: int|
                        #![trigger self.live@.contains(g)]
                        self.live@.contains(g) && g != h as int implies self.allocs.slots()[g]
                        == old(self).allocs.slots()[g] by {}
                }
                Ok(h as u32)
            },
        }
    }

    /// Gives back the region of the live handle `hnd`; the handle is released for
    /// reuse.
    pub fn free_region(&mut self, hnd: u32)
        requires
            old(self).wf(),
            old(self).live(hnd as int),
        ensures
            final(self).wf(),
            final(self).min_ord() == old(self).min_ord(),
            final(self).capacity() == old(self).capacity(),
            !final(self).live(hnd as int),
            final(self).keeps(old(self), hnd as int),
    {
        let h = hnd as usize;
        proof {
            assert(self.live@.contains(h as int));
        }
        let a = self.allocs.get(h);
        let region = MetaAlloc { range: std::ops::Range { start: a.range.start, end: a.range.end } };
        self.space.free(region);
        proof {
            if self.allocs.free_ids().contains(h) {
                let k = choose|k: int|
                    0 <= k < self.allocs.free_ids().len() && self.allocs.free_ids()[k] == h;
                assert(!self.live@.contains(self.allocs.free_ids()[k] as int));
            }
        }
        self.allocs.untrack(h);
        proof {
            let b = block_of(region, self.min_ord());
            self.live@ = self.live@.remove(h as int);
            assert forall|g: int|
                #![trigger self.live@.contains(g)]
                self.live@.contains(g) implies block_of(self.allocs.slots()[g], self.min_ord())
                != b by {
                assert(old(self).live@.contains(g));
            }
            assert forall|k: int|
                0 <= k < self.allocs.free_ids().len() implies !self.live@.contains(
                #[trigger] self.allocs.free_ids()[k] as int,
            ) by {
                if k < old(self).allocs.free_ids().len() {
                    assert(self.allocs.free_ids()[k] == old(self).allocs.free_ids()[k]);
                }
            }
            assert forall|i: int, j: int|
                0 <= i < j < self.allocs.free_ids().len() implies self.allocs.free_ids()[i]
                != self.allocs.free_ids()[j] by {
                assert(self.allocs.free_ids()[i] == old(self).allocs.free_ids()[i]);
                if j < old(self).allocs.free_ids().len() {
                    assert(self.allocs.free_ids()[j] == old(self).allocs.free_ids()[j]);
                } else {
                    assert(!old(self).live@.contains(old(self).allocs.free_ids()[i] as int));
                }
            }
        }
    }

    /// The byte range of the live handle `hnd`.
    pub fn range_of(&self, hnd: u32) -> (r: (usize, usize))
        requires
            self.wf(),
            self.live(hnd as int),
        ensures
            r.0 == self.region(hnd as int).range.start,
            r.1 == self.region(hnd as int).range.end,
            r.0 <= r.1,
    {
        proof {
            assert(self.live@.contains(hnd as int));
        }
        let a = self.allocs.get(hnd as usize);
        (a.range.start, a.range.end)
    }

    /// The region of a live handle lies inside the arena.
    pub proof fn lemma_region_inside(&self, h: int)
        requires
            self.wf(),
            self.live(h),
        ensures
            self.region(h).range.start <= self.region(h).range.end,
            self.region(h).range.end <= self.capacity(),
    {
        assert(self.live@.contains(h));
        let a = self.allocs.slots()[h];
        self.space.lemma_handed_out_inside(block_of(a, self.min_ord()));
    }

    /// The regions of two different live handles do not overlap.
    pub proof fn lemma_regions_disjoint(&self, h1: int, h2: int)
        requires
            self.wf(),
            self.live(h1),
            self.live(h2),
            h1 != h2,
        ensures
            self.region(h1).range.end <= self.region(h2).range.start || self.region(
                h2,
            ).range.end <= self.region(h1).range.start,
    {
        let a1 = self.region(h1);
        let a2 = self.region(h2);
        let b1 = block_of(a1, self.min_ord());
        let b2 = block_of(a2, self.min_ord());
        assert(self.live@.contains(h1) && self.live@.contains(h2));
        assert(a1.range.end == a1.range.start + block_len(b1.1));
        assert(a2.range.end == a2.range.start + block_len(b2.1));
        assert(b1.0 == a1.range.start as int && b2.0 == a2.range.start as int);
        vstd::arithmetic::power2::lemma_pow2_pos(b1.1 as nat);
        vstd::arithmetic::power2::lemma_pow2_pos(b2.1 as nat);
        if !(a1.range.end <= a2.range.start || a2.range.end <= a1.range.start) {
            if a1.range.start < a2.range.start {
                let x: int = a2.range.start as int;
                assert(holds(b1.0, b1.1, x));
                assert(holds(b2.0, b2.1, x));
                self.space.lemma_handed_out_disjoint(b1, b2, x);
            } else {
                let x: int = a1.range.start as int;
                assert(holds(b1.0, b1.1, x));
                assert(holds(b2.0, b2.1, x));
                self.space.lemma_handed_out_disjoint(b1, b2, x);
            }
            assert(h1 == h2);
        }
    }
}

/// A typed view of a device buffer: regions are counted in values of `T`.
pub struct Buf<T> {
    pub inner: RawBuf,
    pub marker: PhantomData<T>,
}

impl<T> Buf<T> {
    pub fn new(size: usize) -> (r: Self)
        requires
            size * vstd::layout::size_of::<T>() <= usize::MAX / 2 + 1,
        ensures
            r.inner.wf(),
            forall|h: int| !r.inner.live(h),
    {
        let bytes = size * std::mem::size_of::<T>();
        Buf { inner: RawBuf::new(bytes), marker: PhantomData }
    }

    /// Hands out a region for `size` values of `T`.
    pub fn alloc_items(&mut self, size: usize) -> (r: Result<u32, GfxError>)
        requires
            old(self).inner.wf(),
            size * vstd::layout::size_of::<T>() <= usize::MAX,
        ensures
            final(self).inner.wf(),
            final(self).inner.min_ord() == old(self).inner.min_ord(),
            final(self).inner.capacity() == old(self).inner.capacity(),
            r is Ok <==> old(self).inner.can_fit(size * vstd::layout::size_of::<T>())
                && old(self).inner.has_room(),
            r is Err ==> r == Err::<u32, GfxError>(GfxError::OutOfSpace),
            final(self).inner.keeps(&old(self).inner, new_handle(r)),
            r matches Ok(h) ==> {
                &&& !old(self).inner.live(h as int)
                &&& final(self).inner.live(h as int)
                &&& final(self).inner.region(h as int).range.end - final(self).inner.region(
                    h as int,
                ).range.start == block_len(
                    order_for(old(self).inner.min_ord(), size * vstd::layout::size_of::<T>()),
                )
            },
    {
        let bytes = size * std::mem::size_of::<T>();
        self.inner.alloc_region(bytes)
    }

    /// A write scope on the region of the live handle `hnd`.
    pub fn map(&self, hnd: u32) -> (r: BufMap<T>)
        requires
            self.inner.wf(),
            self.inner.live(hnd as int),
        ensures
            r.offset == self.inner.region(hnd as int).range.start,
            r.len == self.inner.region(hnd as int).range.end - self.inner.region(
                hnd as int,
            ).range.start,
    {
        let (start, end) = self.inner.range_of(hnd);
        BufMap { offset: start, len: end - start, marker: PhantomData }
    }
}

/// A write scope on one region of a buffer: its byte offset and byte length.
pub struct BufMap<T> {
    pub offset: usize,
    pub len: usize,
    pub marker: PhantomData<T>,
}

impl<T> BufMap<T> {
    /// The upload that fills the region with `data`. Fails, uploading nothing,
    /// when `data` does not take exactly the region's length in bytes.
    pub fn write(&self, data: &[T]) -> (r: Result<Upload, GfxError>) where T: NoUninit
        ensures
            r is Err <==> data@.len() * vstd::layout::size_of::<T>() != self.len,
            r is Err ==> r == Err::<Upload, GfxError>(GfxError::LengthMismatch),
            r matches Ok(up) ==> up.offset == self.offset && up.bytes@.len() == self.len,
    {
        let bytes = bytes_of(data);
        if bytes.len() != self.len {
            return Err(GfxError::LengthMismatch);
        }
        Ok(Upload { offset: self.offset, bytes })
    }
}

/// The texture array: `count` square layers of `dim` by `dim` pixels, one slot
/// each.
pub struct TexBuf {
    dim: usize,
    slots: BitMap,
}

impl TexBuf {
    /// The side of a layer, in pixels.
    pub closed spec fn side(&self) -> usize {
        self.dim
    }

    pub closed spec fn wf(&self) -> bool {
        self.slots.wf()
    }

    pub closed spec fn used(&self) -> Set<int> {
        self.slots.used()
    }

    pub closed spec fn count(&self) -> nat {
        self.slots.capacity()
    }

    /// The released slots, most recent last.
    pub closed spec fn free_ids(&self) -> Seq<usize> {
        self.slots.free_ids()
    }

    pub fn new(dim: usize, count: usize) -> (r: Self)
        requires
            count + 63 <= usize::MAX,
        ensures
            r.wf(),
            r.side() == dim,
            r.count() == count,
            r.used() == Set::<int>::empty(),
    {
        TexBuf { dim, slots: BitMap::new(count) }
    }

    /// Takes a free layer. Fails when every layer is in use.
    pub fn alloc_slot(&mut self) -> (r: Result<u32, GfxError>)
        requires
            old(self).wf(),
            old(self).count() <= u32::MAX + 1,
        ensures
            final(self).wf(),
            final(self).side() == old(self).side(),
            final(self).count() == old(self).count(),
            r is Err <==> old(self).used() == Set::new(|j: int| 0 <= j < old(self).count()),
            r is Err ==> r == Err::<u32, GfxError>(GfxError::OutOfSpace) && final(self).used()
                == old(self).used(),
            r matches Ok(h) ==> !old(self).used().contains(h as int) && final(self).used() == old(self).used().insert(h as int),
            r matches Ok(h) ==> old(self).free_ids().len() > 0 ==> h as int == old(self).free_ids().last() as int,
            r matches Ok(h) ==> old(self).free_ids().len() == 0 ==> forall|j: int|
                0 <= j < h ==> old(self).used().contains(j),
    {
        match self.slots.set_any() {
            Some(i) => Ok(i as u32),
            None => Err(GfxError::OutOfSpace),
        }
    }

    /// Gives back the layer `hnd`.
    pub fn free(&mut self, hnd: u32)
        requires
            old(self).wf(),
            old(self).used().contains(hnd as int),
        ensures
            final(self).wf(),
            final(self).side() == old(self).side(),
            final(self).count() == old(self).count(),
            final(self).used() == old(self).used().remove(hnd as int),
    {
        self.slots.unset(hnd as usize);
    }
}

/// The pixels to copy into one layer of the texture array.
pub struct TexUpload {
    pub layer: u32,
    pub pixels: Vec<u32>,
}

/// A write scope on one layer of the texture array.
pub struct TexMap {
    pub hnd: u32,
    pub dim: usize,
}

impl TexMap {
    /// The upload that fills the layer with `data`. Fails when `data` does not
    /// hold exactly `dim * dim` pixels.
    pub fn write(&self, data: &[u32]) -> (r: Result<TexUpload, GfxError>)
        ensures
            r is Err <==> data@.len() != self.dim * self.dim,
            r is Err ==> r == Err::<TexUpload, GfxError>(GfxError::LengthMismatch),
            r matches Ok(up) ==> up.layer == self.hnd && up.pixels@ == data@,
    {
        let count = data.len();
        match self.dim.checked_mul(self.dim) {
            None => {
                return Err(GfxError::LengthMismatch);
            },
            Some(n) => {
                if count != n {
                    return Err(GfxError::LengthMismatch);
                }
            },
        }
        let pixels = vstd::slice::slice_to_vec(data);
        Ok(TexUpload { layer: self.hnd, pixels })
    }
}

/// The instance store: slots that each hold the instance records of one batch.
pub struct StoreBuf {
    slots: BitMap,
}

impl StoreBuf {
    pub closed spec fn wf(&self) -> bool {
        self.slots.wf()
    }

    pub closed spec fn used(&self) -> Set<int> {
        self.slots.used()
    }

    pub closed spec fn count(&self) -> nat {
        self.slots.capacity()
    }

    /// The released slots, most recent last.
    pub closed spec fn free_ids(&self) -> Seq<usize> {
        self.slots.free_ids()
    }

    pub fn new(count: usize) -> (r: Self)
        requires
            count + 63 <= usize::MAX,
        ensures
            r.wf(),
            r.count() == count,
            r.used() == Set::<int>::empty(),
    {
        StoreBuf { slots: BitMap::new(count) }
    }

    /// The used slots are finite and number at most the slot count; they are all
    /// the slots exactly when they number the slot count.
    pub proof fn lemma_exhaustion(&self)
        requires
            self.wf(),
        ensures
            self.used().finite(),
            self.used().len() <= self.count(),
            self.used() == Set::new(|j: int| 0 <= j < self.count()) <==> self.used().len()
                == self.count(),
    {
        self.slots.lemma_exhaustion();
    }

    /// Takes a free store slot. Fails when every slot is in use.
    pub fn alloc_slot(&mut self) -> (r: Result<u32, GfxError>)
        requires
            old(self).wf(),
            old(self).count() <= u32::MAX + 1,
        ensures
            final(self).wf(),
            final(self).count() == old(self).count(),
            r is Err <==> old(self).used() == Set::new(|j: int| 0 <= j < old(self).count()),
            r is Err ==> r == Err::<u32, GfxError>(GfxError::OutOfSpace) && final(self).used()
                == old(self).used(),
            r matches Ok(h) ==> !old(self).used().contains(h as int) && final(self).used() == old(self).used().insert(h as int),
            r matches Ok(h) ==> old(self).free_ids().len() > 0 ==> h as int == old(self).free_ids().last() as int,
            r matches Ok(h) ==> old(self).free_ids().len() == 0 ==> forall|j: int|
                0 <= j < h ==> old(self).used().contains(j),
    {
        match self.slots.set_any() {
            Some(i) => Ok(i as u32),
            None => Err(GfxError::OutOfSpace),
        }
    }

    /// Gives back the store slot `hnd`.
    pub fn free(&mut self, hnd: u32)
        requires
            old(self).wf(),
            old(self).used().contains(hnd as int),
        ensures
            final(self).wf(),
            final(self).count() == old(self).count(),
            final(self).used() == old(self).used().remove(hnd as int),
    {
        self.slots.unset(hnd as usize);
    }
}

/// The per-instance record of a batch: world transform, blend factor, texture.
#[derive(Clone, Copy, Debug)]
pub struct Inst<X, B> {
    pub world: X,
    pub blend: B,
    pub tex: u32,
}

/// The instances drawn with one mesh in a pass, and the store slot they go to.
pub struct MeshBatch<X, B> {
    pub hnd: u32,
    pub store: u32,
    pub insts: Vec<Inst<X, B>>,
}

/// One instanced draw: the instances of a batch over its mesh's index region.
#[derive(Clone, Copy, Debug, PartialEq, Eq, Structural)]
pub struct DrawCall {
    pub mesh: u32,
    pub store: u32,
    pub instances: usize,
    pub index_count: usize,
    pub index_offset: usize,
    pub base_vertex: usize,
}

/// The instance records that `items` add to the batch of mesh `h`, in order.
pub open spec fn mesh_insts<X, B>(items: Seq<(X, Drawable<B>)>, h: u32) -> Seq<Inst<X, B>>
    decreases items.len(),
{
    if items.len() == 0 {
        Seq::empty()
    } else {
        let rest = mesh_insts(items.drop_last(), h);
        match items.last().1 {
            Drawable::Mesh { hnd, tex, blend } => if hnd == h {
                rest.push(Inst { world: items.last().0, blend, tex })
            } else {
                rest
            },
            Drawable::Empty => rest,
        }
    }
}

/// Whether some batch is for mesh `h`.
pub open spec fn has_batch<X, B>(batches: Seq<MeshBatch<X, B>>, h: u32) -> bool {
    exists|j: int| 0 <= j < batches.len() && (#[trigger] batches[j]).hnd == h
}

/// The instances of the batch for mesh `h`, or none when there is no such batch.
pub open spec fn insts_of<X, B>(batches: Seq<MeshBatch<X, B>>, h: u32) -> Seq<Inst<X, B>> {
    if has_batch(batches, h) {
        let j = choose|j: int| 0 <= j < batches.len() && (#[trigger] batches[j]).hnd == h;
        batches[j].insts@
    } else {
        Seq::empty()
    }
}

pub open spec fn sorted<X, B>(batches: Seq<MeshBatch<X, B>>) -> bool {
    forall|i: int, j: int| 0 <= i < j < batches.len() ==> batches[i].hnd < batches[j].hnd
}

proof fn lemma_insert_at<T>(s: Seq<T>, i: int, x: T)
    requires
        0 <= i <= s.len(),
    ensures
        s.insert(i, x).len() == s.len() + 1,
        s.insert(i, x)[i] == x,
        forall|j: int| 0 <= j < i ==> #[trigger] s.insert(i, x)[j] == s[j],
        forall|j: int| i < j <= s.len() ==> #[trigger] s.insert(i, x)[j] == s[j - 1],
{
}

/// In handle order, the batch at `j` is the batch of its mesh.
proof fn lemma_insts_of_at<X, B>(b: Seq<MeshBatch<X, B>>, j: int)
    requires
        sorted(b),
        0 <= j < b.len(),
    ensures
        has_batch(b, b[j].hnd),
        insts_of(b, b[j].hnd) == b[j].insts@,
{
    assert(b[j].hnd == b[j].hnd);
    let j2 = choose|j2: int| 0 <= j2 < b.len() && (#[trigger] b[j2]).hnd == b[j].hnd;
    if j2 < j {
        assert(b[j2].hnd < b[j].hnd);
    } else if j2 > j {
        assert(b[j].hnd < b[j2].hnd);
    }
}

/// Pushing `inst` onto the batch of mesh `h`, found or inserted by
/// `find_mesh_batch`, adds `inst` to that mesh's instances and to no other.
proof fn lemma_batches_after_push<X, B>(
    pre: Seq<MeshBatch<X, B>>,
    mid: Seq<MeshBatch<X, B>>,
    post: Seq<MeshBatch<X, B>>,
    i: int,
    h: u32,
    inst: Inst<X, B>,
)
    requires
        sorted(pre),
        sorted(mid),
        0 <= i < mid.len(),
        mid[i].hnd == h,
        has_batch(pre, h) ==> mid == pre,
        !has_batch(pre, h) ==> mid == pre.insert(i, mid[i]) && mid[i].insts@.len() == 0 && i
            <= pre.len(),
        post.len() == mid.len(),
        post[i].hnd == h,
        post[i].insts@ == mid[i].insts@.push(inst),
        forall|j: int| 0 <= j < post.len() && j != i ==> post[j] == mid[j],
    ensures
        sorted(post),
        forall|h2: u32|
            #![trigger insts_of(post, h2)]
            insts_of(post, h2) == insts_of(pre, h2) + if h2 == h {
                seq![inst]
            } else {
                Seq::empty()
            },
        forall|h2: u32|
            #![trigger has_batch(post, h2)]
            has_batch(post, h2) <==> (has_batch(pre, h2) || h2 == h),
{
    assert forall|a: int, c: int| 0 <= a < c < post.len() implies post[a].hnd < post[c].hnd by {
        assert(mid[a].hnd < mid[c].hnd);
    }
    if !has_batch(pre, h) {
        lemma_insert_at(pre, i, mid[i]);
        assert(i <= pre.len());
    }
    lemma_insts_of_at(post, i);
    lemma_insts_of_at(mid, i);
    assert forall|h2: u32| #![trigger has_batch(post, h2)] has_batch(post, h2) <==> (has_batch(pre, h2) || h2 == h) by {
        if has_batch(post, h2) && h2 != h {
            let j = choose|j: int| 0 <= j < post.len() && (#[trigger] post[j]).hnd == h2;
            assert(post[j] == mid[j]);
            if !has_batch(pre, h) {
                if j < i {
                    assert(pre[j] == mid[j]);
                } else {
                    assert(pre[j - 1] == mid[j]);
                }
            }
        }
        if has_batch(pre, h2) && h2 != h {
            let j = choose|j: int| 0 <= j < pre.len() && (#[trigger] pre[j]).hnd == h2;
            let jm = if has_batch(pre, h) || j < i { j } else { j + 1 };
            assert(mid[jm] == pre[j]);
            assert(post[jm] == mid[jm]);
        }
    }
    assert forall|h2: u32| #![trigger insts_of(post, h2)] insts_of(post, h2) == insts_of(pre, h2) + if h2 == h {
        seq![inst]
    } else {
        Seq::empty()
    } by {
        if h2 == h {
            if has_batch(pre, h) {
                lemma_insts_of_at(pre, i);
            }
            assert(mid[i].insts@.push(inst) =~= insts_of(pre, h) + seq![inst]);
        } else if has_batch(post, h2) {
            let j = choose|j: int| 0 <= j < post.len() && (#[trigger] post[j]).hnd == h2;
            lemma_insts_of_at(post, j);
            assert(post[j] == mid[j]);
            let jp = if has_batch(pre, h) || j < i { j } else { j - 1 };
            assert(pre[jp] == mid[j]);
            lemma_insts_of_at(pre, jp);
            assert(insts_of(pre, h2) + Seq::<Inst<X, B>>::empty() =~= insts_of(pre, h2));
        } else {
            assert(!has_batch(pre, h2));
            assert(Seq::<Inst<X, B>>::empty() + Seq::<Inst<X, B>>::empty() =~= Seq::<Inst<X, B>>::empty());
        }
    }
}

/// The batches `after` hold what `before` held plus the instances of the first
/// `k` items.
pub open spec fn drawn_upto<X, B>(
    before: Seq<MeshBatch<X, B>>,
    after: Seq<MeshBatch<X, B>>,
    items: Seq<(X, Drawable<B>)>,
    k: int,
) -> bool {
    &&& 0 <= k <= items.len()
    &&& forall|h: u32|
        #![trigger insts_of(after, h)]
        insts_of(after, h) == insts_of(before, h) + mesh_insts(items.take(k), h)
    &&& forall|h: u32|
        #![trigger has_batch(after, h)]
        has_batch(after, h) <==> (has_batch(before, h) || mesh_insts(items.take(k), h).len() > 0)
}

/// Why `draw` stops at `item` with error `e`, given the batches it has built so
/// far: the mesh's batch is full (`StoreOverflow`), or the mesh has no batch and
/// every store slot is taken (`OutOfSpace`).
pub open spec fn fails_on<X, B>(
    batches: Seq<MeshBatch<X, B>>,
    width: nat,
    count: nat,
    item: (X, Drawable<B>),
    e: GfxError,
) -> bool {
    match item.1 {
        Drawable::Mesh { hnd, .. } => (e == GfxError::StoreOverflow && insts_of(batches, hnd).len()
            >= width && (has_batch(batches, hnd) || width == 0)) || (e == GfxError::OutOfSpace
            && !has_batch(batches, hnd) && batches.len() == count && width > 0),
        Drawable::Empty => false,
    }
}

/// The instances of mesh `h` from a prefix of `items` are no more than those of
/// all of `items`.
proof fn lemma_mesh_insts_prefix<X, B>(items: Seq<(X, Drawable<B>)>, k: int, h: u32)
    requires
        0 <= k <= items.len(),
    ensures
        mesh_insts(items.take(k), h).len() <= mesh_insts(items, h).len(),
    decreases items.len() - k,
{
    if k < items.len() {
        lemma_mesh_insts_prefix(items, k + 1, h);
        assert(items.take(k + 1).drop_last() =~= items.take(k));
    } else {
        assert(items.take(k) =~= items);
    }
}

/// The graphics core: the vertex and index buffers, the texture array, the
/// instance store, the mesh registry and the batches of the current pass.
pub struct Gfx<V, X, B> {
    vbo: Buf<V>,
    ibo: Buf<u32>,
    tbo: TexBuf,
    sbo: StoreBuf,
    meshes: Vec<(u32, u32)>,
    batches: Vec<MeshBatch<X, B>>,
    store_width: usize,
}

/// How the graphics core is sized.
#[derive(Clone, Copy)]
pub struct Settings {
    pub screen_size: crate::math::UV2,
    /// Vertex buffer capacity, in vertices.
    pub vtx_buffer_size: usize,
    /// Index buffer capacity, in indices.
    pub idx_buffer_size: usize,
    /// The side of a texture layer, in pixels.
    pub tex_dim: usize,
    /// The number of texture layers.
    pub tex_count: usize,
    /// The number of instance store slots.
    pub store_count: usize,
    /// The number of instances one store slot holds.
    pub store_width: usize,
}

impl<V, X: Copy, B: Copy> Gfx<V, X, B> {
    pub closed spec fn mesh_list(&self) -> Seq<(u32, u32)> {
        self.meshes@
    }

    pub closed spec fn batch_list(&self) -> Seq<MeshBatch<X, B>> {
        self.batches@
    }

    pub closed spec fn width(&self) -> nat {
        self.store_width as nat
    }

    pub closed spec fn stores(&self) -> Set<int> {
        self.sbo.used()
    }

    pub closed spec fn store_count(&self) -> nat {
        self.sbo.count()
    }

    pub closed spec fn texture_count(&self) -> nat {
        self.tbo.count()
    }

    pub closed spec fn tex_side(&self) -> usize {
        self.tbo.side()
    }

    pub closed spec fn textures(&self) -> Set<int> {
        self.tbo.used()
    }

    pub closed spec fn vertex_region(&self, m: int) -> MetaAlloc {
        self.vbo.inner.region(self.meshes@[m].0 as int)
    }

    pub closed spec fn index_region(&self, m: int) -> MetaAlloc {
        self.ibo.inner.region(self.meshes@[m].1 as int)
    }

    /// Whether the vertex buffer has a block of `n` bytes and a handle for it.
    pub closed spec fn vertex_fits(&self, n: int) -> bool {
        self.vbo.inner.can_fit(n) && self.vbo.inner.has_room()
    }

    /// Whether the index buffer has a block of `n` bytes and a handle for it.
    pub closed spec fn index_fits(&self, n: int) -> bool {
        self.ibo.inner.can_fit(n) && self.ibo.inner.has_room()
    }

    /// The length of the vertex block that a request of `n` bytes gets.
    pub closed spec fn vertex_block(&self, n: int) -> int {
        block_len(order_for(self.vbo.inner.min_ord(), n))
    }

    /// The length of the index block that a request of `n` bytes gets.
    pub closed spec fn index_block(&self, n: int) -> int {
        block_len(order_for(self.ibo.inner.min_ord(), n))
    }

    /// The length of the vertex buffer in bytes.
    pub closed spec fn vertex_bytes(&self) -> int {
        self.vbo.inner.capacity()
    }

    /// The length of the index buffer in bytes.
    pub closed spec fn index_bytes(&self) -> int {
        self.ibo.inner.capacity()
    }

    /// The released texture layers, most recent last.
    pub closed spec fn tex_free_ids(&self) -> Seq<usize> {
        self.tbo.free_ids()
    }

    pub closed spec fn wf(&self) -> bool {
        &&& self.vbo.inner.wf()
        &&& self.ibo.inner.wf()
        &&& self.tbo.wf()
        &&& self.sbo.wf()
        &&& self.tbo.count() <= u32::MAX + 1
        &&& self.sbo.count() <= u32::MAX + 1
        &&& self.meshes@.len() <= u32::MAX
        &&& vstd::layout::size_of::<V>() > 0
        &&& forall|m: int|
            0 <= m < self.meshes@.len() ==> self.vbo.inner.live((#[trigger] self.meshes@[m]).0 as int)
                && self.ibo.inner.live(self.meshes@[m].1 as int)
        &&& sorted(self.batches@)
        &&& forall|j: int|
            0 <= j < self.batches@.len() ==> (#[trigger] self.batches@[j]).hnd < self.meshes@.len()
                && self.batches@[j].insts@.len() <= self.store_width && self.sbo.used().contains(
                self.batches@[j].store as int,
            )
        &&& forall|i: int, j: int|
            0 <= i < j < self.batches@.len() ==> self.batches@[i].store != self.batches@[j].store
        &&& self.sbo.used().len() == self.batches@.len()
        &&& forall|m1: int, m2: int|
            0 <= m1 < self.meshes@.len() && 0 <= m2 < self.meshes@.len() && m1 != m2 ==> (
            #[trigger] self.meshes@[m1]).0 != (#[trigger] self.meshes@[m2]).0 && self.meshes@[m1].1
                != self.meshes@[m2].1
    }

    /// There are never more batches than store slots.
    pub proof fn lemma_batch_count(&self)
        requires
            self.wf(),
        ensures
            self.batch_list().len() <= self.store_count(),
    {
        self.sbo.lemma_exhaustion();
    }

    /// The regions of two different meshes do not overlap, in either buffer.
    pub proof fn lemma_mesh_regions_disjoint(&self, m1: int, m2: int)
        requires
            self.wf(),
            0 <= m1 < self.mesh_list().len(),
            0 <= m2 < self.mesh_list().len(),
            m1 != m2,
        ensures
            self.vertex_region(m1).range.end <= self.vertex_region(m2).range.start
                || self.vertex_region(m2).range.end <= self.vertex_region(m1).range.start,
            self.index_region(m1).range.end <= self.index_region(m2).range.start
                || self.index_region(m2).range.end <= self.index_region(m1).range.start,
    {
        assert(self.meshes@[m1].0 != self.meshes@[m2].0 && self.meshes@[m1].1 != self.meshes@[m2].1);
        assert(self.vbo.inner.live(self.meshes@[m1].0 as int));
        assert(self.vbo.inner.live(self.meshes@[m2].0 as int));
        self.vbo.inner.lemma_regions_disjoint(self.meshes@[m1].0 as int, self.meshes@[m2].0 as int);
        self.ibo.inner.lemma_regions_disjoint(self.meshes@[m1].1 as int, self.meshes@[m2].1 as int);
    }

    /// The regions of a mesh lie inside their buffers.
    pub proof fn lemma_mesh_regions_inside(&self, m: int)
        requires
            self.wf(),
            0 <= m < self.mesh_list().len(),
        ensures
            self.vertex_region(m).range.start <= self.vertex_region(m).range.end
                <= self.vertex_bytes(),
            self.index_region(m).range.start <= self.index_region(m).range.end
                <= self.index_bytes(),
    {
        assert(self.vbo.inner.live(self.meshes@[m].0 as int));
        self.vbo.inner.lemma_region_inside(self.meshes@[m].0 as int);
        self.ibo.inner.lemma_region_inside(self.meshes@[m].1 as int);
    }

    /// A core sized by `settings`, with no mesh, texture or batch.
    pub fn new(settings: &Settings) -> (r: Self)
        requires
            settings.vtx_buffer_size * vstd::layout::size_of::<V>() <= usize::MAX / 2 + 1,
            settings.idx_buffer_size * 4 <= usize::MAX / 2 + 1,
            settings.tex_count <= u32::MAX + 1,
            settings.store_count <= u32::MAX + 1,
            vstd::layout::size_of::<u32>() == 4,
            vstd::layout::size_of::<V>() > 0,
            settings.tex_count + 63 <= usize::MAX,
            settings.store_count + 63 <= usize::MAX,
        ensures
            r.wf(),
            r.mesh_list().len() == 0,
            r.batch_list().len() == 0,
            r.width() == settings.store_width,
            r.store_count() == settings.store_count,
            r.stores() == Set::<int>::empty(),
            r.textures() == Set::<int>::empty(),
    {
        Gfx {
            vbo: Buf::new(settings.vtx_buffer_size),
            ibo: Buf::new(settings.idx_buffer_size),
            tbo: TexBuf::new(settings.tex_dim, settings.tex_count),
            sbo: StoreBuf::new(settings.store_count),
            meshes: Vec::new(),
            batches: Vec::new(),
            store_width: settings.store_width,
        }
    }

    /// Registers a mesh of `verts` vertices and `idxs` indices: one vertex region
    /// and one index region. The handles count up from 0. Fails, keeping nothing,
    /// when either buffer has no room.
    pub fn mesh_alloc(&mut self, verts: usize, idxs: usize) -> (r: Result<u32, GfxError>)
        requires
            old(self).wf(),
            verts * vstd::layout::size_of::<V>() <= usize::MAX,
            idxs * vstd::layout::size_of::<u32>() <= usize::MAX,
        ensures
            final(self).wf(),
            final(self).batch_list() == old(self).batch_list(),
            r is Ok <==> old(self).mesh_list().len() < u32::MAX && old(self).vertex_fits(
                verts * vstd::layout::size_of::<V>(),
            ) && old(self).index_fits(idxs * vstd::layout::size_of::<u32>()),
            r is Err ==> r == Err::<u32, GfxError>(GfxError::OutOfSpace) && final(self).mesh_list()
                == old(self).mesh_list(),
            r matches Ok(h) ==> h == old(self).mesh_list().len() && final(self).mesh_list().len()
                == h + 1 && final(self).mesh_list().take(h as int) == old(self).mesh_list(),
            r matches Ok(h) ==> final(self).vertex_region(h as int).range.end - final(self).vertex_region(h as int).range.start
                == old(self).vertex_block(verts * vstd::layout::size_of::<V>()),
            r matches Ok(h) ==> final(self).index_region(h as int).range.end - final(self).index_region(h as int).range.start
                == old(self).index_block(idxs * vstd::layout::size_of::<u32>()),
            forall|m: int|
                0 <= m < old(self).mesh_list().len() ==> #[trigger] final(self).vertex_region(m)
                    == old(self).vertex_region(m) && final(self).index_region(m) == old(self).index_region(m),
            final(self).vertex_bytes() == old(self).vertex_bytes(),
            final(self).index_bytes() == old(self).index_bytes(),
    {
        if self.meshes.len() >= u32::MAX as usize {
            return Err(GfxError::OutOfSpace);
        }
        let vhnd = match self.vbo.alloc_items(verts) {
            Ok(h) => h,
            Err(e) => {
                return Err(e);
            },
        };
        let ihnd = match self.ibo.alloc_items(idxs) {
            Ok(h) => h,
            Err(e) => {
                self.vbo.inner.free_region(vhnd);
                proof {
                    assert forall|m: int| 0 <= m < self.meshes@.len() implies self.vbo.inner.live(
                        (#[trigger] self.meshes@[m]).0 as int,
                    ) && self.vbo.inner.region(self.meshes@[m].0 as int) == old(self).vbo.inner.region(
                        self.meshes@[m].0 as int,
                    ) by {
                        assert(old(self).vbo.inner.live(self.meshes@[m].0 as int));
                    }
                }
                return Err(e);
            },
        };
        let hnd = self.meshes.len() as u32;
        self.meshes.push((vhnd, ihnd));
        proof {
            assert(self.meshes@.take(hnd as int) =~= old(self).meshes@);
            assert forall|m: int| 0 <= m < old(self).meshes@.len() implies self.meshes@[m] == old(self).meshes@[m]
                && self.vbo.inner.region(self.meshes@[m].0 as int) == old(self).vbo.inner.region(old(self).meshes@[m].0 as int)
                && self.ibo.inner.region(self.meshes@[m].1 as int) == old(self).ibo.inner.region(old(self).meshes@[m].1 as int) by {
                assert(old(self).vbo.inner.live(old(self).meshes@[m].0 as int));
                assert(old(self).ibo.inner.live(old(self).meshes@[m].1 as int));
            }
            assert forall|m1: int, m2: int|
                0 <= m1 < self.meshes@.len() && 0 <= m2 < self.meshes@.len() && m1 != m2 implies (
                #[trigger] self.meshes@[m1]).0 != (#[trigger] self.meshes@[m2]).0 && self.meshes@[m1].1
                    != self.meshes@[m2].1 by {
                if m1 < hnd {
                    assert(old(self).vbo.inner.live(old(self).meshes@[m1].0 as int));
                    assert(old(self).ibo.inner.live(old(self).meshes@[m1].1 as int));
                }
                if m2 < hnd {
                    assert(old(self).vbo.inner.live(old(self).meshes@[m2].0 as int));
                    assert(old(self).ibo.inner.live(old(self).meshes@[m2].1 as int));
                }
            }
            assert forall|m: int| 0 <= m < self.meshes@.len() implies self.vbo.inner.live(
                (#[trigger] self.meshes@[m]).0 as int,
            ) && self.ibo.inner.live(self.meshes@[m].1 as int) by {
                if m < hnd {
                    assert(self.meshes@[m] == old(self).meshes@[m]);
                    assert(old(self).vbo.inner.live(old(self).meshes@[m].0 as int));
                }
            }
        }
        Ok(hnd)
    }

    /// Write scopes on the vertex and index regions of mesh `hnd`.
    pub fn mesh_map(&self, hnd: u32) -> (r: (BufMap<V>, BufMap<u32>))
        requires
            self.wf(),
            hnd < self.mesh_list().len(),
        ensures
            r.0.offset == self.vertex_region(hnd as int).range.start,
            r.0.len == self.vertex_region(hnd as int).range.end - self.vertex_region(
                hnd as int,
            ).range.start,
            r.1.offset == self.index_region(hnd as int).range.start,
            r.1.len == self.index_region(hnd as int).range.end - self.index_region(
                hnd as int,
            ).range.start,
    {
        let (vhnd, ihnd) = self.meshes[hnd as usize];
        proof {
            assert(self.vbo.inner.live(self.meshes@[hnd as int].0 as int));
        }
        (self.vbo.map(vhnd), self.ibo.map(ihnd))
    }

    /// Takes a free texture layer. Fails when every layer is in use.
    pub fn tex_alloc(&mut self) -> (r: Result<u32, GfxError>)
        requires
            old(self).wf(),
        ensures
            final(self).wf(),
            final(self).mesh_list() == old(self).mesh_list(),
            final(self).batch_list() == old(self).batch_list(),
            r is Err <==> old(self).textures() == Set::new(|j: int| 0 <= j < old(self).texture_count()),
            r is Err ==> r == Err::<u32, GfxError>(GfxError::OutOfSpace),
            r matches Ok(h) ==> !old(self).textures().contains(h as int) && final(self).textures()
                == old(self).textures().insert(h as int),
            r matches Ok(h) ==> old(self).tex_free_ids().len() > 0 ==> h as int == old(self).tex_free_ids().last() as int,
            r matches Ok(h) ==> old(self).tex_free_ids().len() == 0 ==> forall|j: int|
                0 <= j < h ==> old(self).textures().contains(j),
    {
        self.tbo.alloc_slot()
    }

    /// A write scope on texture layer `hnd`.
    pub fn tex_map(&self, hnd: u32) -> (r: TexMap)
        ensures
            r.hnd == hnd,
            r.dim == self.tex_side(),
    {
        TexMap { hnd, dim: self.tbo.dim }
    }

    /// The index of the batch for mesh `hnd`, inserted in handle order with a
    /// store slot of its own when there is none yet. Fails when a new batch is
    /// needed and every store slot is in use.
    pub fn find_mesh_batch(&mut self, hnd: u32) -> (r: Result<usize, GfxError>)
        requires
            old(self).wf(),
            hnd < old(self).mesh_list().len(),
        ensures
            final(self).wf(),
            final(self).mesh_list() == old(self).mesh_list(),
            final(self).width() == old(self).width(),
            final(self).store_count() == old(self).store_count(),
            has_batch(old(self).batch_list(), hnd) ==> r is Ok && final(self).batch_list() == old(self).batch_list(),
            r is Err ==> r == Err::<usize, GfxError>(GfxError::OutOfSpace) && final(self).batch_list() == old(self).batch_list(),
            r is Err <==> !has_batch(old(self).batch_list(), hnd) && old(self).batch_list().len()
                == old(self).store_count(),
            r matches Ok(i) ==> {
                &&& i < final(self).batch_list().len()
                &&& i <= old(self).batch_list().len()
                &&& final(self).batch_list()[i as int].hnd == hnd
                &&& !has_batch(old(self).batch_list(), hnd) ==> {
                    &&& final(self).batch_list() == old(self).batch_list().insert(
                        i as int,
                        final(self).batch_list()[i as int],
                    )
                    &&& final(self).batch_list()[i as int].insts@.len() == 0
                }
            },
    {
        let n = self.batches.len();
        let mut lo: usize = 0;
        let mut hi: usize = n;
        while lo < hi
            invariant
                n == self.batches@.len(),
                self.wf(),
                self.batches@ == old(self).batches@,
                lo <= hi <= n,
                forall|j: int| 0 <= j < lo ==> (#[trigger] self.batches@[j]).hnd < hnd,
                forall|j: int| hi <= j < n ==> (#[trigger] self.batches@[j]).hnd > hnd,
            decreases hi - lo,
        {
            let mid = lo + (hi - lo) / 2;
            let h = self.batches[mid].hnd;
            if h == hnd {
                return Ok(mid);
            } else if h < hnd {
                lo = mid + 1;
            } else {
                hi = mid;
            }
        }
        proof {
            if has_batch(self.batches@, hnd) {
                let j = choose|j: int| 0 <= j < self.batches@.len() && (#[trigger] self.batches@[j]).hnd == hnd;
                assert(false);
            }
        }
        proof {
            self.sbo.lemma_exhaustion();
        }
        let store = match self.sbo.alloc_slot() {
            Ok(s) => s,
            Err(e) => {
                return Err(e);
            },
        };
        self.batches.insert(lo, MeshBatch { hnd, store, insts: Vec::new() });
        proof {
            assert(self.sbo.used().len() == self.batches@.len());
            let b = self.batches@;
            let o = old(self).batches@;
            assert forall|i: int, j: int| 0 <= i < j < b.len() implies b[i].hnd < b[j].hnd by {
                if j < lo {
                } else if i > lo {
                    assert(b[i] == o[i - 1] && b[j] == o[j - 1]);
                } else if i == lo {
                    assert(b[j] == o[j - 1]);
                } else if j == lo {
                    assert(b[i] == o[i]);
                } else {
                    assert(b[i] == o[i] && b[j] == o[j - 1]);
                }
            }
            assert forall|j: int| 0 <= j < b.len() implies (#[trigger] b[j]).hnd < self.meshes@.len()
                && b[j].insts@.len() <= self.store_width && self.sbo.used().contains(
                b[j].store as int,
            ) by {
                if j < lo {
                    assert(b[j] == o[j]);
                } else if j > lo {
                    assert(b[j] == o[j - 1]);
                }
            }
            assert forall|i: int, j: int| 0 <= i < j < b.len() implies b[i].store != b[j].store by {
                let si = if i < lo { i } else if i > lo { i - 1 } else { -1 };
                let sj = if j < lo { j } else if j > lo { j - 1 } else { -1 };
                if si >= 0 {
                    assert(b[i] == o[si]);
                }
                if sj >= 0 {
                    assert(b[j] == o[sj]);
                }
            }
        }
        Ok(lo)
    }

    /// The draw of one batch: its instances over the whole index region of its
    /// mesh, with the vertex region's start as the base vertex.
    pub open spec fn call_of(&self, b: MeshBatch<X, B>) -> DrawCall {
        let v = self.vertex_region(b.hnd as int);
        let i = self.index_region(b.hnd as int);
        DrawCall {
            mesh: b.hnd,
            store: b.store,
            instances: b.insts@.len() as usize,
            index_count: ((i.range.end - i.range.start) as int / 4) as usize,
            index_offset: i.range.start,
            base_vertex: (v.range.start as int / vstd::layout::size_of::<V>() as int) as usize,
        }
    }

    /// The draws of the first `k` batches, skipping empty ones, in handle order.
    pub open spec fn calls_upto(&self, k: int) -> Seq<DrawCall>
        decreases k,
    {
        if k <= 0 {
            Seq::empty()
        } else {
            let rest = self.calls_upto(k - 1);
            let b = self.batch_list()[k - 1];
            if b.insts@.len() > 0 {
                rest.push(self.call_of(b))
            } else {
                rest
            }
        }
    }

    /// One instanced draw for each batch that holds instances, in mesh handle
    /// order.
    pub fn draw_calls(&self) -> (r: Vec<DrawCall>)
        requires
            self.wf(),
            vstd::layout::size_of::<u32>() == 4,
        ensures
            r@ == self.calls_upto(self.batch_list().len() as int),
    {
        let mut r: Vec<DrawCall> = Vec::new();
        let n = self.batches.len();
        let vsize = std::mem::size_of::<V>();
        let mut k: usize = 0;
        while k < n
            invariant
                n == self.batches@.len(),
                k <= n,
                self.wf(),
                vsize == vstd::layout::size_of::<V>(),
                r@ == self.calls_upto(k as int),
            decreases n - k,
        {
            let b = &self.batches[k];
            if b.insts.len() > 0 {
                let (vh, ih) = self.meshes[b.hnd as usize];
                proof {
                    assert(self.batches@[k as int].hnd < self.meshes@.len());
                    assert(self.vbo.inner.live(self.meshes@[b.hnd as int].0 as int));
                }
                let (vstart, _vend) = self.vbo.inner.range_of(vh);
                let (istart, iend) = self.ibo.inner.range_of(ih);
                r.push(
                    DrawCall {
                        mesh: b.hnd,
                        store: b.store,
                        instances: b.insts.len(),
                        index_count: (iend - istart) / 4,
                        index_offset: istart,
                        base_vertex: vstart / vsize,
                    },
                );
            }
            k += 1;
        }
        r
    }

    /// The instances of batch `i`, for the upload into its store slot.
    pub fn batch(&self, i: usize) -> (r: &MeshBatch<X, B>)
        requires
            i < self.batch_list().len(),
        ensures
            *r == self.batch_list()[i as int],
    {
        &self.batches[i]
    }

    /// Empties every batch for the next pass; each keeps its mesh and store slot.
    pub fn clear_batches(&mut self)
        requires
            old(self).wf(),
        ensures
            final(self).wf(),
            final(self).mesh_list() == old(self).mesh_list(),
            final(self).batch_list().len() == old(self).batch_list().len(),
            forall|j: int|
                0 <= j < final(self).batch_list().len() ==> {
                    &&& (#[trigger] final(self).batch_list()[j]).hnd == old(self).batch_list()[j].hnd
                    &&& final(self).batch_list()[j].store == old(self).batch_list()[j].store
                    &&& final(self).batch_list()[j].insts@.len() == 0
                },
    {
        let n = self.batches.len();
        let mut k: usize = 0;
        while k < n
            invariant
                n == self.batches@.len(),
                k <= n,
                self.wf(),
                self.meshes@ == old(self).meshes@,
                forall|j: int|
                    0 <= j < n ==> {
                        &&& (#[trigger] self.batches@[j]).hnd == old(self).batches@[j].hnd
                        &&& self.batches@[j].store == old(self).batches@[j].store
                        &&& j < k ==> self.batches@[j].insts@.len() == 0
                    },
            decreases n - k,
        {
            let ghost pre = self.batches@;
            let mut batch = self.batches.remove(k);
            batch.insts.clear();
            self.batches.insert(k, batch);
            proof {
                let post = self.batches@;
                assert forall|j: int| 0 <= j < n && j != k implies post[j] == pre[j] by {
                    if j < k {
                        assert(post[j] == pre.remove(k as int)[j]);
                    } else {
                        assert(post[j] == pre.remove(k as int)[j - 1]);
                    }
                }
                assert forall|a: int, c: int| 0 <= a < c < post.len() implies post[a].hnd < post[c].hnd by {
                    assert(pre[a].hnd < pre[c].hnd);
                }
                assert forall|a: int, c: int| 0 <= a < c < post.len() implies post[a].store != post[c].store by {
                    assert(pre[a].store != pre[c].store);
                }
                assert forall|j: int| 0 <= j < post.len() implies (#[trigger] post[j]).hnd
                    < self.meshes@.len() && post[j].insts@.len() <= self.store_width
                    && self.sbo.used().contains(post[j].store as int) by {
                    if j != k {
                        assert(post[j] == pre[j]);
                    }
                }
            }
            k += 1;
        }
    }

    /// Adds one instance record for each item that draws a mesh to the batch of
    /// that mesh, item by item. It stops at the first item whose batch is already
    /// full (`StoreOverflow`), or that needs a new batch when every store slot is
    /// taken (`OutOfSpace`); the items before it stay added.
    pub fn draw(&mut self, items: &Vec<(X, Drawable<B>)>) -> (r: Result<(), GfxError>)
        requires
            old(self).wf(),
            forall|k: int|
                0 <= k < items@.len() ==> match (#[trigger] items@[k]).1 {
                    Drawable::Mesh { hnd, .. } => hnd < old(self).mesh_list().len(),
                    Drawable::Empty => true,
                },
        ensures
            final(self).wf(),
            final(self).mesh_list() == old(self).mesh_list(),
            final(self).width() == old(self).width(),
            final(self).store_count() == old(self).store_count(),
            exists|k: int|
                drawn_upto(old(self).batch_list(), final(self).batch_list(), items@, k) && (r is Ok
                    <==> k == items@.len()) && (r matches Err(e) ==> k < items@.len() && fails_on(
                    final(self).batch_list(),
                    old(self).width(),
                    old(self).store_count(),
                    items@[k],
                    e,
                )),
            (forall|h: u32|
                #![trigger mesh_insts(items@, h)]
                insts_of(old(self).batch_list(), h).len() + mesh_insts(items@, h).len() <= old(
                    self,
                ).width()) && old(self).batch_list().len() + items@.len() <= old(self).store_count()
                ==> r is Ok,
            r is Ok ==> drawn_upto(old(self).batch_list(), final(self).batch_list(), items@, items@.len() as int),
    {
        let n = items.len();
        let mut k: usize = 0;
        let ghost enough = (forall|h: u32|
            #![trigger mesh_insts(items@, h)]
            insts_of(old(self).batches@, h).len() + mesh_insts(items@, h).len() <= old(self).store_width)
            && old(self).batches@.len() + items@.len() <= old(self).sbo.count();
        while k < n
            invariant
                n == items@.len(),
                k <= n,
                self.wf(),
                self.meshes@ == old(self).meshes@,
                self.store_width == old(self).store_width,
                self.sbo.count() == old(self).sbo.count(),
                self.batches@.len() <= old(self).batches@.len() + k,
                enough == ((forall|h: u32|
                    #![trigger mesh_insts(items@, h)]
                    insts_of(old(self).batches@, h).len() + mesh_insts(items@, h).len() <= old(self).store_width)
                    && old(self).batches@.len() + items@.len() <= old(self).sbo.count()),
                forall|k2: int|
                    0 <= k2 < items@.len() ==> match (#[trigger] items@[k2]).1 {
                        Drawable::Mesh { hnd, .. } => hnd < self.meshes@.len(),
                        Drawable::Empty => true,
                    },
                drawn_upto(old(self).batches@, self.batches@, items@, k as int),
            decreases n - k,
        {
            let ghost pre = self.batches@;
            proof {
                assert(items@.take(k as int + 1).drop_last() =~= items@.take(k as int));
                assert(items@.take(k as int + 1).last() == items@[k as int]);
            }
            match &items[k].1 {
                Drawable::Empty => {
                    proof {
                        assert forall|h: u32| #![trigger insts_of(self.batches@, h)] insts_of(self.batches@, h)
                            == insts_of(old(self).batches@, h) + mesh_insts(items@.take(k as int + 1), h) by {
                            assert(mesh_insts(items@.take(k as int + 1), h) == mesh_insts(items@.take(k as int), h));
                        }
                        assert forall|h: u32| #![trigger has_batch(self.batches@, h)] has_batch(self.batches@, h) <==> (has_batch(old(self).batches@, h)
                            || mesh_insts(items@.take(k as int + 1), h).len() > 0) by {
                            assert(mesh_insts(items@.take(k as int + 1), h) == mesh_insts(items@.take(k as int), h));
                        }
                    }
                },
                Drawable::Mesh { hnd, tex, blend } => {
                    let ghost hh = *hnd;
                    proof {
                        assert(mesh_insts(items@.take(k as int + 1), hh).len() == mesh_insts(items@.take(k as int), hh).len() + 1);
                        lemma_mesh_insts_prefix(items@, k as int + 1, hh);
                    }
                    if self.store_width == 0 {
                        proof {
                            assert(fails_on(self.batches@, old(self).store_width as nat, old(self).sbo.count(), items@[k as int], GfxError::StoreOverflow));
                            assert(!enough);
                            assert(drawn_upto(old(self).batch_list(), self.batch_list(), items@, k as int));
                        }
                        return Err(GfxError::StoreOverflow);
                    }
                    let i = match self.find_mesh_batch(*hnd) {
                        Ok(i) => i,
                        Err(e) => {
                            proof {
                                assert(fails_on(self.batches@, old(self).store_width as nat, old(self).sbo.count(), items@[k as int], e));
                                assert(!enough);
                                assert(drawn_upto(old(self).batch_list(), self.batch_list(), items@, k as int));
                            }
                            return Err(e);
                        },
                    };
                    if self.batches[i].insts.len() >= self.store_width {
                        proof {
                            assert(has_batch(pre, hh));
                            assert(self.batches@ == pre);
                            lemma_insts_of_at(pre, i as int);
                            assert(fails_on(self.batches@, old(self).store_width as nat, old(self).sbo.count(), items@[k as int], GfxError::StoreOverflow));
                            assert(!enough);
                            assert(drawn_upto(old(self).batch_list(), self.batch_list(), items@, k as int));
                        }
                        return Err(GfxError::StoreOverflow);
                    }
                    let ghost mid = self.batches@;
                    let inst = Inst { world: items[k].0, blend: *blend, tex: *tex };
                    let mut batch = self.batches.remove(i);
                    batch.insts.push(inst);
                    self.batches.insert(i, batch);
                    proof {
                        let post = self.batches@;
                        assert forall|j: int| 0 <= j < post.len() && j != i implies post[j]
                            == mid[j] by {
                            if j < i {
                                assert(post[j] == mid.remove(i as int)[j]);
                            } else {
                                assert(post[j] == mid.remove(i as int)[j - 1]);
                            }
                        }
                        lemma_batches_after_push(pre, mid, post, i as int, hh, inst);
                        assert forall|j: int| 0 <= j < post.len() implies (#[trigger] post[j]).hnd
                            < self.meshes@.len() && post[j].insts@.len() <= self.store_width
                            && self.sbo.used().contains(post[j].store as int) by {
                            if j != i {
                                assert(post[j] == mid[j]);
                            }
                        }
                        assert forall|a: int, c: int| 0 <= a < c < post.len() implies post[a].store
                            != post[c].store by {
                            assert(mid[a].store != mid[c].store);
                        }
                        assert forall|h: u32| #![trigger insts_of(self.batches@, h)] insts_of(self.batches@, h)
                            == insts_of(old(self).batches@, h) + mesh_insts(items@.take(k as int + 1), h) by {
                            assert(insts_of(old(self).batches@, h) + mesh_insts(items@.take(k as int), h) + (if h == hh {
                                seq![inst]
                            } else {
                                Seq::empty()
                            }) =~= insts_of(old(self).batches@, h) + mesh_insts(items@.take(k as int + 1), h));
                        }
                        assert forall|h: u32| #![trigger has_batch(self.batches@, h)] has_batch(self.batches@, h) <==> (has_batch(old(self).batches@, h)
                            || mesh_insts(items@.take(k as int + 1), h).len() > 0) by {
                            assert(mesh_insts(items@.take(k as int + 1), hh).len() > 0);
                        }
                    }
                },
            }
            k += 1;
        }
        proof {
            assert(items@.take(n as int) =~= items@);
            assert(drawn_upto(old(self).batch_list(), self.batch_list(), items@, n as int));
        }
        Ok(())
    }
}

} // verus!
