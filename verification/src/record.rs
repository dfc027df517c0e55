//! The record decisions a cache store makes before it touches a texture,
//! and the pools it keeps between frames.

use std::sync::atomic::{AtomicU64, Ordering};
use vstd::prelude::*;

use crate::blur::DERIVED_IDLE_FRAMES;
use crate::size::PixelSize;

verus! {

/// Outcome of a record request.
#[derive(Debug, Clone, Copy, PartialEq, Eq, Structural)]
#[must_use]
pub enum Record {
    /// The content was rasterized and the texture now holds it.
    Fresh,
    /// The existing texture is still valid; nothing ran.
    Reused,
    /// The request exceeds the backend's limits: nothing was recorded and
    /// the caller draws its content in place.
    Uncacheable,
}

/// Software textures are capped per side.
pub const CPU_MAX_DIMENSION: u32 = 16_384;

/// And in bytes: 256 MiB of RGBA8.
pub const CPU_MAX_BYTES: u64 = 268_435_456;

/// Whether both sides of `size` are within `max_dimension`.
pub fn fits(size: PixelSize, max_dimension: u32) -> (fits: bool)
    ensures
        fits == (size.width <= max_dimension && size.height <= max_dimension),
{
    size.width <= max_dimension && size.height <= max_dimension
}

/// Whether a software texture of `size` is allowed: each side within
/// [`CPU_MAX_DIMENSION`] and the RGBA8 bytes within [`CPU_MAX_BYTES`].
pub fn fits_cpu(size: PixelSize) -> (fits: bool)
    ensures
        fits == (size.width <= CPU_MAX_DIMENSION && size.height <= CPU_MAX_DIMENSION
            && size.width as int * size.height as int * 4 <= CPU_MAX_BYTES),
{
    if !fits(size, CPU_MAX_DIMENSION) {
        return false;
    }
    assert(size.width as int * size.height as int <= 16384 * 16384) by (nonlinear_arith)
        requires
            size.width <= 16384,
            size.height <= 16384,
    ;
    (size.width as u64) * (size.height as u64) * 4 <= CPU_MAX_BYTES
}

/// Zero dimensions are clamped to one pixel.
pub fn clamp_size(size: PixelSize) -> (clamped: PixelSize)
    ensures
        clamped.width == if size.width == 0 { 1 } else { size.width },
        clamped.height == if size.height == 0 { 1 } else { size.height },
{
    PixelSize {
        width: if size.width == 0 { 1 } else { size.width },
        height: if size.height == 0 { 1 } else { size.height },
    }
}

/// Must the texture be (re)recorded? `existing` is the size of the last
/// record, if any, and whether it was made at the scale asked for now.
pub fn needs_record(existing: Option<(PixelSize, bool)>, size: PixelSize, invalidated: bool) -> (needed: bool)
    ensures
        needed == match existing {
            None => true,
            Some((recorded, same_scale)) => invalidated || recorded != size || !same_scale,
        },
{
    match existing {
        None => true,
        Some((recorded, same_scale)) => invalidated || recorded != size || !same_scale,
    }
}

/// What a record request comes to, before anything is drawn: a request
/// that does not fit is uncacheable; otherwise a texture that is missing,
/// invalidated, resized or rescaled is recorded fresh, and anything else is
/// reused.
pub fn record_decision(fits: bool, existing: Option<(PixelSize, bool)>, size: PixelSize, invalidated: bool) -> (decision: Record)
    ensures
        !fits ==> decision == Record::Uncacheable,
        fits ==> (decision == Record::Fresh <==> match existing {
            None => true,
            Some((recorded, same_scale)) => invalidated || recorded != size || !same_scale,
        }),
        fits ==> decision != Record::Uncacheable,
{
    if !fits {
        Record::Uncacheable
    } else if needs_record(existing, size, invalidated) {
        Record::Fresh
    } else {
        Record::Reused
    }
}

/// One more frame of idleness for something kept between frames, and
/// whether it is kept: only while its owner lives and for at most
/// [`DERIVED_IDLE_FRAMES`] frames unused.
pub fn age_idle(idle: u32, alive: bool) -> (aged: (u32, bool))
    requires
        idle < u32::MAX,
    ensures
        aged.0 == idle + 1,
        aged.1 == (alive && idle + 1 <= DERIVED_IDLE_FRAMES),
{
    let idle = idle + 1;
    (idle, alive && idle <= DERIVED_IDLE_FRAMES)
}

/// Must a derived texture be blurred afresh? Only when there is none yet,
/// or the one there was built from an earlier record of its source:
/// `existing` is the epoch it was built from, `source` the source's
/// current one.
pub fn needs_blur(existing: Option<u64>, source: u64) -> (needed: bool)
    ensures
        needed == match existing {
            None => true,
            Some(built) => built != source,
        },
{
    match existing {
        None => true,
        Some(built) => built != source,
    }
}

/// The next record epoch from `counter`, which the application keeps for
/// the whole process. Any thread may draw from `counter`, so nothing is
/// promised of the number beyond its type.
pub fn next_epoch(counter: &AtomicU64) -> u64 {
    counter.fetch_add(1, Ordering::Relaxed)
}

/// Nested renderers, one per nesting depth, reused across records.
pub struct Pool<R> {
    renderers: Vec<R>,
}

impl<R> Pool<R> {
    /// The renderers held, oldest first.
    pub closed spec fn view(&self) -> Seq<R> {
        self.renderers@
    }

    /// An empty pool.
    pub fn new() -> (pool: Self)
        ensures
            pool.view() == Seq::<R>::empty(),
    {
        Pool { renderers: Vec::new() }
    }

    /// The most recently returned renderer, if any; `None` asks the caller
    /// to create one (once per nesting level).
    pub fn take(&mut self) -> (taken: Option<R>)
        ensures
            old(self).view().len() == 0 ==> taken.is_none() && final(self).view() == old(self).view(),
            old(self).view().len() > 0 ==> taken == Some(old(self).view().last())
                && final(self).view() == old(self).view().drop_last(),
    {
        self.renderers.pop()
    }

    /// Gives a renderer back for the next record.
    pub fn return_renderer(&mut self, renderer: R)
        ensures
            final(self).view() == old(self).view().push(renderer),
    {
        self.renderers.push(renderer);
    }

    /// Renderers held.
    pub fn len(&self) -> (len: usize)
        ensures
            len == self.view().len(),
    {
        self.renderers.len()
    }
}

/// A renderer handed back is the next one taken.
pub proof fn lemma_pool_returns_last<R>(pool: Seq<R>, renderer: R)
    ensures
        pool.push(renderer).len() > 0,
        pool.push(renderer).last() == renderer,
        pool.push(renderer).drop_last() == pool,
{
    assert(pool.push(renderer).drop_last() =~= pool);
}

/// Something of `size` kept between frames, and for how many frames it has
/// gone unused.
pub struct IdleSlot<V> {
    /// The size it was made at.
    pub size: PixelSize,
    /// The thing itself.
    pub value: V,
    /// Frames since it was last handed out or given back.
    pub idle: u32,
}

/// `slots` after one more frame: every idle count one higher, and the slots
/// that have now gone unused for more than [`DERIVED_IDLE_FRAMES`] frames
/// dropped, the rest in their order.
pub open spec fn aged<V>(slots: Seq<IdleSlot<V>>) -> Seq<IdleSlot<V>>
    decreases slots.len(),
{
    if slots.len() == 0 {
        Seq::empty()
    } else {
        let rest = aged(slots.drop_last());
        let last = slots.last();
        if last.idle + 1 <= DERIVED_IDLE_FRAMES {
            rest.push(IdleSlot { size: last.size, value: last.value, idle: (last.idle + 1) as u32 })
        } else {
            rest
        }
    }
}

/// Whether some slot of `slots` below `end` has `size`.
pub open spec fn has_size<V>(slots: Seq<IdleSlot<V>>, size: PixelSize, end: int) -> bool {
    exists|k: int| 0 <= k < end && (#[trigger] slots[k]).size == size
}

/// Things of several sizes kept between frames in case the next frame
/// wants the same size, and released after [`DERIVED_IDLE_FRAMES`] frames
/// unused.
pub struct IdlePool<V> {
    slots: Vec<IdleSlot<V>>,
}

impl<V> IdlePool<V> {
    /// The slots held, in the order they were given back.
    pub closed spec fn view(&self) -> Seq<IdleSlot<V>> {
        self.slots@
    }

    /// Every slot has gone unused for at most [`DERIVED_IDLE_FRAMES`]
    /// frames.
    pub open spec fn wf(&self) -> bool {
        forall|k: int| 0 <= k < self.view().len() ==> (#[trigger] self.view()[k]).idle <= DERIVED_IDLE_FRAMES
    }

    /// An empty pool.
    pub fn new() -> (pool: Self)
        ensures
            pool.view() == Seq::<IdleSlot<V>>::empty(),
            pool.wf(),
    {
        IdlePool { slots: Vec::new() }
    }

    /// Something of exactly `size`, if one is kept: the one given back
    /// last, which leaves the pool.
    pub fn rent(&mut self, size: PixelSize) -> (rented: Option<V>)
        requires
            old(self).wf(),
        ensures
            final(self).wf(),
            !has_size(old(self).view(), size, old(self).view().len() as int) ==> rented.is_none()
                && final(self).view() == old(self).view(),
            has_size(old(self).view(), size, old(self).view().len() as int) ==> exists|k: int|
                0 <= k < old(self).view().len() && old(self).view()[k].size == size
                    && !has_size(old(self).view().subrange(k + 1, old(self).view().len() as int), size,
                    old(self).view().len() - k - 1)
                    && rented == Some(old(self).view()[k].value)
                    && final(self).view() == old(self).view().remove(k),
    {
        let mut i = self.slots.len();
        while i > 0
            invariant
                self.slots@ == old(self).slots@,
                old(self).wf(),
                i <= self.slots@.len(),
                forall|k: int| i <= k < self.slots@.len() ==> (#[trigger] self.slots@[k]).size != size,
            decreases i,
        {
            if self.slots[i - 1].size == size {
                let k = i - 1;
                let ghost before = self.slots@;
                let slot = self.slots.remove(k);
                assert(before[k as int].size == size);
                proof {
                    assert forall|q: int| 0 <= q < self.view().len() implies (#[trigger] self.view()[q]).idle <= DERIVED_IDLE_FRAMES by {
                        assert(before == old(self).view());
                        if q < k {
                            assert(self.view()[q] == before[q]);
                            assert(old(self).view()[q].idle <= DERIVED_IDLE_FRAMES);
                        } else {
                            assert(self.view()[q] == before[q + 1]);
                            assert(old(self).view()[q + 1].idle <= DERIVED_IDLE_FRAMES);
                        }
                    }
                    let tail = before.subrange(k + 1, before.len() as int);
                    assert forall|j: int| 0 <= j < before.len() - k - 1 implies (#[trigger] tail[j]).size != size by {
                        assert(tail[j] == before[k + 1 + j]);
                    }
                }
                return Some(slot.value);
            }
            i = i - 1;
        }
        assert(!has_size(old(self).view(), size, old(self).view().len() as int));
        None
    }

    /// Keeps `value`, made at `size`, for a later [`rent`](Self::rent).
    pub fn give_back(&mut self, size: PixelSize, value: V)
        requires
            old(self).wf(),
        ensures
            final(self).wf(),
            final(self).view() == old(self).view().push(IdleSlot { size, value, idle: 0 }),
    {
        self.slots.push(IdleSlot { size, value, idle: 0 });
    }

    /// Marks a frame boundary: everything kept goes one frame more unused,
    /// and whatever has gone unused for longer than
    /// [`DERIVED_IDLE_FRAMES`] frames is released.
    pub fn age(&mut self)
        requires
            old(self).wf(),
        ensures
            final(self).wf(),
            final(self).view() == aged(old(self).view()),
    {
        let mut taken: Vec<IdleSlot<V>> = Vec::new();
        std::mem::swap(&mut taken, &mut self.slots);
        let ghost s = taken@;
        assert(s == old(self).view());
        assert forall|k: int| 0 <= k < s.len() implies (#[trigger] s[k]).idle <= DERIVED_IDLE_FRAMES by {
            assert(old(self).view()[k] == s[k]);
        }
        let n = taken.len();
        let mut reversed: Vec<IdleSlot<V>> = Vec::new();
        while taken.len() > 0
            invariant
                n == s.len(),
                forall|k: int| 0 <= k < s.len() ==> (#[trigger] s[k]).idle <= DERIVED_IDLE_FRAMES,
                taken@ == s.subrange(0, taken@.len() as int),
                reversed@.len() == n - taken@.len(),
                forall|k: int| 0 <= k < reversed@.len() ==> #[trigger] reversed@[k] == s[n - 1 - k],
            decreases taken@.len(),
        {
            let slot = taken.pop().unwrap();
            reversed.push(slot);
        }
        let mut out: Vec<IdleSlot<V>> = Vec::new();
        let mut i: usize = 0;
        while reversed.len() > 0
            invariant
                n == s.len(),
                forall|k: int| 0 <= k < s.len() ==> (#[trigger] s[k]).idle <= DERIVED_IDLE_FRAMES,
                i + reversed@.len() == n,
                forall|k: int| 0 <= k < reversed@.len() ==> #[trigger] reversed@[k] == s[n - 1 - k],
                out@ == aged(s.subrange(0, i as int)),
            decreases reversed@.len(),
        {
            let slot = reversed.pop().unwrap();
            assert(slot == s[i as int]);
            assert(s.subrange(0, i + 1).drop_last() == s.subrange(0, i as int));
            let idle = slot.idle + 1;
            if idle <= DERIVED_IDLE_FRAMES {
                out.push(IdleSlot { size: slot.size, value: slot.value, idle });
            }
            i = i + 1;
        }
        assert(s.subrange(0, n as int) == s);
        proof {
            lemma_aged_fresh(s);
        }
        self.slots = out;
    }
}

/// Aging never keeps anything that has gone unused for longer than
/// [`DERIVED_IDLE_FRAMES`] frames.
proof fn lemma_aged_fresh<V>(s: Seq<IdleSlot<V>>)
    ensures
        forall|k: int| 0 <= k < aged(s).len() ==> (#[trigger] aged(s)[k]).idle <= DERIVED_IDLE_FRAMES,
    decreases s.len(),
{
    if s.len() > 0 {
        lemma_aged_fresh(s.drop_last());
        let rest = aged(s.drop_last());
        assert forall|k: int| 0 <= k < aged(s).len() implies (#[trigger] aged(s)[k]).idle <= DERIVED_IDLE_FRAMES by {
            if k < rest.len() {
                assert(aged(s)[k] == rest[k]);
            }
        }
    }
}

} // verus!
