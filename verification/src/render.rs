//! Batched rendering arithmetic: all trails of one blend mode are packed into
//! shared storage buffers and drawn with a single instanced draw. This module
//! computes where each trail's ring lands in its batch, the instance and
//! vertex counts of each batch, and how the shared GPU buffers grow.

use vstd::prelude::*;
use crate::types::{TrailRenderMode, MODE_COUNT, mode_index};
use crate::ring::TrailRing;

verus! {

/// The capacity a buffer is given when it must grow to hold `size` bytes:
/// 50% headroom, or exactly `size` where the headroom would not fit in a
/// `u64`.
pub open spec fn grown_capacity(size: u64) -> u64 {
    if size + size / 2 <= u64::MAX {
        (size + size / 2) as u64
    } else {
        size
    }
}

/// Size bookkeeping of a GPU storage buffer that grows on demand and
/// remembers its capacity, so a steady or shrinking trail count doesn't
/// reallocate every frame.
#[derive(Clone, Copy, Debug)]
pub struct GrowBuffer {
    /// Whether a buffer has been allocated yet.
    pub allocated: bool,
    /// Size in bytes of the allocated buffer.
    pub capacity: u64,
}

/// Whether making room for `size` bytes allocates a new buffer.
pub open spec fn needs_growth(buffer: GrowBuffer, size: u64) -> bool {
    !buffer.allocated || buffer.capacity < size
}

/// The bookkeeping after making room for `size` bytes.
pub open spec fn grown(buffer: GrowBuffer, size: u64) -> GrowBuffer {
    if needs_growth(buffer, size) {
        GrowBuffer { allocated: true, capacity: grown_capacity(size) }
    } else {
        buffer
    }
}

impl GrowBuffer {
    /// No buffer yet.
    pub fn new() -> (r: Self)
        ensures
            !r.allocated,
            r.capacity == 0,
    {
        GrowBuffer { allocated: false, capacity: 0 }
    }

    /// Makes room for `size` bytes. Returns the capacity of the buffer to
    /// allocate when there is no buffer yet or the current one is too small,
    /// and `None` when the current buffer already holds `size` bytes.
    pub fn ensure(&mut self, size: u64) -> (reallocate: Option<u64>)
        ensures
            *final(self) == grown(*old(self), size),
            reallocate == if needs_growth(*old(self), size) {
                Some(grown_capacity(size))
            } else {
                None::<u64>
            },
            match reallocate {
                Some(c) => {
                    &&& !old(self).allocated || old(self).capacity < size
                    &&& c >= size
                    &&& size + size / 2 <= u64::MAX ==> c == size + size / 2
                    &&& size + size / 2 > u64::MAX ==> c == size
                    &&& final(self).allocated && final(self).capacity == c
                },
                None => {
                    &&& old(self).allocated && old(self).capacity >= size
                    &&& *final(self) == *old(self)
                },
            },
    {
        if !self.allocated || self.capacity < size {
            let new_cap = match size.checked_add(size / 2) {
                Some(c) => c,
                None => size,
            };
            self.allocated = true;
            self.capacity = new_cap;
            Some(new_cap)
        } else {
            None
        }
    }
}

impl Default for GrowBuffer {
    fn default() -> (r: Self)
        ensures
            !r.allocated,
            r.capacity == 0,
    {
        GrowBuffer::new()
    }
}

/// Growth leaves 50% headroom: a buffer grown for `size` bytes holds
/// `size + size / 2` bytes, or exactly `size` where the headroom would not fit
/// in a `u64`; so it is never smaller than `size`, and at least half as large
/// again whenever that fits.
pub proof fn lemma_grown_capacity_headroom(size: u64)
    ensures
        size + size / 2 <= u64::MAX ==> grown_capacity(size) == size + size / 2,
        size + size / 2 > u64::MAX ==> grown_capacity(size) == size,
        grown_capacity(size) >= size,
        size + size / 2 <= u64::MAX ==> 2 * grown_capacity(size) + 1 >= 3 * size,
{
}

/// After making room for `size` bytes the buffer holds at least `size`
/// bytes, so a steady or shrinking size does not reallocate again.
pub proof fn lemma_grown_holds(buffer: GrowBuffer, size: u64, later: u64)
    requires
        later <= size,
    ensures
        grown(buffer, size).allocated,
        grown(buffer, size).capacity >= size,
        !needs_growth(grown(buffer, size), later),
        grown(grown(buffer, size), later) == grown(buffer, size),
{
}

/// One trail as the batch planner sees it: its blend mode, the number of
/// slots in its ring (all of which are uploaded) and its number of live
/// points.
#[derive(Clone, Copy, Debug)]
pub struct BatchEntry {
    pub mode: TrailRenderMode,
    pub capacity: u32,
    pub length: u32,
}

/// Draw parameters of one blend mode's batch.
#[derive(Clone, Copy, Debug)]
pub struct ModeBatch {
    /// Number of trails (= instances) in the batch.
    pub instance_count: u32,
    /// Vertices per instance: 2 per live point, sized to the longest trail.
    pub max_verts: u32,
    /// Number of ring slots packed into the batch's point buffer.
    pub point_count: usize,
}

/// Where each trail's ring lands in its batch, and each batch's draw
/// parameters.
#[derive(Clone, Debug)]
pub struct BatchLayout {
    /// For each trail, the index of its first slot in its batch's point buffer.
    pub offsets: Vec<u32>,
    /// One batch per blend mode, indexed by the mode's index.
    pub modes: Vec<ModeBatch>,
}

/// Slots packed into batch `m` by the trails `entries`.
pub open spec fn mode_points(entries: Seq<BatchEntry>, m: nat) -> nat
    decreases entries.len(),
{
    if entries.len() == 0 {
        0
    } else {
        mode_points(entries.drop_last(), m) + if mode_index(entries.last().mode) == m {
            entries.last().capacity as nat
        } else {
            0
        }
    }
}

/// Number of the trails `entries` drawn by batch `m`.
pub open spec fn mode_count(entries: Seq<BatchEntry>, m: nat) -> nat
    decreases entries.len(),
{
    if entries.len() == 0 {
        0
    } else {
        mode_count(entries.drop_last(), m) + if mode_index(entries.last().mode) == m {
            1nat
        } else {
            0nat
        }
    }
}

/// Twice the largest live length among the trails `entries` drawn by batch
/// `m`, or 0 when there are none.
pub open spec fn mode_max_verts(entries: Seq<BatchEntry>, m: nat) -> nat
    decreases entries.len(),
{
    if entries.len() == 0 {
        0
    } else {
        let rest = mode_max_verts(entries.drop_last(), m);
        let e = entries.last();
        if mode_index(e.mode) == m && rest < 2 * e.length {
            2 * e.length as nat
        } else {
            rest
        }
    }
}

/// Slots packed by all the trails `entries`, whatever their mode.
pub open spec fn total_points(entries: Seq<BatchEntry>) -> nat
    decreases entries.len(),
{
    if entries.len() == 0 {
        0
    } else {
        total_points(entries.drop_last()) + entries.last().capacity as nat
    }
}

proof fn lemma_mode_points_le_total(entries: Seq<BatchEntry>, m: nat)
    ensures
        mode_points(entries, m) <= total_points(entries),
        mode_count(entries, m) <= entries.len(),
    decreases entries.len(),
{
    if entries.len() > 0 {
        lemma_mode_points_le_total(entries.drop_last(), m);
    }
}

proof fn lemma_total_prefix(entries: Seq<BatchEntry>, i: int)
    requires
        0 <= i <= entries.len(),
    ensures
        total_points(entries.take(i)) <= total_points(entries),
    decreases entries.len(),
{
    if i < entries.len() {
        lemma_total_prefix(entries.drop_last(), i);
        assert(entries.drop_last().take(i) =~= entries.take(i));
    } else {
        assert(entries.take(i) =~= entries);
    }
}

proof fn lemma_mode_points_step(entries: Seq<BatchEntry>, k: int, m: nat)
    requires
        0 <= k < entries.len(),
    ensures
        mode_points(entries.take(k + 1), m) == mode_points(entries.take(k), m) + if mode_index(
            entries[k].mode,
        ) == m {
            entries[k].capacity as nat
        } else {
            0
        },
{
    assert(entries.take(k + 1).drop_last() =~= entries.take(k));
}

proof fn lemma_mode_points_monotone(entries: Seq<BatchEntry>, a: int, b: int, m: nat)
    requires
        0 <= a <= b <= entries.len(),
    ensures
        mode_points(entries.take(a), m) <= mode_points(entries.take(b), m),
    decreases b - a,
{
    if a < b {
        lemma_mode_points_monotone(entries, a, b - 1, m);
        lemma_mode_points_step(entries, b - 1, m);
    }
}

/// Within a batch the trails' rings never overlap: a trail's slots
/// `[offset, offset + capacity)` end before any later trail of the same mode
/// begins, and inside the batch's point buffer.
pub proof fn lemma_batch_regions_disjoint(entries: Seq<BatchEntry>, i: int, j: int)
    requires
        0 <= i < j < entries.len(),
        entries[i].mode == entries[j].mode,
    ensures
        mode_points(entries.take(i), mode_index(entries[i].mode)) + entries[i].capacity
            <= mode_points(entries.take(j), mode_index(entries[j].mode)),
{
    let m = mode_index(entries[i].mode);
    lemma_mode_points_step(entries, i, m);
    lemma_mode_points_monotone(entries, i + 1, j, m);
}

/// Every trail's ring lies inside its batch's point buffer, and its live
/// points fit in the vertices drawn per instance.
pub proof fn lemma_batch_region_in_bounds(entries: Seq<BatchEntry>, i: int)
    requires
        0 <= i < entries.len(),
    ensures
        mode_points(entries.take(i), mode_index(entries[i].mode)) + entries[i].capacity
            <= mode_points(entries, mode_index(entries[i].mode)),
        2 * entries[i].length <= mode_max_verts(entries, mode_index(entries[i].mode)),
    decreases entries.len(),
{
    let m = mode_index(entries[i].mode);
    lemma_mode_points_step(entries, i, m);
    lemma_mode_points_monotone(entries, i + 1, entries.len() as int, m);
    assert(entries.take(entries.len() as int) =~= entries);
    if i < entries.len() - 1 {
        lemma_batch_region_in_bounds(entries.drop_last(), i);
        assert(entries.drop_last()[i] == entries[i]);
    }
}

/// The vertex count of a batch is twice the longest live length among its own
/// trails: every trail of the batch fits, the count is reached by one of
/// them, trails of other batches play no part, and a batch without trails
/// draws no vertex.
pub proof fn lemma_max_verts_attained(entries: Seq<BatchEntry>, m: nat)
    ensures
        forall|i: int|
            0 <= i < entries.len() && mode_index(entries[i].mode) == m ==> 2 * #[trigger] entries[i].length
                <= mode_max_verts(entries, m),
        (forall|i: int| 0 <= i < entries.len() ==> mode_index(#[trigger] entries[i].mode) != m)
            ==> mode_max_verts(entries, m) == 0,
        (exists|i: int| 0 <= i < entries.len() && mode_index(#[trigger] entries[i].mode) == m)
            ==> exists|i: int|
            0 <= i < entries.len() && mode_index(#[trigger] entries[i].mode) == m
                && mode_max_verts(entries, m) == 2 * entries[i].length,
    decreases entries.len(),
{
    if entries.len() > 0 {
        let rest = entries.drop_last();
        let n = entries.len() - 1;
        lemma_max_verts_attained(rest, m);
        assert forall|i: int|
            0 <= i < entries.len() && mode_index(entries[i].mode) == m implies 2 * #[trigger] entries[i].length
                <= mode_max_verts(entries, m) by {
            if i < n {
                assert(entries[i] == rest[i]);
            }
        }
        if forall|i: int| 0 <= i < entries.len() ==> mode_index(#[trigger] entries[i].mode) != m {
            assert forall|i: int| 0 <= i < rest.len() implies mode_index(#[trigger] rest[i].mode) != m by {
                assert(rest[i] == entries[i]);
            }
            assert(mode_index(entries[n].mode) != m);
        }
        if exists|i: int| 0 <= i < entries.len() && mode_index(#[trigger] entries[i].mode) == m {
            let e = entries.last();
            if mode_index(e.mode) == m && mode_max_verts(rest, m) < 2 * e.length {
                assert(mode_index(entries[n].mode) == m);
            } else if exists|i: int| 0 <= i < rest.len() && mode_index(#[trigger] rest[i].mode) == m {
                let i = choose|i: int| 0 <= i < rest.len() && mode_index(#[trigger] rest[i].mode) == m
                    && mode_max_verts(rest, m) == 2 * rest[i].length;
                assert(entries[i] == rest[i]);
                assert(mode_index(entries[i].mode) == m);
            } else {
                // the only trail of the batch is the last one, and it sets the count
                assert forall|i: int| 0 <= i < rest.len() implies mode_index(#[trigger] rest[i].mode) != m by {}
                assert(mode_max_verts(rest, m) == 0);
                assert(mode_index(e.mode) == m) by {
                    let w = choose|i: int| 0 <= i < entries.len() && mode_index(#[trigger] entries[i].mode) == m;
                    if w < n {
                        assert(rest[w] == entries[w]);
                    }
                }
                assert(mode_index(entries[n].mode) == m);
            }
        }
    }
}

/// How a trail contributes to the batches: it adds one instance and its
/// ring's slots to the batch of its own mode and nothing to the others, and
/// before the first trail every batch is empty.
pub proof fn lemma_batch_contribution(entries: Seq<BatchEntry>, i: int, m: nat)
    requires
        0 <= i < entries.len(),
    ensures
        mode_points(entries.take(0), m) == 0,
        mode_count(entries.take(0), m) == 0,
        mode_index(entries[i].mode) == m ==> mode_points(entries.take(i + 1), m) == mode_points(
            entries.take(i),
            m,
        ) + entries[i].capacity,
        mode_index(entries[i].mode) == m ==> mode_count(entries.take(i + 1), m) == mode_count(
            entries.take(i),
            m,
        ) + 1,
        mode_index(entries[i].mode) != m ==> mode_points(entries.take(i + 1), m) == mode_points(
            entries.take(i),
            m,
        ),
        mode_index(entries[i].mode) != m ==> mode_count(entries.take(i + 1), m) == mode_count(
            entries.take(i),
            m,
        ),
        total_points(entries.take(0)) == 0,
        total_points(entries.take(i + 1)) == total_points(entries.take(i)) + entries[i].capacity,
{
    lemma_mode_points_step(entries, i, m);
    lemma_mode_count_step(entries, i, m);
    assert(entries.take(i + 1).drop_last() =~= entries.take(i));
}

/// Every trail is drawn by exactly one batch: the batches' instance counts
/// add up to the number of trails, and their point buffers to all slots.
pub proof fn lemma_batches_partition(entries: Seq<BatchEntry>)
    ensures
        mode_count(entries, 0) + mode_count(entries, 1) + mode_count(entries, 2) == entries.len(),
        mode_points(entries, 0) + mode_points(entries, 1) + mode_points(entries, 2)
            == total_points(entries),
        forall|m: nat| m >= MODE_COUNT ==> #[trigger] mode_count(entries, m) == 0,
    decreases entries.len(),
{
    if entries.len() > 0 {
        let rest = entries.drop_last();
        lemma_batches_partition(rest);
        assert forall|m: nat| m >= MODE_COUNT implies #[trigger] mode_count(entries, m) == 0 by {
            assert(mode_count(rest, m) == 0);
        }
    }
}

/// Packs the trails `entries`, in order, into one batch per blend mode: each
/// trail's ring starts where the previous trail of its mode ended, each batch
/// draws one instance per trail and two vertices per live point of its
/// longest trail.
pub fn plan_batches(entries: &Vec<BatchEntry>) -> (layout: BatchLayout)
    requires
        total_points(entries@) <= usize::MAX,
        forall|i: int| 0 <= i < entries@.len() ==> 2 * #[trigger] entries@[i].length <= u32::MAX,
    ensures
        layout.offsets@.len() == entries@.len(),
        layout.modes@.len() == MODE_COUNT,
        forall|i: int|
            0 <= i < entries@.len() ==> #[trigger] layout.offsets@[i] == mode_points(
                entries@.take(i),
                mode_index(entries@[i].mode),
            ) as u32,
        forall|m: int|
            0 <= m < MODE_COUNT ==> {
                &&& #[trigger] layout.modes@[m].point_count == mode_points(entries@, m as nat)
                &&& layout.modes@[m].instance_count == mode_count(entries@, m as nat) as u32
                &&& layout.modes@[m].max_verts == mode_max_verts(entries@, m as nat)
            },
{
    let mut points: Vec<usize> = Vec::new();
    let mut counts: Vec<usize> = Vec::new();
    let mut verts: Vec<u32> = Vec::new();
    let mut m: usize = 0;
    while m < MODE_COUNT
        invariant
            m <= MODE_COUNT,
            points@.len() == m,
            counts@.len() == m,
            verts@.len() == m,
            forall|k: int| 0 <= k < m ==> points@[k] == 0 && counts@[k] == 0 && verts@[k] == 0,
        decreases MODE_COUNT - m,
    {
        points.push(0);
        counts.push(0);
        verts.push(0);
        m = m + 1;
    }
    let mut offsets: Vec<u32> = Vec::new();
    let mut i: usize = 0;
    while i < entries.len()
        invariant
            i <= entries@.len(),
            total_points(entries@) <= usize::MAX,
            forall|k: int| 0 <= k < entries@.len() ==> 2 * #[trigger] entries@[k].length <= u32::MAX,
            points@.len() == MODE_COUNT,
            counts@.len() == MODE_COUNT,
            verts@.len() == MODE_COUNT,
            offsets@.len() == i,
            forall|k: int|
                0 <= k < MODE_COUNT ==> {
                    &&& #[trigger] points@[k] == mode_points(entries@.take(i as int), k as nat)
                    &&& counts@[k] == mode_count(entries@.take(i as int), k as nat)
                    &&& verts@[k] == mode_max_verts(entries@.take(i as int), k as nat)
                },
            forall|k: int|
                0 <= k < i ==> #[trigger] offsets@[k] == mode_points(
                    entries@.take(k),
                    mode_index(entries@[k].mode),
                ) as u32,
        decreases entries@.len() - i,
    {
        let e = entries[i];
        let mi = e.mode.index();
        let ghost before = entries@.take(i as int);
        let ghost after = entries@.take(i + 1);
        proof {
            assert(after.drop_last() =~= before);
            assert(after.last() == e);
            lemma_mode_points_le_total(after, mi as nat);
            lemma_total_prefix(entries@, i + 1);
        }
        let ghost points0 = points@;
        let ghost counts0 = counts@;
        let ghost verts0 = verts@;
        let off = points[mi];
        offsets.push(#[verifier::truncate] (off as u32));
        points.set(mi, off + e.capacity as usize);
        let c = counts[mi];
        counts.set(mi, c + 1);
        let twice = e.length * 2;
        let v = verts[mi];
        if v < twice {
            verts.set(mi, twice);
        }
        proof {
            assert forall|k: int| 0 <= k < MODE_COUNT implies {
                &&& #[trigger] points@[k] == mode_points(after, k as nat)
                &&& counts@[k] == mode_count(after, k as nat)
                &&& verts@[k] == mode_max_verts(after, k as nat)
            } by {
                assert(mode_points(after, k as nat) == mode_points(before, k as nat) + if mode_index(e.mode) == k {
                    e.capacity as nat
                } else {
                    0
                });
                assert(mode_count(after, k as nat) == mode_count(before, k as nat) + if mode_index(e.mode) == k {
                    1nat
                } else {
                    0nat
                });
                assert(mode_max_verts(after, k as nat) == if mode_index(e.mode) == k && mode_max_verts(
                    before,
                    k as nat,
                ) < 2 * e.length {
                    2 * e.length as nat
                } else {
                    mode_max_verts(before, k as nat)
                });
                if k != mi {
                    assert(points@[k] == points0[k]);
                    assert(counts@[k] == counts0[k]);
                    assert(verts@[k] == verts0[k]);
                }
            }
        }
        i = i + 1;
    }
    proof {
        assert(entries@.take(entries@.len() as int) =~= entries@);
    }
    let mut modes: Vec<ModeBatch> = Vec::new();
    let mut m: usize = 0;
    while m < MODE_COUNT
        invariant
            m <= MODE_COUNT,
            modes@.len() == m,
            points@.len() == MODE_COUNT,
            counts@.len() == MODE_COUNT,
            verts@.len() == MODE_COUNT,
            forall|k: int|
                0 <= k < MODE_COUNT ==> {
                    &&& #[trigger] points@[k] == mode_points(entries@, k as nat)
                    &&& counts@[k] == mode_count(entries@, k as nat)
                    &&& verts@[k] == mode_max_verts(entries@, k as nat)
                },
            forall|k: int|
                0 <= k < m ==> {
                    &&& #[trigger] modes@[k].point_count == mode_points(entries@, k as nat)
                    &&& modes@[k].instance_count == mode_count(entries@, k as nat) as u32
                    &&& modes@[k].max_verts == mode_max_verts(entries@, k as nat)
                },
        decreases MODE_COUNT - m,
    {
        modes.push(ModeBatch {
            instance_count: #[verifier::truncate] (counts[m] as u32),
            max_verts: verts[m],
            point_count: points[m],
        });
        m = m + 1;
    }
    BatchLayout { offsets, modes }
}

/// What happens to a batch's bind group after its buffers are uploaded.
#[derive(Clone, Copy, Debug, PartialEq, Eq, Structural)]
pub enum BindGroupAction {
    /// The batch draws no trail: drop the bind group.
    Drop,
    /// The buffers the bind group points at are unchanged: keep it.
    Keep,
    /// A buffer was reallocated, or there is no bind group yet: rebuild it.
    Rebuild,
}

/// The bind group of a batch of `trail_count` trails: dropped when the batch
/// is empty, rebuilt only when one of its buffers was reallocated or it does
/// not exist yet, and kept otherwise.
pub fn bind_group_action(trail_count: usize, reallocated: bool, has_bind_group: bool) -> (r:
    BindGroupAction)
    ensures
        r == if trail_count == 0 {
            BindGroupAction::Drop
        } else if reallocated || !has_bind_group {
            BindGroupAction::Rebuild
        } else {
            BindGroupAction::Keep
        },
{
    if trail_count == 0 {
        BindGroupAction::Drop
    } else if reallocated || !has_bind_group {
        BindGroupAction::Rebuild
    } else {
        BindGroupAction::Keep
    }
}

impl ModeBatch {
    /// The instanced draw of this batch, as `(vertices per instance,
    /// instances)`: none when the batch has no bind group, no trail or no
    /// vertex to draw.
    pub fn draw_range(&self, has_bind_group: bool) -> (r: Option<(u32, u32)>)
        ensures
            r == if has_bind_group && self.instance_count > 0 && self.max_verts > 0 {
                Some((self.max_verts, self.instance_count))
            } else {
                None::<(u32, u32)>
            },
    {
        if !has_bind_group {
            return None;
        }
        if self.instance_count == 0 || self.max_verts == 0 {
            return None;
        }
        Some((self.max_verts, self.instance_count))
    }
}

proof fn lemma_mode_count_step(entries: Seq<BatchEntry>, k: int, m: nat)
    requires
        0 <= k < entries.len(),
    ensures
        mode_count(entries.take(k + 1), m) == mode_count(entries.take(k), m) + if mode_index(
            entries[k].mode,
        ) == m {
            1nat
        } else {
            0nat
        },
{
    assert(entries.take(k + 1).drop_last() =~= entries.take(k));
}

proof fn lemma_mode_count_monotone(entries: Seq<BatchEntry>, a: int, b: int, m: nat)
    requires
        0 <= a <= b <= entries.len(),
    ensures
        mode_count(entries.take(a), m) <= mode_count(entries.take(b), m),
    decreases b - a,
{
    if a < b {
        lemma_mode_count_monotone(entries, a, b - 1, m);
        lemma_mode_count_step(entries, b - 1, m);
    }
}

/// One trail handed to the packer: its blend mode, the per-trail data that
/// travels with it (header and style), and its ring.
pub struct PackInput<'a, E, P> {
    pub mode: TrailRenderMode,
    pub payload: E,
    pub ring: &'a TrailRing<P>,
}

/// One blend mode's packed batch: its draw parameters, for each of its trails
/// in order the offset of its ring in `points` with its per-trail data, and
/// the concatenated ring slots.
pub struct PackedBatch<E, P> {
    pub layout: ModeBatch,
    pub entries: Vec<(u32, E)>,
    pub points: Vec<P>,
}

/// The batch planner's view of the trails handed to the packer.
pub open spec fn batch_entries<'a, E, P>(inputs: Seq<PackInput<'a, E, P>>) -> Seq<BatchEntry> {
    Seq::new(
        inputs.len(),
        |i: int|
            BatchEntry {
                mode: inputs[i].mode,
                capacity: inputs[i].ring.spec_capacity(),
                length: inputs[i].ring.spec_length(),
            },
    )
}

fn pack_mode<'a, E: Copy, P: Copy>(
    inputs: &Vec<PackInput<'a, E, P>>,
    offsets: &Vec<u32>,
    k: usize,
    layout: ModeBatch,
) -> (r: PackedBatch<E, P>)
    requires
        k < MODE_COUNT,
        offsets@.len() == inputs@.len(),
        forall|i: int|
            0 <= i < inputs@.len() ==> #[trigger] offsets@[i] == mode_points(
                batch_entries(inputs@).take(i),
                mode_index(inputs@[i].mode),
            ) as u32,
    ensures
        r.layout == layout,
        r.entries@.len() == mode_count(batch_entries(inputs@), k as nat),
        r.points@.len() == mode_points(batch_entries(inputs@), k as nat),
        forall|i: int|
            0 <= i < inputs@.len() && mode_index(inputs@[i].mode) == k ==> r.entries@[mode_count(
                batch_entries(inputs@).take(i),
                k as nat,
            ) as int] == (#[trigger] offsets@[i], inputs@[i].payload),
        forall|i: int, s: int|
            0 <= i < inputs@.len() && mode_index(inputs@[i].mode) == k && 0 <= s
                < inputs@[i].ring.spec_capacity() ==> r.points@[mode_points(
                batch_entries(inputs@).take(i),
                k as nat,
            ) + s] == #[trigger] inputs@[i].ring.slots()[s],
{
    let ghost es = batch_entries(inputs@);
    let ghost m = k as nat;
    let mut entries: Vec<(u32, E)> = Vec::new();
    let mut points: Vec<P> = Vec::new();
    let mut i: usize = 0;
    while i < inputs.len()
        invariant
            i <= inputs@.len(),
            k < MODE_COUNT,
            m == k as nat,
            es == batch_entries(inputs@),
            offsets@.len() == inputs@.len(),
            forall|j: int|
                0 <= j < inputs@.len() ==> #[trigger] offsets@[j] == mode_points(
                    es.take(j),
                    mode_index(inputs@[j].mode),
                ) as u32,
            entries@.len() == mode_count(es.take(i as int), m),
            points@.len() == mode_points(es.take(i as int), m),
            forall|j: int|
                0 <= j < i && mode_index(inputs@[j].mode) == k ==> entries@[mode_count(
                    es.take(j),
                    m,
                ) as int] == (#[trigger] offsets@[j], inputs@[j].payload),
            forall|j: int, s: int|
                0 <= j < i && mode_index(inputs@[j].mode) == k && 0 <= s
                    < inputs@[j].ring.spec_capacity() ==> points@[mode_points(es.take(j), m)
                    + s] == #[trigger] inputs@[j].ring.slots()[s],
        decreases inputs@.len() - i,
    {
        let input = &inputs[i];
        proof {
            lemma_mode_count_step(es, i as int, m);
            lemma_mode_points_step(es, i as int, m);
        }
        if input.mode.index() == k {
            let ghost entries0 = entries@;
            let ghost points0 = points@;
            entries.push((offsets[i], input.payload));
            let ring = input.ring;
            let slots = ring.points();
            let cap = ring.capacity() as usize;
            let mut s: usize = 0;
            while s < cap
                invariant
                    s <= cap,
                    cap == ring.spec_capacity(),
                    slots@ == ring.slots(),
                    slots@.len() == cap,
                    points@.len() == points0.len() + s,
                    forall|t: int| 0 <= t < points0.len() ==> points@[t] == points0[t],
                    forall|t: int| 0 <= t < s ==> points@[points0.len() + t] == #[trigger] slots@[t],
                decreases cap - s,
            {
                points.push(slots[s]);
                s = s + 1;
            }
            proof {
                assert forall|j: int|
                    0 <= j < i + 1 && mode_index(inputs@[j].mode) == k implies entries@[mode_count(
                        es.take(j),
                        m,
                    ) as int] == (#[trigger] offsets@[j], inputs@[j].payload) by {
                    if j < i {
                        lemma_mode_count_step(es, j, m);
                        lemma_mode_count_monotone(es, j + 1, i as int, m);
                    }
                }
                assert forall|j: int, t: int|
                    0 <= j < i + 1 && mode_index(inputs@[j].mode) == k && 0 <= t
                        < inputs@[j].ring.spec_capacity() implies points@[mode_points(es.take(j), m)
                        + t] == #[trigger] inputs@[j].ring.slots()[t] by {
                    if j < i {
                        lemma_mode_points_step(es, j, m);
                        lemma_mode_points_monotone(es, j + 1, i as int, m);
                        assert(es[j].capacity == inputs@[j].ring.spec_capacity());
                    } else {
                        assert(slots@[t] == inputs@[j].ring.slots()[t]);
                    }
                }
            }
        }
        i = i + 1;
    }
    proof {
        assert(es.take(inputs@.len() as int) =~= es);
    }
    PackedBatch { layout, entries, points }
}

/// Packs the trails, in order, into one batch per blend mode: each batch
/// holds its draw parameters, each of its trails' offset and per-trail data
/// in order, and the concatenation of those trails' ring slots, each ring
/// starting at its trail's offset.
pub fn pack_batches<'a, E: Copy, P: Copy>(inputs: &Vec<PackInput<'a, E, P>>) -> (r: Vec<
    PackedBatch<E, P>,
>)
    requires
        total_points(batch_entries(inputs@)) <= usize::MAX,
        forall|i: int|
            0 <= i < inputs@.len() ==> 2 * #[trigger] inputs@[i].ring.spec_length() <= u32::MAX,
    ensures
        r@.len() == MODE_COUNT,
        forall|m: int|
            0 <= m < MODE_COUNT ==> {
                let es = batch_entries(inputs@);
                &&& #[trigger] r@[m].layout.point_count == mode_points(es, m as nat)
                &&& r@[m].layout.instance_count == mode_count(es, m as nat) as u32
                &&& r@[m].layout.max_verts == mode_max_verts(es, m as nat)
                &&& r@[m].entries@.len() == mode_count(es, m as nat)
                &&& r@[m].points@.len() == mode_points(es, m as nat)
            },
        forall|i: int|
            0 <= i < inputs@.len() ==> {
                let es = batch_entries(inputs@);
                let m = mode_index(inputs@[i].mode);
                r@[m as int].entries@[mode_count(es.take(i), m) as int] == (
                    mode_points(es.take(i), m) as u32,
                    #[trigger] inputs@[i].payload,
                )
            },
        forall|i: int, s: int|
            0 <= i < inputs@.len() && 0 <= s < inputs@[i].ring.spec_capacity() ==> {
                let es = batch_entries(inputs@);
                let m = mode_index(inputs@[i].mode);
                r@[m as int].points@[mode_points(es.take(i), m) + s]
                    == #[trigger] inputs@[i].ring.slots()[s]
            },
{
    let ghost es = batch_entries(inputs@);
    let mut entries: Vec<BatchEntry> = Vec::new();
    let mut i: usize = 0;
    while i < inputs.len()
        invariant
            i <= inputs@.len(),
            es == batch_entries(inputs@),
            entries@ == es.take(i as int),
        decreases inputs@.len() - i,
    {
        let ring = inputs[i].ring;
        entries.push(BatchEntry { mode: inputs[i].mode, capacity: ring.capacity(), length: ring.length() });
        i = i + 1;
        proof {
            assert(entries@ =~= es.take(i as int));
        }
    }
    proof {
        assert(entries@ =~= es);
    }
    let plan = plan_batches(&entries);
    proof {
        assert forall|m: int| 0 <= m < MODE_COUNT implies {
            &&& #[trigger] plan.modes@[m].point_count == mode_points(es, m as nat)
            &&& plan.modes@[m].instance_count == mode_count(es, m as nat) as u32
            &&& plan.modes@[m].max_verts == mode_max_verts(es, m as nat)
        } by {
            assert(plan.modes@[m].point_count == mode_points(entries@, m as nat));
        }
        assert forall|j: int| 0 <= j < inputs@.len() implies #[trigger] plan.offsets@[j] == mode_points(
            es.take(j),
            mode_index(inputs@[j].mode),
        ) as u32 by {
            assert(entries@[j].mode == inputs@[j].mode);
        }
    }
    let mut r: Vec<PackedBatch<E, P>> = Vec::new();
    let mut k: usize = 0;
    while k < MODE_COUNT
        invariant
            k <= MODE_COUNT,
            r@.len() == k,
            es == batch_entries(inputs@),
            plan.modes@.len() == MODE_COUNT,
            plan.offsets@.len() == inputs@.len(),
            forall|j: int|
                0 <= j < inputs@.len() ==> #[trigger] plan.offsets@[j] == mode_points(
                    es.take(j),
                    mode_index(inputs@[j].mode),
                ) as u32,
            forall|m: int|
                0 <= m < MODE_COUNT ==> {
                    &&& #[trigger] plan.modes@[m].point_count == mode_points(es, m as nat)
                    &&& plan.modes@[m].instance_count == mode_count(es, m as nat) as u32
                    &&& plan.modes@[m].max_verts == mode_max_verts(es, m as nat)
                },
            forall|m: int|
                0 <= m < k ==> {
                    &&& #[trigger] r@[m].layout == plan.modes@[m]
                    &&& r@[m].entries@.len() == mode_count(es, m as nat)
                    &&& r@[m].points@.len() == mode_points(es, m as nat)
                },
            forall|j: int|
                0 <= j < inputs@.len() && mode_index(inputs@[j].mode) < k ==> r@[mode_index(
                    inputs@[j].mode,
                ) as int].entries@[mode_count(es.take(j), mode_index(inputs@[j].mode)) as int] == (
                    #[trigger] plan.offsets@[j],
                    inputs@[j].payload,
                ),
            forall|j: int, s: int|
                0 <= j < inputs@.len() && mode_index(inputs@[j].mode) < k && 0 <= s
                    < inputs@[j].ring.spec_capacity() ==> r@[mode_index(
                    inputs@[j].mode,
                ) as int].points@[mode_points(es.take(j), mode_index(inputs@[j].mode)) + s]
                    == #[trigger] inputs@[j].ring.slots()[s],
        decreases MODE_COUNT - k,
    {
        let batch = pack_mode(inputs, &plan.offsets, k, plan.modes[k]);
        let ghost r0 = r@;
        r.push(batch);
        proof {
            assert forall|j: int|
                0 <= j < inputs@.len() && mode_index(inputs@[j].mode) < k + 1 implies r@[mode_index(
                    inputs@[j].mode,
                ) as int].entries@[mode_count(es.take(j), mode_index(inputs@[j].mode)) as int] == (
                    #[trigger] plan.offsets@[j],
                    inputs@[j].payload,
                ) by {
                if mode_index(inputs@[j].mode) < k {
                    assert(r@[mode_index(inputs@[j].mode) as int] == r0[mode_index(inputs@[j].mode) as int]);
                }
            }
            assert forall|j: int, s: int|
                0 <= j < inputs@.len() && mode_index(inputs@[j].mode) < k + 1 && 0 <= s
                    < inputs@[j].ring.spec_capacity() implies r@[mode_index(
                    inputs@[j].mode,
                ) as int].points@[mode_points(es.take(j), mode_index(inputs@[j].mode)) + s]
                    == #[trigger] inputs@[j].ring.slots()[s] by {
                if mode_index(inputs@[j].mode) < k {
                    assert(r@[mode_index(inputs@[j].mode) as int] == r0[mode_index(inputs@[j].mode) as int]);
                }
            }
        }
        k = k + 1;
    }
    proof {
        assert forall|i: int| 0 <= i < inputs@.len() implies {
            let m = mode_index(inputs@[i].mode);
            r@[m as int].entries@[mode_count(es.take(i), m) as int] == (
                mode_points(es.take(i), m) as u32,
                #[trigger] inputs@[i].payload,
            )
        } by {
            assert(plan.offsets@[i] == mode_points(es.take(i), mode_index(inputs@[i].mode)) as u32);
        }
    }
    r
}

} // verus!
