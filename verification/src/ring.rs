//! Fixed-capacity ring storage for a trail's control points.
//!
//! The ring holds `capacity` slots. `head` is the slot of the newest point and
//! `length` counts the live points, which end at `head`: the live segment runs
//! from slot `head - length + 1` (oldest) to slot `head` (newest), wrapping
//! around the end of the storage. The renderer uploads every slot and indexes
//! them modulo `capacity`, so the storage always holds exactly `capacity`
//! points.

use vstd::prelude::*;

verus! {

/// `x % c` for `0 <= x < 2c`: at most one wrap.
pub(crate) proof fn lemma_mod_one_wrap(x: int, c: int)
    requires
        0 < c,
        0 <= x < 2 * c,
    ensures
        x % c == if x < c { x } else { x - c },
{
    if x < c {
        vstd::arithmetic::div_mod::lemma_small_mod(x as nat, c as nat);
    } else {
        vstd::arithmetic::div_mod::lemma_fundamental_div_mod_converse(x, c, 1, x - c);
    }
}

/// The live points after emitting `point` into a ring of `capacity` slots
/// whose live points were `live`: the point becomes the newest, and once the
/// ring is full the oldest point is dropped.
pub open spec fn ring_push<T>(live: Seq<T>, capacity: nat, point: T) -> Seq<T> {
    if live.len() < capacity {
        live.push(point)
    } else {
        live.drop_first().push(point)
    }
}

/// The live points after emitting each of `points` in turn.
pub open spec fn ring_push_all<T>(live: Seq<T>, capacity: nat, points: Seq<T>) -> Seq<T>
    decreases points.len(),
{
    if points.len() == 0 {
        live
    } else {
        ring_push(ring_push_all(live, capacity, points.drop_last()), capacity, points.last())
    }
}

/// How many live points survive clipping, given for each live point, oldest
/// first, whether it is still within the trail's length and time budget.
/// Expired points are dropped from the oldest end until a point within budget
/// is found, but the newest point always stays.
pub open spec fn kept_length(within_budget: Seq<bool>) -> nat
    decreases within_budget.len(),
{
    if within_budget.len() <= 1 {
        within_budget.len()
    } else if within_budget[0] {
        within_budget.len()
    } else {
        kept_length(within_budget.drop_first())
    }
}

/// Per slot, whether the point is within every enabled budget: a trail is
/// clipped once it is longer than its length budget or its tail is older than
/// its time budget, and a disabled budget never clips.
pub open spec fn budget_flags(
    within_length: Seq<bool>,
    within_time: Seq<bool>,
    length_enabled: bool,
    time_enabled: bool,
) -> Seq<bool> {
    Seq::new(
        within_length.len(),
        |i: int| (!length_enabled || within_length[i]) && (!time_enabled || within_time[i]),
    )
}

/// A slot is within budget exactly when its point passes every enabled
/// budget test: a point that fails an enabled test, in any slot, is flagged
/// out of budget, and a disabled budget never flags a point.
pub proof fn lemma_budget_flags(
    within_length: Seq<bool>,
    within_time: Seq<bool>,
    length_enabled: bool,
    time_enabled: bool,
)
    ensures
        budget_flags(within_length, within_time, length_enabled, time_enabled).len()
            == within_length.len(),
        forall|i: int|
            0 <= i < within_length.len() ==> {
                &&& (length_enabled && !within_length[i]) ==> !#[trigger] budget_flags(
                    within_length,
                    within_time,
                    length_enabled,
                    time_enabled,
                )[i]
                &&& (time_enabled && !within_time[i]) ==> !budget_flags(
                    within_length,
                    within_time,
                    length_enabled,
                    time_enabled,
                )[i]
                &&& ((!length_enabled || within_length[i]) && (!time_enabled || within_time[i]))
                    ==> budget_flags(within_length, within_time, length_enabled, time_enabled)[i]
            },
{
}

/// Combines the per-slot results of the length test and of the time test
/// into the per-slot budget flags that clipping reads.
pub fn within_every_budget(
    within_length: &Vec<bool>,
    within_time: &Vec<bool>,
    length_enabled: bool,
    time_enabled: bool,
) -> (r: Vec<bool>)
    requires
        within_length@.len() == within_time@.len(),
    ensures
        r@ == budget_flags(within_length@, within_time@, length_enabled, time_enabled),
        r@.len() == within_length@.len(),
        forall|i: int|
            0 <= i < r@.len() ==> (#[trigger] r@[i] <==> ((!length_enabled || within_length@[i]) && (
            !time_enabled || within_time@[i]))),
{
    proof {
        lemma_budget_flags(within_length@, within_time@, length_enabled, time_enabled);
    }
    let mut r: Vec<bool> = Vec::new();
    let mut i: usize = 0;
    while i < within_length.len()
        invariant
            i <= within_length@.len(),
            within_length@.len() == within_time@.len(),
            r@ == budget_flags(within_length@, within_time@, length_enabled, time_enabled).take(
                i as int,
            ),
        decreases within_length@.len() - i,
    {
        let b = (!length_enabled || within_length[i]) && (!time_enabled || within_time[i]);
        r.push(b);
        i = i + 1;
        proof {
            assert(r@ =~= budget_flags(within_length@, within_time@, length_enabled, time_enabled).take(
                i as int,
            ));
        }
    }
    proof {
        assert(r@ =~= budget_flags(within_length@, within_time@, length_enabled, time_enabled));
    }
    r
}

/// Ring storage of a trail's points.
#[derive(Debug)]
pub struct TrailRing<T> {
    head: u32,
    length: u32,
    capacity: u32,
    points: Vec<T>,
}

impl<T: Clone> Clone for TrailRing<T> {
    /// A copy with the same head, length and capacity, each slot a clone of
    /// the slot it copies.
    fn clone(&self) -> (r: Self)
        ensures
            r.spec_head() == self.spec_head(),
            r.spec_length() == self.spec_length(),
            r.spec_capacity() == self.spec_capacity(),
            r.slots().len() == self.slots().len(),
            forall|i: int| 0 <= i < self.slots().len() ==> cloned(self.slots()[i], #[trigger] r.slots()[i]),
    {
        proof {
            use_type_invariant(self);
        }
        TrailRing {
            head: self.head,
            length: self.length,
            capacity: self.capacity,
            points: self.points.clone(),
        }
    }
}

impl<T> View for TrailRing<T> {
    type V = Seq<T>;

    /// The live points, oldest first.
    open spec fn view(&self) -> Seq<T> {
        Seq::new(self.spec_length() as nat, |j: int| self.slots()[self.live_slot(j)])
    }
}

impl<T> TrailRing<T> {
    /// The storage invariant: at least one slot, the head is a slot, the live
    /// segment fits, and the storage holds exactly `capacity` points.
    #[verifier::type_invariant]
    spec fn wf(&self) -> bool {
        &&& 0 < self.capacity
        &&& self.head < self.capacity
        &&& self.length <= self.capacity
        &&& self.points@.len() == self.capacity
    }

    pub closed spec fn spec_capacity(&self) -> u32 {
        self.capacity
    }

    pub closed spec fn spec_head(&self) -> u32 {
        self.head
    }

    pub closed spec fn spec_length(&self) -> u32 {
        self.length
    }

    /// Every slot of the storage, live or not, in storage order.
    pub closed spec fn slots(&self) -> Seq<T> {
        self.points@
    }

    /// The slot that holds the live point `j` (0 is the oldest).
    pub open spec fn live_slot(&self, j: int) -> int {
        let k = self.spec_head() - self.spec_length() + 1 + j;
        if k < 0 {
            k + self.spec_capacity()
        } else {
            k
        }
    }

    /// For each live point, oldest first, its flag in `per_slot`.
    pub open spec fn live_flags(&self, per_slot: Seq<bool>) -> Seq<bool> {
        Seq::new(self.spec_length() as nat, |j: int| per_slot[self.live_slot(j)])
    }

    /// An empty ring of `max(capacity, 1)` slots, each filled with a clone of
    /// `fill`.
    pub fn new(capacity: u32, fill: T) -> (ring: Self)
        where T: Clone,
        ensures
            ring.capacity() == if capacity == 0 { 1 } else { capacity },
            ring.head() == 0,
            ring.length() == 0,
            ring@ == Seq::<T>::empty(),
            forall|i: int| 0 <= i < ring.slots().len() ==> cloned(fill, #[trigger] ring.slots()[i]),
    {
        let capacity = if capacity < 1 { 1 } else { capacity };
        let points = vec![fill; capacity as usize];
        let ring = TrailRing { head: 0, length: 0, capacity, points };
        assert(ring@ =~= Seq::<T>::empty());
        ring
    }

    /// A ring over hand-built storage: `points` are the slots, `head` the
    /// slot of the newest point and `length` the number of live points.
    /// Returns `None` when these break the storage invariant.
    pub fn from_parts(points: Vec<T>, head: u32, length: u32) -> (ring: Option<Self>)
        ensures
            match ring {
                Some(r) => {
                    &&& r.slots() == points@
                    &&& r.head() == head
                    &&& r.length() == length
                    &&& r.capacity() == points@.len()
                },
                None => !(0 < points@.len() <= u32::MAX && head < points@.len()
                    && length <= points@.len()),
            },
    {
        let n = points.len();
        if n == 0 || n > u32::MAX as usize {
            return None;
        }
        let capacity = n as u32;
        if head >= capacity || length > capacity {
            return None;
        }
        Some(TrailRing { head, length, capacity, points })
    }

    /// Number of slots.
    #[verifier::when_used_as_spec(spec_capacity)]
    pub fn capacity(&self) -> (r: u32)
        ensures
            r == self.spec_capacity(),
            0 < r,
            self.slots().len() == r,
    {
        proof {
            use_type_invariant(self);
        }
        self.capacity
    }

    /// Slot of the newest point.
    #[verifier::when_used_as_spec(spec_head)]
    pub fn head(&self) -> (r: u32)
        ensures
            r == self.spec_head(),
            r < self.spec_capacity(),
    {
        proof {
            use_type_invariant(self);
        }
        self.head
    }

    /// Number of live points.
    #[verifier::when_used_as_spec(spec_length)]
    pub fn length(&self) -> (r: u32)
        ensures
            r == self.spec_length(),
            r <= self.spec_capacity(),
            r == self@.len(),
    {
        proof {
            use_type_invariant(self);
        }
        self.length
    }

    /// Every slot of the storage, in storage order.
    pub fn points(&self) -> (r: &Vec<T>)
        ensures
            r@ == self.slots(),
            r@.len() == self.spec_capacity(),
    {
        proof {
            use_type_invariant(self);
        }
        &self.points
    }

    proof fn lemma_live_slot(&self, j: int)
        requires
            self.wf(),
            0 <= j < self.length,
        ensures
            0 <= self.live_slot(j) < self.capacity,
            self@[j] == self.points@[self.live_slot(j)],
            j == self.length - 1 ==> self.live_slot(j) == self.head,
            j < self.length - 1 ==> self.live_slot(j) != self.head,
    {
    }

    /// Emits `point`: the head advances one slot, wrapping at the end of the
    /// storage, the point is written there, and the live segment grows by one
    /// until it covers every slot.
    pub fn emit(&mut self, point: T)
        ensures
            final(self).capacity() == old(self).capacity(),
            final(self).head() == (old(self).head() + 1) % (old(self).capacity() as int),
            final(self).length() == if old(self).length() < old(self).capacity() {
                old(self).length() + 1
            } else {
                old(self).length() as int
            },
            final(self).slots() == old(self).slots().update(final(self).head() as int, point),
            final(self)@ == ring_push(old(self)@, old(self).capacity() as nat, point),
    {
        proof {
            use_type_invariant(&*self);
        }
        let ghost pre = *self;
        proof {
            lemma_mod_one_wrap(self.head + 1, self.capacity as int);
        }
        self.head = (self.head + 1) % self.capacity;
        self.length = if self.length < self.capacity {
            self.length + 1
        } else {
            self.capacity
        };
        let h = self.head as usize;
        self.points[h] = point;
        proof {
            let expected = ring_push(pre@, pre.capacity as nat, point);
            assert forall|j: int| 0 <= j < self.length implies #[trigger] self@[j] == expected[j] by {
                if j < self.length - 1 {
                    if pre.length < pre.capacity {
                        assert(self.live_slot(j) == pre.live_slot(j));
                        pre.lemma_live_slot(j);
                    } else {
                        assert(self.live_slot(j) == pre.live_slot(j + 1));
                        pre.lemma_live_slot(j + 1);
                    }
                }
            }
            assert(self@ =~= expected);
        }
    }

    /// Overwrites the newest point with `point` (the head stays where it is),
    /// so a trail that did not emit still ends at its entity's position.
    pub fn pin_head(&mut self, point: T)
        ensures
            final(self).capacity() == old(self).capacity(),
            final(self).head() == old(self).head(),
            final(self).length() == old(self).length(),
            final(self).slots() == old(self).slots().update(old(self).head() as int, point),
            final(self)@ == if old(self).length() == 0 {
                old(self)@
            } else {
                old(self)@.update(old(self).length() - 1, point)
            },
    {
        proof {
            use_type_invariant(&*self);
        }
        let ghost pre = *self;
        let h = self.head as usize;
        self.points[h] = point;
        proof {
            let expected = if pre.length == 0 {
                pre@
            } else {
                pre@.update(pre.length - 1, point)
            };
            assert forall|j: int| 0 <= j < self.length implies #[trigger] self@[j] == expected[j] by {
                pre.lemma_live_slot(j);
            }
            assert(self@ =~= expected);
        }
    }

    /// The live length left once the tail is clipped: while more than one
    /// point is live and the oldest live point is not within budget, that
    /// point leaves the live segment. `within_budget[i]` says whether the
    /// point in slot `i` is still within the trail's length and time budget.
    pub fn clipped_length(&self, within_budget: &Vec<bool>) -> (r: u32)
        requires
            within_budget@.len() == self.capacity(),
        ensures
            r == kept_length(self.live_flags(within_budget@)),
            r <= self.length(),
            self.length() >= 1 ==> r >= 1,
            forall|j: int|
                0 <= j < self.length() - r ==> !within_budget@[#[trigger] self.live_slot(j)],
            r > 1 ==> within_budget@[self.live_slot(self.length() - r)],
    {
        proof {
            use_type_invariant(self);
        }
        let ghost flags = self.live_flags(within_budget@);
        proof {
            lemma_kept_length(flags);
            assert forall|j: int| 0 <= j < self.length - kept_length(flags) implies !within_budget@[
                #[trigger] self.live_slot(j)] by {
                assert(!flags[j]);
            }
            if kept_length(flags) > 1 {
                assert(flags[self.length - kept_length(flags)]);
            }
        }
        let c = self.capacity as u64;
        let mut length = self.length;
        assert(flags.subrange(0, self.length as int) =~= flags);
        while length > 1
            invariant
                self.wf(),
                c == self.capacity,
                within_budget@.len() == self.capacity,
                flags == self.live_flags(within_budget@),
                flags.len() == self.length,
                length <= self.length,
                kept_length(flags) == kept_length(
                    flags.subrange(self.length - length, self.length as int),
                ),
            ensures
                length <= 1 || flags[self.length - length],
                length <= self.length,
                kept_length(flags) == kept_length(
                    flags.subrange(self.length - length, self.length as int),
                ),
            decreases length,
        {
            // Slot of the oldest point still live: (head + capacity - length + 1) % capacity.
            let t = self.head as u64 + c - length as u64 + 1;
            proof {
                lemma_mod_one_wrap(t as int, c as int);
                assert(self.live_slot(self.length - length) == (t % c) as int);
            }
            let end = (t % c) as usize;
            if within_budget[end] {
                break;
            }
            let ghost cur = flags.subrange(self.length - length, self.length as int);
            length = length - 1;
            proof {
                assert(cur.drop_first() =~= flags.subrange(self.length - length, self.length as int));
            }
        }
        proof {
            let rest = flags.subrange(self.length - length, self.length as int);
            assert(rest.len() <= 1 || rest[0]);
        }
        length
    }

    /// The live length left once the tail is clipped by the trail's budgets.
    /// `within_length[i]` and `within_time[i]` say whether the point in slot
    /// `i` passes the length test and the time test; a disabled budget does
    /// not clip, and with both disabled nothing is clipped.
    pub fn budget_clipped_length(
        &self,
        within_length: &Vec<bool>,
        within_time: &Vec<bool>,
        length_enabled: bool,
        time_enabled: bool,
    ) -> (r: u32)
        requires
            within_length@.len() == self.capacity(),
            within_time@.len() == self.capacity(),
        ensures
            r == if length_enabled || time_enabled {
                kept_length(
                    self.live_flags(
                        budget_flags(within_length@, within_time@, length_enabled, time_enabled),
                    ),
                )
            } else {
                self.length() as nat
            },
            r <= self.length(),
            self.length() >= 1 ==> r >= 1,
            !(length_enabled || time_enabled) ==> r == self.length(),
            forall|j: int|
                0 <= j < self.length() - r ==> {
                    ||| (length_enabled && !within_length@[#[trigger] self.live_slot(j)])
                    ||| (time_enabled && !within_time@[self.live_slot(j)])
                },
            r > 1 ==> {
                &&& (!length_enabled || within_length@[self.live_slot(self.length() - r)])
                &&& (!time_enabled || within_time@[self.live_slot(self.length() - r)])
            },
    {
        proof {
            use_type_invariant(self);
            lemma_budget_flags(within_length@, within_time@, length_enabled, time_enabled);
        }
        if !length_enabled && !time_enabled {
            return self.length();
        }
        let flags = within_every_budget(within_length, within_time, length_enabled, time_enabled);
        let r = self.clipped_length(&flags);
        proof {
            assert forall|j: int| 0 <= j < self.length() - r implies {
                ||| (length_enabled && !within_length@[#[trigger] self.live_slot(j)])
                ||| (time_enabled && !within_time@[self.live_slot(j)])
            } by {
                assert(!flags@[self.live_slot(j)]);
            }
            if r > 1 {
                assert(flags@[self.live_slot(self.length() - r)]);
            }
        }
        r
    }

    /// Keeps only the `n` newest live points: the oldest points leave the
    /// live segment, the storage and the head stay as they are.
    pub fn retain_newest(&mut self, n: u32)
        requires
            n <= old(self).length(),
        ensures
            final(self).capacity() == old(self).capacity(),
            final(self).head() == old(self).head(),
            final(self).length() == n,
            final(self).slots() == old(self).slots(),
            final(self)@ == old(self)@.subrange(old(self).length() - n, old(self).length() as int),
    {
        proof {
            use_type_invariant(&*self);
        }
        let ghost pre = *self;
        self.length = n;
        proof {
            assert(self@ =~= pre@.subrange(pre.length - n, pre.length as int)) by {
                assert forall|j: int| 0 <= j < n implies #[trigger] self@[j]
                    == pre@.subrange(pre.length - n, pre.length as int)[j] by {
                    assert(self.live_slot(j) == pre.live_slot(j + pre.length - n));
                }
            }
        }
    }
}

/// Where the live points sit: live point `j` (0 is the oldest) is in slot
/// `(head + capacity - length + 1 + j) % capacity`, so the newest is in the
/// head slot and the live points run forward from the oldest, wrapping at the
/// end of the storage.
pub proof fn lemma_live_slot_position<T>(ring: TrailRing<T>, j: int)
    requires
        0 < ring.spec_capacity(),
        ring.spec_head() < ring.spec_capacity(),
        ring.spec_length() <= ring.spec_capacity(),
        0 <= j < ring.spec_length(),
    ensures
        ring.live_slot(j) == (ring.spec_head() + ring.spec_capacity() - ring.spec_length() + 1 + j)
            % (ring.spec_capacity() as int),
        0 <= ring.live_slot(j) < ring.spec_capacity(),
        ring.live_slot(ring.spec_length() - 1) == ring.spec_head(),
{
    let c = ring.spec_capacity() as int;
    lemma_mod_one_wrap(ring.spec_head() + c - ring.spec_length() + 1 + j, c);
}

/// What clipping keeps: never more than the live points, at least one of
/// them when there were any, every dropped point was out of budget, and the
/// oldest point that stays is within budget unless it is the only one left.
pub proof fn lemma_kept_length(within_budget: Seq<bool>)
    ensures
        kept_length(within_budget) <= within_budget.len(),
        within_budget.len() >= 1 ==> kept_length(within_budget) >= 1,
        forall|j: int|
            0 <= j < within_budget.len() - kept_length(within_budget) ==> !#[trigger] within_budget[j],
        kept_length(within_budget) > 1 ==> within_budget[within_budget.len() - kept_length(within_budget)],
    decreases within_budget.len(),
{
    if within_budget.len() > 1 && !within_budget[0] {
        let rest = within_budget.drop_first();
        lemma_kept_length(rest);
        assert forall|j: int|
            0 <= j < within_budget.len() - kept_length(within_budget) implies !#[trigger] within_budget[j] by {
            if j > 0 {
                assert(within_budget[j] == rest[j - 1]);
            }
        }
    }
}

/// Emitting `points` in turn into an empty ring of `capacity >= 1` slots
/// leaves `min(k, capacity)` live points, where `k` is the number emitted, and
/// live point `i` (0 is the oldest) is emitted point `k - n + i`.
pub proof fn lemma_ring_latest_by_index<T>(capacity: nat, points: Seq<T>)
    requires
        capacity >= 1,
    ensures
        ({
            let k = points.len() as int;
            let n = if k < capacity { k } else { capacity as int };
            let live = ring_push_all(Seq::<T>::empty(), capacity, points);
            &&& live.len() == n
            &&& forall|i: int| 0 <= i < n ==> #[trigger] live[i] == points[k - n + i]
        }),
{
    lemma_ring_keeps_latest(Seq::<T>::empty(), capacity, points);
    assert(Seq::<T>::empty() + points =~= points);
}

/// Clipping never removes the newest point: whenever a ring has live points,
/// the points that survive clipping end with the newest one.
pub proof fn lemma_clip_keeps_newest<T>(live: Seq<T>, within_budget: Seq<bool>)
    requires
        within_budget.len() == live.len(),
        live.len() >= 1,
    ensures
        ({
            let n = live.len() as int;
            let kept = live.subrange(n - kept_length(within_budget), n);
            &&& kept.len() >= 1
            &&& kept.last() == live.last()
        }),
{
    lemma_kept_length(within_budget);
}

/// Clipping twice with the same flags changes nothing the second time: what
/// survives the first clip is kept whole by the second.
pub proof fn lemma_clip_idempotent(within_budget: Seq<bool>)
    ensures
        ({
            let n = within_budget.len() as int;
            let kept = within_budget.subrange(n - kept_length(within_budget), n);
            kept_length(kept) == kept.len()
        }),
    decreases within_budget.len(),
{
    let n = within_budget.len() as int;
    lemma_kept_length(within_budget);
    if n > 1 && !within_budget[0] {
        let rest = within_budget.drop_first();
        lemma_clip_idempotent(rest);
        assert(rest.subrange(rest.len() - kept_length(rest), rest.len() as int)
            =~= within_budget.subrange(n - kept_length(within_budget), n));
    }
}

/// The ring keeps the most recent points: emitting `points` in turn into a
/// ring of `capacity >= 1` slots whose live points were `live` (at most
/// `capacity` of them) leaves live exactly the last `capacity` points of
/// `live` followed by `points`, oldest first.
pub proof fn lemma_ring_keeps_latest<T>(live: Seq<T>, capacity: nat, points: Seq<T>)
    requires
        capacity >= 1,
        live.len() <= capacity,
    ensures
        ({
            let all = live + points;
            let n = all.len() as int;
            ring_push_all(live, capacity, points) == all.subrange(
                if n > capacity { n - capacity } else { 0 },
                n,
            )
        }),
    decreases points.len(),
{
    let all = live + points;
    let n = all.len() as int;
    if points.len() == 0 {
        assert(all =~= live);
        assert(all.subrange(0, n) =~= live);
    } else {
        let prev = points.drop_last();
        lemma_ring_keeps_latest(live, capacity, prev);
        let all_prev = live + prev;
        let m = all_prev.len() as int;
        assert(all_prev =~= all.subrange(0, n - 1));
        let before = ring_push_all(live, capacity, prev);
        let start = if n > capacity { n - capacity } else { 0 };
        let start_prev = if m > capacity { m - capacity } else { 0 };
        assert(before == all_prev.subrange(start_prev, m));
        assert(all[n - 1] == points.last());
        assert(ring_push(before, capacity, points.last()) =~= all.subrange(start, n));
    }
}

} // verus!
