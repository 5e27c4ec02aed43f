//! Per-entity trail history whose ring head is the next insertion slot.
//!
//! The ring holds `capacity` slots; `head` is the slot the next point is
//! written to and `len` counts the valid points, which end just before
//! `head`: the oldest valid point sits in slot `head - len` and the newest in
//! slot `head - 1`, wrapping around the end of the storage.

use vstd::prelude::*;
use crate::ring::{lemma_mod_one_wrap, ring_push};

verus! {

/// How many points, oldest first, are expired before the first one that is
/// not.
pub open spec fn expired_prefix(expired: Seq<bool>) -> nat
    decreases expired.len(),
{
    if expired.len() == 0 {
        0
    } else if expired[0] {
        1 + expired_prefix(expired.drop_first())
    } else {
        0
    }
}

/// Trail history: fixed-capacity ring storage of control points.
#[derive(Debug)]
pub struct Trail<T> {
    /// Fixed-capacity ring storage for control points.
    points: Vec<T>,
    /// Maximum ring capacity.
    capacity: u32,
    /// Next insertion index in the ring.
    head: u32,
    /// Number of valid points currently in the ring.
    len: u32,
    /// Marks whether GPU data needs upload this frame.
    dirty: bool,
}

impl<T: Clone> Clone for Trail<T> {
    /// A copy with the same head, count, capacity and upload mark, each slot
    /// a clone of the slot it copies.
    fn clone(&self) -> (r: Self)
        ensures
            r.spec_head() == self.spec_head(),
            r.spec_point_count() == self.spec_point_count(),
            r.spec_capacity() == self.spec_capacity(),
            r.spec_dirty() == self.spec_dirty(),
            r.slots().len() == self.slots().len(),
            forall|i: int| 0 <= i < self.slots().len() ==> cloned(self.slots()[i], #[trigger] r.slots()[i]),
    {
        proof {
            use_type_invariant(self);
        }
        Trail {
            points: self.points.clone(),
            capacity: self.capacity,
            head: self.head,
            len: self.len,
            dirty: self.dirty,
        }
    }
}

impl<T> View for Trail<T> {
    type V = Seq<T>;

    /// The valid points, oldest first.
    open spec fn view(&self) -> Seq<T> {
        Seq::new(self.spec_point_count() as nat, |j: int| self.slots()[self.slot_of(j)])
    }
}

impl<T> Trail<T> {
    /// The storage invariant.
    #[verifier::type_invariant]
    spec fn wf(&self) -> bool {
        &&& 0 < self.capacity
        &&& self.head < self.capacity
        &&& self.len <= self.capacity
        &&& self.points@.len() == self.capacity
    }

    pub closed spec fn spec_capacity(&self) -> u32 {
        self.capacity
    }

    pub closed spec fn spec_head(&self) -> u32 {
        self.head
    }

    pub closed spec fn spec_point_count(&self) -> u32 {
        self.len
    }

    pub closed spec fn spec_dirty(&self) -> bool {
        self.dirty
    }

    /// Every slot of the storage, in storage order.
    pub closed spec fn slots(&self) -> Seq<T> {
        self.points@
    }

    /// The slot that holds the valid point `j` (0 is the oldest).
    pub open spec fn slot_of(&self, j: int) -> int {
        let k = self.spec_head() - self.spec_point_count() + j;
        if k < 0 {
            k + self.spec_capacity()
        } else {
            k
        }
    }

    /// The slot of the oldest valid point.
    pub open spec fn spec_oldest_index(&self) -> int {
        (self.spec_head() + self.spec_capacity() - self.spec_point_count()) % (self.spec_capacity() as int)
    }

    /// For each valid point, oldest first, its flag in `per_slot`.
    pub open spec fn valid_flags(&self, per_slot: Seq<bool>) -> Seq<bool> {
        Seq::new(self.spec_point_count() as nat, |j: int| per_slot[self.slot_of(j)])
    }

    /// A new, empty trail of `max_points` slots, each a clone of `fill`,
    /// marked for upload.
    pub fn new(max_points: u32, fill: T) -> (trail: Self)
        where T: Clone,
        requires
            max_points >= 2,
        ensures
            trail.capacity() == max_points,
            trail.head() == 0,
            trail.point_count() == 0,
            trail.dirty(),
            trail@ == Seq::<T>::empty(),
            forall|i: int| 0 <= i < trail.slots().len() ==> cloned(fill, #[trigger] trail.slots()[i]),
    {
        let capacity = max_points;
        let trail = Trail {
            points: vec![fill; capacity as usize],
            capacity,
            head: 0,
            len: 0,
            dirty: true,
        };
        assert(trail@ =~= Seq::<T>::empty());
        trail
    }

    /// Maximum ring capacity.
    #[verifier::when_used_as_spec(spec_capacity)]
    pub fn capacity(&self) -> (r: u32)
        ensures
            r == self.spec_capacity(),
            0 < r,
            self.slots().len() == r,
    {
        proof {
            use_type_invariant(self);
        }
        self.capacity
    }

    /// Next insertion index in the ring.
    #[verifier::when_used_as_spec(spec_head)]
    pub fn head(&self) -> (r: u32)
        ensures
            r == self.spec_head(),
            r < self.spec_capacity(),
    {
        proof {
            use_type_invariant(self);
        }
        self.head
    }

    /// The current number of points in the trail.
    #[verifier::when_used_as_spec(spec_point_count)]
    pub fn point_count(&self) -> (r: u32)
        ensures
            r == self.spec_point_count(),
            r <= self.spec_capacity(),
            r == self@.len(),
    {
        proof {
            use_type_invariant(self);
        }
        self.len
    }

    /// Whether GPU data needs upload this frame.
    #[verifier::when_used_as_spec(spec_dirty)]
    pub fn dirty(&self) -> (r: bool)
        ensures
            r == self.spec_dirty(),
    {
        self.dirty
    }

    /// Marks whether GPU data needs upload this frame.
    pub fn set_dirty(&mut self, dirty: bool)
        ensures
            final(self).dirty() == dirty,
            final(self).slots() == old(self).slots(),
            final(self).spec_capacity() == old(self).spec_capacity(),
            final(self).spec_head() == old(self).spec_head(),
            final(self).spec_point_count() == old(self).spec_point_count(),
            final(self)@ == old(self)@,
    {
        proof {
            use_type_invariant(&*self);
        }
        self.dirty = dirty;
    }

    /// Every slot of the storage, in storage order.
    pub fn points(&self) -> (r: &Vec<T>)
        ensures
            r@ == self.slots(),
    {
        proof {
            use_type_invariant(self);
        }
        &self.points
    }

    proof fn lemma_slot_of(&self, j: int)
        requires
            self.wf(),
            0 <= j < self.len,
        ensures
            0 <= self.slot_of(j) < self.capacity,
            self@[j] == self.points@[self.slot_of(j)],
            self.slot_of(j) == (self.spec_oldest_index() + j) % (self.capacity as int),
    {
        let c = self.capacity as int;
        lemma_mod_one_wrap(self.head + c - self.len, c);
        let o = self.spec_oldest_index();
        lemma_mod_one_wrap(o + j, c);
    }

    fn oldest_index(&self) -> (r: u32)
        ensures
            r == self.spec_oldest_index(),
            r < self.capacity,
            self.len > 0 ==> r == self.slot_of(0),
    {
        proof {
            use_type_invariant(self);
        }
        let c = self.capacity as u64;
        let t = self.head as u64 + c - self.len as u64;
        proof {
            lemma_mod_one_wrap(t as int, c as int);
        }
        (t % c) as u32
    }

    /// The point at logical index `logical`, where 0 is the oldest and
    /// `len - 1` the newest: the slot `(oldest + logical) % capacity`.
    pub fn point_by_logical(&self, logical: u32) -> (r: &T)
        ensures
            *r == self.slots()[(self.spec_oldest_index() + logical) % (self.capacity() as int)],
            logical < self.point_count() ==> *r == self@[logical as int],
    {
        proof {
            use_type_invariant(self);
        }
        let c = self.capacity as u64;
        let physical = (self.oldest_index() as u64 + logical as u64) % c;
        proof {
            if logical < self.len {
                self.lemma_slot_of(logical as int);
            }
        }
        &self.points[physical as usize]
    }

    /// The newest point, if any.
    pub fn last_point(&self) -> (r: Option<&T>)
        ensures
            r == if self.point_count() == 0 {
                None::<&T>
            } else {
                Some(&self@.last())
            },
            self.point_count() > 0 ==> r == Some(
                &self.slots()[(self.head() + self.capacity() - 1) % (self.capacity() as int)],
            ),
    {
        proof {
            use_type_invariant(self);
        }
        if self.len == 0 {
            return None;
        }
        let c = self.capacity as u64;
        let newest = (self.head as u64 + c - 1) % c;
        proof {
            lemma_mod_one_wrap(self.head + c - 1, c as int);
            self.lemma_slot_of(self.len - 1);
        }
        Some(&self.points[newest as usize])
    }

    /// Writes `point` at the insertion index, advances the index (wrapping)
    /// and counts the point, up to the capacity.
    pub fn push_point(&mut self, point: T)
        ensures
            final(self).capacity() == old(self).capacity(),
            final(self).dirty() == old(self).dirty(),
            final(self).slots() == old(self).slots().update(old(self).head() as int, point),
            final(self).head() == (old(self).head() + 1) % (old(self).capacity() as int),
            final(self).point_count() == if old(self).point_count() < old(self).capacity() {
                old(self).point_count() + 1
            } else {
                old(self).point_count() as int
            },
            final(self)@ == ring_push(old(self)@, old(self).capacity() as nat, point),
    {
        proof {
            use_type_invariant(&*self);
        }
        let ghost pre = *self;
        let h = self.head as usize;
        self.points[h] = point;
        proof {
            lemma_mod_one_wrap(self.head + 1, self.capacity as int);
        }
        self.head = (self.head + 1) % self.capacity;
        self.len = if self.len < self.capacity {
            self.len + 1
        } else {
            self.capacity
        };
        proof {
            let expected = ring_push(pre@, pre.capacity as nat, point);
            assert forall|j: int| 0 <= j < self.len implies #[trigger] self@[j] == expected[j] by {
                if j < self.len - 1 {
                    if pre.len < pre.capacity {
                        assert(self.slot_of(j) == pre.slot_of(j));
                        pre.lemma_slot_of(j);
                    } else {
                        assert(self.slot_of(j) == pre.slot_of(j + 1));
                        pre.lemma_slot_of(j + 1);
                    }
                }
            }
            assert(self@ =~= expected);
        }
    }

    /// Prunes old points: while points remain and the oldest is expired, it
    /// leaves the ring. `expired[i]` says whether the point in slot `i` has
    /// outlived the point lifetime. Marks the trail for upload when any point
    /// left.
    pub fn update(&mut self, expired: &Vec<bool>)
        requires
            expired@.len() == old(self).capacity(),
        ensures
            final(self).capacity() == old(self).capacity(),
            final(self).head() == old(self).head(),
            final(self).slots() == old(self).slots(),
            final(self).point_count() == old(self).point_count() - expired_prefix(
                old(self).valid_flags(expired@),
            ),
            final(self)@ == old(self)@.subrange(
                old(self).point_count() - final(self).point_count(),
                old(self).point_count() as int,
            ),
            final(self).dirty() == (old(self).dirty() || final(self).point_count() < old(self).point_count()),
            forall|j: int|
                0 <= j < old(self).point_count() - final(self).point_count() ==> expired@[
                    #[trigger] old(self).slot_of(j)],
            final(self).point_count() > 0 ==> !expired@[old(self).slot_of(
                old(self).point_count() - final(self).point_count(),
            )],
    {
        proof {
            use_type_invariant(&*self);
        }
        let ghost pre = *self;
        let ghost flags = pre.valid_flags(expired@);
        assert(flags.subrange(0, pre.len as int) =~= flags);
        let mut removed_any = false;
        while self.len > 0
            invariant
                self.wf(),
                self.head == pre.head,
                self.capacity == pre.capacity,
                self.points@ == pre.points@,
                self.dirty == pre.dirty,
                expired@.len() == self.capacity,
                flags == pre.valid_flags(expired@),
                flags.len() == pre.len,
                self.len <= pre.len,
                removed_any == (self.len < pre.len),
                expired_prefix(flags) == (pre.len - self.len) + expired_prefix(
                    flags.subrange(pre.len - self.len, pre.len as int),
                ),
            ensures
                self.len == 0 || !flags[pre.len - self.len],
                self.len <= pre.len,
                removed_any == (self.len < pre.len),
                expired_prefix(flags) == (pre.len - self.len) + expired_prefix(
                    flags.subrange(pre.len - self.len, pre.len as int),
                ),
            decreases self.len,
        {
            let oldest_idx = self.oldest_index();
            proof {
                assert(self.slot_of(0) == pre.slot_of(pre.len - self.len));
            }
            if !expired[oldest_idx as usize] {
                break;
            }
            let ghost cur = flags.subrange(pre.len - self.len, pre.len as int);
            self.len = self.len - 1;
            removed_any = true;
            proof {
                assert(cur.drop_first() =~= flags.subrange(pre.len - self.len, pre.len as int));
            }
        }
        if removed_any {
            self.dirty = true;
        }
        proof {
            let rest = flags.subrange(pre.len - self.len, pre.len as int);
            assert(expired_prefix(rest) == 0);
            lemma_expired_prefix(flags);
            assert forall|j: int| 0 <= j < pre.len - self.len implies expired@[
                #[trigger] pre.slot_of(j)] by {
                assert(flags[j]);
            }
            if self.len > 0 {
                assert(!flags[pre.len - self.len]);
            }
            assert(self@ =~= pre@.subrange(pre.len - self.len, pre.len as int)) by {
                assert forall|j: int| 0 <= j < self.len implies #[trigger] self@[j]
                    == pre@.subrange(pre.len - self.len, pre.len as int)[j] by {
                    assert(self.slot_of(j) == pre.slot_of(j + pre.len - self.len));
                }
            }
        }
    }
}

/// Where the valid points sit: valid point `j` (0 is the oldest) is in slot
/// `(head + capacity - len + j) % capacity`, so the newest is just before the
/// insertion slot.
pub proof fn lemma_slot_position<T>(trail: Trail<T>, j: int)
    requires
        0 < trail.spec_capacity(),
        trail.spec_head() < trail.spec_capacity(),
        trail.spec_point_count() <= trail.spec_capacity(),
        0 <= j < trail.spec_point_count(),
    ensures
        trail.slot_of(j) == (trail.spec_oldest_index() + j) % (trail.spec_capacity() as int),
        trail.slot_of(j) == (trail.spec_head() + trail.spec_capacity() - trail.spec_point_count() + j)
            % (trail.spec_capacity() as int),
        0 <= trail.slot_of(j) < trail.spec_capacity(),
        trail.slot_of(trail.spec_point_count() - 1) == (trail.spec_head() + trail.spec_capacity() - 1)
            % (trail.spec_capacity() as int),
{
    let c = trail.spec_capacity() as int;
    let n = trail.spec_point_count() as int;
    lemma_mod_one_wrap(trail.spec_head() + c - n, c);
    lemma_mod_one_wrap(trail.spec_oldest_index() + j, c);
    lemma_mod_one_wrap(trail.spec_head() + c - n + j, c);
    lemma_mod_one_wrap(trail.spec_head() + c - 1, c);
}

/// What pruning removes: never more than the valid points, and exactly the
/// oldest expired ones up to the first point that is not expired.
pub proof fn lemma_expired_prefix(expired: Seq<bool>)
    ensures
        expired_prefix(expired) <= expired.len(),
        forall|j: int| 0 <= j < expired_prefix(expired) ==> #[trigger] expired[j],
        expired_prefix(expired) < expired.len() ==> !expired[expired_prefix(expired) as int],
    decreases expired.len(),
{
    if expired.len() > 0 && expired[0] {
        let rest = expired.drop_first();
        lemma_expired_prefix(rest);
        assert forall|j: int| 0 <= j < expired_prefix(expired) implies #[trigger] expired[j] by {
            if j > 0 {
                assert(expired[j] == rest[j - 1]);
            }
        }
    }
}

/// Pruning twice with the same flags removes nothing the second time: the
/// oldest point left after the first pruning is not expired.
pub proof fn lemma_prune_idempotent(expired: Seq<bool>)
    ensures
        expired_prefix(expired.subrange(expired_prefix(expired) as int, expired.len() as int)) == 0,
{
    lemma_expired_prefix(expired);
    let rest = expired.subrange(expired_prefix(expired) as int, expired.len() as int);
    if rest.len() > 0 {
        assert(rest[0] == expired[expired_prefix(expired) as int]);
    }
}

} // verus!
