//! The append-only object heap that the page store runs on: an external,
//! injected collaborator modelled as a linearizable map from numeric
//! object ids to byte payloads, with an atomic multi-object batch write.
//! A batch fully applies or, on failure, applies none of its entries;
//! maintenance reclaims superseded versions without changing any live
//! object. `MemHeap` is the in-memory double used by tests; any
//! log-structured or copy-on-write engine meeting the contract is a
//! valid backend.

use crate::bytes::copy_bytes;
use vstd::prelude::*;

verus! {

/// A heap operation failed; the heap's logical contents are unaffected.
#[derive(Clone, Copy, Debug, PartialEq, Eq)]
pub struct HeapError;

/// Heap-wide object counts: versions still reachable and versions
/// superseded but not yet reclaimed.
#[derive(Clone, Copy, Debug, PartialEq, Eq)]
pub struct HeapStats {
    pub live_objects: u64,
    pub dead_objects: u64,
}

/// The view of one batch entry: a payload to store, or absence to
/// delete.
pub open spec fn opt_bytes_view(o: Option<Vec<u8>>) -> Option<Seq<u8>> {
    match o {
        Option::Some(v) => Option::Some(v@),
        Option::None => Option::None,
    }
}

/// The view of a whole batch.
pub open spec fn batch_view(b: Seq<(u64, Option<Vec<u8>>)>) -> Seq<(u64, Option<Seq<u8>>)> {
    b.map_values(|e: (u64, Option<Vec<u8>>)| (e.0, opt_bytes_view(e.1)))
}

/// The objects after a batch applies in order: a present payload is
/// stored, an absent one deletes.
pub open spec fn apply_batch(m: Map<u64, Seq<u8>>, b: Seq<(u64, Option<Seq<u8>>)>) -> Map<
    u64,
    Seq<u8>,
>
    decreases b.len(),
{
    if b.len() == 0 {
        m
    } else {
        let head = apply_batch(m, b.drop_last());
        match b.last().1 {
            Option::Some(v) => head.insert(b.last().0, v),
            Option::None => head.remove(b.last().0),
        }
    }
}

/// The heap collaborator interface: read one object, write a batch
/// atomically, report live/dead counts, reclaim dead space.
pub trait Heap: Sized {
    /// The live objects, id to payload; a heap the library has no
    /// model for defaults to the empty map.
    open spec fn objects(&self) -> Map<u64, Seq<u8>> {
        Map::empty()
    }

    /// The count of live object versions the heap reports.
    open spec fn live(&self) -> u64 {
        0u64
    }

    /// The count of superseded object versions the heap reports.
    open spec fn dead(&self) -> u64 {
        0u64
    }

    /// Reads the payload of one object, absent when no such object
    /// lives.
    fn read(&self, id: u64) -> (r: Result<Option<Vec<u8>>, HeapError>)
        ensures
            r matches Ok(o) ==> match o {
                Option::Some(v) => self.objects().contains_key(id) && v@ == self.objects()[id],
                Option::None => !self.objects().contains_key(id),
            },
    ;

    /// Applies every entry of the batch, or none of them.
    fn write_batch(&mut self, batch: Vec<(u64, Option<Vec<u8>>)>) -> (r: Result<(), HeapError>)
        ensures
            r is Ok ==> final(self).objects() == apply_batch(
                old(self).objects(),
                batch_view(batch@),
            ),
            r is Err ==> final(self).objects() == old(self).objects(),
    ;

    /// Reports the heap-wide live and dead counts.
    fn stats(&self) -> (r: HeapStats)
        ensures
            r.live_objects == self.live(),
            r.dead_objects == self.dead(),
    ;

    /// Reclaims space held by dead versions; live objects are unchanged
    /// whether or not it succeeds.
    fn maintenance(&mut self) -> (r: Result<(), HeapError>)
        ensures
            final(self).objects() == old(self).objects(),
    ;
}

/// Whether the live/dead counts call for compaction: exactly when dead
/// objects outnumber live ones. The store invokes maintenance inline
/// after a write exactly when this holds of the counts it read.
pub fn compaction_due(stats: &HeapStats) -> (r: bool)
    ensures
        r == (stats.dead_objects > stats.live_objects),
{
    stats.dead_objects > stats.live_objects
}

/// The objects folded from a slot vector indexed by id.
pub open spec fn slots_map(s: Seq<Option<Vec<u8>>>) -> Map<u64, Seq<u8>> {
    Map::new(
        |id: u64| id < s.len() && s[id as int] is Some,
        |id: u64| s[id as int].unwrap()@,
    )
}

/// An in-memory heap: the test double behind the page store. It keeps
/// every object in a slot vector, counts superseded versions, and can
/// be told to fail its next batch, simulating an atomic-commit failure.
pub struct MemHeap {
    slots: Vec<Option<Vec<u8>>>,
    live_count: u64,
    dead_count: u64,
    fail_next: bool,
    maintenance_calls: u64,
}

impl MemHeap {
    /// A fresh, empty heap.
    pub fn new() -> (r: MemHeap)
        ensures
            r.objects() == Map::<u64, Seq<u8>>::empty(),
            r.live() == 0,
            r.dead() == 0,
    {
        let r = MemHeap {
            slots: Vec::new(),
            live_count: 0,
            dead_count: 0,
            fail_next: false,
            maintenance_calls: 0,
        };
        proof {
            assert(slots_map(r.slots@) =~= Map::<u64, Seq<u8>>::empty());
        }
        r
    }

    /// Makes the next batch write fail without applying, as a crashed
    /// or rejected atomic commit would.
    pub fn fail_next_batch(&mut self)
        ensures
            final(self).objects() == old(self).objects(),
            final(self).live() == old(self).live(),
            final(self).dead() == old(self).dead(),
    {
        self.fail_next = true;
    }

    /// How many times maintenance has run on this heap.
    pub closed spec fn maintenance_runs(&self) -> u64 {
        self.maintenance_calls
    }

    /// How many times maintenance has run on this heap.
    pub fn maintenance_count(&self) -> (r: u64)
        ensures
            r == self.maintenance_runs(),
    {
        self.maintenance_calls
    }

    /// Stores `v` in the slot for `id`, growing the vector as needed.
    fn set_slot(&mut self, id: u64, v: Vec<u8>)
        ensures
            final(self).objects() == old(self).objects().insert(id, v@),
    {
        while (self.slots.len() as u64) <= id
            invariant
                slots_map(self.slots@) == slots_map(old(self).slots@),
                self.live_count == old(self).live_count,
                self.dead_count == old(self).dead_count,
                self.fail_next == old(self).fail_next,
                self.maintenance_calls == old(self).maintenance_calls,
            decreases id + 1 - self.slots@.len(),
        {
            let ghost before = self.slots@;
            self.slots.push(None);
            proof {
                assert(slots_map(self.slots@) =~= slots_map(before));
            }
        }
        let iu: usize = id as usize;
        let was_live = self.slots[iu].is_some();
        let ghost before = self.slots@;
        self.slots.set(iu, Some(v));
        proof {
            assert(slots_map(self.slots@) =~= slots_map(before).insert(id, v@));
        }
        if was_live {
            if self.dead_count < u64::MAX {
                self.dead_count = self.dead_count + 1;
            }
        } else {
            if self.live_count < u64::MAX {
                self.live_count = self.live_count + 1;
            }
        }
    }

    /// Clears the slot for `id`, if it lives.
    fn clear_slot(&mut self, id: u64)
        ensures
            final(self).objects() == old(self).objects().remove(id),
    {
        if id < self.slots.len() as u64 {
            let iu: usize = id as usize;
            let was_live = self.slots[iu].is_some();
            let ghost before = self.slots@;
            self.slots.set(iu, None);
            proof {
                assert(slots_map(self.slots@) =~= slots_map(before).remove(id));
            }
            if was_live {
                if self.live_count > 0 {
                    self.live_count = self.live_count - 1;
                }
                if self.dead_count < u64::MAX {
                    self.dead_count = self.dead_count + 1;
                }
            }
        } else {
            proof {
                assert(slots_map(self.slots@) =~= slots_map(self.slots@).remove(id));
            }
        }
    }
}

impl Heap for MemHeap {
    closed spec fn objects(&self) -> Map<u64, Seq<u8>> {
        slots_map(self.slots@)
    }

    closed spec fn live(&self) -> u64 {
        self.live_count
    }

    closed spec fn dead(&self) -> u64 {
        self.dead_count
    }

    fn read(&self, id: u64) -> (r: Result<Option<Vec<u8>>, HeapError>) {
        if id < self.slots.len() as u64 {
            let iu: usize = id as usize;
            match &self.slots[iu] {
                Some(v) => Ok(Some(copy_bytes(v))),
                None => Ok(None),
            }
        } else {
            Ok(None)
        }
    }

    fn write_batch(&mut self, batch: Vec<(u64, Option<Vec<u8>>)>) -> (r: Result<(), HeapError>) {
        if self.fail_next {
            self.fail_next = false;
            return Err(HeapError);
        }
        let mut i: usize = 0;
        while i < batch.len()
            invariant
                i <= batch@.len(),
                slots_map(self.slots@) == apply_batch(
                    old(self).objects(),
                    batch_view(batch@).take(i as int),
                ),
            decreases batch@.len() - i,
        {
            let ghost pre = slots_map(self.slots@);
            match &batch[i].1 {
                Some(v) => {
                    let copied = copy_bytes(v);
                    let id = batch[i].0;
                    self.set_slot(id, copied);
                }
                None => {
                    let id = batch[i].0;
                    self.clear_slot(id);
                }
            }
            proof {
                let bv = batch_view(batch@);
                assert(bv.take(i + 1).drop_last() =~= bv.take(i as int));
                assert(bv.take(i + 1).last() == bv[i as int]);
            }
            i = i + 1;
        }
        proof {
            assert(batch_view(batch@).take(batch@.len() as int) =~= batch_view(batch@));
        }
        Ok(())
    }

    fn stats(&self) -> (r: HeapStats) {
        HeapStats { live_objects: self.live_count, dead_objects: self.dead_count }
    }

    fn maintenance(&mut self) -> (r: Result<(), HeapError>)
        ensures
            final(self).dead() == 0,
            final(self).live() == old(self).live(),
            final(self).maintenance_runs() == (if old(self).maintenance_runs() < u64::MAX {
                (old(self).maintenance_runs() + 1) as u64
            } else {
                old(self).maintenance_runs()
            }),
    {
        self.dead_count = 0;
        if self.maintenance_calls < u64::MAX {
            self.maintenance_calls = self.maintenance_calls + 1;
        }
        Ok(())
    }
}

} // verus!
