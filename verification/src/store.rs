//! The blockstore capability: content-addressed get, put and delete,
//! implementable by any backing store. The abstract content of a store
//! is a map from identifier bytes to block payloads; the derived
//! operations are expressed purely in terms of the required three.

use crate::content_id::BlockCid;
use crate::kvlist::{keys_unique, kv_get, kv_put, kv_remove, kvs_map, kvs_view};
use crate::bytes::slice_to_vec;
use vstd::prelude::*;

verus! {

/// Why a store operation failed.
#[derive(Clone, Copy, Debug, PartialEq, Eq)]
pub enum StoreError {
    /// The underlying heap reported a failure.
    Heap,
    /// The routing index references an object the heap does not hold:
    /// a fatal integrity condition, never retried.
    MissingPage,
    /// A persisted index or page payload did not decode: on-disk
    /// corruption or a version mismatch, never silently repaired.
    Corrupt,
}

/// The blocks after the given pairs are stored one by one, in order.
pub open spec fn insert_all(
    m: Map<Seq<u8>, Seq<u8>>,
    entries: Seq<(Seq<u8>, Seq<u8>)>,
) -> Map<Seq<u8>, Seq<u8>>
    decreases entries.len(),
{
    if entries.len() == 0 {
        m
    } else {
        insert_all(m, entries.drop_last()).insert(entries.last().0, entries.last().1)
    }
}

/// The view of a list of keyed blocks.
pub open spec fn entries_view(entries: Seq<(BlockCid, Vec<u8>)>) -> Seq<(Seq<u8>, Seq<u8>)> {
    entries.map_values(|e: (BlockCid, Vec<u8>)| (e.0@, e.1@))
}

/// Layer of abstraction for block-centered methods over a datastore.
/// A block lives under exactly its content identifier's bytes; a
/// conforming store behaves as the abstract map `blocks()` wherever an
/// operation returns without error, and an error leaves the map either
/// untouched or, for a write whose commit landed before the failure,
/// fully updated.
pub trait Blockstore: Sized {
    /// The store's internal well-formedness; operations keep it.
    spec fn inv(&self) -> bool;

    /// The abstract content: identifier bytes to block payload.
    spec fn blocks(&self) -> Map<Seq<u8>, Seq<u8>>;

    /// Gets the block from the blockstore.
    fn get(&self, k: &BlockCid) -> (r: Result<Option<Vec<u8>>, StoreError>)
        requires
            self.inv(),
        ensures
            r matches Ok(o) ==> match o {
                Option::Some(v) => self.blocks().contains_key(k@) && v@ == self.blocks()[k@],
                Option::None => !self.blocks().contains_key(k@),
            },
    ;

    /// Put a block with a pre-computed cid.
    fn put_keyed(&mut self, k: &BlockCid, block: &[u8]) -> (r: Result<(), StoreError>)
        requires
            old(self).inv(),
        ensures
            final(self).inv(),
            r is Ok ==> final(self).blocks() == old(self).blocks().insert(k@, block@),
            r is Err ==> final(self).blocks() == old(self).blocks() || final(self).blocks()
                == old(self).blocks().insert(k@, block@),
    ;

    /// Delete a block from the blockstore.
    fn delete_block(&mut self, k: &BlockCid) -> (r: Result<(), StoreError>)
        requires
            old(self).inv(),
        ensures
            final(self).inv(),
            r is Ok ==> final(self).blocks() == old(self).blocks().remove(k@),
            r is Err ==> final(self).blocks() == old(self).blocks() || final(self).blocks()
                == old(self).blocks().remove(k@),
    ;

    /// Checks if the blockstore has the specified block.
    fn has(&self, k: &BlockCid) -> (r: Result<bool, StoreError>)
        requires
            self.inv(),
        ensures
            r matches Ok(b) ==> b == self.blocks().contains_key(k@),
    {
        match self.get(k) {
            Ok(o) => Ok(o.is_some()),
            Err(e) => Err(e),
        }
    }

    /// Bulk-put pre-keyed blocks into the blockstore.
    ///
    /// By default, this defers to put_keyed, storing the blocks one by
    /// one in order; a failure leaves some prefix of them stored.
    fn put_many_keyed(&mut self, blocks: Vec<(BlockCid, Vec<u8>)>) -> (r: Result<(), StoreError>)
        requires
            old(self).inv(),
        ensures
            final(self).inv(),
            r is Ok ==> final(self).blocks() == insert_all(
                old(self).blocks(),
                entries_view(blocks@),
            ),
            r is Err ==> exists|n: int|
                0 <= n <= blocks@.len() && final(self).blocks() == insert_all(
                    old(self).blocks(),
                    #[trigger] entries_view(blocks@).take(n),
                ),
    {
        let mut i: usize = 0;
        while i < blocks.len()
            invariant
                old(self).inv(),
                self.inv(),
                i <= blocks@.len(),
                self.blocks() == insert_all(old(self).blocks(), entries_view(blocks@).take(i as int)),
            decreases blocks@.len() - i,
        {
            let ghost pre = self.blocks();
            let r = self.put_keyed(&blocks[i].0, blocks[i].1.as_slice());
            proof {
                let ev = entries_view(blocks@);
                assert(ev.take(i + 1).drop_last() =~= ev.take(i as int));
                assert(ev.take(i + 1).last() == ev[i as int]);
            }
            match r {
                Ok(()) => {},
                Err(e) => {
                    proof {
                        let ev = entries_view(blocks@);
                        if self.blocks() == pre {
                            assert(self.blocks() == insert_all(
                                old(self).blocks(),
                                ev.take(i as int),
                            ));
                        } else {
                            assert(self.blocks() == insert_all(old(self).blocks(), ev.take(i + 1)));
                        }
                    }
                    return Err(e);
                },
            }
            i = i + 1;
        }
        proof {
            assert(entries_view(blocks@).take(blocks@.len() as int) =~= entries_view(blocks@));
        }
        Ok(())
    }
}

/// An in-memory blockstore: the test double variant of the capability,
/// holding every block in a unique-key pair list.
pub struct MemoryBlockstore {
    blocks: Vec<(Vec<u8>, Vec<u8>)>,
}

impl MemoryBlockstore {
    /// A fresh, empty store.
    pub fn new() -> (r: MemoryBlockstore)
        ensures
            r.inv(),
            r.blocks() == Map::<Seq<u8>, Seq<u8>>::empty(),
    {
        MemoryBlockstore { blocks: Vec::new() }
    }
}

impl Blockstore for MemoryBlockstore {
    closed spec fn inv(&self) -> bool {
        keys_unique(kvs_view(self.blocks@))
    }

    closed spec fn blocks(&self) -> Map<Seq<u8>, Seq<u8>> {
        kvs_map(kvs_view(self.blocks@))
    }

    fn get(&self, k: &BlockCid) -> (r: Result<Option<Vec<u8>>, StoreError>)
        ensures
            r is Ok,
    {
        let kd = k.to_bytes();
        Ok(kv_get(&self.blocks, &kd))
    }

    fn has(&self, k: &BlockCid) -> (r: Result<bool, StoreError>)
        ensures
            r is Ok,
    {
        match self.get(k) {
            Ok(o) => Ok(o.is_some()),
            Err(e) => Err(e),
        }
    }

    fn put_keyed(&mut self, k: &BlockCid, block: &[u8]) -> (r: Result<(), StoreError>)
        ensures
            r is Ok,
    {
        let kd = k.to_bytes();
        let payload = slice_to_vec(block);
        kv_put(&mut self.blocks, kd, payload);
        Ok(())
    }

    fn delete_block(&mut self, k: &BlockCid) -> (r: Result<(), StoreError>)
        ensures
            r is Ok,
    {
        let kd = k.to_bytes();
        kv_remove(&mut self.blocks, &kd);
        Ok(())
    }
}

/// Round-trip: in the abstract content of any conforming store,
/// storing a block under its identifier makes that identifier map to
/// exactly that block, and deleting it afterwards removes it — which,
/// with `put_keyed`, `get` and `delete_block` promising the abstract
/// insert, lookup and remove, is the put/get/delete round trip.
pub proof fn lemma_round_trip(m: Map<Seq<u8>, Seq<u8>>, k: Seq<u8>, v: Seq<u8>)
    ensures
        m.insert(k, v).contains_key(k),
        m.insert(k, v)[k] == v,
        !m.insert(k, v).remove(k).contains_key(k),
{
}

/// Extended capability for buffering stores that must be told a DAG
/// rooted at a identifier is complete; a store that does not buffer
/// has no use for it.
pub trait Buffered: Blockstore {
    /// Flush a DAG rooted at the given identifier.
    fn flush(&self, root: &BlockCid) -> (r: Result<(), StoreError>);
}

} // verus!
