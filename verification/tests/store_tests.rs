use quarry::content_id::{BlockCid, RAW_CODEC};
use quarry::heap::{Heap, MemHeap};
use quarry::quarry::Quarry;
use quarry::store::{Blockstore, MemoryBlockstore, StoreError};

fn open_fresh() -> Quarry<MemHeap> {
    match Quarry::open(MemHeap::new()) {
        Ok(q) => q,
        Err(_) => panic!("open failed on a fresh heap"),
    }
}

#[test]
fn put_get() {
    let mut quarry = open_fresh();
    let content: &[u8; 17] = b"morrocan mint tea";
    let cid = BlockCid::for_data(RAW_CODEC, content);

    quarry.put_keyed(&cid, content).unwrap();

    let result = quarry.get(&cid).unwrap();
    assert_eq!(result, Some(content.to_vec()));
}

#[test]
fn round_trip_and_delete() {
    let mut quarry = open_fresh();
    let content = b"some immutable block";
    let cid = BlockCid::for_data(RAW_CODEC, content);

    assert_eq!(quarry.get(&cid).unwrap(), None);
    quarry.put_keyed(&cid, content).unwrap();
    assert_eq!(quarry.get(&cid).unwrap(), Some(content.to_vec()));
    quarry.delete_block(&cid).unwrap();
    assert_eq!(quarry.get(&cid).unwrap(), None);
}

#[test]
fn round_trip_memory_store() {
    let mut store = MemoryBlockstore::new();
    let content = b"in-memory block";
    let cid = BlockCid::for_data(RAW_CODEC, content);

    assert_eq!(store.get(&cid).unwrap(), None);
    store.put_keyed(&cid, content).unwrap();
    assert_eq!(store.get(&cid).unwrap(), Some(content.to_vec()));
    store.delete_block(&cid).unwrap();
    assert_eq!(store.get(&cid).unwrap(), None);
}

#[test]
fn has_and_put_many() {
    let mut store = MemoryBlockstore::new();
    let c1 = BlockCid::for_data(RAW_CODEC, b"one");
    let c2 = BlockCid::for_data(RAW_CODEC, b"two");
    assert!(!store.has(&c1).unwrap());
    store
        .put_many_keyed(vec![(c1.clone(), b"one".to_vec()), (c2.clone(), b"two".to_vec())])
        .unwrap();
    assert!(store.has(&c1).unwrap());
    assert!(store.has(&c2).unwrap());
    assert_eq!(store.get(&c2).unwrap(), Some(b"two".to_vec()));
}

#[test]
fn cid_encoding_is_v1_sha256() {
    let cid = BlockCid::for_data(RAW_CODEC, b"morrocan mint tea");
    let bytes = cid.to_bytes();
    // version 1, raw codec, sha2-256 code, 32-byte digest
    assert_eq!(bytes.len(), 36);
    assert_eq!(&bytes[..4], &[0x01, 0x55, 0x12, 0x20]);
    let again = BlockCid::for_data(RAW_CODEC, b"morrocan mint tea");
    assert_eq!(bytes, again.to_bytes());
    let other = BlockCid::for_data(RAW_CODEC, b"morrocan mint teb");
    assert_ne!(bytes, other.to_bytes());
}

#[test]
fn persists_across_reopen() {
    let mut quarry = open_fresh();
    let content = b"kept across handles";
    let cid = BlockCid::for_data(RAW_CODEC, content);
    quarry.put_keyed(&cid, content).unwrap();
    let heap = quarry.into_heap();
    let quarry2 = match Quarry::open(heap) {
        Ok(q) => q,
        Err(_) => panic!("reopen failed"),
    };
    assert_eq!(quarry2.get(&cid).unwrap(), Some(content.to_vec()));
}

#[test]
fn failed_bootstrap_persists_nothing() {
    let mut heap = MemHeap::new();
    heap.fail_next_batch();
    match Quarry::open(heap) {
        Ok(_) => panic!("open should fail when the bootstrap batch fails"),
        Err(f) => {
            assert_eq!(f.error, StoreError::Heap);
            // neither the new page nor the index is observably persisted
            assert_eq!(f.heap.read(1).unwrap(), None);
            assert_eq!(f.heap.read(2).unwrap(), None);
            assert_eq!(f.heap.read(3).unwrap(), None);
        }
    }
}

#[test]
fn compaction_fires_only_when_dead_exceed_live() {
    let mut quarry = open_fresh();
    // bootstrap wrote the index and one page: two live objects
    let c1 = BlockCid::for_data(RAW_CODEC, b"first");
    quarry.put_keyed(&c1, b"first").unwrap();
    assert_eq!(quarry.heap().maintenance_count(), 0); // dead 1, live 2
    let c2 = BlockCid::for_data(RAW_CODEC, b"second");
    quarry.put_keyed(&c2, b"second").unwrap();
    assert_eq!(quarry.heap().maintenance_count(), 0); // dead 2, live 2
    let c3 = BlockCid::for_data(RAW_CODEC, b"third");
    quarry.put_keyed(&c3, b"third").unwrap();
    assert_eq!(quarry.heap().maintenance_count(), 1); // dead 3 > live 2
    assert_eq!(quarry.heap().stats().dead_objects, 0);
    let c4 = BlockCid::for_data(RAW_CODEC, b"fourth");
    quarry.put_keyed(&c4, b"fourth").unwrap();
    assert_eq!(quarry.heap().maintenance_count(), 1); // dead 1, live 2
}

#[test]
fn corrupt_index_is_fatal() {
    let mut heap = MemHeap::new();
    heap.write_batch(vec![(1u64, Some(vec![0xFFu8]))]).unwrap();
    match Quarry::open(heap) {
        Ok(_) => panic!("open should reject a corrupt index"),
        Err(f) => assert_eq!(f.error, StoreError::Corrupt),
    }
}

#[test]
fn corrupt_page_is_fatal() {
    let quarry = open_fresh();
    let mut heap = quarry.into_heap();
    heap.write_batch(vec![(2u64, Some(vec![1u8, 2u8, 3u8]))]).unwrap();
    match Quarry::open(heap) {
        Ok(_) => panic!("open should reject a corrupt page"),
        Err(f) => assert_eq!(f.error, StoreError::Corrupt),
    }
}

#[test]
fn missing_page_is_fatal() {
    let quarry = open_fresh();
    let mut heap = quarry.into_heap();
    heap.write_batch(vec![(2u64, None)]).unwrap();
    match Quarry::open(heap) {
        Ok(_) => panic!("open should reject an index entry for a missing page"),
        Err(f) => assert_eq!(f.error, StoreError::MissingPage),
    }
}

#[test]
fn routing_stays_put_across_writes() {
    // the page selected for a key is the page of its last write as
    // long as no allocation happened in between; observably, values
    // written earlier stay readable after later writes
    let mut quarry = open_fresh();
    let mut cids = Vec::new();
    for i in 0..20u8 {
        let payload = vec![i; 5];
        let cid = BlockCid::for_data(RAW_CODEC, &payload);
        quarry.put_keyed(&cid, &payload).unwrap();
        cids.push((cid, payload));
    }
    for (cid, payload) in &cids {
        assert_eq!(quarry.get(cid).unwrap(), Some(payload.clone()));
    }
}
