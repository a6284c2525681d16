use quarry::chunk::{ChunkReader, SliceSource, DEFAULT_CHUNK_SIZE};
use quarry::content_id::{BlockCid, RAW_CODEC};
use quarry::dag::DagBuilder;
use quarry::store::{Blockstore, MemoryBlockstore};
use rand::thread_rng;
use rand::Rng;

fn random_buffer(len: usize) -> Vec<u8> {
    let mut bytes = vec![0u8; len];
    thread_rng().fill(&mut bytes[..]);
    bytes
}

#[test]
fn chunk_slice() {
    let bytes = random_buffer(1 << 20);
    let len = bytes.len();
    let mut reader = ChunkReader::new(SliceSource::new(bytes));
    reader.set_content_size(len as u64);
    while let Some(chunk) = reader.next() {
        println!("length {}", chunk.len());
    }
}

#[test]
fn build_trickle() {
    let bytes = random_buffer(1 << 20);
    let len = bytes.len();
    let mut reader = ChunkReader::new(SliceSource::new(bytes));
    reader.set_content_size(len as u64);

    let store = MemoryBlockstore::new();

    let mut dag = DagBuilder::new(reader, store);
    let root = dag.trickle().expect("failed to compute trickle dag");
    println!("root {:?}", root);
}

#[test]
fn four_chunks_from_one_mebibyte() {
    let bytes = random_buffer(1 << 20);
    let mut reader = ChunkReader::new(SliceSource::new(bytes.clone()));
    reader.set_content_size(bytes.len() as u64);
    let mut count = 0usize;
    let mut rebuilt: Vec<u8> = Vec::new();
    while let Some(chunk) = reader.next() {
        assert_eq!(chunk.len(), DEFAULT_CHUNK_SIZE);
        rebuilt.extend_from_slice(&chunk);
        count += 1;
    }
    assert_eq!(count, 4);
    assert_eq!(rebuilt, bytes);
}

#[test]
fn short_last_chunk() {
    let bytes: Vec<u8> = (0u8..10).collect();
    let mut reader = ChunkReader::with_chunk_size(3, SliceSource::new(bytes.clone()));
    reader.set_content_size(bytes.len() as u64);
    let mut lens: Vec<usize> = Vec::new();
    let mut rebuilt: Vec<u8> = Vec::new();
    while let Some(chunk) = reader.next() {
        lens.push(chunk.len());
        rebuilt.extend_from_slice(&chunk);
    }
    assert_eq!(lens, vec![3, 3, 3, 1]);
    assert_eq!(rebuilt, bytes);
}

#[test]
fn empty_source_yields_no_chunks() {
    let mut reader = ChunkReader::new(SliceSource::new(Vec::new()));
    assert!(reader.next().is_none());
    assert!(reader.next().is_none());
}

#[test]
fn size_hint_tracks_declared_remainder() {
    let bytes = random_buffer(1 << 20);
    let mut reader = ChunkReader::new(SliceSource::new(bytes));
    assert_eq!(reader.size_hint(), (0, Some(0)));
    reader.set_content_size(1 << 20);
    assert_eq!(reader.size_hint(), (4, Some(4)));
    let first = reader.next().unwrap();
    assert_eq!(first.len(), DEFAULT_CHUNK_SIZE);
    assert_eq!(reader.size_hint(), (3, Some(3)));
}

#[test]
fn dag_stores_leaves_and_root() {
    let bytes = random_buffer(1 << 20);
    let len = bytes.len();
    let mut reader = ChunkReader::new(SliceSource::new(bytes.clone()));
    reader.set_content_size(len as u64);
    let mut dag = DagBuilder::new(reader, MemoryBlockstore::new());
    let info = dag.trickle().expect("build failed");
    assert_eq!(info.leaves, 4);
    let store = dag.into_store();
    // the root descriptor is stored under its own identifier
    let root_block = store.get(&info.root).unwrap().expect("root missing");
    assert_eq!(root_block.len(), info.root_size);
    // each leaf chunk is stored under its own identifier
    for i in 0..4usize {
        let chunk = &bytes[i * DEFAULT_CHUNK_SIZE..(i + 1) * DEFAULT_CHUNK_SIZE];
        let leaf = BlockCid::for_data(RAW_CODEC, chunk);
        assert_eq!(store.get(&leaf).unwrap(), Some(chunk.to_vec()));
    }
}

#[test]
fn identical_input_builds_identical_roots() {
    let bytes = random_buffer(1 << 19);
    let mut roots: Vec<Vec<u8>> = Vec::new();
    let mut leaf_counts: Vec<usize> = Vec::new();
    for _ in 0..2 {
        let mut reader = ChunkReader::new(SliceSource::new(bytes.clone()));
        reader.set_content_size(bytes.len() as u64);
        let mut dag = DagBuilder::new(reader, MemoryBlockstore::new());
        let info = dag.trickle().expect("build failed");
        roots.push(info.root.to_bytes());
        leaf_counts.push(info.leaves);
    }
    assert_eq!(roots[0], roots[1]);
    assert_eq!(leaf_counts[0], leaf_counts[1]);
}

#[test]
fn empty_input_builds_empty_root() {
    let reader = ChunkReader::new(SliceSource::new(Vec::new()));
    let mut dag = DagBuilder::new(reader, MemoryBlockstore::new());
    let info = dag.trickle().expect("build over empty input failed");
    assert_eq!(info.leaves, 0);
    assert!(info.root_size > 0);
    // well-defined: a second empty build yields the same root
    let reader2 = ChunkReader::new(SliceSource::new(Vec::new()));
    let mut dag2 = DagBuilder::new(reader2, MemoryBlockstore::new());
    let info2 = dag2.trickle().expect("build over empty input failed");
    assert_eq!(info.root.to_bytes(), info2.root.to_bytes());
}
