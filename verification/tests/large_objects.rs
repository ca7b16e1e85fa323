use ic_dev_kit_rs::large_objects::{
    append_chunk, append_parallel_chunk, buffer_size, clear_buffer, clear_parallel_chunks,
    consolidate_parallel_chunks, get_buffer_data, get_parallel_data, load_to_buffer,
    missing_chunks, parallel_buffer_size, parallel_chunk_count, parallel_chunk_ids,
    parallel_chunks_complete, remove_parallel_chunk, storage_status, ChunkStore,
};

#[test]
fn test_sequential_buffer() {
    let mut store = ChunkStore::new();
    clear_buffer(&mut store);

    append_chunk(&mut store, vec![1, 2, 3]);
    append_chunk(&mut store, vec![4, 5, 6]);

    assert_eq!(buffer_size(&store), 6);

    let data = get_buffer_data(&mut store);
    assert_eq!(data, vec![1, 2, 3, 4, 5, 6]);
    assert_eq!(buffer_size(&store), 0); // Buffer consumed
}

#[test]
fn test_parallel_chunks() {
    let mut store = ChunkStore::new();
    clear_parallel_chunks(&mut store);

    // Upload chunks out of order
    append_parallel_chunk(&mut store, 2, vec![5, 6]);
    append_parallel_chunk(&mut store, 0, vec![1, 2]);
    append_parallel_chunk(&mut store, 1, vec![3, 4]);

    assert_eq!(parallel_chunk_count(&store), 3);
    assert_eq!(parallel_buffer_size(&store), 6);

    // Check completeness
    assert!(parallel_chunks_complete(&store, 3));
    assert!(!parallel_chunks_complete(&store, 4));

    // Get IDs (should be sorted)
    assert_eq!(parallel_chunk_ids(&store), vec![0, 1, 2]);
}

#[test]
fn test_consolidate_parallel_chunks() {
    let mut store = ChunkStore::new();
    clear_buffer(&mut store);
    clear_parallel_chunks(&mut store);

    // Upload chunks
    append_parallel_chunk(&mut store, 1, vec![3, 4]);
    append_parallel_chunk(&mut store, 0, vec![1, 2]);
    append_parallel_chunk(&mut store, 2, vec![5, 6]);

    // Consolidate
    let size = consolidate_parallel_chunks(&mut store).unwrap();
    assert_eq!(size, 6);

    // Check sequential buffer has data in correct order
    assert_eq!(buffer_size(&store), 6);
    let data = get_buffer_data(&mut store);
    assert_eq!(data, vec![1, 2, 3, 4, 5, 6]);

    // Parallel chunks should be cleared
    assert_eq!(parallel_chunk_count(&store), 0);
}

#[test]
fn test_missing_chunks() {
    let mut store = ChunkStore::new();
    clear_parallel_chunks(&mut store);

    append_parallel_chunk(&mut store, 0, vec![1, 2]);
    append_parallel_chunk(&mut store, 2, vec![5, 6]);
    // Missing chunk 1

    let missing = missing_chunks(&store, 3);
    assert_eq!(missing, vec![1]);

    assert!(!parallel_chunks_complete(&store, 3));
}

#[test]
fn test_remove_parallel_chunk() {
    let mut store = ChunkStore::new();
    clear_parallel_chunks(&mut store);

    append_parallel_chunk(&mut store, 0, vec![1, 2]);
    append_parallel_chunk(&mut store, 1, vec![3, 4]);

    assert!(remove_parallel_chunk(&mut store, 0));
    assert!(!remove_parallel_chunk(&mut store, 0)); // Already removed

    assert_eq!(parallel_chunk_count(&store), 1);
}

#[test]
fn test_storage_status() {
    let mut store = ChunkStore::new();
    clear_buffer(&mut store);
    clear_parallel_chunks(&mut store);

    append_chunk(&mut store, vec![1, 2, 3]);
    append_parallel_chunk(&mut store, 0, vec![4, 5]);
    append_parallel_chunk(&mut store, 1, vec![6, 7, 8]);

    let status = storage_status(&store);
    assert_eq!(status.buffer_size, 3);
    assert_eq!(status.parallel_chunk_count, 2);
    assert_eq!(status.parallel_buffer_size, 5);
    assert_eq!(status.parallel_chunk_ids, vec![0, 1]);
}

#[test]
fn test_any_arrival_order_reconstructs() {
    // Scenario: indices 0..2 arrive in the order 2, 0, 1; completeness holds
    // before consolidation and the bytes come back in ascending index order.
    let mut store = ChunkStore::new();
    append_parallel_chunk(&mut store, 2, vec![5, 6]);
    append_parallel_chunk(&mut store, 0, vec![1, 2]);
    append_parallel_chunk(&mut store, 1, vec![3, 4]);

    assert!(parallel_chunks_complete(&store, 3));
    let count = consolidate_parallel_chunks(&mut store).unwrap();
    assert_eq!(count, 6);
    assert_eq!(get_buffer_data(&mut store), vec![1, 2, 3, 4, 5, 6]);

    // The same chunks in another arrival order give the same result.
    let mut store2 = ChunkStore::new();
    append_parallel_chunk(&mut store2, 1, vec![3, 4]);
    append_parallel_chunk(&mut store2, 2, vec![5, 6]);
    append_parallel_chunk(&mut store2, 0, vec![1, 2]);
    assert!(parallel_chunks_complete(&store2, 3));
    assert_eq!(consolidate_parallel_chunks(&mut store2).unwrap(), 6);
    assert_eq!(get_buffer_data(&mut store2), vec![1, 2, 3, 4, 5, 6]);
}

#[test]
fn test_overwrite_same_index() {
    // Re-inserting an index keeps the count and uses the second payload.
    let mut store = ChunkStore::new();
    append_parallel_chunk(&mut store, 0, vec![9, 9]);
    append_parallel_chunk(&mut store, 1, vec![3, 4]);
    append_parallel_chunk(&mut store, 0, vec![1, 2]);

    assert_eq!(parallel_chunk_count(&store), 2);
    let data = get_parallel_data(&store).unwrap();
    assert_eq!(data, vec![1, 2, 3, 4]);
}

#[test]
fn test_missing_complement_and_strict_completeness() {
    // missing_chunks lists exactly the absent indices below the expected
    // count, and completeness is strict: extra indices spoil it.
    let mut store = ChunkStore::new();
    append_parallel_chunk(&mut store, 0, vec![1]);
    append_parallel_chunk(&mut store, 1, vec![2]);
    append_parallel_chunk(&mut store, 3, vec![4]);

    assert_eq!(missing_chunks(&store, 4), vec![2]);
    assert!(!parallel_chunks_complete(&store, 4));

    // Indices 0..=1 are present, but the stray index 3 makes the count 3.
    assert!(missing_chunks(&store, 2).is_empty());
    assert!(!parallel_chunks_complete(&store, 2));

    // Complete exactly when nothing below n is missing and the count is n.
    append_parallel_chunk(&mut store, 2, vec![3]);
    assert!(missing_chunks(&store, 4).is_empty());
    assert!(parallel_chunks_complete(&store, 4));
}

#[test]
fn test_extract_round_trip() {
    // Extraction returns everything appended since the last clear and
    // leaves the buffer empty.
    let mut store = ChunkStore::new();
    append_chunk(&mut store, vec![7]);
    append_chunk(&mut store, vec![8, 9]);
    let data = get_buffer_data(&mut store);
    assert_eq!(data, vec![7, 8, 9]);
    assert_eq!(buffer_size(&store), 0);

    load_to_buffer(&mut store, data);
    assert_eq!(buffer_size(&store), 3);
    assert_eq!(get_buffer_data(&mut store), vec![7, 8, 9]);
}

#[test]
fn test_consolidate_empty_fails() {
    // With no parallel chunks, consolidation fails and changes nothing.
    let mut store = ChunkStore::new();
    append_chunk(&mut store, vec![1]);
    let r = consolidate_parallel_chunks(&mut store);
    assert_eq!(r, Err("No parallel chunks to consolidate".to_string()));
    assert_eq!(buffer_size(&store), 1);

    let r2 = get_parallel_data(&store);
    assert_eq!(r2, Err("No parallel chunks available".to_string()));
}

#[test]
fn test_consolidate_replaces_buffer() {
    // Consolidation overwrites, never appends to, the sequential buffer.
    let mut store = ChunkStore::new();
    append_chunk(&mut store, vec![42, 42, 42, 42]);
    append_parallel_chunk(&mut store, 0, vec![1]);
    assert_eq!(consolidate_parallel_chunks(&mut store).unwrap(), 1);
    assert_eq!(get_buffer_data(&mut store), vec![1]);
}

#[test]
fn test_get_parallel_data_keeps_chunks() {
    // The non-destructive read leaves the parallel chunks in place.
    let mut store = ChunkStore::new();
    append_parallel_chunk(&mut store, 1, vec![2]);
    append_parallel_chunk(&mut store, 0, vec![1]);
    assert_eq!(get_parallel_data(&store).unwrap(), vec![1, 2]);
    assert_eq!(parallel_chunk_count(&store), 2);
    assert_eq!(get_parallel_data(&store).unwrap(), vec![1, 2]);
}

#[test]
fn test_remove_absent_then_present() {
    // Removing an absent index reports false; after an insert the same
    // removal reports true and the count drops by one.
    let mut store = ChunkStore::new();
    assert!(!remove_parallel_chunk(&mut store, 0));
    append_parallel_chunk(&mut store, 0, vec![1, 2]);
    assert_eq!(parallel_chunk_count(&store), 1);
    assert!(remove_parallel_chunk(&mut store, 0));
    assert_eq!(parallel_chunk_count(&store), 0);
}

#[test]
fn test_status_text() {
    let mut store = ChunkStore::new();
    append_chunk(&mut store, vec![1, 2, 3]);
    append_parallel_chunk(&mut store, 0, vec![4, 5]);
    append_parallel_chunk(&mut store, 7, vec![6, 7, 8]);
    let status = storage_status(&store);
    assert_eq!(
        status.to_text(),
        "Sequential buffer: 3 bytes\nParallel chunks: 2 chunks, 5 bytes total\nChunk IDs: [0, 7]"
    );
}

#[test]
fn test_empty_payload_chunk_counts() {
    // An empty payload still occupies its index and consolidates to zero
    // bytes of output for that chunk.
    let mut store = ChunkStore::new();
    append_parallel_chunk(&mut store, 0, vec![]);
    append_parallel_chunk(&mut store, 1, vec![5]);
    assert_eq!(parallel_chunk_count(&store), 2);
    assert_eq!(parallel_buffer_size(&store), 1);
    assert!(parallel_chunks_complete(&store, 2));
    assert_eq!(consolidate_parallel_chunks(&mut store).unwrap(), 1);
    assert_eq!(get_buffer_data(&mut store), vec![5]);
}
