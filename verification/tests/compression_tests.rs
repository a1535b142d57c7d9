use rsynx::local_sync::LocalSyncer;
use rsynx::sync::SyncError;
use rsynx::sync::Syncer;

fn sync_files(syncer: &LocalSyncer, src_content: &[u8], dst_content: &[u8]) -> (Vec<u8>, usize) {
    let (content, result) = syncer.sync_file(src_content, Some(dst_content)).unwrap();
    (content, result.new_bytes)
}

#[test]
fn test_compression_sync() {
    let content = b"This is a test file with some repeated content. ".repeat(100);

    let syncer = LocalSyncer::new("test_src_compression".to_string(), "test_dst_compression".to_string())
        .with_block_size(1024)
        .with_compression(true);
    let (dst_content, new_bytes) = sync_files(&syncer, &content, b"");

    assert_eq!(content, dst_content);
    assert!(new_bytes > 0);
    assert_eq!(new_bytes, 4800);
}

#[test]
fn test_compression_vs_no_compression() {
    let content = b"This is a test file with some repeated content. ".repeat(50);

    let syncer1 =
        LocalSyncer::new("test_src_no_compression".to_string(), "test_dst_no_compression".to_string())
            .with_block_size(1024)
            .with_compression(false);
    let (dst_content1, new_bytes1) = sync_files(&syncer1, &content, b"");

    let syncer2 = LocalSyncer::new(
        "test_src_with_compression".to_string(),
        "test_dst_with_compression".to_string(),
    )
    .with_block_size(1024)
    .with_compression(true);
    let (dst_content2, new_bytes2) = sync_files(&syncer2, &content, b"");

    assert_eq!(dst_content1, dst_content2);
    assert_eq!(new_bytes1, new_bytes2);
}

#[test]
fn test_compression_small_file() {
    let content = b"Small file";

    let syncer = LocalSyncer::new(
        "test_src_small_compression".to_string(),
        "test_dst_small_compression".to_string(),
    )
    .with_compression(true);
    let (dst_content, new_bytes) = sync_files(&syncer, content, b"");

    assert_eq!(content, dst_content.as_slice());
    assert_eq!(new_bytes, content.len());
}

#[test]
fn data_travels_unchanged_without_compression() {
    let syncer = Syncer::new();
    assert_eq!(syncer.compress_data(b"0123456789"), Ok(b"0123456789".to_vec()));
    assert_eq!(syncer.decompress_data(b"0123456789"), Ok(b"0123456789".to_vec()));
    assert_eq!(syncer.decompress_data(b""), Ok(vec![]));
}

#[test]
fn compressed_data_is_a_gzip_stream_that_reads_back() {
    let mut syncer = Syncer::new();
    syncer.compress = true;
    let content = b"This is a test file with some repeated content. ".repeat(100);
    let packed = syncer.compress_data(&content).unwrap();
    assert_eq!(&packed[0..3], &[0x1f, 0x8b, 8]);
    assert!(packed.len() < content.len());
    assert_ne!(packed, content);
    assert_eq!(syncer.decompress_data(&packed), Ok(content));
    let nothing = syncer.compress_data(b"").unwrap();
    assert_eq!(syncer.decompress_data(&nothing), Ok(vec![]));
}

#[test]
fn what_is_no_gzip_stream_does_not_decompress() {
    let mut syncer = Syncer::new();
    syncer.compress = true;
    assert_eq!(syncer.decompress_data(b"0123456789"), Err(SyncError::IoFailure));
    let mut packed = syncer.compress_data(b"0123456789").unwrap();
    packed.truncate(packed.len() - 4);
    assert_eq!(syncer.decompress_data(&packed), Err(SyncError::IoFailure));
}
