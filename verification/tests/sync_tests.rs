use rand::Rng;
use rsynx::local_sync::LocalSyncer;
use rsynx::sync::SyncError;
use rsynx::sync::TransferResult;
use rsynx::tree::Child;
use rsynx::tree::Entry;

fn sync_files(name: &str, src_content: &[u8], dst_content: &[u8], block_size: usize) -> (Vec<u8>, TransferResult) {
    let src_path = format!("test_src_{}", name);
    let dst_path = format!("test_dst_{}", name);
    let syncer = LocalSyncer::new(src_path, dst_path).with_block_size(block_size);
    let source = Entry::File(src_content.to_vec());
    let destination = Entry::File(dst_content.to_vec());
    match syncer.sync(Some(&source), Some(destination)).unwrap() {
        (Entry::File(content), result) => (content, result),
        _ => panic!("a file was synced into something else"),
    }
}

fn file(name: &str, content: &[u8]) -> Child {
    Child { name: name.to_string(), entry: Entry::File(content.to_vec()) }
}

fn directory(name: &str, children: Vec<Child>) -> Child {
    Child { name: name.to_string(), entry: Entry::Directory(children) }
}

fn child<'a>(entry: &'a Entry, name: &str) -> Option<&'a Entry> {
    match entry {
        Entry::Directory(children) => children.iter().find(|c| c.name == name).map(|c| &c.entry),
        _ => None,
    }
}

#[test]
fn test_basic_sync() {
    let (content, result) = sync_files("basic", b"0123456789", b"012345a789", 4);
    assert_eq!(content, b"0123456789");
    assert_eq!(result.reused_bytes, 4);
    assert_eq!(result.new_bytes, 6);
}

#[test]
fn test_empty_destination() {
    let (content, result) = sync_files("empty", b"0123456789", b"", 4);
    assert_eq!(content, b"0123456789");
    assert_eq!(result.reused_bytes, 0);
    assert_eq!(result.new_bytes, 10);
}

#[test]
fn test_identical_files() {
    let (content, result) = sync_files("identical", b"0123456789", b"0123456789", 4);
    assert_eq!(content, b"0123456789");
    assert_eq!(result.reused_bytes, 8);
    assert_eq!(result.new_bytes, 2);
}

#[test]
fn test_multiple_changes() {
    let (content, result) = sync_files("multiple_changes", b"0123456789", b"01a34b6c89", 4);
    assert_eq!(content, b"0123456789");
    assert_eq!(result.reused_bytes, 0);
    assert_eq!(result.new_bytes, 10);
}

#[test]
fn test_longer_files() {
    let src_content = "The quick brown fox jumps over the lazy dog".as_bytes();
    let dst_content = "The quick brown cat jumps over the lazy dog".as_bytes();
    let (content, result) = sync_files("longer_files", src_content, dst_content, 4);
    assert_eq!(content, src_content);
    assert_eq!(result.reused_bytes, 36);
    assert_eq!(result.new_bytes, 7);
}

#[test]
fn test_different_sizes() {
    let (content, result) = sync_files("different_sizes", b"0123456789", b"01234", 4);
    assert_eq!(content, b"0123456789");
    assert_eq!(result.reused_bytes, 4);
    assert_eq!(result.new_bytes, 6);
}

#[test]
fn test_binary_data() {
    let src_content = &[0, 1, 2, 3, 255, 254, 253, 252];
    let dst_content = &[0, 1, 2, 3, 0, 254, 253, 252];
    let (content, result) = sync_files("binary_data", src_content, dst_content, 4);
    assert_eq!(content, src_content);
    assert_eq!(result.reused_bytes, 4);
    assert_eq!(result.new_bytes, 4);
}

#[test]
fn test_large_file() {
    let mut src_content = vec![0; 100000];
    let dst_content = vec![0; 100000];

    let mut rng = rand::rng();
    for _ in 0..100 {
        let random_byte_index = rng.random_range(0..src_content.len());
        let random_bit_index = rng.random_range(0..8);
        src_content[random_byte_index] ^= 1 << random_bit_index;
    }

    let (content, result) = sync_files("large_file", &src_content, &dst_content, 512);
    println!("Transferred: {} bytes, Not transferred: {} bytes", result.new_bytes, result.reused_bytes);

    assert_eq!(content, src_content);
    assert_eq!(result.new_bytes + result.reused_bytes, 100000);
}

#[test]
fn test_basic_sync_directory() {
    let src_dir = Entry::Directory(vec![
        file("file1.txt", b"Hello world"),
        file("file2.txt", b"Rust is awesome"),
        directory("subdir", vec![file("file3.txt", b"Subdirectory file")]),
    ]);

    let syncer = LocalSyncer::new("test_sync_src_dir".to_string(), "test_sync_dst_dir".to_string())
        .with_block_size(4);
    let (dst_dir, result) = syncer.sync(Some(&src_dir), None).unwrap();

    let file1 = child(&dst_dir, "file1.txt").unwrap();
    let file2 = child(&dst_dir, "file2.txt").unwrap();
    let file3 = child(child(&dst_dir, "subdir").unwrap(), "file3.txt").unwrap();

    assert_eq!(file1, &Entry::File(b"Hello world".to_vec()));
    assert_eq!(file2, &Entry::File(b"Rust is awesome".to_vec()));
    assert_eq!(file3, &Entry::File(b"Subdirectory file".to_vec()));
    assert_eq!(dst_dir, src_dir);
    assert_eq!(result.new_bytes, 11 + 15 + 17);
    assert_eq!(result.reused_bytes, 0);
}

#[test]
fn test_delete_extraneous() {
    let src_dir = Entry::Directory(vec![file("file1.txt", b"Hello")]);
    let dst_dir = Entry::Directory(vec![
        file("file1.txt", b"Old content"),
        file("extraneous.txt", b"Should be removed"),
    ]);

    let syncer = LocalSyncer::new("test_sync_src_delete".to_string(), "test_sync_dst_delete".to_string())
        .with_block_size(4)
        .with_delete_extraneous(true);
    let (synced, _) = syncer.sync(Some(&src_dir), Some(dst_dir)).unwrap();

    let file1 = child(&synced, "file1.txt").unwrap();
    assert_eq!(file1, &Entry::File(b"Hello".to_vec()));
    assert!(child(&synced, "extraneous.txt").is_none());
    assert_eq!(synced, src_dir);
}

#[test]
fn test_no_delete_extraneous() {
    let src_dir = Entry::Directory(vec![file("file1.txt", b"Hello")]);
    let dst_dir = Entry::Directory(vec![file("file2.txt", b"Hello")]);

    let syncer =
        LocalSyncer::new("test_sync_src_no_delete".to_string(), "test_sync_dst_no_delete".to_string())
            .with_block_size(4)
            .with_delete_extraneous(false);
    let (synced, _) = syncer.sync(Some(&src_dir), Some(dst_dir)).unwrap();

    assert!(child(&synced, "file1.txt").is_some());
    assert!(child(&synced, "file2.txt").is_some());
    assert_eq!(
        synced,
        Entry::Directory(vec![file("file2.txt", b"Hello"), file("file1.txt", b"Hello")])
    );
}

#[test]
fn sync_without_destination_is_a_full_copy() {
    let syncer = LocalSyncer::new("a".to_string(), "b".to_string()).with_block_size(4);
    let (content, result) = syncer.sync_file(b"0123456789", None).unwrap();
    assert_eq!(content, b"0123456789");
    assert_eq!(result, TransferResult { new_bytes: 10, reused_bytes: 0 });
}

#[test]
fn sync_of_a_short_source_is_one_literal() {
    let (content, result) = sync_files("short", b"012", b"0123456789", 4);
    assert_eq!(content, b"012");
    assert_eq!(result, TransferResult { new_bytes: 3, reused_bytes: 0 });
}

#[test]
fn sync_of_an_empty_source_moves_nothing() {
    let (content, result) = sync_files("nothing", b"", b"0123456789", 4);
    assert_eq!(content, b"");
    assert_eq!(result, TransferResult { new_bytes: 0, reused_bytes: 0 });
}

#[test]
fn sync_of_a_multiple_of_the_block_size_reuses_everything() {
    let (content, result) = sync_files("blocks", b"01234567", b"01234567", 4);
    assert_eq!(content, b"01234567");
    assert_eq!(result, TransferResult { new_bytes: 0, reused_bytes: 8 });
}

#[test]
fn sync_twice_leaves_the_destination_as_it_is() {
    let (first, _) = sync_files("once", b"0123456789", b"012345a789", 4);
    let (second, result) = sync_files("twice", b"0123456789", &first, 4);
    assert_eq!(first, b"0123456789");
    assert_eq!(second, first);
    assert_eq!(result, TransferResult { new_bytes: 2, reused_bytes: 8 });
}

#[test]
fn sync_refuses_a_block_size_of_zero() {
    let syncer = LocalSyncer::new("a".to_string(), "b".to_string()).with_block_size(0);
    assert_eq!(syncer.sync_file(b"0123", Some(b"0123")), Err(SyncError::ConfigInvalid));
    assert_eq!(syncer.sync_file(b"0123", None), Err(SyncError::ConfigInvalid));
    let source = Entry::File(b"0123".to_vec());
    assert_eq!(syncer.sync(Some(&source), None), Err(SyncError::ConfigInvalid));
    let empty = Entry::Directory(vec![]);
    assert_eq!(syncer.sync(Some(&empty), None), Err(SyncError::ConfigInvalid));
}

#[test]
fn sync_does_not_find_a_missing_or_unsupported_source() {
    let syncer = LocalSyncer::new("a".to_string(), "b".to_string());
    assert_eq!(syncer.sync(None, None), Err(SyncError::InputNotFound));
    assert_eq!(syncer.sync(Some(&Entry::Other), None), Err(SyncError::InputNotFound));
}

#[test]
fn sync_fails_where_file_and_directory_meet() {
    let syncer = LocalSyncer::new("a".to_string(), "b".to_string());
    let a_file = Entry::File(b"0123".to_vec());
    let a_directory = Entry::Directory(vec![]);
    assert_eq!(
        syncer.sync(Some(&a_file), Some(Entry::Directory(vec![]))),
        Err(SyncError::IoFailure)
    );
    assert_eq!(syncer.sync(Some(&a_file), Some(Entry::Other)), Err(SyncError::IoFailure));
    assert_eq!(
        syncer.sync(Some(&a_directory), Some(Entry::File(vec![]))),
        Err(SyncError::IoFailure)
    );
}

#[test]
fn directory_sync_skips_unsupported_entries_and_keeps_unsupported_extras() {
    let src_dir = Entry::Directory(vec![
        Child { name: "link".to_string(), entry: Entry::Other },
        file("kept.txt", b"0123456789"),
    ]);
    let dst_dir = Entry::Directory(vec![
        file("link", b"same name as a skipped entry"),
        Child { name: "socket".to_string(), entry: Entry::Other },
        directory("old", vec![file("inner.txt", b"x")]),
        file("kept.txt", b"012345a789"),
    ]);
    let syncer = LocalSyncer::new("a".to_string(), "b".to_string())
        .with_block_size(4)
        .with_delete_extraneous(true);
    let (synced, result) = syncer.sync(Some(&src_dir), Some(dst_dir)).unwrap();
    assert_eq!(
        synced,
        Entry::Directory(vec![
            file("link", b"same name as a skipped entry"),
            Child { name: "socket".to_string(), entry: Entry::Other },
            file("kept.txt", b"0123456789"),
        ])
    );
    assert_eq!(result, TransferResult { new_bytes: 6, reused_bytes: 4 });
}

#[test]
fn directory_sync_sums_the_tallies_of_its_files() {
    let src_dir = Entry::Directory(vec![
        file("a", b"0123456789"),
        directory("sub", vec![file("b", b"01234567"), file("c", b"xyz")]),
    ]);
    let dst_dir = Entry::Directory(vec![
        directory("sub", vec![file("b", b"01234567")]),
        file("a", b"0123"),
    ]);
    let syncer = LocalSyncer::new("a".to_string(), "b".to_string()).with_block_size(4);
    let (synced, result) = syncer.sync(Some(&src_dir), Some(dst_dir)).unwrap();
    assert_eq!(
        synced,
        Entry::Directory(vec![
            directory("sub", vec![file("b", b"01234567"), file("c", b"xyz")]),
            file("a", b"0123456789"),
        ])
    );
    assert_eq!(result, TransferResult { new_bytes: 6 + 0 + 3, reused_bytes: 4 + 8 });
}

#[test]
fn builders_set_one_option_each() {
    let source = Entry::Directory(vec![file("a", b"01234567")]);
    let destination = || Entry::Directory(vec![file("a", b"01234567"), file("b", b"extra")]);
    let plain = LocalSyncer::new("a".to_string(), "b".to_string());
    let (kept, result) = plain.sync(Some(&source), Some(destination())).unwrap();
    assert_eq!(kept, destination());
    assert_eq!(result, TransferResult { new_bytes: 8, reused_bytes: 0 });
    let small = LocalSyncer::new("a".to_string(), "b".to_string())
        .with_block_size(4)
        .with_preserve_metadata(true)
        .with_compression(true);
    let (kept, result) = small.sync(Some(&source), Some(destination())).unwrap();
    assert_eq!(kept, destination());
    assert_eq!(result, TransferResult { new_bytes: 0, reused_bytes: 8 });
    let deleting = LocalSyncer::new("a".to_string(), "b".to_string()).with_delete_extraneous(true);
    let (cleaned, _) = deleting.sync(Some(&source), Some(destination())).unwrap();
    assert_eq!(cleaned, source);
}
