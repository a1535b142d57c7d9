use rsynx::instruction::apply;
use rsynx::index::same_digest;
use rsynx::delta::scan;
use rsynx::instruction::Instruction;
use rsynx::index::SignatureIndex;
use rsynx::sync::Block;
use rsynx::sync::SyncError;
use rsynx::sync::Syncer;
use rsynx::sync::TransferResult;

fn index_of(reference: &[u8], block_size: usize) -> SignatureIndex {
    let mut syncer = Syncer::new();
    syncer.block_size = block_size;
    SignatureIndex::new(syncer.calculate_checksums(reference))
}

fn literal(bytes: &[u8]) -> Instruction {
    Instruction::Literal(bytes.to_vec())
}

fn copy(offset: u64, length: usize) -> Instruction {
    Instruction::Copy { offset, length }
}

#[test]
fn single_byte_edit_copies_the_matching_prefix() {
    let (plan, tally) = scan(b"0123456789", &index_of(b"012345a789", 4), 4);
    assert_eq!(plan, vec![copy(0, 4), literal(b"456789")]);
    assert_eq!(tally, TransferResult { new_bytes: 6, reused_bytes: 4 });
    assert_eq!(apply(&plan, Some(b"012345a789")), Ok(b"0123456789".to_vec()));
}

#[test]
fn empty_reference_gives_one_literal() {
    let (plan, tally) = scan(b"0123456789", &index_of(b"", 4), 4);
    assert_eq!(plan, vec![literal(b"0123456789")]);
    assert_eq!(tally, TransferResult { new_bytes: 10, reused_bytes: 0 });
    assert_eq!(apply(&plan, None), Ok(b"0123456789".to_vec()));
    let (plan, _) = scan(b"0123456789", &SignatureIndex::new(vec![]), 4);
    assert_eq!(plan, vec![literal(b"0123456789")]);
}

#[test]
fn identical_files_copy_every_full_block() {
    let (plan, tally) = scan(b"0123456789", &index_of(b"0123456789", 4), 4);
    assert_eq!(plan, vec![copy(0, 4), copy(4, 4), literal(b"89")]);
    assert_eq!(tally, TransferResult { new_bytes: 2, reused_bytes: 8 });
    let (plan, tally) = scan(b"01234567", &index_of(b"01234567", 4), 4);
    assert_eq!(plan, vec![copy(0, 4), copy(4, 4)]);
    assert_eq!(tally, TransferResult { new_bytes: 0, reused_bytes: 8 });
}

#[test]
fn binary_data_with_a_zero_byte() {
    let source = [0u8, 1, 2, 3, 255, 254, 253, 252];
    let reference = [0u8, 1, 2, 3, 0, 254, 253, 252];
    let (plan, tally) = scan(&source, &index_of(&reference, 4), 4);
    assert_eq!(plan, vec![copy(0, 4), literal(&[255, 254, 253, 252])]);
    assert_eq!(tally, TransferResult { new_bytes: 4, reused_bytes: 4 });
    assert_eq!(apply(&plan, Some(&reference)), Ok(source.to_vec()));
}

#[test]
fn a_match_is_found_at_any_offset_and_nothing_is_matched_twice() {
    let (plan, tally) = scan(b"xx0123yyy0123", &index_of(b"01230123", 4), 4);
    assert_eq!(plan, vec![literal(b"xx"), copy(0, 4), literal(b"yyy"), copy(0, 4)]);
    assert_eq!(tally, TransferResult { new_bytes: 5, reused_bytes: 8 });
    let (plan, _) = scan(b"aaaaaa", &index_of(b"aaaa", 4), 4);
    assert_eq!(plan, vec![copy(0, 4), literal(b"aa")]);
}

#[test]
fn of_equal_blocks_the_first_is_copied() {
    let (plan, _) = scan(b"45674567", &index_of(b"012345674567", 4), 4);
    assert_eq!(plan, vec![copy(4, 4), copy(4, 4)]);
}

#[test]
fn short_and_empty_sources() {
    let index = index_of(b"0123456789", 4);
    let (plan, tally) = scan(b"012", &index, 4);
    assert_eq!(plan, vec![literal(b"012")]);
    assert_eq!(tally, TransferResult { new_bytes: 3, reused_bytes: 0 });
    let (plan, tally) = scan(b"", &index, 4);
    assert_eq!(plan, vec![]);
    assert_eq!(tally, TransferResult { new_bytes: 0, reused_bytes: 0 });
    let (plan, _) = scan(b"0123", &index, 4);
    assert_eq!(plan, vec![copy(0, 4)]);
}

#[test]
fn a_block_of_another_size_is_never_matched() {
    let syncer = Syncer::new();
    let lying = Block {
        offset: 6,
        size: 2,
        weak_checksum: syncer.calculate_weak_checksum(b"0123"),
        strong_checksum: syncer.calculate_strong_checksum(b"0123"),
    };
    let honest = Block { offset: 40, size: 4, ..lying };
    let (plan, _) = scan(b"0123", &SignatureIndex::new(vec![lying]), 4);
    assert_eq!(plan, vec![literal(b"0123")]);
    let (plan, _) = scan(b"0123", &SignatureIndex::new(vec![lying, honest]), 4);
    assert_eq!(plan, vec![copy(40, 4)]);
    let (plan, _) = scan(b"01", &index_of(b"012301", 4), 2);
    assert_eq!(plan, vec![copy(4, 2)]);
}

#[test]
fn a_weak_match_alone_is_no_match() {
    let syncer = Syncer::new();
    assert_eq!(syncer.calculate_weak_checksum(b"\x01\x03\x02\x00"), syncer.calculate_weak_checksum(b"\x02\x01\x03\x00"));
    let (plan, _) = scan(b"\x01\x03\x02\x00", &index_of(b"\x02\x01\x03\x00", 4), 4);
    assert_eq!(plan, vec![literal(b"\x01\x03\x02\x00")]);
}

#[test]
fn find_returns_the_first_block_with_both_checksums() {
    let index = index_of(b"012345674567", 4);
    let syncer = Syncer::new();
    let weak = syncer.calculate_weak_checksum(b"4567");
    let found = index.find(4, weak, b"4567").unwrap();
    assert_eq!((found.offset, found.size), (4, 4));
    assert_eq!(index.find(4, weak, b"4576"), None);
    assert_eq!(index.find(4, weak + 1, b"4567"), None);
    assert_eq!(index.find(3, weak, b"4567"), None);
}

#[test]
fn digests_compare_byte_by_byte() {
    let syncer = Syncer::new();
    let one = syncer.calculate_strong_checksum(b"0123");
    let mut other = one;
    assert!(same_digest(&one, &other));
    other[31] ^= 1;
    assert!(!same_digest(&one, &other));
}

#[test]
fn apply_copies_and_appends_in_order() {
    let plan = vec![copy(4, 2), literal(b"--"), copy(0, 4), literal(b""), copy(6, 0)];
    assert_eq!(apply(&plan, Some(b"012345")), Ok(b"45--0123".to_vec()));
    assert_eq!(apply(&[], None), Ok(vec![]));
}

#[test]
fn apply_needs_the_reference_for_every_copy() {
    assert_eq!(apply(&[literal(b"ab"), copy(0, 1)], None), Err(SyncError::ProtocolViolation));
    assert_eq!(apply(&[copy(3, 4)], Some(b"012345")), Err(SyncError::IoFailure));
    assert_eq!(apply(&[copy(7, 0)], Some(b"012345")), Err(SyncError::IoFailure));
    assert_eq!(apply(&[copy(u64::MAX, usize::MAX)], Some(b"012345")), Err(SyncError::IoFailure));
    assert_eq!(
        apply(&[copy(9, 9), copy(0, 1)], None),
        Err(SyncError::ProtocolViolation)
    );
    assert_eq!(
        apply(&[copy(9, 9), literal(b"x")], Some(b"0")),
        Err(SyncError::IoFailure)
    );
}

#[test]
fn scan_and_apply_rebuild_the_source() {
    let reference: Vec<u8> = (0..5000u32).map(|i| (i * 31 % 256) as u8).collect();
    let mut source = reference.clone();
    source[17] ^= 0x40;
    source.insert(2500, 9);
    source.truncate(4800);
    for block_size in [1usize, 3, 64, 512, 4800, 6000] {
        let (plan, tally) = scan(&source, &index_of(&reference, block_size), block_size);
        assert_eq!(tally.new_bytes + tally.reused_bytes, source.len());
        assert_eq!(apply(&plan, Some(&reference)), Ok(source.clone()));
    }
}
