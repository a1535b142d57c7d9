use rsynx::checksum::roll_checksum;
use rsynx::checksum::weak_checksum_of;
use rsynx::sync::Block;
use rsynx::sync::Syncer;
use rsynx::sync::TransferResult;

fn digest(text: &str) -> [u8; 32] {
    let bytes = hex::decode(text).unwrap();
    let mut out = [0u8; 32];
    out.copy_from_slice(&bytes);
    out
}

#[test]
fn new_syncer_has_the_default_options() {
    let syncer = Syncer::new();
    assert_eq!(syncer.block_size, 1024);
    assert!(!syncer.preserve_metadata);
    assert!(!syncer.delete_extraneous);
    assert!(!syncer.compress);
    assert_eq!(Syncer::default(), syncer);
}

#[test]
fn weak_checksum_packs_both_sums() {
    let syncer = Syncer::new();
    assert_eq!(syncer.calculate_weak_checksum(b""), 0);
    assert_eq!(syncer.calculate_weak_checksum(b"0123"), 198 | (490 << 16));
    assert_eq!(syncer.calculate_weak_checksum(b"0123"), 32112838);
    assert_eq!(syncer.calculate_weak_checksum(b"1234"), 32768202);
    assert_eq!(weak_checksum_of(b"89"), 11075697);
}

#[test]
fn weak_checksum_wraps_each_sum_at_sixteen_bits() {
    let syncer = Syncer::new();
    assert_eq!(syncer.calculate_weak_checksum(&vec![1u8; 65536]), 2147483648);
    assert_eq!(syncer.calculate_weak_checksum(&vec![255u8; 300]), 2913086164);
}

#[test]
fn rolling_update_gives_the_checksum_of_the_next_window() {
    let syncer = Syncer::new();
    let before = syncer.calculate_weak_checksum(b"0123");
    assert_eq!(syncer.update_weak_checksum(b'0', b'4', before, 4), 32768202);
    assert_eq!(
        syncer.update_weak_checksum(b'0', b'4', before, 4),
        syncer.calculate_weak_checksum(b"1234")
    );
    assert_eq!(roll_checksum(before, b'0', b'4', 4), 32768202);
}

#[test]
fn rolling_update_agrees_with_a_fresh_checksum_at_every_offset() {
    let data: Vec<u8> = (0..2000u32).map(|i| (i * 7919 % 251) as u8).collect();
    for width in [1usize, 2, 3, 16, 255, 256, 1000] {
        let mut sum = weak_checksum_of(&data[0..width]);
        for start in 0..data.len() - width {
            sum = roll_checksum(sum, data[start], data[start + width], width);
            assert_eq!(sum, weak_checksum_of(&data[start + 1..start + 1 + width]));
        }
    }
}

#[test]
fn rolling_update_wraps_for_wide_windows() {
    let mut data = vec![255u8; 70000];
    data.push(0);
    let before = weak_checksum_of(&data[0..70000]);
    assert_eq!(before, 2798149264);
    assert_eq!(roll_checksum(before, 255, 0, 70000), 2781437329);
    assert_eq!(roll_checksum(before, 255, 0, 70000), weak_checksum_of(&data[1..70001]));
}

#[test]
fn strong_checksum_is_sha256() {
    let syncer = Syncer::new();
    assert_eq!(
        syncer.calculate_strong_checksum(b"abc"),
        digest("ba7816bf8f01cfea414140de5dae2223b00361a396177a9cb410ff61f20015ad")
    );
    assert_eq!(
        syncer.calculate_strong_checksum(b""),
        digest("e3b0c44298fc1c149afbf4c8996fb92427ae41e4649b934ca495991b7852b855")
    );
}

#[test]
fn checksums_cover_the_data_block_by_block() {
    let mut syncer = Syncer::new();
    syncer.block_size = 4;
    let blocks = syncer.calculate_checksums(b"0123456789");
    assert_eq!(
        blocks,
        vec![
            Block {
                offset: 0,
                size: 4,
                weak_checksum: 32112838,
                strong_checksum: digest(
                    "1be2e452b46d7a0d9656bbb1f768e8248eba1b75baed65f5d99eafa948899a6a"
                ),
            },
            Block {
                offset: 4,
                size: 4,
                weak_checksum: 34734294,
                strong_checksum: digest(
                    "db2e7f1bd5ab9968ae76199b7cc74795ca7404d5a08d78567715ce532f9d2669"
                ),
            },
            Block {
                offset: 8,
                size: 2,
                weak_checksum: 11075697,
                strong_checksum: digest(
                    "cd70bea023f752a0564abb6ed08d42c1440f2e33e29914e55e0be1595e24f45a"
                ),
            },
        ]
    );
}

#[test]
fn checksums_of_nothing_and_of_whole_blocks() {
    let mut syncer = Syncer::new();
    syncer.block_size = 4;
    assert_eq!(syncer.calculate_checksums(b""), vec![]);
    let blocks = syncer.calculate_checksums(b"01234567");
    assert_eq!(blocks.len(), 2);
    assert_eq!((blocks[1].offset, blocks[1].size), (4, 4));
    syncer.block_size = 1024;
    let blocks = syncer.calculate_checksums(b"0123");
    assert_eq!(blocks.len(), 1);
    assert_eq!((blocks[0].offset, blocks[0].size, blocks[0].weak_checksum), (0, 4, 32112838));
}

#[test]
fn copy_file_counts_every_byte_as_new() {
    let syncer = Syncer::new();
    let (copy, result) = syncer.copy_file(b"0123456789");
    assert_eq!(copy, b"0123456789");
    assert_eq!(result, TransferResult { new_bytes: 10, reused_bytes: 0 });
}
