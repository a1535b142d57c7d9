use rsynx::instruction::Instruction;
use rsynx::protocol::format_block;
use rsynx::protocol::format_request;
use rsynx::protocol::keyword_bytes;
use rsynx::protocol::parse_command;
use rsynx::protocol::parse_request;
use rsynx::protocol::parse_signature_line;
use rsynx::protocol::push_done;
use rsynx::protocol::push_frame;
use rsynx::protocol::Command;
use rsynx::protocol::Keyword;
use rsynx::protocol::SignatureLine;
use rsynx::sync::Block;
use rsynx::sync::SyncError;
use rsynx::sync::Syncer;
use rsynx::wire::next_field;
use rsynx::wire::parse_decimal;
use rsynx::wire::push_decimal;
use rsynx::wire::same_bytes;
use rsynx::wire::trim_end;

const DIGEST_0123: &str = "1be2e452b46d7a0d9656bbb1f768e8248eba1b75baed65f5d99eafa948899a6a";

fn block_0123() -> Block {
    let syncer = Syncer::new();
    Block {
        offset: 8,
        size: 4,
        weak_checksum: 32112838,
        strong_checksum: syncer.calculate_strong_checksum(b"0123"),
    }
}

fn decimal(n: u64) -> Vec<u8> {
    let mut out = b"n=".to_vec();
    push_decimal(&mut out, n);
    out
}

#[test]
fn decimal_text_has_no_leading_zeros() {
    assert_eq!(decimal(0), b"n=0");
    assert_eq!(decimal(7), b"n=7");
    assert_eq!(decimal(10), b"n=10");
    assert_eq!(decimal(1024), b"n=1024");
    assert_eq!(decimal(u64::MAX), b"n=18446744073709551615");
}

#[test]
fn decimal_fields_are_digits_after_an_optional_plus() {
    assert_eq!(parse_decimal(b"0"), Some(0));
    assert_eq!(parse_decimal(b"007"), Some(7));
    assert_eq!(parse_decimal(b"+25"), Some(25));
    assert_eq!(parse_decimal(b"18446744073709551615"), Some(u64::MAX));
    assert_eq!(parse_decimal(b"18446744073709551616"), None);
    assert_eq!(parse_decimal(b"99999999999999999999999"), None);
    assert_eq!(parse_decimal(b""), None);
    assert_eq!(parse_decimal(b"+"), None);
    assert_eq!(parse_decimal(b"-1"), None);
    assert_eq!(parse_decimal(b"++1"), None);
    assert_eq!(parse_decimal(b"1+"), None);
    assert_eq!(parse_decimal(b"12a"), None);
    assert_eq!(parse_decimal(b" 1"), None);
}

#[test]
fn fields_are_runs_between_separators() {
    let line = b"  COPY\t12  4\r\n";
    assert_eq!(next_field(line, 0), (2, 6));
    assert_eq!(next_field(line, 6), (7, 9));
    assert_eq!(next_field(line, 9), (11, 12));
    assert_eq!(next_field(line, 12), (14, 14));
    assert_eq!(next_field(b"", 0), (0, 0));
    assert_eq!(next_field(b"a\x0bb\x0cc", 1), (2, 3));
}

#[test]
fn trimming_takes_separators_from_the_end_only() {
    assert_eq!(trim_end(b" DONE \r\n"), b" DONE");
    assert_eq!(trim_end(b"DONE"), b"DONE");
    assert_eq!(trim_end(b" \t\n"), b"");
    assert_eq!(trim_end(b""), b"");
    assert!(same_bytes(b"DONE", b"DONE"));
    assert!(!same_bytes(b"DONE", b"DONe"));
    assert!(!same_bytes(b"DONE", b"DON"));
}

#[test]
fn keywords_are_upper_case_ascii() {
    assert_eq!(keyword_bytes(Keyword::File), b"FILE");
    assert_eq!(keyword_bytes(Keyword::Blk), b"BLK");
    assert_eq!(keyword_bytes(Keyword::BlkEnd), b"BLKEND");
    assert_eq!(keyword_bytes(Keyword::NoBlk), b"NOBLK");
    assert_eq!(keyword_bytes(Keyword::Data), b"DATA");
    assert_eq!(keyword_bytes(Keyword::Copy), b"COPY");
    assert_eq!(keyword_bytes(Keyword::Done), b"DONE");
}

#[test]
fn request_line_names_the_file_and_its_size() {
    let line = format_request(b"a.txt", b"dir/a.txt", 25);
    assert_eq!(line, b"FILE a.txt dir/a.txt 25\n");
    let request = parse_request(&line).unwrap();
    assert_eq!(request.source_name, b"a.txt");
    assert_eq!(request.destination, b"dir/a.txt");
    assert_eq!(request.size, 25);
}

#[test]
fn request_line_must_start_with_file_and_have_a_size() {
    let request = parse_request(b"  FILE  a  b  7  more fields\n").unwrap();
    assert_eq!((request.source_name, request.destination, request.size), (b"a".to_vec(), b"b".to_vec(), 7));
    assert!(matches!(parse_request(b"FILE a b\n"), Err(SyncError::ProtocolViolation)));
    assert!(matches!(parse_request(b"FILE a b c\n"), Err(SyncError::ProtocolViolation)));
    assert!(matches!(parse_request(b"GET a b 7\n"), Err(SyncError::ProtocolViolation)));
    assert!(matches!(parse_request(b"file a b 7\n"), Err(SyncError::ProtocolViolation)));
    assert!(matches!(parse_request(b"\n"), Err(SyncError::ProtocolViolation)));
    assert!(matches!(parse_request(b""), Err(SyncError::ProtocolViolation)));
}

#[test]
fn block_line_holds_the_digest_in_lower_case_hex() {
    let line = format_block(&block_0123());
    assert_eq!(line, format!("BLK 8 4 32112838 {}\n", DIGEST_0123).into_bytes());
    assert_eq!(parse_signature_line(&line), Ok(SignatureLine::Block(block_0123())));
}

#[test]
fn block_line_is_read_with_digits_of_either_case() {
    let line = format!("BLK 8 4 32112838 {}\r\n", DIGEST_0123.to_uppercase());
    assert_eq!(parse_signature_line(line.as_bytes()), Ok(SignatureLine::Block(block_0123())));
}

#[test]
fn signature_lines_without_a_block() {
    assert_eq!(parse_signature_line(b"NOBLK\n"), Ok(SignatureLine::NoBlocks));
    assert_eq!(parse_signature_line(b"NOBLK"), Ok(SignatureLine::NoBlocks));
    assert_eq!(parse_signature_line(b"BLKEND \r\n"), Ok(SignatureLine::End));
}

#[test]
fn malformed_signature_lines_are_protocol_violations() {
    let bad = [
        format!("BLK 8 4 32112838\n"),
        format!("BLK 8 4 32112838 {} extra\n", DIGEST_0123),
        format!("BLK 8 4 32112838 {}\n", &DIGEST_0123[2..]),
        format!("BLK 8 4 32112838 {}ab\n", DIGEST_0123),
        format!("BLK 8 4 32112838 {}\n", &DIGEST_0123[1..]),
        format!("BLK 8 4 32112838 {}\n", DIGEST_0123.replace('1', "g")),
        format!("BLK x 4 32112838 {}\n", DIGEST_0123),
        format!("BLK 8 -4 32112838 {}\n", DIGEST_0123),
        format!("BLK 8 4 4294967296 {}\n", DIGEST_0123),
        format!("BLK 18446744073709551616 4 1 {}\n", DIGEST_0123),
        format!("XYZ 8 4 32112838 {}\n", DIGEST_0123),
        format!(" NOBLK\n"),
        format!("NOBLK 1\n"),
        format!("\n"),
        format!(""),
    ];
    for line in bad {
        assert_eq!(
            parse_signature_line(line.as_bytes()),
            Err(SyncError::ProtocolViolation),
            "{:?}",
            line
        );
    }
}

#[test]
fn command_lines_are_read() {
    assert_eq!(parse_command(b"DATA 10\n"), Ok(Command::Data(10)));
    assert_eq!(parse_command(b"DATA 0\n"), Ok(Command::Data(0)));
    assert_eq!(parse_command(b"DATA +5 more\n"), Ok(Command::Data(5)));
    assert_eq!(parse_command(b"COPY 12 4\n"), Ok(Command::Copy(12, 4)));
    assert_eq!(parse_command(b"  COPY  18446744073709551615 0 x\r\n"), Ok(Command::Copy(u64::MAX, 0)));
    assert_eq!(parse_command(b"DONE\n"), Ok(Command::Done));
    assert_eq!(parse_command(b"DONE"), Ok(Command::Done));
    assert_eq!(parse_command(b"DONE  \r\n"), Ok(Command::Done));
}

#[test]
fn malformed_command_lines_are_protocol_violations() {
    let bad: [&[u8]; 12] = [
        b" DONE\n",
        b"DONE 1\n",
        b"DATA\n",
        b"DATA x\n",
        b"DATA -1\n",
        b"DATA 99999999999999999999999\n",
        b"COPY 1\n",
        b"COPY 1 x\n",
        b"COPY 18446744073709551616 1\n",
        b"MOVE 1 2\n",
        b"data 1\n",
        b"\n",
    ];
    for line in bad {
        assert_eq!(parse_command(line), Err(SyncError::ProtocolViolation), "{:?}", line);
    }
}

#[test]
fn frames_carry_literal_data_behind_their_line() {
    let mut out = Vec::new();
    push_frame(&mut out, &Instruction::Copy { offset: 12, length: 4 });
    assert_eq!(out, b"COPY 12 4\n");
    push_frame(&mut out, &Instruction::Literal(b"a\nb ".to_vec()));
    assert_eq!(out, b"COPY 12 4\nDATA 4\na\nb ");
    push_frame(&mut out, &Instruction::Literal(vec![]));
    push_done(&mut out);
    assert_eq!(out, b"COPY 12 4\nDATA 4\na\nb DATA 0\nDONE\n");
}
