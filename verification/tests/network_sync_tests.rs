use rsynx::instruction::Instruction;
use rsynx::stream::announce;
use rsynx::stream::encode;
use rsynx::stream::parse_signatures;
use rsynx::stream::read_line;
use rsynx::server::receive;
use rsynx::server::reference_of;
use rsynx::network_sync::NetworkSyncer;
use rsynx::server::ServerSession;
use rsynx::server::Step;
use rsynx::sync::SyncError;
use rsynx::sync::Syncer;
use rsynx::sync::TransferResult;
use rsynx::tree::Entry;

const DIGEST_0123: &str = "1be2e452b46d7a0d9656bbb1f768e8248eba1b75baed65f5d99eafa948899a6a";
const DIGEST_4567: &str = "db2e7f1bd5ab9968ae76199b7cc74795ca7404d5a08d78567715ce532f9d2669";
const DIGEST_89: &str = "cd70bea023f752a0564abb6ed08d42c1440f2e33e29914e55e0be1595e24f45a";

fn client(block_size: usize) -> NetworkSyncer {
    NetworkSyncer::new(
        "127.0.0.1".to_string(),
        7878,
        "test_net_sync_file.txt".to_string(),
        "test_net_sync_dir/test_net_sync_file.txt".to_string(),
    )
    .with_block_size(block_size)
}

#[test]
fn test_network_sync_file() {
    let src_filename = "test_net_sync_file.txt";
    let src_content = b"Hello network sync file !";
    let dst_content = b"Hello world sync file";

    // must make sure server and client use the same block size
    let block_size = 4;

    let client_syncer = client(block_size);
    let request = client_syncer.request(src_filename.as_bytes(), src_content.len() as u64);
    assert_eq!(request, b"FILE test_net_sync_file.txt test_net_sync_dir/test_net_sync_file.txt 25\n");

    let dst_file = Entry::File(dst_content.to_vec());
    let response = announce(block_size, reference_of(Some(&dst_file)).unwrap());
    let (stream, result) = client_syncer.sync(src_content, &response).unwrap();
    println!("Client result: new_bytes: {}, reused_bytes: {}", result.new_bytes, result.reused_bytes);
    assert_eq!(
        stream,
        b"COPY 0 4\nDATA 10\no network COPY 12 4\nCOPY 16 4\nDATA 3\ne !DONE\n"
    );
    assert_eq!(result, TransferResult { new_bytes: 13, reused_bytes: 12 });

    let served = NetworkSyncer::serve(block_size, &request, Some(&dst_file), &stream).unwrap();
    println!(
        "Server result: new_bytes: {}, reused_bytes: {}",
        served.result.new_bytes, served.result.reused_bytes
    );
    assert_eq!(served.response, response);
    assert_eq!(served.result, result);

    let dst_data = served.target;
    assert_eq!(dst_data, src_content);
}

#[test]
fn new_network_syncer_has_the_default_options() {
    let syncer = NetworkSyncer::new("host".to_string(), 7878, "src".to_string(), "dst".to_string());
    assert_eq!(syncer.syncer, Syncer::new());
    assert_eq!(syncer.remote_address, "host");
    assert_eq!(syncer.remote_port, 7878);
    assert_eq!(syncer.source, "src");
    assert_eq!(syncer.destination, "dst");
    assert_eq!(syncer.block_size, 1024);
    let syncer = syncer.with_block_size(4);
    assert_eq!(syncer.syncer, Syncer { block_size: 4, ..Syncer::new() });
    assert_eq!(syncer.block_size, 1024);
    assert_eq!(syncer.destination, "dst");
}

#[test]
fn server_announces_one_line_for_each_block() {
    let response = announce(4, Some(b"0123456789"));
    let expected = format!(
        "BLK 0 4 32112838 {}\nBLK 4 4 34734294 {}\nBLK 8 2 11075697 {}\nBLKEND\n",
        DIGEST_0123, DIGEST_4567, DIGEST_89
    );
    assert_eq!(response, expected.into_bytes());
    assert_eq!(announce(4, Some(b"")), b"BLKEND\n");
    assert_eq!(announce(4, None), b"NOBLK\n");
}

#[test]
fn client_reads_what_the_server_announces() {
    let mut syncer = Syncer::new();
    syncer.block_size = 4;
    let blocks = syncer.calculate_checksums(b"0123456789");
    assert_eq!(parse_signatures(&announce(4, Some(b"0123456789"))), Ok(blocks));
    assert_eq!(parse_signatures(b"BLKEND\n"), Ok(vec![]));
    assert_eq!(parse_signatures(b"NOBLK\n"), Ok(vec![]));
    assert_eq!(parse_signatures(b"NOBLK\nnot read any more"), Ok(vec![]));
}

#[test]
fn client_refuses_a_malformed_or_truncated_answer() {
    let line = format!("BLK 0 4 32112838 {}\n", DIGEST_0123);
    let bad = [
        format!(""),
        format!("HELLO\n"),
        format!("{}", line),
        format!("{}{}", line, line),
        format!("{}NOBLK\n", line),
        format!("{}BLK 4 4\nBLKEND\n", line),
        format!("{}\nBLKEND\n", line),
    ];
    for response in bad {
        assert_eq!(
            parse_signatures(response.as_bytes()),
            Err(SyncError::ProtocolViolation),
            "{:?}",
            response
        );
        assert_eq!(
            client(4).sync(b"0123", response.as_bytes()),
            Err(SyncError::ProtocolViolation)
        );
    }
}

#[test]
fn client_sends_only_data_after_noblk() {
    let (stream, result) = client(4).sync(b"0123456789", b"NOBLK\n").unwrap();
    assert_eq!(stream, b"DATA 10\n0123456789DONE\n");
    assert_eq!(result, TransferResult { new_bytes: 10, reused_bytes: 0 });
    assert_eq!(
        receive(&stream, None),
        Ok((b"0123456789".to_vec(), TransferResult { new_bytes: 10, reused_bytes: 0 }))
    );
}

#[test]
fn client_sends_nothing_but_done_for_an_empty_source() {
    let (stream, result) = client(4).sync(b"", &announce(4, Some(b"0123"))).unwrap();
    assert_eq!(stream, b"DONE\n");
    assert_eq!(result, TransferResult { new_bytes: 0, reused_bytes: 0 });
    assert_eq!(receive(&stream, Some(b"0123")), Ok((vec![], TransferResult { new_bytes: 0, reused_bytes: 0 })));
}

#[test]
fn client_refuses_a_block_size_of_zero() {
    assert_eq!(client(0).sync(b"0123", b"NOBLK\n"), Err(SyncError::ConfigInvalid));
    assert_eq!(client(0).sync(b"0123", b"nonsense"), Err(SyncError::ConfigInvalid));
}

#[test]
fn instruction_stream_ends_with_done() {
    let plan = vec![
        Instruction::Copy { offset: 0, length: 4 },
        Instruction::Literal(b"DONE\n".to_vec()),
    ];
    let stream = encode(&plan);
    assert_eq!(stream, b"COPY 0 4\nDATA 5\nDONE\nDONE\n");
    assert_eq!(
        receive(&stream, Some(b"0123")),
        Ok((b"0123DONE\n".to_vec(), TransferResult { new_bytes: 5, reused_bytes: 4 }))
    );
    assert_eq!(encode(&[]), b"DONE\n");
}

#[test]
fn lines_end_behind_their_line_feed() {
    let stream = b"COPY 0 4\nDONE";
    assert_eq!(read_line(stream, 0), 9);
    assert_eq!(read_line(stream, 5), 9);
    assert_eq!(read_line(stream, 8), 9);
    assert_eq!(read_line(stream, 9), 13);
    assert_eq!(read_line(stream, 13), 13);
    assert_eq!(read_line(b"\n\n", 0), 1);
}

#[test]
fn server_refuses_a_copy_without_a_file() {
    assert_eq!(receive(b"DATA 2\nabCOPY 0 1\nDONE\n", None), Err(SyncError::ProtocolViolation));
}

#[test]
fn server_fails_on_a_copy_beyond_the_file() {
    assert_eq!(receive(b"COPY 2 3\nDONE\n", Some(b"0123")), Err(SyncError::IoFailure));
    assert_eq!(receive(b"COPY 5 0\nDONE\n", Some(b"0123")), Err(SyncError::IoFailure));
    assert_eq!(
        receive(b"COPY 2 2\nCOPY 4 0\nDONE\n", Some(b"0123")),
        Ok((b"23".to_vec(), TransferResult { new_bytes: 0, reused_bytes: 2 }))
    );
}

#[test]
fn server_refuses_a_stream_that_ends_early_or_is_malformed() {
    let bad: [&[u8]; 8] = [
        b"",
        b"DATA 2\nab",
        b"DATA 2\nabDON",
        b"DATA 5\nab",
        b"COPY 0 1\n",
        b"DATA 2\nab\nDONE\n",
        b"HELLO\nDONE\n",
        b"COPY 0\nDONE\n",
    ];
    for stream in bad {
        assert_eq!(receive(stream, Some(b"0123")), Err(SyncError::ProtocolViolation), "{:?}", stream);
    }
    assert_eq!(
        receive(b"DATA 2\nabDONE\nanything", Some(b"0123")),
        Ok((b"ab".to_vec(), TransferResult { new_bytes: 2, reused_bytes: 0 }))
    );
}

#[test]
fn the_first_failure_of_a_stream_is_reported() {
    assert_eq!(receive(b"COPY 9 9\nHELLO\n", Some(b"0123")), Err(SyncError::IoFailure));
    assert_eq!(receive(b"HELLO\nCOPY 9 9\n", Some(b"0123")), Err(SyncError::ProtocolViolation));
}

#[test]
fn server_session_takes_commands_one_by_one() {
    let mut session = ServerSession::new(Some(b"0123456789"));
    assert_eq!(session.command(b"COPY 4 4\n"), Ok(Step::Next));
    assert_eq!(session.command(b"DATA 3\n"), Ok(Step::Payload(3)));
    session.payload(b"abc");
    assert_eq!(session.command(b"COPY 40 4\n"), Err(SyncError::IoFailure));
    assert_eq!(session.command(b"nonsense\n"), Err(SyncError::ProtocolViolation));
    assert_eq!(session.command(b"COPY 0 1\n"), Ok(Step::Next));
    assert_eq!(session.command(b"DONE\n"), Ok(Step::Finished));
    assert_eq!(
        session.finish(),
        (b"4567abc0".to_vec(), TransferResult { new_bytes: 3, reused_bytes: 5 })
    );
}

#[test]
fn server_takes_only_a_regular_file_as_its_reference() {
    assert_eq!(reference_of(None), Ok(None));
    let file = Entry::File(b"0123".to_vec());
    assert_eq!(reference_of(Some(&file)), Ok(Some(&b"0123"[..])));
    let directory = Entry::Directory(vec![]);
    assert_eq!(reference_of(Some(&directory)), Err(SyncError::ProtocolViolation));
    assert_eq!(reference_of(Some(&Entry::Other)), Err(SyncError::ProtocolViolation));
}

#[test]
fn serve_refuses_bad_configurations_requests_and_destinations() {
    let request = b"FILE a b 4\n";
    let stream = b"DATA 4\n0123DONE\n";
    let directory = Entry::Directory(vec![]);
    assert!(matches!(
        NetworkSyncer::serve(0, request, None, stream),
        Err(SyncError::ConfigInvalid)
    ));
    assert!(matches!(
        NetworkSyncer::serve(4, b"HELLO\n", None, stream),
        Err(SyncError::ProtocolViolation)
    ));
    assert!(matches!(
        NetworkSyncer::serve(4, request, Some(&directory), stream),
        Err(SyncError::ProtocolViolation)
    ));
    assert!(matches!(
        NetworkSyncer::serve(4, request, None, b"COPY 0 4\nDONE\n"),
        Err(SyncError::ProtocolViolation)
    ));
    let served = NetworkSyncer::serve(4, request, None, stream).unwrap();
    assert_eq!(served.response, b"NOBLK\n");
    assert_eq!(served.target, b"0123");
    assert_eq!(served.result, TransferResult { new_bytes: 4, reused_bytes: 0 });
}

#[test]
fn exchange_rebuilds_the_source_on_the_server() {
    let reference: Vec<u8> = (0..3000u32).map(|i| (i * 31 % 256) as u8).collect();
    let mut source = reference.clone();
    source[1000] = b'\n';
    source.extend_from_slice(b"DONE\n");
    for (block_size, destination) in [(1usize, Some(&reference)), (64, Some(&reference)), (64, None), (4096, Some(&reference))] {
        let syncer = client(block_size);
        let response = announce(block_size, destination.map(|r| r.as_slice()));
        let (stream, sent) = syncer.sync(&source, &response).unwrap();
        let (target, got) = receive(&stream, destination.map(|r| r.as_slice())).unwrap();
        assert_eq!(target, source);
        assert_eq!(got, sent);
    }
}
