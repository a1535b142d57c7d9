//! A sync between peers: the client holds the source and scans it, the
//! server holds the destination, announces its signatures and reassembles
//! the file.

use crate::checksum::sha256;
use crate::checksum::weak_checksum;
use crate::delta::collision_free;
use crate::delta::delta;
use crate::delta::lemma_literal_run_rebuilds;
use crate::delta::lemma_plan_rebuilds_source;
use crate::delta::lemma_plan_without_reference;
use crate::delta::literal_run;
use crate::delta::match_at;
use crate::delta::scan;
use crate::delta::scan_from;
use crate::delta::window;
use crate::index::lemma_first_match;
use crate::index::SignatureIndex;
use crate::instruction::copied_bytes;
use crate::instruction::literal_bytes;
use crate::instruction::Op;
use crate::protocol::announceable;
use crate::protocol::encodable;
use crate::protocol::format_request;
use crate::protocol::keyword;
use crate::protocol::Keyword;
use crate::protocol::lemma_end_lines_parse;
use crate::protocol::lemma_keyword_is_word;
use crate::protocol::parse_request;
use crate::protocol::parsed_request;
use crate::protocol::request_line;
use crate::protocol::RequestView;
use crate::server::destination_view;
use crate::server::receive;
use crate::server::reference_at;
use crate::server::reference_of;
use crate::stream::all_announceable;
use crate::stream::all_encodable;
use crate::stream::announce;
use crate::stream::encode;
use crate::stream::instruction_stream;
use crate::stream::lemma_first_line_of_words;
use crate::stream::lemma_signature_lines_parsed;
use crate::stream::lemma_stream_received;
use crate::stream::parse_signatures;
use crate::stream::parsed_signatures;
use crate::stream::received;
use crate::stream::Reception;
use crate::stream::reception_of;
use crate::stream::reference_signatures;
use crate::stream::signature_response;
use crate::sync::Signature;
use crate::sync::signatures;
use crate::sync::signatures_of;
use crate::sync::Syncer;
use crate::sync::SyncError;
use crate::sync::TransferResult;
use crate::tree::Entry;
use crate::tree::Tree;
use crate::wire::all_words;
use crate::wire::text_line;
use vstd::prelude::*;

verus! {

/// Synchronises a source file with a destination on another host.
pub struct NetworkSyncer {
    /// The options of the sync; its block size is the one that is used.
    pub syncer: Syncer,
    /// The host of the server.
    pub remote_address: String,
    /// The port of the server.
    pub remote_port: u16,
    /// The path of the source file on the client.
    pub source: String,
    /// The path of the destination file on the server.
    pub destination: String,
    /// The block size that a new syncer starts with. `with_block_size` leaves
    /// it as it is and sets the block size of `syncer`.
    pub block_size: usize,
}

/// What a server has done for one request.
#[derive(Debug, PartialEq, Eq)]
pub struct Served {
    /// Its answer to the request: the signatures of its destination.
    pub response: Vec<u8>,
    /// The new content of the destination.
    pub target: Vec<u8>,
    /// The bytes that came as raw data and the bytes taken from the old
    /// destination.
    pub result: TransferResult,
}

/// What serving one request comes to: the answer to the client and what is
/// received from it. A block size of zero, a request that is no `FILE`
/// line and a destination that is no regular file are refused, in this
/// order, before anything is received.
pub open spec fn served(
    block_size: int,
    request: Seq<u8>,
    destination: Option<Tree>,
    stream: Seq<u8>,
) -> Result<(Seq<u8>, Reception), SyncError> {
    if block_size <= 0 {
        Err(SyncError::ConfigInvalid)
    } else if parsed_request(request) is None {
        Err(SyncError::ProtocolViolation)
    } else {
        match reference_at(destination) {
            Err(e) => Err(e),
            Ok(reference) => match received(stream, reference) {
                Err(e) => Err(e),
                Ok(reception) => Ok((signature_response(reference, block_size), reception)),
            },
        }
    }
}

impl NetworkSyncer {
    /// A syncer to the server at `remote_address` and `remote_port`, with the
    /// default options.
    pub fn new(remote_address: String, remote_port: u16, source: String, destination: String)
        -> (syncer: Self)
        ensures
            syncer == (NetworkSyncer {
                syncer: Syncer::initial(),
                remote_address,
                remote_port,
                source,
                destination,
                block_size: 1024,
            }),
    {
        Self {
            syncer: Syncer::new(),
            remote_address,
            remote_port,
            source,
            destination,
            block_size: 1024,
        }
    }

    /// The same syncer, which scans with blocks of `block_size` bytes.
    pub fn with_block_size(self, block_size: usize) -> (syncer: Self)
        ensures
            syncer == (NetworkSyncer {
                syncer: Syncer { block_size, ..self.syncer },
                ..self
            }),
    {
        let mut syncer = self;
        syncer.syncer.block_size = block_size;
        syncer
    }

    /// The request that opens the exchange, for a source file with the name
    /// `source_name` and of `source_size` bytes.
    pub fn request(&self, source_name: &[u8], source_size: u64) -> (line: Vec<u8>)
        ensures
            line@ == request_line(
                RequestView {
                    source_name: source_name@,
                    destination: vstd::utf8::encode_utf8(self.destination@),
                    size: source_size as nat,
                },
            ),
    {
        format_request(source_name, self.destination.as_str().as_bytes(), source_size)
    }

    /// The client's part of the exchange: reads the answer of the server,
    /// scans `source` against the signatures in it and returns the
    /// instruction stream, with the bytes that go as raw data and the bytes
    /// that the server is told to copy. A block size of zero is refused.
    pub fn sync(&self, source: &[u8], response: &[u8]) -> (sent: Result<
        (Vec<u8>, TransferResult),
        SyncError,
    >)
        ensures
            match sent {
                Ok(out) => {
                    &&& self.syncer.block_size > 0
                    &&& parsed_signatures(response@, true) is Ok
                    &&& out.0@ == instruction_stream(
                        delta(
                            source@,
                            parsed_signatures(response@, true)->Ok_0,
                            self.syncer.block_size as int,
                        ),
                    )
                    &&& out.1.new_bytes == literal_bytes(
                        delta(
                            source@,
                            parsed_signatures(response@, true)->Ok_0,
                            self.syncer.block_size as int,
                        ),
                    )
                    &&& out.1.reused_bytes == copied_bytes(
                        delta(
                            source@,
                            parsed_signatures(response@, true)->Ok_0,
                            self.syncer.block_size as int,
                        ),
                    )
                    &&& out.1.new_bytes + out.1.reused_bytes == source.len()
                    &&& forall|reference: Option<Seq<u8>>| #[trigger]
                        received(out.0@, reference) == reception_of(
                            delta(
                                source@,
                                parsed_signatures(response@, true)->Ok_0,
                                self.syncer.block_size as int,
                            ),
                            reference,
                        )
                },
                Err(e) => if self.syncer.block_size == 0 {
                    e == SyncError::ConfigInvalid
                } else {
                    e == SyncError::ProtocolViolation && parsed_signatures(response@, true) is Err
                },
            },
    {
        let block_size: usize = self.syncer.block_size;
        if block_size == 0 {
            return Err(SyncError::ConfigInvalid);
        }
        let blocks = match parse_signatures(response) {
            Ok(blocks) => blocks,
            Err(e) => {
                return Err(e);
            },
        };
        let index = SignatureIndex::new(blocks);
        let (instructions, tally) = scan(source, &index, block_size);
        Ok((encode(instructions.as_slice()), tally))
    }

    /// The server's part of the exchange: reads the request, answers with
    /// the signatures of `destination` in blocks of `block_size` bytes, and
    /// reassembles the file from the instruction stream of the client.
    pub fn serve(
        block_size: usize,
        request: &[u8],
        destination: Option<&Entry>,
        stream: &[u8],
    ) -> (done: Result<Served, SyncError>)
        ensures
            match done {
                Ok(s) => served(
                    block_size as int,
                    request@,
                    destination_view(destination),
                    stream@,
                ) == Ok::<(Seq<u8>, Reception), SyncError>(
                    (
                        s.response@,
                        Reception {
                            content: s.target@,
                            new_bytes: s.result.new_bytes as int,
                            reused_bytes: s.result.reused_bytes as int,
                        },
                    ),
                ),
                Err(e) => served(
                    block_size as int,
                    request@,
                    destination_view(destination),
                    stream@,
                ) == Err::<(Seq<u8>, Reception), SyncError>(e),
            },
    {
        if block_size == 0 {
            return Err(SyncError::ConfigInvalid);
        }
        match parse_request(request) {
            Err(e) => {
                return Err(e);
            },
            Ok(_) => {},
        }
        let reference = match reference_of(destination) {
            Err(e) => {
                return Err(e);
            },
            Ok(reference) => reference,
        };
        let response = announce(block_size, reference);
        match receive(stream, reference) {
            Err(e) => Err(e),
            Ok((target, result)) => Ok(Served { response, target, result }),
        }
    }
}

/// Every instruction of a scan over data that fits in memory can be
/// written on the wire.
pub proof fn lemma_scan_encodable(
    source: Seq<u8>,
    sigs: Seq<Signature>,
    block_size: int,
    pos: int,
    last_emit: int,
)
    requires
        source.len() <= usize::MAX,
        block_size <= usize::MAX,
        all_announceable(sigs),
        0 <= last_emit <= pos <= source.len(),
    ensures
        all_encodable(scan_from(source, sigs, block_size, pos, last_emit)),
    decreases source.len() - pos,
{
    let ops = scan_from(source, sigs, block_size, pos, last_emit);
    if block_size > 0 && pos + block_size <= source.len() {
        let bytes = window(source, block_size, pos);
        match match_at(source, sigs, block_size, pos) {
            Some(k) => {
                let next = pos + block_size;
                lemma_first_match(sigs, block_size, weak_checksum(bytes), sha256(bytes), 0);
                lemma_scan_encodable(source, sigs, block_size, next, next);
                let head = literal_run(source, last_emit, pos);
                let copy = seq![Op::Copy { offset: sigs[k].offset, length: block_size }];
                let tail = scan_from(source, sigs, block_size, next, next);
                assert(announceable(sigs[k]));
                assert forall|i: int| 0 <= i < ops.len() implies encodable(#[trigger] ops[i]) by {
                    if i < head.len() {
                        assert(ops[i] == head[i]);
                    } else if i == head.len() {
                        assert(ops[i] == copy[0]);
                    } else {
                        assert(ops[i] == tail[i - head.len() - 1]);
                    }
                }
            },
            None => {
                lemma_scan_encodable(source, sigs, block_size, pos + 1, last_emit);
            },
        }
    }
}

/// Whether every digest of a list of signatures has 32 bytes, as the digest
/// of every block has.
pub open spec fn digests_sized(sigs: Seq<Signature>) -> bool {
    forall|k: int| 0 <= k < sigs.len() ==> (#[trigger] sigs[k]).strong.len() == 32
}

/// The signatures of data that fits in memory can be written on the wire.
pub proof fn lemma_signatures_announceable(reference: Seq<u8>, block_size: int)
    requires
        0 < block_size,
        reference.len() <= usize::MAX,
        digests_sized(signatures_of(reference, block_size)),
    ensures
        all_announceable(signatures_of(reference, block_size)),
{
    let sigs = signatures_of(reference, block_size);
    assert forall|k: int| 0 <= k < sigs.len() implies announceable(#[trigger] sigs[k]) by {
        crate::sync::lemma_block_start(reference.len() as int, block_size, k);
        assert(0 <= k * block_size) by (nonlinear_arith)
            requires
                0 <= k,
                0 < block_size,
        ;
    }
}

/// The exchange between a client with `source` and a server with
/// `reference` ends with the content of the source on the server: the
/// client reads the signatures that the server has, the server can carry
/// out what the client sends, and it ends up with the bytes of the source
/// unless two different byte ranges share both checksums.
pub proof fn lemma_round_trip(source: Seq<u8>, reference: Option<Seq<u8>>, block_size: int)
    requires
        0 < block_size <= usize::MAX,
        source.len() <= usize::MAX,
        reference matches Some(old) ==> old.len() <= usize::MAX,
    ensures
        ({
            let sigs = reference_signatures(reference, block_size);
            let stream = instruction_stream(delta(source, sigs, block_size));
            digests_sized(sigs) ==> {
                &&& parsed_signatures(signature_response(reference, block_size), true) == Ok::<
                    Seq<Signature>,
                    SyncError,
                >(sigs)
                &&& received(stream, reference) is Ok
                &&& (match reference {
                    Some(old) => collision_free(source, old, block_size),
                    None => true,
                }) ==> received(stream, reference)->Ok_0.content == source
            }
        }),
{
    let sigs = reference_signatures(reference, block_size);
    let ops = delta(source, sigs, block_size);
    if digests_sized(sigs) {
        match reference {
            Some(old) => {
                lemma_signatures_announceable(old, block_size);
                lemma_signature_lines_parsed(sigs, true);
                lemma_plan_rebuilds_source(source, old, block_size);
            },
            None => {
                let words = seq![keyword(Keyword::NoBlk)];
                lemma_keyword_is_word(Keyword::NoBlk);
                assert(all_words(words));
                lemma_first_line_of_words(words, Seq::empty());
                assert(text_line(words) + Seq::<u8>::empty() =~= text_line(words));
                lemma_end_lines_parse();
                lemma_plan_without_reference(source, block_size);
                lemma_literal_run_rebuilds(source, 0, source.len() as int, None);
                assert(source.subrange(0, source.len() as int) =~= source);
            },
        }
        lemma_scan_encodable(source, sigs, block_size, 0, 0);
        lemma_stream_received(ops, reference);
    }
}

} // verus!
