//! What goes over the connection: the signature lines of the server and the
//! instruction stream of the client, as whole byte strings.

use crate::instruction::copied_bytes;
use crate::instruction::Instruction;
use crate::instruction::lemma_reassemble_concat;
use crate::instruction::lemma_reassemble_single;
use crate::instruction::lemma_tally_concat;
use crate::instruction::lemma_tally_push;
use crate::instruction::literal_bytes;
use crate::instruction::Op;
use crate::instruction::plan;
use crate::instruction::produce;
use crate::instruction::reassemble;
use crate::instruction::reference_view;
use crate::protocol::announceable;
use crate::protocol::block_line;
use crate::protocol::block_words;
use crate::protocol::Command;
use crate::protocol::command_line;
use crate::protocol::command_words;
use crate::protocol::done_line;
use crate::protocol::encodable;
use crate::protocol::format_block;
use crate::protocol::frame;
use crate::protocol::keyword;
use crate::protocol::Keyword;
use crate::protocol::keyword_bytes;
use crate::protocol::lemma_block_line_parses;
use crate::protocol::lemma_block_words;
use crate::protocol::lemma_command_line_parses;
use crate::protocol::lemma_command_words;
use crate::protocol::lemma_done_line_parses;
use crate::protocol::lemma_end_lines_parse;
use crate::protocol::lemma_keyword_is_word;
use crate::protocol::parse_signature_line;
use crate::protocol::parsed_command;
use crate::protocol::parsed_signature_line;
use crate::protocol::push_bytes;
use crate::protocol::push_done;
use crate::protocol::push_frame;
use crate::protocol::SignatureLine;
use crate::protocol::SignatureLineView;
use crate::sync::Block;
use crate::sync::Signature;
use crate::sync::signatures;
use crate::sync::signatures_of;
use crate::sync::Syncer;
use crate::sync::SyncError;
use crate::wire::all_words;
use crate::wire::lemma_spaced_bytes;
use crate::wire::spaced;
use crate::wire::text_line;
use vstd::prelude::*;
use vstd::slice::slice_subrange;

verus! {

/// The length of the first line of `stream`, its line feed included; the
/// length of `stream` if it holds no line feed.
pub open spec fn line_end(stream: Seq<u8>) -> int
    decreases stream.len(),
{
    if stream.len() == 0 {
        0
    } else if stream[0] == 10 {
        1
    } else {
        1 + line_end(stream.drop_first())
    }
}

/// The first line of `stream`.
pub open spec fn first_line(stream: Seq<u8>) -> Seq<u8> {
    stream.take(line_end(stream))
}

/// A line ends inside the stream, and behind at least one byte if there is
/// one.
pub proof fn lemma_line_end_bounds(stream: Seq<u8>)
    ensures
        0 <= line_end(stream) <= stream.len(),
        stream.len() > 0 ==> line_end(stream) > 0,
    decreases stream.len(),
{
    if stream.len() > 0 && stream[0] != 10 {
        lemma_line_end_bounds(stream.drop_first());
    }
}

/// A stream has no line feed before the given position.
pub open spec fn no_line_feed_before(stream: Seq<u8>, end: int) -> bool {
    forall|i: int| 0 <= i < end ==> #[trigger] stream[i] != 10
}

/// The first line of a stream ends behind its first line feed.
pub proof fn lemma_line_end_at(stream: Seq<u8>, at: int)
    requires
        0 <= at < stream.len(),
        no_line_feed_before(stream, at),
        stream[at] == 10,
    ensures
        line_end(stream) == at + 1,
    decreases at,
{
    if at > 0 {
        let rest = stream.drop_first();
        assert forall|i: int| 0 <= i < at - 1 implies #[trigger] rest[i] != 10 by {
            assert(rest[i] == stream[i + 1]);
        }
        assert(stream[0] != 10);
        lemma_line_end_at(rest, at - 1);
    }
}

/// A stream that starts with a line made of words has that line as its first
/// line.
pub proof fn lemma_first_line_of_words(words: Seq<Seq<u8>>, rest: Seq<u8>)
    requires
        words.len() > 0,
        all_words(words),
    ensures
        line_end(text_line(words) + rest) == text_line(words).len(),
        first_line(text_line(words) + rest) == text_line(words),
        (text_line(words) + rest).skip(text_line(words).len() as int) == rest,
{
    let line = text_line(words);
    let stream = line + rest;
    let text = spaced(words);
    lemma_spaced_bytes(words);
    assert forall|i: int| 0 <= i < text.len() implies #[trigger] stream[i] != 10 by {
        assert(stream[i] == text[i]);
    }
    assert(stream[text.len() as int] == 10);
    lemma_line_end_at(stream, text.len() as int);
    assert(stream.take(line.len() as int) =~= line);
    assert(stream.skip(line.len() as int) =~= rest);
}

/// Where the line that starts at `from` ends in `stream`.
pub fn read_line(stream: &[u8], from: usize) -> (end: usize)
    requires
        from <= stream.len(),
    ensures
        end == from + line_end(stream@.skip(from as int)),
        from <= end <= stream.len(),
{
    let mut end: usize = from;
    proof {
        lemma_line_end_bounds(stream@.skip(from as int));
    }
    while end < stream.len()
        invariant
            from <= end <= stream.len(),
            from + line_end(stream@.skip(from as int)) == end + line_end(stream@.skip(end as int)),
        decreases stream.len() - end,
    {
        let ghost rest = stream@.skip(end as int);
        assert(rest.drop_first() =~= stream@.skip(end + 1));
        assert(rest[0] == stream@[end as int]);
        if stream[end] == 10 {
            return end + 1;
        }
        end += 1;
    }
    end
}

/// The instruction stream of a client: the frames of its plan, then `DONE`.
pub open spec fn instruction_stream(ops: Seq<Op>) -> Seq<u8>
    decreases ops.len(),
{
    if ops.len() == 0 {
        done_line()
    } else {
        frame(ops[0]) + instruction_stream(ops.drop_first())
    }
}

/// Writes the instruction stream for `instructions`.
pub fn encode(instructions: &[Instruction]) -> (stream: Vec<u8>)
    ensures
        stream@ == instruction_stream(plan(instructions@)),
        forall|reference: Option<Seq<u8>>| #[trigger]
            received(stream@, reference) == reception_of(plan(instructions@), reference),
{
    let ghost ops = plan(instructions@);
    proof {
        assert(all_encodable(ops)) by {
            assert forall|i: int| 0 <= i < ops.len() implies encodable(#[trigger] ops[i]) by {
                assert(ops[i] == instructions@[i]@);
                match instructions@[i] {
                    Instruction::Literal(bytes) => {
                        assert(bytes.len() == bytes@.len());
                    },
                    Instruction::Copy { .. } => {},
                }
            }
        }
        assert forall|reference: Option<Seq<u8>>| #[trigger]
            received(instruction_stream(ops), reference) == reception_of(ops, reference) by {
            lemma_stream_received(ops, reference);
        }
    }
    let mut stream: Vec<u8> = Vec::new();
    let mut i: usize = 0;
    assert(ops.skip(0) =~= ops);
    while i < instructions.len()
        invariant
            i <= instructions.len(),
            ops == plan(instructions@),
            instruction_stream(ops) == stream@ + instruction_stream(ops.skip(i as int)),
        decreases instructions.len() - i,
    {
        let ghost before = stream@;
        let ghost rest = ops.skip(i as int);
        push_frame(&mut stream, &instructions[i]);
        proof {
            assert(rest[0] == instructions@[i as int]@);
            assert(rest.drop_first() =~= ops.skip(i + 1));
            assert(before + (frame(rest[0]) + instruction_stream(ops.skip(i + 1))) =~= stream@
                + instruction_stream(ops.skip(i + 1)));
        }
        i += 1;
    }
    assert(ops.skip(i as int) =~= Seq::<Op>::empty());
    push_done(&mut stream);
    stream
}

/// What a server has put together from an instruction stream: the content
/// of the new file, and how many of its bytes came as raw data and how many
/// out of the old file.
pub struct Reception {
    pub content: Seq<u8>,
    pub new_bytes: int,
    pub reused_bytes: int,
}

/// A reception with raw data in front of it.
pub open spec fn after_data(head: Seq<u8>, rest: Result<Reception, SyncError>) -> Result<
    Reception,
    SyncError,
> {
    match rest {
        Ok(tail) => Ok(
            Reception {
                content: head + tail.content,
                new_bytes: head.len() + tail.new_bytes,
                reused_bytes: tail.reused_bytes,
            },
        ),
        Err(e) => Err(e),
    }
}

/// A reception with copied bytes in front of it.
pub open spec fn after_copy(head: Seq<u8>, rest: Result<Reception, SyncError>) -> Result<
    Reception,
    SyncError,
> {
    match rest {
        Ok(tail) => Ok(
            Reception {
                content: head + tail.content,
                new_bytes: tail.new_bytes,
                reused_bytes: head.len() + tail.reused_bytes,
            },
        ),
        Err(e) => Err(e),
    }
}

/// What a server makes of the instruction stream of a client: it reads
/// command lines up to `DONE`, takes the raw bytes behind every `DATA` line
/// and the bytes of `reference` for every `COPY` line. A line that is no
/// command and a stream that ends early are protocol violations.
pub open spec fn received(stream: Seq<u8>, reference: Option<Seq<u8>>) -> Result<
    Reception,
    SyncError,
>
    decreases stream.len(),
{
    let end = line_end(stream);
    if stream.len() == 0 || end <= 0 || end > stream.len() {
        Err(SyncError::ProtocolViolation)
    } else {
        match parsed_command(first_line(stream)) {
            None => Err(SyncError::ProtocolViolation),
            Some(Command::Done) => Ok(
                Reception { content: Seq::empty(), new_bytes: 0, reused_bytes: 0 },
            ),
            Some(Command::Copy(offset, length)) => match produce(
                Op::Copy { offset: offset as int, length: length as int },
                reference,
            ) {
                Err(e) => Err(e),
                Ok(bytes) => after_copy(bytes, received(stream.skip(end), reference)),
            },
            Some(Command::Data(length)) => if end + length > stream.len() {
                Err(SyncError::ProtocolViolation)
            } else {
                after_data(
                    stream.subrange(end, end + length),
                    received(stream.skip(end + length), reference),
                )
            },
        }
    }
}

/// What carrying out a plan on the server side comes to: the bytes, and the
/// tallies of the plan.
pub open spec fn reception_of(ops: Seq<Op>, reference: Option<Seq<u8>>) -> Result<
    Reception,
    SyncError,
> {
    match reassemble(ops, reference) {
        Ok(content) => Ok(
            Reception {
                content,
                new_bytes: literal_bytes(ops),
                reused_bytes: copied_bytes(ops),
            },
        ),
        Err(e) => Err(e),
    }
}

/// Whether every instruction of a plan can be written on the wire.
pub open spec fn all_encodable(ops: Seq<Op>) -> bool {
    forall|i: int| 0 <= i < ops.len() ==> encodable(#[trigger] ops[i])
}

/// Carrying out a plan that starts with `op` is carrying out `op` and then
/// the rest.
pub proof fn lemma_reception_first(ops: Seq<Op>, reference: Option<Seq<u8>>)
    requires
        ops.len() > 0,
    ensures
        reception_of(ops, reference) == match produce(ops[0], reference) {
            Err(e) => Err::<Reception, SyncError>(e),
            Ok(bytes) => match ops[0] {
                Op::Copy { .. } => after_copy(bytes, reception_of(ops.drop_first(), reference)),
                Op::Literal { .. } => after_data(bytes, reception_of(ops.drop_first(), reference)),
            },
        },
{
    let first = seq![ops[0]];
    let rest = ops.drop_first();
    assert(ops =~= first + rest);
    lemma_reassemble_single(ops[0], reference);
    lemma_reassemble_concat(first, rest, reference);
    lemma_tally_push(Seq::empty(), ops[0]);
    assert(Seq::<Op>::empty().push(ops[0]) =~= first);
    lemma_tally_concat(first, rest);
    match ops[0] {
        Op::Copy { offset, length } => {
            match produce(ops[0], reference) {
                Ok(bytes) => {
                    assert(bytes.len() == length);
                },
                Err(_) => {},
            }
        },
        Op::Literal { bytes } => {},
    }
}

/// A server that reads the instruction stream of a plan carries out that
/// plan.
pub proof fn lemma_stream_received(ops: Seq<Op>, reference: Option<Seq<u8>>)
    requires
        all_encodable(ops),
    ensures
        received(instruction_stream(ops), reference) == reception_of(ops, reference),
    decreases ops.len(),
{
    let stream = instruction_stream(ops);
    if ops.len() == 0 {
        let words = seq![keyword(Keyword::Done)];
        lemma_keyword_is_word(Keyword::Done);
        assert(all_words(words));
        lemma_first_line_of_words(words, Seq::empty());
        assert(done_line() + Seq::<u8>::empty() =~= done_line());
        lemma_done_line_parses();
    } else {
        let op = ops[0];
        let rest = ops.drop_first();
        let later = instruction_stream(rest);
        let line = command_line(op);
        assert(encodable(op));
        assert(all_encodable(rest)) by {
            assert forall|i: int| 0 <= i < rest.len() implies encodable(#[trigger] rest[i]) by {
                assert(rest[i] == ops[i + 1]);
            }
        }
        lemma_stream_received(rest, reference);
        lemma_command_words(op);
        lemma_command_line_parses(op);
        lemma_reception_first(ops, reference);
        match op {
            Op::Copy { offset, length } => {
                lemma_first_line_of_words(command_words(op), later);
                assert(stream == line + later);
            },
            Op::Literal { bytes } => {
                lemma_first_line_of_words(command_words(op), bytes + later);
                assert(stream =~= line + (bytes + later));
                let end = line.len() as int;
                assert(stream.subrange(end, end + bytes.len()) =~= bytes);
                assert(stream.skip(end + bytes.len()) =~= later);
            },
        }
    }
}

/// The signature lines of a server for a destination file: one `BLK` line
/// for each block, then `BLKEND`.
pub open spec fn signature_lines(sigs: Seq<Signature>) -> Seq<u8>
    decreases sigs.len(),
{
    if sigs.len() == 0 {
        text_line(seq![keyword(Keyword::BlkEnd)])
    } else {
        block_line(sigs[0]) + signature_lines(sigs.drop_first())
    }
}

/// What a server answers to a request: `NOBLK` where it has no destination
/// file, else the signature lines of that file.
pub open spec fn signature_response(reference: Option<Seq<u8>>, block_size: int) -> Seq<u8> {
    match reference {
        None => text_line(seq![keyword(Keyword::NoBlk)]),
        Some(old) => signature_lines(signatures_of(old, block_size)),
    }
}

/// The signatures that a server has of its destination: none without a file.
pub open spec fn reference_signatures(reference: Option<Seq<u8>>, block_size: int) -> Seq<
    Signature,
> {
    match reference {
        Some(old) => signatures_of(old, block_size),
        None => Seq::empty(),
    }
}

/// A result with one more signature in front of it.
pub open spec fn with_first(sig: Signature, rest: Result<Seq<Signature>, SyncError>) -> Result<
    Seq<Signature>,
    SyncError,
> {
    match rest {
        Ok(tail) => Ok(seq![sig] + tail),
        Err(e) => Err(e),
    }
}

/// The signatures that the answer of a server lists: none after `NOBLK` as
/// its first line, else those of its `BLK` lines up to `BLKEND`. Any other
/// line, `NOBLK` behind a `BLK` line and an answer that ends early are
/// protocol violations.
pub open spec fn parsed_signatures(response: Seq<u8>, first: bool) -> Result<
    Seq<Signature>,
    SyncError,
>
    decreases response.len(),
{
    let end = line_end(response);
    if response.len() == 0 || end <= 0 || end > response.len() {
        Err(SyncError::ProtocolViolation)
    } else {
        match parsed_signature_line(first_line(response)) {
            None => Err(SyncError::ProtocolViolation),
            Some(SignatureLineView::NoBlocks) => if first {
                Ok(Seq::empty())
            } else {
                Err(SyncError::ProtocolViolation)
            },
            Some(SignatureLineView::End) => Ok(Seq::empty()),
            Some(SignatureLineView::Block(sig)) => with_first(
                sig,
                parsed_signatures(response.skip(end), false),
            ),
        }
    }
}

/// Reads the answer of a server to a request.
pub fn parse_signatures(response: &[u8]) -> (parsed: Result<Vec<Block>, SyncError>)
    ensures
        match parsed {
            Ok(blocks) => parsed_signatures(response@, true) == Ok::<Seq<Signature>, SyncError>(
                signatures(blocks@),
            ),
            Err(e) => e == SyncError::ProtocolViolation && parsed_signatures(response@, true)
                is Err,
        },
{
    let mut blocks: Vec<Block> = Vec::new();
    let mut pos: usize = 0;
    assert(response@.skip(0) =~= response@);
    assert(signatures(blocks@) =~= Seq::<Signature>::empty());
    loop
        invariant
            pos <= response.len(),
            match parsed_signatures(response@.skip(pos as int), pos == 0) {
                Ok(tail) => parsed_signatures(response@, true) == Ok::<Seq<Signature>, SyncError>(
                    signatures(blocks@) + tail,
                ),
                Err(_) => parsed_signatures(response@, true) is Err,
            },
            pos == 0 ==> blocks@.len() == 0,
        decreases response.len() - pos,
    {
        let ghost rest = response@.skip(pos as int);
        if pos >= response.len() {
            return Err(SyncError::ProtocolViolation);
        }
        let end = read_line(response, pos);
        proof {
            lemma_line_end_bounds(rest);
            assert(first_line(rest) =~= response@.subrange(pos as int, end as int));
            assert(rest.skip(end - pos) =~= response@.skip(end as int));
        }
        match parse_signature_line(slice_subrange(response, pos, end)) {
            Err(e) => {
                return Err(e);
            },
            Ok(SignatureLine::NoBlocks) => {
                if pos == 0 {
                    assert(signatures(blocks@) + Seq::<Signature>::empty() =~= signatures(
                        blocks@,
                    ));
                    return Ok(blocks);
                }
                return Err(SyncError::ProtocolViolation);
            },
            Ok(SignatureLine::End) => {
                assert(signatures(blocks@) + Seq::<Signature>::empty() =~= signatures(blocks@));
                return Ok(blocks);
            },
            Ok(SignatureLine::Block(block)) => {
                let ghost before = blocks@;
                blocks.push(block);
                proof {
                    assert(signatures(blocks@) =~= signatures(before).push(block@));
                    match parsed_signatures(response@.skip(end as int), false) {
                        Ok(tail) => {
                            assert(signatures(before) + (seq![block@] + tail) =~= signatures(
                                blocks@,
                            ) + tail);
                        },
                        Err(_) => {},
                    }
                }
                pos = end;
            },
        }
    }
}

/// Whether every signature of a list can be written on the wire.
pub open spec fn all_announceable(sigs: Seq<Signature>) -> bool {
    forall|k: int| 0 <= k < sigs.len() ==> announceable(#[trigger] sigs[k])
}

/// A client reads the signature lines of a server as the signatures that
/// they were written from.
pub proof fn lemma_signature_lines_parsed(sigs: Seq<Signature>, first: bool)
    requires
        all_announceable(sigs),
    ensures
        parsed_signatures(signature_lines(sigs), first) == Ok::<Seq<Signature>, SyncError>(sigs),
    decreases sigs.len(),
{
    let response = signature_lines(sigs);
    lemma_end_lines_parse();
    if sigs.len() == 0 {
        let words = seq![keyword(Keyword::BlkEnd)];
        lemma_keyword_is_word(Keyword::BlkEnd);
        assert(all_words(words));
        lemma_first_line_of_words(words, Seq::empty());
        assert(text_line(words) + Seq::<u8>::empty() =~= text_line(words));
        assert(sigs =~= Seq::<Signature>::empty());
    } else {
        let rest = sigs.drop_first();
        assert(announceable(sigs[0]));
        assert(all_announceable(rest)) by {
            assert forall|k: int| 0 <= k < rest.len() implies announceable(#[trigger] rest[k]) by {
                assert(rest[k] == sigs[k + 1]);
            }
        }
        lemma_signature_lines_parsed(rest, false);
        lemma_block_words(sigs[0]);
        lemma_block_line_parses(sigs[0]);
        lemma_first_line_of_words(block_words(sigs[0]), signature_lines(rest));
        assert(seq![sigs[0]] + rest =~= sigs);
    }
}

/// The signatures of blocks can be written on the wire.
pub proof fn lemma_blocks_announceable(blocks: Seq<Block>)
    ensures
        all_announceable(signatures(blocks)),
{
    assert forall|k: int| 0 <= k < blocks.len() implies announceable(
        #[trigger] signatures(blocks)[k],
    ) by {
        vstd::array::array_len_matches_n(&blocks[k].strong_checksum);
    }
}

/// What a server answers to a request for a destination of which it holds
/// `reference`, or nothing.
pub fn announce(block_size: usize, reference: Option<&[u8]>) -> (response: Vec<u8>)
    requires
        block_size > 0,
    ensures
        response@ == signature_response(reference_view(reference), block_size as int),
        parsed_signatures(response@, true) == Ok::<Seq<Signature>, SyncError>(
            reference_signatures(reference_view(reference), block_size as int),
        ),
{
    match reference {
        None => {
            let mut response: Vec<u8> = keyword_bytes(Keyword::NoBlk);
            response.push(10);
            proof {
                let words = seq![keyword(Keyword::NoBlk)];
                assert(response@ =~= text_line(words));
                lemma_keyword_is_word(Keyword::NoBlk);
                assert(all_words(words));
                lemma_first_line_of_words(words, Seq::empty());
                assert(text_line(words) + Seq::<u8>::empty() =~= text_line(words));
                lemma_end_lines_parse();
            }
            response
        },
        Some(old) => {
            let mut syncer = Syncer::new();
            syncer.block_size = block_size;
            let blocks = syncer.calculate_checksums(old);
            let ghost sigs = signatures(blocks@);
            let mut response: Vec<u8> = Vec::new();
            let mut k: usize = 0;
            assert(sigs.skip(0) =~= sigs);
            while k < blocks.len()
                invariant
                    k <= blocks.len(),
                    sigs == signatures(blocks@),
                    signature_lines(sigs) == response@ + signature_lines(sigs.skip(k as int)),
                decreases blocks.len() - k,
            {
                let line = format_block(&blocks[k]);
                let ghost before = response@;
                let ghost rest = sigs.skip(k as int);
                push_bytes(&mut response, line.as_slice());
                proof {
                    assert(rest[0] == blocks[k as int]@);
                    assert(rest.drop_first() =~= sigs.skip(k + 1));
                    assert(before + (line@ + signature_lines(sigs.skip(k + 1))) =~= response@
                        + signature_lines(sigs.skip(k + 1)));
                }
                k += 1;
            }
            let ghost before = response@;
            let mut last: Vec<u8> = keyword_bytes(Keyword::BlkEnd);
            last.push(10);
            assert(last@ =~= text_line(seq![keyword(Keyword::BlkEnd)]));
            push_bytes(&mut response, last.as_slice());
            proof {
                assert(sigs.skip(k as int) =~= Seq::<Signature>::empty());
                lemma_blocks_announceable(blocks@);
                lemma_signature_lines_parsed(sigs, true);
            }
            response
        },
    }
}

} // verus!
