//! The messages of the peer protocol: the request, the signature lines and
//! the instruction frames.

use crate::instruction::Instruction;
use crate::instruction::Op;
use crate::sync::Block;
use crate::sync::Signature;
use crate::sync::SyncError;
use crate::wire::all_words;
use crate::wire::decimal;
use crate::wire::field;
use crate::wire::field_start;
use crate::wire::has_field;
use crate::wire::hex_bytes;
use crate::wire::hex_decode;
use crate::wire::hex_encode;
use crate::wire::hex_text;
use crate::wire::is_space;
use crate::wire::is_word;
use crate::wire::lemma_decimal_field;
use crate::wire::lemma_hex_round_trip;
use crate::wire::lemma_line_fields;
use crate::wire::lemma_line_trimmed;
use crate::wire::lemma_spaced_bytes;
use crate::wire::lemma_spaced_five;
use crate::wire::lemma_spaced_four;
use crate::wire::lemma_spaced_three;
use crate::wire::lemma_spaced_two;
use crate::wire::next_field;
use crate::wire::number_up_to;
use crate::wire::parse_decimal;
use crate::wire::push_decimal;
use crate::wire::same_bytes;
use crate::wire::spaced;
use crate::wire::text_line;
use crate::wire::trim_end;
use crate::wire::trimmed;
use vstd::prelude::*;
use vstd::slice::slice_subrange;
use vstd::slice::slice_to_vec;

verus! {

/// The words that start the lines of the protocol.
#[derive(Debug, Clone, Copy, PartialEq, Eq, Structural)]
pub enum Keyword {
    File,
    Blk,
    BlkEnd,
    NoBlk,
    Data,
    Copy,
    Done,
}

/// The ASCII text of a keyword.
pub open spec fn keyword(word: Keyword) -> Seq<u8> {
    match word {
        Keyword::File => seq![70u8, 73u8, 76u8, 69u8],
        Keyword::Blk => seq![66u8, 76u8, 75u8],
        Keyword::BlkEnd => seq![66u8, 76u8, 75u8, 69u8, 78u8, 68u8],
        Keyword::NoBlk => seq![78u8, 79u8, 66u8, 76u8, 75u8],
        Keyword::Data => seq![68u8, 65u8, 84u8, 65u8],
        Keyword::Copy => seq![67u8, 79u8, 80u8, 89u8],
        Keyword::Done => seq![68u8, 79u8, 78u8, 69u8],
    }
}

/// The ASCII text of a keyword.
pub fn keyword_bytes(word: Keyword) -> (text: Vec<u8>)
    ensures
        text@ == keyword(word),
{
    let text: Vec<u8> = match word {
        Keyword::File => vec![70u8, 73u8, 76u8, 69u8],
        Keyword::Blk => vec![66u8, 76u8, 75u8],
        Keyword::BlkEnd => vec![66u8, 76u8, 75u8, 69u8, 78u8, 68u8],
        Keyword::NoBlk => vec![78u8, 79u8, 66u8, 76u8, 75u8],
        Keyword::Data => vec![68u8, 65u8, 84u8, 65u8],
        Keyword::Copy => vec![67u8, 79u8, 80u8, 89u8],
        Keyword::Done => vec![68u8, 79u8, 78u8, 69u8],
    };
    assert(text@ =~= keyword(word));
    text
}

/// Appends `word` to `out`.
pub fn push_bytes(out: &mut Vec<u8>, word: &[u8])
    ensures
        final(out)@ == old(out)@ + word@,
{
    out.extend_from_slice(word);
    assert(final(out)@ =~= old(out)@ + word@);
}

/// Whether the field of `line` from `start` to `end` is the keyword `word`.
pub fn field_is(line: &[u8], start: usize, end: usize, word: Keyword) -> (same: bool)
    requires
        start <= end <= line.len(),
    ensures
        same == (line@.subrange(start as int, end as int) == keyword(word)),
{
    let text = keyword_bytes(word);
    same_bytes(slice_subrange(line, start, end), text.as_slice())
}

/// The number in the field of `line` from `start` to `end`, if it is at
/// most `max`.
pub fn field_number(line: &[u8], start: usize, end: usize, max: u64) -> (value: Option<u64>)
    requires
        start <= end <= line.len(),
    ensures
        match value {
            Some(v) => number_up_to(line@.subrange(start as int, end as int), max as nat) == Some(
                v as nat,
            ),
            None => number_up_to(line@.subrange(start as int, end as int), max as nat) is None,
        },
{
    match parse_decimal(slice_subrange(line, start, end)) {
        Some(v) => if v <= max {
            Some(v)
        } else {
            None
        },
        None => None,
    }
}

/// What the request of a client says.
#[derive(Debug, PartialEq, Eq)]
pub struct Request {
    pub source_name: Vec<u8>,
    pub destination: Vec<u8>,
    pub size: u64,
}

/// Mathematical content of a [`Request`].
pub struct RequestView {
    pub source_name: Seq<u8>,
    pub destination: Seq<u8>,
    pub size: nat,
}

impl View for Request {
    type V = RequestView;

    open spec fn view(&self) -> RequestView {
        RequestView {
            source_name: self.source_name@,
            destination: self.destination@,
            size: self.size as nat,
        }
    }
}

/// The line that asks a server to take a file of `size` bytes.
pub open spec fn request_line(request: RequestView) -> Seq<u8> {
    text_line(
        seq![
            keyword(Keyword::File),
            request.source_name,
            request.destination,
            decimal(request.size),
        ],
    )
}

/// What a request line says: its first field is `FILE`, the next two are
/// the names, and the fourth is the size of the source; more fields are
/// not looked at.
pub open spec fn parsed_request(line: Seq<u8>) -> Option<RequestView> {
    if field(line, 0) == keyword(Keyword::File) && has_field(line, 3) {
        match number_up_to(field(line, 3), u64::MAX as nat) {
            Some(size) => Some(
                RequestView { source_name: field(line, 1), destination: field(line, 2), size },
            ),
            None => None,
        }
    } else {
        None
    }
}

/// Writes the request line of a client.
pub fn format_request(source_name: &[u8], destination: &[u8], size: u64) -> (line: Vec<u8>)
    ensures
        line@ == request_line(
            RequestView { source_name: source_name@, destination: destination@, size: size as nat },
        ),
{
    let mut line: Vec<u8> = keyword_bytes(Keyword::File);
    line.push(32);
    push_bytes(&mut line, source_name);
    line.push(32);
    push_bytes(&mut line, destination);
    line.push(32);
    push_decimal(&mut line, size);
    line.push(10);
    proof {
        let words = seq![
            keyword(Keyword::File),
            source_name@,
            destination@,
            decimal(size as nat),
        ];
        lemma_spaced_four(words);
        assert(line@ =~= text_line(words));
    }
    line
}

/// Reads the request line of a client.
pub fn parse_request(line: &[u8]) -> (request: Result<Request, SyncError>)
    ensures
        match request {
            Ok(r) => parsed_request(line@) == Some(r@),
            Err(e) => e == SyncError::ProtocolViolation && parsed_request(line@) is None,
        },
{
    let (start0, end0) = next_field(line, 0);
    let (start1, end1) = next_field(line, end0);
    let (start2, end2) = next_field(line, end1);
    let (start3, end3) = next_field(line, end2);
    proof {
        reveal_with_fuel(field_start, 4);
    }
    if !field_is(line, start0, end0, Keyword::File) || start3 >= line.len() {
        return Err(SyncError::ProtocolViolation);
    }
    match field_number(line, start3, end3, u64::MAX) {
        Some(size) => Ok(
            Request {
                source_name: slice_to_vec(slice_subrange(line, start1, end1)),
                destination: slice_to_vec(slice_subrange(line, start2, end2)),
                size,
            },
        ),
        None => Err(SyncError::ProtocolViolation),
    }
}

/// One line of what a server says about its destination.
#[derive(Debug, Clone, Copy, PartialEq, Eq)]
pub enum SignatureLine {
    /// `NOBLK`: there is no destination file.
    NoBlocks,
    /// `BLKEND`: all blocks have been listed.
    End,
    /// `BLK`: the signature of one block.
    Block(Block),
}

/// Mathematical content of a [`SignatureLine`].
pub enum SignatureLineView {
    NoBlocks,
    End,
    Block(Signature),
}

impl View for SignatureLine {
    type V = SignatureLineView;

    open spec fn view(&self) -> SignatureLineView {
        match self {
            SignatureLine::NoBlocks => SignatureLineView::NoBlocks,
            SignatureLine::End => SignatureLineView::End,
            SignatureLine::Block(block) => SignatureLineView::Block(block@),
        }
    }
}

/// The line that announces the block with signature `sig`.
pub open spec fn block_line(sig: Signature) -> Seq<u8> {
    text_line(
        seq![
            keyword(Keyword::Blk),
            decimal(sig.offset as nat),
            decimal(sig.length as nat),
            decimal(sig.weak as nat),
            hex_text(sig.strong),
        ],
    )
}

/// The signature that the four fields behind `BLK` give, if they are an
/// offset, a length, a weak checksum and a digest of 32 bytes.
pub open spec fn parsed_block(
    offset: Seq<u8>,
    length: Seq<u8>,
    weak: Seq<u8>,
    strong: Seq<u8>,
) -> Option<Signature> {
    match (
        number_up_to(offset, u64::MAX as nat),
        number_up_to(length, usize::MAX as nat),
        number_up_to(weak, u32::MAX as nat),
        hex_bytes(strong),
    ) {
        (Some(o), Some(l), Some(w), Some(s)) => if s.len() == 32 {
            Some(Signature { offset: o as int, length: l as int, weak: w as u32, strong: s })
        } else {
            None
        },
        _ => None,
    }
}

/// What a signature line says: `NOBLK` or `BLKEND` alone but for separators
/// at the end, or exactly five fields that start with `BLK`.
pub open spec fn parsed_signature_line(line: Seq<u8>) -> Option<SignatureLineView> {
    if trimmed(line) == keyword(Keyword::NoBlk) {
        Some(SignatureLineView::NoBlocks)
    } else if trimmed(line) == keyword(Keyword::BlkEnd) {
        Some(SignatureLineView::End)
    } else if field(line, 0) == keyword(Keyword::Blk) && has_field(line, 4) && !has_field(
        line,
        5,
    ) {
        match parsed_block(field(line, 1), field(line, 2), field(line, 3), field(line, 4)) {
            Some(sig) => Some(SignatureLineView::Block(sig)),
            None => None,
        }
    } else {
        None
    }
}

/// Writes the line that announces `block`.
pub fn format_block(block: &Block) -> (line: Vec<u8>)
    ensures
        line@ == block_line(block@),
{
    let mut line: Vec<u8> = keyword_bytes(Keyword::Blk);
    line.push(32);
    push_decimal(&mut line, block.offset);
    line.push(32);
    push_decimal(&mut line, block.size as u64);
    line.push(32);
    push_decimal(&mut line, block.weak_checksum as u64);
    line.push(32);
    let strong = hex_encode(block.strong_checksum.as_slice());
    push_bytes(&mut line, strong.as_slice());
    line.push(10);
    proof {
        let sig = block@;
        let words = seq![
            keyword(Keyword::Blk),
            decimal(sig.offset as nat),
            decimal(sig.length as nat),
            decimal(sig.weak as nat),
            hex_text(sig.strong),
        ];
        lemma_spaced_five(words);
        assert(line@ =~= text_line(words));
    }
    line
}

/// The digest that 32 bytes stand for.
pub fn digest_from(bytes: &[u8]) -> (digest: [u8; 32])
    requires
        bytes.len() == 32,
    ensures
        digest@ == bytes@,
{
    let mut digest: [u8; 32] = [0u8;32];
    let mut i: usize = 0;
    while i < 32
        invariant
            i <= 32,
            bytes.len() == 32,
            forall|j: int| 0 <= j < i ==> digest@[j] == bytes@[j],
        decreases 32 - i,
    {
        digest[i] = bytes[i];
        i += 1;
    }
    assert(digest@ =~= bytes@);
    digest
}

/// Reads one line of what a server says about its destination.
pub fn parse_signature_line(line: &[u8]) -> (parsed: Result<SignatureLine, SyncError>)
    ensures
        match parsed {
            Ok(l) => parsed_signature_line(line@) == Some(l@),
            Err(e) => e == SyncError::ProtocolViolation && parsed_signature_line(line@) is None,
        },
{
    let kept = trim_end(line);
    if same_bytes(kept, keyword_bytes(Keyword::NoBlk).as_slice()) {
        return Ok(SignatureLine::NoBlocks);
    }
    if same_bytes(kept, keyword_bytes(Keyword::BlkEnd).as_slice()) {
        return Ok(SignatureLine::End);
    }
    let (start0, end0) = next_field(line, 0);
    let (start1, end1) = next_field(line, end0);
    let (start2, end2) = next_field(line, end1);
    let (start3, end3) = next_field(line, end2);
    let (start4, end4) = next_field(line, end3);
    let (start5, end5) = next_field(line, end4);
    proof {
        reveal_with_fuel(field_start, 6);
    }
    if !field_is(line, start0, end0, Keyword::Blk) || start4 >= line.len() || start5
        < line.len() {
        return Err(SyncError::ProtocolViolation);
    }
    let offset = field_number(line, start1, end1, u64::MAX);
    let size = field_number(line, start2, end2, usize::MAX as u64);
    let weak = field_number(line, start3, end3, u32::MAX as u64);
    let strong = hex_decode(slice_subrange(line, start4, end4));
    match (offset, size, weak, strong) {
        (Some(o), Some(l), Some(w), Ok(s)) => {
            if s.len() != 32 {
                return Err(SyncError::ProtocolViolation);
            }
            Ok(
                SignatureLine::Block(
                    Block {
                        offset: o,
                        size: l as usize,
                        weak_checksum: w as u32,
                        strong_checksum: digest_from(s.as_slice()),
                    },
                ),
            )
        },
        _ => Err(SyncError::ProtocolViolation),
    }
}

/// What a client asks a server to do next.
#[derive(Debug, Clone, Copy, PartialEq, Eq, Structural)]
pub enum Command {
    /// `DATA`: take the given number of raw bytes, which follow the line.
    Data(usize),
    /// `COPY`: take bytes of the old destination, by offset and length.
    Copy(u64, usize),
    /// `DONE`: the file is complete.
    Done,
}

/// What a command line says: `DONE` alone but for separators at the end, or
/// `DATA` and a length, or `COPY`, an offset and a length; more fields are
/// not looked at.
pub open spec fn parsed_command(line: Seq<u8>) -> Option<Command> {
    if trimmed(line) == keyword(Keyword::Done) {
        Some(Command::Done)
    } else if field(line, 0) == keyword(Keyword::Data) && has_field(line, 1) {
        match number_up_to(field(line, 1), usize::MAX as nat) {
            Some(length) => Some(Command::Data(length as usize)),
            None => None,
        }
    } else if field(line, 0) == keyword(Keyword::Copy) && has_field(line, 2) {
        match (
            number_up_to(field(line, 1), u64::MAX as nat),
            number_up_to(field(line, 2), usize::MAX as nat),
        ) {
            (Some(offset), Some(length)) => Some(Command::Copy(offset as u64, length as usize)),
            _ => None,
        }
    } else {
        None
    }
}

/// Reads one command line of a client.
pub fn parse_command(line: &[u8]) -> (parsed: Result<Command, SyncError>)
    ensures
        match parsed {
            Ok(command) => parsed_command(line@) == Some(command),
            Err(e) => e == SyncError::ProtocolViolation && parsed_command(line@) is None,
        },
{
    let kept = trim_end(line);
    if same_bytes(kept, keyword_bytes(Keyword::Done).as_slice()) {
        return Ok(Command::Done);
    }
    let (start0, end0) = next_field(line, 0);
    let (start1, end1) = next_field(line, end0);
    let (start2, end2) = next_field(line, end1);
    proof {
        reveal_with_fuel(field_start, 3);
        assert(keyword(Keyword::Data) != keyword(Keyword::Copy)) by {
            assert(keyword(Keyword::Data)[0] != keyword(Keyword::Copy)[0]);
        }
    }
    if field_is(line, start0, end0, Keyword::Data) {
        if start1 >= line.len() {
            return Err(SyncError::ProtocolViolation);
        }
        match field_number(line, start1, end1, usize::MAX as u64) {
            Some(length) => Ok(Command::Data(length as usize)),
            None => Err(SyncError::ProtocolViolation),
        }
    } else if field_is(line, start0, end0, Keyword::Copy) {
        if start2 >= line.len() {
            return Err(SyncError::ProtocolViolation);
        }
        let offset = field_number(line, start1, end1, u64::MAX);
        let length = field_number(line, start2, end2, usize::MAX as u64);
        match (offset, length) {
            (Some(o), Some(l)) => Ok(Command::Copy(o, l as usize)),
            _ => Err(SyncError::ProtocolViolation),
        }
    } else {
        Err(SyncError::ProtocolViolation)
    }
}

/// The line that starts the frame of `op`.
pub open spec fn command_line(op: Op) -> Seq<u8> {
    match op {
        Op::Copy { offset, length } => text_line(
            seq![keyword(Keyword::Copy), decimal(offset as nat), decimal(length as nat)],
        ),
        Op::Literal { bytes } => text_line(seq![keyword(Keyword::Data), decimal(bytes.len())]),
    }
}

/// The frame of `op` on the wire: its command line and, for literal data,
/// the raw bytes.
pub open spec fn frame(op: Op) -> Seq<u8> {
    match op {
        Op::Copy { .. } => command_line(op),
        Op::Literal { bytes } => command_line(op) + bytes,
    }
}

/// The line that ends the instructions of a client.
pub open spec fn done_line() -> Seq<u8> {
    text_line(seq![keyword(Keyword::Done)])
}

/// Appends the frame of `instruction` to `out`.
pub fn push_frame(out: &mut Vec<u8>, instruction: &Instruction)
    ensures
        final(out)@ == old(out)@ + frame(instruction@),
{
    let ghost before = out@;
    match instruction {
        Instruction::Copy { offset, length } => {
            let mut line: Vec<u8> = keyword_bytes(Keyword::Copy);
            line.push(32);
            push_decimal(&mut line, *offset);
            line.push(32);
            push_decimal(&mut line, *length as u64);
            line.push(10);
            proof {
                let words = seq![
                    keyword(Keyword::Copy),
                    decimal(*offset as nat),
                    decimal(*length as nat),
                ];
                lemma_spaced_three(words);
                assert(line@ =~= text_line(words));
            }
            push_bytes(out, line.as_slice());
        },
        Instruction::Literal(bytes) => {
            let mut line: Vec<u8> = keyword_bytes(Keyword::Data);
            line.push(32);
            push_decimal(&mut line, bytes.len() as u64);
            line.push(10);
            proof {
                let words = seq![keyword(Keyword::Data), decimal(bytes@.len())];
                lemma_spaced_two(words);
                assert(line@ =~= text_line(words));
            }
            push_bytes(out, line.as_slice());
            push_bytes(out, bytes.as_slice());
            assert(out@ =~= before + (line@ + bytes@));
        },
    }
}

/// Appends the line that ends the instructions to `out`.
pub fn push_done(out: &mut Vec<u8>)
    ensures
        final(out)@ == old(out)@ + done_line(),
{
    let mut line: Vec<u8> = keyword_bytes(Keyword::Done);
    line.push(10);
    proof {
        let words = seq![keyword(Keyword::Done)];
        assert(line@ =~= text_line(words));
    }
    push_bytes(out, line.as_slice());
}

/// Every keyword can stand as a field.
pub proof fn lemma_keyword_is_word(word: Keyword)
    ensures
        is_word(keyword(word)),
{
    let text = keyword(word);
    assert forall|i: int| 0 <= i < text.len() implies !is_space(#[trigger] text[i]) by {}
}

/// Whether `op` can be written on the wire: its numbers fit the fields.
pub open spec fn encodable(op: Op) -> bool {
    match op {
        Op::Copy { offset, length } => 0 <= offset <= u64::MAX && 0 <= length <= usize::MAX,
        Op::Literal { bytes } => bytes.len() <= usize::MAX,
    }
}

/// The command that the frame of `op` starts with.
pub open spec fn command_of(op: Op) -> Command {
    match op {
        Op::Copy { offset, length } => Command::Copy(offset as u64, length as usize),
        Op::Literal { bytes } => Command::Data(bytes.len() as usize),
    }
}

/// The fields of the command line of `op`.
pub open spec fn command_words(op: Op) -> Seq<Seq<u8>> {
    match op {
        Op::Copy { offset, length } => seq![
            keyword(Keyword::Copy),
            decimal(offset as nat),
            decimal(length as nat),
        ],
        Op::Literal { bytes } => seq![keyword(Keyword::Data), decimal(bytes.len())],
    }
}

/// The command line of an instruction is a line of words.
pub proof fn lemma_command_words(op: Op)
    requires
        encodable(op),
    ensures
        command_line(op) == text_line(command_words(op)),
        all_words(command_words(op)),
        command_words(op).len() >= 2,
{
    let words = command_words(op);
    match op {
        Op::Copy { offset, length } => {
            lemma_keyword_is_word(Keyword::Copy);
            lemma_decimal_field(offset as nat, u64::MAX as nat);
            lemma_decimal_field(length as nat, usize::MAX as nat);
        },
        Op::Literal { bytes } => {
            lemma_keyword_is_word(Keyword::Data);
            lemma_decimal_field(bytes.len(), usize::MAX as nat);
        },
    }
    assert forall|n: int| 0 <= n < words.len() implies is_word(#[trigger] words[n]) by {}
}

/// A server reads the command line of an instruction as the command that
/// the instruction stands for.
pub proof fn lemma_command_line_parses(op: Op)
    requires
        encodable(op),
    ensures
        parsed_command(command_line(op)) == Some(command_of(op)),
{
    let words = command_words(op);
    let line = command_line(op);
    lemma_command_words(op);
    lemma_line_trimmed(words);
    lemma_spaced_bytes(words);
    lemma_line_fields(words, 0);
    lemma_line_fields(words, 1);
    lemma_line_fields(words, 2);
    let text = spaced(words);
    assert(text[words[0].len() as int] == 32);
    assert(text != keyword(Keyword::Done));
    match op {
        Op::Copy { offset, length } => {
            lemma_decimal_field(offset as nat, u64::MAX as nat);
            lemma_decimal_field(length as nat, usize::MAX as nat);
            assert(keyword(Keyword::Copy)[0] != keyword(Keyword::Data)[0]);
        },
        Op::Literal { bytes } => {
            lemma_decimal_field(bytes.len(), usize::MAX as nat);
        },
    }
}

/// A server reads the request line of a client as what the client asked
/// for, where the two names can stand as fields.
pub proof fn lemma_request_line_parses(request: RequestView)
    requires
        is_word(request.source_name),
        is_word(request.destination),
        request.size <= u64::MAX,
    ensures
        parsed_request(request_line(request)) == Some(request),
{
    let words = seq![
        keyword(Keyword::File),
        request.source_name,
        request.destination,
        decimal(request.size),
    ];
    lemma_keyword_is_word(Keyword::File);
    lemma_decimal_field(request.size, u64::MAX as nat);
    assert forall|n: int| 0 <= n < words.len() implies is_word(#[trigger] words[n]) by {}
    lemma_line_fields(words, 0);
    lemma_line_fields(words, 1);
    lemma_line_fields(words, 2);
    lemma_line_fields(words, 3);
}

/// The line that ends the instructions is read as `DONE`.
pub proof fn lemma_done_line_parses()
    ensures
        parsed_command(done_line()) == Some(Command::Done),
{
    let words = seq![keyword(Keyword::Done)];
    lemma_keyword_is_word(Keyword::Done);
    assert(all_words(words));
    lemma_line_trimmed(words);
}

/// Whether `sig` can be written on the wire: its numbers fit the fields and
/// its digest has 32 bytes.
pub open spec fn announceable(sig: Signature) -> bool {
    &&& 0 <= sig.offset <= u64::MAX
    &&& 0 <= sig.length <= usize::MAX
    &&& sig.strong.len() == 32
}

/// The fields of a block line.
pub open spec fn block_words(sig: Signature) -> Seq<Seq<u8>> {
    seq![
        keyword(Keyword::Blk),
        decimal(sig.offset as nat),
        decimal(sig.length as nat),
        decimal(sig.weak as nat),
        hex_text(sig.strong),
    ]
}

/// The block line of a signature is a line of words.
pub proof fn lemma_block_words(sig: Signature)
    requires
        announceable(sig),
    ensures
        block_line(sig) == text_line(block_words(sig)),
        all_words(block_words(sig)),
{
    let words = block_words(sig);
    lemma_keyword_is_word(Keyword::Blk);
    lemma_decimal_field(sig.offset as nat, u64::MAX as nat);
    lemma_decimal_field(sig.length as nat, usize::MAX as nat);
    lemma_decimal_field(sig.weak as nat, u32::MAX as nat);
    lemma_hex_round_trip(sig.strong);
    assert(is_word(hex_text(sig.strong)));
    assert forall|n: int| 0 <= n < words.len() implies is_word(#[trigger] words[n]) by {}
}

/// A client reads the block line of a signature as that signature.
pub proof fn lemma_block_line_parses(sig: Signature)
    requires
        announceable(sig),
    ensures
        parsed_signature_line(block_line(sig)) == Some(SignatureLineView::Block(sig)),
{
    let words = block_words(sig);
    lemma_block_words(sig);
    lemma_line_trimmed(words);
    lemma_spaced_bytes(words);
    lemma_line_fields(words, 0);
    lemma_line_fields(words, 1);
    lemma_line_fields(words, 2);
    lemma_line_fields(words, 3);
    lemma_line_fields(words, 4);
    lemma_line_fields(words, 5);
    let text = spaced(words);
    assert(text[3] == 32);
    assert(text != keyword(Keyword::NoBlk));
    assert(text != keyword(Keyword::BlkEnd)) by {
        assert(keyword(Keyword::BlkEnd)[3] != 32);
    }
    lemma_decimal_field(sig.offset as nat, u64::MAX as nat);
    lemma_decimal_field(sig.length as nat, usize::MAX as nat);
    lemma_decimal_field(sig.weak as nat, u32::MAX as nat);
    lemma_hex_round_trip(sig.strong);
    let parsed = parsed_block(words[1], words[2], words[3], words[4])->0;
    assert(parsed.strong == sig.strong);
    assert(parsed == sig);
}

/// The two lines without a block are read as what they say.
pub proof fn lemma_end_lines_parse()
    ensures
        parsed_signature_line(text_line(seq![keyword(Keyword::NoBlk)])) == Some(
            SignatureLineView::NoBlocks,
        ),
        parsed_signature_line(text_line(seq![keyword(Keyword::BlkEnd)])) == Some(
            SignatureLineView::End,
        ),
{
    let none = seq![keyword(Keyword::NoBlk)];
    let end = seq![keyword(Keyword::BlkEnd)];
    lemma_keyword_is_word(Keyword::NoBlk);
    lemma_keyword_is_word(Keyword::BlkEnd);
    assert(all_words(none));
    assert(all_words(end));
    lemma_line_trimmed(none);
    lemma_line_trimmed(end);
    assert(keyword(Keyword::BlkEnd).len() != keyword(Keyword::NoBlk).len());
}

} // verus!
