//! The server's side of an exchange: the reassembly of the file, command
//! by command.

use crate::instruction::copied;
use crate::instruction::Op;
use crate::instruction::produce;
use crate::instruction::reference_view;
use crate::protocol::Command;
use crate::protocol::parse_command;
use crate::protocol::parsed_command;
use crate::stream::after_copy;
use crate::stream::after_data;
use crate::stream::first_line;
use crate::stream::lemma_line_end_bounds;
use crate::stream::line_end;
use crate::stream::read_line;
use crate::stream::received;
use crate::stream::Reception;
use crate::sync::SyncError;
use crate::sync::TransferResult;
use crate::tree::Entry;
use crate::tree::Tree;
use vstd::prelude::*;
use vstd::slice::slice_subrange;

verus! {

/// What a server does after a command line.
#[derive(Debug, Clone, Copy, PartialEq, Eq, Structural)]
pub enum Step {
    /// Read the next command line.
    Next,
    /// Read this many raw bytes and hand them to the session.
    Payload(usize),
    /// The file is complete.
    Finished,
}

/// What a server has put together so far.
pub struct SessionView {
    pub reference: Option<Seq<u8>>,
    pub content: Seq<u8>,
    pub new_bytes: int,
    pub reused_bytes: int,
}

/// A reception behind what has been put together so far.
pub open spec fn continued(done: SessionView, rest: Result<Reception, SyncError>) -> Result<
    Reception,
    SyncError,
> {
    match rest {
        Ok(tail) => Ok(
            Reception {
                content: done.content + tail.content,
                new_bytes: done.new_bytes + tail.new_bytes,
                reused_bytes: done.reused_bytes + tail.reused_bytes,
            },
        ),
        Err(e) => Err(e),
    }
}

/// The reassembly of one file on the server, command by command.
pub struct ServerSession<'a> {
    reference: Option<&'a [u8]>,
    output: Vec<u8>,
    new_bytes: usize,
    reused_bytes: usize,
}

impl<'a> View for ServerSession<'a> {
    type V = SessionView;

    closed spec fn view(&self) -> SessionView {
        SessionView {
            reference: reference_view(self.reference),
            content: self.output@,
            new_bytes: self.new_bytes as int,
            reused_bytes: self.reused_bytes as int,
        }
    }
}

impl<'a> ServerSession<'a> {
    /// Whether the tallies account for every byte put together so far. It
    /// holds of a new session, and every step keeps it.
    pub closed spec fn accounted(&self) -> bool {
        self.new_bytes + self.reused_bytes == self.output@.len()
    }

    /// A session that has not put anything together yet. `reference` is the
    /// old content of the destination, if there is one.
    pub fn new(reference: Option<&'a [u8]>) -> (session: Self)
        ensures
            session.accounted(),
            session@ == (SessionView {
                reference: reference_view(reference),
                content: Seq::empty(),
                new_bytes: 0,
                reused_bytes: 0,
            }),
    {
        ServerSession { reference, output: Vec::new(), new_bytes: 0, reused_bytes: 0 }
    }

    /// Takes one command line. A `COPY` is carried out at once; after a
    /// `DATA` line the raw bytes are still to come.
    pub fn command(&mut self, line: &[u8]) -> (step: Result<Step, SyncError>)
        requires
            old(self).accounted(),
        ensures
            final(self).accounted(),
            match parsed_command(line@) {
                None => step == Err::<Step, SyncError>(SyncError::ProtocolViolation) && final(self)@ == old(self)@,
                Some(Command::Done) => step == Ok::<Step, SyncError>(Step::Finished) && final(self)@ == old(self)@,
                Some(Command::Data(length)) => step == Ok::<Step, SyncError>(
                    Step::Payload(length),
                ) && final(self)@ == old(self)@,
                Some(Command::Copy(offset, length)) => match produce(
                    Op::Copy { offset: offset as int, length: length as int },
                    old(self)@.reference,
                ) {
                    Err(e) => step == Err::<Step, SyncError>(e) && final(self)@ == old(self)@,
                    Ok(bytes) => step == Ok::<Step, SyncError>(Step::Next) && final(self)@ == (
                    SessionView {
                        content: old(self)@.content + bytes,
                        reused_bytes: old(self)@.reused_bytes + length,
                        ..old(self)@
                    }),
                },
            },
    {
        match parse_command(line) {
            Err(e) => Err(e),
            Ok(Command::Done) => Ok(Step::Finished),
            Ok(Command::Data(length)) => Ok(Step::Payload(length)),
            Ok(Command::Copy(offset, length)) => {
                match copied(self.reference, offset, length) {
                    Err(e) => Err(e),
                    Ok(piece) => {
                        let ghost before = self.output@;
                        self.output.extend_from_slice(piece);
                        assert(self.output@ =~= before + piece@);
                        let total: usize = self.output.len();
                        self.reused_bytes = total - self.new_bytes;
                        Ok(Step::Next)
                    },
                }
            },
        }
    }

    /// Takes the raw bytes that followed a `DATA` line.
    pub fn payload(&mut self, bytes: &[u8])
        requires
            old(self).accounted(),
        ensures
            final(self).accounted(),
            final(self)@ == (SessionView {
                content: old(self)@.content + bytes@,
                new_bytes: old(self)@.new_bytes + bytes@.len(),
                ..old(self)@
            }),
    {
        let ghost before = self.output@;
        self.output.extend_from_slice(bytes);
        assert(self.output@ =~= before + bytes@);
        let total: usize = self.output.len();
        self.new_bytes = total - self.reused_bytes;
    }

    /// The new content of the destination and the tallies of the transfer.
    pub fn finish(self) -> (done: (Vec<u8>, TransferResult))
        requires
            self.accounted(),
        ensures
            done.0@ == self@.content,
            done.1.new_bytes == self@.new_bytes,
            done.1.reused_bytes == self@.reused_bytes,
            done.1.new_bytes + done.1.reused_bytes == done.0@.len(),
    {
        (
            self.output,
            TransferResult { new_bytes: self.new_bytes, reused_bytes: self.reused_bytes },
        )
    }
}

/// Raw data that is put together first can as well be counted first.
pub proof fn lemma_continued_data(
    done: SessionView,
    bytes: Seq<u8>,
    rest: Result<Reception, SyncError>,
)
    ensures
        continued(done, after_data(bytes, rest)) == continued(
            SessionView {
                content: done.content + bytes,
                new_bytes: done.new_bytes + bytes.len(),
                ..done
            },
            rest,
        ),
{
    match rest {
        Ok(r) => {
            assert(done.content + (bytes + r.content) =~= (done.content + bytes) + r.content);
        },
        Err(_) => {},
    }
}

/// Copied bytes that are put together first can as well be counted first.
pub proof fn lemma_continued_copy(
    done: SessionView,
    bytes: Seq<u8>,
    rest: Result<Reception, SyncError>,
)
    ensures
        continued(done, after_copy(bytes, rest)) == continued(
            SessionView {
                content: done.content + bytes,
                reused_bytes: done.reused_bytes + bytes.len(),
                ..done
            },
            rest,
        ),
{
    match rest {
        Ok(r) => {
            assert(done.content + (bytes + r.content) =~= (done.content + bytes) + r.content);
        },
        Err(_) => {},
    }
}

/// Nothing more to come leaves what has been put together.
pub proof fn lemma_continued_done(done: SessionView)
    ensures
        continued(
            done,
            Ok(Reception { content: Seq::empty(), new_bytes: 0, reused_bytes: 0 }),
        ) == Ok::<Reception, SyncError>(
            Reception {
                content: done.content,
                new_bytes: done.new_bytes,
                reused_bytes: done.reused_bytes,
            },
        ),
{
    assert(done.content + Seq::<u8>::empty() =~= done.content);
}

/// What a stream is taken for, by its first command: the definition of
/// `received` over the part of `stream` that starts at `pos`.
pub proof fn lemma_received_next(
    stream: Seq<u8>,
    reference: Option<Seq<u8>>,
    pos: int,
    end: int,
)
    requires
        0 <= pos < stream.len(),
        end == pos + line_end(stream.skip(pos)),
    ensures
        pos < end <= stream.len(),
        first_line(stream.skip(pos)) == stream.subrange(pos, end),
        received(stream.skip(pos), reference) == match parsed_command(
            stream.subrange(pos, end),
        ) {
            None => Err::<Reception, SyncError>(SyncError::ProtocolViolation),
            Some(Command::Done) => Ok(
                Reception { content: Seq::empty(), new_bytes: 0, reused_bytes: 0 },
            ),
            Some(Command::Copy(offset, length)) => match produce(
                Op::Copy { offset: offset as int, length: length as int },
                reference,
            ) {
                Err(e) => Err(e),
                Ok(bytes) => after_copy(bytes, received(stream.skip(end), reference)),
            },
            Some(Command::Data(length)) => if end + length > stream.len() {
                Err(SyncError::ProtocolViolation)
            } else {
                after_data(
                    stream.subrange(end, end + length),
                    received(stream.skip(end + length), reference),
                )
            },
        },
{
    let rest = stream.skip(pos);
    lemma_line_end_bounds(rest);
    assert(first_line(rest) =~= stream.subrange(pos, end));
    assert(rest.skip(end - pos) =~= stream.skip(end));
    match parsed_command(stream.subrange(pos, end)) {
        Some(Command::Data(length)) => {
            if end + length <= stream.len() {
                assert(rest.subrange(end - pos, end - pos + length) =~= stream.subrange(
                    end,
                    end + length,
                ));
                assert(rest.skip(end - pos + length) =~= stream.skip(end + length));
            }
        },
        _ => {},
    }
}

/// Reassembles a file from the whole instruction stream of a client.
pub fn receive(stream: &[u8], reference: Option<&[u8]>) -> (done: Result<
    (Vec<u8>, TransferResult),
    SyncError,
>)
    ensures
        match done {
            Ok(file) => received(stream@, reference_view(reference)) == Ok::<
                Reception,
                SyncError,
            >(
                Reception {
                    content: file.0@,
                    new_bytes: file.1.new_bytes as int,
                    reused_bytes: file.1.reused_bytes as int,
                },
            ),
            Err(e) => received(stream@, reference_view(reference)) == Err::<
                Reception,
                SyncError,
            >(e),
        },
{
    let ghost old = reference_view(reference);
    let mut session = ServerSession::new(reference);
    let mut pos: usize = 0;
    proof {
        assert(stream@.skip(0) =~= stream@);
        match received(stream@, old) {
            Ok(r) => {
                assert(Seq::<u8>::empty() + r.content =~= r.content);
            },
            Err(_) => {},
        }
    }
    loop
        invariant
            pos <= stream.len(),
            old == reference_view(reference),
            session.accounted(),
            session@.reference == old,
            received(stream@, old) == continued(
                session@,
                received(stream@.skip(pos as int), old),
            ),
        decreases stream.len() - pos,
    {
        let ghost before = session@;
        if pos >= stream.len() {
            return Err(SyncError::ProtocolViolation);
        }
        let end = read_line(stream, pos);
        proof {
            lemma_received_next(stream@, old, pos as int, end as int);
        }
        let ghost next = received(stream@.skip(end as int), old);
        match session.command(slice_subrange(stream, pos, end)) {
            Err(e) => {
                return Err(e);
            },
            Ok(Step::Finished) => {
                proof {
                    lemma_continued_done(before);
                }
                return Ok(session.finish());
            },
            Ok(Step::Next) => {
                proof {
                    let command = parsed_command(stream@.subrange(pos as int, end as int))->0;
                    let bytes = produce(
                        Op::Copy { offset: command->Copy_0 as int, length: command->Copy_1 as int },
                        old,
                    )->Ok_0;
                    lemma_continued_copy(before, bytes, next);
                }
                pos = end;
            },
            Ok(Step::Payload(length)) => {
                if length > stream.len() - end {
                    return Err(SyncError::ProtocolViolation);
                }
                let bytes = slice_subrange(stream, end, end + length);
                session.payload(bytes);
                proof {
                    lemma_continued_data(
                        before,
                        bytes@,
                        received(stream@.skip(end + length), old),
                    );
                }
                pos = end + length;
            },
        }
    }
}

/// The old content that a server works from: that of a regular file, or
/// nothing where the destination does not exist. Anything else at the
/// destination, a directory above all, is refused as a protocol violation.
pub open spec fn reference_at(destination: Option<Tree>) -> Result<Option<Seq<u8>>, SyncError> {
    match destination {
        None => Ok(None),
        Some(Tree::File { content }) => Ok(Some(content)),
        Some(_) => Err(SyncError::ProtocolViolation),
    }
}

/// The content of an optional entry.
pub open spec fn destination_view(destination: Option<&Entry>) -> Option<Tree> {
    match destination {
        Some(entry) => Some(entry@),
        None => None,
    }
}

/// The old content that a server works from.
pub fn reference_of<'a>(destination: Option<&'a Entry>) -> (reference: Result<
    Option<&'a [u8]>,
    SyncError,
>)
    ensures
        match reference {
            Ok(found) => reference_at(destination_view(destination)) == Ok::<
                Option<Seq<u8>>,
                SyncError,
            >(reference_view(found)),
            Err(e) => reference_at(destination_view(destination)) == Err::<
                Option<Seq<u8>>,
                SyncError,
            >(e),
        },
{
    match destination {
        None => Ok(None),
        Some(Entry::File(content)) => Ok(Some(content.as_slice())),
        Some(_) => Err(SyncError::ProtocolViolation),
    }
}

} // verus!
