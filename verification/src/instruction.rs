//! Reconstruction instructions and the reassembler that carries them out.

use crate::sync::SyncError;
use vstd::prelude::*;
use vstd::slice::slice_subrange;

verus! {

/// One step of a reconstruction plan.
#[derive(Debug, Clone, PartialEq, Eq)]
pub enum Instruction {
    /// Take `length` bytes of the reference, starting at `offset`.
    Copy { offset: u64, length: usize },
    /// Take these bytes as they are.
    Literal(Vec<u8>),
}

/// Mathematical content of an [`Instruction`].
pub enum Op {
    Copy { offset: int, length: int },
    Literal { bytes: Seq<u8> },
}

impl View for Instruction {
    type V = Op;

    open spec fn view(&self) -> Op {
        match self {
            Instruction::Copy { offset, length } => Op::Copy {
                offset: *offset as int,
                length: *length as int,
            },
            Instruction::Literal(bytes) => Op::Literal { bytes: bytes@ },
        }
    }
}

/// The plan that a list of instructions stands for.
pub open spec fn plan(instructions: Seq<Instruction>) -> Seq<Op> {
    Seq::new(instructions.len(), |i: int| instructions[i]@)
}

/// Number of bytes that `op` contributes as literal data.
pub open spec fn literal_len(op: Op) -> int {
    match op {
        Op::Copy { .. } => 0,
        Op::Literal { bytes } => bytes.len() as int,
    }
}

/// Number of bytes that `op` takes from the reference.
pub open spec fn copy_len(op: Op) -> int {
    match op {
        Op::Copy { length, .. } => length,
        Op::Literal { .. } => 0,
    }
}

/// Total number of literal bytes in a plan.
pub open spec fn literal_bytes(ops: Seq<Op>) -> int
    decreases ops.len(),
{
    if ops.len() == 0 {
        0
    } else {
        literal_bytes(ops.drop_last()) + literal_len(ops.last())
    }
}

/// Total number of bytes that a plan takes from the reference.
pub open spec fn copied_bytes(ops: Seq<Op>) -> int
    decreases ops.len(),
{
    if ops.len() == 0 {
        0
    } else {
        copied_bytes(ops.drop_last()) + copy_len(ops.last())
    }
}

/// The bytes that one instruction produces. A copy needs a reference
/// (`ProtocolViolation` without one) that holds the whole range (`IoFailure`
/// otherwise).
pub open spec fn produce(op: Op, reference: Option<Seq<u8>>) -> Result<Seq<u8>, SyncError> {
    match op {
        Op::Literal { bytes } => Ok(bytes),
        Op::Copy { offset, length } => match reference {
            None => Err(SyncError::ProtocolViolation),
            Some(old) => if 0 <= offset && 0 <= length && offset + length <= old.len() {
                Ok(old.subrange(offset, offset + length))
            } else {
                Err(SyncError::IoFailure)
            },
        },
    }
}

/// The bytes that a plan produces, in order; the error of the first
/// instruction that cannot be carried out, if there is one.
pub open spec fn reassemble(ops: Seq<Op>, reference: Option<Seq<u8>>) -> Result<
    Seq<u8>,
    SyncError,
>
    decreases ops.len(),
{
    if ops.len() == 0 {
        Ok(Seq::empty())
    } else {
        match reassemble(ops.drop_last(), reference) {
            Err(e) => Err(e),
            Ok(head) => match produce(ops.last(), reference) {
                Err(e) => Err(e),
                Ok(bytes) => Ok(head + bytes),
            },
        }
    }
}

/// The tallies of a plan extended by one instruction.
pub proof fn lemma_tally_push(ops: Seq<Op>, op: Op)
    ensures
        literal_bytes(ops.push(op)) == literal_bytes(ops) + literal_len(op),
        copied_bytes(ops.push(op)) == copied_bytes(ops) + copy_len(op),
{
    assert(ops.push(op).drop_last() =~= ops);
}

/// The tallies of two plans, one after the other.
pub proof fn lemma_tally_concat(first: Seq<Op>, second: Seq<Op>)
    ensures
        literal_bytes(first + second) == literal_bytes(first) + literal_bytes(second),
        copied_bytes(first + second) == copied_bytes(first) + copied_bytes(second),
    decreases second.len(),
{
    if second.len() == 0 {
        assert(first + second =~= first);
    } else {
        lemma_tally_concat(first, second.drop_last());
        assert((first + second).drop_last() =~= first + second.drop_last());
    }
}

/// Two plans carried out one after the other produce what each produces, in
/// order; the first error wins.
pub proof fn lemma_reassemble_concat(
    first: Seq<Op>,
    second: Seq<Op>,
    reference: Option<Seq<u8>>,
)
    ensures
        reassemble(first + second, reference) == match reassemble(first, reference) {
            Err(e) => Err::<Seq<u8>, SyncError>(e),
            Ok(head) => match reassemble(second, reference) {
                Err(e) => Err(e),
                Ok(tail) => Ok(head + tail),
            },
        },
    decreases second.len(),
{
    if second.len() == 0 {
        assert(first + second =~= first);
        match reassemble(first, reference) {
            Ok(head) => {
                assert(head + Seq::<u8>::empty() =~= head);
            },
            Err(_) => {},
        }
    } else {
        lemma_reassemble_concat(first, second.drop_last(), reference);
        assert((first + second).drop_last() =~= first + second.drop_last());
        assert((first + second).last() == second.last());
        match (
            reassemble(first, reference),
            reassemble(second.drop_last(), reference),
            produce(second.last(), reference),
        ) {
            (Ok(head), Ok(middle), Ok(bytes)) => {
                assert((head + middle) + bytes =~= head + (middle + bytes));
            },
            _ => {},
        }
    }
}

/// A plan of one instruction produces what that instruction produces.
pub proof fn lemma_reassemble_single(op: Op, reference: Option<Seq<u8>>)
    ensures
        reassemble(seq![op], reference) == produce(op, reference),
{
    let ops = seq![op];
    assert(ops.drop_last() =~= Seq::<Op>::empty());
    assert(reassemble(Seq::<Op>::empty(), reference) == Ok::<Seq<u8>, SyncError>(Seq::empty()));
    match produce(op, reference) {
        Ok(bytes) => {
            assert(Seq::<u8>::empty() + bytes =~= bytes);
        },
        Err(_) => {},
    }
}

/// A plan, one instruction and another plan, carried out in this order,
/// produce what each of them produces, in this order.
pub proof fn lemma_reassemble_parts(
    head: Seq<Op>,
    op: Op,
    tail: Seq<Op>,
    reference: Option<Seq<u8>>,
)
    requires
        reassemble(head, reference) is Ok,
        produce(op, reference) is Ok,
        reassemble(tail, reference) is Ok,
    ensures
        reassemble(head + seq![op] + tail, reference) == Ok::<Seq<u8>, SyncError>(
            reassemble(head, reference)->Ok_0 + produce(op, reference)->Ok_0 + reassemble(
                tail,
                reference,
            )->Ok_0,
        ),
{
    lemma_reassemble_single(op, reference);
    lemma_reassemble_concat(head, seq![op], reference);
    lemma_reassemble_concat(head + seq![op], tail, reference);
}

/// Once a prefix of a plan has failed, the whole plan fails in the same way.
pub proof fn lemma_reassemble_stays_failed(ops: Seq<Op>, n: int, reference: Option<Seq<u8>>)
    requires
        0 <= n <= ops.len(),
        reassemble(ops.take(n), reference) is Err,
    ensures
        reassemble(ops, reference) == reassemble(ops.take(n), reference),
{
    assert(ops =~= ops.take(n) + ops.skip(n));
    lemma_reassemble_concat(ops.take(n), ops.skip(n), reference);
}

/// The content of an optional reference.
pub open spec fn reference_view(reference: Option<&[u8]>) -> Option<Seq<u8>> {
    match reference {
        Some(data) => Some(data@),
        None => None,
    }
}

/// The `length` bytes of `reference` that start at `offset`.
pub fn copied<'a>(reference: Option<&'a [u8]>, offset: u64, length: usize) -> (piece: Result<
    &'a [u8],
    SyncError,
>)
    ensures
        match piece {
            Ok(bytes) => produce(
                Op::Copy { offset: offset as int, length: length as int },
                reference_view(reference),
            ) == Ok::<Seq<u8>, SyncError>(bytes@),
            Err(e) => produce(
                Op::Copy { offset: offset as int, length: length as int },
                reference_view(reference),
            ) == Err::<Seq<u8>, SyncError>(e),
        },
{
    match reference {
        None => Err(SyncError::ProtocolViolation),
        Some(data) => {
            if offset > data.len() as u64 || length as u64 > data.len() as u64 - offset {
                return Err(SyncError::IoFailure);
            }
            let start: usize = offset as usize;
            Ok(slice_subrange(data, start, start + length))
        },
    }
}

/// Carries out `instructions` in order and returns the bytes they produce.
/// `reference` is the old content that copies read from.
pub fn apply(instructions: &[Instruction], reference: Option<&[u8]>) -> (target: Result<
    Vec<u8>,
    SyncError,
>)
    ensures
        match target {
            Ok(bytes) => reassemble(plan(instructions@), reference_view(reference)) == Ok::<
                Seq<u8>,
                SyncError,
            >(bytes@),
            Err(e) => reassemble(plan(instructions@), reference_view(reference)) == Err::<
                Seq<u8>,
                SyncError,
            >(e),
        },
{
    let ghost ops = plan(instructions@);
    let ghost old = reference_view(reference);
    let mut out: Vec<u8> = Vec::new();
    let mut i: usize = 0;
    while i < instructions.len()
        invariant
            i <= instructions.len(),
            ops == plan(instructions@),
            old == reference_view(reference),
            reassemble(ops.take(i as int), old) == Ok::<Seq<u8>, SyncError>(out@),
        decreases instructions.len() - i,
    {
        proof {
            assert(ops.take(i + 1).drop_last() =~= ops.take(i as int));
            assert(ops.take(i + 1).last() == instructions@[i as int]@);
        }
        let ghost before = out@;
        match &instructions[i] {
            Instruction::Literal(bytes) => {
                out.extend_from_slice(bytes.as_slice());
                assert(out@ =~= before + bytes@);
            },
            Instruction::Copy { offset, length } => {
                match copied(reference, *offset, *length) {
                    Err(e) => {
                        proof {
                            lemma_reassemble_stays_failed(ops, i + 1, old);
                        }
                        return Err(e);
                    },
                    Ok(piece) => {
                        out.extend_from_slice(piece);
                        assert(out@ =~= before + piece@);
                    },
                }
            },
        }
        i += 1;
    }
    assert(ops.take(i as int) =~= ops);
    Ok(out)
}

} // verus!
