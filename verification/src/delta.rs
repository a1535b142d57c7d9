//! The sliding-window scanner: the plan that rebuilds a source from a
//! reference, and what holds of every such plan.

use crate::checksum::lemma_rolling_update;
use crate::checksum::roll_checksum;
use crate::checksum::sha256;
use crate::checksum::weak_checksum;
use crate::checksum::weak_checksum_of;
use crate::index::first_match;
use crate::index::is_match;
use crate::index::lemma_first_match;
use crate::index::SignatureIndex;
use crate::instruction::copied_bytes;
use crate::instruction::Instruction;
use crate::instruction::lemma_reassemble_parts;
use crate::instruction::lemma_reassemble_single;
use crate::instruction::lemma_tally_concat;
use crate::instruction::lemma_tally_push;
use crate::instruction::literal_bytes;
use crate::instruction::Op;
use crate::instruction::plan;
use crate::instruction::produce;
use crate::instruction::reassemble;
use crate::sync::block_bytes;
use crate::sync::lemma_block_start;
use crate::sync::Signature;
use crate::sync::signatures;
use crate::sync::signatures_of;
use crate::sync::SyncError;
use crate::sync::TransferResult;
use vstd::prelude::*;
use vstd::slice::slice_subrange;
use vstd::slice::slice_to_vec;

verus! {

/// The `block_size` bytes of `source` that start at `pos`.
pub open spec fn window(source: Seq<u8>, block_size: int, pos: int) -> Seq<u8> {
    source.subrange(pos, pos + block_size)
}

/// The signature that the window at `pos` is matched with, if there is one.
pub open spec fn match_at(source: Seq<u8>, sigs: Seq<Signature>, block_size: int, pos: int)
    -> Option<int> {
    let bytes = window(source, block_size, pos);
    first_match(sigs, block_size, weak_checksum(bytes), sha256(bytes), 0)
}

/// The bytes of `source` from `from` up to `to` as one literal; nothing where
/// the range is empty.
pub open spec fn literal_run(source: Seq<u8>, from: int, to: int) -> Seq<Op> {
    if from < to {
        seq![Op::Literal { bytes: source.subrange(from, to) }]
    } else {
        Seq::empty()
    }
}

/// The plan for `source` from `last_emit` on, with the window at `pos`: a
/// window that matches a signature becomes a copy, after a literal for what
/// was passed over since `last_emit`, and the scan goes on behind it;
/// otherwise the window moves on by one byte. What no window covers is a last
/// literal.
pub open spec fn scan_from(
    source: Seq<u8>,
    sigs: Seq<Signature>,
    block_size: int,
    pos: int,
    last_emit: int,
) -> Seq<Op>
    decreases source.len() - pos,
{
    if block_size <= 0 || pos < 0 || pos + block_size > source.len() {
        literal_run(source, last_emit, source.len() as int)
    } else {
        match match_at(source, sigs, block_size, pos) {
            Some(k) => literal_run(source, last_emit, pos) + seq![
                Op::Copy { offset: sigs[k].offset, length: block_size },
            ] + scan_from(source, sigs, block_size, pos + block_size, pos + block_size),
            None => scan_from(source, sigs, block_size, pos + 1, last_emit),
        }
    }
}

/// The plan that rebuilds `source` from a reference with signatures `sigs`.
pub open spec fn delta(source: Seq<u8>, sigs: Seq<Signature>, block_size: int) -> Seq<Op> {
    scan_from(source, sigs, block_size, 0, 0)
}

/// Scans `source` against the signatures in `index` and returns the plan
/// that rebuilds it, with the number of literal bytes and of copied bytes in
/// that plan.
pub fn scan(source: &[u8], index: &SignatureIndex, block_size: usize) -> (out: (
    Vec<Instruction>,
    TransferResult,
))
    requires
        block_size > 0,
    ensures
        plan(out.0@) == delta(source@, signatures(index.blocks()), block_size as int),
        out.1.new_bytes == literal_bytes(plan(out.0@)),
        out.1.reused_bytes == copied_bytes(plan(out.0@)),
        out.1.new_bytes + out.1.reused_bytes == source.len(),
{
    let n: usize = source.len();
    let ghost src = source@;
    let ghost sigs = signatures(index.blocks());
    let ghost bs = block_size as int;
    let mut out: Vec<Instruction> = Vec::new();
    let mut pos: usize = 0;
    let mut last_emit: usize = 0;
    let mut new_bytes: usize = 0;
    let mut reused_bytes: usize = 0;
    let mut weak: u32 = 0;
    if block_size <= n {
        weak = weak_checksum_of(slice_subrange(source, 0, block_size));
    }
    assert(plan(out@) + scan_from(src, sigs, bs, 0, 0) =~= delta(src, sigs, bs));
    while block_size <= n - pos
        invariant
            block_size > 0,
            n == source.len(),
            src == source@,
            sigs == signatures(index.blocks()),
            bs == block_size as int,
            last_emit <= pos <= n,
            pos + block_size <= n ==> weak == weak_checksum(window(src, bs, pos as int)),
            plan(out@) + scan_from(src, sigs, bs, pos as int, last_emit as int) == delta(
                src,
                sigs,
                bs,
            ),
            new_bytes == literal_bytes(plan(out@)),
            reused_bytes == copied_bytes(plan(out@)),
            new_bytes + reused_bytes == last_emit,
        decreases n - pos,
    {
        let bytes = slice_subrange(source, pos, pos + block_size);
        let ghost rest = scan_from(src, sigs, bs, pos as int, last_emit as int);
        let ghost done = plan(out@);
        let ghost start = pos as int;
        let ghost emitted = last_emit as int;
        assert(bytes@ == window(src, bs, start));
        match index.find(block_size, weak, bytes) {
            Some(block) => {
                let ghost k = first_match(sigs, bs, weak, sha256(bytes@), 0)->0;
                proof {
                    lemma_first_match(sigs, bs, weak, sha256(bytes@), 0);
                }
                if pos > last_emit {
                    let literal = slice_to_vec(slice_subrange(source, last_emit, pos));
                    proof {
                        lemma_tally_push(plan(out@), Op::Literal { bytes: literal@ });
                    }
                    let ghost before = out@;
                    out.push(Instruction::Literal(literal));
                    assert(plan(out@) =~= plan(before).push(Op::Literal { bytes: literal@ }));
                    new_bytes += pos - last_emit;
                }
                assert(plan(out@) =~= done + literal_run(src, last_emit as int, pos as int));
                let copy = Instruction::Copy { offset: block.offset, length: block_size };
                proof {
                    lemma_tally_push(plan(out@), copy@);
                }
                let ghost before = out@;
                out.push(copy);
                assert(plan(out@) =~= plan(before).push(copy@));
                reused_bytes += block_size;
                pos += block_size;
                last_emit = pos;
                proof {
                    let tail = scan_from(src, sigs, bs, pos as int, pos as int);
                    assert(copy@ == Op::Copy { offset: sigs[k].offset, length: bs });
                    assert(match_at(src, sigs, bs, start) == Some(k));
                    assert(rest == literal_run(src, emitted, start) + seq![copy@] + tail);
                    assert(plan(out@) + tail =~= done + rest);
                }
                if block_size <= n - pos {
                    weak = weak_checksum_of(slice_subrange(source, pos, pos + block_size));
                }
            },
            None => {
                pos += 1;
                if block_size <= n - pos {
                    proof {
                        lemma_rolling_update(src, pos - 1, bs);
                    }
                    let leaving: u8 = source[pos - 1];
                    let entering: u8 = source[pos + block_size - 1];
                    weak = roll_checksum(weak, leaving, entering, block_size);
                }
            },
        }
    }
    if last_emit < n {
        let literal = slice_to_vec(slice_subrange(source, last_emit, n));
        proof {
            lemma_tally_push(plan(out@), Op::Literal { bytes: literal@ });
        }
        let ghost before = out@;
        out.push(Instruction::Literal(literal));
        assert(plan(out@) =~= plan(before).push(Op::Literal { bytes: literal@ }));
        new_bytes += n - last_emit;
    }
    assert(plan(out@) =~= delta(src, sigs, bs));
    (out, TransferResult { new_bytes, reused_bytes })
}

/// Every byte of the source is either a literal byte or a copied byte of its
/// plan: the two tallies add up to the length of the source.
pub proof fn lemma_plan_accounts_for_source(
    source: Seq<u8>,
    sigs: Seq<Signature>,
    block_size: int,
)
    ensures
        literal_bytes(delta(source, sigs, block_size)) + copied_bytes(
            delta(source, sigs, block_size),
        ) == source.len(),
{
    lemma_scan_accounts(source, sigs, block_size, 0, 0);
}

/// From any state of the scan, the rest of the plan accounts for the bytes
/// that have not been emitted yet.
pub proof fn lemma_scan_accounts(
    source: Seq<u8>,
    sigs: Seq<Signature>,
    block_size: int,
    pos: int,
    last_emit: int,
)
    requires
        0 <= last_emit <= pos <= source.len(),
    ensures
        literal_bytes(scan_from(source, sigs, block_size, pos, last_emit)) + copied_bytes(
            scan_from(source, sigs, block_size, pos, last_emit),
        ) == source.len() - last_emit,
    decreases source.len() - pos,
{
    let end = source.len() as int;
    lemma_literal_run_tally(source, last_emit, end);
    if block_size > 0 && pos + block_size <= source.len() {
        match match_at(source, sigs, block_size, pos) {
            Some(k) => {
                let next = pos + block_size;
                let head = literal_run(source, last_emit, pos);
                let copy = seq![Op::Copy { offset: sigs[k].offset, length: block_size }];
                let tail = scan_from(source, sigs, block_size, next, next);
                lemma_scan_accounts(source, sigs, block_size, next, next);
                lemma_literal_run_tally(source, last_emit, pos);
                lemma_tally_push(Seq::empty(), copy[0]);
                assert(Seq::<Op>::empty().push(copy[0]) =~= copy);
                lemma_tally_concat(head, copy);
                lemma_tally_concat(head + copy, tail);
            },
            None => {
                lemma_scan_accounts(source, sigs, block_size, pos + 1, last_emit);
            },
        }
    }
}

/// A literal run holds the bytes of its range and copies nothing.
pub proof fn lemma_literal_run_tally(source: Seq<u8>, from: int, to: int)
    requires
        0 <= from,
        to <= source.len(),
    ensures
        literal_bytes(literal_run(source, from, to)) == if from < to {
            to - from
        } else {
            0
        },
        copied_bytes(literal_run(source, from, to)) == 0,
{
    if from < to {
        let op = Op::Literal { bytes: source.subrange(from, to) };
        lemma_tally_push(Seq::empty(), op);
        assert(Seq::<Op>::empty().push(op) =~= literal_run(source, from, to));
    }
}

/// Whether no window of `source` shares both checksums with a full block of
/// `reference` that holds other bytes.
pub open spec fn collision_free(source: Seq<u8>, reference: Seq<u8>, block_size: int) -> bool {
    forall|p: int, k: int|
        #![trigger window(source, block_size, p), block_bytes(reference, block_size, k)]
        0 <= p && p + block_size <= source.len() && 0 <= k && k * block_size + block_size
            <= reference.len() && weak_checksum(window(source, block_size, p)) == weak_checksum(
            block_bytes(reference, block_size, k),
        ) && sha256(window(source, block_size, p)) == sha256(
            block_bytes(reference, block_size, k),
        ) ==> window(source, block_size, p) == block_bytes(reference, block_size, k)
}

/// The copy that the scan emits for a matching signature of `reference`
/// reads the block that the signature describes.
pub proof fn lemma_copy_reads_block(
    reference: Seq<u8>,
    block_size: int,
    weak: u32,
    strong: Seq<u8>,
    k: int,
)
    requires
        0 < block_size,
        0 <= k < signatures_of(reference, block_size).len(),
        is_match(signatures_of(reference, block_size)[k], block_size, weak, strong),
    ensures
        produce(
            Op::Copy {
                offset: signatures_of(reference, block_size)[k].offset,
                length: block_size,
            },
            Some(reference),
        ) == Ok::<Seq<u8>, SyncError>(block_bytes(reference, block_size, k)),
        k * block_size + block_size <= reference.len(),
        weak == weak_checksum(block_bytes(reference, block_size, k)),
        strong == sha256(block_bytes(reference, block_size, k)),
{
    lemma_block_start(reference.len() as int, block_size, k);
}

/// A literal run produces the bytes of its range.
pub proof fn lemma_literal_run_rebuilds(
    source: Seq<u8>,
    from: int,
    to: int,
    reference: Option<Seq<u8>>,
)
    requires
        0 <= from <= to <= source.len(),
    ensures
        reassemble(literal_run(source, from, to), reference) == Ok::<Seq<u8>, SyncError>(
            source.subrange(from, to),
        ),
{
    if from < to {
        lemma_reassemble_single(Op::Literal { bytes: source.subrange(from, to) }, reference);
    } else {
        assert(source.subrange(from, to) =~= Seq::<u8>::empty());
    }
}

/// From any state of the scan against the signatures of `reference`, the
/// rest of the plan can be carried out on `reference`; where no checksums
/// collide, it produces the bytes of the source that were not emitted yet.
pub proof fn lemma_scan_rebuilds(
    source: Seq<u8>,
    reference: Seq<u8>,
    block_size: int,
    pos: int,
    last_emit: int,
)
    requires
        0 < block_size,
        0 <= last_emit <= pos <= source.len(),
    ensures
        reassemble(
            scan_from(source, signatures_of(reference, block_size), block_size, pos, last_emit),
            Some(reference),
        ) is Ok,
        collision_free(source, reference, block_size) ==> reassemble(
            scan_from(source, signatures_of(reference, block_size), block_size, pos, last_emit),
            Some(reference),
        ) == Ok::<Seq<u8>, SyncError>(source.subrange(last_emit, source.len() as int)),
    decreases source.len() - pos,
{
    let sigs = signatures_of(reference, block_size);
    let end = source.len() as int;
    let old = Some(reference);
    if pos + block_size > source.len() {
        lemma_literal_run_rebuilds(source, last_emit, end, old);
    } else {
        let bytes = window(source, block_size, pos);
        match match_at(source, sigs, block_size, pos) {
            Some(k) => {
                let next = pos + block_size;
                let head = literal_run(source, last_emit, pos);
                let op = Op::Copy { offset: sigs[k].offset, length: block_size };
                let tail = scan_from(source, sigs, block_size, next, next);
                let block = block_bytes(reference, block_size, k);
                lemma_first_match(sigs, block_size, weak_checksum(bytes), sha256(bytes), 0);
                lemma_copy_reads_block(
                    reference,
                    block_size,
                    weak_checksum(bytes),
                    sha256(bytes),
                    k,
                );
                lemma_scan_rebuilds(source, reference, block_size, next, next);
                lemma_literal_run_rebuilds(source, last_emit, pos, old);
                lemma_reassemble_parts(head, op, tail, old);
                if collision_free(source, reference, block_size) {
                    assert(bytes == block);
                    assert(source.subrange(last_emit, pos) + bytes + source.subrange(next, end)
                        =~= source.subrange(last_emit, end));
                }
            },
            None => {
                lemma_scan_rebuilds(source, reference, block_size, pos + 1, last_emit);
            },
        }
    }
}

/// Carrying out the plan of `source` against `reference` on `reference`
/// always succeeds, and it yields `source` unless two different byte ranges
/// share both checksums.
pub proof fn lemma_plan_rebuilds_source(source: Seq<u8>, reference: Seq<u8>, block_size: int)
    requires
        0 < block_size,
    ensures
        reassemble(
            delta(source, signatures_of(reference, block_size), block_size),
            Some(reference),
        ) is Ok,
        collision_free(source, reference, block_size) ==> reassemble(
            delta(source, signatures_of(reference, block_size), block_size),
            Some(reference),
        ) == Ok::<Seq<u8>, SyncError>(source),
{
    lemma_scan_rebuilds(source, reference, block_size, 0, 0);
    assert(source.subrange(0, source.len() as int) =~= source);
}

/// With no signature to match, the scan only moves on.
pub proof fn lemma_scan_without_signatures(
    source: Seq<u8>,
    block_size: int,
    pos: int,
    last_emit: int,
)
    ensures
        scan_from(source, Seq::empty(), block_size, pos, last_emit) == literal_run(
            source,
            last_emit,
            source.len() as int,
        ),
    decreases source.len() - pos,
{
    if !(block_size <= 0 || pos < 0 || pos + block_size > source.len()) {
        lemma_scan_without_signatures(source, block_size, pos + 1, last_emit);
    }
}

/// Without signatures the whole source is one literal: nothing is reused. An
/// empty reference has no signatures.
pub proof fn lemma_plan_without_reference(source: Seq<u8>, block_size: int)
    requires
        0 < block_size,
    ensures
        signatures_of(Seq::<u8>::empty(), block_size) == Seq::<Signature>::empty(),
        delta(source, Seq::empty(), block_size) == literal_run(source, 0, source.len() as int),
        copied_bytes(delta(source, Seq::empty(), block_size)) == 0,
        literal_bytes(delta(source, Seq::empty(), block_size)) == source.len(),
{
    lemma_block_start(0, block_size, 0);
    assert(0 * block_size == 0) by (nonlinear_arith);
    assert(signatures_of(Seq::<u8>::empty(), block_size) =~= Seq::<Signature>::empty());
    lemma_scan_without_signatures(source, block_size, 0, 0);
    lemma_literal_run_tally(source, 0, source.len() as int);
}

/// Whether every instruction of a plan is a copy.
pub open spec fn only_copies(ops: Seq<Op>) -> bool {
    forall|i: int| 0 <= i < ops.len() ==> #[trigger] ops[i] is Copy
}

/// Scanning data against its own signatures from a block boundary on finds a
/// match for every full block; only the short rest at the end is a literal.
pub proof fn lemma_scan_of_identical(
    source: Seq<u8>,
    block_size: int,
    blocks: int,
    rest: int,
    j: int,
)
    requires
        0 < block_size,
        source.len() == blocks * block_size + rest,
        0 <= rest < block_size,
        0 <= j <= blocks,
    ensures
        rest == 0 ==> only_copies(
            scan_from(
                source,
                signatures_of(source, block_size),
                block_size,
                j * block_size,
                j * block_size,
            ),
        ),
        copied_bytes(
            scan_from(
                source,
                signatures_of(source, block_size),
                block_size,
                j * block_size,
                j * block_size,
            ),
        ) == source.len() - rest - j * block_size,
    decreases blocks - j,
{
    let sigs = signatures_of(source, block_size);
    let pos = j * block_size;
    assert(0 <= pos <= source.len() && (j < blocks ==> pos + block_size <= source.len())
        && (j == blocks ==> pos + rest == source.len()) && (j + 1) * block_size == pos
        + block_size) by (nonlinear_arith)
        requires
            0 < block_size,
            source.len() == blocks * block_size + rest,
            0 <= rest,
            0 <= j <= blocks,
            pos == j * block_size,
    ;
    if j < blocks {
        let bytes = window(source, block_size, pos);
        lemma_block_start(source.len() as int, block_size, j);
        assert(bytes == block_bytes(source, block_size, j));
        assert(is_match(sigs[j], block_size, weak_checksum(bytes), sha256(bytes)));
        lemma_first_match(sigs, block_size, weak_checksum(bytes), sha256(bytes), 0);
        let k = match_at(source, sigs, block_size, pos)->0;
        let next = pos + block_size;
        let copy = seq![Op::Copy { offset: sigs[k].offset, length: block_size }];
        let tail = scan_from(source, sigs, block_size, next, next);
        lemma_scan_of_identical(source, block_size, blocks, rest, j + 1);
        assert(literal_run(source, pos, pos) + copy =~= copy);
        lemma_tally_push(Seq::empty(), copy[0]);
        assert(Seq::<Op>::empty().push(copy[0]) =~= copy);
        lemma_tally_concat(copy, tail);
        assert(scan_from(source, sigs, block_size, pos, pos) == copy + tail);
    } else {
        lemma_literal_run_tally(source, pos, source.len() as int);
        if rest == 0 {
            assert(scan_from(source, sigs, block_size, pos, pos) =~= Seq::<Op>::empty());
        }
    }
}

/// A file is rebuilt from an identical reference by copies of all its full
/// blocks: only the short rest behind the last full block is new. Where the
/// length is a multiple of the block size, every instruction is a copy and
/// every byte is reused.
pub proof fn lemma_plan_of_identical(source: Seq<u8>, block_size: int)
    requires
        0 < block_size,
    ensures
        copied_bytes(delta(source, signatures_of(source, block_size), block_size))
            == source.len() - source.len() as int % block_size,
        literal_bytes(delta(source, signatures_of(source, block_size), block_size))
            == source.len() as int % block_size,
        source.len() as int % block_size == 0 ==> only_copies(
            delta(source, signatures_of(source, block_size), block_size),
        ),
{
    let blocks = source.len() as int / block_size;
    let rest = source.len() as int % block_size;
    vstd::arithmetic::div_mod::lemma_fundamental_div_mod(source.len() as int, block_size);
    assert(source.len() == blocks * block_size + rest && 0 <= blocks && 0 * block_size == 0)
        by (nonlinear_arith)
        requires
            source.len() == block_size * blocks + rest,
            0 <= rest < block_size,
            0 < block_size,
    ;
    lemma_scan_of_identical(source, block_size, blocks, rest, 0);
    lemma_plan_accounts_for_source(source, signatures_of(source, block_size), block_size);
}

/// Whether `op` is what a scan with blocks of `block_size` bytes emits: a
/// copy of exactly the range of a signature of that length, or a literal
/// that is not empty.
pub open spec fn is_scanned(op: Op, sigs: Seq<Signature>, block_size: int) -> bool {
    match op {
        Op::Copy { offset, length } => length == block_size && exists|k: int|
            0 <= k < sigs.len() && #[trigger] sigs[k].offset == offset && sigs[k].length
                == block_size,
        Op::Literal { bytes } => bytes.len() > 0,
    }
}

/// Whether every instruction of a plan is what a scan emits.
pub open spec fn all_scanned(ops: Seq<Op>, sigs: Seq<Signature>, block_size: int) -> bool {
    forall|i: int| 0 <= i < ops.len() ==> is_scanned(#[trigger] ops[i], sigs, block_size)
}

/// From any state of the scan, every instruction of the rest of the plan is
/// a copy of the range of a full-width signature or a literal that is not
/// empty.
pub proof fn lemma_scan_shape(
    source: Seq<u8>,
    sigs: Seq<Signature>,
    block_size: int,
    pos: int,
    last_emit: int,
)
    requires
        0 <= last_emit <= pos <= source.len(),
    ensures
        all_scanned(scan_from(source, sigs, block_size, pos, last_emit), sigs, block_size),
    decreases source.len() - pos,
{
    let ops = scan_from(source, sigs, block_size, pos, last_emit);
    if block_size > 0 && pos + block_size <= source.len() {
        let bytes = window(source, block_size, pos);
        match match_at(source, sigs, block_size, pos) {
            Some(k) => {
                let next = pos + block_size;
                lemma_first_match(sigs, block_size, weak_checksum(bytes), sha256(bytes), 0);
                lemma_scan_shape(source, sigs, block_size, next, next);
                let head = literal_run(source, last_emit, pos);
                let copy = Op::Copy { offset: sigs[k].offset, length: block_size };
                let tail = scan_from(source, sigs, block_size, next, next);
                assert(is_scanned(copy, sigs, block_size));
                assert forall|i: int| 0 <= i < ops.len() implies is_scanned(
                    #[trigger] ops[i],
                    sigs,
                    block_size,
                ) by {
                    if i < head.len() {
                        assert(ops[i] == head[i]);
                    } else if i == head.len() {
                        assert(ops[i] == copy);
                    } else {
                        assert(ops[i] == tail[i - head.len() - 1]);
                    }
                }
            },
            None => {
                lemma_scan_shape(source, sigs, block_size, pos + 1, last_emit);
            },
        }
    }
}

/// Every instruction of the plan of a source is a copy of the range of a
/// full-width signature or a literal that is not empty.
pub proof fn lemma_plan_shape(source: Seq<u8>, sigs: Seq<Signature>, block_size: int)
    ensures
        all_scanned(delta(source, sigs, block_size), sigs, block_size),
{
    lemma_scan_shape(source, sigs, block_size, 0, 0);
}

} // verus!
