//! The signature index: block signatures by weak checksum, and the search
//! for the block that a window matches.

use crate::checksum::sha256;
use crate::checksum::sha256_digest;
use crate::sync::Block;
use crate::sync::Signature;
use crate::sync::signatures;
use std::collections::HashMap;
use vstd::prelude::*;

verus! {

/// Whether a window with checksums `weak` and `strong` is taken for the block
/// that `sig` describes: the block is `block_size` bytes long and both
/// checksums agree.
pub open spec fn is_match(sig: Signature, block_size: int, weak: u32, strong: Seq<u8>) -> bool {
    sig.length == block_size && sig.weak == weak && sig.strong == strong
}

/// Index of the first signature at or after `from` that matches, if any does.
pub open spec fn first_match(
    sigs: Seq<Signature>,
    block_size: int,
    weak: u32,
    strong: Seq<u8>,
    from: int,
) -> Option<int>
    decreases sigs.len() - from,
{
    if from < 0 || from >= sigs.len() {
        None
    } else if is_match(sigs[from], block_size, weak, strong) {
        Some(from)
    } else {
        first_match(sigs, block_size, weak, strong, from + 1)
    }
}

/// What `first_match` finds is a match, and nothing before it is.
pub proof fn lemma_first_match(
    sigs: Seq<Signature>,
    block_size: int,
    weak: u32,
    strong: Seq<u8>,
    from: int,
)
    requires
        0 <= from,
    ensures
        match first_match(sigs, block_size, weak, strong, from) {
            Some(k) => from <= k < sigs.len() && is_match(sigs[k], block_size, weak, strong)
                && forall|j: int| from <= j < k ==> !is_match(sigs[j], block_size, weak, strong),
            None => forall|j: int|
                from <= j < sigs.len() ==> !is_match(sigs[j], block_size, weak, strong),
        },
    decreases sigs.len() - from,
{
    if from < sigs.len() && !is_match(sigs[from], block_size, weak, strong) {
        lemma_first_match(sigs, block_size, weak, strong, from + 1);
    }
}

/// Positions at or after `from` of the signatures with weak checksum `weak`,
/// in ascending order.
pub open spec fn positions(sigs: Seq<Signature>, weak: u32, from: int) -> Seq<int>
    decreases sigs.len() - from,
{
    if from < 0 || from >= sigs.len() {
        Seq::empty()
    } else if sigs[from].weak == weak {
        seq![from] + positions(sigs, weak, from + 1)
    } else {
        positions(sigs, weak, from + 1)
    }
}

/// The first of the candidates `cands` whose signature matches.
pub open spec fn first_among(
    cands: Seq<int>,
    sigs: Seq<Signature>,
    block_size: int,
    weak: u32,
    strong: Seq<u8>,
) -> Option<int>
    decreases cands.len(),
{
    if cands.len() == 0 {
        None
    } else if is_match(sigs[cands[0]], block_size, weak, strong) {
        Some(cands[0])
    } else {
        first_among(cands.drop_first(), sigs, block_size, weak, strong)
    }
}

/// Looking only at the signatures with the right weak checksum finds the same
/// match as looking at all of them.
pub proof fn lemma_first_among_positions(
    sigs: Seq<Signature>,
    block_size: int,
    weak: u32,
    strong: Seq<u8>,
    from: int,
)
    requires
        0 <= from,
    ensures
        first_among(positions(sigs, weak, from), sigs, block_size, weak, strong) == first_match(
            sigs,
            block_size,
            weak,
            strong,
            from,
        ),
    decreases sigs.len() - from,
{
    if from < sigs.len() {
        lemma_first_among_positions(sigs, block_size, weak, strong, from + 1);
        if sigs[from].weak == weak {
            let rest = positions(sigs, weak, from + 1);
            assert((seq![from] + rest).drop_first() =~= rest);
        }
    }
}

/// One more signature at the end adds its position to the list of its weak
/// checksum and to no other.
pub proof fn lemma_positions_push(sigs: Seq<Signature>, sig: Signature, weak: u32, from: int)
    requires
        0 <= from <= sigs.len(),
    ensures
        positions(sigs.push(sig), weak, from) == if sig.weak == weak {
            positions(sigs, weak, from).push(sigs.len() as int)
        } else {
            positions(sigs, weak, from)
        },
    decreases sigs.len() - from,
{
    let longer = sigs.push(sig);
    if from < sigs.len() {
        lemma_positions_push(sigs, sig, weak, from + 1);
        assert(longer[from] == sigs[from]);
        if sigs[from].weak == weak && sig.weak == weak {
            assert(seq![from] + positions(sigs, weak, from + 1).push(sigs.len() as int) =~= (
                seq![from] + positions(sigs, weak, from + 1)).push(sigs.len() as int));
        }
    } else {
        assert(positions(longer, weak, from + 1) =~= Seq::<int>::empty());
        assert(positions(sigs, weak, from) =~= Seq::<int>::empty());
        if sig.weak == weak {
            assert(seq![from] + Seq::<int>::empty() =~= Seq::<int>::empty().push(from));
        }
    }
}

/// Every listed position is the position of a signature with that weak
/// checksum.
pub proof fn lemma_positions_in_range(sigs: Seq<Signature>, weak: u32, from: int, i: int)
    requires
        0 <= from,
        0 <= i < positions(sigs, weak, from).len(),
    ensures
        from <= positions(sigs, weak, from)[i] < sigs.len(),
        sigs[positions(sigs, weak, from)[i]].weak == weak,
    decreases sigs.len() - from,
{
    if from < sigs.len() {
        if sigs[from].weak == weak {
            if i > 0 {
                lemma_positions_in_range(sigs, weak, from + 1, i - 1);
            }
        } else {
            lemma_positions_in_range(sigs, weak, from + 1, i);
        }
    }
}

/// The positions that a list of block numbers stands for.
pub open spec fn as_positions(list: Seq<usize>) -> Seq<int> {
    Seq::new(list.len(), |i: int| list[i] as int)
}

/// The list that `map` holds for `weak`; empty where it holds none.
pub open spec fn bucket(map: Map<u32, Vec<usize>>, weak: u32) -> Seq<int> {
    if map.contains_key(weak) {
        as_positions(map[weak]@)
    } else {
        Seq::empty()
    }
}

/// Whether `map` lists, for every weak checksum, exactly the signatures that
/// have it, in ascending order.
pub open spec fn indexes(map: Map<u32, Vec<usize>>, sigs: Seq<Signature>) -> bool {
    forall|weak: u32| #[trigger] bucket(map, weak) == positions(sigs, weak, 0)
}

/// Block signatures of a reference, with a table from each weak checksum to
/// the blocks that have it.
pub struct SignatureIndex {
    blocks: Vec<Block>,
    by_weak: HashMap<u32, Vec<usize>>,
}

impl SignatureIndex {
    #[verifier::type_invariant]
    spec fn well_formed(self) -> bool {
        indexes(self.by_weak@, signatures(self.blocks@))
    }

    /// The blocks that were indexed, in their order.
    pub closed spec fn blocks(&self) -> Seq<Block> {
        self.blocks@
    }

    /// Indexes `blocks` by their weak checksums.
    pub fn new(blocks: Vec<Block>) -> (index: Self)
        ensures
            index.blocks() == blocks@,
    {
        broadcast use vstd::std_specs::hash::group_hash_axioms;

        let ghost sigs = signatures(blocks@);
        let mut by_weak: HashMap<u32, Vec<usize>> = HashMap::new();
        let mut k: usize = 0;
        assert(sigs.take(0) =~= Seq::<Signature>::empty());
        while k < blocks.len()
            invariant
                k <= blocks.len(),
                sigs == signatures(blocks@),
                indexes(by_weak@, sigs.take(k as int)),
            decreases blocks.len() - k,
        {
            let weak: u32 = blocks[k].weak_checksum;
            let ghost before = by_weak@;
            let mut list: Vec<usize> = match by_weak.remove(&weak) {
                Some(list) => list,
                None => Vec::new(),
            };
            assert(as_positions(list@) == bucket(before, weak));
            list.push(k);
            by_weak.insert(weak, list);
            proof {
                let shorter = sigs.take(k as int);
                assert(sigs.take(k + 1) =~= shorter.push(sigs[k as int]));
                assert forall|w: u32| #[trigger]
                    bucket(by_weak@, w) == positions(sigs.take(k + 1), w, 0) by {
                    lemma_positions_push(shorter, sigs[k as int], w, 0);
                    assert(bucket(before, w) == positions(shorter, w, 0));
                    if w == weak {
                        assert(as_positions(list@) =~= bucket(before, weak).push(k as int));
                    }
                }
            }
            k += 1;
        }
        assert(sigs.take(k as int) =~= sigs);
        SignatureIndex { blocks, by_weak }
    }

    /// The first block of `block_size` bytes whose weak checksum is `weak`
    /// and whose digest is that of `bytes`. The digest of `bytes` is only
    /// computed where some block has the weak checksum.
    pub fn find(&self, block_size: usize, weak: u32, bytes: &[u8]) -> (found: Option<Block>)
        ensures
            match first_match(
                signatures(self.blocks()),
                block_size as int,
                weak,
                sha256(bytes@),
                0,
            ) {
                Some(k) => found == Some(self.blocks()[k]),
                None => found is None,
            },
    {
        broadcast use vstd::std_specs::hash::group_hash_axioms;

        proof {
            use_type_invariant(self);
        }
        let ghost sigs = signatures(self.blocks@);
        let ghost cands = positions(sigs, weak, 0);
        proof {
            lemma_first_among_positions(sigs, block_size as int, weak, sha256(bytes@), 0);
            assert(bucket(self.by_weak@, weak) == cands);
        }
        match self.by_weak.get(&weak) {
            None => None,
            Some(list) => {
                let strong = sha256_digest(bytes);
                let mut i: usize = 0;
                assert(cands.skip(0) =~= cands);
                while i < list.len()
                    invariant
                        i <= list.len(),
                        sigs == signatures(self.blocks@),
                        cands == as_positions(list@),
                        cands == positions(sigs, weak, 0),
                        strong@ == sha256(bytes@),
                        first_among(cands, sigs, block_size as int, weak, strong@) == first_match(
                            sigs,
                            block_size as int,
                            weak,
                            strong@,
                            0,
                        ),
                        first_among(cands, sigs, block_size as int, weak, strong@) == first_among(
                            cands.skip(i as int),
                            sigs,
                            block_size as int,
                            weak,
                            strong@,
                        ),
                    decreases list.len() - i,
                {
                    let k: usize = list[i];
                    proof {
                        lemma_positions_in_range(sigs, weak, 0, i as int);
                        assert(cands.skip(i as int)[0] == k);
                        assert(cands.skip(i as int).drop_first() =~= cands.skip(i + 1));
                    }
                    let block = &self.blocks[k];
                    assert(sigs[k as int] == block@);
                    if block.size == block_size && same_digest(&block.strong_checksum, &strong) {
                        assert(is_match(sigs[k as int], block_size as int, weak, strong@));
                        return Some(*block);
                    }
                    i += 1;
                }
                assert(cands.skip(i as int) =~= Seq::<int>::empty());
                None
            },
        }
    }
}

/// Whether two digests hold the same bytes.
pub fn same_digest(left: &[u8; 32], right: &[u8; 32]) -> (same: bool)
    ensures
        same == (left@ == right@),
{
    let mut i: usize = 0;
    while i < 32
        invariant
            i <= 32,
            forall|j: int| 0 <= j < i ==> left@[j] == right@[j],
        decreases 32 - i,
    {
        if left[i] != right[i] {
            return false;
        }
        i += 1;
    }
    assert(left@ =~= right@);
    true
}

} // verus!
