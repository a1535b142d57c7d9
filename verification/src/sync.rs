//! Block signatures, transfer tallies and the configuration shared by the
//! local and the network driver.

use crate::checksum::roll_checksum;
use crate::checksum::rolled_checksum;
use crate::checksum::sha256;
use crate::checksum::sha256_digest;
use crate::checksum::weak_checksum;
use crate::checksum::weak_checksum_of;
use flate2::Compression;
use flate2::read::GzDecoder;
use flate2::write::GzEncoder;
use std::io::Read;
use std::io::Write;
use vstd::prelude::*;
use vstd::slice::slice_subrange;
use vstd::slice::slice_to_vec;

verus! {

/// Why a sync operation was refused or could not be completed.
#[derive(Debug, Clone, Copy, PartialEq, Eq, Structural)]
pub enum SyncError {
    /// The source does not exist or is neither a file nor a directory.
    InputNotFound,
    /// Data that had to be read was not there.
    IoFailure,
    /// A network message was malformed, truncated or out of phase.
    ProtocolViolation,
    /// The configuration cannot be used: the block size is zero.
    ConfigInvalid,
}

/// Signature of one aligned block of a reference file.
#[derive(Debug, Clone, Copy, PartialEq, Eq)]
pub struct Block {
    pub offset: u64,
    pub size: usize,
    pub weak_checksum: u32,
    pub strong_checksum: [u8; 32],
}

/// Mathematical content of a [`Block`].
pub struct Signature {
    pub offset: int,
    pub length: int,
    pub weak: u32,
    pub strong: Seq<u8>,
}

impl View for Block {
    type V = Signature;

    open spec fn view(&self) -> Signature {
        Signature {
            offset: self.offset as int,
            length: self.size as int,
            weak: self.weak_checksum,
            strong: self.strong_checksum@,
        }
    }
}

/// The signatures of a list of blocks, in order.
pub open spec fn signatures(blocks: Seq<Block>) -> Seq<Signature> {
    Seq::new(blocks.len(), |k: int| blocks[k]@)
}

/// Number of blocks of `block_size` bytes that cover `len` bytes, a short last
/// block included.
pub open spec fn block_count(len: int, block_size: int) -> int {
    if len % block_size == 0 {
        len / block_size
    } else {
        len / block_size + 1
    }
}

/// The bytes of block `k` of `data`.
pub open spec fn block_bytes(data: Seq<u8>, block_size: int, k: int) -> Seq<u8> {
    let start = k * block_size;
    let end = if start + block_size <= data.len() {
        start + block_size
    } else {
        data.len() as int
    };
    data.subrange(start, end)
}

/// The signature of block `k` of `data`.
pub open spec fn signature_at(data: Seq<u8>, block_size: int, k: int) -> Signature {
    let bytes = block_bytes(data, block_size, k);
    Signature {
        offset: k * block_size,
        length: bytes.len() as int,
        weak: weak_checksum(bytes),
        strong: sha256(bytes),
    }
}

/// The signatures of `data` cut into blocks of `block_size` bytes: contiguous,
/// in order, and only the last one may be short.
pub open spec fn signatures_of(data: Seq<u8>, block_size: int) -> Seq<Signature> {
    Seq::new(
        block_count(data.len() as int, block_size) as nat,
        |k: int| signature_at(data, block_size, k),
    )
}

/// `k` blocks are exactly what covers `len` bytes when the first `k - 1` do
/// not and `k` do.
pub proof fn lemma_block_count(len: int, block_size: int, k: int)
    requires
        0 <= len,
        0 < block_size,
        0 <= k,
        len <= k * block_size,
        k > 0 ==> (k - 1) * block_size < len,
    ensures
        k == block_count(len, block_size),
{
    let q = len / block_size;
    let r = len % block_size;
    vstd::arithmetic::div_mod::lemma_fundamental_div_mod(len, block_size);
    assert(len == block_size * q + r);
    assert(0 <= r < block_size);
    if k == 0 {
        assert(q == 0 && r == 0) by (nonlinear_arith)
            requires
                len == block_size * q + r,
                0 <= r < block_size,
                len <= 0,
                0 < block_size,
                0 <= len,
        ;
    } else {
        assert(if r == 0 {
            q == k
        } else {
            q + 1 == k
        }) by (nonlinear_arith)
            requires
                len == block_size * q + r,
                0 <= r < block_size,
                len <= k * block_size,
                (k - 1) * block_size < len,
                0 < block_size,
        ;
    }
}

/// Block `k` starts inside the data exactly when `k` is less than the number
/// of blocks.
pub proof fn lemma_block_start(len: int, block_size: int, k: int)
    requires
        0 <= len,
        0 < block_size,
        0 <= k,
    ensures
        k < block_count(len, block_size) <==> k * block_size < len,
{
    let q = len / block_size;
    let r = len % block_size;
    vstd::arithmetic::div_mod::lemma_fundamental_div_mod(len, block_size);
    assert(k < block_count(len, block_size) <==> k * block_size < len) by (nonlinear_arith)
        requires
            len == block_size * q + r,
            0 <= r < block_size,
            0 <= k,
            block_count(len, block_size) == if r == 0 {
                q
            } else {
                q + 1
            },
    ;
}

/// The signatures of data cover it block by block: block `k` starts at `k`
/// times the block size, no block is empty, every block but the last has the
/// full size, and the last block ends where the data ends.
pub proof fn lemma_signatures_cover(data: Seq<u8>, block_size: int)
    requires
        0 < block_size,
    ensures
        signatures_of(data, block_size).len() == block_count(data.len() as int, block_size),
        signatures_of(data, block_size).len() == 0 <==> data.len() == 0,
        forall|k: int|
            #![trigger signatures_of(data, block_size)[k]]
            0 <= k < signatures_of(data, block_size).len() ==> {
                let sig = signatures_of(data, block_size)[k];
                &&& sig.offset == k * block_size
                &&& 0 < sig.length <= block_size
                &&& sig.offset + sig.length <= data.len()
                &&& sig.weak == weak_checksum(data.subrange(sig.offset, sig.offset + sig.length))
                &&& sig.strong == sha256(data.subrange(sig.offset, sig.offset + sig.length))
                &&& if k + 1 < signatures_of(data, block_size).len() {
                    sig.length == block_size
                } else {
                    sig.offset + sig.length == data.len()
                }
            },
{
    let sigs = signatures_of(data, block_size);
    let len = data.len() as int;
    lemma_block_start(len, block_size, 0);
    assert(0 * block_size == 0) by (nonlinear_arith);
    vstd::arithmetic::div_mod::lemma_div_pos_is_pos(len, block_size);
    assert forall|k: int| #![trigger sigs[k]] 0 <= k < sigs.len() implies {
        let sig = sigs[k];
        &&& sig.offset == k * block_size
        &&& 0 < sig.length <= block_size
        &&& sig.offset + sig.length <= data.len()
        &&& sig.weak == weak_checksum(data.subrange(sig.offset, sig.offset + sig.length))
        &&& sig.strong == sha256(data.subrange(sig.offset, sig.offset + sig.length))
        &&& if k + 1 < sigs.len() {
            sig.length == block_size
        } else {
            sig.offset + sig.length == data.len()
        }
    } by {
        lemma_block_start(len, block_size, k);
        lemma_block_start(len, block_size, k + 1);
        assert((k + 1) * block_size == k * block_size + block_size) by (nonlinear_arith);
        assert(0 <= k * block_size) by (nonlinear_arith)
            requires
                0 <= k,
                0 < block_size,
        ;
    }
}

/// The gzip stream that `flate2` writes for a byte sequence at its default
/// compression level; `None` where it reports an error.
pub uninterp spec fn gzip(data: Seq<u8>) -> Option<Seq<u8>>;

/// The bytes that `flate2` reads out of a gzip stream; `None` where it
/// reports an error.
pub uninterp spec fn gunzip(data: Seq<u8>) -> Option<Seq<u8>>;

/// Makes `std::io::Error` known as a type of which nothing is looked at.
#[verifier::external_type_specification]
#[verifier::external_body]
pub struct ExIoError(std::io::Error);

/// Writes `data` through a `flate2::write::GzEncoder` over an empty vector
/// (`new` with `Compression::default()`, `write_all`, `finish`). The
/// encoder writes into memory only, so what comes back depends on `data`
/// alone. The contract names it: the gzip stream of `data`, or nothing
/// where the encoder reports an error. It does not say that there is none.
#[verifier::external_body]
pub(crate) fn gzip_encode(data: &[u8]) -> (packed: Result<Vec<u8>, std::io::Error>)
    ensures
        match packed {
            Ok(bytes) => gzip(data@) == Some(bytes@),
            Err(_) => gzip(data@) is None,
        },
{
    let mut encoder = GzEncoder::new(Vec::new(), Compression::default());
    encoder.write_all(data)?;
    encoder.finish()
}

/// Reads `data` to its end through a `flate2::read::GzDecoder`. The
/// contract names what was read: the content of the gzip stream `data`,
/// or nothing where the decoder reports an error.
#[verifier::external_body]
pub(crate) fn gzip_decode(data: &[u8]) -> (unpacked: Result<Vec<u8>, std::io::Error>)
    ensures
        match unpacked {
            Ok(bytes) => gunzip(data@) == Some(bytes@),
            Err(_) => gunzip(data@) is None,
        },
{
    let mut decoder = GzDecoder::new(data);
    let mut unpacked = Vec::new();
    decoder.read_to_end(&mut unpacked)?;
    Ok(unpacked)
}

/// Bytes moved by a sync: `new_bytes` were written afresh, `reused_bytes` were
/// taken from the old destination.
#[derive(Debug, Clone, Copy, PartialEq, Eq, Structural)]
pub struct TransferResult {
    pub new_bytes: usize,
    pub reused_bytes: usize,
}

/// Checksums, signatures and the options of a sync.
#[derive(Debug, Clone, Copy, PartialEq, Eq, Structural)]
pub struct Syncer {
    pub block_size: usize,
    pub preserve_metadata: bool,
    pub delete_extraneous: bool,
    pub compress: bool,
}

impl Default for Syncer {
    fn default() -> (syncer: Self)
        ensures
            syncer == Syncer::initial(),
    {
        Self::new()
    }
}

impl Syncer {
    /// The configuration that [`Syncer::new`] returns.
    pub open spec fn initial() -> Syncer {
        Syncer {
            block_size: 1024,
            preserve_metadata: false,
            delete_extraneous: false,
            compress: false,
        }
    }

    /// A syncer with blocks of 1024 bytes and every option switched off.
    pub fn new() -> (syncer: Self)
        ensures
            syncer == Syncer::initial(),
    {
        Self {
            block_size: 1024,
            preserve_metadata: false,
            delete_extraneous: false,
            compress: false,
        }
    }

    /// The weak checksum of `data`.
    pub fn calculate_weak_checksum(&self, data: &[u8]) -> (sum: u32)
        ensures
            sum == weak_checksum(data@),
    {
        weak_checksum_of(data)
    }

    /// The SHA-256 digest of `data`.
    pub fn calculate_strong_checksum(&self, data: &[u8]) -> (digest: [u8; 32])
        ensures
            digest@ == sha256(data@),
    {
        sha256_digest(data)
    }

    /// The weak checksum of a window of `len` bytes after it has moved one
    /// byte on: `old_byte` left it, `new_byte` entered it, and `old_sum` was
    /// its checksum before.
    pub fn update_weak_checksum(&self, old_byte: u8, new_byte: u8, old_sum: u32, len: usize) -> (sum:
        u32)
        ensures
            sum == rolled_checksum(old_sum, old_byte, new_byte, len as nat),
    {
        roll_checksum(old_sum, old_byte, new_byte, len)
    }

    /// The signatures of the blocks of `data`.
    pub fn calculate_checksums(&self, data: &[u8]) -> (blocks: Vec<Block>)
        requires
            self.block_size > 0,
        ensures
            signatures(blocks@) == signatures_of(data@, self.block_size as int),
    {
        let block_size: usize = self.block_size;
        let mut blocks: Vec<Block> = Vec::new();
        let mut offset: usize = 0;
        assert(blocks.len() * block_size == 0) by (nonlinear_arith)
            requires
                blocks.len() == 0,
        ;
        while offset < data.len()
            invariant
                block_size > 0,
                offset <= data.len(),
                offset == blocks.len() * block_size || offset == data.len(),
                offset < data.len() ==> offset == blocks.len() * block_size,
                blocks.len() > 0 ==> (blocks.len() - 1) * block_size < data.len(),
                blocks.len() * block_size >= offset,
                forall|k: int|
                    0 <= k < blocks.len() ==> (#[trigger] blocks[k])@ == signature_at(
                        data@,
                        block_size as int,
                        k,
                    ),
            decreases data.len() - offset,
        {
            let size: usize = if data.len() - offset < block_size {
                data.len() - offset
            } else {
                block_size
            };
            let chunk = slice_subrange(data, offset, offset + size);
            let block = Block {
                offset: offset as u64,
                size,
                weak_checksum: weak_checksum_of(chunk),
                strong_checksum: sha256_digest(chunk),
            };
            proof {
                let k = blocks.len() as int;
                assert(chunk@ == block_bytes(data@, block_size as int, k));
                assert((k + 1) * block_size == k * block_size + block_size) by (nonlinear_arith);
            }
            blocks.push(block);
            offset += size;
        }
        proof {
            lemma_block_count(data.len() as int, block_size as int, blocks.len() as int);
            assert(signatures(blocks@) =~= signatures_of(data@, block_size as int));
        }
        blocks
    }

    /// The form in which `data` travels: its gzip stream if compression is
    /// switched on, else `data` itself. Data that the encoder cannot pack is
    /// an `IoFailure`.
    pub fn compress_data(&self, data: &[u8]) -> (packed: Result<Vec<u8>, SyncError>)
        ensures
            match packed {
                Ok(bytes) => if self.compress {
                    gzip(data@) == Some(bytes@)
                } else {
                    bytes@ == data@
                },
                Err(e) => self.compress && gzip(data@) is None && e == SyncError::IoFailure,
            },
    {
        if !self.compress {
            return Ok(slice_to_vec(data));
        }
        match gzip_encode(data) {
            Ok(bytes) => Ok(bytes),
            Err(_) => Err(SyncError::IoFailure),
        }
    }

    /// The data that travelled as `compressed_data`: the content of that
    /// gzip stream if compression is switched on, else `compressed_data`
    /// itself. What is no gzip stream is an `IoFailure`.
    pub fn decompress_data(&self, compressed_data: &[u8]) -> (unpacked: Result<
        Vec<u8>,
        SyncError,
    >)
        ensures
            match unpacked {
                Ok(bytes) => if self.compress {
                    gunzip(compressed_data@) == Some(bytes@)
                } else {
                    bytes@ == compressed_data@
                },
                Err(e) => self.compress && gunzip(compressed_data@) is None && e
                    == SyncError::IoFailure,
            },
    {
        if !self.compress {
            return Ok(slice_to_vec(compressed_data));
        }
        match gzip_decode(compressed_data) {
            Ok(bytes) => Ok(bytes),
            Err(_) => Err(SyncError::IoFailure),
        }
    }

    /// A full copy of `source`, all of it counted as new bytes.
    pub fn copy_file(&self, source: &[u8]) -> (copy: (Vec<u8>, TransferResult))
        ensures
            copy.0@ == source@,
            copy.1 == (TransferResult { new_bytes: source.len(), reused_bytes: 0 }),
    {
        (slice_to_vec(source), TransferResult { new_bytes: source.len(), reused_bytes: 0 })
    }
}

} // verus!
