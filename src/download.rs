//! Fetching one piece: the plan of 16 KiB block requests, the pipeline of
//! request windows, the checks on each `Piece` reply, and the final SHA-1
//! check of the assembled piece. The socket work is left to the caller, which
//! sends what `next_requests` hands out and feeds each reply to `accept_block`.
use vstd::prelude::*;

use crate::peer::{be_bytes, be_value, push_be_u32, read_be_u32};
use crate::torrent::{sha1_digest, sha1_of};
use crate::value::bytes_equal;

verus! {

/// The transfer unit: 16 KiB.
pub const BLOCK_SIZE: u32 = 16384;

/// How many requests are in flight at most.
pub const PIPELINE_DEPTH: usize = 5;

/// The number of blocks in a piece of `len` bytes: ⌈len / BLOCK_SIZE⌉.
pub open spec fn block_count_of(len: int) -> int {
    if len % 16384 == 0 {
        len / 16384
    } else {
        len / 16384 + 1
    }
}

/// The length of block `k` of a piece of `len` bytes.
pub open spec fn block_size_of(len: int, k: int) -> int {
    let rem = len % 16384;
    if k == block_count_of(len) - 1 && rem != 0 {
        rem
    } else {
        16384
    }
}

/// The total length of the first `k` blocks.
pub open spec fn blocks_total(len: int, k: int) -> int
    decreases k,
{
    if k <= 0 {
        0
    } else {
        blocks_total(len, k - 1) + block_size_of(len, k - 1)
    }
}

proof fn lemma_full_blocks_total(len: int, k: int)
    requires
        0 <= len,
        0 <= k <= block_count_of(len) - 1,
    ensures
        blocks_total(len, k) == k * 16384,
    decreases k,
{
    if k > 0 {
        lemma_full_blocks_total(len, k - 1);
        assert(block_size_of(len, k - 1) == 16384);
    }
}

/// Block-sizing law: every block but the last has 16 KiB, the last has
/// between 1 byte and 16 KiB, and together they make the piece.
pub proof fn law_block_sizes(len: int)
    requires
        0 <= len,
    ensures
        blocks_total(len, block_count_of(len)) == len,
        forall|k: int| 0 <= k < block_count_of(len) - 1 ==> #[trigger] block_size_of(len, k) == 16384,
        block_count_of(len) > 0 ==> 0 < block_size_of(len, block_count_of(len) - 1) <= 16384,
        len > 0 <==> block_count_of(len) > 0,
{
    let q = len / 16384;
    let r = len % 16384;
    vstd::arithmetic::div_mod::lemma_fundamental_div_mod(len, 16384);
    if r == 0 {
        if q > 0 {
            lemma_full_blocks_total(len, q - 1);
            assert(blocks_total(len, q) == (q - 1) * 16384 + 16384);
        }
    } else {
        lemma_full_blocks_total(len, q);
        assert(blocks_total(len, q + 1) == q * 16384 + r);
    }
}

/// The number of blocks in a piece of `piece_len` bytes.
pub fn block_count(piece_len: u32) -> (r: u32)
    ensures
        r == block_count_of(piece_len as int),
{
    if piece_len % BLOCK_SIZE == 0 {
        piece_len / BLOCK_SIZE
    } else {
        piece_len / BLOCK_SIZE + 1
    }
}

/// The length of block `k` of a piece of `piece_len` bytes.
pub fn block_len(piece_len: u32, k: u32) -> (r: u32)
    requires
        k < block_count_of(piece_len as int),
    ensures
        r == block_size_of(piece_len as int, k as int),
{
    let n = block_count(piece_len);
    let rem = piece_len % BLOCK_SIZE;
    if k == n - 1 && rem != 0 {
        rem
    } else {
        BLOCK_SIZE
    }
}

/// A request for `length` bytes at offset `begin` of piece `index`.
#[derive(Debug, Clone, Copy, PartialEq, Eq, Structural)]
pub struct BlockRequest {
    pub index: u32,
    pub begin: u32,
    pub length: u32,
}

/// Block `k` of piece `index`, `len` bytes long.
pub open spec fn planned_block(index: u32, len: int, k: int) -> BlockRequest {
    BlockRequest { index, begin: (k * 16384) as u32, length: block_size_of(len, k) as u32 }
}

impl BlockRequest {
    /// The payload of a `Request` message: index, begin and length, each as
    /// four big-endian bytes.
    pub fn to_payload(&self) -> (r: Vec<u8>)
        ensures
            r@ == be_bytes(self.index) + be_bytes(self.begin) + be_bytes(self.length),
    {
        let mut out: Vec<u8> = Vec::new();
        push_be_u32(&mut out, self.index);
        push_be_u32(&mut out, self.begin);
        push_be_u32(&mut out, self.length);
        assert(out@ =~= be_bytes(self.index) + be_bytes(self.begin) + be_bytes(self.length));
        out
    }
}

/// The requests that fetch piece `index` of `piece_len` bytes, in order.
pub fn plan_blocks(index: u32, piece_len: u32) -> (r: Vec<BlockRequest>)
    ensures
        r@.len() == block_count_of(piece_len as int),
        forall|k: int| 0 <= k < r@.len() ==> #[trigger] r@[k] == planned_block(index, piece_len as int, k),
{
    let n = block_count(piece_len);
    let mut out: Vec<BlockRequest> = Vec::new();
    let mut k: u32 = 0;
    while k < n
        invariant
            n == block_count_of(piece_len as int),
            k <= n,
            out@.len() == k,
            forall|j: int| 0 <= j < k ==> #[trigger] out@[j] == planned_block(index, piece_len as int, j),
        decreases n - k,
    {
        assert(k * 16384 < 0x1_0000_0000) by (nonlinear_arith)
            requires
                k < n,
                n == block_count_of(piece_len as int),
                piece_len <= 0xffff_ffff,
        ;
        let length = block_len(piece_len, k);
        out.push(BlockRequest { index, begin: k * BLOCK_SIZE, length });
        k = k + 1;
    }
    out
}

/// Why a `Piece` reply, or an assembled piece, is refused.
#[derive(Debug, Clone, Copy, PartialEq, Eq)]
pub enum DownloadError {
    /// A reply came while no request was outstanding.
    NothingPending,
    /// The payload is shorter than its 8-byte header.
    ShortPayload,
    /// The reply is for another piece.
    WrongIndex,
    /// The reply is not for the next block requested.
    WrongOffset,
    /// The reply carries another number of bytes than requested.
    WrongLength,
    /// The assembled piece does not have the expected SHA-1.
    HashMismatch,
}

/// The state of fetching one piece over one session: which blocks were
/// requested, which were received, and the bytes received so far.
#[derive(Debug)]
pub struct PieceDownload {
    index: u32,
    length: u32,
    blocks: Vec<BlockRequest>,
    requested: usize,
    received: usize,
    data: Vec<u8>,
}

impl PieceDownload {
    pub closed spec fn spec_index(&self) -> u32 {
        self.index
    }

    pub closed spec fn spec_length(&self) -> u32 {
        self.length
    }

    /// How many blocks have been requested.
    pub closed spec fn spec_requested(&self) -> int {
        self.requested as int
    }

    /// How many blocks have been received.
    pub closed spec fn spec_received(&self) -> int {
        self.received as int
    }

    /// The bytes received so far.
    pub closed spec fn spec_data(&self) -> Seq<u8> {
        self.data@
    }

    /// Requests follow the plan; replies come in request order; the data
    /// holds exactly the blocks received.
    pub closed spec fn wf(&self) -> bool {
        &&& self.blocks@.len() == block_count_of(self.length as int)
        &&& forall|k: int| 0 <= k < self.blocks@.len() ==> #[trigger] self.blocks@[k] == planned_block(self.index, self.length as int, k)
        &&& self.received <= self.requested <= self.blocks@.len()
        &&& self.data@.len() == blocks_total(self.length as int, self.received as int)
    }

    /// The number of blocks of the piece.
    pub open spec fn spec_block_count(&self) -> int {
        block_count_of(self.spec_length() as int)
    }

    /// Starts fetching piece `index` of `length` bytes.
    pub fn new(index: u32, length: u32) -> (r: Self)
        ensures
            r.wf(),
            r.spec_index() == index,
            r.spec_length() == length,
            r.spec_requested() == 0,
            r.spec_received() == 0,
            r.spec_data() == Seq::<u8>::empty(),
    {
        PieceDownload { index, length, blocks: plan_blocks(index, length), requested: 0, received: 0, data: Vec::new() }
    }

    /// The next window of requests to send: when every request sent so far
    /// has been answered, the next (up to five) planned blocks; otherwise none.
    pub fn next_requests(&mut self) -> (r: Vec<BlockRequest>)
        requires
            old(self).wf(),
        ensures
            final(self).wf(),
            final(self).spec_index() == old(self).spec_index(),
            final(self).spec_length() == old(self).spec_length(),
            final(self).spec_received() == old(self).spec_received(),
            final(self).spec_data() == old(self).spec_data(),
            final(self).spec_requested() == if old(self).spec_received() == old(self).spec_requested() {
                if old(self).spec_requested() + 5 <= old(self).spec_block_count() {
                    old(self).spec_requested() + 5
                } else {
                    old(self).spec_block_count()
                }
            } else {
                old(self).spec_requested()
            },
            r@.len() == final(self).spec_requested() - old(self).spec_requested(),
            forall|j: int| 0 <= j < r@.len() ==> #[trigger] r@[j] == planned_block(
                old(self).spec_index(),
                old(self).spec_length() as int,
                old(self).spec_requested() + j,
            ),
    {
        let mut out: Vec<BlockRequest> = Vec::new();
        if self.received < self.requested {
            return out;
        }
        let start = self.requested;
        let end = if self.blocks.len() - start >= PIPELINE_DEPTH {
            start + PIPELINE_DEPTH
        } else {
            self.blocks.len()
        };
        let mut k = start;
        while k < end
            invariant
                start <= k <= end <= self.blocks@.len(),
                out@.len() == k - start,
                forall|j: int| 0 <= j < out@.len() ==> #[trigger] out@[j] == self.blocks@[start + j],
            decreases end - k,
        {
            out.push(self.blocks[k]);
            k = k + 1;
        }
        self.requested = end;
        out
    }

    /// Takes the payload `<index><begin><data>` of a `Piece` reply, which must
    /// answer the oldest outstanding request. On success its data is appended;
    /// on failure nothing changes.
    pub fn accept_block(&mut self, payload: &[u8]) -> (r: Result<(), DownloadError>)
        requires
            old(self).wf(),
        ensures
            final(self).wf(),
            final(self).spec_index() == old(self).spec_index(),
            final(self).spec_length() == old(self).spec_length(),
            final(self).spec_requested() == old(self).spec_requested(),
            r is Ok ==> {
                let b = planned_block(old(self).spec_index(), old(self).spec_length() as int, old(self).spec_received());
                &&& old(self).spec_received() < old(self).spec_requested()
                &&& payload@.len() >= 8
                &&& be_value(payload@[0], payload@[1], payload@[2], payload@[3]) == b.index
                &&& be_value(payload@[4], payload@[5], payload@[6], payload@[7]) == b.begin
                &&& payload@.len() - 8 == b.length
                &&& final(self).spec_received() == old(self).spec_received() + 1
                &&& final(self).spec_data() == old(self).spec_data() + payload@.subrange(8, payload@.len() as int)
            },
            r is Err ==> {
                &&& final(self).spec_received() == old(self).spec_received()
                &&& final(self).spec_data() == old(self).spec_data()
            },
            r == Err::<(), DownloadError>(DownloadError::NothingPending) <==> old(self).spec_received() == old(self).spec_requested(),
            r == Err::<(), DownloadError>(DownloadError::ShortPayload) <==> old(self).spec_received() < old(self).spec_requested() && payload@.len() < 8,
            ({
                let b = planned_block(old(self).spec_index(), old(self).spec_length() as int, old(self).spec_received());
                let pending = old(self).spec_received() < old(self).spec_requested() && payload@.len() >= 8;
                let index_ok = be_value(payload@[0], payload@[1], payload@[2], payload@[3]) == b.index;
                let begin_ok = be_value(payload@[4], payload@[5], payload@[6], payload@[7]) == b.begin;
                &&& (r == Err::<(), DownloadError>(DownloadError::WrongIndex) <==> pending && !index_ok)
                &&& (r == Err::<(), DownloadError>(DownloadError::WrongOffset) <==> pending && index_ok && !begin_ok)
                &&& (r == Err::<(), DownloadError>(DownloadError::WrongLength) <==> pending && index_ok && begin_ok && payload@.len() - 8 != b.length)
                &&& (r is Ok <==> pending && index_ok && begin_ok && payload@.len() - 8 == b.length)
            }),
    {
        if self.received >= self.requested {
            return Err(DownloadError::NothingPending);
        }
        if payload.len() < 8 {
            return Err(DownloadError::ShortPayload);
        }
        let expected = self.blocks[self.received];
        let index = read_be_u32(payload, 0);
        let begin = read_be_u32(payload, 4);
        if index != expected.index {
            return Err(DownloadError::WrongIndex);
        }
        if begin != expected.begin {
            return Err(DownloadError::WrongOffset);
        }
        if payload.len() - 8 != expected.length as usize {
            return Err(DownloadError::WrongLength);
        }
        let mut chunk = vstd::slice::slice_to_vec(vstd::slice::slice_subrange(payload, 8, payload.len()));
        self.data.append(&mut chunk);
        self.received = self.received + 1;
        proof {
            assert(blocks_total(self.length as int, self.received as int) == blocks_total(self.length as int, self.received - 1) + block_size_of(self.length as int, self.received - 1));
        }
        Ok(())
    }

    /// Every block of the piece has been received.
    pub fn is_complete(&self) -> (r: bool)
        requires
            self.wf(),
        ensures
            r == (self.spec_received() == self.spec_block_count()),
    {
        self.received == self.blocks.len()
    }

    /// The assembled piece, provided its SHA-1 is `expected`.
    pub fn finish(self, expected: &[u8; 20]) -> (r: Result<Vec<u8>, DownloadError>)
        requires
            self.wf(),
            self.spec_received() == self.spec_block_count(),
        ensures
            match r {
                Ok(d) => d@ == self.spec_data() && sha1_of(d@) == expected@ && d@.len() == self.spec_length(),
                Err(e) => e == DownloadError::HashMismatch && sha1_of(self.spec_data()) != expected@,
            },
    {
        proof {
            law_block_sizes(self.length as int);
        }
        let digest = sha1_digest(self.data.as_slice());
        if !bytes_equal(digest.as_slice(), expected.as_slice()) {
            return Err(DownloadError::HashMismatch);
        }
        Ok(self.data)
    }
}

/// The payload of the `Request` message for each block, in order.
pub fn request_payloads(requests: &Vec<BlockRequest>) -> (r: Vec<Vec<u8>>)
    ensures
        r@.len() == requests@.len(),
        forall|j: int| 0 <= j < r@.len() ==> (#[trigger] r@[j])@ == be_bytes(requests@[j].index) + be_bytes(requests@[j].begin) + be_bytes(requests@[j].length),
{
    let mut out: Vec<Vec<u8>> = Vec::new();
    let mut j: usize = 0;
    while j < requests.len()
        invariant
            j <= requests@.len(),
            out@.len() == j,
            forall|i: int| 0 <= i < j ==> (#[trigger] out@[i])@ == be_bytes(requests@[i].index) + be_bytes(requests@[i].begin) + be_bytes(requests@[i].length),
        decreases requests@.len() - j,
    {
        out.push(requests[j].to_payload());
        j = j + 1;
    }
    out
}

} // verus!
