//! The fixed-size page format: an 8-byte identity/sentinel field, a
//! 1008-byte payload, and an 8-byte forward-chain pointer, 1024 bytes in all.
//!
//! The identity field is sentinel-overloaded: `0` marks a tombstone (the page
//! is logically deleted), `u64::MAX` marks a reserved future index page, and
//! any other value is a live page identifier. A tombstoned block encodes as
//! 1024 zero bytes regardless of its payload and chain pointer.
use vstd::prelude::*;
use vstd::bytes::{spec_u64_to_le_bytes, spec_u64_from_le_bytes, u64_to_le_bytes,
    u64_from_le_bytes, lemma_auto_spec_u64_to_from_le_bytes};
use vstd::slice::{slice_to_vec, slice_subrange};
use crate::serialization::{ToBytes, FromBytes, FromBytesError, SizeExtraction};

verus! {

/// Bytes of payload in one block.
pub const BLOCK_DATA_SIZE: usize = 1008;

/// Bytes of one encoded block: 8 (identity) + 1008 (payload) + 8 (next).
pub const TOTAL_BLOCK_SIZE: usize = 1024;

/// A requested payload read or write does not fit the 1008-byte bound.
/// `size + offset == total` and `total > 1008`.
#[derive(Debug, Clone, Copy, PartialEq, Eq, Structural)]
pub struct CapacityError {
    /// The requested length.
    pub size: usize,
    /// The requested starting offset.
    pub offset: usize,
    /// `size + offset`.
    pub total: usize,
}

impl CapacityError {
    /// Relies on the `format!` macro of std to render the numeric fields.
    #[verifier::external_body]
    pub fn message(&self) -> String {
        let size = self.size;
        let offset = self.offset;
        let total = self.total;
        format!("Data size {size} + offset {offset} = {total} exceeds block capacity (1008)")
    }
}

/// The mathematical value of a block: its identity, payload bytes and
/// forward-chain pointer.
pub struct BlockView {
    pub id: u64,
    pub data: Seq<u8>,
    pub next: u64,
}

impl BlockView {
    /// A well-formed block holds exactly 1008 payload bytes.
    pub open spec fn wf(self) -> bool {
        self.data.len() == BLOCK_DATA_SIZE
    }

    /// The canonical 1024-byte encoding: a tombstone is all zeros; any other
    /// block is identity, payload and next pointer, little-endian.
    pub open spec fn enc(self) -> Seq<u8> {
        if self.id == 0 {
            Seq::new(TOTAL_BLOCK_SIZE as nat, |i: int| 0u8)
        } else {
            spec_u64_to_le_bytes(self.id) + self.data + spec_u64_to_le_bytes(self.next)
        }
    }
}

/// A fixed-size page.
#[derive(Debug, Clone)]
pub struct Block {
    id: u64,
    data: Vec<u8>,
    next_block_offset: u64,
}

impl View for Block {
    type V = BlockView;

    closed spec fn view(&self) -> BlockView {
        BlockView { id: self.id, data: self.data@, next: self.next_block_offset }
    }
}

/// A vector of `n` zero bytes.
fn zero_vec(n: usize) -> (r: Vec<u8>)
    ensures
        r@ == Seq::new(n as nat, |i: int| 0u8),
{
    let mut out: Vec<u8> = Vec::new();
    let mut i: usize = 0;
    while i < n
        invariant
            i <= n,
            out@.len() == i,
            forall|j: int| 0 <= j < i ==> out@[j] == 0u8,
        decreases n - i,
    {
        out.push(0u8);
        i = i + 1;
    }
    proof {
        assert(out@ =~= Seq::new(n as nat, |i: int| 0u8));
    }
    out
}

impl Block {
    /// A block starts out as a tombstone: identity 0, zeroed payload, no
    /// next page.
    pub fn new() -> (r: Block)
        ensures
            r@.wf(),
            r@.id == 0,
            r@.data == Seq::new(BLOCK_DATA_SIZE as nat, |i: int| 0u8),
            r@.next == 0,
    {
        Block { id: 0, data: zero_vec(BLOCK_DATA_SIZE), next_block_offset: 0 }
    }

    pub fn get_id(&self) -> (r: u64)
        ensures
            r == self@.id,
    {
        self.id
    }

    pub fn set_id(&mut self, id: u64)
        ensures
            final(self)@ == (BlockView { id, ..old(self)@ }),
    {
        self.id = id;
    }

    /// Mark this block as a reserved index page (identity `u64::MAX`).
    pub fn set_index(&mut self)
        ensures
            final(self)@ == (BlockView { id: u64::MAX, ..old(self)@ }),
    {
        self.id = u64::MAX;
    }

    /// Mark this block as deleted (identity 0). Its encoding becomes 1024
    /// zero bytes.
    pub fn set_deleted(&mut self)
        ensures
            final(self)@ == (BlockView { id: 0, ..old(self)@ }),
    {
        self.id = 0;
    }

    pub fn is_deleted(&self) -> (r: bool)
        ensures
            r == (self@.id == 0),
    {
        self.get_id() == 0
    }

    pub fn is_index(&self) -> (r: bool)
        ensures
            r == (self@.id == u64::MAX),
    {
        self.get_id() == u64::MAX
    }

    /// Copy `data` into the payload starting at `offset`. Succeeds exactly
    /// when `offset + data.len() <= 1008`; otherwise reports the requested
    /// length, offset and total, and leaves the block unchanged.
    pub fn set_data(&mut self, data: &[u8], offset: usize) -> (r: Result<(), CapacityError>)
        requires
            old(self)@.wf(),
            offset + data@.len() <= usize::MAX,
        ensures
            final(self)@.wf(),
            r is Ok <==> offset + data@.len() <= BLOCK_DATA_SIZE,
            r is Ok ==> final(self)@ == (BlockView {
                data: old(self)@.data.take(offset as int) + data@
                    + old(self)@.data.skip(offset + data@.len()),
                ..old(self)@
            }),
            r matches Err(e) ==> final(self)@ == old(self)@
                && e == (CapacityError {
                    size: data@.len() as usize,
                    offset,
                    total: (offset + data@.len()) as usize,
                }),
    {
        if offset + data.len() > BLOCK_DATA_SIZE {
            return Err(CapacityError {
                size: data.len(),
                offset,
                total: offset + data.len(),
            });
        }
        let mut i: usize = 0;
        while i < data.len()
            invariant
                offset + data@.len() <= BLOCK_DATA_SIZE,
                i <= data@.len(),
                self@.id == old(self)@.id,
                self@.next == old(self)@.next,
                self@.data.len() == old(self)@.data.len() == BLOCK_DATA_SIZE,
                forall|j: int| 0 <= j < offset ==> self@.data[j] == old(self)@.data[j],
                forall|j: int| 0 <= j < i ==> self@.data[offset + j] == data@[j],
                forall|j: int| offset + data@.len() <= j < BLOCK_DATA_SIZE
                    ==> self@.data[j] == old(self)@.data[j],
            decreases data@.len() - i,
        {
            self.data[offset + i] = data[i];
            i = i + 1;
        }
        proof {
            assert(self@.data =~= old(self)@.data.take(offset as int) + data@
                + old(self)@.data.skip(offset + data@.len()));
        }
        Ok(())
    }

    /// Copy `size` payload bytes starting at `offset`. Succeeds exactly when
    /// `size + offset <= 1008`.
    pub fn get_data(&self, size: usize, offset: usize) -> (r: Result<Vec<u8>, CapacityError>)
        requires
            self@.wf(),
            size + offset <= usize::MAX,
        ensures
            r is Ok <==> size + offset <= BLOCK_DATA_SIZE,
            r matches Ok(v) ==> v@ == self@.data.subrange(offset as int, offset + size),
            r matches Err(e) ==> e == (CapacityError {
                size,
                offset,
                total: (size + offset) as usize,
            }),
    {
        if size + offset > BLOCK_DATA_SIZE {
            return Err(CapacityError { size, offset, total: size + offset });
        }
        Ok(slice_to_vec(slice_subrange(self.data.as_slice(), offset, offset + size)))
    }

    pub fn set_next_block(&mut self, offset: u64)
        ensures
            final(self)@ == (BlockView { next: offset, ..old(self)@ }),
    {
        self.next_block_offset = offset;
    }

    pub fn get_next_block(&self) -> (r: u64)
        ensures
            r == self@.next,
    {
        self.next_block_offset
    }
}

impl Default for Block {
    /// The same pristine tombstone as `Block::new`.
    fn default() -> (r: Block)
        ensures
            r@.wf(),
            r@.id == 0,
            r@.data == Seq::new(BLOCK_DATA_SIZE as nat, |i: int| 0u8),
            r@.next == 0,
    {
        Block::new()
    }
}

impl ToBytes for Block {
    open spec fn enc(&self) -> Seq<u8> {
        self@.enc()
    }

    fn to_bytes_vec(&self) -> (r: Vec<u8>)
        ensures
            r@ == self.enc(),
    {
        if self.id == 0 {
            zero_vec(TOTAL_BLOCK_SIZE)
        } else {
            let mut out = u64_to_le_bytes(self.id);
            let mut payload = self.data.clone();
            let mut tail = u64_to_le_bytes(self.next_block_offset);
            out.append(&mut payload);
            out.append(&mut tail);
            out
        }
    }
}

impl FromBytes for Block {
    /// Deletion erases a page's encoded form, so only a pristine tombstone
    /// (zeroed payload, no next pointer) or a live block decodes back to an
    /// equal value; but every well-formed block's encoding decodes to a block
    /// with the same encoding.
    open spec fn codec_wf(&self) -> bool {
        self@.wf()
    }

    open spec fn stream_ok(rem: Seq<u8>, r: Result<Self, FromBytesError>, consumed: int) -> bool {
        if rem.len() < TOTAL_BLOCK_SIZE {
            r == Err::<Block, FromBytesError>(FromBytesError::TruncatedInput) && consumed == 0
        } else {
            let frame = rem.take(TOTAL_BLOCK_SIZE as int);
            match r {
                Ok(blk) => blk@.wf() && consumed == TOTAL_BLOCK_SIZE
                    && if spec_u64_from_le_bytes(frame.take(8)) == 0 {
                        blk@.id == 0
                            && blk@.data == Seq::new(BLOCK_DATA_SIZE as nat, |i: int| 0u8)
                            && blk@.next == 0
                    } else {
                        blk@.id == spec_u64_from_le_bytes(frame.take(8))
                            && blk@.data == frame.subrange(8, 8 + BLOCK_DATA_SIZE)
                            && blk@.next == spec_u64_from_le_bytes(
                                frame.subrange(8 + BLOCK_DATA_SIZE, TOTAL_BLOCK_SIZE as int),
                            )
                    },
                Err(_) => false,
            }
        }
    }

    fn read_from(source: &mut crate::serialization::ByteStream) -> (r: Result<Self, FromBytesError>) {
        match source.read_exact(TOTAL_BLOCK_SIZE) {
            None => Err(FromBytesError::TruncatedInput),
            Some(buf) => Self::from_bytes_vec(buf.as_slice()),
        }
    }

    proof fn lemma_stream_round_trip(
        v: &Self,
        rest: Seq<u8>,
        r: Result<Self, FromBytesError>,
        consumed: int,
    ) {
        lemma_auto_spec_u64_to_from_le_bytes();
        assert(v.enc().len() == TOTAL_BLOCK_SIZE);
        let whole = v.enc() + rest;
        assert(whole.take(TOTAL_BLOCK_SIZE as int) =~= v.enc());
        let blk = r->Ok_0;
        if v@.id == 0 {
            lemma_zero_le_bytes();
            let zeros = Seq::new(TOTAL_BLOCK_SIZE as nat, |i: int| 0u8);
            assert(v.enc().take(8) =~= spec_u64_to_le_bytes(0u64));
            assert(r is Ok);
            assert(blk.enc() =~= v.enc());
        } else {
            assert(v.enc().take(8) =~= spec_u64_to_le_bytes(v@.id));
            assert(r is Ok);
            assert(blk@.id == v@.id);
            assert(blk@.data =~= v@.data) by {
                assert(v.enc().subrange(8, 8 + BLOCK_DATA_SIZE) =~= v@.data);
            }
            assert(blk@.next == v@.next) by {
                assert(v.enc().subrange(8 + BLOCK_DATA_SIZE, TOTAL_BLOCK_SIZE as int)
                    =~= spec_u64_to_le_bytes(v@.next));
            }
            assert(blk.enc() =~= v.enc());
        }
    }

    open spec fn strat() -> SizeExtraction {
        SizeExtraction::Constant(TOTAL_BLOCK_SIZE as usize)
    }

    open spec fn dec_ok(b: Seq<u8>, r: Result<Self, FromBytesError>) -> bool {
        match r {
            Ok(blk) => b.len() == TOTAL_BLOCK_SIZE && blk@.wf()
                && if spec_u64_from_le_bytes(b.take(8)) == 0 {
                    // Tombstone: payload and next pointer are don't-care
                    // bytes and decode as empty/zero.
                    blk@.id == 0
                        && blk@.data == Seq::new(BLOCK_DATA_SIZE as nat, |i: int| 0u8)
                        && blk@.next == 0
                } else {
                    blk@.id == spec_u64_from_le_bytes(b.take(8))
                        && blk@.data == b.subrange(8, 8 + BLOCK_DATA_SIZE)
                        && blk@.next == spec_u64_from_le_bytes(
                            b.subrange(8 + BLOCK_DATA_SIZE, TOTAL_BLOCK_SIZE as int),
                        )
                },
            Err(e) => b.len() != TOTAL_BLOCK_SIZE && e == FromBytesError::ReadLenError,
        }
    }

    fn get_size_strategy() -> (r: SizeExtraction)
        ensures
            r == Self::strat(),
    {
        SizeExtraction::Constant(TOTAL_BLOCK_SIZE)
    }

    fn from_bytes_vec(bytes: &[u8]) -> (r: Result<Self, FromBytesError>)
        ensures
            Self::dec_ok(bytes@, r),
    {
        if bytes.len() != TOTAL_BLOCK_SIZE {
            return Err(FromBytesError::ReadLenError);
        }
        let head = slice_subrange(bytes, 0, 8);
        let id = u64_from_le_bytes(head);
        proof {
            assert(head@ =~= bytes@.take(8));
        }
        if id == 0 {
            Ok(Block::new())
        } else {
            let data = slice_to_vec(slice_subrange(bytes, 8, 8 + BLOCK_DATA_SIZE));
            let next = u64_from_le_bytes(slice_subrange(bytes, 8 + BLOCK_DATA_SIZE,
                TOTAL_BLOCK_SIZE));
            Ok(Block { id, data, next_block_offset: next })
        }
    }
}

/// The tombstone law: a deleted block encodes as exactly 1024 zero bytes,
/// and decoding those bytes yields a block that reports itself deleted.
pub proof fn lemma_tombstone(b: Block, r: Result<Block, FromBytesError>)
    requires
        b@.id == 0,
        Block::dec_ok(b.enc(), r),
    ensures
        b.enc() == Seq::new(TOTAL_BLOCK_SIZE as nat, |i: int| 0u8),
        r matches Ok(blk) && blk@.id == 0,
{
    lemma_auto_spec_u64_to_from_le_bytes();
    let zeros = Seq::new(TOTAL_BLOCK_SIZE as nat, |i: int| 0u8);
    lemma_zero_le_bytes();
    assert(zeros.take(8) =~= spec_u64_to_le_bytes(0u64));
}

/// Zero encodes as eight zero bytes.
proof fn lemma_zero_le_bytes()
    ensures
        spec_u64_to_le_bytes(0u64) == Seq::new(8, |i: int| 0u8),
{
    vstd::bytes::spec_u64_to_le_bytes_to_open(0u64);
    assert((0u64 & 0xff) == 0) by (bit_vector);
    assert(((0u64 >> 8) & 0xff) == 0) by (bit_vector);
    assert(((0u64 >> 16) & 0xff) == 0) by (bit_vector);
    assert(((0u64 >> 24) & 0xff) == 0) by (bit_vector);
    assert(((0u64 >> 32) & 0xff) == 0) by (bit_vector);
    assert(((0u64 >> 40) & 0xff) == 0) by (bit_vector);
    assert(((0u64 >> 48) & 0xff) == 0) by (bit_vector);
    assert(((0u64 >> 56) & 0xff) == 0) by (bit_vector);
    assert(vstd::bytes::spec_u64_to_le_bytes_open(0u64) =~= Seq::new(8, |i: int| 0u8));
}

/// The sentinel-exclusivity law: no block is both deleted and an index page,
/// because the two sentinels differ.
pub proof fn lemma_sentinel_exclusive(b: Block)
    ensures
        !((b@.id == 0) && (b@.id == u64::MAX)),
{
}

/// The round-trip law for blocks: decoding the encoding of a live block (or
/// of a pristine tombstone) gives the block back.
pub proof fn lemma_round_trip_block(b: Block, r: Result<Block, FromBytesError>)
    requires
        b@.wf(),
        b@.id == 0 ==> b@.data == Seq::new(BLOCK_DATA_SIZE as nat, |i: int| 0u8) && b@.next == 0,
        Block::dec_ok(b.enc(), r),
    ensures
        r matches Ok(blk) && blk@ == b@,
{
    lemma_auto_spec_u64_to_from_le_bytes();
    if b@.id == 0 {
        lemma_tombstone(b, r);
        let blk = r->Ok_0;
        assert(blk@ =~= b@);
    } else {
        let e = b.enc();
        assert(e.take(8) =~= spec_u64_to_le_bytes(b@.id));
        assert(e.subrange(8, 8 + BLOCK_DATA_SIZE) =~= b@.data);
        assert(e.subrange(8 + BLOCK_DATA_SIZE, TOTAL_BLOCK_SIZE as int)
            =~= spec_u64_to_le_bytes(b@.next));
        let blk = r->Ok_0;
        assert(blk@ =~= b@);
    }
}

} // verus!
