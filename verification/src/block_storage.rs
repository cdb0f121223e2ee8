//! Block storage engine: durable, page-addressed persistence of blocks on a
//! chosen backend, and reconstruction of multi-page values by following
//! forward-chain pointers.
//!
//! A backend is a seekable byte sink/source behind the small capability
//! traits [`WriteSeek`] and [`ReadSeek`]: a closed set of backends (a file,
//! an in-memory buffer) rather than open-ended dynamic dispatch. The engine
//! owns its backend exclusively (`&mut self` on every operation), so at most
//! one I/O operation is ever in flight per handle; callers that share a
//! handle across threads put the whole `Writer`/`Reader` behind a lock of
//! their own and surface an acquisition failure as the `LockError` variant.
use vstd::prelude::*;
use vstd::bytes::spec_u64_from_le_bytes;
use vstd::slice::{slice_to_vec, slice_subrange};
use crate::block::{Block, CapacityError, BLOCK_DATA_SIZE, TOTAL_BLOCK_SIZE};
use crate::serialization::{ToBytes, FromBytes, FromBytesError};

verus! {

/// Which backend a writer or reader persists to.
#[derive(Debug, Clone)]
pub enum StorageOption {
    /// A file at the given path, opened or created by the caller's runtime.
    File(String),
    /// An in-memory growable buffer, for testing and ephemeral stores.
    Memory,
}

/// A failure reported by a backend operation.
#[derive(Debug)]
pub struct BackendError {
    pub message: String,
}

/// How a page address is given: an absolute page index, or a count of pages
/// to advance past the page under the cursor.
#[derive(Debug, Clone, Copy)]
pub enum BlockSeek {
    /// Absolute page index, resolved to byte offset `header_size + index * 1024`.
    Start(u64),
    /// Relative: resolved to `(delta - 1) * 1024` bytes from the current
    /// cursor, so that `Current(1)` addresses the page right after the one
    /// just read or written.
    Current(i64),
}

/// The contents of a byte store after writing `d` at offset `at`: bytes
/// before `at` and after the write keep their values, a gap beyond the old
/// end reads as zeros, and the store grows when the write passes its end.
pub open spec fn store_bytes(c: Seq<u8>, at: int, d: Seq<u8>) -> Seq<u8> {
    Seq::new(
        if at + d.len() > c.len() { (at + d.len()) as nat } else { c.len() as nat },
        |i: int| if at <= i < at + d.len() {
            d[i - at]
        } else if 0 <= i < c.len() {
            c[i]
        } else {
            0u8
        },
    )
}

/// A seekable byte store: the common capability under both the write and
/// the read side of a backend. Implementations report their whole contents
/// and cursor position at the specification level.
pub trait Backend: Sized {
    /// The bytes the backend holds.
    spec fn contents(&self) -> Seq<u8>;

    /// The cursor the next read or write starts at.
    spec fn cursor(&self) -> int;

    /// When a seek to absolute offset `pos` succeeds on this backend.
    spec fn seek_start_ok(pos: u64) -> bool;

    /// When a seek by `delta` from cursor `cur` succeeds on this backend.
    spec fn seek_forward_ok(cur: int, delta: i64) -> bool;

    /// Place the cursor at an absolute byte offset.
    fn seek_from_start(&mut self, pos: u64) -> (r: Result<(), BackendError>)
        ensures
            final(self).contents() == old(self).contents(),
            r is Ok <==> Self::seek_start_ok(pos),
            r is Ok ==> final(self).cursor() == pos as int,
    ;

    /// Move the cursor by a relative byte count.
    fn seek_forward(&mut self, delta: i64) -> (r: Result<(), BackendError>)
        ensures
            final(self).contents() == old(self).contents(),
            r is Ok <==> Self::seek_forward_ok(old(self).cursor(), delta),
            r is Ok ==> final(self).cursor() == old(self).cursor() + delta as int
                && final(self).cursor() >= 0,
    ;
}

/// A seekable byte sink.
pub trait WriteSeek: Backend {
    /// When a write of `len` bytes at offset `at` succeeds on this backend.
    spec fn write_ok(at: int, len: nat) -> bool;

    /// Write all of `buf` at the cursor, or fail with the contents unchanged:
    /// no partial-success result.
    fn write_all(&mut self, buf: &Vec<u8>) -> (r: Result<usize, BackendError>)
        ensures
            r is Ok <==> Self::write_ok(old(self).cursor(), buf@.len() as nat),
            r is Err ==> final(self).contents() == old(self).contents(),
            r matches Ok(n) ==> n == buf@.len()
                && old(self).cursor() >= 0
                && final(self).contents() == store_bytes(
                    old(self).contents(),
                    old(self).cursor(),
                    buf@,
                )
                && final(self).cursor() == old(self).cursor() + buf@.len(),
    ;

    /// Force buffered writes out to the backend.
    fn flush_out(&mut self) -> (r: Result<(), BackendError>)
        ensures
            final(self).contents() == old(self).contents(),
            final(self).cursor() == old(self).cursor(),
    ;
}

/// A seekable byte source.
pub trait ReadSeek: Backend {
    /// When a read of `n` bytes at offset `at` from contents `c` succeeds on
    /// this backend.
    spec fn read_ok(c: Seq<u8>, at: int, n: nat) -> bool;

    /// Read exactly `n` bytes at the cursor, or fail.
    fn read_exact(&mut self, n: usize) -> (r: Result<Vec<u8>, BackendError>)
        ensures
            final(self).contents() == old(self).contents(),
            r is Ok <==> Self::read_ok(old(self).contents(), old(self).cursor(), n as nat),
            r matches Ok(v) ==> 0 <= old(self).cursor()
                && old(self).cursor() + n <= old(self).contents().len()
                && v@ == old(self).contents().subrange(
                    old(self).cursor(),
                    old(self).cursor() + n,
                )
                && final(self).cursor() == old(self).cursor() + n,
    ;
}

/// The in-memory backend: a growable byte buffer with a free cursor. The
/// cursor may be placed past the end; a write there fills the gap with
/// zeros, as a file does.
pub struct MemoryBackend {
    buf: Vec<u8>,
    pos: usize,
}

impl MemoryBackend {
    /// An empty buffer with the cursor at its start.
    pub fn new() -> (r: MemoryBackend)
        ensures
            r.contents() == Seq::<u8>::empty(),
            r.cursor() == 0,
    {
        MemoryBackend { buf: Vec::new(), pos: 0 }
    }
}

impl Backend for MemoryBackend {
    closed spec fn contents(&self) -> Seq<u8> {
        self.buf@
    }

    closed spec fn cursor(&self) -> int {
        self.pos as int
    }

    /// A seek succeeds exactly when the target fits the address range.
    open spec fn seek_start_ok(pos: u64) -> bool {
        pos <= usize::MAX
    }

    /// A relative seek succeeds exactly when the target is a valid position.
    open spec fn seek_forward_ok(cur: int, delta: i64) -> bool {
        0 <= cur + delta <= usize::MAX
    }

    fn seek_from_start(&mut self, pos: u64) -> (r: Result<(), BackendError>)
        ensures
            final(self).contents() == old(self).contents(),
            r is Ok <==> Self::seek_start_ok(pos),
            r is Ok ==> final(self).cursor() == pos as int,
    {
        if pos <= usize::MAX as u64 {
            self.pos = pos as usize;
            Ok(())
        } else {
            Err(BackendError { message: "seek target exceeds the in-memory address range".to_owned() })
        }
    }

    fn seek_forward(&mut self, delta: i64) -> (r: Result<(), BackendError>)
        ensures
            final(self).contents() == old(self).contents(),
            r is Ok <==> Self::seek_forward_ok(old(self).cursor(), delta),
            r is Ok ==> final(self).cursor() == old(self).cursor() + delta as int
                && final(self).cursor() >= 0,
    {
        let target: i128 = self.pos as i128 + delta as i128;
        if target < 0 || target > usize::MAX as i128 {
            Err(BackendError { message: "seek target outside the in-memory address range".to_owned() })
        } else {
            self.pos = target as usize;
            Ok(())
        }
    }
}

impl WriteSeek for MemoryBackend {
    /// A write succeeds exactly when it ends inside the address range.
    open spec fn write_ok(at: int, len: nat) -> bool {
        at + len <= usize::MAX
    }

    fn write_all(&mut self, buf: &Vec<u8>) -> (r: Result<usize, BackendError>)
        ensures
            r is Ok <==> Self::write_ok(old(self).cursor(), buf@.len() as nat),
            r is Err ==> final(self).contents() == old(self).contents(),
            r matches Ok(n) ==> n == buf@.len()
                && old(self).cursor() >= 0
                && final(self).contents() == store_bytes(
                    old(self).contents(),
                    old(self).cursor(),
                    buf@,
                )
                && final(self).cursor() == old(self).cursor() + buf@.len(),
    {
        if buf.len() > usize::MAX - self.pos {
            return Err(BackendError { message: "write would pass the in-memory address range".to_owned() });
        }
        // Zero-fill any gap between the end of the buffer and the cursor.
        while self.buf.len() < self.pos
            invariant
                self.pos == old(self).pos,
                old(self).buf@.len() <= self.buf@.len(),
                forall|j: int| 0 <= j < old(self).buf@.len() ==> self.buf@[j] == old(self).buf@[j],
                forall|j: int| old(self).buf@.len() <= j < self.buf@.len() ==> self.buf@[j] == 0u8,
                self.buf@.len() <= self.pos || self.buf@.len() == old(self).buf@.len(),
            decreases self.pos - self.buf.len(),
        {
            self.buf.push(0u8);
        }
        let ghost padded = self.buf@;
        proof {
            assert(padded.len() == if old(self).pos as int > old(self).buf@.len() {
                old(self).pos as int
            } else {
                old(self).buf@.len() as int
            });
            assert(forall|j: int| 0 <= j < old(self).buf@.len() ==> padded[j] == old(self).buf@[j]);
            assert(forall|j: int| old(self).buf@.len() <= j < padded.len() ==> padded[j] == 0u8);
        }
        let mut i: usize = 0;
        while i < buf.len()
            invariant
                buf@.len() <= usize::MAX - self.pos,
                self.pos == old(self).pos,
                self.pos <= padded.len(),
                padded.len() == if old(self).pos as int > old(self).buf@.len() {
                    old(self).pos as int
                } else {
                    old(self).buf@.len() as int
                },
                forall|j: int| 0 <= j < old(self).buf@.len() ==> padded[j] == old(self).buf@[j],
                forall|j: int| old(self).buf@.len() <= j < padded.len() ==> padded[j] == 0u8,
                i <= buf@.len(),
                self.buf@.len() == if self.pos + i > padded.len() {
                    self.pos + i
                } else {
                    padded.len() as int
                },
                forall|j: int| 0 <= j < self.pos ==> self.buf@[j] == padded[j],
                forall|j: int| self.pos <= j < self.pos + i ==> self.buf@[j] == buf@[j - self.pos],
                forall|j: int| self.pos + i <= j < self.buf@.len() ==> self.buf@[j] == padded[j],
            decreases buf@.len() - i,
        {
            let at = self.pos + i;
            if at < self.buf.len() {
                self.buf[at] = buf[i];
            } else {
                self.buf.push(buf[i]);
            }
            i = i + 1;
        }
        proof {
            let stored = store_bytes(old(self).buf@, old(self).pos as int, buf@);
            assert(self.buf@.len() == stored.len());
            assert forall|j: int| 0 <= j < stored.len() implies self.buf@[j] == stored[j] by {
                if old(self).pos as int <= j < old(self).pos + buf@.len() {
                    assert(self.buf@[j] == buf@[j - old(self).pos]);
                } else if 0 <= j < old(self).buf@.len() {
                    assert(self.buf@[j] == padded[j]);
                } else {
                    assert(self.buf@[j] == padded[j]);
                    assert(padded[j] == 0u8);
                }
            }
            assert(self.buf@ =~= stored);
        }
        self.pos = self.pos + buf.len();
        Ok(buf.len())
    }

    fn flush_out(&mut self) -> (r: Result<(), BackendError>)
        ensures
            final(self).contents() == old(self).contents(),
            final(self).cursor() == old(self).cursor(),
    {
        Ok(())
    }
}

impl ReadSeek for MemoryBackend {
    /// A read succeeds exactly when the requested range lies inside the
    /// contents.
    open spec fn read_ok(c: Seq<u8>, at: int, n: nat) -> bool {
        0 <= at && at + n <= c.len()
    }

    fn read_exact(&mut self, n: usize) -> (r: Result<Vec<u8>, BackendError>)
        ensures
            final(self).contents() == old(self).contents(),
            r is Ok <==> Self::read_ok(old(self).contents(), old(self).cursor(), n as nat),
            r matches Ok(v) ==> 0 <= old(self).cursor()
                && old(self).cursor() + n <= old(self).contents().len()
                && v@ == old(self).contents().subrange(
                    old(self).cursor(),
                    old(self).cursor() + n,
                )
                && final(self).cursor() == old(self).cursor() + n,
    {
        if self.pos <= self.buf.len() && n <= self.buf.len() - self.pos {
            let out = slice_to_vec(slice_subrange(self.buf.as_slice(), self.pos, self.pos + n));
            self.pos = self.pos + n;
            Ok(out)
        } else {
            Err(BackendError { message: "read past the end of the buffer".to_owned() })
        }
    }
}

/// A write failure: an underlying I/O fault, or a failure to acquire the
/// lock a caller put around the shared handle.
#[derive(Debug)]
pub enum WriterError {
    Io(String),
    LockError(String),
}

/// A read failure: an underlying I/O fault, a lock-acquisition failure, a
/// block or value that does not decode, or a payload-bound violation met
/// while following a chain.
#[derive(Debug)]
pub enum ReaderError {
    Io(String),
    LockError(String),
    FromBytesError(FromBytesError),
    FromReaderError(CapacityError),
}

/// When the seek a `BlockSeek` asks for succeeds on backend `B`, from the
/// given cursor and header.
pub open spec fn seek_ok_for<B: Backend>(cur: int, header: int, seek: BlockSeek) -> bool {
    match seek {
        BlockSeek::Start(p) => B::seek_start_ok((header + p * (TOTAL_BLOCK_SIZE as int)) as u64),
        BlockSeek::Current(d) => B::seek_forward_ok(cur, ((d - 1) * (TOTAL_BLOCK_SIZE as int)) as i64),
    }
}

/// The byte offset a `BlockSeek` resolves to, given the reserved header size
/// and the current cursor.
pub open spec fn resolve_block_seek(header: int, cursor: int, seek: BlockSeek) -> int {
    match seek {
        BlockSeek::Start(p) => header + p * (TOTAL_BLOCK_SIZE as int),
        BlockSeek::Current(d) => cursor + (d - 1) * (TOTAL_BLOCK_SIZE as int),
    }
}

/// The resolved offset arithmetic stays within the machine integers the
/// backend accepts.
pub open spec fn seek_in_range(header: int, seek: BlockSeek) -> bool {
    match seek {
        BlockSeek::Start(p) => header + p * (TOTAL_BLOCK_SIZE as int) <= u64::MAX,
        BlockSeek::Current(d) => i64::MIN <= (d - 1) * (TOTAL_BLOCK_SIZE as int) <= i64::MAX,
    }
}

/// Writes encoded blocks at page addresses on a backend.
pub struct Writer<B: WriteSeek> {
    fd: B,
    header_size: u64,
}

impl<B: WriteSeek> Writer<B> {
    /// The bytes the backend holds.
    pub closed spec fn contents(&self) -> Seq<u8> {
        self.fd.contents()
    }

    /// The backend's cursor.
    pub closed spec fn cursor(&self) -> int {
        self.fd.cursor()
    }

    /// Bytes reserved before page 0 (always 0 today; kept for a future file
    /// header).
    pub closed spec fn header(&self) -> int {
        self.header_size as int
    }

    pub fn new(fd: B) -> (r: Writer<B>)
        ensures
            r.contents() == fd.contents(),
            r.cursor() == fd.cursor(),
            r.header() == 0,
    {
        Writer { fd, header_size: 0 }
    }

    /// Give the backend back, with its contents and cursor intact.
    pub fn into_inner(self) -> (r: B)
        ensures
            r.contents() == self.contents(),
            r.cursor() == self.cursor(),
    {
        self.fd
    }

    /// Encode `block`, seek to the page `seek` addresses, and write all 1024
    /// bytes; the returned count equals 1024 on success.
    pub fn write(&mut self, block: Block, seek: BlockSeek) -> (r: Result<usize, WriterError>)
        requires
            block@.wf(),
            seek_in_range(old(self).header(), seek),
        ensures
            final(self).header() == old(self).header(),
            r is Ok <==> seek_ok_for::<B>(old(self).cursor(), old(self).header(), seek)
                && B::write_ok(
                    resolve_block_seek(old(self).header(), old(self).cursor(), seek),
                    TOTAL_BLOCK_SIZE as nat,
                ),
            r is Err ==> final(self).contents() == old(self).contents(),
            r matches Err(e) ==> e is Io,
            r matches Ok(n) ==> ({
                let off = resolve_block_seek(old(self).header(), old(self).cursor(), seek);
                n == TOTAL_BLOCK_SIZE
                    && off >= 0
                    && final(self).contents() == store_bytes(old(self).contents(), off, block@.enc())
                    && final(self).cursor() == off + TOTAL_BLOCK_SIZE
            }),
    {
        let buf = block.to_bytes_vec();
        proof {
            vstd::bytes::lemma_auto_spec_u64_to_from_le_bytes();
            assert(block@.enc().len() == TOTAL_BLOCK_SIZE);
        }
        let seek_res = match seek {
            BlockSeek::Start(p) => self.fd.seek_from_start(
                self.header_size + p * (TOTAL_BLOCK_SIZE as u64),
            ),
            BlockSeek::Current(d) => self.fd.seek_forward((d - 1) * (TOTAL_BLOCK_SIZE as i64)),
        };
        if let Err(e) = seek_res {
            return Err(WriterError::Io(e.message));
        }
        match self.fd.write_all(&buf) {
            Ok(n) => Ok(n),
            Err(e) => Err(WriterError::Io(e.message)),
        }
    }

    /// Force buffered writes out to the backend.
    pub fn flush(&mut self) -> (r: Result<(), WriterError>)
        ensures
            final(self).contents() == old(self).contents(),
            final(self).cursor() == old(self).cursor(),
            final(self).header() == old(self).header(),
    {
        match self.fd.flush_out() {
            Ok(()) => Ok(()),
            Err(e) => Err(WriterError::Io(e.message)),
        }
    }
}

/// Reads blocks and multi-page values back from a backend.
pub struct Reader<B: ReadSeek> {
    fd: B,
    header_size: u64,
}

/// The byte stream a chain of pages holds: the payload of the page at byte
/// offset `off`, followed by the payloads of the pages its next pointers
/// reach, ending with the page whose next pointer is 0. `k` is the number of
/// pages in the chain; `None` when the chain does not close in exactly `k`
/// pages or leaves the contents. A tombstoned page (identity 0) contributes
/// a zeroed payload and ends the chain.
pub open spec fn chain_from(c: Seq<u8>, header: int, off: int, k: nat) -> Option<Seq<u8>>
    decreases k,
{
    if k == 0 {
        None
    } else if !(0 <= off && off + TOTAL_BLOCK_SIZE <= c.len()) {
        None
    } else {
        let frame = c.subrange(off, off + TOTAL_BLOCK_SIZE);
        let id = spec_u64_from_le_bytes(frame.take(8));
        let payload = if id == 0 {
            Seq::new(BLOCK_DATA_SIZE as nat, |i: int| 0u8)
        } else {
            frame.subrange(8, 8 + BLOCK_DATA_SIZE)
        };
        let next = if id == 0 {
            0u64
        } else {
            spec_u64_from_le_bytes(frame.subrange(8 + BLOCK_DATA_SIZE, TOTAL_BLOCK_SIZE as int))
        };
        if next == 0 {
            if k == 1 {
                Some(payload)
            } else {
                None
            }
        } else {
            match chain_from(c, header, header + next * (TOTAL_BLOCK_SIZE as int), (k - 1) as nat) {
                Some(rest) => Some(payload + rest),
                None => None,
            }
        }
    }
}

/// When a whole chain of `k` pages starting at byte offset `off` can be
/// read on backend `B`: every frame lies inside the contents and is readable,
/// every followed next pointer resolves to an addressable, seekable offset,
/// and the chain closes in exactly `k` pages.
pub open spec fn chain_readable<B: ReadSeek>(c: Seq<u8>, header: int, off: int, k: nat) -> bool
    decreases k,
{
    if k == 0 {
        false
    } else if !(0 <= off && off + TOTAL_BLOCK_SIZE <= c.len()
        && B::read_ok(c, off, TOTAL_BLOCK_SIZE as nat)) {
        false
    } else {
        let frame = c.subrange(off, off + TOTAL_BLOCK_SIZE);
        let id = spec_u64_from_le_bytes(frame.take(8));
        let next = if id == 0 {
            0u64
        } else {
            spec_u64_from_le_bytes(frame.subrange(8 + BLOCK_DATA_SIZE, TOTAL_BLOCK_SIZE as int))
        };
        if next == 0 {
            k == 1
        } else {
            0 <= header && header + next * (TOTAL_BLOCK_SIZE as int) <= u64::MAX
                && B::seek_start_ok((header + next * (TOTAL_BLOCK_SIZE as int)) as u64)
                && chain_readable::<B>(
                    c,
                    header,
                    header + next * (TOTAL_BLOCK_SIZE as int),
                    (k - 1) as nat,
                )
        }
    }
}

/// A block that decodes from the frame at `off` and carries no next pointer
/// is a one-page chain holding its payload.
proof fn lemma_chain_last(c: Seq<u8>, header: int, off: int, b: Block)
    requires
        0 <= off,
        off + TOTAL_BLOCK_SIZE <= c.len(),
        Block::dec_ok(c.subrange(off, off + TOTAL_BLOCK_SIZE), Ok(b)),
        b@.next == 0,
    ensures
        chain_from(c, header, off, 1) == Some(b@.data),
        forall|k: nat| k != 1 ==> chain_from(c, header, off, k) is None,
{
}

/// A block that decodes from the frame at `off` and points at a next page
/// prepends its payload to whatever chain starts there.
proof fn lemma_chain_cons(c: Seq<u8>, header: int, off: int, b: Block, k: nat)
    requires
        0 <= off,
        off + TOTAL_BLOCK_SIZE <= c.len(),
        Block::dec_ok(c.subrange(off, off + TOTAL_BLOCK_SIZE), Ok(b)),
        b@.next != 0,
    ensures
        chain_from(c, header, off, (k + 1) as nat) == match chain_from(
            c,
            header,
            header + b@.next * (TOTAL_BLOCK_SIZE as int),
            k,
        ) {
            Some(rest) => Some(b@.data + rest),
            None => None::<Seq<u8>>,
        },
{
}

/// A chain read closes with exactly one page count: the chain's length is a
/// function of the contents and the starting offset.
pub proof fn lemma_chain_unique(c: Seq<u8>, header: int, off: int, k1: nat, k2: nat)
    requires
        chain_from(c, header, off, k1) is Some,
        chain_from(c, header, off, k2) is Some,
    ensures
        k1 == k2,
        chain_from(c, header, off, k1) == chain_from(c, header, off, k2),
    decreases k1,
{
    let frame = c.subrange(off, off + TOTAL_BLOCK_SIZE);
    let id = spec_u64_from_le_bytes(frame.take(8));
    let next = if id == 0 {
        0u64
    } else {
        spec_u64_from_le_bytes(frame.subrange(8 + BLOCK_DATA_SIZE, TOTAL_BLOCK_SIZE as int))
    };
    if next != 0 {
        lemma_chain_unique(
            c,
            header,
            header + next * (TOTAL_BLOCK_SIZE as int),
            (k1 - 1) as nat,
            (k2 - 1) as nat,
        );
    }
}

impl<B: ReadSeek> Reader<B> {
    /// The bytes the backend holds.
    pub closed spec fn contents(&self) -> Seq<u8> {
        self.fd.contents()
    }

    /// The backend's cursor.
    pub closed spec fn cursor(&self) -> int {
        self.fd.cursor()
    }

    /// Bytes reserved before page 0 (always 0 today).
    pub closed spec fn header(&self) -> int {
        self.header_size as int
    }

    pub fn new(fd: B) -> (r: Reader<B>)
        ensures
            r.contents() == fd.contents(),
            r.cursor() == fd.cursor(),
            r.header() == 0,
    {
        Reader { fd, header_size: 0 }
    }

    /// Give the backend back, with its contents and cursor intact.
    pub fn into_inner(self) -> (r: B)
        ensures
            r.contents() == self.contents(),
            r.cursor() == self.cursor(),
    {
        self.fd
    }

    /// Seek to the page `position` addresses, read its 1024 bytes, and
    /// decode them.
    pub fn read_block(&mut self, position: BlockSeek) -> (r: Result<Block, ReaderError>)
        requires
            seek_in_range(old(self).header(), position),
        ensures
            final(self).header() == old(self).header(),
            final(self).contents() == old(self).contents(),
            r is Ok <==> seek_ok_for::<B>(old(self).cursor(), old(self).header(), position)
                && B::read_ok(
                    old(self).contents(),
                    resolve_block_seek(old(self).header(), old(self).cursor(), position),
                    TOTAL_BLOCK_SIZE as nat,
                ),
            r matches Err(e) ==> e is Io,
            r matches Ok(b) ==> ({
                let off = resolve_block_seek(old(self).header(), old(self).cursor(), position);
                0 <= off && off + TOTAL_BLOCK_SIZE <= old(self).contents().len()
                    && b@.wf()
                    && Block::dec_ok(
                        old(self).contents().subrange(off, off + TOTAL_BLOCK_SIZE),
                        Ok(b),
                    )
                    && final(self).cursor() == off + TOTAL_BLOCK_SIZE
            }),
    {
        let seek_res = match position {
            BlockSeek::Start(p) => self.fd.seek_from_start(
                self.header_size + p * (TOTAL_BLOCK_SIZE as u64),
            ),
            BlockSeek::Current(d) => self.fd.seek_forward((d - 1) * (TOTAL_BLOCK_SIZE as i64)),
        };
        if let Err(e) = seek_res {
            return Err(ReaderError::Io(e.message));
        }
        let bytes = match self.fd.read_exact(TOTAL_BLOCK_SIZE) {
            Ok(v) => v,
            Err(e) => {
                return Err(ReaderError::Io(e.message));
            },
        };
        match Block::from_bytes_vec(bytes.as_slice()) {
            Ok(b) => Ok(b),
            Err(e) => Err(ReaderError::FromBytesError(e)),
        }
    }

    /// Starting at `position`, read a block, append its full 1008-byte
    /// payload to the output, and follow its next pointer; the chain ends at
    /// a next pointer of 0. On success the output is the byte stream of a
    /// whole chain in the stored contents. Traversal is capped at `u64::MAX`
    /// pages, so a chain whose pointers form a cycle fails instead of
    /// looping forever.
    pub fn read_full_item(&mut self, position: BlockSeek) -> (r: Result<Vec<u8>, ReaderError>)
        requires
            seek_in_range(old(self).header(), position),
        ensures
            final(self).header() == old(self).header(),
            final(self).contents() == old(self).contents(),
            r matches Err(e) ==> e is Io,
            seek_ok_for::<B>(old(self).cursor(), old(self).header(), position)
                && (exists|k: nat| k <= u64::MAX && chain_readable::<B>(
                    old(self).contents(),
                    old(self).header(),
                    resolve_block_seek(old(self).header(), old(self).cursor(), position),
                    k,
                )) ==> r is Ok,
            r matches Ok(v) ==> exists|k: nat| chain_from(
                old(self).contents(),
                old(self).header(),
                resolve_block_seek(old(self).header(), old(self).cursor(), position),
                k,
            ) == Some(v@),
    {
        let ghost c = old(self).contents();
        let ghost h = old(self).header();
        let ghost start_off = resolve_block_seek(h, old(self).cursor(), position);
        let ghost can = seek_ok_for::<B>(old(self).cursor(), h, position)
            && (exists|kk: nat| kk <= u64::MAX && chain_readable::<B>(c, h, start_off, kk));
        let ghost k0: nat = if can {
            choose|kk: nat| kk <= u64::MAX && chain_readable::<B>(c, h, start_off, kk)
        } else {
            1
        };

        let first = match self.read_block(position) {
            Ok(b) => b,
            Err(e) => {
                proof {
                    if can {
                        assert(chain_readable::<B>(c, h, start_off, k0));
                    }
                }
                return Err(e);
            },
        };
        let mut out: Vec<u8> = match first.get_data(BLOCK_DATA_SIZE, 0) {
            Ok(d) => d,
            Err(e) => {
                return Err(ReaderError::FromReaderError(e));
            },
        };
        proof {
            assert(out@ =~= first@.data);
        }
        let mut next: u64 = first.get_next_block();
        let ghost mut k: nat = 1;
        let ghost mut k_rem: nat = if k0 >= 1 { (k0 - 1) as nat } else { 0 };
        proof {
            if can && next != 0 {
                assert(chain_readable::<B>(c, h, start_off, k0));
                let frame = c.subrange(start_off, start_off + TOTAL_BLOCK_SIZE);
                assert(Block::dec_ok(frame, Ok(first)));
                assert(spec_u64_from_le_bytes(frame.take(8)) != 0 && next
                    == spec_u64_from_le_bytes(frame.subrange(
                        8 + BLOCK_DATA_SIZE,
                        TOTAL_BLOCK_SIZE as int,
                    )));
                assert(chain_readable::<B>(c, h, h + next * (TOTAL_BLOCK_SIZE as int), k_rem));
                assert(k_rem != 0);
            }
            if next == 0 {
                lemma_chain_last(c, h, start_off, first);
            } else {
                assert forall|kr: nat|
                    #[trigger] chain_from(c, h, h + next * (TOTAL_BLOCK_SIZE as int), kr) is Some
                        implies chain_from(c, h, start_off, (k + kr) as nat) == Some(
                            out@ + chain_from(c, h, h + next * (TOTAL_BLOCK_SIZE as int), kr)->Some_0,
                        )
                by {
                    lemma_chain_cons(c, h, start_off, first, kr);
                }
            }
        }
        let mut steps: u64 = 0;
        while next != 0
            invariant
                h == old(self).header(),
                c == old(self).contents(),
                start_off == resolve_block_seek(h, old(self).cursor(), position),
                self.header() == h,
                self.contents() == c,
                next == 0 ==> chain_from(c, h, start_off, k) == Some(out@),
                next != 0 ==> forall|kr: nat|
                    #[trigger] chain_from(c, h, h + next * (TOTAL_BLOCK_SIZE as int), kr) is Some
                        ==> chain_from(c, h, start_off, (k + kr) as nat) == Some(
                            out@ + chain_from(c, h, h + next * (TOTAL_BLOCK_SIZE as int), kr)->Some_0,
                        ),
                can == (seek_ok_for::<B>(old(self).cursor(), h, position)
                    && (exists|kk: nat| kk <= u64::MAX
                        && chain_readable::<B>(c, h, start_off, kk))),
                can && next != 0 ==> 1 <= k_rem
                    && 0 <= h && h + next * (TOTAL_BLOCK_SIZE as int) <= u64::MAX
                    && B::seek_start_ok((h + next * (TOTAL_BLOCK_SIZE as int)) as u64)
                    && chain_readable::<B>(c, h, h + next * (TOTAL_BLOCK_SIZE as int), k_rem)
                    && steps + k_rem <= u64::MAX,
            decreases u64::MAX - steps,
        {
            if steps == u64::MAX {
                proof {
                    assert(!can);
                }
                return Err(ReaderError::Io("chain traversal passed the page cap".to_owned()));
            }
            steps = steps + 1;
            let limit = (u64::MAX - self.header_size) / (TOTAL_BLOCK_SIZE as u64);
            if next > limit {
                proof {
                    if can {
                        let hh = self.header_size as int;
                        assert(hh + next * (TOTAL_BLOCK_SIZE as int) <= u64::MAX);
                        assert(next <= (u64::MAX - hh) / (TOTAL_BLOCK_SIZE as int))
                            by (nonlinear_arith)
                            requires
                                0 <= hh <= u64::MAX,
                                0 <= next,
                                hh + next * (TOTAL_BLOCK_SIZE as int) <= u64::MAX,
                        {
                        }
                        assert(false);
                    }
                }
                return Err(ReaderError::Io("next page index is not addressable".to_owned()));
            }
            proof {
                let hh = self.header_size as int;
                assert(hh + next * (TOTAL_BLOCK_SIZE as int) <= u64::MAX) by (nonlinear_arith)
                    requires
                        0 <= hh <= u64::MAX,
                        0 <= next <= (u64::MAX - hh) / (TOTAL_BLOCK_SIZE as int),
                {
                }
            }
            let ghost out_before = out@;
            let ghost link = next;
            let b = match self.read_block(BlockSeek::Start(next)) {
                Ok(b) => b,
                Err(e) => {
                    proof {
                        if can {
                            assert(chain_readable::<B>(
                                c,
                                h,
                                h + link * (TOTAL_BLOCK_SIZE as int),
                                k_rem,
                            ));
                            assert(B::read_ok(
                                c,
                                h + link * (TOTAL_BLOCK_SIZE as int),
                                TOTAL_BLOCK_SIZE as nat,
                            ));
                            assert(false);
                        }
                    }
                    return Err(e);
                },
            };
            let ghost off_b = h + link * (TOTAL_BLOCK_SIZE as int);
            let mut d = match b.get_data(BLOCK_DATA_SIZE, 0) {
                Ok(d) => d,
                Err(e) => {
                    return Err(ReaderError::FromReaderError(e));
                },
            };
            proof {
                assert(d@ =~= b@.data);
            }
            out.append(&mut d);
            next = b.get_next_block();
            proof {
                if b@.next == 0 {
                    lemma_chain_last(c, h, off_b, b);
                    assert(chain_from(c, h, start_off, (k + 1) as nat) == Some(out_before + b@.data));
                    assert(out@ =~= out_before + b@.data);
                } else {
                    assert forall|kr: nat|
                        #[trigger] chain_from(c, h, h + b@.next * (TOTAL_BLOCK_SIZE as int), kr) is Some
                            implies chain_from(c, h, start_off, ((k + 1) + kr) as nat) == Some(
                                out@ + chain_from(c, h, h + b@.next * (TOTAL_BLOCK_SIZE as int), kr)->Some_0,
                            )
                    by {
                        let rest = chain_from(c, h, h + b@.next * (TOTAL_BLOCK_SIZE as int), kr)->Some_0;
                        lemma_chain_cons(c, h, off_b, b, kr);
                        assert(chain_from(c, h, off_b, (kr + 1) as nat) == Some(b@.data + rest));
                        assert(out_before + (b@.data + rest) =~= out@ + rest);
                    }
                }
                k = (k + 1) as nat;
                if can {
                    assert(chain_readable::<B>(c, h, off_b, k_rem));
                    if next != 0 {
                        let frame = c.subrange(off_b, off_b + TOTAL_BLOCK_SIZE);
                        assert(Block::dec_ok(frame, Ok(b)));
                        assert(spec_u64_from_le_bytes(frame.take(8)) != 0 && next
                            == spec_u64_from_le_bytes(frame.subrange(
                                8 + BLOCK_DATA_SIZE,
                                TOTAL_BLOCK_SIZE as int,
                            )));
                        k_rem = (k_rem - 1) as nat;
                        assert(chain_readable::<B>(
                            c,
                            h,
                            h + next * (TOTAL_BLOCK_SIZE as int),
                            k_rem,
                        ));
                        assert(k_rem != 0);
                    }
                }
            }
        }
        proof {
            assert(chain_from(c, h, start_off, k) == Some(out@));
        }
        Ok(out)
    }
}

/// The payload bytes of the page at index `idx`.
pub open spec fn page_payload(c: Seq<u8>, header: int, idx: u64) -> Seq<u8> {
    c.subrange(
        header + idx * (TOTAL_BLOCK_SIZE as int) + 8,
        header + idx * (TOTAL_BLOCK_SIZE as int) + 8 + BLOCK_DATA_SIZE,
    )
}

/// The concatenation of the payloads of `n` pages at consecutive indices
/// `first, first + 1, ...`, in order.
pub open spec fn payload_concat(c: Seq<u8>, header: int, first: u64, n: nat) -> Seq<u8>
    decreases n,
{
    if n == 0 {
        Seq::empty()
    } else {
        page_payload(c, header, first) + payload_concat(c, header, (first + 1) as u64, (n - 1) as nat)
    }
}

/// The page at index `idx` lies inside the contents, is live (identity not
/// 0), and its next pointer holds `next`.
pub open spec fn is_chain_page(c: Seq<u8>, header: int, idx: u64, next: u64) -> bool {
    let off = header + idx * (TOTAL_BLOCK_SIZE as int);
    0 <= off && off + TOTAL_BLOCK_SIZE <= c.len()
        && spec_u64_from_le_bytes(c.subrange(off, off + TOTAL_BLOCK_SIZE).take(8)) != 0
        && spec_u64_from_le_bytes(
            c.subrange(off, off + TOTAL_BLOCK_SIZE).subrange(
                8 + BLOCK_DATA_SIZE,
                TOTAL_BLOCK_SIZE as int,
            ),
        ) == next
}

/// The `i`th of `n` pages at consecutive indices starting at `first` is live
/// and points at the page after it, or at nothing when it is the last.
pub open spec fn consecutive_chain_page(c: Seq<u8>, header: int, first: u64, n: nat, i: nat) -> bool {
    is_chain_page(
        c,
        header,
        (first + i) as u64,
        if i + 1 < n {
            (first + i + 1) as u64
        } else {
            0u64
        },
    )
}

/// The chain-reconstruction law: `n` live pages written at consecutive
/// indices, whose next pointers link each page to the one after it and end
/// with 0, hold a chain whose byte stream is the concatenation of the
/// pages' raw payloads in chain order: `n * 1008` bytes.
pub proof fn lemma_chain_reconstruction(c: Seq<u8>, header: int, first: u64, n: nat)
    requires
        1 <= n,
        first + n <= u64::MAX,
        forall|i: nat| i < n ==> #[trigger] consecutive_chain_page(c, header, first, n, i),
    ensures
        chain_from(c, header, header + first * (TOTAL_BLOCK_SIZE as int), n) == Some(
            payload_concat(c, header, first, n),
        ),
        payload_concat(c, header, first, n).len() == n * BLOCK_DATA_SIZE,
    decreases n,
{
    assert(consecutive_chain_page(c, header, first, n, 0));
    let off = header + first * (TOTAL_BLOCK_SIZE as int);
    let frame = c.subrange(off, off + TOTAL_BLOCK_SIZE);
    assert(frame.take(8) =~= c.subrange(off, off + TOTAL_BLOCK_SIZE).take(8));
    assert(frame.subrange(8, 8 + BLOCK_DATA_SIZE) =~= page_payload(c, header, first));
    if n == 1 {
        assert(payload_concat(c, header, first, 1) =~= page_payload(c, header, first));
    } else {
        assert forall|i: nat| i < (n - 1) as nat implies #[trigger] consecutive_chain_page(
            c,
            header,
            (first + 1) as u64,
            (n - 1) as nat,
            i,
        ) by {
            assert(consecutive_chain_page(c, header, first, n, (i + 1) as nat));
        }
        lemma_chain_reconstruction(c, header, (first + 1) as u64, (n - 1) as nat);
        assert(chain_from(c, header, off, n) == Some(
            page_payload(c, header, first) + payload_concat(c, header, (first + 1) as u64, (n - 1) as nat),
        ));
    }
}

/// What a write leaves where it wrote: reading the stored frame back gives
/// exactly the bytes written, so a page written by `Writer::write` decodes
/// again by the block round-trip law.
pub proof fn lemma_store_bytes_subrange(c: Seq<u8>, at: int, d: Seq<u8>)
    requires
        0 <= at,
    ensures
        store_bytes(c, at, d).subrange(at, at + d.len()) == d,
{
    assert(store_bytes(c, at, d).subrange(at, at + d.len()) =~= d);
}

/// The byte offset where the page at `index` starts, behind `header_size`
/// reserved bytes: `header_size + index * 1024`. `None` when that offset
/// does not fit a `u64`, so a caller that drives its own backend can test
/// addressability the same way the engine does.
pub fn page_byte_offset(header_size: u64, index: u64) -> (r: Option<u64>)
    ensures
        r matches Some(off) ==> off == header_size + index * (TOTAL_BLOCK_SIZE as int),
        r is Some <==> header_size + index * (TOTAL_BLOCK_SIZE as int) <= u64::MAX,
{
    let limit = (u64::MAX - header_size) / (TOTAL_BLOCK_SIZE as u64);
    if index <= limit {
        proof {
            let hh = header_size as int;
            assert(hh + index * (TOTAL_BLOCK_SIZE as int) <= u64::MAX) by (nonlinear_arith)
                requires
                    0 <= hh <= u64::MAX,
                    0 <= index <= (u64::MAX - hh) / (TOTAL_BLOCK_SIZE as int),
            {
            }
        }
        Some(header_size + index * (TOTAL_BLOCK_SIZE as u64))
    } else {
        proof {
            let hh = header_size as int;
            assert(hh + index * (TOTAL_BLOCK_SIZE as int) > u64::MAX) by (nonlinear_arith)
                requires
                    0 <= hh <= u64::MAX,
                    index > (u64::MAX - hh) / (TOTAL_BLOCK_SIZE as int),
                    index <= u64::MAX,
            {
            }
        }
        None
    }
}

/// Corollary tying a chain read to the chain-reconstruction law: a byte
/// stream that `read_full_item` returns for the head of `n` consecutively
/// linked live pages is exactly their payload concatenation, `n * 1008`
/// bytes.
pub proof fn lemma_read_is_payload_concat(
    c: Seq<u8>,
    header: int,
    first: u64,
    n: nat,
    v: Seq<u8>,
    k: nat,
)
    requires
        1 <= n,
        first + n <= u64::MAX,
        forall|i: nat| i < n ==> #[trigger] consecutive_chain_page(c, header, first, n, i),
        chain_from(c, header, header + first * (TOTAL_BLOCK_SIZE as int), k) == Some(v),
    ensures
        k == n,
        v == payload_concat(c, header, first, n),
        v.len() == n * BLOCK_DATA_SIZE,
{
    lemma_chain_reconstruction(c, header, first, n);
    lemma_chain_unique(c, header, header + first * (TOTAL_BLOCK_SIZE as int), k, n);
}

} // verus!
