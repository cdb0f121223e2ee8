//! Binary serialization codec: deterministic, byte-exact, little-endian
//! conversion between in-memory values and byte sequences.
//!
//! Fixed-width types (8/4-byte integers, pointer-sized integers) encode as
//! the little-endian bytes of their width. Self-describing types (text,
//! homogeneous sequences) encode as an 8-byte little-endian length prefix
//! followed by the payload, so a decoder can recover the value boundary from
//! the byte stream alone.
use vstd::prelude::*;
use vstd::bytes::{spec_u32_to_le_bytes, spec_u32_from_le_bytes, spec_u64_to_le_bytes,
    spec_u64_from_le_bytes, u32_to_le_bytes, u32_from_le_bytes, u64_to_le_bytes,
    u64_from_le_bytes, lemma_auto_spec_u32_to_from_le_bytes, lemma_auto_spec_u64_to_from_le_bytes};
use vstd::utf8::{encode_utf8, decode_utf8, valid_utf8, encode_utf8_valid_utf8,
    encode_utf8_decode_utf8};
use vstd::string::StrSliceExecFns;
use vstd::slice::{slice_to_vec, slice_subrange};

verus! {

/// How a decoder discovers the size of a value's encoding: either a constant
/// number of bytes (fixed-width types), or an 8-byte little-endian length
/// prefix at the start of the encoding (self-describing types).
pub enum SizeExtraction {
    Constant(usize),
    FromStart,
}

/// Why a decode failed.
#[derive(Debug, Clone, Copy, PartialEq, Eq, Structural)]
pub enum FromBytesError {
    /// The bytes of a text value are not valid UTF-8.
    Utf8Error,
    /// The input ended before the declared or fixed width was available.
    TruncatedInput,
    /// A value was decoded from a buffer of the wrong length.
    ReadLenError,
}

/// A value that has a canonical byte encoding.
pub trait ToBytes {
    /// The canonical encoding of this value.
    spec fn enc(&self) -> Seq<u8>;

    /// Encoding is total: it never fails for a well-formed in-memory value.
    fn to_bytes_vec(&self) -> (r: Vec<u8>)
        ensures
            r@ == self.enc(),
    ;
}

impl ToBytes for u64 {
    open spec fn enc(&self) -> Seq<u8> {
        spec_u64_to_le_bytes(*self)
    }

    fn to_bytes_vec(&self) -> (r: Vec<u8>)
        ensures
            r@ == self.enc(),
    {
        u64_to_le_bytes(*self)
    }
}

impl ToBytes for u32 {
    open spec fn enc(&self) -> Seq<u8> {
        spec_u32_to_le_bytes(*self)
    }

    fn to_bytes_vec(&self) -> (r: Vec<u8>)
        ensures
            r@ == self.enc(),
    {
        u32_to_le_bytes(*self)
    }
}

impl ToBytes for i64 {
    open spec fn enc(&self) -> Seq<u8> {
        spec_u64_to_le_bytes(*self as u64)
    }

    fn to_bytes_vec(&self) -> (r: Vec<u8>)
        ensures
            r@ == self.enc(),
    {
        u64_to_le_bytes(*self as u64)
    }
}

impl ToBytes for i32 {
    open spec fn enc(&self) -> Seq<u8> {
        spec_u32_to_le_bytes(*self as u32)
    }

    fn to_bytes_vec(&self) -> (r: Vec<u8>)
        ensures
            r@ == self.enc(),
    {
        u32_to_le_bytes(*self as u32)
    }
}

impl ToBytes for usize {
    open spec fn enc(&self) -> Seq<u8> {
        spec_u64_to_le_bytes(*self as u64)
    }

    fn to_bytes_vec(&self) -> (r: Vec<u8>)
        ensures
            r@ == self.enc(),
    {
        u64_to_le_bytes(*self as u64)
    }
}

/// A value that can be decoded from bytes.
pub trait FromBytes: Sized + ToBytes {
    /// The size-discovery strategy of this type, at the specification level.
    spec fn strat() -> SizeExtraction;

    /// The values whose encodings decode back to themselves. Everything for
    /// most types; a page format with don't-care regions may narrow it.
    spec fn codec_wf(&self) -> bool;

    /// Exact relation between a frame of bytes (the whole encoding for
    /// fixed-width types; the bytes after the length prefix for
    /// self-describing types) and the decode result.
    spec fn dec_ok(b: Seq<u8>, r: Result<Self, FromBytesError>) -> bool;

    /// Exact relation between the not-yet-consumed bytes of a stream, the
    /// result of decoding one value from them, and the bytes consumed.
    spec fn stream_ok(rem: Seq<u8>, r: Result<Self, FromBytesError>, consumed: int) -> bool;

    fn get_size_strategy() -> (r: SizeExtraction)
        ensures
            r == Self::strat(),
    ;

    /// Decode a value from exactly the given bytes. Fails cleanly: no
    /// partial result, no panic.
    fn from_bytes_vec(bytes: &[u8]) -> (r: Result<Self, FromBytesError>)
        ensures
            Self::dec_ok(bytes@, r),
    ;

    /// Decode the next value from a byte stream, consuming exactly its
    /// encoding's bytes on success and nothing on failure.
    fn read_from(source: &mut ByteStream) -> (r: Result<Self, FromBytesError>)
        requires
            old(source).wf(),
        ensures
            final(source).wf(),
            final(source).data_spec() == old(source).data_spec(),
            final(source).pos_spec() >= old(source).pos_spec(),
            Self::stream_ok(
                old(source).remaining_spec(),
                r,
                final(source).pos_spec() - old(source).pos_spec(),
            ),
    ;

    /// The round-trip law: a stream that starts with a value's canonical
    /// encoding decodes to a value with that same encoding, consuming
    /// exactly it.
    proof fn lemma_stream_round_trip(
        v: &Self,
        rest: Seq<u8>,
        r: Result<Self, FromBytesError>,
        consumed: int,
    )
        requires
            v.codec_wf(),
            v.enc().len() <= usize::MAX,
            Self::stream_ok(v.enc() + rest, r, consumed),
        ensures
            r is Ok,
            (r->Ok_0).enc() == v.enc(),
            consumed == v.enc().len(),
    ;
}

impl FromBytes for u64 {
    open spec fn codec_wf(&self) -> bool {
        true
    }

    open spec fn stream_ok(rem: Seq<u8>, r: Result<Self, FromBytesError>, consumed: int) -> bool {
        if rem.len() < 8 {
            r == Err::<u64, FromBytesError>(FromBytesError::TruncatedInput) && consumed == 0
        } else {
            r == Ok::<u64, FromBytesError>(spec_u64_from_le_bytes(rem.take(8)))
            && consumed == 8
        }
    }

    fn read_from(source: &mut ByteStream) -> (r: Result<Self, FromBytesError>) {
        match source.read_exact(8) {
            None => Err(FromBytesError::TruncatedInput),
            Some(buf) => Ok(u64_from_le_bytes(buf.as_slice())),
        }
    }

    proof fn lemma_stream_round_trip(
        v: &Self,
        rest: Seq<u8>,
        r: Result<Self, FromBytesError>,
        consumed: int,
    ) {
        lemma_auto_spec_u64_to_from_le_bytes();
        assert((v.enc() + rest).take(8) =~= v.enc());
    }

    open spec fn strat() -> SizeExtraction {
        SizeExtraction::Constant(8)
    }

    open spec fn dec_ok(b: Seq<u8>, r: Result<Self, FromBytesError>) -> bool {
        r == if b.len() == 8 {
            Ok::<u64, FromBytesError>(spec_u64_from_le_bytes(b))
        } else {
            Err::<u64, FromBytesError>(FromBytesError::ReadLenError)
        }
    }

    fn get_size_strategy() -> (r: SizeExtraction)
        ensures
            r == Self::strat(),
    {
        SizeExtraction::Constant(8)
    }

    fn from_bytes_vec(bytes: &[u8]) -> (r: Result<Self, FromBytesError>)
        ensures
            Self::dec_ok(bytes@, r),
    {
        if bytes.len() == 8 {
            Ok(u64_from_le_bytes(bytes))
        } else {
            Err(FromBytesError::ReadLenError)
        }
    }
}

impl FromBytes for u32 {
    open spec fn codec_wf(&self) -> bool {
        true
    }

    open spec fn stream_ok(rem: Seq<u8>, r: Result<Self, FromBytesError>, consumed: int) -> bool {
        if rem.len() < 4 {
            r == Err::<u32, FromBytesError>(FromBytesError::TruncatedInput) && consumed == 0
        } else {
            r == Ok::<u32, FromBytesError>(spec_u32_from_le_bytes(rem.take(4)))
            && consumed == 4
        }
    }

    fn read_from(source: &mut ByteStream) -> (r: Result<Self, FromBytesError>) {
        match source.read_exact(4) {
            None => Err(FromBytesError::TruncatedInput),
            Some(buf) => Ok(u32_from_le_bytes(buf.as_slice())),
        }
    }

    proof fn lemma_stream_round_trip(
        v: &Self,
        rest: Seq<u8>,
        r: Result<Self, FromBytesError>,
        consumed: int,
    ) {
        lemma_auto_spec_u32_to_from_le_bytes();
        assert((v.enc() + rest).take(4) =~= v.enc());
    }

    open spec fn strat() -> SizeExtraction {
        SizeExtraction::Constant(4)
    }

    open spec fn dec_ok(b: Seq<u8>, r: Result<Self, FromBytesError>) -> bool {
        r == if b.len() == 4 {
            Ok::<u32, FromBytesError>(spec_u32_from_le_bytes(b))
        } else {
            Err::<u32, FromBytesError>(FromBytesError::ReadLenError)
        }
    }

    fn get_size_strategy() -> (r: SizeExtraction)
        ensures
            r == Self::strat(),
    {
        SizeExtraction::Constant(4)
    }

    fn from_bytes_vec(bytes: &[u8]) -> (r: Result<Self, FromBytesError>)
        ensures
            Self::dec_ok(bytes@, r),
    {
        if bytes.len() == 4 {
            Ok(u32_from_le_bytes(bytes))
        } else {
            Err(FromBytesError::ReadLenError)
        }
    }
}

impl FromBytes for i64 {
    open spec fn codec_wf(&self) -> bool {
        true
    }

    open spec fn stream_ok(rem: Seq<u8>, r: Result<Self, FromBytesError>, consumed: int) -> bool {
        if rem.len() < 8 {
            r == Err::<i64, FromBytesError>(FromBytesError::TruncatedInput) && consumed == 0
        } else {
            r == Ok::<i64, FromBytesError>(spec_u64_from_le_bytes(rem.take(8)) as i64)
            && consumed == 8
        }
    }

    fn read_from(source: &mut ByteStream) -> (r: Result<Self, FromBytesError>) {
        match source.read_exact(8) {
            None => Err(FromBytesError::TruncatedInput),
            Some(buf) => Ok(u64_from_le_bytes(buf.as_slice()) as i64),
        }
    }

    proof fn lemma_stream_round_trip(
        v: &Self,
        rest: Seq<u8>,
        r: Result<Self, FromBytesError>,
        consumed: int,
    ) {
        lemma_auto_spec_u64_to_from_le_bytes();
        assert((v.enc() + rest).take(8) =~= v.enc());
        assert(*v as u64 as i64 == *v) by (bit_vector);
    }

    open spec fn strat() -> SizeExtraction {
        SizeExtraction::Constant(8)
    }

    open spec fn dec_ok(b: Seq<u8>, r: Result<Self, FromBytesError>) -> bool {
        r == if b.len() == 8 {
            Ok::<i64, FromBytesError>(spec_u64_from_le_bytes(b) as i64)
        } else {
            Err::<i64, FromBytesError>(FromBytesError::ReadLenError)
        }
    }

    fn get_size_strategy() -> (r: SizeExtraction)
        ensures
            r == Self::strat(),
    {
        SizeExtraction::Constant(8)
    }

    fn from_bytes_vec(bytes: &[u8]) -> (r: Result<Self, FromBytesError>)
        ensures
            Self::dec_ok(bytes@, r),
    {
        if bytes.len() == 8 {
            Ok(u64_from_le_bytes(bytes) as i64)
        } else {
            Err(FromBytesError::ReadLenError)
        }
    }
}

impl FromBytes for i32 {
    open spec fn codec_wf(&self) -> bool {
        true
    }

    open spec fn stream_ok(rem: Seq<u8>, r: Result<Self, FromBytesError>, consumed: int) -> bool {
        if rem.len() < 4 {
            r == Err::<i32, FromBytesError>(FromBytesError::TruncatedInput) && consumed == 0
        } else {
            r == Ok::<i32, FromBytesError>(spec_u32_from_le_bytes(rem.take(4)) as i32)
            && consumed == 4
        }
    }

    fn read_from(source: &mut ByteStream) -> (r: Result<Self, FromBytesError>) {
        match source.read_exact(4) {
            None => Err(FromBytesError::TruncatedInput),
            Some(buf) => Ok(u32_from_le_bytes(buf.as_slice()) as i32),
        }
    }

    proof fn lemma_stream_round_trip(
        v: &Self,
        rest: Seq<u8>,
        r: Result<Self, FromBytesError>,
        consumed: int,
    ) {
        lemma_auto_spec_u32_to_from_le_bytes();
        assert((v.enc() + rest).take(4) =~= v.enc());
        assert(*v as u32 as i32 == *v) by (bit_vector);
    }

    open spec fn strat() -> SizeExtraction {
        SizeExtraction::Constant(4)
    }

    open spec fn dec_ok(b: Seq<u8>, r: Result<Self, FromBytesError>) -> bool {
        r == if b.len() == 4 {
            Ok::<i32, FromBytesError>(spec_u32_from_le_bytes(b) as i32)
        } else {
            Err::<i32, FromBytesError>(FromBytesError::ReadLenError)
        }
    }

    fn get_size_strategy() -> (r: SizeExtraction)
        ensures
            r == Self::strat(),
    {
        SizeExtraction::Constant(4)
    }

    fn from_bytes_vec(bytes: &[u8]) -> (r: Result<Self, FromBytesError>)
        ensures
            Self::dec_ok(bytes@, r),
    {
        if bytes.len() == 4 {
            Ok(u32_from_le_bytes(bytes) as i32)
        } else {
            Err(FromBytesError::ReadLenError)
        }
    }
}

impl FromBytes for usize {
    open spec fn codec_wf(&self) -> bool {
        true
    }

    open spec fn stream_ok(rem: Seq<u8>, r: Result<Self, FromBytesError>, consumed: int) -> bool {
        if rem.len() < 8 {
            r == Err::<usize, FromBytesError>(FromBytesError::TruncatedInput) && consumed == 0
        } else if spec_u64_from_le_bytes(rem.take(8)) <= usize::MAX {
            r == Ok::<usize, FromBytesError>(spec_u64_from_le_bytes(rem.take(8)) as usize)
            && consumed == 8
        } else {
            r == Err::<usize, FromBytesError>(FromBytesError::ReadLenError) && consumed == 0
        }
    }

    fn read_from(source: &mut ByteStream) -> (r: Result<Self, FromBytesError>) {
        let start = source.position();
        match source.read_exact(8) {
            None => Err(FromBytesError::TruncatedInput),
            Some(buf) => {
                let v = u64_from_le_bytes(buf.as_slice());
                if v <= usize::MAX as u64 {
                    Ok(v as usize)
                } else {
                    source.rewind(start);
                    Err(FromBytesError::ReadLenError)
                }
            },
        }
    }

    proof fn lemma_stream_round_trip(
        v: &Self,
        rest: Seq<u8>,
        r: Result<Self, FromBytesError>,
        consumed: int,
    ) {
        lemma_auto_spec_u64_to_from_le_bytes();
        assert((v.enc() + rest).take(8) =~= v.enc());
    }

    open spec fn strat() -> SizeExtraction {
        SizeExtraction::Constant(8)
    }

    open spec fn dec_ok(b: Seq<u8>, r: Result<Self, FromBytesError>) -> bool {
        r == if b.len() == 8 {
            if spec_u64_from_le_bytes(b) <= usize::MAX {
                Ok::<usize, FromBytesError>(spec_u64_from_le_bytes(b) as usize)
            } else {
                Err::<usize, FromBytesError>(FromBytesError::ReadLenError)
            }
        } else {
            Err::<usize, FromBytesError>(FromBytesError::ReadLenError)
        }
    }

    fn get_size_strategy() -> (r: SizeExtraction)
        ensures
            r == Self::strat(),
    {
        SizeExtraction::Constant(8)
    }

    fn from_bytes_vec(bytes: &[u8]) -> (r: Result<Self, FromBytesError>)
        ensures
            Self::dec_ok(bytes@, r),
    {
        if bytes.len() == 8 {
            let v = u64_from_le_bytes(bytes);
            if v <= usize::MAX as u64 {
                Ok(v as usize)
            } else {
                Err(FromBytesError::ReadLenError)
            }
        } else {
            Err(FromBytesError::ReadLenError)
        }
    }
}

/// Encoding of a sequence of values: each element's own encoding,
/// concatenated.
pub open spec fn seq_enc<T: ToBytes>(s: Seq<T>) -> Seq<u8>
    decreases s.len(),
{
    if s.len() == 0 {
        Seq::empty()
    } else {
        s[0].enc() + seq_enc(s.drop_first())
    }
}

/// Appending one element to a sequence appends its encoding.
pub proof fn lemma_seq_enc_push<T: ToBytes>(s: Seq<T>, x: T)
    ensures
        seq_enc(s.push(x)) == seq_enc(s) + x.enc(),
    decreases s.len(),
{
    if s.len() == 0 {
        assert(s.push(x).drop_first() =~= Seq::<T>::empty());
        assert(s.push(x)[0] == x);
        assert(seq_enc(s.push(x)) == x.enc() + seq_enc(Seq::<T>::empty()));
        assert(seq_enc(s.push(x)) =~= seq_enc(s) + x.enc());
    } else {
        lemma_seq_enc_push(s.drop_first(), x);
        assert(s.push(x).drop_first() =~= s.drop_first().push(x));
        assert(seq_enc(s.push(x)) =~= seq_enc(s) + x.enc());
    }
}

impl<T: ToBytes> ToBytes for Vec<T> {
    open spec fn enc(&self) -> Seq<u8> {
        spec_u64_to_le_bytes(self@.len() as u64) + seq_enc(self@)
    }

    fn to_bytes_vec(&self) -> (r: Vec<u8>)
        ensures
            r@ == self.enc(),
    {
        let mut out = u64_to_le_bytes(self.len() as u64);
        let mut i: usize = 0;
        proof {
            assert(self@.take(0) =~= Seq::<T>::empty());
        }
        while i < self.len()
            invariant
                i <= self@.len(),
                out@ == spec_u64_to_le_bytes(self@.len() as u64) + seq_enc(self@.take(i as int)),
            decreases self@.len() - i,
        {
            let mut e = self[i].to_bytes_vec();
            out.append(&mut e);
            proof {
                lemma_seq_enc_push(self@.take(i as int), self@[i as int]);
                assert(self@.take(i + 1) =~= self@.take(i as int).push(self@[i as int]));
            }
            i = i + 1;
        }
        proof {
            assert(self@.take(self@.len() as int) =~= self@);
        }
        out
    }
}

impl ToBytes for String {
    open spec fn enc(&self) -> Seq<u8> {
        spec_u64_to_le_bytes(encode_utf8(self@).len() as u64) + encode_utf8(self@)
    }

    fn to_bytes_vec(&self) -> (r: Vec<u8>)
        ensures
            r@ == self.enc(),
    {
        let mut tail = self.as_str().as_bytes_vec();
        let mut out = u64_to_le_bytes(tail.len() as u64);
        out.append(&mut tail);
        out
    }
}

/// Relies on `String::from_utf8`: it returns the decoded string exactly when
/// the bytes are valid UTF-8, and an error otherwise.
#[verifier::external_body]
fn string_from_utf8(bytes: Vec<u8>) -> (r: Option<String>)
    ensures
        r is Some <==> valid_utf8(bytes@),
        r matches Some(s) ==> s@ == decode_utf8(bytes@),
{
    String::from_utf8(bytes).ok()
}

impl FromBytes for String {
    open spec fn codec_wf(&self) -> bool {
        true
    }

    open spec fn stream_ok(rem: Seq<u8>, r: Result<Self, FromBytesError>, consumed: int) -> bool {
        if rem.len() < 8 {
            r == Err::<String, FromBytesError>(FromBytesError::TruncatedInput) && consumed == 0
        } else {
            let n = spec_u64_from_le_bytes(rem.take(8)) as int;
            if rem.len() < 8 + n {
                r == Err::<String, FromBytesError>(FromBytesError::TruncatedInput) && consumed == 0
            } else {
                match r {
                    Ok(v) => valid_utf8(rem.subrange(8, 8 + n))
                        && v@ == decode_utf8(rem.subrange(8, 8 + n))
                        && consumed == 8 + n,
                    Err(e) => !valid_utf8(rem.subrange(8, 8 + n))
                        && e == FromBytesError::Utf8Error
                        && consumed == 0,
                }
            }
        }
    }

    fn read_from(source: &mut ByteStream) -> (r: Result<Self, FromBytesError>) {
        let start = source.position();
        match source.read_exact(8) {
            None => Err(FromBytesError::TruncatedInput),
            Some(pre) => {
                let n64 = u64_from_le_bytes(pre.as_slice());
                let avail = source.remaining_len();
                if n64 > avail as u64 {
                    source.rewind(start);
                    Err(FromBytesError::TruncatedInput)
                } else {
                    match source.read_exact(n64 as usize) {
                        None => {
                            source.rewind(start);
                            Err(FromBytesError::TruncatedInput)
                        },
                        Some(buf) => {
                            proof {
                                assert(buf@ =~= old(source).remaining_spec().subrange(
                                    8,
                                    8 + n64 as int,
                                ));
                            }
                            match string_from_utf8(buf) {
                                Some(s2) => Ok(s2),
                                None => {
                                    source.rewind(start);
                                    Err(FromBytesError::Utf8Error)
                                },
                            }
                        },
                    }
                }
            },
        }
    }

    proof fn lemma_stream_round_trip(
        v: &Self,
        rest: Seq<u8>,
        r: Result<Self, FromBytesError>,
        consumed: int,
    ) {
        lemma_auto_spec_u64_to_from_le_bytes();
        broadcast use encode_utf8_valid_utf8, encode_utf8_decode_utf8;

        let body = encode_utf8(v@);
        let whole = v.enc() + rest;
        assert(whole.take(8) =~= spec_u64_to_le_bytes(body.len() as u64));
        let n = spec_u64_from_le_bytes(whole.take(8)) as int;
        assert(n == body.len());
        assert(whole.subrange(8, 8 + n) =~= body);
    }

    open spec fn strat() -> SizeExtraction {
        SizeExtraction::FromStart
    }

    open spec fn dec_ok(b: Seq<u8>, r: Result<Self, FromBytesError>) -> bool {
        match r {
            Ok(s) => valid_utf8(b) && s@ == decode_utf8(b),
            Err(e) => !valid_utf8(b) && e == FromBytesError::Utf8Error,
        }
    }

    fn get_size_strategy() -> (r: SizeExtraction)
        ensures
            r == Self::strat(),
    {
        SizeExtraction::FromStart
    }

    fn from_bytes_vec(bytes: &[u8]) -> (r: Result<Self, FromBytesError>)
        ensures
            Self::dec_ok(bytes@, r),
    {
        let owned = slice_to_vec(bytes);
        match string_from_utf8(owned) {
            Some(s) => Ok(s),
            None => Err(FromBytesError::Utf8Error),
        }
    }
}

/// A byte source with a cursor, from which values are decoded in order.
pub struct ByteStream {
    data: Vec<u8>,
    pos: usize,
}

impl ByteStream {
    /// The underlying bytes.
    pub closed spec fn data_spec(&self) -> Seq<u8> {
        self.data@
    }

    /// The cursor.
    pub closed spec fn pos_spec(&self) -> int {
        self.pos as int
    }

    /// The cursor never passes the end of the data.
    pub open spec fn wf(&self) -> bool {
        0 <= self.pos_spec() <= self.data_spec().len()
    }

    /// The bytes not yet consumed.
    pub open spec fn remaining_spec(&self) -> Seq<u8> {
        self.data_spec().skip(self.pos_spec())
    }

    pub fn new(data: Vec<u8>) -> (r: ByteStream)
        ensures
            r.wf(),
            r.data_spec() == data@,
            r.pos_spec() == 0,
    {
        ByteStream { data, pos: 0 }
    }

    pub fn position(&self) -> (r: usize)
        ensures
            r as int == self.pos_spec(),
    {
        self.pos
    }

    pub fn remaining_len(&self) -> (r: usize)
        requires
            self.wf(),
        ensures
            r as int == self.remaining_spec().len(),
    {
        self.data.len() - self.pos
    }

    /// Move the cursor back to an earlier position.
    fn rewind(&mut self, p: usize)
        requires
            old(self).wf(),
            p as int <= old(self).data_spec().len(),
        ensures
            final(self).wf(),
            final(self).data_spec() == old(self).data_spec(),
            final(self).pos_spec() == p as int,
    {
        self.pos = p;
    }

    /// Consume exactly `n` bytes, or consume nothing when fewer remain.
    pub fn read_exact(&mut self, n: usize) -> (r: Option<Vec<u8>>)
        requires
            old(self).wf(),
        ensures
            final(self).wf(),
            final(self).data_spec() == old(self).data_spec(),
            r matches Some(v) ==> old(self).remaining_spec().len() >= n
                && v@ == old(self).remaining_spec().take(n as int)
                && final(self).pos_spec() == old(self).pos_spec() + n,
            r is None ==> old(self).remaining_spec().len() < n
                && final(self).pos_spec() == old(self).pos_spec(),
    {
        if n <= self.data.len() - self.pos {
            let out = slice_to_vec(slice_subrange(self.data.as_slice(), self.pos, self.pos + n));
            proof {
                assert(out@ =~= self.remaining_spec().take(n as int));
            }
            self.pos = self.pos + n;
            Some(out)
        } else {
            None
        }
    }
}

/// Append a value's canonical encoding to a byte sink.
pub fn write_bytes<T: ToBytes>(sink: &mut Vec<u8>, value: T)
    ensures
        final(sink)@ == old(sink)@ + value.enc(),
{
    let mut e = value.to_bytes_vec();
    sink.append(&mut e);
}

/// Decode the next value of type `T` from a byte stream, consuming exactly
/// its encoding's frame on success and nothing on failure.
pub fn read_bytes<T: FromBytes>(source: &mut ByteStream) -> (r: Result<T, FromBytesError>)
    requires
        old(source).wf(),
    ensures
        final(source).wf(),
        final(source).data_spec() == old(source).data_spec(),
        final(source).pos_spec() >= old(source).pos_spec(),
        T::stream_ok(
            old(source).remaining_spec(),
            r,
            final(source).pos_spec() - old(source).pos_spec(),
        ),
{
    T::read_from(source)
}

/// The round-trip law for `u64`: reading back the encoding of a value gives
/// the value, and consumes exactly the encoding.
pub proof fn lemma_round_trip_u64(v: u64, rest: Seq<u8>, r: Result<u64, FromBytesError>, consumed: int)
    requires
        u64::stream_ok(v.enc() + rest, r, consumed),
    ensures
        r == Ok::<u64, FromBytesError>(v),
        consumed == v.enc().len(),
{
    lemma_auto_spec_u64_to_from_le_bytes();
    assert((v.enc() + rest).take(8) =~= v.enc());
}

/// The round-trip law for `u32`.
pub proof fn lemma_round_trip_u32(v: u32, rest: Seq<u8>, r: Result<u32, FromBytesError>, consumed: int)
    requires
        u32::stream_ok(v.enc() + rest, r, consumed),
    ensures
        r == Ok::<u32, FromBytesError>(v),
        consumed == v.enc().len(),
{
    lemma_auto_spec_u32_to_from_le_bytes();
    assert((v.enc() + rest).take(4) =~= v.enc());
}

/// The round-trip law for `i64`.
pub proof fn lemma_round_trip_i64(v: i64, rest: Seq<u8>, r: Result<i64, FromBytesError>, consumed: int)
    requires
        i64::stream_ok(v.enc() + rest, r, consumed),
    ensures
        r == Ok::<i64, FromBytesError>(v),
        consumed == v.enc().len(),
{
    lemma_auto_spec_u64_to_from_le_bytes();
    assert((v.enc() + rest).take(8) =~= v.enc());
    assert(v as u64 as i64 == v) by (bit_vector);
}

/// The round-trip law for `i32`.
pub proof fn lemma_round_trip_i32(v: i32, rest: Seq<u8>, r: Result<i32, FromBytesError>, consumed: int)
    requires
        i32::stream_ok(v.enc() + rest, r, consumed),
    ensures
        r == Ok::<i32, FromBytesError>(v),
        consumed == v.enc().len(),
{
    lemma_auto_spec_u32_to_from_le_bytes();
    assert((v.enc() + rest).take(4) =~= v.enc());
    assert(v as u32 as i32 == v) by (bit_vector);
}

/// The round-trip law for `usize`.
pub proof fn lemma_round_trip_usize(v: usize, rest: Seq<u8>, r: Result<usize, FromBytesError>, consumed: int)
    requires
        usize::stream_ok(v.enc() + rest, r, consumed),
    ensures
        r == Ok::<usize, FromBytesError>(v),
        consumed == v.enc().len(),
{
    lemma_auto_spec_u64_to_from_le_bytes();
    assert((v.enc() + rest).take(8) =~= v.enc());
}

/// The round-trip law for `String`: reading back the encoding of a string
/// gives a string with the same characters, and consumes exactly the
/// encoding.
pub proof fn lemma_round_trip_string(v: &String, rest: Seq<u8>, r: Result<String, FromBytesError>, consumed: int)
    requires
        encode_utf8(v@).len() <= usize::MAX,
        String::stream_ok(v.enc() + rest, r, consumed),
    ensures
        r matches Ok(s) && s@ == v@,
        consumed == v.enc().len(),
{
    lemma_auto_spec_u64_to_from_le_bytes();
    broadcast use encode_utf8_valid_utf8, encode_utf8_decode_utf8;

    let body = encode_utf8(v@);
    let whole = v.enc() + rest;
    assert(whole.take(8) =~= spec_u64_to_le_bytes(body.len() as u64));
    let n = spec_u64_from_le_bytes(whole.take(8)) as int;
    assert(n == body.len());
    assert(whole.subrange(8, 8 + n) =~= body);
}

} // verus!
