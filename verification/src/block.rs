//! The transfer block and its fixed 512-byte frame layout.

use vstd::arithmetic::div_mod::lemma_fundamental_div_mod;
use vstd::arithmetic::div_mod::lemma_mod_division_less_than_divisor;
use vstd::bytes::spec_u32_to_le_bytes;
use vstd::bytes::u32_to_le_bytes;
use vstd::prelude::*;

verus! {

#[verifier::external_type_specification]
#[verifier::external_body]
#[verifier::reject_recursive_types(T)]
pub struct ExArrayVec<T, const CAP: usize>(arrayvec::ArrayVec<T, CAP>);

/// The bytes a frame buffer holds, in order.
pub uninterp spec fn buf_bytes(v: arrayvec::ArrayVec<u8, 512>) -> Seq<u8>;

/// Relies on arrayvec::ArrayVec::new: a freshly created vector is empty.
#[verifier::external_body]
fn buf_new() -> (v: arrayvec::ArrayVec<u8, 512>)
    ensures
        buf_bytes(v) == Seq::<u8>::empty(),
{
    arrayvec::ArrayVec::new()
}

/// Relies on arrayvec's `Extend` impl: it appends the iterator's items in
/// order, and panics only when they would exceed the capacity, which the
/// precondition rules out.
#[verifier::external_body]
fn buf_extend(v: &mut arrayvec::ArrayVec<u8, 512>, bytes: &[u8])
    requires
        buf_bytes(*old(v)).len() + bytes@.len() <= 512,
    ensures
        buf_bytes(*final(v)) == buf_bytes(*old(v)) + bytes@,
{
    v.extend(bytes.iter().copied())
}

/// Relies on arrayvec::ArrayVec::into_inner: a vector filled to its capacity
/// yields its backing array, in order.
#[verifier::external_body]
fn buf_into_array(v: arrayvec::ArrayVec<u8, 512>) -> (r: [u8; 512])
    requires
        buf_bytes(v).len() == 512,
    ensures
        r@ == buf_bytes(v),
{
    v.into_inner().unwrap()
}

/// Number of bytes in one serialized frame.
pub const CHUNK_SIZE: usize = 512;

/// Greatest number of payload bytes one frame can carry.
pub const MAX_PAYLOAD_SIZE: usize = 476;

/// Flag bit recording that the last header word carries a family id
/// instead of the total source size.
pub const FAMILY_FLAG: u32 = 0x0000_2000;

/// Magic word at byte offset 0 of every frame.
pub const MAGIC_START_0: u32 = 0x0A32_4655;

/// Magic word at byte offset 4 of every frame.
pub const MAGIC_START_1: u32 = 0x9E5D_5157;

/// Magic word at byte offset 508 of every frame.
pub const MAGIC_END: u32 = 0x0AB1_6F30;

/// The one header word whose meaning depends on the flags: either the total
/// length of the source in bytes, or a family id naming the target device
/// class.  The two readings are mutually exclusive.
#[derive(Clone, Copy, Debug, PartialEq, Eq, Structural)]
pub enum SizeOrFamily {
    /// Total length of the source data in bytes.
    TotalSize(u32),
    /// Family id of the target device class.
    FamilyId(u32),
}

impl SizeOrFamily {
    /// The 32-bit word this value serializes to.
    pub open spec fn word(self) -> u32 {
        match self {
            SizeOrFamily::TotalSize(w) => w,
            SizeOrFamily::FamilyId(w) => w,
        }
    }
}

/// One transfer block: the reusable accumulator that the encoder mutates
/// per emitted frame and serializes into a 512-byte chunk.
pub struct UF2Block {
    /// Bit field; only `FAMILY_FLAG` is ever set here.
    pub flags: u32,
    /// Byte offset of this block's payload in the destination address space.
    pub target_addr: u32,
    /// Number of valid data bytes in this block, at most 476.
    pub payload_size: u32,
    /// Zero-based index of this block in its stream.
    pub block_no: u32,
    /// Total number of blocks in the stream.
    pub num_blocks: u32,
    /// Total source size, or the family id when `FAMILY_FLAG` is set.
    pub size_or_family: SizeOrFamily,
    /// Payload buffer of exactly 476 bytes, zero-padded past `payload_size`.
    pub data: Vec<u8>,
}

/// A sequence of `n` zero bytes.
pub open spec fn zero_seq(n: int) -> Seq<u8> {
    Seq::new(n as nat, |j: int| 0u8)
}

/// Total number of blocks needed for `len` source bytes at `payload` bytes
/// per block: the ceiling of `len / payload`.
pub open spec fn spec_num_blocks(len: int, payload: int) -> int {
    (len + payload - 1) / payload
}

/// The 512 bytes of a frame, from its header words, payload buffer and
/// closing magic word; every word is little-endian.
pub open spec fn frame_bytes(
    flags: u32,
    target_addr: u32,
    payload_size: u32,
    block_no: u32,
    num_blocks: u32,
    word: u32,
    data: Seq<u8>,
) -> Seq<u8> {
    spec_u32_to_le_bytes(MAGIC_START_0) + spec_u32_to_le_bytes(MAGIC_START_1)
        + spec_u32_to_le_bytes(flags) + spec_u32_to_le_bytes(target_addr)
        + spec_u32_to_le_bytes(payload_size) + spec_u32_to_le_bytes(block_no)
        + spec_u32_to_le_bytes(num_blocks) + spec_u32_to_le_bytes(word) + data
        + spec_u32_to_le_bytes(MAGIC_END)
}

impl UF2Block {
    /// The frame this block serializes to.
    pub open spec fn chunk_bytes(self) -> Seq<u8> {
        frame_bytes(
            self.flags,
            self.target_addr,
            self.payload_size,
            self.block_no,
            self.num_blocks,
            self.size_or_family.word(),
            self.data@,
        )
    }

    /// Well-formedness: the buffer holds exactly 476 bytes, the payload never
    /// exceeds the cap, and the family flag is set exactly when the final
    /// header word carries a family id.
    pub open spec fn wf(self) -> bool {
        &&& self.data@.len() == MAX_PAYLOAD_SIZE
        &&& self.payload_size <= MAX_PAYLOAD_SIZE
        &&& (self.size_or_family is FamilyId <==> self.flags & FAMILY_FLAG != 0)
    }

    /// A fresh block for a stream of `len` source bytes cut into blocks of
    /// `payload_size` bytes: counters at zero, the block count fixed to the
    /// ceiling of `len / payload_size`, and an all-zero payload buffer.
    pub fn new(payload_size: u32, len: u32) -> (r: Self)
        requires
            1 <= payload_size <= MAX_PAYLOAD_SIZE,
        ensures
            r.flags == 0,
            r.target_addr == 0,
            r.payload_size == payload_size,
            r.block_no == 0,
            r.num_blocks == spec_num_blocks(len as int, payload_size as int),
            r.size_or_family == SizeOrFamily::TotalSize(len),
            r.data@ == zero_seq(MAX_PAYLOAD_SIZE as int),
            r.wf(),
    {
        proof {
            lemma_num_blocks_bound(len as int, payload_size as int);
        }
        let num_blocks: u64 = (len as u64 + payload_size as u64 - 1) / (payload_size as u64);
        let mut data: Vec<u8> = Vec::new();
        while data.len() < MAX_PAYLOAD_SIZE
            invariant
                data@.len() <= MAX_PAYLOAD_SIZE,
                forall|j: int| 0 <= j < data@.len() ==> data@[j] == 0u8,
            decreases MAX_PAYLOAD_SIZE - data@.len(),
        {
            data.push(0u8);
        }
        proof {
            assert(data@ =~= zero_seq(MAX_PAYLOAD_SIZE as int));
            assert(0u32 & 0x0000_2000u32 == 0u32) by (bit_vector);
        }
        UF2Block {
            flags: 0,
            target_addr: 0,
            payload_size,
            block_no: 0,
            num_blocks: num_blocks as u32,
            size_or_family: SizeOrFamily::TotalSize(len),
            data,
        }
    }

    /// Mark the stream as carrying a family id: set the family flag and let
    /// the final header word hold `family` in place of the total size.
    pub fn set_family(&mut self, family: u32)
        ensures
            final(self).flags == old(self).flags | FAMILY_FLAG,
            final(self).flags & FAMILY_FLAG != 0,
            final(self).size_or_family == SizeOrFamily::FamilyId(family),
            final(self).target_addr == old(self).target_addr,
            final(self).payload_size == old(self).payload_size,
            final(self).block_no == old(self).block_no,
            final(self).num_blocks == old(self).num_blocks,
            final(self).data == old(self).data,
            old(self).wf() ==> final(self).wf(),
    {
        self.flags = self.flags | FAMILY_FLAG;
        proof {
            let f = old(self).flags;
            assert(f | 0x0000_2000u32 != 0u32 && (f | 0x0000_2000u32) & 0x0000_2000u32 != 0u32)
                by (bit_vector);
        }
        self.size_or_family = SizeOrFamily::FamilyId(family);
    }

    /// Load `self.payload_size` source bytes starting at `offset` into the
    /// payload buffer and zero the rest of it.
    pub fn fill_data(&mut self, src: &Vec<u8>, offset: usize)
        requires
            old(self).wf(),
            offset + old(self).payload_size <= src@.len(),
        ensures
            final(self).data@ == src@.subrange(
                offset as int,
                offset as int + old(self).payload_size as int,
            ) + zero_seq(MAX_PAYLOAD_SIZE as int - old(self).payload_size as int),
            final(self).wf(),
            final(self).flags == old(self).flags,
            final(self).target_addr == old(self).target_addr,
            final(self).payload_size == old(self).payload_size,
            final(self).block_no == old(self).block_no,
            final(self).num_blocks == old(self).num_blocks,
            final(self).size_or_family == old(self).size_or_family,
    {
        let n = self.payload_size as usize;
        let srclen = src.len();
        let mut d: Vec<u8> = Vec::new();
        let mut i: usize = 0;
        while i < n
            invariant
                i <= n,
                n == old(self).payload_size,
                srclen == src@.len(),
                offset + n <= srclen,
                d@.len() == i,
                forall|j: int| 0 <= j < i ==> d@[j] == src@[offset + j],
            decreases n - i,
        {
            d.push(src[offset + i]);
            i = i + 1;
        }
        while d.len() < MAX_PAYLOAD_SIZE
            invariant
                n <= d@.len() <= MAX_PAYLOAD_SIZE,
                n == old(self).payload_size,
                offset + n <= src@.len(),
                forall|j: int| 0 <= j < n ==> d@[j] == src@[offset + j],
                forall|j: int| n <= j < d@.len() ==> d@[j] == 0u8,
            decreases MAX_PAYLOAD_SIZE - d@.len(),
        {
            d.push(0u8);
        }
        proof {
            assert(d@ =~= src@.subrange(
                offset as int,
                offset as int + old(self).payload_size as int,
            ) + zero_seq(MAX_PAYLOAD_SIZE as int - old(self).payload_size as int));
        }
        self.data = d;
    }

    /// Serialize this block into its fixed 512-byte frame.
    pub fn as_chunk(&self) -> (r: [u8; CHUNK_SIZE])
        requires
            self.wf(),
        ensures
            r@ == self.chunk_bytes(),
            r@.len() == CHUNK_SIZE,
    {
        let word: u32 = match self.size_or_family {
            SizeOrFamily::TotalSize(w) => w,
            SizeOrFamily::FamilyId(w) => w,
        };
        let mut buf = buf_new();
        let b = u32_to_le_bytes(MAGIC_START_0);
        buf_extend(&mut buf, b.as_slice());
        let b = u32_to_le_bytes(MAGIC_START_1);
        buf_extend(&mut buf, b.as_slice());
        let b = u32_to_le_bytes(self.flags);
        buf_extend(&mut buf, b.as_slice());
        let b = u32_to_le_bytes(self.target_addr);
        buf_extend(&mut buf, b.as_slice());
        let b = u32_to_le_bytes(self.payload_size);
        buf_extend(&mut buf, b.as_slice());
        let b = u32_to_le_bytes(self.block_no);
        buf_extend(&mut buf, b.as_slice());
        let b = u32_to_le_bytes(self.num_blocks);
        buf_extend(&mut buf, b.as_slice());
        let b = u32_to_le_bytes(word);
        buf_extend(&mut buf, b.as_slice());
        buf_extend(&mut buf, self.data.as_slice());
        let b = u32_to_le_bytes(MAGIC_END);
        buf_extend(&mut buf, b.as_slice());
        proof {
            assert(buf_bytes(buf) =~= self.chunk_bytes());
        }
        buf_into_array(buf)
    }
}

/// Byte layout of one frame: it is 512 bytes long, and every header word,
/// the payload buffer and the closing magic word sit at their fixed offsets.
pub proof fn lemma_frame_layout(
    flags: u32,
    target_addr: u32,
    payload_size: u32,
    block_no: u32,
    num_blocks: u32,
    word: u32,
    data: Seq<u8>,
)
    requires
        data.len() == MAX_PAYLOAD_SIZE,
    ensures
        frame_bytes(flags, target_addr, payload_size, block_no, num_blocks, word, data).len()
            == CHUNK_SIZE,
        frame_bytes(flags, target_addr, payload_size, block_no, num_blocks, word, data).subrange(
            0,
            4,
        ) == spec_u32_to_le_bytes(MAGIC_START_0),
        frame_bytes(flags, target_addr, payload_size, block_no, num_blocks, word, data).subrange(
            4,
            8,
        ) == spec_u32_to_le_bytes(MAGIC_START_1),
        frame_bytes(flags, target_addr, payload_size, block_no, num_blocks, word, data).subrange(
            8,
            12,
        ) == spec_u32_to_le_bytes(flags),
        frame_bytes(flags, target_addr, payload_size, block_no, num_blocks, word, data).subrange(
            12,
            16,
        ) == spec_u32_to_le_bytes(target_addr),
        frame_bytes(flags, target_addr, payload_size, block_no, num_blocks, word, data).subrange(
            16,
            20,
        ) == spec_u32_to_le_bytes(payload_size),
        frame_bytes(flags, target_addr, payload_size, block_no, num_blocks, word, data).subrange(
            20,
            24,
        ) == spec_u32_to_le_bytes(block_no),
        frame_bytes(flags, target_addr, payload_size, block_no, num_blocks, word, data).subrange(
            24,
            28,
        ) == spec_u32_to_le_bytes(num_blocks),
        frame_bytes(flags, target_addr, payload_size, block_no, num_blocks, word, data).subrange(
            28,
            32,
        ) == spec_u32_to_le_bytes(word),
        frame_bytes(flags, target_addr, payload_size, block_no, num_blocks, word, data).subrange(
            32,
            508,
        ) == data,
        frame_bytes(flags, target_addr, payload_size, block_no, num_blocks, word, data).subrange(
            508,
            512,
        ) == spec_u32_to_le_bytes(MAGIC_END),
{
    vstd::bytes::lemma_auto_spec_u32_to_from_le_bytes();
    let f = frame_bytes(flags, target_addr, payload_size, block_no, num_blocks, word, data);
    assert(f.subrange(0, 4) =~= spec_u32_to_le_bytes(MAGIC_START_0));
    assert(f.subrange(4, 8) =~= spec_u32_to_le_bytes(MAGIC_START_1));
    assert(f.subrange(8, 12) =~= spec_u32_to_le_bytes(flags));
    assert(f.subrange(12, 16) =~= spec_u32_to_le_bytes(target_addr));
    assert(f.subrange(16, 20) =~= spec_u32_to_le_bytes(payload_size));
    assert(f.subrange(20, 24) =~= spec_u32_to_le_bytes(block_no));
    assert(f.subrange(24, 28) =~= spec_u32_to_le_bytes(num_blocks));
    assert(f.subrange(28, 32) =~= spec_u32_to_le_bytes(word));
    assert(f.subrange(32, 508) =~= data);
    assert(f.subrange(508, 512) =~= spec_u32_to_le_bytes(MAGIC_END));
}

/// The ceiling division behind the block count: `spec_num_blocks(len, payload)`
/// blocks of `payload` bytes cover all `len` source bytes with less than one
/// block's worth to spare.
pub proof fn lemma_num_blocks_bound(len: int, payload: int)
    requires
        0 <= len,
        1 <= payload,
    ensures
        0 <= spec_num_blocks(len, payload) <= len,
        len <= spec_num_blocks(len, payload) * payload,
        spec_num_blocks(len, payload) * payload < len + payload,
        len == 0 ==> spec_num_blocks(len, payload) == 0,
        len > 0 ==> 1 <= spec_num_blocks(len, payload),
{
    let n = spec_num_blocks(len, payload);
    lemma_fundamental_div_mod(len + payload - 1, payload);
    lemma_mod_division_less_than_divisor(len + payload - 1, payload);
    let r = (len + payload - 1) % payload;
    assert(len + payload - 1 == payload * n + r);
    assert(payload * n == n * payload) by (nonlinear_arith);
    assert(n >= 0) by (nonlinear_arith)
        requires
            1 <= payload,
            0 <= payload * n,
    ;
    if n > len {
        assert(payload * n >= len + payload) by (nonlinear_arith)
            requires
                n >= len + 1,
                payload >= 1,
                len >= 0,
        ;
        assert(false);
    }
    if n >= 1 && len == 0 {
        assert(payload * n >= payload) by (nonlinear_arith)
            requires
                n >= 1,
                payload >= 1,
        ;
        assert(false);
    }
    if n == 0 && len > 0 {
        assert(payload * n == 0) by (nonlinear_arith)
            requires
                n == 0,
        ;
        assert(false);
    }
}

} // verus!
