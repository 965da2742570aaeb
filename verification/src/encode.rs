//! The block encoder: cuts a source byte stream into framed blocks.

use crate::block::frame_bytes;
use crate::block::lemma_frame_layout;
use crate::block::lemma_num_blocks_bound;
use crate::block::spec_num_blocks;
use crate::block::zero_seq;
use crate::block::SizeOrFamily;
use crate::block::UF2Block;
use crate::block::CHUNK_SIZE;
use crate::block::FAMILY_FLAG;
use crate::block::MAGIC_END;
use crate::block::MAGIC_START_0;
use crate::block::MAGIC_START_1;
use crate::block::MAX_PAYLOAD_SIZE;
use crate::Uf2Error;
use vstd::arithmetic::div_mod::lemma_fundamental_div_mod;
use vstd::arithmetic::div_mod::lemma_mod_division_less_than_divisor;
use vstd::bytes::lemma_auto_spec_u32_to_from_le_bytes;
use vstd::bytes::spec_u32_from_le_bytes;
use vstd::bytes::spec_u32_to_le_bytes;
use vstd::prelude::*;

verus! {

/// The page size the encoder actually uses: a request above the payload cap
/// falls back to single-byte pages.
pub open spec fn effective_page_size(page_size: u32) -> int {
    if page_size as int > MAX_PAYLOAD_SIZE as int {
        1
    } else {
        page_size as int
    }
}

/// The nominal payload size for a page size: the largest multiple of the
/// effective page size that does not exceed the payload cap.
pub open spec fn nominal_payload_size(page_size: u32) -> int {
    let p = effective_page_size(page_size);
    p * (MAX_PAYLOAD_SIZE as int / p)
}

/// Payload size of frame `i`: the nominal size `payload`, or the shorter
/// remainder in the final frame.
pub open spec fn frame_payload_size(len: int, payload: int, i: int) -> int {
    if (i + 1) * payload <= len {
        payload
    } else {
        len - i * payload
    }
}

/// Flags word shared by every frame of one stream.
pub open spec fn stream_flags(family: Option<u32>) -> u32 {
    if family is Some {
        FAMILY_FLAG
    } else {
        0
    }
}

/// The size-or-family word shared by every frame of one stream.
pub open spec fn stream_size_or_family(len: u32, family: Option<u32>) -> SizeOrFamily {
    match family {
        Option::Some(f) => SizeOrFamily::FamilyId(f),
        Option::None => SizeOrFamily::TotalSize(len),
    }
}

/// The 512 bytes of frame `i` of the stream that encodes `src`.
pub open spec fn spec_frame(src: Seq<u8>, page_size: u32, family: Option<u32>, i: int) -> Seq<
    u8,
> {
    let p = nominal_payload_size(page_size);
    let l = src.len() as int;
    let psz = frame_payload_size(l, p, i);
    frame_bytes(
        stream_flags(family),
        (i * p) as u32,
        psz as u32,
        i as u32,
        spec_num_blocks(l, p) as u32,
        stream_size_or_family(src.len() as u32, family).word(),
        src.subrange(i * p, i * p + psz) + zero_seq(MAX_PAYLOAD_SIZE as int - psz),
    )
}

/// All frames of the stream that encodes `src`.
pub open spec fn spec_frames(src: Seq<u8>, page_size: u32, family: Option<u32>) -> Seq<Seq<u8>> {
    Seq::new(
        spec_num_blocks(src.len() as int, nominal_payload_size(page_size)) as nat,
        |i: int| spec_frame(src, page_size, family, i),
    )
}

/// The nominal payload size lies between the effective page size and the
/// payload cap, and the effective page size divides it.
pub proof fn lemma_nominal_payload_size(page_size: u32)
    requires
        1 <= page_size,
    ensures
        1 <= effective_page_size(page_size) <= MAX_PAYLOAD_SIZE as int,
        effective_page_size(page_size) <= nominal_payload_size(page_size),
        nominal_payload_size(page_size) <= MAX_PAYLOAD_SIZE as int,
        nominal_payload_size(page_size) % effective_page_size(page_size) == 0,
{
    let p = effective_page_size(page_size);
    let q = MAX_PAYLOAD_SIZE as int / p;
    lemma_fundamental_div_mod(MAX_PAYLOAD_SIZE as int, p);
    lemma_mod_division_less_than_divisor(MAX_PAYLOAD_SIZE as int, p);
    assert(MAX_PAYLOAD_SIZE as int == p * q + MAX_PAYLOAD_SIZE as int % p);
    assert(q >= 1) by (nonlinear_arith)
        requires
            1 <= p,
            p <= p * q + (p - 1),
            0 <= p * q + (p - 1),
    ;
    assert(p * q >= p) by (nonlinear_arith)
        requires
            1 <= p,
            q >= 1,
    ;
    assert((p * q) % p == 0) by {
        vstd::arithmetic::div_mod::lemma_mod_multiples_basic(q, p);
        assert(q * p == p * q) by (nonlinear_arith);
    }
}

/// Position and size of frame `i` within the source: frame `i` starts at
/// offset `i * payload`, carries at least one byte, and only the final frame
/// may carry fewer than `payload` bytes.
pub proof fn lemma_frame_position(len: int, payload: int, i: int)
    requires
        0 <= len,
        1 <= payload,
        0 <= i < spec_num_blocks(len, payload),
    ensures
        i * payload < len,
        1 <= frame_payload_size(len, payload, i) <= payload,
        i * payload + frame_payload_size(len, payload, i) <= len,
        i < spec_num_blocks(len, payload) - 1 ==> frame_payload_size(len, payload, i) == payload,
        i == spec_num_blocks(len, payload) - 1 ==> i * payload + frame_payload_size(
            len,
            payload,
            i,
        ) == len,
        i < spec_num_blocks(len, payload) - 1 ==> i * payload + frame_payload_size(
            len,
            payload,
            i,
        ) == (i + 1) * payload,
{
    let n = spec_num_blocks(len, payload);
    lemma_num_blocks_bound(len, payload);
    assert((i + 1) * payload == i * payload + payload) by (nonlinear_arith);
    assert((i + 1) * payload <= n * payload) by (nonlinear_arith)
        requires
            i + 1 <= n,
            payload >= 1,
    ;
    assert(i * payload < len) by {
        assert(i * payload + payload <= n * payload);
        assert(n * payload < len + payload);
    }
    if i < n - 1 {
        assert((i + 2) * payload <= n * payload) by (nonlinear_arith)
            requires
                i + 2 <= n,
                payload >= 1,
        ;
        assert((i + 2) * payload == i * payload + 2 * payload) by (nonlinear_arith);
        assert((i + 1) * payload <= len);
    }
    if i == n - 1 {
        if (i + 1) * payload <= len {
            assert(i * payload + frame_payload_size(len, payload, i) == len);
        }
    }
}

/// Encode the full source `src` against the requested page size into the
/// sequence of 512-byte frames, or report that the source length is not a
/// multiple of the page size.
pub fn encode(src: &Vec<u8>, page_size: u32, family: Option<u32>) -> (r: Result<
    Vec<[u8; CHUNK_SIZE]>,
    Uf2Error,
>)
    requires
        1 <= page_size,
        src@.len() <= u32::MAX,
    ensures
        match r {
            Ok(frames) => {
                &&& src@.len() as int % effective_page_size(page_size) == 0
                &&& frames@.map_values(|f: [u8; CHUNK_SIZE]| f@) == spec_frames(
                    src@,
                    page_size,
                    family,
                )
                &&& frames@.len() == spec_num_blocks(
                    src@.len() as int,
                    nominal_payload_size(page_size),
                )
            },
            Err(e) => {
                &&& e == Uf2Error::IncompatibleLength
                &&& src@.len() as int % effective_page_size(page_size) != 0
            },
        },
{
    let ps: u32 = if page_size > MAX_PAYLOAD_SIZE as u32 {
        1
    } else {
        page_size
    };
    let len: u32 = src.len() as u32;
    proof {
        lemma_nominal_payload_size(page_size);
    }
    if len % ps != 0 {
        return Err(Uf2Error::IncompatibleLength);
    }
    let payload_size: u32 = ps * (MAX_PAYLOAD_SIZE as u32 / ps);
    let ghost l = src@.len() as int;
    let ghost p = nominal_payload_size(page_size);
    let ghost n = spec_num_blocks(l, p);
    proof {
        lemma_num_blocks_bound(l, p);
    }
    let mut block = UF2Block::new(payload_size, len);
    match family {
        Option::Some(f) => block.set_family(f),
        Option::None => {},
    }
    proof {
        assert(0u32 | 0x0000_2000u32 == 0x0000_2000u32) by (bit_vector);
    }
    let mut frames: Vec<[u8; CHUNK_SIZE]> = Vec::new();
    let mut remaining: u32 = len;
    let mut offset: usize = 0;
    while remaining > 0
        invariant
            src@.len() == len,
            len <= u32::MAX,
            l == len as int,
            p == nominal_payload_size(page_size),
            n == spec_num_blocks(l, p),
            payload_size as int == p,
            1 <= p <= MAX_PAYLOAD_SIZE as int,
            0 <= n <= l,
            block.wf(),
            block.flags == stream_flags(family),
            block.size_or_family == stream_size_or_family(len, family),
            block.num_blocks as int == n,
            frames@.len() <= n,
            block.block_no == frames@.len(),
            frames@.len() < n ==> offset as int == frames@.len() * p,
            frames@.len() == n ==> offset as int == l,
            frames@.len() < n ==> block.payload_size as int == p,
            remaining as int == l - offset as int,
            block.target_addr == offset,
            forall|j: int|
                0 <= j < frames@.len() ==> frames@[j]@ == spec_frame(src@, page_size, family, j),
        decreases remaining,
    {
        let ghost i = frames@.len() as int;
        proof {
            if i == n {
                assert(remaining == 0);
            }
            lemma_frame_position(l, p, i);
        }
        if remaining < payload_size {
            block.payload_size = remaining;
        }
        proof {
            assert(block.payload_size as int == frame_payload_size(l, p, i));
        }
        block.fill_data(src, offset);
        let chunk = block.as_chunk();
        proof {
            assert(chunk@ == spec_frame(src@, page_size, family, i));
        }
        frames.push(chunk);
        remaining = remaining - block.payload_size;
        offset = offset + block.payload_size as usize;
        block.block_no = block.block_no + 1;
        block.target_addr = block.target_addr + block.payload_size;
    }
    proof {
        if frames@.len() < n {
            lemma_frame_position(l, p, frames@.len() as int);
            assert(false);
        }
        assert(frames@.map_values(|f: [u8; CHUNK_SIZE]| f@) =~= spec_frames(
            src@,
            page_size,
            family,
        ));
    }
    Ok(frames)
}

/// Sum of the payload sizes of frames `0..i` of a stream of `len` bytes cut
/// into blocks of `payload` bytes.
pub open spec fn payload_sum(len: int, payload: int, i: int) -> int
    decreases i,
{
    if i <= 0 {
        0
    } else {
        payload_sum(len, payload, i - 1) + frame_payload_size(len, payload, i - 1)
    }
}

/// Every frame before frame `i` is full, so the first `i` frames carry
/// exactly the `i * payload` bytes before frame `i`'s start offset.
pub proof fn lemma_payload_sum_prefix(len: int, payload: int, i: int)
    requires
        0 <= len,
        1 <= payload,
        0 <= i < spec_num_blocks(len, payload),
    ensures
        payload_sum(len, payload, i) == i * payload,
    decreases i,
{
    if i == 0 {
        assert(0int * payload == 0) by (nonlinear_arith);
    } else {
        lemma_payload_sum_prefix(len, payload, i - 1);
        lemma_frame_position(len, payload, i - 1);
        assert(frame_payload_size(len, payload, i - 1) == payload);
        assert((i - 1) * payload + payload == i * payload) by (nonlinear_arith);
    }
}

/// Round-trip size: for any source whose length the effective page size
/// divides, the payload sizes of all emitted frames sum to exactly the
/// source length.
pub proof fn lemma_round_trip_size(src: Seq<u8>, page_size: u32)
    requires
        1 <= page_size,
        src.len() <= u32::MAX,
        src.len() as int % effective_page_size(page_size) == 0,
    ensures
        payload_sum(
            src.len() as int,
            nominal_payload_size(page_size),
            spec_num_blocks(src.len() as int, nominal_payload_size(page_size)),
        ) == src.len() as int,
{
    let l = src.len() as int;
    lemma_nominal_payload_size(page_size);
    let p = nominal_payload_size(page_size);
    let n = spec_num_blocks(l, p);
    lemma_num_blocks_bound(l, p);
    if n > 0 {
        lemma_payload_sum_prefix(l, p, n - 1);
        lemma_frame_position(l, p, n - 1);
    }
}

/// Frame count: a stream of `L` source bytes holds exactly
/// `ceil(L / payload)` frames, and the final frame carries `L % payload`
/// bytes when that remainder is nonzero, else a full payload.
pub proof fn lemma_frame_count(src: Seq<u8>, page_size: u32, family: Option<u32>)
    requires
        1 <= page_size,
        src.len() <= u32::MAX,
    ensures
        spec_frames(src, page_size, family).len() == spec_num_blocks(
            src.len() as int,
            nominal_payload_size(page_size),
        ),
        src.len() > 0 && src.len() as int % nominal_payload_size(page_size) != 0
            ==> frame_payload_size(
            src.len() as int,
            nominal_payload_size(page_size),
            spec_num_blocks(src.len() as int, nominal_payload_size(page_size)) - 1,
        ) == src.len() as int % nominal_payload_size(page_size),
        src.len() > 0 && src.len() as int % nominal_payload_size(page_size) == 0
            ==> frame_payload_size(
            src.len() as int,
            nominal_payload_size(page_size),
            spec_num_blocks(src.len() as int, nominal_payload_size(page_size)) - 1,
        ) == nominal_payload_size(page_size),
{
    let l = src.len() as int;
    lemma_nominal_payload_size(page_size);
    let p = nominal_payload_size(page_size);
    let n = spec_num_blocks(l, p);
    lemma_num_blocks_bound(l, p);
    if l > 0 {
        lemma_frame_position(l, p, n - 1);
        lemma_fundamental_div_mod(l, p);
        lemma_mod_division_less_than_divisor(l, p);
        let m = l / p;
        let r = l % p;
        assert(l == p * m + r);
        if r == 0 {
            assert(n >= m) by (nonlinear_arith)
                requires
                    n * p >= l,
                    l == p * m,
                    p >= 1,
            ;
            assert(n <= m) by (nonlinear_arith)
                requires
                    n * p < l + p,
                    l == p * m,
                    p >= 1,
            ;
            assert(l - (n - 1) * p == p) by (nonlinear_arith)
                requires
                    n == m,
                    l == p * m,
            ;
        } else {
            assert(n >= m + 1) by (nonlinear_arith)
                requires
                    n * p >= l,
                    l == p * m + r,
                    r >= 1,
                    p >= 1,
            ;
            assert(n <= m + 1) by (nonlinear_arith)
                requires
                    n * p < l + p,
                    l == p * m + r,
                    r < p,
                    p >= 1,
            ;
            assert(l - (n - 1) * p == r) by (nonlinear_arith)
                requires
                    n == m + 1,
                    l == p * m + r,
            ;
        }
    }
}

/// Sequential invariants: frame `i` carries block number `i`, and its target
/// address equals the sum of the payload sizes of frames `0..i`.
pub proof fn lemma_sequential(src: Seq<u8>, page_size: u32, family: Option<u32>, i: int)
    requires
        1 <= page_size,
        src.len() <= u32::MAX,
        0 <= i < spec_frames(src, page_size, family).len(),
    ensures
        spec_frames(src, page_size, family)[i].subrange(20, 24) == spec_u32_to_le_bytes(
            i as u32,
        ),
        spec_frames(src, page_size, family)[i].subrange(12, 16) == spec_u32_to_le_bytes(
            payload_sum(src.len() as int, nominal_payload_size(page_size), i) as u32,
        ),
        spec_frames(src, page_size, family)[i].subrange(16, 20) == spec_u32_to_le_bytes(
            frame_payload_size(src.len() as int, nominal_payload_size(page_size), i) as u32,
        ),
        payload_sum(src.len() as int, nominal_payload_size(page_size), i) == i
            * nominal_payload_size(page_size),
{
    let l = src.len() as int;
    lemma_nominal_payload_size(page_size);
    let p = nominal_payload_size(page_size);
    lemma_num_blocks_bound(l, p);
    lemma_frame_position(l, p, i);
    lemma_payload_sum_prefix(l, p, i);
    let psz = frame_payload_size(l, p, i);
    lemma_frame_layout(
        stream_flags(family),
        (i * p) as u32,
        psz as u32,
        i as u32,
        spec_num_blocks(l, p) as u32,
        stream_size_or_family(src.len() as u32, family).word(),
        src.subrange(i * p, i * p + psz) + zero_seq(MAX_PAYLOAD_SIZE as int - psz),
    );
}

/// Frame shape: every emitted frame is exactly 512 bytes, opens with the two
/// magic words and closes with the end magic word.
pub proof fn lemma_frame_shape(src: Seq<u8>, page_size: u32, family: Option<u32>, i: int)
    requires
        1 <= page_size,
        src.len() <= u32::MAX,
        0 <= i < spec_frames(src, page_size, family).len(),
    ensures
        spec_frames(src, page_size, family)[i].len() == CHUNK_SIZE,
        spec_frames(src, page_size, family)[i].subrange(0, 4) == spec_u32_to_le_bytes(
            MAGIC_START_0,
        ),
        spec_frames(src, page_size, family)[i].subrange(4, 8) == spec_u32_to_le_bytes(
            MAGIC_START_1,
        ),
        spec_frames(src, page_size, family)[i].subrange(508, 512) == spec_u32_to_le_bytes(
            MAGIC_END,
        ),
{
    let l = src.len() as int;
    lemma_nominal_payload_size(page_size);
    let p = nominal_payload_size(page_size);
    lemma_num_blocks_bound(l, p);
    lemma_frame_position(l, p, i);
    let psz = frame_payload_size(l, p, i);
    lemma_frame_layout(
        stream_flags(family),
        (i * p) as u32,
        psz as u32,
        i as u32,
        spec_num_blocks(l, p) as u32,
        stream_size_or_family(src.len() as u32, family).word(),
        src.subrange(i * p, i * p + psz) + zero_seq(MAX_PAYLOAD_SIZE as int - psz),
    );
}

/// Page-size fallback: a page size above the payload cap encodes exactly as
/// page size 1 does, and accepts exactly the same source lengths.
pub proof fn lemma_page_size_fallback(src: Seq<u8>, page_size: u32, family: Option<u32>)
    requires
        page_size as int > MAX_PAYLOAD_SIZE as int,
    ensures
        effective_page_size(page_size) == effective_page_size(1),
        spec_frames(src, page_size, family) == spec_frames(src, 1, family),
{
    assert(nominal_payload_size(page_size) == nominal_payload_size(1));
    assert(spec_frames(src, page_size, family) =~= spec_frames(src, 1, family));
}

/// Family tag: when a family id is supplied, every emitted frame has the
/// family flag bit set in its flags word, and its final header word carries
/// the family id rather than the source length.
pub proof fn lemma_family_tag(src: Seq<u8>, page_size: u32, family_id: u32, i: int)
    requires
        1 <= page_size,
        src.len() <= u32::MAX,
        0 <= i < spec_frames(src, page_size, Some(family_id)).len(),
    ensures
        spec_frames(src, page_size, Some(family_id))[i].subrange(8, 12) == spec_u32_to_le_bytes(
            FAMILY_FLAG,
        ),
        spec_u32_from_le_bytes(spec_frames(src, page_size, Some(family_id))[i].subrange(8, 12))
            & FAMILY_FLAG != 0,
        spec_frames(src, page_size, Some(family_id))[i].subrange(28, 32) == spec_u32_to_le_bytes(
            family_id,
        ),
{
    let l = src.len() as int;
    lemma_nominal_payload_size(page_size);
    let p = nominal_payload_size(page_size);
    lemma_num_blocks_bound(l, p);
    lemma_frame_position(l, p, i);
    let psz = frame_payload_size(l, p, i);
    lemma_frame_layout(
        stream_flags(Some(family_id)),
        (i * p) as u32,
        psz as u32,
        i as u32,
        spec_num_blocks(l, p) as u32,
        stream_size_or_family(src.len() as u32, Some(family_id)).word(),
        src.subrange(i * p, i * p + psz) + zero_seq(MAX_PAYLOAD_SIZE as int - psz),
    );
    lemma_auto_spec_u32_to_from_le_bytes();
    assert(0x0000_2000u32 & 0x0000_2000u32 != 0) by (bit_vector);
}

} // verus!

