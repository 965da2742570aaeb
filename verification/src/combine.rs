//! The chunk combiner: concatenates single-frame inputs into one stream.

use crate::block::CHUNK_SIZE;
use crate::Uf2Error;
use vstd::prelude::*;

verus! {

/// The combined stream: the first 512 bytes of every input, in input order.
pub open spec fn combined_bytes(inputs: Seq<Seq<u8>>) -> Seq<u8>
    decreases inputs.len(),
{
    if inputs.len() == 0 {
        Seq::empty()
    } else {
        combined_bytes(inputs.drop_last()) + inputs.last().take(CHUNK_SIZE as int)
    }
}

/// Concatenate the first 512 bytes of every input chunk, in input order;
/// report a short read if any chunk holds fewer than 512 bytes.
pub fn combine(inputs: &Vec<Vec<u8>>) -> (r: Result<Vec<u8>, Uf2Error>)
    ensures
        r is Ok <==> (forall|i: int|
            0 <= i < inputs@.len() ==> (#[trigger] inputs@[i])@.len() >= CHUNK_SIZE),
        r matches Ok(out) ==> out@ == combined_bytes(inputs@.map_values(|v: Vec<u8>| v@)),
        r matches Ok(out) ==> out@.len() == CHUNK_SIZE * inputs@.len(),
        r matches Err(e) ==> e == Uf2Error::ShortRead,
{
    let mut out: Vec<u8> = Vec::new();
    let mut k: usize = 0;
    while k < inputs.len()
        invariant
            k <= inputs@.len(),
            forall|i: int| 0 <= i < k ==> (#[trigger] inputs@[i])@.len() >= CHUNK_SIZE,
            out@ == combined_bytes(inputs@.map_values(|v: Vec<u8>| v@).take(k as int)),
            out@.len() == CHUNK_SIZE * k,
        decreases inputs@.len() - k,
    {
        let chunk = &inputs[k];
        if chunk.len() < CHUNK_SIZE {
            return Err(Uf2Error::ShortRead);
        }
        let ghost out0 = out@;
        let mut j: usize = 0;
        while j < CHUNK_SIZE
            invariant
                j <= CHUNK_SIZE,
                chunk@.len() >= CHUNK_SIZE,
                out@ == out0 + chunk@.take(j as int),
            decreases CHUNK_SIZE - j,
        {
            out.push(chunk[j]);
            proof {
                assert(chunk@.take(j as int + 1) =~= chunk@.take(j as int).push(
                    chunk@[j as int],
                ));
                assert(out0 + chunk@.take(j as int).push(chunk@[j as int]) =~= (out0
                    + chunk@.take(j as int)).push(chunk@[j as int]));
            }
            j = j + 1;
        }
        proof {
            let m = inputs@.map_values(|v: Vec<u8>| v@);
            assert(m.take(k as int + 1).drop_last() =~= m.take(k as int));
            assert(m.take(k as int + 1).last() == chunk@);
            assert(out@ == combined_bytes(m.take(k as int + 1)));
        }
        k = k + 1;
    }
    proof {
        let m = inputs@.map_values(|v: Vec<u8>| v@);
        assert(m.take(k as int) =~= m);
    }
    Ok(out)
}

} // verus!
