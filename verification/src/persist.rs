//! Blob framing for the metadata directory: a length prefix, the
//! payload, and a Sha-256 trailer, so that a truncated or corrupted
//! file is detected on load.

use vstd::prelude::*;
use vstd::slice::{slice_subrange, slice_to_vec};

use crate::codec::{enc_u64, enc_u64_into};
use crate::data::{bytes_cmp, Cmp, FixedBytes32};
use crate::digest::{sha256, sha256_of};
use crate::error::Error;

verus! {

/// A framed blob: eight length bytes, the payload, its digest.
pub open spec fn frame_v(p: Seq<u8>) -> Seq<u8> {
    enc_u64(p.len() as u64) + p + sha256_of(p)
}

/// Frames a payload for storage.
pub fn frame(p: &Vec<u8>) -> (r: Vec<u8>)
    ensures
        r@ == frame_v(p@),
        sha256_of(p@).len() == 32,
{
    let mut out: Vec<u8> = Vec::new();
    enc_u64_into(&mut out, p.len() as u64);
    let ghost base = out@;
    let mut i: usize = 0;
    while i < p.len()
        invariant
            i <= p@.len(),
            out@ =~= base + p@.subrange(0, i as int),
        decreases p@.len() - i,
    {
        out.push(p[i]);
        proof {
            assert(base + p@.subrange(0, i + 1) =~= (base + p@.subrange(0, i as int)).push(
                p@[i as int],
            ));
        }
        i = i + 1;
    }
    proof {
        assert(p@.subrange(0, p@.len() as int) =~= p@);
    }
    let h = sha256(p.as_slice());
    let ghost base2 = out@;
    let mut k: usize = 0;
    while k < 32
        invariant
            k <= 32,
            out@ =~= base2 + h.b@.subrange(0, k as int),
        decreases 32 - k,
    {
        out.push(h.b[k]);
        proof {
            assert(base2 + h.b@.subrange(0, k + 1) =~= (base2 + h.b@.subrange(0, k as int)).push(
                h.b@[k as int],
            ));
        }
        k = k + 1;
    }
    proof {
        assert(h.b@.subrange(0, 32) =~= h.b@);
        assert(out@ =~= frame_v(p@));
    }
    out
}

/// Unframes a stored blob: returns the payload exactly when the bytes
/// are a well-formed frame whose digest matches, and `CorruptData`
/// otherwise.
pub fn unframe(b: &Vec<u8>) -> (r: Result<Vec<u8>, Error>)
    ensures
        r matches Ok(p) ==> b@ == frame_v(p@),
        r is Ok <==> (exists|p: Seq<u8>| b@ == frame_v(p) && (#[trigger] sha256_of(p)).len()
            == 32),
        r matches Err(e) ==> e is CorruptData,
{
    let zero = FixedBytes32 { b: [0u8; 32] };
    if b.len() < 40 {
        proof {
            lemma_no_short_frame(b@);
        }
        return Err(Error::CorruptData(zero));
    }
    let want = b.len() - 40;
    let n = vstd::bytes::u64_from_le_bytes(slice_subrange(b.as_slice(), 0, 8));
    if n != want as u64 {
        proof {
            vstd::bytes::lemma_auto_spec_u64_to_from_le_bytes();
            assert forall|p: Seq<u8>|
                !(b@ == frame_v(p) && (#[trigger] sha256_of(p)).len() == 32) by {
                if b@ == frame_v(p) && sha256_of(p).len() == 32 {
                    assert(p.len() == want) by {
                        assert(enc_u64(p.len() as u64).len() == 8);
                    }
                    assert(b@.subrange(0, 8) =~= enc_u64(p.len() as u64));
                    assert(n == p.len() as u64);
                }
            }
        }
        return Err(Error::CorruptData(zero));
    }
    let payload = slice_to_vec(slice_subrange(b.as_slice(), 8, 8 + want));
    let h = sha256(payload.as_slice());
    let trailer = slice_subrange(b.as_slice(), 8 + want, b.len());
    match bytes_cmp(h.b.as_slice(), trailer) {
        Cmp::Eq => {
            proof {
                vstd::bytes::lemma_auto_spec_u64_to_from_le_bytes();
                assert(enc_u64(payload@.len() as u64) =~= b@.subrange(0, 8)) by {
                    assert(payload@.len() == want);
                    assert(n == want as u64);
                    assert(spec_u64_of_prefix(b@) == n);
                }
                assert(b@ =~= enc_u64(payload@.len() as u64) + payload@ + sha256_of(payload@));
            }
            Ok(payload)
        },
        _ => {
            proof {
                crate::data::lemma_bytes_lt_trichotomy(h.b@, trailer@);
                assert forall|p: Seq<u8>|
                    !(b@ == frame_v(p) && (#[trigger] sha256_of(p)).len() == 32) by {
                    if b@ == frame_v(p) && sha256_of(p).len() == 32 {
                        vstd::bytes::lemma_auto_spec_u64_to_from_le_bytes();
                        assert(enc_u64(p.len() as u64).len() == 8);
                        assert(p.len() == want);
                        assert(payload@ =~= p) by {
                            assert forall|x: int| 0 <= x < want implies payload@[x] == p[x] by {
                                assert(b@[8 + x] == (enc_u64(p.len() as u64) + p + sha256_of(
                                    p,
                                ))[8 + x]);
                            }
                        }
                        assert(trailer@ =~= sha256_of(p)) by {
                            assert forall|x: int| 0 <= x < 32 implies trailer@[x] == sha256_of(
                                p,
                            )[x] by {
                                assert(b@[8 + want + x] == (enc_u64(p.len() as u64) + p
                                    + sha256_of(p))[8 + want + x]);
                            }
                        }
                        assert(h.b@ == trailer@);
                    }
                }
            }
            Err(Error::CorruptData(h))
        },
    }
}

/// The length a frame's prefix declares.
pub open spec fn spec_u64_of_prefix(b: Seq<u8>) -> u64 {
    vstd::bytes::spec_u64_from_le_bytes(b.subrange(0, 8))
}

/// No frame is shorter than its fixed overhead.
proof fn lemma_no_short_frame(b: Seq<u8>)
    requires
        b.len() < 40,
    ensures
        forall|p: Seq<u8>|
            !(b == frame_v(p) && (#[trigger] sha256_of(p)).len() == 32),
{
    assert forall|p: Seq<u8>| !(b == frame_v(p) && (#[trigger] sha256_of(p)).len() == 32) by {
        if b == frame_v(p) && sha256_of(p).len() == 32 {
            vstd::bytes::lemma_auto_spec_u64_to_from_le_bytes();
            assert(enc_u64(p.len() as u64).len() == 8);
        }
    }
}

/// One payload per frame: equal frames carry equal payloads.
pub proof fn lemma_frame_injective(p1: Seq<u8>, p2: Seq<u8>)
    requires
        frame_v(p1) == frame_v(p2),
        sha256_of(p1).len() == 32,
        sha256_of(p2).len() == 32,
    ensures
        p1 == p2,
{
    vstd::bytes::lemma_auto_spec_u64_to_from_le_bytes();
    assert(enc_u64(p1.len() as u64).len() == 8);
    assert(enc_u64(p2.len() as u64).len() == 8);
    assert(frame_v(p1).len() == 8 + p1.len() + sha256_of(p1).len());
    assert(frame_v(p2).len() == 8 + p2.len() + sha256_of(p2).len());
    assert(p1.len() == p2.len());
    assert forall|x: int| 0 <= x < p1.len() implies p1[x] == p2[x] by {
        assert(frame_v(p1)[8 + x] == p1[x]);
        assert(frame_v(p2)[8 + x] == p2[x]);
    }
    assert(p1 =~= p2);
}

} // verus!
