use vstd::prelude::*;

use crate::part::{Part, PartView};

verus! {

/// The persistent-cache encoding of an identity: one variant byte (0 for a
/// ROM, 1 for a disk image) followed by the 20 digest bytes, 21 bytes in all.
pub open spec fn spec_encode_part(p: PartView) -> Seq<u8> {
    seq![if p.is_disk { 1u8 } else { 0u8 }] + p.sha1
}

/// The identity denoted by an encoded value, `None` for anything that is not
/// a well-formed encoding.
pub open spec fn spec_decode_part(data: Seq<u8>) -> Option<PartView> {
    if data.len() == 21 && (data[0] == 0 || data[0] == 1) {
        Some(PartView { is_disk: data[0] == 1, sha1: data.subrange(1, 21) })
    } else {
        None
    }
}

impl Part {
    /// Encode this identity for the persistent per-file cache.
    pub fn encode(&self) -> (r: Vec<u8>)
        ensures
            r@ == spec_encode_part(self@),
    {
        let mut out: Vec<u8> = Vec::new();
        if self.is_disk() {
            out.push(1u8);
        } else {
            out.push(0u8);
        }
        let d = self.digest();
        let mut i: usize = 0;
        while i < d.0.len()
            invariant
                0 <= i <= d.0@.len(),
                out@.len() == 1 + i,
                out@[0] == (if self@.is_disk { 1u8 } else { 0u8 }),
                forall|j: int| 0 <= j < i ==> out@[1 + j] == d.0@[j],
            decreases d.0@.len() - i,
        {
            out.push(d.0[i]);
            i = i + 1;
        }
        proof {
            assert(out@ =~= spec_encode_part(self@));
        }
        out
    }

    /// Decode an identity from the persistent per-file cache; `None` when the
    /// stored value is not a well-formed encoding.
    pub fn decode(data: &[u8]) -> (r: Option<Part>)
        ensures
            (match r {
                Some(p) => spec_decode_part(data@) == Some(p@),
                None => spec_decode_part(data@) is None,
            }),
    {
        if data.len() != 21 {
            return None;
        }
        let tag = data[0];
        if tag != 0 && tag != 1 {
            return None;
        }
        let mut sha1: [u8; 20] = [0u8; 20];
        let mut i: usize = 0;
        while i < 20
            invariant
                0 <= i <= 20,
                data@.len() == 21,
                forall|j: int| 0 <= j < i ==> sha1@[j] == data@[1 + j],
            decreases 20 - i,
        {
            sha1[i] = data[1 + i];
            i = i + 1;
        }
        proof {
            assert(sha1@ =~= data@.subrange(1, 21));
        }
        if tag == 1 {
            Some(Part::Disk { sha1 })
        } else {
            Some(Part::Rom { sha1 })
        }
    }
}

/// Round trip: decoding an encoded identity yields the identity again.
pub proof fn lemma_part_codec_round_trip(p: PartView)
    requires
        p.wf(),
    ensures
        spec_decode_part(spec_encode_part(p)) == Some(p),
{
    let e = spec_encode_part(p);
    assert(e.subrange(1, 21) =~= p.sha1);
}

} // verus!
