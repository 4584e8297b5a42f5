use vstd::prelude::*;

use crate::part::{Part, PartView};
use crate::IoError;

verus! {

/// The SHA-1 digest of a byte string, as the hashing crate computes it.
pub uninterp spec fn sha1_of(data: Seq<u8>) -> Seq<u8>;

/// Relies on sha1_smol::Sha1 (update, digest, bytes): the digest is a
/// function of the hashed bytes alone and is exactly 20 bytes long.
#[verifier::external_body]
fn sha1_digest(data: &[u8]) -> (r: [u8; 20])
    ensures
        r@ == sha1_of(data@),
{
    let mut h = sha1_smol::Sha1::new();
    h.update(data);
    h.digest().bytes()
}

/// The eight tag bytes that open a disk-image header: ASCII `MComprHD`.
pub open spec fn chd_tag() -> Seq<u8> {
    seq![0x4du8, 0x43u8, 0x6fu8, 0x6du8, 0x70u8, 0x72u8, 0x48u8, 0x44u8]
}

pub open spec fn has_chd_tag(data: Seq<u8>) -> bool {
    data.len() >= 8 && data.subrange(0, 8) == chd_tag()
}

/// The header versions whose layout is recognized.
pub open spec fn chd_known_version(version: u32) -> bool {
    version == 3 || version == 4 || version == 5
}

/// Bytes between the version field and the digest, by header version.
pub open spec fn chd_header_skip(version: u32) -> int {
    if version == 3 {
        76
    } else if version == 4 {
        32
    } else {
        100
    }
}

/// Offset of the 20 digest bytes inside a recognized disk-image header.
pub open spec fn chd_sha1_offset(version: u32) -> int {
    16 + chd_header_skip(version)
}

/// A 32-bit big-endian integer read from four bytes.
pub open spec fn spec_be32(b: Seq<u8>) -> u32 {
    ((b[0] as int) * 0x1000000 + (b[1] as int) * 0x10000 + (b[2] as int) * 0x100 + (b[3] as int)) as u32
}

/// Disk identity of in-memory content: `Some` exactly for a recognized
/// disk-image header, whose identity is the 20 digest bytes stored at the
/// version-dependent offset; a truncated header is an I/O error; content
/// without the tag, or with an unrecognized version, is no disk image.
pub open spec fn spec_disk_identify(data: Seq<u8>) -> Result<Option<PartView>, IoError> {
    if !has_chd_tag(data) {
        Ok(None)
    } else if data.len() < 16 {
        Err(IoError::UnexpectedEof)
    } else {
        let version = spec_be32(data.subrange(12, 16));
        if !chd_known_version(version) {
            Ok(None)
        } else if data.len() < chd_sha1_offset(version) + 20 {
            Err(IoError::UnexpectedEof)
        } else {
            Ok(
                Some(
                    PartView {
                        is_disk: true,
                        sha1: data.subrange(
                            chd_sha1_offset(version),
                            chd_sha1_offset(version) + 20,
                        ),
                    },
                ),
            )
        }
    }
}

/// Identity of in-memory content: the disk identity read from a recognized
/// disk-image header, else a ROM identity hashing the whole content.
pub open spec fn spec_identify(data: Seq<u8>) -> Result<PartView, IoError> {
    match spec_disk_identify(data) {
        Ok(Some(p)) => Ok(p),
        Ok(None) => Ok(PartView { is_disk: false, sha1: sha1_of(data) }),
        Err(e) => Err(e),
    }
}

impl Part {
    /// Disk identity of in-memory content, `None` when the content is not a
    /// recognized disk image. The digest bytes are taken from the header
    /// as they stand; they are never recomputed.
    pub fn disk_from_slice(data: &[u8]) -> (r: Result<Option<Part>, IoError>)
        ensures
            (match r {
                Ok(Some(p)) => spec_disk_identify(data@) == Ok::<Option<PartView>, IoError>(
                    Some(p@),
                ),
                Ok(None) => spec_disk_identify(data@) == Ok::<Option<PartView>, IoError>(None),
                Err(e) => spec_disk_identify(data@) == Err::<Option<PartView>, IoError>(e),
            }),
    {
        if data.len() < 8 {
            return Ok(None);
        }
        let tag_ok = data[0] == 0x4d && data[1] == 0x43 && data[2] == 0x6f && data[3] == 0x6d
            && data[4] == 0x70 && data[5] == 0x72 && data[6] == 0x48 && data[7] == 0x44;
        proof {
            if tag_ok {
                assert(data@.subrange(0, 8) =~= chd_tag());
            } else {
                assert(data@.subrange(0, 8)[0] == data@[0]);
                assert(data@.subrange(0, 8)[1] == data@[1]);
                assert(data@.subrange(0, 8)[2] == data@[2]);
                assert(data@.subrange(0, 8)[3] == data@[3]);
                assert(data@.subrange(0, 8)[4] == data@[4]);
                assert(data@.subrange(0, 8)[5] == data@[5]);
                assert(data@.subrange(0, 8)[6] == data@[6]);
                assert(data@.subrange(0, 8)[7] == data@[7]);
            }
        }
        if !tag_ok {
            return Ok(None);
        }
        if data.len() < 16 {
            return Err(IoError::UnexpectedEof);
        }
        let version: u32 = (data[12] as u32) * 0x1000000 + (data[13] as u32) * 0x10000 + (
        data[14] as u32) * 0x100 + (data[15] as u32);
        proof {
            let vb = data@.subrange(12, 16);
            assert(vb[0] == data@[12]);
            assert(vb[1] == data@[13]);
            assert(vb[2] == data@[14]);
            assert(vb[3] == data@[15]);
        }
        if !(version == 3 || version == 4 || version == 5) {
            return Ok(None);
        }
        let skip: usize = if version == 3 {
            76
        } else if version == 4 {
            32
        } else {
            100
        };
        let offset: usize = 16 + skip;
        if data.len() < offset + 20 {
            return Err(IoError::UnexpectedEof);
        }
        let mut sha1: [u8; 20] = [0u8; 20];
        let mut i: usize = 0;
        while i < 20
            invariant
                0 <= i <= 20,
                offset <= 116,
                offset + 20 <= data@.len(),
                forall|j: int| 0 <= j < i ==> sha1@[j] == data@[offset + j],
            decreases 20 - i,
        {
            sha1[i] = data[offset + i];
            i = i + 1;
        }
        proof {
            assert(sha1@ =~= data@.subrange(offset as int, offset + 20));
        }
        Ok(Some(Part::Disk { sha1 }))
    }

    /// Identity of in-memory content: a disk identity read from a recognized
    /// disk-image header, else a ROM identity hashing the whole content.
    pub fn from_slice(data: &[u8]) -> (r: Result<Part, IoError>)
        ensures
            (match r {
                Ok(p) => spec_identify(data@) == Ok::<PartView, IoError>(p@),
                Err(e) => spec_identify(data@) == Err::<PartView, IoError>(e),
            }),
    {
        match Self::disk_from_slice(data) {
            Ok(Some(p)) => Ok(p),
            Ok(None) => Ok(Part::Rom { sha1: sha1_digest(data) }),
            Err(e) => Err(e),
        }
    }
}

/// Identity is deterministic: byte-equal content always has equal identity.
pub proof fn lemma_identify_deterministic(d1: Seq<u8>, d2: Seq<u8>)
    requires
        d1 == d2,
    ensures
        spec_identify(d1) == spec_identify(d2),
{
}

/// A recognized disk-image header short-circuits identification: the identity
/// is the 20 digest bytes at the documented offset, and content past that
/// offset never changes it.
pub proof fn lemma_chd_short_circuit(data: Seq<u8>, extra: Seq<u8>)
    requires
        has_chd_tag(data),
        data.len() >= 16,
        chd_known_version(spec_be32(data.subrange(12, 16))),
        data.len() >= chd_sha1_offset(spec_be32(data.subrange(12, 16))) + 20,
    ensures
        spec_identify(data) == Ok::<PartView, IoError>(
            PartView {
                is_disk: true,
                sha1: data.subrange(
                    chd_sha1_offset(spec_be32(data.subrange(12, 16))),
                    chd_sha1_offset(spec_be32(data.subrange(12, 16))) + 20,
                ),
            },
        ),
        spec_identify(data + extra) == spec_identify(data),
{
    let whole = data + extra;
    assert(whole.subrange(0, 8) =~= data.subrange(0, 8));
    assert(whole.subrange(12, 16) =~= data.subrange(12, 16));
    let version = spec_be32(data.subrange(12, 16));
    let offset = chd_sha1_offset(version);
    assert(whole.subrange(offset, offset + 20) =~= data.subrange(offset, offset + 20));
}

} // verus!
