//! Framing of persisted artifacts: the file header that identifies an
//! artifact, its layout version, its kind and the library build that wrote
//! it. The payload after the header is opaque here.
use vstd::prelude::*;

use crate::error::{Error, FormatIssue};

verus! {

/// Magic bytes every artifact file starts with: `FERROBUS`.
pub open spec fn magic() -> Seq<u8> {
    seq![70u8, 69u8, 82u8, 82u8, 79u8, 66u8, 85u8, 83u8]
}

/// Length of the magic.
pub const MAGIC_LEN: usize = 8;

/// On-disk layout version; files of other versions are refused.
pub const FORMAT_VERSION: u16 = 3;

/// Header length before the crate version string: magic, layout version,
/// kind byte and version length.
pub const FIXED_HEADER_LEN: usize = 15;

/// Which kind of artifact a file holds.
#[derive(Debug, Clone, Copy, PartialEq, Eq, Structural)]
pub enum ArtifactKind {
    TransitModel,
    IsochroneIndex,
}

impl ArtifactKind {
    /// The byte that records this kind in a header.
    pub open spec fn spec_byte(self) -> u8 {
        match self {
            ArtifactKind::TransitModel => 1,
            ArtifactKind::IsochroneIndex => 2,
        }
    }

    /// The byte that records this kind in a header.
    pub fn byte(self) -> (b: u8)
        ensures
            b == self.spec_byte(),
    {
        match self {
            ArtifactKind::TransitModel => 1,
            ArtifactKind::IsochroneIndex => 2,
        }
    }

    /// Human-readable name of the kind.
    pub fn name(self) -> (r: &'static str)
        ensures
            self == ArtifactKind::TransitModel ==> r@ == "transit model"@,
            self == ArtifactKind::IsochroneIndex ==> r@ == "isochrone index"@,
    {
        match self {
            ArtifactKind::TransitModel => "transit model",
            ArtifactKind::IsochroneIndex => "isochrone index",
        }
    }

    /// The kind recorded by a header byte, if any.
    pub open spec fn spec_from_byte(byte: u8) -> Option<ArtifactKind> {
        if byte == 1 {
            Some(ArtifactKind::TransitModel)
        } else if byte == 2 {
            Some(ArtifactKind::IsochroneIndex)
        } else {
            None
        }
    }

    /// The kind recorded by a header byte, if any.
    pub fn from_byte(byte: u8) -> (r: Option<ArtifactKind>)
        ensures
            r == Self::spec_from_byte(byte),
    {
        match byte {
            1 => Some(ArtifactKind::TransitModel),
            2 => Some(ArtifactKind::IsochroneIndex),
            _ => None,
        }
    }
}

/// Little-endian bytes of a `u16`.
pub open spec fn le16(x: u16) -> Seq<u8> {
    seq![(x & 0xff) as u8, ((x >> 8u16) & 0xff) as u8]
}

/// Little-endian bytes of a `u32`.
pub open spec fn le32(x: u32) -> Seq<u8> {
    seq![(x & 0xff) as u8, ((x >> 8u32) & 0xff) as u8, ((x >> 16u32) & 0xff) as u8, ((x >> 24u32) & 0xff) as u8]
}

/// The `u16` of two little-endian bytes.
pub open spec fn from_le16(b0: u8, b1: u8) -> u16 {
    (b0 as u16) | ((b1 as u16) << 8u16)
}

/// The `u32` of four little-endian bytes.
pub open spec fn from_le32(b0: u8, b1: u8, b2: u8, b3: u8) -> u32 {
    (b0 as u32) | ((b1 as u32) << 8u32) | ((b2 as u32) << 16u32) | ((b3 as u32) << 24u32)
}

/// The header of an artifact of the given kind written by the library
/// build `version`.
pub open spec fn header_bytes(kind: ArtifactKind, version: Seq<u8>) -> Seq<u8> {
    magic() + le16(FORMAT_VERSION) + seq![kind.spec_byte()] + le32(version.len() as u32) + version
}

/// What reading a header from `bytes` gives when a `expected` artifact
/// written by build `version` is wanted: the payload offset, or the first
/// check that fails, in file order.
pub open spec fn header_verdict(bytes: Seq<u8>, expected: ArtifactKind, version: Seq<u8>) -> Result<nat, Error> {
    if bytes.len() < 8 || bytes.take(8) != magic() {
        Err(Error::IncompatibleFormat(FormatIssue::NotAnArtifact))
    } else if bytes.len() < 10 {
        Err(Error::UnexpectedEof)
    } else if from_le16(bytes[8], bytes[9]) != FORMAT_VERSION {
        Err(Error::IncompatibleFormat(FormatIssue::UnsupportedVersion { found: from_le16(bytes[8], bytes[9]) }))
    } else if bytes.len() < 11 {
        Err(Error::UnexpectedEof)
    } else if ArtifactKind::spec_from_byte(bytes[10]) is None {
        Err(Error::IncompatibleFormat(FormatIssue::UnknownKind { byte: bytes[10] }))
    } else if bytes[10] != expected.spec_byte() {
        Err(Error::IncompatibleFormat(FormatIssue::WrongKind { found: bytes[10], expected: expected.spec_byte() }))
    } else if bytes.len() < 15 {
        Err(Error::UnexpectedEof)
    } else if bytes.len() < 15 + from_le32(bytes[11], bytes[12], bytes[13], bytes[14]) {
        Err(Error::UnexpectedEof)
    } else if bytes.subrange(15, 15 + from_le32(bytes[11], bytes[12], bytes[13], bytes[14])) != version {
        Err(Error::IncompatibleFormat(FormatIssue::CrateVersionMismatch))
    } else {
        Ok((15 + from_le32(bytes[11], bytes[12], bytes[13], bytes[14])) as nat)
    }
}

/// Encodes the header of an artifact of the given kind, written by library
/// build `crate_version`.
pub fn encode_header(kind: ArtifactKind, crate_version: &[u8]) -> (r: Vec<u8>)
    requires
        crate_version@.len() <= u32::MAX,
    ensures
        r@ == header_bytes(kind, crate_version@),
{
    let mut out: Vec<u8> = Vec::new();
    out.push(70u8);
    out.push(69u8);
    out.push(82u8);
    out.push(82u8);
    out.push(79u8);
    out.push(66u8);
    out.push(85u8);
    out.push(83u8);
    let v: u16 = FORMAT_VERSION;
    out.push((v & 0xff) as u8);
    out.push(((v >> 8u16) & 0xff) as u8);
    out.push(kind.byte());
    let len = crate_version.len() as u32;
    out.push((len & 0xff) as u8);
    out.push(((len >> 8u32) & 0xff) as u8);
    out.push(((len >> 16u32) & 0xff) as u8);
    out.push(((len >> 24u32) & 0xff) as u8);
    let ghost fixed = out@;
    let mut i: usize = 0;
    while i < crate_version.len()
        invariant
            i <= crate_version@.len(),
            out@ == fixed + crate_version@.take(i as int),
        decreases crate_version@.len() - i,
    {
        out.push(crate_version[i]);
        i += 1;
        assert(out@ =~= fixed + crate_version@.take(i as int));
    }
    assert(crate_version@.take(i as int) =~= crate_version@);
    assert(out@ =~= header_bytes(kind, crate_version@));
    out
}

/// Whether two byte ranges hold the same bytes.
fn bytes_equal(a: &[u8], a_start: usize, b: &[u8]) -> (r: bool)
    requires
        a_start + b@.len() <= a@.len(),
    ensures
        r == (a@.subrange(a_start as int, a_start + b@.len()) == b@),
{
    let alen = a.len();
    let mut i: usize = 0;
    while i < b.len()
        invariant
            alen == a@.len(),
            a_start + b@.len() <= a@.len(),
            i <= b@.len(),
            forall|k: int| 0 <= k < i ==> a@[a_start + k] == b@[k],
        decreases b@.len() - i,
    {
        if a[a_start + i] != b[i] {
            assert(a@.subrange(a_start as int, a_start + b@.len())[i as int] != b@[i as int]);
            return false;
        }
        i += 1;
    }
    assert(a@.subrange(a_start as int, a_start + b@.len()) =~= b@);
    true
}

/// Validates the header at the start of `bytes` for an artifact of kind
/// `expected` written by library build `crate_version`, and returns the
/// offset of the payload.
pub fn parse_header(bytes: &[u8], expected: ArtifactKind, crate_version: &[u8]) -> (r: Result<usize, Error>)
    ensures
        r matches Ok(off) ==> header_verdict(bytes@, expected, crate_version@) == Ok::<nat, Error>(off as nat),
        r matches Err(e) ==> header_verdict(bytes@, expected, crate_version@) == Err::<nat, Error>(e),
{
    let magic_bytes: [u8; 8] = [70u8, 69u8, 82u8, 82u8, 79u8, 66u8, 85u8, 83u8];
    assert(magic_bytes@ =~= magic());
    if bytes.len() < MAGIC_LEN || !bytes_equal(bytes, 0, &magic_bytes) {
        proof {
            if bytes@.len() >= 8 {
                assert(bytes@.subrange(0, 8) =~= bytes@.take(8));
            }
        }
        return Err(Error::IncompatibleFormat(FormatIssue::NotAnArtifact));
    }
    assert(bytes@.subrange(0, 8) =~= bytes@.take(8));
    if bytes.len() < 10 {
        return Err(Error::UnexpectedEof);
    }
    let found_version: u16 = (bytes[8] as u16) | ((bytes[9] as u16) << 8u16);
    if found_version != FORMAT_VERSION {
        return Err(Error::IncompatibleFormat(FormatIssue::UnsupportedVersion { found: found_version }));
    }
    if bytes.len() < 11 {
        return Err(Error::UnexpectedEof);
    }
    let kind_byte = bytes[10];
    let file_kind = match ArtifactKind::from_byte(kind_byte) {
        Some(k) => k,
        None => {
            return Err(Error::IncompatibleFormat(FormatIssue::UnknownKind { byte: kind_byte }));
        },
    };
    if file_kind.byte() != expected.byte() {
        return Err(Error::IncompatibleFormat(FormatIssue::WrongKind { found: kind_byte, expected: expected.byte() }));
    }
    if bytes.len() < FIXED_HEADER_LEN {
        return Err(Error::UnexpectedEof);
    }
    let version_len: u32 = (bytes[11] as u32) | ((bytes[12] as u32) << 8u32) | ((bytes[13] as u32) << 16u32) | ((bytes[14] as u32) << 24u32);
    let version_len = version_len as usize;
    if bytes.len() - FIXED_HEADER_LEN < version_len {
        return Err(Error::UnexpectedEof);
    }
    if version_len != crate_version.len() || !bytes_equal(bytes, FIXED_HEADER_LEN, crate_version) {
        proof {
            if version_len == crate_version@.len() {
                assert(bytes@.subrange(15, 15 + crate_version@.len() as int) != crate_version@);
            }
        }
        return Err(Error::IncompatibleFormat(FormatIssue::CrateVersionMismatch));
    }
    Ok(FIXED_HEADER_LEN + version_len)
}

/// Round-trip decoding of little-endian integers.
pub proof fn lemma_le_round_trip(x: u16, y: u32)
    ensures
        from_le16(le16(x)[0], le16(x)[1]) == x,
        from_le32(le32(y)[0], le32(y)[1], le32(y)[2], le32(y)[3]) == y,
{
    assert(((x & 0xff) as u8) as u16 | ((((x >> 8u16) & 0xff) as u8) as u16) << 8u16 == x) by (bit_vector);
    assert(((y & 0xff) as u8) as u32 | ((((y >> 8u32) & 0xff) as u8) as u32) << 8u32 | ((((y >> 16u32) & 0xff) as u8) as u32)
        << 16u32 | ((((y >> 24u32) & 0xff) as u8) as u32) << 24u32 == y) by (bit_vector);
}

/// A header written for a kind and build is read back, in front of any
/// payload, by the same kind and build: the payload starts right after it.
pub proof fn law_header_round_trip(kind: ArtifactKind, version: Seq<u8>, payload: Seq<u8>)
    requires
        version.len() <= u32::MAX,
    ensures
        header_verdict(header_bytes(kind, version) + payload, kind, version) == Ok::<nat, Error>(header_bytes(kind, version).len()),
        header_bytes(kind, version).len() == 15 + version.len(),
{
    let h = header_bytes(kind, version);
    let b = h + payload;
    lemma_le_round_trip(FORMAT_VERSION, version.len() as u32);
    assert(b.take(8) =~= magic());
    assert(b[8] == le16(FORMAT_VERSION)[0]);
    assert(b[9] == le16(FORMAT_VERSION)[1]);
    assert(b[10] == kind.spec_byte());
    assert(b[11] == le32(version.len() as u32)[0]);
    assert(b[12] == le32(version.len() as u32)[1]);
    assert(b[13] == le32(version.len() as u32)[2]);
    assert(b[14] == le32(version.len() as u32)[3]);
    assert(b.subrange(15, 15 + version.len() as int) =~= version);
}

/// A header written for one kind is refused when another kind is wanted.
pub proof fn law_header_kind_checked(kind: ArtifactKind, wanted: ArtifactKind, version: Seq<u8>, payload: Seq<u8>)
    requires
        version.len() <= u32::MAX,
        kind != wanted,
    ensures
        header_verdict(header_bytes(kind, version) + payload, wanted, version) == Err::<nat, Error>(
            Error::IncompatibleFormat(FormatIssue::WrongKind { found: kind.spec_byte(), expected: wanted.spec_byte() }),
        ),
{
    let b = header_bytes(kind, version) + payload;
    lemma_le_round_trip(FORMAT_VERSION, version.len() as u32);
    assert(b.take(8) =~= magic());
    assert(b[8] == le16(FORMAT_VERSION)[0]);
    assert(b[9] == le16(FORMAT_VERSION)[1]);
    assert(b[10] == kind.spec_byte());
}

} // verus!
