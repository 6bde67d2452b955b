use ferrobus_core::error::{Error, FormatIssue};
use ferrobus_core::persist::{encode_header, parse_header, ArtifactKind, FIXED_HEADER_LEN, FORMAT_VERSION};

const VERSION: &[u8] = b"0.1.0";

#[test]
fn rejects_file_without_magic() {
    let bytes = b"not a ferrobus file at all";
    let result = parse_header(bytes, ArtifactKind::IsochroneIndex, VERSION);
    assert!(matches!(result, Err(Error::IncompatibleFormat(FormatIssue::NotAnArtifact))));
}

#[test]
fn rejects_wrong_artifact_kind() {
    let mut file = encode_header(ArtifactKind::IsochroneIndex, VERSION);
    file.extend_from_slice(b"payload");
    let result = parse_header(&file, ArtifactKind::TransitModel, VERSION);
    assert!(matches!(result, Err(Error::IncompatibleFormat(FormatIssue::WrongKind { found: 2, expected: 1 }))));
}

#[test]
fn isochrone_index_round_trips() {
    let mut file = encode_header(ArtifactKind::IsochroneIndex, VERSION);
    let payload = b"grid and points";
    file.extend_from_slice(payload);
    let offset = parse_header(&file, ArtifactKind::IsochroneIndex, VERSION).expect("index header should be accepted");
    assert_eq!(offset, FIXED_HEADER_LEN + VERSION.len());
    assert_eq!(&file[offset..], payload);
}

#[test]
fn test_load_rejects_foreign_file() {
    let result = parse_header(b"this is definitely not a transit model", ArtifactKind::TransitModel, VERSION);
    assert!(matches!(result, Err(Error::IncompatibleFormat(FormatIssue::NotAnArtifact))));
}

#[test]
fn test_load_rejects_truncated_file() {
    let file = encode_header(ArtifactKind::TransitModel, VERSION);
    for cut in 8..file.len() {
        let result = parse_header(&file[..cut], ArtifactKind::TransitModel, VERSION);
        assert!(matches!(result, Err(Error::UnexpectedEof)), "a truncated file must not load");
    }
}

#[test]
fn header_layout_is_magic_version_kind_and_crate_version() {
    let header = encode_header(ArtifactKind::TransitModel, VERSION);
    assert_eq!(&header[..8], b"FERROBUS");
    assert_eq!(u16::from_le_bytes([header[8], header[9]]), FORMAT_VERSION);
    assert_eq!(header[10], 1);
    assert_eq!(u32::from_le_bytes([header[11], header[12], header[13], header[14]]), 5);
    assert_eq!(&header[15..], VERSION);
}

#[test]
fn other_builds_and_versions_are_refused() {
    let header = encode_header(ArtifactKind::TransitModel, VERSION);
    assert!(matches!(
        parse_header(&header, ArtifactKind::TransitModel, b"0.2.0"),
        Err(Error::IncompatibleFormat(FormatIssue::CrateVersionMismatch))
    ));
    let mut old = header.clone();
    old[8] = 1;
    assert!(matches!(
        parse_header(&old, ArtifactKind::TransitModel, VERSION),
        Err(Error::IncompatibleFormat(FormatIssue::UnsupportedVersion { found: 1 }))
    ));
    let mut unknown = header.clone();
    unknown[10] = 9;
    assert!(matches!(
        parse_header(&unknown, ArtifactKind::TransitModel, VERSION),
        Err(Error::IncompatibleFormat(FormatIssue::UnknownKind { byte: 9 }))
    ));
}

#[test]
fn artifact_kinds_have_bytes_and_names() {
    assert_eq!(ArtifactKind::TransitModel.byte(), 1);
    assert_eq!(ArtifactKind::IsochroneIndex.byte(), 2);
    assert_eq!(ArtifactKind::from_byte(2), Some(ArtifactKind::IsochroneIndex));
    assert_eq!(ArtifactKind::from_byte(0), None);
    assert_eq!(ArtifactKind::TransitModel.name(), "transit model");
    assert_eq!(ArtifactKind::IsochroneIndex.name(), "isochrone index");
}

#[test]
fn artifacts_written_before_edge_snapping_must_be_rebuilt() {
    let mut header = encode_header(ArtifactKind::IsochroneIndex, VERSION);
    assert_eq!(u16::from_le_bytes([header[8], header[9]]), 3);
    header[8] = 2;
    header[9] = 0;
    assert!(matches!(
        parse_header(&header, ArtifactKind::IsochroneIndex, VERSION),
        Err(Error::IncompatibleFormat(FormatIssue::UnsupportedVersion { found: 2 }))
    ));
}
