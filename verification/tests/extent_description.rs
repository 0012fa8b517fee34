use std::str::FromStr;
use vmdkrs::extent_description::{
    extract_extent_descriptions, AccessMode, ExtentDescription, ExtentDescriptionInner,
    ExtentDescriptionLine, ExtentKind, ParseAccessModeError, ParseExtentDescriptionError,
    ParseExtentKindError,
};

#[test]
fn read_extent_description_line_sparse() {
    let ed = r#"RW 4192256 SPARSE "test-f001.vmdk""#;
    assert_eq!(
        ed.parse::<ExtentDescriptionLine>().unwrap(),
        ExtentDescriptionLine {
            access_mode: AccessMode::Rw,
            sectors: 4192256,
            kind: ExtentKind::Sparse,
            filename: Some("test-f001.vmdk".into()),
            offset: None
        }
    );
}

#[test]
fn read_extent_description_line_flat() {
    let ed = r#"RW 1048576 FLAT "test-f001.vmdk" 0"#;
    assert_eq!(
        ed.parse::<ExtentDescriptionLine>().unwrap(),
        ExtentDescriptionLine {
            access_mode: AccessMode::Rw,
            sectors: 1048576,
            kind: ExtentKind::Flat,
            filename: Some("test-f001.vmdk".into()),
            offset: Some(0)
        }
    );
}

// The kind must be followed by more of the line: a line that ends with its
// kind is refused.
#[test]
fn read_extent_description_line_ending_with_kind() {
    assert_eq!(
        "RDONLY 12345 ZERO".parse::<ExtentDescriptionLine>(),
        Err(ParseExtentDescriptionError)
    );
}

#[test]
fn read_extent_description_line_vmfs() {
    let ed = "  RDONLY 12345 VMFS \"base-flat.vmdk\"  ";
    assert_eq!(
        ed.parse::<ExtentDescriptionLine>().unwrap(),
        ExtentDescriptionLine {
            access_mode: AccessMode::RdOnly,
            sectors: 12345,
            kind: ExtentKind::Vmfs,
            filename: Some("base-flat.vmdk".into()),
            offset: None
        }
    );
}

#[test]
fn read_extent_description_line_bad_kind() {
    assert_eq!(
        r#"RW 10 BOGUS "x.vmdk""#.parse::<ExtentDescriptionLine>(),
        Err(ParseExtentDescriptionError)
    );
}

#[test]
fn read_extent_description_line_bad_sectors() {
    assert_eq!(
        r#"RW ten SPARSE "x.vmdk""#.parse::<ExtentDescriptionLine>(),
        Err(ParseExtentDescriptionError)
    );
}

#[test]
fn access_mode_words() {
    assert_eq!(AccessMode::from_str("NOACCESS"), Ok(AccessMode::NoAccess));
    assert_eq!(AccessMode::from_str("RDONLY"), Ok(AccessMode::RdOnly));
    assert_eq!(AccessMode::from_str("RW"), Ok(AccessMode::Rw));
    assert_eq!(AccessMode::from_str("rw"), Err(ParseAccessModeError));
}

#[test]
fn extent_kind_words() {
    assert_eq!(ExtentKind::from_str("SPARSE"), Ok(ExtentKind::Sparse));
    assert_eq!(ExtentKind::from_str("VMFSSPARSE"), Ok(ExtentKind::VmfsSparse));
    assert_eq!(ExtentKind::from_str("SESPARSE"), Ok(ExtentKind::SeSparse));
    assert_eq!(ExtentKind::from_str("VMFSRDM"), Ok(ExtentKind::VmfsRdm));
    assert_eq!(ExtentKind::from_str("FLATTER"), Err(ParseExtentKindError));
}

#[test]
fn description_from_line() {
    let l = r#"RW 2048 FLAT "disk-flat.vmdk" 128"#.parse::<ExtentDescriptionLine>().unwrap();
    assert_eq!(
        ExtentDescription::from_line(l).unwrap(),
        ExtentDescription {
            access_mode: AccessMode::Rw,
            sectors: 2048,
            kind: ExtentDescriptionInner::Flat {
                filename: "disk-flat.vmdk".into(),
                offset: 128
            }
        }
    );
}

#[test]
fn description_from_line_sparse_with_offset_is_refused() {
    let l = r#"RW 2048 SPARSE "disk.vmdk" 7"#.parse::<ExtentDescriptionLine>().unwrap();
    assert_eq!(ExtentDescription::from_line(l), Err(ParseExtentDescriptionError));
}

#[test]
fn extract_descriptions_from_descriptor() {
    let desc = "# Disk DescriptorFile\r\nversion=1\r\n\r\n# Extent description\r\nRW 100 SPARSE \"a.vmdk\"\r\n  RDONLY 50 VMFS \"c.vmdk\"\r\nRW 20 FLAT \"b.vmdk\" 3\r\n\r\nddb.adapterType = \"ide\"\r\n";
    let eds = extract_extent_descriptions(desc).unwrap();
    assert_eq!(eds.len(), 3);
    assert_eq!(
        eds[0],
        ExtentDescription {
            access_mode: AccessMode::Rw,
            sectors: 100,
            kind: ExtentDescriptionInner::Sparse { filename: "a.vmdk".into() }
        }
    );
    assert_eq!(eds[1].kind, ExtentDescriptionInner::Vmfs { filename: "c.vmdk".into() });
    assert_eq!(eds[1].access_mode, AccessMode::RdOnly);
    assert_eq!(eds[2].filename(), Some("b.vmdk"));
    assert_eq!(ExtentKind::of_inner(&eds[2].kind), ExtentKind::Flat);
    assert_eq!(ExtentKind::from(&eds[0].kind), ExtentKind::Sparse);
}

#[test]
fn extract_descriptions_with_a_bad_extent_line() {
    let desc = "# Disk DescriptorFile\nRW 100 SPARSE\n";
    assert_eq!(extract_extent_descriptions(desc), Err(ParseExtentDescriptionError));
}
