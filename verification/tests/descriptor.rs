use vmdkrs::bytessource::MemSource;
use vmdkrs::descriptor::{
    classify_line, extract_parent_fn_hint, read_descriptor_file, read_descriptor_internal,
    read_image_descriptor, LineClass,
};
use vmdkrs::errors::{DescriptorError, OpenError, OpenErrorKind};

fn src(b: &[u8]) -> MemSource {
    MemSource::new(b.to_vec())
}

#[test]
fn test_read_descriptor_file_ok() {
    let desc = r#"
# Disk DescriptorFile
version=1
encoding="UTF-8"
CID=8f67ca74
parentCID=0172e8a4
createType="vmfsSparse"
parentFileNameHint="vmfs_thick.vmdk"
# Extent description
RW 4096 VMFSSPARSE "vmfs_thick-000001-delta.vmdk"

# The Disk Data Base
#DDB

ddb.longContentID = "4b98b55ba6a6bc2e8fd6eb368f67ca74"
"#;

    assert_eq!(read_descriptor_file(&src(desc.as_bytes())).unwrap(), desc);
}

#[test]
fn test_read_descriptor_file_bad() {
    let desc = r#"


Bogus crap
"#;

    assert!(matches!(
        read_descriptor_file(&src(desc.as_bytes())).unwrap_err(),
        OpenError {
            path: _,
            kind: OpenErrorKind::DescriptorError(DescriptorError::UnrecognizedDescriptor)
        }
    ));
}

#[test]
fn read_descriptor_file_of_blank_lines_is_unrecognized() {
    assert!(matches!(
        read_descriptor_file(&src(b"\n  \n\t\n")).unwrap_err(),
        OpenError {
            path: _,
            kind: OpenErrorKind::DescriptorError(DescriptorError::UnrecognizedDescriptor)
        }
    ));
}

#[test]
fn read_descriptor_file_magic_with_trailing_space() {
    let desc = "# Disk DescriptorFile  \r\nRW 1 FLAT \"x\" 0\n";
    assert_eq!(read_descriptor_file(&src(desc.as_bytes())).unwrap(), desc);
}

#[test]
fn read_descriptor_file_bad_utf8_is_an_io_error() {
    let mut b = b"# Disk DescriptorFile\n".to_vec();
    b.extend_from_slice(&[0xFF, 0xFE, b'\n']);
    assert!(matches!(
        read_descriptor_file(&src(&b)).unwrap_err(),
        OpenError { path: _, kind: OpenErrorKind::IoError(_) }
    ));
}

#[test]
fn read_descriptor_file_long_first_line() {
    // a line longer than one read chunk
    let mut desc = String::from("\n# Disk DescriptorFile\n");
    desc.push_str(&"x".repeat(1000));
    desc.push('\n');
    assert_eq!(read_descriptor_file(&src(desc.as_bytes())).unwrap(), desc);
    let bogus = "y".repeat(700);
    assert!(read_descriptor_file(&src(bogus.as_bytes())).is_err());
}

#[test]
fn line_classes() {
    assert_eq!(classify_line("# Disk DescriptorFile\n"), LineClass::Magic);
    assert_eq!(classify_line("# Disk DescriptorFile \t"), LineClass::Magic);
    assert_eq!(classify_line(" # Disk DescriptorFile"), LineClass::Other);
    assert_eq!(classify_line("\r\n"), LineClass::Blank);
    assert_eq!(classify_line(""), LineClass::Blank);
    assert_eq!(classify_line("# Disk Descriptor"), LineClass::Other);
}

#[test]
fn descriptor_internal_reads_up_to_nul() {
    let mut b = vec![0u8; 512];
    b.extend_from_slice(b"# Disk DescriptorFile\nCID=1\n");
    b.push(0);
    b.extend_from_slice(b"junk");
    let s = src(&b);
    assert_eq!(
        read_descriptor_internal(&s, 1).unwrap(),
        "# Disk DescriptorFile\nCID=1\n"
    );
    assert_eq!(read_descriptor_internal(&s, 0).unwrap(), "");
    assert!(read_descriptor_internal(&s, 2).is_err());
}

#[test]
fn descriptor_internal_without_nul_keeps_every_byte() {
    let mut b = vec![0u8; 512];
    b.extend_from_slice(b"abcdef");
    assert_eq!(read_descriptor_internal(&src(&b), 1).unwrap(), "abcdef");
}

#[test]
fn descriptor_internal_reads_at_most_twenty_sectors() {
    let mut b = vec![0u8; 512];
    b.extend_from_slice(&vec![b'a'; 30 * 512]);
    let d = read_descriptor_internal(&src(&b), 1).unwrap();
    assert_eq!(d.len(), 20 * 512);
}

#[test]
fn descriptor_internal_replaces_bad_utf8() {
    let mut b = vec![0u8; 512];
    b.extend_from_slice(&[b'a', 0xFF, b'b', 0]);
    assert_eq!(read_descriptor_internal(&src(&b), 1).unwrap(), "a\u{FFFD}b");
}

#[test]
fn parent_hint_found() {
    let desc = "# Disk DescriptorFile\nCID=1\r\nparentFileNameHint=\"base.vmdk\"\r\nRW 1 SPARSE \"d.vmdk\"\n";
    assert_eq!(extract_parent_fn_hint(desc), Some("base.vmdk".to_string()));
}

#[test]
fn parent_hint_first_of_several() {
    let desc = "parentFileNameHint=\"one.vmdk\"\nparentFileNameHint=\"two.vmdk\"\n";
    assert_eq!(extract_parent_fn_hint(desc), Some("one.vmdk".to_string()));
}

#[test]
fn parent_hint_absent_or_empty() {
    assert_eq!(extract_parent_fn_hint("# Disk DescriptorFile\nCID=1\n"), None);
    assert_eq!(extract_parent_fn_hint("parentFileNameHint=\"\"\n"), None);
    assert_eq!(extract_parent_fn_hint(" parentFileNameHint=\"x.vmdk\"\n"), None);
}

#[test]
fn parent_hint_unterminated_quote() {
    assert_eq!(
        extract_parent_fn_hint("parentFileNameHint=\"dir/base.vmdk"),
        Some("dir/base.vmdk".to_string())
    );
}

#[test]
fn image_descriptor_of_a_descriptor_file() {
    let desc = "# Disk DescriptorFile\nRW 8 FLAT \"f.vmdk\" 0\n";
    assert_eq!(read_image_descriptor(&src(desc.as_bytes())).unwrap(), desc);
}

#[test]
fn image_descriptor_of_a_short_file() {
    assert!(read_image_descriptor(&src(b"# Di")).is_err());
}

#[test]
fn image_descriptor_of_a_cowd_file_is_unrecognized() {
    let mut b = b"COWD".to_vec();
    b.extend_from_slice(&[0u8; 60]);
    assert!(matches!(
        read_image_descriptor(&src(&b)).unwrap_err(),
        OpenError {
            path: _,
            kind: OpenErrorKind::DescriptorError(DescriptorError::UnrecognizedDescriptor)
        }
    ));
}

#[test]
fn read_descriptor_internal_at_an_offset_past_the_largest() {
    let s = src(&[b'a'; 1024]);
    assert!(read_descriptor_internal(&s, u64::MAX).is_err());
}
