use rezpid::error::DecodeError;
use rezpid::rez::Archive;
use rezpid::rez::DirectoryIterator;
use rezpid::rez::Entry;
use rezpid::rez::EntryContentKind;
use rezpid::rez::reconstruct_file_name;

fn push_u32(v: &mut Vec<u8>, x: u32) {
    v.extend_from_slice(&x.to_le_bytes());
}

/// A header region for a buffer whose directory table sits at
/// `dir_offset` and spans `dir_size` bytes.
fn header_bytes(dir_offset: u32, dir_size: u32) -> Vec<u8> {
    let mut v = Vec::new();
    let description = b"sample archive";
    v.extend_from_slice(description);
    v.resize(127, 0);
    push_u32(&mut v, 7); // version
    push_u32(&mut v, dir_offset);
    push_u32(&mut v, dir_size);
    push_u32(&mut v, 0); // reserved
    push_u32(&mut v, 0); // reserved
    push_u32(&mut v, 0xAABBCCDD); // datetime
    push_u32(&mut v, 0); // reserved
    push_u32(&mut v, 60); // dir_name_max
    push_u32(&mut v, 80); // file_name_max
    assert_eq!(v.len(), 163);
    v
}

/// A directory record: 16-byte common header then a NUL-terminated name.
fn dir_record(body_offset: u32, body_size: u32, datetime: u32, name: &[u8]) -> Vec<u8> {
    let mut v = Vec::new();
    push_u32(&mut v, 1);
    push_u32(&mut v, body_offset);
    push_u32(&mut v, body_size);
    push_u32(&mut v, datetime);
    v.extend_from_slice(name);
    v.push(0);
    v
}

/// A file record: common header, id, reversed extension, four reserved
/// bytes, NUL-terminated name, one trailing reserved byte.
fn file_record(
    body_offset: u32,
    body_size: u32,
    datetime: u32,
    id: u32,
    stored_extension: &[u8],
    name: &[u8],
) -> Vec<u8> {
    let mut v = Vec::new();
    push_u32(&mut v, 0);
    push_u32(&mut v, body_offset);
    push_u32(&mut v, body_size);
    push_u32(&mut v, datetime);
    push_u32(&mut v, id);
    v.extend_from_slice(stored_extension);
    v.push(0);
    v.extend_from_slice(&[0, 0, 0, 0]);
    v.extend_from_slice(name);
    v.push(0);
    v.push(0);
    v
}

fn sentinel() -> Vec<u8> {
    vec![0; 16]
}

/// Builds one archive holding a root with a subdirectory and a file;
/// the subdirectory holds one more file.
///
/// Layout: header (163), root table (70), child table (50), then the
/// two content regions.
fn sample_archive() -> Vec<u8> {
    let mut v = header_bytes(163, 70);
    // root table at 163: directory "SUB" (20 bytes), file "LOGO" (34
    // bytes), sentinel (16 bytes); child table at 233 spans 50 bytes.
    v.extend_from_slice(&dir_record(233, 50, 11, b"SUB"));
    v.extend_from_slice(&file_record(283, 4, 22, 900, b"gip", b"LOGO"));
    v.extend_from_slice(&sentinel());
    assert_eq!(v.len(), 233);
    // child table: file "DATA" (34 bytes) then sentinel.
    v.extend_from_slice(&file_record(287, 2, 33, 901, b"tad", b"DATA"));
    v.extend_from_slice(&sentinel());
    assert_eq!(v.len(), 283);
    v.extend_from_slice(b"IMG1");
    v.extend_from_slice(b"XY");
    v
}

#[test]
fn parse_rejects_short_buffer() {
    let input = vec![0u8; 162];
    assert!(matches!(Archive::parse(&input), Err(DecodeError::TruncatedHeader)));
}

#[test]
fn parse_rejects_out_of_bounds_directory() {
    // The table would end one byte past the buffer.
    let input = header_bytes(163, 1);
    assert!(matches!(Archive::parse(&input), Err(DecodeError::MalformedEntry)));
}

#[test]
fn parse_accepts_directory_ending_at_buffer_end() {
    let mut input = header_bytes(163, 16);
    input.extend_from_slice(&sentinel());
    let archive = Archive::parse(&input).unwrap();
    assert_eq!(archive.root.offset, 163);
    assert_eq!(archive.root.end, 179);
}

#[test]
fn parse_reads_header_fields() {
    let input = sample_archive();
    let archive = Archive::parse(&input).unwrap();
    assert_eq!(&archive.header.description[..14], b"sample archive");
    assert_eq!(archive.header.description.len(), 127);
    assert_eq!(archive.header.version, 7);
    assert_eq!(archive.header.dir_offset, 163);
    assert_eq!(archive.header.dir_size, 70);
    assert_eq!(archive.header.datetime, 0xAABBCCDD);
    assert_eq!(archive.header.dir_name_max, 60);
    assert_eq!(archive.header.file_name_max, 80);
}

fn count_entries(iter: &mut DirectoryIterator, dirs: &mut usize, files: &mut usize) {
    loop {
        match iter.next().expect("well-formed table") {
            None => break,
            Some(Entry { kind: Some(EntryContentKind::Directory { mut children }), .. }) => {
                *dirs += 1;
                count_entries(&mut children, dirs, files);
            }
            Some(Entry { kind: Some(EntryContentKind::File { .. }), .. }) => {
                *files += 1;
            }
            Some(Entry { kind: None, .. }) => panic!("entry without a kind"),
        }
    }
}

#[test]
fn traversal_yields_one_directory_and_two_files() {
    let input = sample_archive();
    let mut archive = Archive::parse(&input).unwrap();
    let mut dirs = 0;
    let mut files = 0;
    count_entries(&mut archive.root, &mut dirs, &mut files);
    assert_eq!(dirs, 1);
    assert_eq!(files, 2);
}

#[test]
fn traversal_in_disk_order_with_all_fields() {
    let input = sample_archive();
    let mut archive = Archive::parse(&input).unwrap();

    let first = archive.root.next().unwrap().expect("first entry");
    assert_eq!(first.name, b"SUB");
    assert_eq!(first.datetime, 11);
    let mut children = match first.kind {
        Some(EntryContentKind::Directory { children }) => children,
        _ => panic!("expected a directory"),
    };
    assert_eq!(children.offset, 233);
    assert_eq!(children.end, 283);

    let second = archive.root.next().unwrap().expect("second entry");
    assert_eq!(second.name, b"LOGO");
    assert_eq!(second.datetime, 22);
    match second.kind {
        Some(EntryContentKind::File { id, extension, content }) => {
            assert_eq!(id, 900);
            assert_eq!(extension, b"gip");
            assert_eq!(content, b"IMG1");
        }
        _ => panic!("expected a file"),
    }

    // The sentinel ends the root listing and is itself never yielded.
    assert!(archive.root.next().unwrap().is_none());

    let nested = children.next().unwrap().expect("nested entry");
    assert_eq!(nested.name, b"DATA");
    assert_eq!(nested.datetime, 33);
    match nested.kind {
        Some(EntryContentKind::File { id, extension, content }) => {
            assert_eq!(id, 901);
            assert_eq!(extension, b"tad");
            assert_eq!(content, b"XY");
        }
        _ => panic!("expected a file"),
    }
    assert!(children.next().unwrap().is_none());
}

#[test]
fn traversal_is_restartable() {
    let input = sample_archive();
    let archive = Archive::parse(&input).unwrap();
    let mut walk = archive.root;
    let saved = walk;
    walk.next().unwrap().expect("first entry");
    walk.next().unwrap().expect("second entry");
    let mut again = saved;
    let first = again.next().unwrap().expect("first entry again");
    assert_eq!(first.name, b"SUB");
}

#[test]
fn cursor_past_buffer_ends_listing() {
    let input = sample_archive();
    let mut iter = DirectoryIterator { input: &input, offset: input.len() + 5, end: input.len() + 5 };
    assert!(iter.next().unwrap().is_none());
}

#[test]
fn truncated_record_header_is_malformed() {
    // Ten bytes remain where a 16-byte record header should start.
    let mut input = header_bytes(163, 10);
    input.extend_from_slice(&[1, 0, 0, 0, 9, 9, 9, 9, 1, 0]);
    let mut archive = Archive::parse(&input).unwrap();
    assert!(matches!(archive.root.next(), Err(DecodeError::MalformedEntry)));
}

#[test]
fn unterminated_name_is_malformed() {
    // A directory record whose name runs to the table's end without a NUL.
    let mut record = Vec::new();
    push_u32(&mut record, 1);
    push_u32(&mut record, 0);
    push_u32(&mut record, 5);
    push_u32(&mut record, 0);
    record.extend_from_slice(b"AB");
    let mut input = header_bytes(163, record.len() as u32);
    input.extend_from_slice(&record);
    let mut archive = Archive::parse(&input).unwrap();
    assert!(matches!(archive.root.next(), Err(DecodeError::MalformedEntry)));
}

#[test]
fn file_content_past_buffer_is_malformed() {
    // A file record whose content range reaches past the buffer.
    let record = file_record(0xFFFF, 4, 0, 1, b"tad", b"X");
    let mut input = header_bytes(163, record.len() as u32);
    input.extend_from_slice(&record);
    let mut archive = Archive::parse(&input).unwrap();
    assert!(matches!(archive.root.next(), Err(DecodeError::MalformedEntry)));
}

#[test]
fn file_name_reconstruction() {
    let full = reconstruct_file_name(b"LOGO", b"gip");
    assert_eq!(full, b"LOGO.pig");
}

#[test]
fn file_name_reconstruction_empty_parts() {
    let full = reconstruct_file_name(b"", b"");
    assert_eq!(full, b".");
}
