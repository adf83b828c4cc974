use userspace_fs::bytes::{
    copy_range, put, read_u16, read_u32, same_bytes, write_u16, write_u32, zeroed,
};
use userspace_fs::dirent::{decode_dirent, encode_dirent, Dirent};
use userspace_fs::error::FsError;
use userspace_fs::inode::InodeType;
use userspace_fs::node::list_names;
use userspace_fs::path::split_path;
use userspace_fs::superblock::plan;
use userspace_fs::text::{i32_text, joined, same_text, split_components, u32_text};

fn entry(active: u8, kind: InodeType, inode_id: u32, name: &str) -> Dirent {
    Dirent { active, kind, inode_id, name: name.to_string() }
}

#[test]
fn words_are_little_endian() {
    assert_eq!(read_u32(&[0x53, 0x46, 0x53, 0x55], 0), 0x5553_4653);
    assert_eq!(read_u16(&[0, 0x34, 0x12], 1), 0x1234);
    let mut b = zeroed(6);
    write_u32(&mut b, 1, 0x0102_0304);
    assert_eq!(b, vec![0, 4, 3, 2, 1, 0]);
    write_u16(&mut b, 4, 0xabcd);
    assert_eq!(b, vec![0, 4, 3, 2, 0xcd, 0xab]);
    assert_eq!(read_u32(&b, 1), 0xcd02_0304);
}

#[test]
fn words_survive_being_stored() {
    for v in [0u32, 1, 255, 256, 0xffff, 0x1_0000, 0x8000_0000, u32::MAX] {
        let mut b = zeroed(4);
        write_u32(&mut b, 0, v);
        assert_eq!(read_u32(&b, 0), v);
    }
    for v in [0u16, 1, 255, 256, u16::MAX] {
        let mut b = zeroed(2);
        write_u16(&mut b, 0, v);
        assert_eq!(read_u16(&b, 0), v);
    }
}

#[test]
fn ranges_of_bytes() {
    let mut b = vec![1, 2, 3, 4, 5];
    put(&mut b, 1, &[9, 8]);
    assert_eq!(b, vec![1, 9, 8, 4, 5]);
    assert_eq!(copy_range(&b, 1, 4), vec![9, 8, 4]);
    assert_eq!(copy_range(&b, 2, 2), Vec::<u8>::new());
    assert!(same_bytes(&[1, 2], &[1, 2]));
    assert!(!same_bytes(&[1, 2], &[1, 3]));
    assert!(!same_bytes(&[1, 2], &[1, 2, 0]));
}

#[test]
fn numbers_as_text() {
    assert_eq!(u32_text(0), "0");
    assert_eq!(u32_text(907), "907");
    assert_eq!(u32_text(u32::MAX), "4294967295");
    assert_eq!(i32_text(0), "0");
    assert_eq!(i32_text(-42), "-42");
    assert_eq!(i32_text(i32::MIN), "-2147483648");
    assert_eq!(i32_text(i32::MAX), "2147483647");
    assert_eq!(joined("fd ", "7"), "fd 7");
    assert!(same_text("a/b", "a/b"));
    assert!(!same_text("a/b", "a/c"));
    assert!(!same_text("", "a"));
}

#[test]
fn paths_split_at_separators() {
    assert_eq!(split_components("/a//b/c/"), vec!["a", "b", "c"]);
    assert_eq!(split_components("///"), Vec::<String>::new());
    assert_eq!(
        split_path("/docs/hello.txt"),
        Ok(vec!["docs".to_string(), "hello.txt".to_string()])
    );
    assert_eq!(split_path("/"), Ok(Vec::new()));
    assert_eq!(
        split_path("/\u{e9}t\u{e9}/x"),
        Ok(vec!["\u{e9}t\u{e9}".to_string(), "x".to_string()])
    );
    assert_eq!(split_path("docs"), Err(FsError::InvalidPath("docs".to_string())));
    assert_eq!(split_path(""), Err(FsError::InvalidPath(String::new())));
}

#[test]
fn kinds_have_codes() {
    assert_eq!(InodeType::Free.code(), 0);
    assert_eq!(InodeType::File.code(), 1);
    assert_eq!(InodeType::Dir.code(), 2);
    assert_eq!(InodeType::from_code(1), InodeType::File);
    assert_eq!(InodeType::from_code(2), InodeType::Dir);
    assert_eq!(InodeType::from_code(0), InodeType::Free);
    assert_eq!(InodeType::from_code(77), InodeType::Free);
}

#[test]
fn directory_record_layout() {
    let b = encode_dirent(&entry(1, InodeType::File, 0x0102_0304, "abc"));
    assert_eq!(b.len(), 264);
    assert_eq!(b[..11], [1, 1, 3, 0, 4, 3, 2, 1, b'a', b'b', b'c']);
    assert!(b[11..].iter().all(|&x| x == 0));
}

#[test]
fn directory_record_round_trip() {
    for name in ["", ".", "..", "readme.md", "\u{65e5}\u{672c}"] {
        let e = decode_dirent(&encode_dirent(&entry(1, InodeType::Dir, 77, name))).unwrap();
        assert_eq!((e.active, e.kind, e.inode_id, e.name.as_str()), (1, InodeType::Dir, 77, name));
    }
}

#[test]
fn long_names_are_cut() {
    let long = "x".repeat(300);
    let e = decode_dirent(&encode_dirent(&entry(1, InodeType::File, 5, &long))).unwrap();
    assert_eq!(e.name, "x".repeat(255));
    let exact = "y".repeat(255);
    let e = decode_dirent(&encode_dirent(&entry(0, InodeType::File, 5, &exact))).unwrap();
    assert_eq!((e.active, e.name), (0, exact));
}

#[test]
fn a_cut_character_is_replaced() {
    // The cut falls inside the last two-byte character.
    let name = format!("{}\u{e9}", "a".repeat(254));
    let e = decode_dirent(&encode_dirent(&entry(1, InodeType::File, 5, &name))).unwrap();
    assert_eq!(e.name, format!("{}\u{fffd}", "a".repeat(254)));
}

#[test]
fn a_name_that_leaves_its_record_is_corrupt() {
    let mut b = encode_dirent(&entry(1, InodeType::File, 5, "abc"));
    write_u16(&mut b, 2, 257);
    assert!(matches!(decode_dirent(&b), Err(FsError::Corrupt)));
    write_u16(&mut b, 2, 256);
    assert_eq!(decode_dirent(&b).unwrap().name.len(), 256);
    assert!(matches!(decode_dirent(&[1, 1, 0, 0]), Err(FsError::Corrupt)));
    assert!(matches!(decode_dirent(&[1, 1, 0, 0, 9, 0, 0]), Err(FsError::Corrupt)));
    assert_eq!(decode_dirent(&[1, 1, 0, 0, 9, 0, 0, 0]).unwrap().inode_id, 9);
}

#[test]
fn listings_hide_the_own_entries() {
    let es = vec![
        entry(1, InodeType::Dir, 4, "."),
        entry(1, InodeType::Dir, 0, ".."),
        entry(1, InodeType::File, 5, "b"),
        entry(1, InodeType::File, 6, "..."),
        entry(1, InodeType::File, 7, "a"),
    ];
    assert_eq!(list_names(es), vec!["b", "...", "a"]);
}

#[test]
fn regions_of_an_image() {
    let sb = plan(4096);
    assert_eq!(sb.total_blocks, 4096);
    assert_eq!((sb.journal_start, sb.journal_blocks), (1, 64));
    assert_eq!((sb.inode_bitmap_start, sb.inode_bitmap_blocks), (65, 1));
    assert_eq!((sb.block_bitmap_start, sb.block_bitmap_blocks), (66, 1));
    assert_eq!((sb.inode_table_start, sb.inode_table_blocks), (67, 32));
    assert_eq!(sb.data_start, 99);
    assert_eq!((sb.clean, sb.sequence), (1, 1));
    let sb = plan(32769);
    assert_eq!((sb.block_bitmap_blocks, sb.inode_table_start, sb.data_start), (2, 68, 100));
    assert_eq!(plan(u32::MAX).block_bitmap_blocks, 131072);
}

#[test]
fn errors_as_text() {
    let s = "x".to_string();
    assert_eq!(FsError::Io(s.clone()).message(), "io error: x");
    assert_eq!(FsError::Corrupt.message(), "corrupt filesystem");
    assert_eq!(FsError::NotFound(s.clone()).message(), "not found: x");
    assert_eq!(FsError::AlreadyExists(s.clone()).message(), "already exists: x");
    assert_eq!(FsError::NotDir(s.clone()).message(), "not a directory: x");
    assert_eq!(FsError::IsDir(s.clone()).message(), "is a directory: x");
    assert_eq!(FsError::NoSpace.message(), "no space");
    assert_eq!(FsError::InvalidPath(s).message(), "invalid path: x");
    assert_eq!(FsError::Fault.message(), "value out of range");
}
