use userspace_fs::bitmap::{alloc_data_block, alloc_from_bitmap, alloc_inode, set_bitmap_bit};
use userspace_fs::directory::{insert_dirent, lookup_dir, read_dir_entries, remove_dirent};
use userspace_fs::dirent::Dirent;
use userspace_fs::disk::Disk;
use userspace_fs::error::FsError;
use userspace_fs::file::{free_inode_data, read_file_bytes, write_file_bytes};
use userspace_fs::inode::{inode_offset, read_inode, write_inode, Inode, InodeType};
use userspace_fs::journal::{append_journal_marker, replay_journal};
use userspace_fs::node::{create_node, format_fs, remove_node};
use userspace_fs::path::{resolve_parent, resolve_path};
use userspace_fs::superblock::{plan, read_superblock, write_superblock, Superblock};

fn formatted(blocks: u32) -> (Disk, Superblock) {
    let mut disk = Disk::new(0);
    format_fs(&mut disk, blocks).unwrap();
    (disk, plan(blocks))
}

fn past_end() -> FsError {
    FsError::Io("failed to fill whole buffer".to_string())
}

#[test]
fn blocks_are_padded_and_cut() {
    let mut disk = Disk::new(8192);
    disk.write_block(1, &[7, 8]);
    let b = disk.read_block(1).unwrap();
    assert_eq!(b.len(), 4096);
    assert_eq!(b[..3], [7, 8, 0]);
    disk.write_block(1, &[9; 5000]);
    assert_eq!(disk.read_block(1).unwrap(), vec![9; 4096]);
    assert_eq!(disk.read_block(0).unwrap(), vec![0; 4096]);
}

#[test]
fn reads_stop_at_the_end_and_writes_grow() {
    let mut disk = Disk::new(5000);
    assert!(disk.read_block(0).is_ok());
    assert_eq!(disk.read_block(1), Err(past_end()));
    disk.write_block(3, &[1]);
    assert_eq!(disk.size(), 16384);
    assert_eq!(disk.read_block(2).unwrap(), vec![0; 4096]);
    assert_eq!(disk.read_block(4), Err(past_end()));
}

#[test]
fn filling_and_pending_writes() {
    let mut disk = Disk::new(6000);
    assert!(disk.fill(0, &[5; 4096]));
    assert!(disk.fill(1, &[6; 1904]));
    assert!(!disk.fill(1, &[6; 1905]));
    assert!(!disk.fill(0, &[6; 4097]));
    assert_eq!(disk.read_block(0).unwrap(), vec![5; 4096]);
    disk.write_block(1, &[2]);
    disk.write_block(0, &[3]);
    assert!(!disk.fill(0, &[1]));
    let writes = disk.take_writes();
    assert_eq!(writes.len(), 2);
    assert_eq!((writes[0].block, writes[0].data[0]), (1, 2));
    assert_eq!((writes[1].block, writes[1].data[0]), (0, 3));
    assert_eq!(writes[0].data.len(), 4096);
    assert!(disk.take_writes().is_empty());
    assert_eq!(disk.read_block(1).unwrap()[0], 2);
}

#[test]
fn superblock_is_read_back() {
    let mut disk = Disk::new(0);
    let mut sb = plan(4096);
    sb.clean = 0;
    sb.sequence = 0xdead_beef;
    write_superblock(&mut disk, &sb);
    assert_eq!(read_superblock(&disk), Ok(sb));
    let b = disk.read_block(0).unwrap();
    assert_eq!(b[..16], [0x53, 0x46, 0x53, 0x55, 1, 0, 0, 0, 0, 16, 0, 0, 0, 16, 0, 0]);
    assert!(b[60..].iter().all(|&x| x == 0));
}

#[test]
fn a_foreign_image_is_corrupt() {
    let mut disk = Disk::new(0);
    assert_eq!(read_superblock(&disk), Err(past_end()));
    disk.write_block(0, &[0x53, 0x46, 0x53, 0x55, 2]);
    assert_eq!(read_superblock(&disk), Err(FsError::Corrupt));
    disk.write_block(0, &[0; 4096]);
    assert_eq!(read_superblock(&disk), Err(FsError::Corrupt));
}

#[test]
fn the_first_free_bit_wins() {
    let mut disk = Disk::new(3 * 4096);
    assert_eq!(alloc_from_bitmap(&mut disk, 0, 2), Ok(0));
    assert_eq!(alloc_from_bitmap(&mut disk, 0, 2), Ok(1));
    disk.write_block(0, &[0xff, 0xef]);
    assert_eq!(alloc_from_bitmap(&mut disk, 0, 2), Ok(12));
    assert_eq!(disk.read_block(0).unwrap()[..3], [0xff, 0xff, 0]);
    disk.write_block(0, &[0xff; 4096]);
    assert_eq!(alloc_from_bitmap(&mut disk, 0, 2), Ok(32768));
    disk.write_block(1, &[0xff; 4096]);
    assert_eq!(alloc_from_bitmap(&mut disk, 0, 2), Err(FsError::NoSpace));
    assert_eq!(alloc_from_bitmap(&mut disk, 0, 0), Err(FsError::NoSpace));
    assert_eq!(alloc_from_bitmap(&mut disk, 3, 1), Err(past_end()));
}

#[test]
fn bits_are_switched_alone() {
    let mut disk = Disk::new(8192);
    set_bitmap_bit(&mut disk, 0, 9, true).unwrap();
    set_bitmap_bit(&mut disk, 0, 32768 + 15, true).unwrap();
    assert_eq!(disk.read_block(0).unwrap()[..3], [0, 2, 0]);
    assert_eq!(disk.read_block(1).unwrap()[..3], [0, 0x80, 0]);
    disk.write_block(0, &[0xff, 0xff]);
    set_bitmap_bit(&mut disk, 0, 9, false).unwrap();
    assert_eq!(disk.read_block(0).unwrap()[..3], [0xff, 0xfd, 0]);
    assert_eq!(set_bitmap_bit(&mut disk, 0, 70000, true), Err(past_end()));
    assert_eq!(set_bitmap_bit(&mut disk, u32::MAX, 32768, true), Err(FsError::Fault));
}

#[test]
fn clearing_undoes_claiming() {
    let mut disk = Disk::new(2 * 4096);
    let mut first = vec![0xff; 4096];
    first[100] = 0x5f;
    for bytes in [first, vec![0xff; 4096]] {
        disk.write_block(0, &bytes);
        disk.write_block(1, &[0xff, 0xa7]);
        let before = (disk.read_block(0).unwrap(), disk.read_block(1).unwrap());
        let k = alloc_from_bitmap(&mut disk, 0, 2).unwrap();
        assert_ne!((disk.read_block(0).unwrap(), disk.read_block(1).unwrap()), before);
        set_bitmap_bit(&mut disk, 0, k as u32, false).unwrap();
        assert_eq!((disk.read_block(0).unwrap(), disk.read_block(1).unwrap()), before);
        assert_eq!(alloc_from_bitmap(&mut disk, 0, 2), Ok(k));
    }
    assert_eq!(alloc_from_bitmap(&mut disk, 0, 2), Ok(32768 + 12));
}

#[test]
fn switching_a_bit_again_changes_nothing() {
    let mut disk = Disk::new(4096);
    disk.write_block(0, &[0x0f]);
    for on in [true, false] {
        set_bitmap_bit(&mut disk, 0, 5, on).unwrap();
        let once = disk.read_block(0).unwrap();
        assert_eq!(once[0], if on { 0x2f } else { 0x0f });
        set_bitmap_bit(&mut disk, 0, 5, on).unwrap();
        assert_eq!(disk.read_block(0).unwrap(), once);
    }
}

#[test]
fn a_new_image_claims_root_and_first_block() {
    let (mut disk, sb) = formatted(200);
    assert_eq!(disk.size(), 200 * 4096);
    assert_eq!(read_superblock(&disk), Ok(sb));
    let root = read_inode(&disk, &sb, 0).unwrap();
    assert_eq!((root.id, root.kind, root.links, root.size), (0, InodeType::Dir, 2, 528));
    assert_eq!(root.direct, [99, 0, 0, 0, 0, 0, 0, 0, 0, 0, 0, 0]);
    assert_eq!(alloc_inode(&mut disk, &sb), Ok(1));
    assert_eq!(alloc_data_block(&mut disk, &sb), Ok(100));
    assert_eq!(read_inode(&disk, &sb, 5).unwrap().kind, InodeType::Free);
}

#[test]
fn formatting_needs_a_data_block() {
    let mut disk = Disk::new(0);
    assert_eq!(format_fs(&mut disk, 99), Err(FsError::NoSpace));
    assert_eq!(disk.size(), 99 * 4096);
    assert!(disk.take_writes().is_empty());
    assert_eq!(format_fs(&mut disk, 0), Err(FsError::NoSpace));
    assert_eq!(format_fs(&mut disk, 100), Ok(()));
    let blocks: Vec<u32> = disk.take_writes().iter().map(|w| w.block).collect();
    assert_eq!(blocks, vec![0, 65, 66, 99, 67]);
}

#[test]
fn inodes_are_read_back() {
    let (mut disk, sb) = formatted(200);
    let direct = [1, 2, 3, 4, 5, 6, 7, 8, 9, 10, 11, 0xffff_fffe];
    let inode = Inode { id: 33, kind: InodeType::File, links: 3, size: 49152, direct };
    write_inode(&mut disk, &sb, &inode).unwrap();
    let back = read_inode(&disk, &sb, 33).unwrap();
    assert_eq!((back.id, back.kind, back.links, back.size), (33, InodeType::File, 3, 49152));
    assert_eq!(back.direct, direct);
    assert_eq!(read_inode(&disk, &sb, 32).unwrap().kind, InodeType::Free);
    assert_eq!(read_inode(&disk, &sb, 34).unwrap().kind, InodeType::Free);
    assert_eq!(inode_offset(&sb, 33), Ok((68, 128)));
    let mut far = sb;
    far.inode_table_start = u32::MAX;
    assert_eq!(inode_offset(&far, 32), Err(FsError::Fault));
    assert!(matches!(read_inode(&disk, &far, 32), Err(FsError::Fault)));
}

#[test]
fn journal_markers_line_up() {
    let (mut disk, sb) = formatted(200);
    append_journal_marker(&mut disk, &sb, b"TX_BEGIN").unwrap();
    append_journal_marker(&mut disk, &sb, b"TX_COMMIT").unwrap();
    let b = disk.read_block(1).unwrap();
    assert_eq!(b[..12], [8, 0, 0, 0, b'T', b'X', b'_', b'B', b'E', b'G', b'I', b'N']);
    assert_eq!(b[12..16], [9, 0, 0, 0]);
    assert_eq!(&b[16..25], b"TX_COMMIT");
    assert!(b[25..].iter().all(|&x| x == 0));
}

#[test]
fn journal_starts_over_when_full() {
    let (mut disk, sb) = formatted(200);
    for _ in 0..163 {
        append_journal_marker(&mut disk, &sb, b"TX_BEGIN").unwrap();
        append_journal_marker(&mut disk, &sb, b"TX_COMMIT").unwrap();
    }
    append_journal_marker(&mut disk, &sb, b"TX_BEGIN").unwrap();
    assert_eq!(disk.read_block(1).unwrap()[4087..], [0; 9]);
    append_journal_marker(&mut disk, &sb, b"TX_COMMIT").unwrap();
    let b = disk.read_block(1).unwrap();
    assert_eq!(b[..4], [9, 0, 0, 0]);
    assert!(b[13..].iter().all(|&x| x == 0));
    assert_eq!(replay_journal(&mut disk, &sb), Ok(()));
}

#[test]
fn journal_check_refuses_an_open_change() {
    let (mut disk, sb) = formatted(200);
    append_journal_marker(&mut disk, &sb, b"TX_BEGIN").unwrap();
    let before = disk.read_block(1).unwrap();
    assert_eq!(replay_journal(&mut disk, &sb), Err(FsError::Corrupt));
    assert_eq!(disk.read_block(1).unwrap(), before);
    append_journal_marker(&mut disk, &sb, b"TX_COMMIT").unwrap();
    assert_eq!(replay_journal(&mut disk, &sb), Ok(()));
    assert_eq!(disk.read_block(1).unwrap(), vec![0; 4096]);
}

#[test]
fn journal_check_passes_over_other_markers() {
    let (mut disk, sb) = formatted(200);
    append_journal_marker(&mut disk, &sb, b"NOTE").unwrap();
    append_journal_marker(&mut disk, &sb, b"TX_BEGIN").unwrap();
    append_journal_marker(&mut disk, &sb, b"NOTE").unwrap();
    append_journal_marker(&mut disk, &sb, b"TX_COMMIT").unwrap();
    append_journal_marker(&mut disk, &sb, b"NOTE").unwrap();
    assert_eq!(replay_journal(&mut disk, &sb), Ok(()));
    append_journal_marker(&mut disk, &sb, b"TX_BEGIN").unwrap();
    append_journal_marker(&mut disk, &sb, b"NOTE").unwrap();
    assert_eq!(replay_journal(&mut disk, &sb), Err(FsError::Corrupt));
}

#[test]
fn journal_check_pairs_begin_and_commit() {
    let (mut disk, sb) = formatted(200);
    disk.write_block(1, b"\x08\0\0\0TX_BEGIN\x09\0\0\0TX_COMMIT\x08\0\0\0TX_BEGIN");
    let before = disk.read_block(1).unwrap();
    disk.take_writes();
    assert_eq!(replay_journal(&mut disk, &sb), Err(FsError::Corrupt));
    assert!(disk.take_writes().is_empty());
    assert_eq!(disk.read_block(1).unwrap(), before);
    append_journal_marker(&mut disk, &sb, b"TX_BEGIN").unwrap();
    append_journal_marker(&mut disk, &sb, b"TX_COMMIT").unwrap();
    assert_eq!(replay_journal(&mut disk, &sb), Ok(()));
    disk.write_block(1, b"\x09\0\0\0TX_COMMIT");
    assert_eq!(replay_journal(&mut disk, &sb), Ok(()));
    disk.write_block(1, b"\x09\0\0\0TX_COMMIT\x08\0\0\0TX_BEGIN");
    assert_eq!(replay_journal(&mut disk, &sb), Err(FsError::Corrupt));
}

#[test]
fn entries_come_and_go() {
    let (mut disk, sb) = formatted(200);
    let e = Dirent { active: 1, kind: InodeType::File, inode_id: 7, name: "seven".to_string() };
    insert_dirent(&mut disk, &sb, 0, &e).unwrap();
    assert_eq!(lookup_dir(&disk, &sb, 0, "seven"), Ok(Some(7)));
    assert_eq!(lookup_dir(&disk, &sb, 0, "eight"), Ok(None));
    assert_eq!(lookup_dir(&disk, &sb, 0, ".."), Ok(Some(0)));
    assert_eq!(lookup_dir(&disk, &sb, 7, "x"), Err(FsError::NotDir("x".to_string())));
    remove_dirent(&mut disk, &sb, 0, "seven").unwrap();
    assert_eq!(lookup_dir(&disk, &sb, 0, "seven"), Ok(None));
    assert_eq!(
        remove_dirent(&mut disk, &sb, 0, "seven"),
        Err(FsError::NotFound("seven".to_string()))
    );
    let root = read_inode(&disk, &sb, 0).unwrap();
    assert_eq!(root.size, 3 * 264);
    assert_eq!(read_dir_entries(&disk, &root).unwrap().len(), 2);
}

#[test]
fn a_directory_holds_fifteen_records() {
    let (mut disk, sb) = formatted(200);
    for k in 0..13u32 {
        let e = Dirent { active: 1, kind: InodeType::File, inode_id: k, name: format!("f{}", k) };
        insert_dirent(&mut disk, &sb, 0, &e).unwrap();
    }
    let e = Dirent { active: 1, kind: InodeType::File, inode_id: 1, name: "more".to_string() };
    assert_eq!(insert_dirent(&mut disk, &sb, 0, &e), Err(FsError::NoSpace));
    remove_dirent(&mut disk, &sb, 0, "f3").unwrap();
    assert_eq!(insert_dirent(&mut disk, &sb, 0, &e), Err(FsError::NoSpace));
}

#[test]
fn contents_are_replaced_whole() {
    let (mut disk, sb) = formatted(200);
    create_node(&mut disk, &sb, "/f", InodeType::File).unwrap();
    let data: Vec<u8> = (0..9000u32).map(|i| (i % 251) as u8).collect();
    write_file_bytes(&mut disk, &sb, 1, &data).unwrap();
    assert_eq!(read_file_bytes(&disk, &sb, 1).unwrap(), data);
    let inode = read_inode(&disk, &sb, 1).unwrap();
    assert_eq!((inode.size, inode.direct[..4].to_vec()), (9000, vec![100, 101, 102, 0]));
    write_file_bytes(&mut disk, &sb, 1, b"short").unwrap();
    assert_eq!(read_file_bytes(&disk, &sb, 1).unwrap(), b"short");
    let inode = read_inode(&disk, &sb, 1).unwrap();
    assert_eq!((inode.size, inode.direct[..3].to_vec()), (5, vec![100, 0, 0]));
    assert_eq!(alloc_data_block(&mut disk, &sb), Ok(101));
    write_file_bytes(&mut disk, &sb, 1, b"").unwrap();
    assert_eq!(read_file_bytes(&disk, &sb, 1).unwrap(), Vec::<u8>::new());
    assert_eq!(alloc_data_block(&mut disk, &sb), Ok(100));
    assert_eq!(write_file_bytes(&mut disk, &sb, 0, b"x"), Err(FsError::IsDir("0".to_string())));
    assert_eq!(read_file_bytes(&disk, &sb, 0), Err(FsError::IsDir("0".to_string())));
}

#[test]
fn a_file_has_twelve_blocks_at_most() {
    let (mut disk, sb) = formatted(200);
    create_node(&mut disk, &sb, "/f", InodeType::File).unwrap();
    let most = vec![7u8; 12 * 4096];
    write_file_bytes(&mut disk, &sb, 1, &most).unwrap();
    assert_eq!(read_file_bytes(&disk, &sb, 1).unwrap(), most);
    assert_eq!(write_file_bytes(&mut disk, &sb, 1, &vec![8; 12 * 4096 + 1]), Err(FsError::NoSpace));
    assert_eq!(read_inode(&disk, &sb, 1).unwrap().size, 12 * 4096);
}

#[test]
fn blocks_are_given_back() {
    let (mut disk, sb) = formatted(200);
    create_node(&mut disk, &sb, "/f", InodeType::File).unwrap();
    write_file_bytes(&mut disk, &sb, 1, &vec![1; 5000]).unwrap();
    let inode = read_inode(&disk, &sb, 1).unwrap();
    free_inode_data(&mut disk, &sb, &inode).unwrap();
    assert_eq!(alloc_data_block(&mut disk, &sb), Ok(100));
    let bad = Inode { id: 1, kind: InodeType::File, links: 1, size: 1, direct: [3; 12] };
    assert_eq!(free_inode_data(&mut disk, &sb, &bad), Err(FsError::Fault));
}

#[test]
fn holes_are_passed_over() {
    let (mut disk, sb) = formatted(200);
    disk.write_block(150, &[5; 4096]);
    let direct = [0, 150, 0, 0, 0, 0, 0, 0, 0, 0, 0, 0];
    let inode = Inode { id: 9, kind: InodeType::File, links: 1, size: 4100, direct };
    write_inode(&mut disk, &sb, &inode).unwrap();
    let data = read_file_bytes(&disk, &sb, 9).unwrap();
    assert_eq!(data.len(), 4100);
    assert_eq!(data[..4096], [5; 4096]);
    assert_eq!(data[4096..], [0; 4]);
}

#[test]
fn paths_lead_through_directories() {
    let (mut disk, sb) = formatted(200);
    create_node(&mut disk, &sb, "/a", InodeType::Dir).unwrap();
    create_node(&mut disk, &sb, "/a/b", InodeType::Dir).unwrap();
    create_node(&mut disk, &sb, "/a/b/c", InodeType::File).unwrap();
    assert_eq!(resolve_path(&disk, &sb, "/"), Ok(0));
    assert_eq!(resolve_path(&disk, &sb, "/a//b/c/"), Ok(3));
    assert_eq!(resolve_path(&disk, &sb, "/a/b/../b/./c"), Ok(3));
    assert_eq!(resolve_path(&disk, &sb, "/a/x/c"), Err(FsError::NotFound("/a/x/c".to_string())));
    assert_eq!(resolve_path(&disk, &sb, "/a/b/c/d"), Err(FsError::NotDir("d".to_string())));
    assert_eq!(resolve_path(&disk, &sb, "a"), Err(FsError::InvalidPath("a".to_string())));
    assert_eq!(resolve_parent(&disk, &sb, "/a/b/c"), Ok((2, "c".to_string())));
    assert_eq!(resolve_parent(&disk, &sb, "/new"), Ok((0, "new".to_string())));
    assert_eq!(resolve_parent(&disk, &sb, "/"), Err(FsError::InvalidPath("/".to_string())));
    assert_eq!(
        resolve_parent(&disk, &sb, "/a/b/c/d/e"),
        Err(FsError::NotDir("/a/b/c/d/e".to_string()))
    );
    assert_eq!(resolve_parent(&disk, &sb, "/x/y"), Err(FsError::NotFound("/x/y".to_string())));
}

#[test]
fn making_and_removing_nodes() {
    let (mut disk, sb) = formatted(200);
    create_node(&mut disk, &sb, "/d", InodeType::Dir).unwrap();
    let d = read_inode(&disk, &sb, 1).unwrap();
    assert_eq!((d.kind, d.links, d.size, d.direct[0]), (InodeType::Dir, 2, 528, 100));
    create_node(&mut disk, &sb, "/d/f", InodeType::File).unwrap();
    let f = read_inode(&disk, &sb, 2).unwrap();
    assert_eq!((f.kind, f.links, f.size, f.direct), (InodeType::File, 1, 0, [0; 12]));
    assert_eq!(
        remove_node(&mut disk, &sb, "/d"),
        Err(FsError::InvalidPath("directory not empty".to_string()))
    );
    remove_node(&mut disk, &sb, "/d/f").unwrap();
    assert_eq!(read_inode(&disk, &sb, 2).unwrap().kind, InodeType::Free);
    remove_node(&mut disk, &sb, "/d").unwrap();
    assert_eq!(alloc_inode(&mut disk, &sb), Ok(1));
    assert_eq!(alloc_data_block(&mut disk, &sb), Ok(100));
    assert_eq!(remove_node(&mut disk, &sb, "/d"), Err(FsError::NotFound("/d".to_string())));
}

#[test]
fn a_full_directory_leaves_an_open_change() {
    let (mut disk, sb) = formatted(200);
    for k in 0..13 {
        create_node(&mut disk, &sb, &format!("/f{}", k), InodeType::File).unwrap();
    }
    replay_journal(&mut disk, &sb).unwrap();
    assert_eq!(create_node(&mut disk, &sb, "/more", InodeType::File), Err(FsError::NoSpace));
    // The inode is claimed and the change is not complete.
    assert_eq!(read_inode(&disk, &sb, 14).unwrap().kind, InodeType::File);
    assert_eq!(replay_journal(&mut disk, &sb), Err(FsError::Corrupt));
}

#[test]
fn running_out_of_blocks() {
    let (mut disk, sb) = formatted(200);
    disk.write_block(66, &[0xff; 4096]);
    assert_eq!(alloc_data_block(&mut disk, &sb), Err(FsError::NoSpace));
    assert_eq!(create_node(&mut disk, &sb, "/d", InodeType::Dir), Err(FsError::NoSpace));
    assert_eq!(resolve_path(&disk, &sb, "/d"), Err(FsError::NotFound("/d".to_string())));
    create_node(&mut disk, &sb, "/f", InodeType::File).unwrap();
    assert_eq!(write_file_bytes(&mut disk, &sb, 2, b"x"), Err(FsError::NoSpace));
    assert_eq!(write_file_bytes(&mut disk, &sb, 2, b""), Ok(()));
}

#[test]
fn the_last_blocks_are_used() {
    let (mut disk, sb) = formatted(200);
    create_node(&mut disk, &sb, "/f", InodeType::File).unwrap();
    let mut bitmap = vec![0xff; 4096];
    bitmap[3] = 0xe7;
    disk.write_block(66, &bitmap);
    assert_eq!(write_file_bytes(&mut disk, &sb, 1, &vec![1; 8193]), Err(FsError::NoSpace));
    disk.write_block(66, &bitmap);
    assert_eq!(write_file_bytes(&mut disk, &sb, 1, &vec![1; 8192]), Ok(()));
    assert_eq!(read_inode(&disk, &sb, 1).unwrap().direct[..3], [99 + 27, 99 + 28, 0]);
    assert_eq!(read_file_bytes(&disk, &sb, 1).unwrap(), vec![1; 8192]);
}

#[test]
fn block_numbers_that_leave_their_range() {
    let (mut disk, mut sb) = formatted(200);
    sb.data_start = u32::MAX;
    assert_eq!(alloc_data_block(&mut disk, &sb), Err(FsError::Fault));
    sb.block_bitmap_start = u32::MAX;
    sb.block_bitmap_blocks = 2;
    assert_eq!(alloc_data_block(&mut disk, &sb), Err(past_end()));
}
