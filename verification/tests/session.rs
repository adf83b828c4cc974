use userspace_fs::disk::{BlockWrite, Disk};
use userspace_fs::error::FsError;
use userspace_fs::fs::PyUserSpaceFs;
use userspace_fs::superblock::read_superblock;

fn mounted(blocks: u32) -> PyUserSpaceFs {
    let mut disk = Disk::new(0);
    PyUserSpaceFs::format(&mut disk, blocks).unwrap();
    disk.take_writes();
    PyUserSpaceFs::mount(disk).unwrap()
}

/// Makes block writes on the bytes of an image file.
fn apply(file: &mut Vec<u8>, writes: &[BlockWrite]) {
    for w in writes {
        let at = w.block as usize * 4096;
        if file.len() < at + 4096 {
            file.resize(at + 4096, 0);
        }
        file[at..at + 4096].copy_from_slice(&w.data);
    }
}

/// Reads an image from the bytes of its file.
fn load(file: &[u8]) -> Disk {
    let mut disk = Disk::new(file.len() as u64);
    for (n, b) in file.chunks(4096).enumerate() {
        assert!(disk.fill(n as u32, b));
    }
    disk
}

/// The bytes of the file of a new image.
fn new_file(blocks: u32) -> Vec<u8> {
    let mut disk = Disk::new(0);
    PyUserSpaceFs::format(&mut disk, blocks).unwrap();
    let mut file = vec![0u8; blocks as usize * 4096];
    apply(&mut file, &disk.take_writes());
    file
}

fn write_all(fs: &mut PyUserSpaceFs, path: &str, data: &[u8]) {
    let fd = fs.open(path).unwrap();
    assert_eq!(fs.write(fd, data.to_vec()), Ok(data.len()));
    fs.close(fd).unwrap();
}

fn read_all(fs: &mut PyUserSpaceFs, path: &str) -> Vec<u8> {
    let fd = fs.open(path).unwrap();
    let data = fs.read(fd, 1 << 20).unwrap();
    fs.close(fd).unwrap();
    data
}

#[test]
fn command_line_walkthrough() {
    let mut fs = mounted(4096);
    fs.mkdir("/docs").unwrap();
    fs.create("/docs/hello.txt").unwrap();
    write_all(&mut fs, "/docs/hello.txt", b"hello from cli");
    assert_eq!(fs.readdir("/docs"), Ok(vec!["hello.txt".to_string()]));
    assert_eq!(read_all(&mut fs, "/docs/hello.txt"), b"hello from cli");
    fs.truncate("/docs/hello.txt", 5).unwrap();
    assert_eq!(read_all(&mut fs, "/docs/hello.txt"), b"hello");
    fs.remove("/docs/hello.txt").unwrap();
    assert_eq!(fs.readdir("/docs"), Ok(vec![]));
    fs.unmount().unwrap();
}

#[test]
fn a_new_root_lists_nothing() {
    let mut fs = mounted(100);
    assert_eq!(fs.readdir("/"), Ok(vec![]));
}

#[test]
fn names_are_listed_in_order() {
    let mut fs = mounted(200);
    for name in ["/b", "/a", "/c"] {
        fs.create(name).unwrap();
    }
    assert_eq!(fs.readdir("/"), Ok(vec!["b".to_string(), "a".to_string(), "c".to_string()]));
    fs.remove("/a").unwrap();
    fs.create("/a").unwrap();
    assert_eq!(fs.readdir("/"), Ok(vec!["b".to_string(), "c".to_string(), "a".to_string()]));
}

#[test]
fn what_exists_is_not_made_again() {
    let mut fs = mounted(200);
    fs.mkdir("/d").unwrap();
    fs.take_writes();
    assert_eq!(fs.mkdir("/d"), Err(FsError::AlreadyExists("/d".to_string())));
    assert_eq!(fs.create("/d"), Err(FsError::AlreadyExists("/d".to_string())));
    assert_eq!(fs.create("/d/.."), Err(FsError::AlreadyExists("/d/..".to_string())));
    assert_eq!(fs.create("/"), Err(FsError::InvalidPath("/".to_string())));
    assert_eq!(fs.create("x"), Err(FsError::InvalidPath("x".to_string())));
    assert_eq!(fs.create("/no/x"), Err(FsError::NotFound("/no/x".to_string())));
    assert!(fs.take_writes().is_empty());
}

#[test]
fn refused_removals_change_nothing() {
    let mut fs = mounted(200);
    fs.mkdir("/d").unwrap();
    fs.create("/d/f").unwrap();
    fs.take_writes();
    assert_eq!(
        fs.remove("/d"),
        Err(FsError::InvalidPath("directory not empty".to_string()))
    );
    assert_eq!(fs.remove("/e"), Err(FsError::NotFound("/e".to_string())));
    assert_eq!(fs.remove("/d/f/g"), Err(FsError::NotDir("/d/f/g".to_string())));
    assert_eq!(fs.remove("/"), Err(FsError::InvalidPath("/".to_string())));
    assert_eq!(fs.remove("d"), Err(FsError::InvalidPath("d".to_string())));
    assert!(fs.take_writes().is_empty());
    assert_eq!(fs.readdir("/d"), Ok(vec!["f".to_string()]));
}

#[test]
fn removed_nodes_are_gone() {
    let mut fs = mounted(200);
    fs.mkdir("/d").unwrap();
    fs.create("/d/f").unwrap();
    fs.create("/d/g").unwrap();
    write_all(&mut fs, "/d/g", b"stays");
    fs.remove("/d/f").unwrap();
    assert_eq!(fs.open("/d/f"), Err(FsError::NotFound("/d/f".to_string())));
    assert_eq!(fs.readdir("/d"), Ok(vec!["g".to_string()]));
    assert_eq!(read_all(&mut fs, "/d/g"), b"stays");
}

#[test]
fn files_and_directories_are_told_apart() {
    let mut fs = mounted(200);
    fs.mkdir("/d").unwrap();
    fs.create("/f").unwrap();
    assert_eq!(fs.open("/d"), Err(FsError::IsDir("/d".to_string())));
    assert_eq!(fs.truncate("/d", 0), Err(FsError::IsDir("/d".to_string())));
    assert_eq!(fs.readdir("/f"), Err(FsError::NotDir("/f".to_string())));
    assert_eq!(fs.open("/f/x"), Err(FsError::NotDir("x".to_string())));
    assert_eq!(fs.open("/x"), Err(FsError::NotFound("/x".to_string())));
    assert_eq!(fs.open("f"), Err(FsError::InvalidPath("f".to_string())));
    assert_eq!(fs.readdir(""), Err(FsError::InvalidPath(String::new())));
}

#[test]
fn descriptors_are_given_out_in_order() {
    let mut fs = mounted(200);
    fs.create("/f").unwrap();
    assert_eq!(fs.open("/f"), Ok(3));
    assert_eq!(fs.open("/f"), Ok(4));
    assert_eq!(fs.close(3), Ok(()));
    assert_eq!(fs.open("/f"), Ok(5));
    let gone = Err(FsError::NotFound("fd 3".to_string()));
    assert_eq!(fs.close(3), gone);
    assert_eq!(fs.read(3, 1), Err(FsError::NotFound("fd 3".to_string())));
    assert_eq!(fs.write(-7, vec![1]), Err(FsError::NotFound("fd -7".to_string())));
}

#[test]
fn reads_go_on_at_the_cursor() {
    let mut fs = mounted(200);
    fs.create("/f").unwrap();
    write_all(&mut fs, "/f", b"0123456789");
    let fd = fs.open("/f").unwrap();
    assert_eq!(fs.read(fd, 4).unwrap(), b"0123");
    assert_eq!(fs.read(fd, 0).unwrap(), b"");
    assert_eq!(fs.read(fd, 4).unwrap(), b"4567");
    assert_eq!(fs.read(fd, 4).unwrap(), b"89");
    assert_eq!(fs.read(fd, 4).unwrap(), b"");
    let other = fs.open("/f").unwrap();
    assert_eq!(fs.read(other, 8).unwrap(), b"01234567");
}

#[test]
fn writes_go_on_at_the_cursor() {
    let mut fs = mounted(200);
    fs.create("/f").unwrap();
    let fd = fs.open("/f").unwrap();
    assert_eq!(fs.write(fd, b"abc".to_vec()), Ok(3));
    assert_eq!(fs.write(fd, b"def".to_vec()), Ok(3));
    let other = fs.open("/f").unwrap();
    assert_eq!(fs.read(other, 2).unwrap(), b"ab");
    assert_eq!(fs.write(other, b"XY".to_vec()), Ok(2));
    assert_eq!(read_all(&mut fs, "/f"), b"abXYef");
    assert_eq!(fs.read(other, 9).unwrap(), b"ef");
}

#[test]
fn another_descriptor_reads_what_was_written() {
    let mut fs = mounted(200);
    fs.create("/f").unwrap();
    let writer = fs.open("/f").unwrap();
    let reader = fs.open("/f").unwrap();
    let data: Vec<u8> = (0..10000u32).map(|i| (i % 253) as u8).collect();
    fs.write(writer, data.clone()).unwrap();
    assert_eq!(fs.read(reader, data.len()).unwrap(), data);
}

#[test]
fn a_gap_is_filled_with_zeros() {
    let mut fs = mounted(200);
    fs.create("/f").unwrap();
    let fd = fs.open("/f").unwrap();
    fs.write(fd, vec![1; 10]).unwrap();
    fs.truncate("/f", 2).unwrap();
    fs.write(fd, vec![2; 2]).unwrap();
    assert_eq!(read_all(&mut fs, "/f"), vec![1, 1, 0, 0, 0, 0, 0, 0, 0, 0, 2, 2]);
}

#[test]
fn truncation_cuts_and_extends() {
    let mut fs = mounted(200);
    fs.create("/f").unwrap();
    fs.create("/g").unwrap();
    write_all(&mut fs, "/f", b"hello");
    write_all(&mut fs, "/g", b"other");
    fs.truncate("/f", 8).unwrap();
    assert_eq!(read_all(&mut fs, "/f"), b"hello\0\0\0");
    fs.truncate("/f", 2).unwrap();
    fs.truncate("/f", 4).unwrap();
    assert_eq!(read_all(&mut fs, "/f"), b"he\0\0");
    fs.truncate("/f", 0).unwrap();
    assert_eq!(read_all(&mut fs, "/f"), b"");
    assert_eq!(read_all(&mut fs, "/g"), b"other");
    assert_eq!(fs.truncate("/f", 12 * 4096 + 1), Err(FsError::NoSpace));
}

#[test]
fn values_out_of_range() {
    let mut fs = mounted(200);
    fs.create("/f").unwrap();
    let fd = fs.open("/f").unwrap();
    fs.write(fd, vec![1; 10]).unwrap();
    assert_eq!(fs.truncate("/f", usize::MAX), Err(FsError::Fault));
    assert_eq!(read_all(&mut fs, "/f"), vec![1; 10]);
}

#[test]
fn reads_are_clamped_to_the_end() {
    let mut fs = mounted(4096);
    fs.create("/f").unwrap();
    assert_eq!(fs.open("/f"), Ok(3));
    assert_eq!(fs.write(3, b"hello".to_vec()), Ok(5));
    assert_eq!(fs.open("/f"), Ok(4));
    assert_eq!(fs.read(4, 2), Ok(b"he".to_vec()));
    assert_eq!(fs.read(4, usize::MAX), Ok(b"llo".to_vec()));
    assert_eq!(fs.read(4, usize::MAX), Ok(vec![]));
}

#[test]
fn a_cursor_behind_the_end_reads_nothing_and_stays() {
    let mut fs = mounted(4096);
    fs.create("/f").unwrap();
    assert_eq!(fs.open("/f"), Ok(3));
    assert_eq!(fs.write(3, b"hello".to_vec()), Ok(5));
    fs.truncate("/f", 2).unwrap();
    assert_eq!(fs.read(3, 1), Ok(vec![]));
    assert_eq!(fs.read(3, usize::MAX), Ok(vec![]));
    fs.truncate("/f", 6).unwrap();
    assert_eq!(fs.read(3, 4), Ok(vec![0]));
}

#[test]
fn too_much_data_is_refused() {
    let mut fs = mounted(400);
    fs.create("/f").unwrap();
    let fd = fs.open("/f").unwrap();
    fs.write(fd, vec![1; 12 * 4096]).unwrap();
    assert_eq!(fs.write(fd, vec![1]), Err(FsError::NoSpace));
    assert_eq!(read_all(&mut fs, "/f"), vec![1; 12 * 4096]);
}

#[test]
fn a_stale_descriptor_keeps_its_slot() {
    let mut fs = mounted(200);
    fs.create("/f").unwrap();
    let fd = fs.open("/f").unwrap();
    fs.remove("/f").unwrap();
    assert_eq!(fs.read(fd, 1).unwrap(), b"");
    fs.mkdir("/d").unwrap();
    assert_eq!(fs.read(fd, 1), Err(FsError::IsDir("1".to_string())));
    assert_eq!(fs.write(fd, vec![1]), Err(FsError::IsDir("1".to_string())));
}

#[test]
fn long_names_are_listed_cut_and_not_found() {
    let mut fs = mounted(200);
    let long = format!("/{}", "n".repeat(260));
    fs.create(&long).unwrap();
    assert_eq!(fs.open(&long), Err(FsError::NotFound(long.clone())));
    assert_eq!(fs.readdir("/"), Ok(vec!["n".repeat(255)]));
    // The name that was cut does not stand in the way of a second one.
    fs.create(&long).unwrap();
    let cut = format!("/{}", "n".repeat(255));
    fs.remove(&cut).unwrap();
    assert_eq!(fs.readdir("/"), Ok(vec!["n".repeat(255)]));
    assert!(fs.open(&cut).is_ok());
    fs.remove(&cut).unwrap();
    assert_eq!(fs.open(&cut), Err(FsError::NotFound(cut)));
}

#[test]
fn a_name_cut_inside_a_character() {
    let mut fs = mounted(200);
    fs.create(&format!("/{}\u{e9}", "a".repeat(254))).unwrap();
    assert_eq!(fs.readdir("/"), Ok(vec![format!("{}\u{fffd}", "a".repeat(254))]));
}

#[test]
fn a_directory_can_remove_itself() {
    let mut fs = mounted(200);
    fs.mkdir("/d").unwrap();
    fs.remove("/d/.").unwrap();
    assert_eq!(fs.readdir("/"), Ok(vec!["d".to_string()]));
    assert_eq!(fs.readdir("/d"), Err(FsError::NotDir("/d".to_string())));
    assert_eq!(fs.create("/d/x"), Err(FsError::NotDir("/d/x".to_string())));
}

#[test]
fn mounting_marks_the_image() {
    let file = new_file(200);
    let mut fs = PyUserSpaceFs::mount(load(&file)).unwrap();
    let mut after = file.clone();
    apply(&mut after, &fs.take_writes());
    let sb = read_superblock(&load(&after)).unwrap();
    assert_eq!((sb.clean, sb.sequence), (0, 2));
    fs.unmount().unwrap();
    let writes = fs.take_writes();
    assert_eq!(writes.iter().map(|w| w.block).collect::<Vec<u32>>(), vec![0]);
    apply(&mut after, &writes);
    let sb = read_superblock(&load(&after)).unwrap();
    assert_eq!((sb.clean, sb.sequence), (1, 3));
}

#[test]
fn the_sequence_number_starts_over() {
    let mut disk = Disk::new(0);
    PyUserSpaceFs::format(&mut disk, 200).unwrap();
    let mut sb = read_superblock(&disk).unwrap();
    sb.sequence = u32::MAX;
    userspace_fs::superblock::write_superblock(&mut disk, &sb);
    let mut fs = PyUserSpaceFs::mount(disk).unwrap();
    let mut file = vec![0u8; 200 * 4096];
    apply(&mut file, &fs.take_writes());
    assert_eq!(read_superblock(&load(&file)).unwrap().sequence, 0);
}

#[test]
fn a_foreign_image_is_not_mounted() {
    assert!(matches!(PyUserSpaceFs::mount(Disk::new(4096)), Err(FsError::Corrupt)));
    assert!(matches!(PyUserSpaceFs::mount(Disk::new(4095)), Err(FsError::Io(_))));
}

#[test]
fn everything_is_there_after_a_remount() {
    let mut file = new_file(300);
    let mut fs = PyUserSpaceFs::mount(load(&file)).unwrap();
    fs.mkdir("/d").unwrap();
    fs.create("/d/f").unwrap();
    fs.create("/e").unwrap();
    let data: Vec<u8> = (0..20000u32).map(|i| (i / 7) as u8).collect();
    write_all(&mut fs, "/d/f", &data);
    fs.unmount().unwrap();
    apply(&mut file, &fs.take_writes());
    let mut fs = PyUserSpaceFs::mount(load(&file)).unwrap();
    assert_eq!(fs.readdir("/"), Ok(vec!["d".to_string(), "e".to_string()]));
    assert_eq!(fs.readdir("/d"), Ok(vec!["f".to_string()]));
    assert_eq!(read_all(&mut fs, "/d/f"), data);
    assert_eq!(read_all(&mut fs, "/e"), b"");
}

/// Mounts the image file after each number of the writes of one change, and counts how often it
/// is refused.
fn refusals(file: &[u8], writes: &[BlockWrite]) -> Vec<bool> {
    let mut out = Vec::new();
    for k in 0..=writes.len() {
        let mut cut = file.to_vec();
        apply(&mut cut, &writes[..k]);
        match PyUserSpaceFs::mount(load(&cut)) {
            Ok(_) => out.push(false),
            Err(e) => {
                assert_eq!(e, FsError::Corrupt);
                out.push(true);
            }
        }
    }
    out
}

#[test]
fn a_change_cut_short_is_refused() {
    let mut file = new_file(200);
    let mut fs = PyUserSpaceFs::mount(load(&file)).unwrap();
    apply(&mut file, &fs.take_writes());
    // A new file: one bit, then five writes of which the first and the last are markers.
    fs.create("/f").unwrap();
    let writes = fs.take_writes();
    let blocks: Vec<u32> = writes.iter().map(|w| w.block).collect();
    assert_eq!(blocks, vec![65, 1, 67, 99, 67, 1]);
    assert_eq!(refusals(&file, &writes), vec![false, false, true, true, true, true, false]);
}

#[test]
fn writes_removals_and_truncations_cut_short() {
    let mut file = new_file(200);
    let mut fs = PyUserSpaceFs::mount(load(&file)).unwrap();
    fs.create("/f").unwrap();
    fs.unmount().unwrap();
    apply(&mut file, &fs.take_writes());
    for step in 0..3 {
        let mut image = file.clone();
        let mut fs = PyUserSpaceFs::mount(load(&image)).unwrap();
        apply(&mut image, &fs.take_writes());
        let fd = fs.open("/f").unwrap();
        match step {
            0 => assert_eq!(fs.write(fd, vec![1; 5000]), Ok(5000)),
            1 => assert_eq!(fs.truncate("/f", 5000), Ok(())),
            _ => assert_eq!(fs.remove("/f"), Ok(())),
        }
        let writes = fs.take_writes();
        assert_eq!((writes[0].block, writes[writes.len() - 1].block), (1, 1));
        let refused = refusals(&image, &writes);
        for (k, r) in refused.iter().enumerate() {
            assert_eq!(*r, 0 < k && k < writes.len());
        }
    }
}

#[test]
fn a_later_change_cut_short_is_refused_too() {
    let mut file = new_file(200);
    let mut fs = PyUserSpaceFs::mount(load(&file)).unwrap();
    fs.create("/f").unwrap();
    apply(&mut file, &fs.take_writes());
    fs.create("/g").unwrap();
    let writes = fs.take_writes();
    assert_eq!(refusals(&file, &writes), vec![false, false, true, true, true, true, false]);
}

#[test]
fn a_failed_change_is_refused_until_a_later_one_completes() {
    let mut file = new_file(200);
    let mut fs = PyUserSpaceFs::mount(load(&file)).unwrap();
    fs.create("/f").unwrap();
    assert_eq!(fs.truncate("/f", 12 * 4096 + 1), Err(FsError::NoSpace));
    apply(&mut file, &fs.take_writes());
    assert!(matches!(PyUserSpaceFs::mount(load(&file)), Err(FsError::Corrupt)));
    fs.truncate("/f", 1).unwrap();
    apply(&mut file, &fs.take_writes());
    assert!(PyUserSpaceFs::mount(load(&file)).is_ok());
}

#[test]
fn a_long_history_remounts() {
    let mut file = new_file(400);
    let mut fs = PyUserSpaceFs::mount(load(&file)).unwrap();
    fs.mkdir("/d").unwrap();
    fs.create("/d/f").unwrap();
    let fd = fs.open("/d/f").unwrap();
    let mut expected = Vec::new();
    for k in 0..200u32 {
        let piece = vec![k as u8; 50];
        assert_eq!(fs.write(fd, piece.clone()), Ok(50));
        expected.extend(piece);
        assert_eq!(fs.create("/d/f"), Err(FsError::AlreadyExists("/d/f".to_string())));
    }
    fs.unmount().unwrap();
    apply(&mut file, &fs.take_writes());
    let sequence = read_superblock(&load(&file)).unwrap().sequence;
    let mut fs = PyUserSpaceFs::mount(load(&file)).unwrap();
    assert_eq!(fs.readdir("/"), Ok(vec!["d".to_string()]));
    assert_eq!(fs.read(fd, 1), Err(FsError::NotFound("fd 3".to_string())));
    assert_eq!(read_all(&mut fs, "/d/f"), expected);
    apply(&mut file, &fs.take_writes());
    assert_eq!(read_superblock(&load(&file)).unwrap().sequence, sequence + 1);
}

#[test]
fn removing_undoes_making() {
    let mut file = new_file(300);
    let mut fs = PyUserSpaceFs::mount(load(&file)).unwrap();
    fs.create("/a").unwrap();
    write_all(&mut fs, "/a", &[1; 9000]);
    apply(&mut file, &fs.take_writes());
    let bitmaps = file[65 * 4096..67 * 4096].to_vec();
    fs.create("/b").unwrap();
    write_all(&mut fs, "/b", &[2; 20000]);
    fs.truncate("/b", 5000).unwrap();
    fs.remove("/b").unwrap();
    fs.mkdir("/b").unwrap();
    fs.remove("/b").unwrap();
    apply(&mut file, &fs.take_writes());
    assert_eq!(file[65 * 4096..67 * 4096], bitmaps[..]);
    assert_eq!(fs.readdir("/"), Ok(vec!["a".to_string()]));
    assert_eq!(read_all(&mut fs, "/a"), vec![1; 9000]);
}

#[test]
fn no_name_is_listed_twice() {
    let mut fs = mounted(300);
    fs.mkdir("/d").unwrap();
    for _ in 0..3 {
        for name in ["/d/a", "/d/b", "/d/c"] {
            fs.create(name).unwrap();
            assert_eq!(fs.create(name), Err(FsError::AlreadyExists(name.to_string())));
        }
        fs.remove("/d/b").unwrap();
        fs.create("/d/b").unwrap();
        let mut names = fs.readdir("/d").unwrap();
        names.sort();
        assert_eq!(names, vec!["a", "b", "c"]);
        for name in ["/d/a", "/d/b", "/d/c"] {
            fs.remove(name).unwrap();
        }
        assert_eq!(fs.readdir("/d"), Ok(vec![]));
        fs.remove("/d").unwrap();
        fs.mkdir("/d").unwrap();
    }
}

#[test]
fn a_removed_path_is_not_found() {
    let mut fs = mounted(200);
    fs.mkdir("/d").unwrap();
    fs.create("/d/f").unwrap();
    fs.remove("/d/../d/f").unwrap();
    assert_eq!(fs.open("/d/../d/f"), Err(FsError::NotFound("/d/../d/f".to_string())));
    fs.remove("/d/.").unwrap();
    assert_eq!(fs.open("/d/."), Err(FsError::NotDir(".".to_string())));
}

#[test]
fn writes_handed_out_rebuild_the_image() {
    let mut file = new_file(150);
    let mut fs = PyUserSpaceFs::mount(load(&file)).unwrap();
    fs.mkdir("/a").unwrap();
    fs.create("/a/b").unwrap();
    write_all(&mut fs, "/a/b", &[42; 4097]);
    apply(&mut file, &fs.take_writes());
    fs.remove("/a/b").unwrap();
    fs.remove("/a").unwrap();
    apply(&mut file, &fs.take_writes());
    let mut again = PyUserSpaceFs::mount(load(&file)).unwrap();
    assert_eq!(again.readdir("/"), Ok(vec![]));
    again.mkdir("/c").unwrap();
    assert_eq!(again.readdir("/"), Ok(vec!["c".to_string()]));
}
