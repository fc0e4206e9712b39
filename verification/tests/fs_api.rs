//! Filesystem API scenarios: creation, opening, reference counting,
//! deletion, access exclusion, and the error taxonomy.

use memfs::fs::Fs;
use memfs::fs::FsError;

#[test]
fn create_then_open_reads_zeros() {
    let mut fs = Fs::new();
    assert_eq!(fs.create(b"/a/b/c"), Ok(()));
    let fd = fs.open(b"/a/b/c").expect("open after create");
    let block = fs.read(fd, 0).expect("block 0 of a fresh file");
    assert_eq!(block, [0u8; 1024]);
    assert_eq!(fs.read(fd, 1), None);
    assert_eq!(fs.close(fd), Ok(()));
}

#[test]
fn open_missing_path_fails() {
    let mut fs = Fs::new();
    assert_eq!(fs.open(b"/nowhere"), None);
    assert_eq!(fs.open(b""), None);
}

#[test]
fn open_directory_fails() {
    let mut fs = Fs::new();
    assert_eq!(fs.create_dir(b"/d"), Ok(()));
    assert_eq!(fs.open(b"/d"), None);
}

#[test]
fn open_reference_counting() {
    let mut fs = Fs::new();
    assert_eq!(fs.create(b"/shared"), Ok(()));
    let fd1 = fs.open(b"/shared").unwrap();
    let fd2 = fs.open(b"/shared").unwrap();
    assert_ne!(fd1, fd2);
    // both descriptors reach the same content
    assert_eq!(fs.write(fd1, b"hello", false), Ok(()));
    let block = fs.read(fd2, 0).unwrap();
    assert_eq!(&block[0..5], b"hello");
    // one close leaves the slot alive: the file stays open for fd1
    assert_eq!(fs.close(fd2), Ok(()));
    assert!(fs.read(fd1, 0).is_some());
    assert_eq!(fs.delete(b"/shared"), Err(FsError::FileOpenCannotDelete));
    // the second close frees the slot: the path can be deleted
    assert_eq!(fs.close(fd1), Ok(()));
    assert_eq!(fs.delete(b"/shared"), Ok(()));
}

#[test]
fn delete_empty_directory() {
    let mut fs = Fs::new();
    assert_eq!(fs.create_dir(b"/d"), Ok(()));
    assert!(fs.validate_path(b"/d"));
    assert_eq!(fs.delete(b"/d"), Ok(()));
    assert!(!fs.validate_path(b"/d"));
}

#[test]
fn delete_nonempty_directory_fails() {
    let mut fs = Fs::new();
    assert_eq!(fs.create(b"/d/f"), Ok(()));
    assert_eq!(fs.delete(b"/d"), Err(FsError::DirectoryNotEmpty));
    // the entry remains
    assert!(fs.validate_path(b"/d"));
    assert_eq!(fs.delete(b"/d/f"), Ok(()));
    assert_eq!(fs.delete(b"/d"), Ok(()));
}

#[test]
fn delete_open_file_fails_until_closed() {
    let mut fs = Fs::new();
    assert_eq!(fs.create(b"/busy"), Ok(()));
    let fd = fs.open(b"/busy").unwrap();
    assert_eq!(fs.delete(b"/busy"), Err(FsError::FileOpenCannotDelete));
    assert_eq!(fs.close(fd), Ok(()));
    assert_eq!(fs.delete(b"/busy"), Ok(()));
    assert_eq!(fs.open(b"/busy"), None);
}

#[test]
fn delete_missing_path_fails() {
    let mut fs = Fs::new();
    assert_eq!(fs.delete(b"/ghost"), Err(FsError::PathNotFound));
    assert_eq!(fs.create_dir(b"/d"), Ok(()));
    assert_eq!(fs.delete(b"/d/ghost"), Err(FsError::PathNotFound));
    assert_eq!(fs.delete(b"/ghost/deep"), Err(FsError::PathNotFound));
}

#[test]
fn write_access_exclusion() {
    let mut fs = Fs::new();
    assert_eq!(fs.create(b"/locked"), Ok(()));
    let fd = fs.open(b"/locked").unwrap();
    assert_eq!(fs.w_lock(fd, true), Ok(()));
    // while the write grant is outstanding, every access on the slot fails
    assert_eq!(fs.read(fd, 0), None);
    assert_eq!(fs.write(fd, b"x", false), Err(FsError::FileLocked));
    assert_eq!(fs.w_lock(fd, true), Err(FsError::FileLocked));
    assert_eq!(fs.r_lock(fd, true), Err(FsError::FileLocked));
    // returning the grant reopens the slot
    assert_eq!(fs.w_lock(fd, false), Ok(()));
    assert!(fs.read(fd, 0).is_some());
    fs.close(fd).unwrap();
}

#[test]
fn read_access_excludes_writers_only() {
    let mut fs = Fs::new();
    assert_eq!(fs.create(b"/shared_read"), Ok(()));
    let fd = fs.open(b"/shared_read").unwrap();
    assert_eq!(fs.r_lock(fd, true), Ok(()));
    assert_eq!(fs.r_lock(fd, true), Ok(()));
    // readers exclude writers but not each other
    assert_eq!(fs.write(fd, b"x", false), Err(FsError::FileLocked));
    assert_eq!(fs.w_lock(fd, true), Err(FsError::FileLocked));
    assert!(fs.read(fd, 0).is_some());
    assert_eq!(fs.r_lock(fd, false), Ok(()));
    assert_eq!(fs.write(fd, b"x", false), Err(FsError::FileLocked));
    assert_eq!(fs.r_lock(fd, false), Ok(()));
    assert_eq!(fs.write(fd, b"now", false), Ok(()));
    // giving back a grant that was never taken is refused
    assert_eq!(fs.r_lock(fd, false), Err(FsError::FileLocked));
    fs.close(fd).unwrap();
}

#[test]
fn path_auto_creation() {
    let mut fs = Fs::new();
    assert_eq!(fs.create(b"/a/b/c"), Ok(()));
    // the intermediate directories exist
    assert!(fs.validate_path(b"/a"));
    assert!(fs.validate_path(b"/a/b"));
    // the terminal is a file, not a directory
    assert!(!fs.validate_path(b"/a/b/c"));
    assert!(fs.open(b"/a/b/c").is_some());
    // a second creation of the same path is refused
    assert_eq!(fs.create(b"/a/b/c"), Err(FsError::AlreadyExists));
    assert_eq!(fs.create_dir(b"/a/b/c"), Err(FsError::AlreadyExists));
}

#[test]
fn create_through_file_fails() {
    let mut fs = Fs::new();
    assert_eq!(fs.create(b"/x"), Ok(()));
    assert_eq!(fs.create(b"/x/y"), Err(FsError::TypeMismatch));
    assert_eq!(fs.create_dir(b"/x/y"), Err(FsError::TypeMismatch));
    assert_eq!(fs.delete(b"/x/y"), Err(FsError::TypeMismatch));
}

#[test]
fn path_too_long_is_refused() {
    let mut fs = Fs::new();
    let long = [b'a'; 33];
    assert_eq!(fs.create(&long), Err(FsError::CapacityExceeded));
    assert_eq!(fs.create_dir(&long), Err(FsError::CapacityExceeded));
    // 32 bytes still fit
    let ok = [b'a'; 32];
    assert_eq!(fs.create(&ok), Ok(()));
}

#[test]
fn empty_path_is_refused() {
    let mut fs = Fs::new();
    assert_eq!(fs.create(b""), Err(FsError::PathNotFound));
    assert_eq!(fs.create(b"///"), Err(FsError::PathNotFound));
    assert_eq!(fs.delete(b""), Err(FsError::PathNotFound));
}

#[test]
fn directory_capacity_is_bounded() {
    let mut fs = Fs::new();
    // a directory table holds 50 entries
    for i in 0..50u8 {
        let name = [b'/', b'f', b'0' + (i / 10), b'0' + (i % 10)];
        assert_eq!(fs.create(&name), Ok(()));
    }
    assert_eq!(fs.create(b"/overflow"), Err(FsError::CapacityExceeded));
    // deleting one entry makes room again
    assert_eq!(fs.delete(b"/f00"), Ok(()));
    assert_eq!(fs.create(b"/overflow"), Ok(()));
}

#[test]
fn local_descriptor_capacity() {
    let mut fs = Fs::new();
    assert_eq!(fs.create(b"/many"), Ok(()));
    let mut fds = Vec::new();
    // one task row holds 20 descriptors
    for _ in 0..20 {
        fds.push(fs.open(b"/many").expect("row not yet full"));
    }
    assert_eq!(fs.open(b"/many"), None);
    fs.close(fds[0]).unwrap();
    assert!(fs.open(b"/many").is_some());
}

#[test]
fn close_of_unused_descriptor_fails() {
    let mut fs = Fs::new();
    assert_eq!(fs.close(0), Err(FsError::PathNotFound));
    assert_eq!(fs.close(19), Err(FsError::PathNotFound));
    assert_eq!(fs.close(20), Err(FsError::PathNotFound));
    assert_eq!(fs.read(3, 0), None);
    assert_eq!(fs.write(3, b"x", false), Err(FsError::PathNotFound));
}

#[test]
fn descriptors_are_per_task() {
    let mut fs = Fs::new();
    assert_eq!(fs.create(b"/t"), Ok(()));
    let fd = fs.open(b"/t").unwrap();
    assert_eq!(fs.write(fd, b"task zero", false), Ok(()));
    // another task's row does not see the descriptor
    fs.set_active_task(1);
    assert_eq!(fs.read(fd, 0), None);
    assert_eq!(fs.close(fd), Err(FsError::PathNotFound));
    // but the slot is shared when the task opens the same path
    let fd2 = fs.open(b"/t").unwrap();
    let block = fs.read(fd2, 0).unwrap();
    assert_eq!(&block[0..9], b"task zero");
    assert_eq!(fs.delete(b"/t"), Err(FsError::FileOpenCannotDelete));
    fs.close(fd2).unwrap();
    fs.set_active_task(0);
    fs.close(fd).unwrap();
    assert_eq!(fs.delete(b"/t"), Ok(()));
}

#[test]
fn validate_path_root_and_errors() {
    let mut fs = Fs::new();
    assert!(fs.validate_path(b"/"));
    assert!(!fs.validate_path(b"//"));
    assert!(!fs.validate_path(b""));
    assert!(!fs.validate_path(b"/missing"));
    assert_eq!(fs.create(b"/file"), Ok(()));
    // a file is not a directory
    assert!(!fs.validate_path(b"/file"));
}

#[test]
fn doubled_slashes_name_the_same_components() {
    let mut fs = Fs::new();
    assert_eq!(fs.create_dir(b"/a"), Ok(()));
    assert_eq!(fs.create(b"a//b"), Ok(()));
    assert!(fs.open(b"/a/b").is_some());
}

#[test]
fn block_boundary_round_trip() {
    let mut fs = Fs::new();
    assert_eq!(fs.create(b"/big"), Ok(()));
    let fd = fs.open(b"/big").unwrap();
    let mut payload = vec![0u8; 2500];
    for (i, b) in payload.iter_mut().enumerate() {
        *b = 1 + (i % 251) as u8;
    }
    assert_eq!(fs.write(fd, &payload, false), Ok(()));
    let b0 = fs.read(fd, 0).unwrap();
    let b1 = fs.read(fd, 1).unwrap();
    let b2 = fs.read(fd, 2).unwrap();
    assert_eq!(fs.read(fd, 3), None);
    let mut joined = Vec::new();
    joined.extend_from_slice(&b0);
    joined.extend_from_slice(&b1);
    joined.extend_from_slice(&b2);
    assert_eq!(&joined[0..2500], &payload[..]);
    // the trailing bytes of the last block are zero padding
    assert!(joined[2500..].iter().all(|b| *b == 0));
    fs.close(fd).unwrap();
}

#[test]
fn append_across_block_boundary() {
    let mut fs = Fs::new();
    assert_eq!(fs.create(b"/apd"), Ok(()));
    let fd = fs.open(b"/apd").unwrap();
    let first = [7u8; 1024];
    let second = [9u8; 50];
    assert_eq!(fs.write(fd, &first, false), Ok(()));
    assert_eq!(fs.write(fd, &second, true), Ok(()));
    let b0 = fs.read(fd, 0).unwrap();
    let b1 = fs.read(fd, 1).unwrap();
    assert_eq!(fs.read(fd, 2), None);
    let mut joined = Vec::new();
    joined.extend_from_slice(&b0);
    joined.extend_from_slice(&b1);
    assert_eq!(&joined[0..1024], &first[..]);
    assert_eq!(&joined[1024..1074], &second[..]);
    fs.close(fd).unwrap();
}

#[test]
fn rewrite_leaves_stale_trailing_blocks() {
    let mut fs = Fs::new();
    assert_eq!(fs.create(b"/stale"), Ok(()));
    let fd = fs.open(b"/stale").unwrap();
    assert_eq!(fs.write(fd, &[5u8; 2048], false), Ok(()));
    // the shorter rewrite tracks no length: block 1 keeps its old bytes
    assert_eq!(fs.write(fd, b"tiny", false), Ok(()));
    let b0 = fs.read(fd, 0).unwrap();
    assert_eq!(&b0[0..4], b"tiny");
    assert!(b0[4..].iter().all(|b| *b == 0));
    let b1 = fs.read(fd, 1).unwrap();
    assert_eq!(b1, [5u8; 1024]);
    fs.close(fd).unwrap();
}

#[test]
fn open_of_overlong_path_is_refused() {
    let mut fs = Fs::new();
    assert_eq!(fs.create(&[b'a'; 32]), Ok(()));
    // a longer path is refused outright, so it can never alias the open
    // 32-byte path through name truncation
    assert_eq!(fs.open(&[b'a'; 33]), None);
    assert!(fs.open(&[b'a'; 32]).is_some());
}

#[test]
fn delete_guards_the_node_under_any_path_spelling() {
    let mut fs = Fs::new();
    assert_eq!(fs.create(b"/a/b"), Ok(()));
    // the file is opened under another spelling of the same path
    let fd = fs.open(b"a//b").unwrap();
    assert_eq!(fs.delete(b"/a/b"), Err(FsError::FileOpenCannotDelete));
    assert_eq!(fs.close(fd), Ok(()));
    assert_eq!(fs.delete(b"/a/b"), Ok(()));
    assert_eq!(fs.open(b"a//b"), None);
}

#[test]
fn delete_keeps_sibling_entries_intact() {
    let mut fs = Fs::new();
    assert_eq!(fs.create(b"/d/keep"), Ok(()));
    assert_eq!(fs.create(b"/d/gone"), Ok(()));
    let fd = fs.open(b"/d/keep").unwrap();
    assert_eq!(fs.write(fd, b"still here", false), Ok(()));
    fs.close(fd).unwrap();
    assert_eq!(fs.delete(b"/d/gone"), Ok(()));
    // the sibling still resolves to the same content
    let fd = fs.open(b"/d/keep").unwrap();
    let block = fs.read(fd, 0).unwrap();
    assert_eq!(&block[0..10], b"still here");
    fs.close(fd).unwrap();
}

#[test]
fn descriptors_and_slots_fill_lowest_first() {
    let mut fs = Fs::new();
    assert_eq!(fs.create(b"/low"), Ok(()));
    let a = fs.open(b"/low").unwrap();
    let b = fs.open(b"/low").unwrap();
    assert_eq!((a, b), (0, 1));
    // a freed descriptor cell is the next one handed out
    fs.close(a).unwrap();
    assert_eq!(fs.open(b"/low").unwrap(), 0);
    fs.close(0).unwrap();
    fs.close(b).unwrap();
}
