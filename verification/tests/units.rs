//! Component-level tests: the file content engine, the reader-writer lock,
//! name handling, and the command-line layer.

use memfs::cli;
use memfs::cli::Cli;
use memfs::cli::CliEvent;
use memfs::file::File;
use memfs::file::FileListNode;
use memfs::fs::Fs;
use memfs::fs::FsError;
use memfs::lock::RWLock;
use memfs::path::names_equal;
use memfs::path::name_is_empty;
use memfs::path::split_path;
use memfs::path::str_to_file;
use memfs::path::str_to_u8;

#[test]
fn file_write_and_read_single_block() {
    let mut f = File::new();
    f.write(b"hello world");
    let blocks = f.read(0, 1);
    assert_eq!(blocks.len(), 1);
    assert_eq!(&blocks[0][0..11], b"hello world");
    assert!(blocks[0][11..].iter().all(|b| *b == 0));
}

#[test]
fn file_write_multi_block() {
    let mut f = File::new();
    let data = [3u8; 2500];
    f.write(&data);
    let blocks = f.read(0, 5);
    // 2500 bytes take three blocks; the range is clipped to the chain
    assert_eq!(blocks.len(), 3);
    assert_eq!(blocks[0], [3u8; 1024]);
    assert_eq!(blocks[1], [3u8; 1024]);
    assert_eq!(&blocks[2][0..452], &[3u8; 452][..]);
    assert!(blocks[2][452..].iter().all(|b| *b == 0));
}

#[test]
fn file_write_of_exactly_one_block_adds_an_empty_one() {
    let mut f = File::new();
    f.write(&[1u8; 1024]);
    let blocks = f.read(0, 10);
    assert_eq!(blocks.len(), 2);
    assert_eq!(blocks[0], [1u8; 1024]);
    assert_eq!(blocks[1], [0u8; 1024]);
}

#[test]
fn file_append_fills_free_space_first() {
    let mut f = File::new();
    f.write(b"abc");
    f.append(b"def");
    let blocks = f.read(0, 2);
    assert_eq!(blocks.len(), 1);
    assert_eq!(&blocks[0][0..6], b"abcdef");
}

#[test]
fn file_append_spills_into_new_blocks() {
    let mut f = File::new();
    f.write(&[7u8; 1000]);
    f.append(&[8u8; 100]);
    let blocks = f.read(0, 3);
    // 24 bytes fit the first block, 76 spill into a fresh one
    assert_eq!(blocks.len(), 2);
    assert_eq!(&blocks[0][0..1000], &[7u8; 1000][..]);
    assert_eq!(&blocks[0][1000..1024], &[8u8; 24][..]);
    assert_eq!(&blocks[1][0..76], &[8u8; 76][..]);
    assert!(blocks[1][76..].iter().all(|b| *b == 0));
}

#[test]
fn file_append_to_full_block_starts_a_new_one() {
    let mut f = File::new();
    f.write(&[7u8; 1000]);
    f.append(&[8u8; 24]);
    // the single block now holds no zero byte at all
    f.append(&[9u8; 10]);
    let blocks = f.read(0, 3);
    assert_eq!(blocks.len(), 2);
    assert_eq!(&blocks[0][0..1000], &[7u8; 1000][..]);
    assert_eq!(&blocks[0][1000..1024], &[8u8; 24][..]);
    assert_eq!(&blocks[1][0..10], &[9u8; 10][..]);
}

#[test]
fn file_append_zero_convention_overwrites_zero_content() {
    // a genuine zero byte inside the content doubles as the terminator:
    // the append lands at the first zero, not after the logical end
    let mut f = File::new();
    f.write(&[1, 0, 2]);
    f.append(b"x");
    let blocks = f.read(0, 1);
    assert_eq!(&blocks[0][0..3], &[1, b'x', 2]);
}

#[test]
fn file_empty_resets_to_one_zero_block() {
    let mut f = File::new();
    f.write(&[4u8; 3000]);
    f.empty();
    let blocks = f.read(0, 10);
    assert_eq!(blocks.len(), 1);
    assert_eq!(blocks[0], [0u8; 1024]);
}

#[test]
fn file_read_ranges() {
    let mut f = File::new();
    f.write(&[6u8; 2500]);
    assert_eq!(f.read(1, 3).len(), 2);
    assert_eq!(f.read(2, 2).len(), 0);
    assert_eq!(f.read(3, 1).len(), 0);
    assert_eq!(f.read(5, 9).len(), 0);
    assert_eq!(f.block_count(), 3);
}

#[test]
fn node_find_zero_and_append_data() {
    let mut n = FileListNode::new(1024, [0; 1024]);
    assert_eq!(n.find_zero_in_data_array(), 0);
    let mut src = [0u8; 1024];
    src[0] = 11;
    src[1] = 12;
    n.append_data(src, 5, 2);
    assert_eq!(n.find_zero_in_data_array(), 0);
    n.change_data([9; 1024]);
    assert_eq!(n.find_zero_in_data_array(), 1025);
    let mut tail = [9u8; 1024];
    tail[1023] = 0;
    n.change_data(tail);
    assert_eq!(n.find_zero_in_data_array(), 1023);
}

#[test]
fn rwlock_exclusion() {
    let mut l: RWLock<u64> = RWLock::new(17);
    assert!(l.obtain_rlock());
    assert!(l.obtain_rlock());
    // readers exclude the writer
    assert!(!l.obtain_wlock());
    assert_eq!(*l.read(), 17);
    l.return_rlock();
    l.return_rlock();
    assert!(l.obtain_wlock());
    // the writer excludes readers and further writers
    assert!(!l.obtain_rlock());
    assert!(!l.obtain_wlock());
    l.put(18);
    assert_eq!(*l.read(), 18);
    l.return_wlock();
    assert!(l.obtain_rlock());
}

#[test]
fn rwlock_guards() {
    let l: RWLock<u64> = RWLock::new(5);
    let g = l.wlock().ok().expect("free lock grants the writer");
    let mut g = g;
    g.put(6);
    let l = g.release();
    let g = l.rlock().ok().expect("released lock grants a reader");
    assert_eq!(*g.get(), 6);
    let l = g.release();
    let g = l.wlock().ok().expect("all holds given back");
    assert_eq!(*g.get(), 6);
}

#[test]
fn str_to_u8_filters_and_pads() {
    let name = str_to_u8(b"ab");
    assert_eq!(name[0], b'a');
    assert_eq!(name[1], b'b');
    assert!(name[2..].iter().all(|b| *b == 0));
    // bytes outside printable ASCII become the marker byte
    let odd = str_to_u8(&[0x01, 0x7f, b'x']);
    assert_eq!(odd[0], 0xfe);
    assert_eq!(odd[1], 0xfe);
    assert_eq!(odd[2], b'x');
    // long names are truncated to the buffer
    let long = str_to_u8(&[b'z'; 40]);
    assert_eq!(long, [b'z'; 32]);
}

#[test]
fn str_to_file_pads_and_truncates() {
    let block = str_to_file(b"xy");
    assert_eq!(&block[0..2], b"xy");
    assert!(block[2..].iter().all(|b| *b == 0));
    let long = str_to_file(&[5u8; 2000]);
    assert_eq!(long, [5u8; 1024]);
}

#[test]
fn split_path_drops_empty_components() {
    let parts = split_path(b"/a//b/");
    assert_eq!(parts.len(), 2);
    assert_eq!(parts[0], b"a".to_vec());
    assert_eq!(parts[1], b"b".to_vec());
    assert_eq!(split_path(b"///").len(), 0);
    assert_eq!(split_path(b"").len(), 0);
    let one = split_path(b"name");
    assert_eq!(one.len(), 1);
    assert_eq!(one[0], b"name".to_vec());
}

#[test]
fn name_comparisons() {
    let a = str_to_u8(b"same");
    let b = str_to_u8(b"same");
    let c = str_to_u8(b"other");
    assert!(names_equal(&a, &b));
    assert!(!names_equal(&a, &c));
    assert!(name_is_empty(&[0; 32]));
    assert!(!name_is_empty(&a));
}

#[test]
fn cli_collects_and_parses_a_line() {
    let mut cli = Cli::new();
    cli.set_working_dir(b"/".to_vec());
    for b in b"edit notes hello world" {
        assert!(matches!(cli.add_char(*b), CliEvent::Stored));
    }
    assert!(matches!(cli.add_char(b'\n'), CliEvent::Execute));
    let (op, path, rest) = cli.parse_command();
    assert_eq!(op, b"edit".to_vec());
    assert_eq!(path, b"/notes".to_vec());
    assert_eq!(rest, b" hello world".to_vec());
}

#[test]
fn cli_resolves_relative_and_absolute_paths() {
    let mut cli = Cli::new();
    cli.set_working_dir(b"/home/".to_vec());
    for b in b"cd sub" {
        cli.add_char(*b);
    }
    let (op, path, _rest) = cli.parse_command();
    assert_eq!(op, b"cd".to_vec());
    assert_eq!(path, b"/home/sub".to_vec());
    cli.reset();
    for b in b"cd /top" {
        cli.add_char(*b);
    }
    let (_op, path, _rest) = cli.parse_command();
    assert_eq!(path, b"/top".to_vec());
}

#[test]
fn cli_backspace_aborts_the_line() {
    let mut cli = Cli::new();
    for b in b"mk" {
        cli.add_char(*b);
    }
    assert!(matches!(cli.add_char(8), CliEvent::Abort));
    let (op, _path, _rest) = cli.parse_command();
    assert_eq!(op, b"".to_vec());
}

#[test]
fn cli_overflow_drops_the_line() {
    let mut cli = Cli::new();
    for _ in 0..799 {
        assert!(matches!(cli.add_char(b'a'), CliEvent::Stored));
    }
    assert!(matches!(cli.add_char(b'a'), CliEvent::Overflow));
    let (op, _path, _rest) = cli.parse_command();
    assert_eq!(op, b"".to_vec());
}

#[test]
fn cli_command_wrappers_drive_the_filesystem() {
    let mut fs = Fs::new();
    assert_eq!(cli::mkdir(&mut fs, b"/dir"), Ok(()));
    assert!(fs.validate_path(b"/dir"));
    assert_eq!(cli::mkfile(&mut fs, b"/dir/f"), Ok(()));
    assert_eq!(cli::edit(&mut fs, b"/dir/f", b"content"), Ok(()));
    assert_eq!(cli::append(&mut fs, b"/dir/f", b"-more"), Ok(()));
    let block = cli::show(&mut fs, b"/dir/f", 0).expect("first page");
    assert_eq!(&block[0..12], b"content-more");
    assert_eq!(cli::show(&mut fs, b"/dir/f", 1), None);
    assert_eq!(cli::rm(&mut fs, b"/dir/f"), Ok(()));
    assert_eq!(cli::edit(&mut fs, b"/dir/f", b"gone"), Err(FsError::PathNotFound));
    assert_eq!(cli::rm(&mut fs, b"/dir"), Ok(()));
}
