use vfs::FsError;
use vfs::OpenOptions;
use vfs::SeekFrom;
use vfs::memory::MemoryFileManager;
use vfs::path::PathId;

#[test]
fn write_past_end_zero_fills() {
    let mut manager = MemoryFileManager::default();
    let gap = PathId::from("/gap");
    let mut file = manager
        .open(&gap, OpenOptions::new().write(true).create(true))
        .unwrap();
    assert_eq!(file.seek(&manager, SeekFrom::Start(5)).unwrap(), 5);
    assert_eq!(file.write(&mut manager, b"x").unwrap(), 1);
    assert_eq!(file.len(&manager).unwrap(), 6);
    let mut reader = manager.open(&gap, OpenOptions::new().read(true)).unwrap();
    assert_eq!(reader.read(&manager, 16).unwrap(), vec![0, 0, 0, 0, 0, b'x']);
}

#[test]
fn short_write_inside_file() {
    let mut manager = MemoryFileManager::default();
    let p = PathId::from("/p");
    let mut file = manager
        .open(&p, OpenOptions::new().write(true).create(true))
        .unwrap();
    assert_eq!(file.write(&mut manager, b"abcdef").unwrap(), 6);
    assert_eq!(file.seek(&manager, SeekFrom::Start(4)).unwrap(), 4);
    // Only two bytes remain before end-of-file: the write is short.
    assert_eq!(file.write(&mut manager, b"XYZ").unwrap(), 2);
    assert_eq!(file.len(&manager).unwrap(), 6);
    // The cursor now sits at end-of-file; the rest appends.
    assert_eq!(file.write(&mut manager, b"Z").unwrap(), 1);
    let mut reader = manager.open(&p, OpenOptions::new().read(true)).unwrap();
    assert_eq!(reader.read(&manager, 16).unwrap(), b"abcdXYZ");
}

#[test]
fn read_is_positioned_and_short_at_eof() {
    let mut manager = MemoryFileManager::default();
    let p = PathId::from("/p");
    let mut file = manager
        .open(&p, OpenOptions::new().write(true).create(true))
        .unwrap();
    file.write(&mut manager, b"hello").unwrap();
    let mut reader = manager.open(&p, OpenOptions::new().read(true)).unwrap();
    assert_eq!(reader.read(&manager, 2).unwrap(), b"he");
    assert_eq!(reader.read(&manager, 2).unwrap(), b"ll");
    assert_eq!(reader.read(&manager, 2).unwrap(), b"o");
    assert_eq!(reader.read(&manager, 2).unwrap(), b"");
}

#[test]
fn seek_variants() {
    let mut manager = MemoryFileManager::default();
    let p = PathId::from("/p");
    let mut file = manager
        .open(&p, OpenOptions::new().write(true).create(true))
        .unwrap();
    file.write(&mut manager, b"abcdef").unwrap();
    assert_eq!(file.seek(&manager, SeekFrom::Start(2)).unwrap(), 2);
    assert_eq!(file.seek(&manager, SeekFrom::Current(3)).unwrap(), 5);
    assert_eq!(file.seek(&manager, SeekFrom::Current(-4)).unwrap(), 1);
    assert_eq!(file.seek(&manager, SeekFrom::End(-2)).unwrap(), 4);
    assert_eq!(file.seek(&manager, SeekFrom::End(2)).unwrap(), 8);
    // The most-negative offset clamps to the start instead of underflowing.
    assert_eq!(file.seek(&manager, SeekFrom::Current(i64::MIN)).unwrap(), 0);
    assert_eq!(file.seek(&manager, SeekFrom::End(i64::MIN)).unwrap(), 0);
    // Seeking before the start of the file is refused.
    assert_eq!(
        file.seek(&manager, SeekFrom::End(-7)).unwrap_err(),
        FsError::Unsupported
    );
}

#[test]
fn set_len_truncates_and_moves_cursor() {
    let mut manager = MemoryFileManager::default();
    let p = PathId::from("/p");
    let mut file = manager
        .open(&p, OpenOptions::new().write(true).create(true))
        .unwrap();
    file.write(&mut manager, b"hello").unwrap();
    // The cursor sits at five; truncating to two drags it back.
    file.set_len(&mut manager, 2).unwrap();
    assert_eq!(file.len(&manager).unwrap(), 2);
    assert_eq!(file.seek(&manager, SeekFrom::Current(0)).unwrap(), 2);
    // Extending zero-fills.
    file.set_len(&mut manager, 4).unwrap();
    assert_eq!(file.len(&manager).unwrap(), 4);
    assert_eq!(file.seek(&manager, SeekFrom::Current(0)).unwrap(), 2);
    let mut reader = manager.open(&p, OpenOptions::new().read(true)).unwrap();
    assert_eq!(reader.read(&manager, 16).unwrap(), vec![b'h', b'e', 0, 0]);
}

#[test]
fn directory_handles_refuse_byte_io() {
    let mut manager = MemoryFileManager::default();
    let d = PathId::from("/d");
    manager.create_dir_all(&d).unwrap();
    let mut handle = manager.open(&d, OpenOptions::new().read(true)).unwrap();
    assert_eq!(handle.len(&manager).unwrap(), 0);
    assert_eq!(handle.read(&manager, 4).unwrap_err(), FsError::Unsupported);
    assert_eq!(handle.write(&mut manager, b"x").unwrap_err(), FsError::Unsupported);
    assert_eq!(
        handle.seek(&manager, SeekFrom::Start(0)).unwrap_err(),
        FsError::Unsupported
    );
    assert_eq!(handle.set_len(&mut manager, 4).unwrap_err(), FsError::Unsupported);
}

#[test]
fn duplicate_handles_share_bytes_with_fresh_cursor() {
    let mut manager = MemoryFileManager::default();
    let p = PathId::from("/p");
    let mut file = manager
        .open(&p, OpenOptions::new().write(true).create(true))
        .unwrap();
    file.write(&mut manager, b"shared").unwrap();
    let mut duplicate = file.try_clone().unwrap();
    assert_eq!(duplicate.seek(&manager, SeekFrom::Current(0)).unwrap(), 0);
    assert_eq!(duplicate.read(&manager, 16).unwrap(), b"shared");
    assert_eq!(duplicate.path(), &p);
    assert_eq!(file.path(), &p);
}

#[test]
fn empty_files_report_empty() {
    let mut manager = MemoryFileManager::default();
    let p = PathId::from("/p");
    let mut file = manager
        .open(&p, OpenOptions::new().write(true).create(true))
        .unwrap();
    assert!(file.is_empty(&manager).unwrap());
    file.write(&mut manager, b"x").unwrap();
    assert!(!file.is_empty(&manager).unwrap());
}

#[test]
fn open_options_builder() {
    let options = vfs::OpenOptions::new();
    assert!(!options.read && !options.write && !options.create);
    let options = vfs::OpenOptions::new().read(true).write(true).create(true);
    assert!(options.read && options.write && options.create);
    let options = vfs::OpenOptions::new().read(true).read(false);
    assert!(!options.read);
}
