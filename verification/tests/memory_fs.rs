use vfs::FsError;
use vfs::OpenOptions;
use vfs::memory::MemoryFileManager;
use vfs::path::PathId;

#[test]
fn create_read_delete_file_memory() {
    let mut manager = MemoryFileManager::default();
    let file_path = PathId::from("/").join("a-file");
    assert!(manager.open(&file_path, OpenOptions::new().read(true)).is_err());
    assert!(!manager.exists_at(&file_path));

    let mut file = manager
        .open(&file_path, OpenOptions::new().read(true).write(true).create(true))
        .unwrap();
    assert!(manager.exists_at(&file_path));
    let mut reader = manager.open(&file_path, OpenOptions::new().read(true)).unwrap();
    assert_eq!(file.write(&mut manager, b"hello world").unwrap(), 11);
    let contents = reader.read(&manager, 1024).unwrap();
    assert_eq!(contents, b"hello world");

    manager.remove_file(&file_path).unwrap();

    assert!(manager.open(&file_path, OpenOptions::new().read(true)).is_err());
}

#[test]
fn create_dir_all_memory() {
    let mut manager = MemoryFileManager::default();
    let path = PathId::from("/");
    let file_path = path.join("a-file");

    // create a-file, which will be used to create an error.
    manager
        .open(&file_path, OpenOptions::new().read(true).write(true).create(true))
        .unwrap();

    // Creating the path we're given shouldn't do anything -- it already exists.
    manager.create_dir_all(&path).unwrap();
    // Trying to create against our file should be an error.
    manager.create_dir_all(&file_path).unwrap_err();
    // Creating a/b should work,
    let a = path.join("a");
    let a_b = a.join("b");
    manager.create_dir_all(&a_b).unwrap();
    assert!(manager.exists_at(&a));
    assert!(manager.exists_at(&a_b));
    // And we should be able to create a file within a/b.
    let sub_file = a_b.join("file");
    manager
        .open(&sub_file, OpenOptions::new().read(true).write(true).create(true))
        .unwrap();

    // We shouldn't be able to use create_dir_all on top of our file
    manager
        .open(&file_path.join("bad-idea"), OpenOptions::new().read(true).write(true).create(true))
        .unwrap_err();

    // Finally, delete it all.
    manager.remove_dir_all(&path).unwrap();
    // Make sure nothing seems to exist still.
    assert!(!manager.exists_at(&file_path));
    assert!(!manager.exists_at(&a));
    assert!(!manager.exists_at(&a_b));
    assert!(!manager.exists_at(&sub_file));
}

#[test]
fn relative_paths_are_unsupported() {
    let mut manager = MemoryFileManager::default();
    let relative = PathId::from("a-file");
    assert_eq!(
        manager.open(&relative, OpenOptions::new().read(true).create(true)).unwrap_err(),
        FsError::Unsupported
    );
    assert_eq!(manager.create_dir_all(&relative).unwrap_err(), FsError::Unsupported);
    assert_eq!(manager.remove_file(&relative).unwrap_err(), FsError::Unsupported);
    assert_eq!(manager.remove_dir_all(&relative).unwrap_err(), FsError::Unsupported);
    assert_eq!(
        manager.rename(&relative, PathId::from("/y")).unwrap_err(),
        FsError::Unsupported
    );
    assert_eq!(manager.list(&relative).unwrap_err(), FsError::Unsupported);
    assert!(!manager.exists_at(&relative));
}

#[test]
fn create_dir_all_error_kinds() {
    let mut manager = MemoryFileManager::default();
    let file_path = PathId::from("/a-file");
    manager
        .open(&file_path, OpenOptions::new().write(true).create(true))
        .unwrap();
    // The target itself exists as a file.
    assert_eq!(manager.create_dir_all(&file_path).unwrap_err(), FsError::Unsupported);
    // An ancestor exists as a file.
    assert_eq!(
        manager.create_dir_all(&file_path.join("below")).unwrap_err(),
        FsError::AlreadyExists
    );
    // An existing directory is fine.
    let dir = PathId::from("/d/e");
    manager.create_dir_all(&dir).unwrap();
    manager.create_dir_all(&dir).unwrap();
}

#[test]
fn remove_file_error_kinds() {
    let mut manager = MemoryFileManager::default();
    assert_eq!(manager.remove_file(&PathId::from("/missing")).unwrap_err(), FsError::NotFound);
    assert_eq!(manager.remove_file(&PathId::from("/")).unwrap_err(), FsError::Unsupported);
    let dir = PathId::from("/d");
    manager.create_dir_all(&dir).unwrap();
    assert_eq!(manager.remove_file(&dir).unwrap_err(), FsError::Unsupported);
}

#[test]
fn exists_after_open_and_remove() {
    let mut manager = MemoryFileManager::default();
    let p = PathId::from("/p");
    assert!(!manager.exists_at(&p));
    manager.open(&p, OpenOptions::new().create(true)).unwrap();
    assert!(manager.exists_at(&p));
    manager.remove_file(&p).unwrap();
    assert!(!manager.exists_at(&p));
}

#[test]
fn list_directory() {
    let mut manager = MemoryFileManager::default();
    let d = PathId::from("/d");
    manager.create_dir_all(&d).unwrap();
    let one = d.join("one");
    let two = d.join("two");
    manager.open(&one, OpenOptions::new().create(true)).unwrap();
    manager.open(&two, OpenOptions::new().create(true)).unwrap();
    let children = manager.list(&d).unwrap();
    assert_eq!(children.len(), 2);
    assert!(children.contains(&one));
    assert!(children.contains(&two));
    assert_eq!(manager.list(&PathId::from("/missing")).unwrap_err(), FsError::NotFound);
    assert_eq!(manager.list(&one).unwrap_err(), FsError::NotFound);
}

#[test]
fn remove_dir_all_leaves_no_orphans() {
    let mut manager = MemoryFileManager::default();
    let a = PathId::from("/a");
    let a_b = PathId::from("/a/b");
    manager.create_dir_all(&a_b).unwrap();
    let inner = a_b.join("file");
    manager.open(&inner, OpenOptions::new().create(true)).unwrap();
    let outer = PathId::from("/other");
    manager.open(&outer, OpenOptions::new().create(true)).unwrap();

    manager.remove_dir_all(&a).unwrap();
    assert!(!manager.exists_at(&a));
    assert!(!manager.exists_at(&a_b));
    assert!(!manager.exists_at(&inner));
    assert!(manager.exists_at(&outer));
    let root_children = manager.list(&PathId::from("/")).unwrap();
    assert!(!root_children.contains(&a));
    assert!(root_children.contains(&outer));
    assert_eq!(manager.remove_dir_all(&a).unwrap_err(), FsError::NotFound);
}

#[test]
fn rename_preserves_content() {
    let mut manager = MemoryFileManager::default();
    let x = PathId::from("/x");
    let y = PathId::from("/y");
    let mut file = manager
        .open(&x, OpenOptions::new().write(true).create(true))
        .unwrap();
    assert_eq!(file.write(&mut manager, b"abc").unwrap(), 3);
    manager.rename(&x, y.clone()).unwrap();
    let mut reader = manager.open(&y, OpenOptions::new().read(true)).unwrap();
    assert_eq!(reader.read(&manager, 1024).unwrap(), b"abc");
    assert!(!manager.exists_at(&x));
    assert!(manager.exists_at(&y));
}

#[test]
fn rename_error_kinds() {
    let mut manager = MemoryFileManager::default();
    assert_eq!(
        manager.rename(&PathId::from("/missing"), PathId::from("/y")).unwrap_err(),
        FsError::NotFound
    );
    let d = PathId::from("/d");
    manager.create_dir_all(&d).unwrap();
    assert_eq!(
        manager.rename(&d, PathId::from("/y")).unwrap_err(),
        FsError::Unsupported
    );
    let f = PathId::from("/f");
    manager.open(&f, OpenOptions::new().create(true)).unwrap();
    // No parent directory for the fresh destination.
    assert_eq!(
        manager.rename(&f, PathId::from("/nodir/y")).unwrap_err(),
        FsError::NotFound
    );
    // Renaming a file onto a directory is refused.
    assert_eq!(manager.rename(&f, d).unwrap_err(), FsError::Unsupported);
}

#[test]
fn manager_level_sync() {
    let mut manager = MemoryFileManager::default();
    let p = PathId::from("/p");
    assert!(manager.sync_data(&p).is_err());
    manager.open(&p, OpenOptions::new().create(true)).unwrap();
    assert!(manager.sync_data(&p).is_ok());
    assert!(manager.sync_all(&p).is_ok());
}
