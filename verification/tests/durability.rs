use vfs::OpenOptions;
use vfs::fsync::FSyncManager;
use vfs::fsync::SpawnStatus;
use vfs::fsync::child_spawn_budget;
use vfs::fsync::initial_spawn_budget;
use vfs::fsync::initial_spawn_status;
use vfs::fsync::should_spawn;
use vfs::memory::MemoryFileManager;
use vfs::path::PathId;

#[test]
fn batch_wait_completes_after_all_queued() {
    let mut manager = MemoryFileManager::default();
    let mut handles = Vec::new();
    for name in ["/f0", "/f1", "/f2", "/f3", "/f4", "/f5", "/f6", "/f7", "/f8", "/f9"] {
        let path = PathId::from(name);
        let mut file = manager
            .open(&path, OpenOptions::new().write(true).create(true))
            .unwrap();
        assert_eq!(file.write(&mut manager, b"x").unwrap(), 1);
        handles.push(file);
    }
    let mut batch = manager.new_fsync_batch().unwrap();
    for file in &handles {
        batch.queue_fsync_all(file).unwrap();
    }
    batch.wait_all().unwrap();
}

#[test]
fn shutdown_rejects_new_batches_but_handles_survive() {
    let mut manager = MemoryFileManager::default();
    let path = PathId::from("/survivor");
    let mut file = manager
        .open(&path, OpenOptions::new().write(true).create(true))
        .unwrap();
    manager.shutdown().unwrap();
    let error = match manager.new_fsync_batch() {
        Err(error) => error,
        Ok(_) => panic!("a shut-down manager must reject new batches"),
    };
    assert!(error.is_shutdown());
    // Operations on already-created handles still work, durability aside.
    assert_eq!(file.write(&mut manager, b"still here").unwrap(), 10);
    let mut reader = manager.open(&path, OpenOptions::new().read(true)).unwrap();
    assert_eq!(reader.read(&manager, 32).unwrap(), b"still here");
    assert!(file.sync_data().is_ok());
}

#[test]
fn standalone_fsync_manager_lifecycle() {
    let mut fsyncs = FSyncManager::new(8);
    let batch = fsyncs.new_batch().unwrap();
    batch.wait_all().unwrap();
    fsyncs.shutdown().unwrap();
    match fsyncs.new_batch() {
        Err(error) => assert!(error.is_shutdown()),
        Ok(_) => panic!("a shut-down manager must reject new batches"),
    }
}

#[test]
fn queue_data_and_all_both_complete() {
    let mut manager = MemoryFileManager::default();
    let path = PathId::from("/data");
    let file = manager
        .open(&path, OpenOptions::new().write(true).create(true))
        .unwrap();
    let mut batch = manager.new_fsync_batch().unwrap();
    batch.queue_fsync_data(&file).unwrap();
    batch.queue_fsync_all(&file).unwrap();
    batch.wait_all().unwrap();
}

#[test]
fn spawn_policy_tracks_pressure() {
    assert_eq!(initial_spawn_budget(4), 3);
    assert_eq!(initial_spawn_budget(1), 0);
    assert_eq!(initial_spawn_budget(0), 0);
    assert_eq!(child_spawn_budget(3), 2);
    assert_eq!(child_spawn_budget(1), 0);
    assert_eq!(child_spawn_budget(0), 0);
    assert!(matches!(initial_spawn_status(3), SpawnStatus::CanSpawn));
    assert!(matches!(initial_spawn_status(0), SpawnStatus::AtLimit));
    assert!(should_spawn(&SpawnStatus::CanSpawn, true));
    assert!(!should_spawn(&SpawnStatus::CanSpawn, false));
    assert!(!should_spawn(&SpawnStatus::Spawned, true));
    assert!(!should_spawn(&SpawnStatus::AtLimit, true));
}
