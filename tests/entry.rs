use std::sync::Arc;

use zerostash::{
    any_match, name_matches, select_by_glob, ChunkPointer, CreateAction, Entry, EntryError,
    FileMetadata, FileType, PreserveMetadata,
};

fn metadata(file_type: FileType) -> FileMetadata {
    FileMetadata {
        mode: 0o644,
        uid: 1000,
        gid: 100,
        readonly: false,
        mtime: 1_600_000_000,
        mtime_nsec: 42,
        len: 10,
        file_type,
    }
}

const ALL: PreserveMetadata = PreserveMetadata { permissions: true, ownership: true, times: true };

#[test]
fn file_type_predicates() {
    assert!(FileType::File.is_file());
    assert!(!FileType::File.is_dir());
    assert!(FileType::Directory.is_dir());
    assert!(FileType::Symlink("x".to_string()).is_symlink());
    assert!(!FileType::Symlink("x".to_string()).is_file());
    assert!(FileType::default().is_file());
}

#[test]
fn from_metadata_keeps_what_is_asked() {
    let e = Entry::from_metadata(metadata(FileType::File), &"/home/u/f.txt", &ALL).unwrap();
    assert_eq!(e.name, "home/u/f.txt");
    assert_eq!((e.unix_secs, e.unix_nanos), (1_600_000_000, 42));
    assert_eq!(e.unix_perm, Some(0o644));
    assert_eq!((e.unix_uid, e.unix_gid), (Some(1000), Some(100)));
    assert_eq!(e.readonly, Some(false));
    assert_eq!(e.size, 10);
    assert!(e.chunks.is_empty());

    let none = PreserveMetadata::default();
    let e = Entry::from_metadata(metadata(FileType::File), &"f", &none).unwrap();
    assert_eq!((e.unix_secs, e.unix_nanos), (0, 0));
    assert_eq!((e.unix_perm, e.unix_uid, e.unix_gid, e.readonly), (None, None, None, None));
}

#[test]
fn directories_and_links_have_no_content() {
    let d = Entry::from_metadata(metadata(FileType::Directory), &"d", &ALL).unwrap();
    assert_eq!(d.size, 0);
    let l = Entry::from_metadata(metadata(FileType::Symlink("t".to_string())), &"l", &ALL).unwrap();
    assert_eq!(l.size, 0);
}

#[test]
fn from_metadata_refuses_bad_path() {
    let r = Entry::from_metadata(metadata(FileType::File), &"a/../b", &ALL);
    assert!(matches!(r, Err(EntryError::InvalidInputPath)));
}

#[test]
fn equality_ignores_chunks() {
    let a = Entry::from_metadata(metadata(FileType::File), &"f", &ALL).unwrap();
    let mut b = a.clone();
    b.chunks.push((0, Arc::new(ChunkPointer { object: 1, offs: 0, size: 1, hash: [1; 32], tag: [2; 16] })));
    assert!(a == b);
    b.unix_perm = Some(0o600);
    assert!(a != b);
    let l1 = Entry::from_metadata(metadata(FileType::Symlink("t1".to_string())), &"l", &ALL).unwrap();
    let l2 = Entry::from_metadata(metadata(FileType::Symlink("t2".to_string())), &"l", &ALL).unwrap();
    assert!(l1 != l2);
}

#[test]
fn symlink_is_restored_without_following() {
    let e = Entry::from_metadata(metadata(FileType::Symlink("/nonexistent".to_string())), &"l", &ALL).unwrap();
    let plan = e.restore_plan(&ALL);
    assert!(plan.no_follow);
    assert!(!plan.keep_open);
    assert!(matches!(plan.create, CreateAction::Symlink { ref target } if target == "/nonexistent"));
}

#[test]
fn restore_plan_follows_policy() {
    let e = Entry::from_metadata(metadata(FileType::File), &"f", &ALL).unwrap();
    let plan = e.restore_plan(&ALL);
    assert!(matches!(plan.create, CreateAction::File { size: 10 }));
    assert!(!plan.no_follow && plan.keep_open);
    assert_eq!(plan.permissions, Some(0o644));
    assert_eq!(plan.mtime, Some((1_600_000_000, 42)));
    let off = e.restore_plan(&PreserveMetadata::default());
    assert_eq!((off.permissions, off.mtime), (None, None));
    assert_eq!((off.uid, off.gid), (None, None));
    assert_eq!((plan.uid, plan.gid), (Some(1000), Some(100)));
    let d = Entry::from_metadata(metadata(FileType::Directory), &"d", &ALL).unwrap();
    assert!(matches!(d.restore_plan(&ALL).create, CreateAction::Directory));
}

#[test]
fn glob_selection() {
    let patterns = vec!["a/*".to_string(), "*.txt".to_string()];
    let names = vec!["a/b".to_string(), "c/d".to_string(), "c/e.txt".to_string()];
    assert_eq!(select_by_glob(&patterns, &names), Some(vec![0, 2]));
    assert_eq!(name_matches(&patterns, "zzz"), Some(false));
    assert_eq!(name_matches(&vec!["a/***".to_string()], "a/b"), None);
    assert_eq!(select_by_glob(&vec!["[".to_string()], &names), None);
    assert_eq!(any_match(&vec![Some(false), Some(true)]), Some(true));
    assert_eq!(any_match(&vec![Some(true), None]), None);
    assert_eq!(any_match(&Vec::new()), Some(false));
}
