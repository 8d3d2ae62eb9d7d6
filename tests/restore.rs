use std::sync::Arc;

use zerostash::{
    assemble, chunk_offsets, destination, get_path, group_by_object, normalize_filename,
    place_at_position, place_chunk, plan_work, ChunkPointer, Entry, FileImage, FileType,
    RestoreError, WorkPlan,
};

fn pointer(object: u64, offs: u32, size: u32) -> Arc<ChunkPointer> {
    Arc::new(ChunkPointer { object, offs, size, hash: [0u8; 32], tag: [0u8; 16] })
}

fn entry(name: &str, size: u64, chunks: Vec<(u64, Arc<ChunkPointer>)>) -> Entry {
    Entry {
        unix_secs: 0,
        unix_nanos: 0,
        unix_perm: None,
        unix_uid: None,
        unix_gid: None,
        readonly: None,
        file_type: FileType::File,
        size,
        name: name.to_string(),
        chunks,
    }
}

#[test]
fn path_removes_root() {
    assert_eq!("home/a/b", get_path("/home/a/b"));
    assert_eq!("./a/b", get_path("./a/b"));
}

#[test]
fn root_marker_stripped_like_relative() {
    assert_eq!(get_path("/x/y.txt"), "x/y.txt");
    assert_eq!(get_path("//x"), "x");
    assert_eq!(get_path("x/y"), "x/y");
    assert_eq!(normalize_filename("/home/a/b").unwrap(), normalize_filename("home/a/b").unwrap());
}

#[test]
fn normalize_drops_dots_and_root() {
    assert_eq!(normalize_filename("/home/a/b").unwrap(), "home/a/b");
    assert_eq!(normalize_filename("./a/b").unwrap(), "a/b");
    assert_eq!(normalize_filename("a//b//c/").unwrap(), "a/b/c");
    assert_eq!(normalize_filename("./.././a").unwrap(), "a");
    assert_eq!(normalize_filename("../../a").unwrap(), "a");
    assert_eq!(normalize_filename("").unwrap(), "");
}

#[test]
fn normalize_refuses_parent_after_name() {
    assert_eq!(normalize_filename("a/../b"), Err(zerostash::EntryError::InvalidInputPath));
    assert_eq!(normalize_filename("/a/b/.."), Err(zerostash::EntryError::InvalidInputPath));
    assert_eq!(normalize_filename("a/./b"), Err(zerostash::EntryError::InvalidInputPath));
    assert_eq!(normalize_filename("a/."), Err(zerostash::EntryError::InvalidInputPath));
}

#[test]
fn zero_size_entry_is_skipped() {
    let e = entry("empty", 0, Vec::new());
    assert!(matches!(plan_work(&e), WorkPlan::Skip));
    let d = Entry { file_type: FileType::Directory, ..entry("dir", 0, Vec::new()) };
    assert!(matches!(plan_work(&d), WorkPlan::Skip));
}

#[test]
fn one_group_per_object() {
    let p = pointer(7, 0, 4);
    let chunks = vec![(0u64, p.clone()), (4, pointer(9, 0, 4)), (8, p.clone()), (12, pointer(7, 4, 4))];
    let e = entry("f", 16, chunks);
    match plan_work(&e) {
        WorkPlan::Write { size, groups } => {
            assert_eq!(size, 16);
            assert_eq!(groups.len(), 2);
            assert_eq!(groups[0].object, 7);
            assert_eq!(groups[0].positions, vec![0, 2, 3]);
            assert_eq!(groups[1].object, 9);
            assert_eq!(groups[1].positions, vec![1]);
        }
        WorkPlan::Skip => panic!("a sized file is written"),
    }
}

#[test]
fn same_object_many_times_is_one_group() {
    let chunks: Vec<(u64, Arc<ChunkPointer>)> = (0..5u64).map(|i| (i * 2, pointer(3, i as u32 * 2, 2))).collect();
    let groups = group_by_object(&chunks);
    assert_eq!(groups.len(), 1);
    assert_eq!(groups[0].positions, vec![0, 1, 2, 3, 4]);
    assert!(group_by_object(&Vec::new()).is_empty());
}

#[test]
fn shared_chunk_restores_identically() {
    let shared = b"SHARED".to_vec();
    let a = assemble(10, &vec![(0, b"abcd".to_vec()), (4, shared.clone())]).unwrap();
    let b = assemble(8, &vec![(0, shared.clone()), (6, b"zz".to_vec())]).unwrap();
    assert_eq!(&a[4..10], &b[0..6]);
    assert_eq!(&a[4..10], b"SHARED");
}

#[test]
fn assemble_round_trip() {
    let plain: Vec<u8> = (0..1000u32).map(|i| (i * 31 % 251) as u8).collect();
    let mut pieces = Vec::new();
    let cuts = [0usize, 17, 300, 301, 640, 999];
    for w in 0..cuts.len() {
        let end = if w + 1 < cuts.len() { cuts[w + 1] } else { plain.len() };
        pieces.push((cuts[w] as u64, plain[cuts[w]..end].to_vec()));
    }
    pieces.reverse();
    assert_eq!(assemble(plain.len() as u64, &pieces).unwrap(), plain);
}

#[test]
fn hello_world_scenario() {
    let e = entry("a/b.txt", 10, vec![(0, pointer(1, 0, 5)), (5, pointer(2, 0, 5))]);
    let d = destination("/restore", &e.name).unwrap();
    assert_eq!(d.path, "/restore/a/b.txt");
    assert_eq!(d.parent.unwrap(), "/restore/a");
    let out = assemble(e.size, &vec![(0, b"HELLO".to_vec()), (5, b"WORLD".to_vec())]).unwrap();
    assert_eq!(out, b"HELLOWORLD".to_vec());

    let offs = chunk_offsets(&e.chunks);
    assert_eq!(offs, vec![0, 5]);
    let mut image = FileImage::new(10);
    assert_eq!(place_at_position(&mut image, &offs, 1, 10, b"WORLD"), Ok(()));
    assert_eq!(place_at_position(&mut image, &offs, 0, 10, b"HELLO"), Ok(()));
    assert_eq!(image.into_bytes(), b"HELLOWORLD".to_vec());
}

#[test]
fn destination_of_rooted_and_flat_names() {
    let d = destination("t", "/x/y/z").unwrap();
    assert_eq!(d.path, "t/x/y/z");
    assert_eq!(d.parent.unwrap(), "t/x/y");
    let f = destination("t/", "file").unwrap();
    assert_eq!(f.path, "t/file");
    assert_eq!(f.parent.unwrap(), "t/");
    assert!(destination("t", "/").unwrap().parent.is_none());
    assert_eq!(destination("t", "./a/b").unwrap().path, "t/a/b");
    assert_eq!(destination("t", "../../x").unwrap().path, "t/x");
}

#[test]
fn destination_refuses_escaping_path() {
    assert_eq!(destination("T", "a/../../x").unwrap_err(), RestoreError::PathError);
    assert_eq!(destination("T", "a/./x").unwrap_err(), RestoreError::PathError);
}

#[test]
fn wrong_length_chunk_is_integrity_error() {
    assert_eq!(assemble(10, &vec![(0, b"HELL".to_vec()), (5, b"WORLD".to_vec())]), Err(RestoreError::IntegrityError));
    assert_eq!(assemble(4, &vec![(2, b"abc".to_vec())]), Err(RestoreError::IntegrityError));
    let mut image = FileImage::new(4);
    assert_eq!(place_chunk(&mut image, 1, 3, b"abc"), Err(RestoreError::IntegrityError));
    assert_eq!(image.into_bytes(), vec![0, 0, 0, 0]);
}

#[test]
fn duplicate_offsets_are_refused() {
    assert_eq!(assemble(4, &vec![(0, b"ab".to_vec()), (0, b"ab".to_vec())]), Err(RestoreError::IntegrityError));
}

#[test]
fn write_at_refuses_overrun() {
    let mut image = FileImage::new(6);
    assert_eq!(image.write_at(2, b"xyz"), Ok(()));
    assert_eq!(image.write_at(5, b"12"), Err(RestoreError::IntegrityError));
    assert_eq!(image.write_at(u64::MAX, b"1"), Err(RestoreError::IntegrityError));
    assert_eq!(image.len(), 6);
    assert_eq!(image.into_bytes(), vec![0, 0, b'x', b'y', b'z', 0]);
}

#[test]
fn gaps_stay_zero() {
    assert_eq!(assemble(3, &Vec::new()).unwrap(), vec![0, 0, 0]);
    assert_eq!(assemble(0, &Vec::new()).unwrap(), Vec::<u8>::new());
}
