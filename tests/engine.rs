use sort_files::commands::{add_new_files, check_stored_files, is_correct_files, rebuild_index, run, Command};
use sort_files::error::FileError;
use sort_files::grouping::{group_by_hash, group_files, FileStorage};
use sort_files::loader::FileLoader;
use sort_files::location::FileLocation;
use sort_files::naming::NameSet;
use sort_files::record::ProcessedFile;
use sort_files::resolve::{mark_duplicates, mark_new_storage};

fn new_file(tag: u8, size: u64, path: &str, year: i32) -> ProcessedFile {
    ProcessedFile::New { hash: [tag; 32], size, path: path.to_string(), year }
}

fn stored(tag: u8, size: u64, path: &str) -> ProcessedFile {
    ProcessedFile::Stored { hash: [tag; 32], size, path: path.to_string() }
}

fn line(tag: u8, size: u64, rel: &str) -> String {
    let mut s = String::new();
    for _ in 0..32 {
        s.push_str(&format!("{:02x}", tag));
    }
    format!("{}|{}|{}", s, size, rel)
}

#[test]
fn locations_under_root() {
    let l = FileLocation::new("/r");
    assert_eq!(l.store_path, "/r/store");
    assert_eq!(l.duplicates_path, "/r/duplicates");
    assert_eq!(l.new_files_path, "/r/new_files");
    assert_eq!(l.index_path, "/r/index.txt");
    let l = FileLocation::new("/r/");
    assert_eq!(l.store_path, "/r/store");
}

#[test]
fn grouping_needs_hash_and_size() {
    let files = vec![
        new_file(1, 10, "/i/a", 2020),
        new_file(1, 11, "/i/b", 2020),
        new_file(2, 10, "/i/c", 2020),
        new_file(1, 10, "/i/d", 2020),
        ProcessedFile::Duplicate {
            path: "/i/e".to_string(),
            stored_path: "/s/x".to_string(),
            duplicate_path: "/d/e".to_string(),
            ln_path: "/d/e.lnk".to_string(),
        },
    ];
    let groups = group_files(&files);
    assert_eq!(groups.len(), 3);
    assert_eq!(groups[0].files.len(), 2);
    assert!(matches!(&groups[0].files[0], ProcessedFile::New { path, .. } if path == "/i/a"));
    assert!(matches!(&groups[0].files[1], ProcessedFile::New { path, .. } if path == "/i/d"));
    assert_eq!(groups[1].files.len(), 1);
    assert_eq!(groups[1].key.size, 11);
    assert_eq!(groups[2].key.hash, [2u8; 32]);
}

#[test]
fn group_by_hash_drops_duplicates() {
    let st: FileStorage = Vec::new();
    let st = group_by_hash(st, new_file(3, 1, "/i/a", 2021));
    let st = group_by_hash(
        st,
        ProcessedFile::Duplicate {
            path: "/i/b".to_string(),
            stored_path: "/s/a".to_string(),
            duplicate_path: "/d/b".to_string(),
            ln_path: "/d/b.lnk".to_string(),
        },
    );
    assert_eq!(st.len(), 1);
    assert_eq!(st[0].files.len(), 1);
}

#[test]
fn promotion_takes_last_new_record() {
    let loc = FileLocation::new("/r");
    let mut names = NameSet::new();
    names.insert("2023/a.jpg".to_string());
    let group = vec![new_file(1, 5, "/r/new_files/b.jpg", 2023), new_file(1, 5, "/r/new_files/x/a.jpg", 2023)];
    let out = mark_new_storage(group, &mut names, &loc);
    assert_eq!(out.len(), 2);
    assert!(matches!(&out[0], ProcessedFile::New { .. }));
    match &out[1] {
        ProcessedFile::NewStored { path, stored_path, year, .. } => {
            assert_eq!(path, "/r/new_files/x/a.jpg");
            assert_eq!(stored_path, "/r/store/2023/a_1.jpg");
            assert_eq!(*year, 2023);
        }
        other => panic!("unexpected {:?}", other),
    }
    assert!(names.contains(&"2023/a_1.jpg".to_string()));
}

#[test]
fn promotion_skips_group_with_stored_record() {
    let loc = FileLocation::new("/r");
    let mut names = NameSet::new();
    let group = vec![stored(1, 5, "/r/store/2020/a.jpg"), new_file(1, 5, "/r/new_files/b.jpg", 2023)];
    let out = mark_new_storage(group, &mut names, &loc);
    assert!(matches!(&out[0], ProcessedFile::Stored { .. }));
    assert!(matches!(&out[1], ProcessedFile::New { .. }));
    assert!(!names.contains(&"2023/b.jpg".to_string()));
}

#[test]
fn duplicates_link_to_kept_copy() {
    let loc = FileLocation::new("/r");
    let mut names = NameSet::new();
    names.insert("b.jpg".to_string());
    let group = vec![
        stored(1, 5, "/r/store/2020/a.jpg"),
        new_file(1, 5, "/r/new_files/b.jpg", 2023),
        new_file(1, 5, "/r/new_files/sub/b.jpg", 2023),
    ];
    let out = mark_duplicates(group, &mut names, &loc).unwrap();
    assert!(matches!(&out[0], ProcessedFile::Stored { .. }));
    match &out[1] {
        ProcessedFile::Duplicate { path, stored_path, duplicate_path, ln_path } => {
            assert_eq!(path, "/r/new_files/b.jpg");
            assert_eq!(stored_path, "/r/store/2020/a.jpg");
            assert_eq!(duplicate_path, "/r/duplicates/b_1.jpg");
            assert_eq!(ln_path, "/r/duplicates/b_1.jpg.lnk");
        }
        other => panic!("unexpected {:?}", other),
    }
    match &out[2] {
        ProcessedFile::Duplicate { duplicate_path, ln_path, .. } => {
            assert_eq!(duplicate_path, "/r/duplicates/b_2.jpg");
            assert_eq!(ln_path, "/r/duplicates/b_2.jpg.lnk");
        }
        other => panic!("unexpected {:?}", other),
    }
}

#[test]
fn duplicates_need_a_kept_copy() {
    let loc = FileLocation::new("/r");
    let mut names = NameSet::new();
    let group = vec![new_file(1, 5, "/r/new_files/b.jpg", 2023)];
    assert!(matches!(mark_duplicates(group, &mut names, &loc), Err(FileError::MissingCanonical)));
}

#[test]
fn link_name_collision_gets_suffix() {
    let loc = FileLocation::new("/r");
    let existing = vec!["/r/duplicates/b.jpg.lnk".to_string()];
    let mut names = loc.get_duplicates_filenames(&existing);
    let group = vec![stored(1, 5, "/r/store/2020/a.jpg"), new_file(1, 5, "/r/new_files/b.jpg", 2023)];
    let out = mark_duplicates(group, &mut names, &loc).unwrap();
    match &out[1] {
        ProcessedFile::Duplicate { duplicate_path, ln_path, .. } => {
            assert_eq!(duplicate_path, "/r/duplicates/b.jpg");
            assert_eq!(ln_path, "/r/duplicates/b.jpg_1.lnk");
        }
        other => panic!("unexpected {:?}", other),
    }
}

#[test]
fn duplicate_area_names_are_seeded() {
    let loc = FileLocation::new("/r");
    let existing = vec!["/r/duplicates/a.txt".to_string(), "/r/duplicates/sub/a.txt".to_string()];
    let names = loc.get_duplicates_filenames(&existing);
    assert!(names.contains(&"a.txt".to_string()));
    assert!(names.contains(&"a_1.txt".to_string()));
    assert!(!names.contains(&"sub/a.txt".to_string()));
}

#[test]
fn add_end_to_end() {
    let loc = FileLocation::new("/r");
    let intake = vec![new_file(9, 42, "/r/new_files/b.jpg", 2023), new_file(9, 42, "/r/new_files/a.jpg", 2023)];
    let plan = add_new_files(&loc, "", intake, &Vec::new()).unwrap();
    assert_eq!(plan.years, vec![2023]);
    assert_eq!(plan.groups.len(), 1);
    let g = &plan.groups[0];
    match &g[0] {
        ProcessedFile::Duplicate { path, stored_path, duplicate_path, ln_path } => {
            assert_eq!(path, "/r/new_files/b.jpg");
            assert_eq!(stored_path, "/r/store/2023/a.jpg");
            assert_eq!(duplicate_path, "/r/duplicates/b.jpg");
            assert_eq!(ln_path, "/r/duplicates/b.jpg.lnk");
        }
        other => panic!("unexpected {:?}", other),
    }
    match &g[1] {
        ProcessedFile::NewStored { path, stored_path, .. } => {
            assert_eq!(path, "/r/new_files/a.jpg");
            assert_eq!(stored_path, "/r/store/2023/a.jpg");
        }
        other => panic!("unexpected {:?}", other),
    }
    assert_eq!(plan.index_text, line(9, 42, "2023/a.jpg"));
}

#[test]
fn add_twice_is_idempotent() {
    let loc = FileLocation::new("/r");
    let intake = vec![
        new_file(1, 1, "/r/new_files/x.txt", 2021),
        new_file(2, 2, "/r/new_files/y.txt", 2022),
        new_file(1, 1, "/r/new_files/z.txt", 2021),
    ];
    let first = add_new_files(&loc, "", intake, &Vec::new()).unwrap();
    let second = add_new_files(&loc, &first.index_text, Vec::new(), &Vec::new()).unwrap();
    assert_eq!(second.index_text, first.index_text);
    assert!(second.years.is_empty());
    for g in &second.groups {
        for f in g {
            assert!(matches!(f, ProcessedFile::Stored { .. }));
        }
    }
}

#[test]
fn add_keeps_stored_copy_and_counts_names() {
    let loc = FileLocation::new("/r");
    let index = line(5, 3, "2020/a.jpg");
    let intake = vec![new_file(5, 3, "/r/new_files/a.jpg", 2020), new_file(6, 3, "/r/new_files/a.jpg", 2020)];
    let plan = add_new_files(&loc, &index, intake, &Vec::new()).unwrap();
    assert_eq!(plan.groups.len(), 2);
    assert!(matches!(&plan.groups[0][1], ProcessedFile::Duplicate { stored_path, .. } if stored_path == "/r/store/2020/a.jpg"));
    assert!(matches!(&plan.groups[1][0], ProcessedFile::NewStored { stored_path, .. } if stored_path == "/r/store/2020/a_1.jpg"));
    assert_eq!(plan.index_text, format!("{}\n{}", line(5, 3, "2020/a.jpg"), line(6, 3, "2020/a_1.jpg")));
}

#[test]
fn add_refuses_corrupt_index() {
    let loc = FileLocation::new("/r");
    let index = format!("{}\nnot a line", line(5, 3, "2020/a.jpg"));
    assert!(matches!(add_new_files(&loc, &index, Vec::new(), &Vec::new()), Err(FileError::CorruptIndex)));
}

#[test]
fn check_pairs_index_with_store() {
    let loc = FileLocation::new("/r");
    let index = format!("{}\n{}\n", line(1, 10, "2020/a.jpg"), line(2, 20, "2020/b.jpg"));
    let rehashed = vec![new_file(1, 10, "/r/store/2020/a.jpg", 2020), new_file(3, 20, "/r/store/2020/b.jpg", 2020)];
    let bad = check_stored_files(&loc, &index, rehashed).unwrap();
    assert_eq!(bad.len(), 2);
    assert!(matches!(&bad[0][0], ProcessedFile::Stored { path, .. } if path == "/r/store/2020/b.jpg"));
    assert!(matches!(&bad[1][0], ProcessedFile::New { hash, .. } if *hash == [3u8; 32]));
    let unchanged = vec![new_file(1, 10, "/r/store/2020/a.jpg", 2020), new_file(2, 20, "/r/store/2020/b.jpg", 2020)];
    assert!(check_stored_files(&loc, &index, unchanged).unwrap().is_empty());
}

#[test]
fn correct_group_has_two_records() {
    assert!(is_correct_files(&vec![stored(1, 1, "/a"), stored(1, 1, "/b")]));
    assert!(!is_correct_files(&vec![stored(1, 1, "/a")]));
    assert!(!is_correct_files(&vec![stored(1, 1, "/a"), stored(1, 1, "/b"), stored(1, 1, "/c")]));
}

#[test]
fn reindex_writes_one_line_per_file() {
    let loc = FileLocation::new("/r");
    let files = vec![stored(1, 10, "/r/store/2020/a.jpg"), stored(2, 20, "/r/store/2021/b.jpg"), stored(1, 10, "/r/store/2021/c.jpg")];
    let text = rebuild_index(&loc, &files);
    let lines: Vec<&str> = text.lines().collect();
    assert_eq!(lines.len(), 3);
    assert_eq!(lines[0], line(1, 10, "2020/a.jpg"));
    assert_eq!(lines[1], line(2, 20, "2021/b.jpg"));
    assert_eq!(lines[2], line(1, 10, "2021/c.jpg"));
    assert!(!text.ends_with('\n'));
    assert_eq!(rebuild_index(&loc, &Vec::new()), "");
}

#[test]
fn commands_by_name() {
    assert_eq!(run(""), Ok(Command::Add));
    assert_eq!(run("check"), Ok(Command::Check));
    assert_eq!(run("reindex"), Ok(Command::Reindex));
    assert_eq!(run("bogus"), Err(FileError::BadCommand));
    assert_eq!(FileError::BadCommand.message(), "bad command");
}

#[test]
fn moves_are_skipped_when_done() {
    let loc = FileLocation::new("/r");
    let loader = FileLoader { locations: &loc };
    assert_eq!(loader.create_year_dir(2023), "/r/store/2023");
    let ns = ProcessedFile::NewStored {
        hash: [0; 32],
        size: 1,
        path: "/r/new_files/a".to_string(),
        stored_path: "/r/store/2023/a".to_string(),
        year: 2023,
    };
    let m = loader.move_storage(&ns, false).unwrap();
    assert_eq!((m.from.as_str(), m.to.as_str()), ("/r/new_files/a", "/r/store/2023/a"));
    assert!(loader.move_storage(&ns, true).is_none());
    let d = ProcessedFile::Duplicate {
        path: "/r/new_files/b".to_string(),
        stored_path: "/r/store/2023/a".to_string(),
        duplicate_path: "/r/duplicates/b".to_string(),
        ln_path: "/r/duplicates/b.lnk".to_string(),
    };
    let m = loader.move_duplicate(&d, false, false).unwrap();
    assert_eq!(m.to, "/r/duplicates/b");
    assert_eq!(m.target, "/r/store/2023/a");
    assert_eq!(m.link, "/r/duplicates/b.lnk");
    assert!(loader.move_duplicate(&d, true, false).is_none());
    assert!(loader.move_duplicate(&d, false, true).is_none());
    assert!(loader.move_duplicate(&ns, false, false).is_none());
}

#[test]
fn index_is_loaded_and_saved() {
    let loc = FileLocation::new("/r");
    let loader = FileLoader { locations: &loc };
    let text = format!("{}\n{}\n", line(1, 10, "2020/a.jpg"), line(2, 20, "2021/b c.jpg"));
    let (files, names) = loader.load_stored_file(&text).unwrap();
    assert_eq!(files.len(), 2);
    assert!(matches!(&files[1], ProcessedFile::Stored { size: 20, path, .. } if path == "/r/store/2021/b c.jpg"));
    assert!(names.contains(&"2020/a.jpg".to_string()));
    assert!(names.contains(&"2021/b c.jpg".to_string()));
    assert!(!names.contains(&"/r/store/2020/a.jpg".to_string()));
    let (empty, _) = loader.load_stored_file("").unwrap();
    assert!(empty.is_empty());
    assert!(matches!(loader.load_stored_file("abc|1|x"), Err(FileError::CorruptIndex)));
    let lines = vec![line(1, 10, "2020/a.jpg"), line(2, 20, "2021/b.jpg")];
    assert_eq!(loader.save_stored_files(&lines), format!("{}\n{}", lines[0], lines[1]));
    assert_eq!(loader.save_stored_files(&Vec::new()), "");
}
