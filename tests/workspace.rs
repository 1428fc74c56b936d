use buildscale::archive::{decode_files_archive, encode_files_archive};
use buildscale::hashes::{BuildscaleFileHashed, BuildscaleFileHashes};
use buildscale::workspace::{BuildscaleWorkspaceFiles, FileData, FileLocation};

fn entry(path: &str) -> FileData {
    FileData::new(path.to_string(), format!("h-{}", path))
}

fn paths(files: &[FileData]) -> Vec<String> {
    files.iter().map(|f| f.file.clone()).collect()
}

fn lib() -> FileLocation {
    FileLocation::Project("lib".to_string())
}

#[test]
fn end_to_end_example() {
    let mut h = BuildscaleFileHashes::new();
    h.insert(BuildscaleFileHashed::new("a.ts".to_string(), 100));
    h.insert(BuildscaleFileHashed::new("b.ts".to_string(), 200));
    let back = decode_files_archive(&encode_files_archive(&h)).unwrap();
    assert_eq!(back.len(), 2);
    assert_eq!(back.get("a.ts").unwrap().1, 100);
    assert_eq!(back.get("b.ts").unwrap().1, 200);

    let mut ix = BuildscaleWorkspaceFiles::new();
    assert!(ix.assign(entry("a.ts"), lib()).is_ok());
    assert!(ix.assign(entry("b.ts"), FileLocation::Global).is_ok());
    assert_eq!(paths(&ix.query(&"lib".to_string())), vec!["a.ts"]);
    assert!(ix.query(&"app".to_string()).is_empty());
    assert_eq!(paths(&ix.all_files()), vec!["b.ts", "a.ts"]);
}

#[test]
fn duplicate_path_is_rejected_and_first_kept() {
    let mut ix = BuildscaleWorkspaceFiles::new();
    ix.assign(FileData::new("a.ts".to_string(), "first".to_string()), lib()).unwrap();
    let err = ix
        .assign(FileData::new("a.ts".to_string(), "second".to_string()), FileLocation::Global)
        .unwrap_err();
    assert_eq!(err.0, "a.ts");
    let all = ix.all_files();
    assert_eq!(all.len(), 1);
    assert_eq!(all[0].hash, "first");
    assert!(ix.global_files().is_empty());
}

#[test]
fn duplicate_within_one_bucket_is_rejected() {
    let mut ix = BuildscaleWorkspaceFiles::new();
    ix.assign(entry("g"), FileLocation::Global).unwrap();
    assert!(ix.assign(entry("g"), FileLocation::Global).is_err());
    assert_eq!(ix.global_files().len(), 1);
}

#[test]
fn partition_of_many_assignments() {
    let mut ix = BuildscaleWorkspaceFiles::new();
    let mut n = 0;
    for i in 0..30 {
        let loc = match i % 3 {
            0 => FileLocation::Global,
            1 => FileLocation::Project("web".to_string()),
            _ => FileLocation::Project("api".to_string()),
        };
        ix.assign(entry(&format!("f{}", i)), loc).unwrap();
        n += 1;
    }
    let all = paths(&ix.all_files());
    assert_eq!(all.len(), n);
    let g = paths(ix.global_files());
    let web = paths(&ix.query(&"web".to_string()));
    let api = paths(&ix.query(&"api".to_string()));
    for p in &all {
        let hits = [&g, &web, &api].iter().filter(|b| b.contains(p)).count();
        assert_eq!(hits, 1);
    }
    assert_eq!(web, (0..10).map(|k| format!("f{}", 3 * k + 1)).collect::<Vec<_>>());
}

#[test]
fn projects_listed_in_order_of_first_assignment() {
    let mut ix = BuildscaleWorkspaceFiles::new();
    ix.assign(entry("z1"), FileLocation::Project("zeta".to_string())).unwrap();
    ix.assign(entry("a1"), FileLocation::Project("alpha".to_string())).unwrap();
    ix.assign(entry("z2"), FileLocation::Project("zeta".to_string())).unwrap();
    ix.assign(entry("g"), FileLocation::Global).unwrap();
    assert_eq!(paths(&ix.all_files()), vec!["g", "z1", "z2", "a1"]);
    let fm = ix.file_map();
    assert_eq!(fm.project_file_map.len(), 2);
    assert_eq!(fm.project_file_map[0].0, "zeta");
    assert_eq!(paths(&fm.project_file_map[0].1), vec!["z1", "z2"]);
    assert_eq!(paths(&fm.non_project_files), vec!["g"]);
}

fn assignments() -> Vec<(FileData, FileLocation)> {
    vec![
        (entry("a"), lib()),
        (entry("b"), FileLocation::Global),
        (entry("c"), FileLocation::Project("app".to_string())),
        (entry("d"), lib()),
    ]
}

#[test]
fn same_assignments_give_same_index() {
    let x = BuildscaleWorkspaceFiles::from_assignments(&assignments()).unwrap();
    let y = BuildscaleWorkspaceFiles::from_assignments(&assignments()).unwrap();
    assert_eq!(paths(&x.all_files()), paths(&y.all_files()));
    assert_eq!(paths(&x.all_files()), vec!["b", "a", "d", "c"]);
    for name in ["lib", "app", "none"] {
        assert_eq!(paths(&x.query(&name.to_string())), paths(&y.query(&name.to_string())));
    }
}

#[test]
fn from_assignments_stops_at_duplicate() {
    let mut a = assignments();
    a.push((entry("b"), lib()));
    a.push((entry("a"), lib()));
    let err = BuildscaleWorkspaceFiles::from_assignments(&a).err().unwrap();
    assert_eq!(err.0, "b");
}

#[test]
fn exported_handles_share_the_index() {
    let ix = BuildscaleWorkspaceFiles::from_assignments(&assignments()).unwrap();
    let first = ix.export();
    let second = first.share();
    drop(first);
    assert_eq!(paths(&second.all_files()), vec!["b", "a", "d", "c"]);
    assert_eq!(paths(&second.query(&"lib".to_string())), vec!["a", "d"]);
    assert_eq!(paths(second.global_files()), vec!["b"]);
}

#[test]
fn location_duplicate_keeps_project() {
    match lib().duplicate() {
        FileLocation::Project(n) => assert_eq!(n, "lib"),
        FileLocation::Global => panic!("expected a project"),
    }
}

#[test]
fn locations_compare_by_kind_and_name() {
    assert_eq!(FileLocation::Global, FileLocation::Global);
    assert_eq!(lib(), lib());
    assert_ne!(lib(), FileLocation::Project("app".to_string()));
    assert_ne!(lib(), FileLocation::Global);
}

#[test]
fn contains_path_sees_every_bucket() {
    let ix = BuildscaleWorkspaceFiles::from_assignments(&assignments()).unwrap();
    for p in ["a", "b", "c", "d"] {
        assert!(ix.contains_path(&p.to_string()));
    }
    assert!(!ix.contains_path(&"e".to_string()));
}
