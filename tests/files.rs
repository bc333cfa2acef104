use data_processor::files::{
    DirEntry, FileInfo, FileManager, PathError, ProcessedDataFile,
};

#[test]
fn sanitize_accepts_and_normalises() {
    assert_eq!(FileManager::sanitize_rel_path("runs/2025/./wave.bin").unwrap(), "runs/2025/wave.bin");
    assert_eq!(FileManager::sanitize_rel_path("a//b/").unwrap(), "a/b");
    assert_eq!(FileManager::sanitize_rel_path("").unwrap(), "");
}

#[test]
fn sanitize_refuses_escapes() {
    assert_eq!(FileManager::sanitize_rel_path("/etc/passwd"), Err(PathError::Absolute));
    assert_eq!(FileManager::sanitize_rel_path("a/../b"), Err(PathError::ParentDir));
    assert_eq!(FileManager::sanitize_rel_path("C:/x"), Err(PathError::DriveLetter));
    let long = "x".repeat(256);
    assert_eq!(FileManager::sanitize_rel_path(&long), Err(PathError::ComponentTooLong));
}

#[test]
fn file_types_by_extension() {
    assert_eq!(FileManager::determine_file_type("a.TXT"), "raw_frames");
    assert_eq!(FileManager::determine_file_type("a.bin"), "binary");
    assert_eq!(FileManager::determine_file_type("dir/a.Dat"), "binary");
    assert_eq!(FileManager::determine_file_type("a.json"), "json");
    assert_eq!(FileManager::determine_file_type("a.csv"), "unknown");
}

#[test]
fn list_files_newest_first_and_skips_directories() {
    let fm = FileManager::new("./data");
    let e = |p: &str, f: bool, t: i64| DirEntry { path: p.to_string(), is_file: f, size_bytes: 1, created_at: t };
    let list = fm.list_files(&vec![e("a.bin", true, 10), e("sub", false, 50), e("b.json", true, 30), e("c.txt", true, 20)]);
    let names: Vec<&str> = list.iter().map(|f| f.filename.as_str()).collect();
    assert_eq!(names, vec!["b.json", "c.txt", "a.bin"]);
    assert_eq!(list[0].file_type, "json");
}

#[test]
fn save_plans() {
    let fm = FileManager::new("./data");
    let data = ProcessedDataFile { filename: "wave.bin".to_string(), bytes: vec![1] };
    let p = fm.save_processed_data(&data).unwrap();
    assert_eq!(p.relative_path, "wave.bin");
    let p = fm.save_at(Some("runs/x/"), &data).unwrap();
    assert_eq!(p.dir, "runs/x");
    assert_eq!(p.relative_path, "runs/x/wave.bin");
    let bad = ProcessedDataFile { filename: "a/b.bin".to_string(), bytes: vec![] };
    assert!(matches!(fm.save_at(None, &bad), Err(PathError::NotAFileName)));
    assert!(matches!(fm.save_at(Some("../up"), &data), Err(PathError::ParentDir)));
}

#[test]
fn retention_removes_the_oldest() {
    let f = |n: &str| FileInfo { filename: n.to_string(), size_bytes: 0, created_at: 0, file_type: String::new() };
    let files = vec![f("new"), f("mid"), f("old")];
    assert_eq!(FileManager::files_to_remove(&files, 2), vec!["old".to_string()]);
    assert!(FileManager::files_to_remove(&files, 5).is_empty());
}

#[test]
fn component_limit_counts_utf8_bytes() {
    let two_byte = "é".repeat(200);
    assert_eq!(FileManager::sanitize_rel_path(&two_byte), Err(PathError::ComponentTooLong));
    let ok = "é".repeat(127);
    assert_eq!(FileManager::sanitize_rel_path(&ok).unwrap(), ok);
    let edge = "x".repeat(255);
    assert_eq!(FileManager::sanitize_rel_path(&edge).unwrap(), edge);
}
