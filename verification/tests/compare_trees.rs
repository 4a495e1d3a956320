#![allow(non_snake_case)]

use std::path::Path;
use treediff::compare::{
    analyze, collect_relative_paths, compare, compare_directory_contents, get_entry_type,
    present_in_both, CompareResult, EntryInfo, EntryType, EntryTypeMismatch, ErrorInfo, Missing,
    PairObservation, WalkItem,
};
use treediff::hashing::hash_bytes;

fn walk_items(root: &str) -> Vec<WalkItem> {
    let mut items = Vec::new();
    for result in walkdir::WalkDir::new(root) {
        match result {
            Ok(entry) => items.push(WalkItem::Entry {
                path: entry.path().to_string_lossy().to_string(),
            }),
            Err(why) => items.push(WalkItem::Failure {
                path: why
                    .path()
                    .unwrap_or_else(|| Path::new(""))
                    .to_string_lossy()
                    .to_string(),
                message: why.to_string(),
            }),
        }
    }
    items
}

fn path_set(root: &str) -> (Vec<String>, Vec<CompareResult>) {
    let items = walk_items(root);
    collect_relative_paths(root, &items)
}

fn entry_kind(path: &Path) -> EntryType {
    for result in walkdir::WalkDir::new(path).max_depth(0) {
        if let Ok(e) = result {
            return get_entry_type(e.file_type().is_dir(), e.file_type().is_file());
        }
    }
    get_entry_type(false, false)
}

fn hash_file(path: &Path) -> Result<String, String> {
    match fs_extra::file::read_to_string(path) {
        Ok(content) => Ok(hash_bytes(content.as_bytes()).unwrap()),
        Err(e) => Err(e.to_string()),
    }
}

fn compare_dirs(path_a: &str, path_b: &str) -> Vec<CompareResult> {
    let wa = walk_items(path_a);
    let wb = walk_items(path_b);
    let (ca, _) = collect_relative_paths(path_a, &wa);
    let (cb, _) = collect_relative_paths(path_b, &wb);
    let common = present_in_both(&ca, &cb);
    let mut observations = Vec::new();
    for sub in common {
        let pa = Path::new(path_a).join(&sub);
        let pb = Path::new(path_b).join(&sub);
        let ta = entry_kind(&pa);
        let tb = entry_kind(&pb);
        let (hash_a, hash_b) = if ta == EntryType::File && tb == EntryType::File {
            (Some(hash_file(&pa)), Some(hash_file(&pb)))
        } else {
            (None, None)
        };
        observations.push(PairObservation {
            sub_path: sub,
            type_in_dir_a: ta,
            type_in_dir_b: tb,
            hash_a,
            hash_b,
        });
    }
    compare(path_a, path_b, &wa, &wb, &observations)
}

fn write_file(path: &Path, content: &str) {
    fs_extra::dir::create_all(path.parent().unwrap(), false).unwrap();
    fs_extra::file::write_all(path, content).unwrap();
}

fn make_dir(path: &Path) {
    fs_extra::dir::create_all(path, false).unwrap();
}

/// Builds the fixture pair `<name>/dirA`, `<name>/dirB` under a fresh
/// temporary directory and returns the collapsed missing sets.
fn run_test(base: &Path, name: &str) -> Missing {
    let path_a = base.join(name).join("dirA").to_string_lossy().to_string();
    let path_b = base.join(name).join("dirB").to_string_lossy().to_string();
    let (content_a, _) = path_set(&path_a);
    let (content_b, _) = path_set(&path_b);
    analyze(&content_a, &content_b)
}

#[test]
fn t_01_test_files_match() {
    let tmp = tempfile::tempdir().unwrap();
    let base = tmp.path().join("01_test_files_match");
    write_file(&base.join("dirA/file1.txt"), "hello");
    write_file(&base.join("dirB/file1.txt"), "hello");
    assert_eq!(
        run_test(tmp.path(), "01_test_files_match"),
        Missing {
            missing_in_dir_a: Vec::new(),
            missing_in_dir_b: Vec::new(),
        }
    );
}

#[test]
fn t_02_dirA_lacks_file() {
    let tmp = tempfile::tempdir().unwrap();
    let base = tmp.path().join("02_dirA_lacks_file");
    write_file(&base.join("dirA/file1.txt"), "hello");
    write_file(&base.join("dirB/file1.txt"), "hello");
    write_file(&base.join("dirB/file2.txt"), "more");
    assert_eq!(
        run_test(tmp.path(), "02_dirA_lacks_file"),
        Missing {
            missing_in_dir_a: [String::from("file2.txt")].to_vec(),
            missing_in_dir_b: [].to_vec(),
        }
    );
}

#[test]
fn t_03_dirB_lacks_file() {
    let tmp = tempfile::tempdir().unwrap();
    let base = tmp.path().join("03_dirB_lacks_file");
    write_file(&base.join("dirA/file1.txt"), "hello");
    make_dir(&base.join("dirB"));
    assert_eq!(
        run_test(tmp.path(), "03_dirB_lacks_file"),
        Missing {
            missing_in_dir_a: [].to_vec(),
            missing_in_dir_b: [String::from("file1.txt")].to_vec(),
        }
    );
}

#[test]
fn t_04_dirA_lacks_sub_directory() {
    let tmp = tempfile::tempdir().unwrap();
    let base = tmp.path().join("04_dirA_lacks_sub_directory");
    make_dir(&base.join("dirA"));
    write_file(&base.join("dirB/subdir2/file2.txt"), "more");
    assert_eq!(
        run_test(tmp.path(), "04_dirA_lacks_sub_directory"),
        Missing {
            missing_in_dir_a: [String::from("subdir2")].to_vec(),
            missing_in_dir_b: [].to_vec(),
        }
    );
}

#[test]
fn t_05_dirA_lacks_file_in_sub_directory() {
    let tmp = tempfile::tempdir().unwrap();
    let base = tmp.path().join("05_dirA_lacks_file_in_sub_directory");
    make_dir(&base.join("dirA/subdir2"));
    write_file(&base.join("dirB/subdir2/file2.txt"), "more");
    assert_eq!(
        run_test(tmp.path(), "05_dirA_lacks_file_in_sub_directory"),
        Missing {
            missing_in_dir_a: [String::from("subdir2/file2.txt")].to_vec(),
            missing_in_dir_b: [].to_vec(),
        }
    );
}

#[test]
fn read_invalid_directory() {
    let (content, errors) = path_set("i_do_not_exist");
    assert_eq!(content, Vec::<String>::new());
    assert_eq!(
        errors,
        vec![CompareResult::CouldNotReadDirectory(ErrorInfo {
            path: String::from("i_do_not_exist"),
            message: String::from(
                "IO error for operation on i_do_not_exist: No such file or directory (os error 2)"
            ),
        })]
    );
}

#[test]
fn hash_invalid_file() {
    // A file the walker saw on both sides but whose content could not be
    // read for fingerprinting on either side.
    let dir = String::from("/etc/sudoers");
    let observations = vec![PairObservation {
        sub_path: dir.clone(),
        type_in_dir_a: EntryType::File,
        type_in_dir_b: EntryType::File,
        hash_a: Some(Err(String::from("Permission denied (os error 13)"))),
        hash_b: Some(Err(String::from("Permission denied (os error 13)"))),
    }];
    let results = compare_directory_contents(&dir, &dir, &observations);
    assert_eq!(
        results,
        vec![CompareResult::CouldNotCalculateHash(ErrorInfo {
            path: String::from("/etc/sudoers"),
            message: String::from("Permission denied (os error 13)"),
        })]
    );
}

#[test]
fn identical_trees_give_no_findings() {
    let tmp = tempfile::tempdir().unwrap();
    let base = tmp.path();
    write_file(&base.join("dirA/file1.txt"), "same content");
    write_file(&base.join("dirA/sub/file2.txt"), "nested");
    write_file(&base.join("dirB/file1.txt"), "same content");
    write_file(&base.join("dirB/sub/file2.txt"), "nested");
    let path_a = base.join("dirA").to_string_lossy().to_string();
    let path_b = base.join("dirB").to_string_lossy().to_string();
    assert_eq!(compare_dirs(&path_a, &path_b), vec![]);
}

#[test]
fn missing_subtree_is_reported_once() {
    let tmp = tempfile::tempdir().unwrap();
    let base = tmp.path();
    write_file(&base.join("dirA/file1.txt"), "0123456789");
    write_file(&base.join("dirA/subdir/file2.txt"), "nested");
    write_file(&base.join("dirB/file1.txt"), "0123456789");
    let path_a = base.join("dirA").to_string_lossy().to_string();
    let path_b = base.join("dirB").to_string_lossy().to_string();
    assert_eq!(
        compare_dirs(&path_a, &path_b),
        vec![CompareResult::MissingInDirB(EntryInfo {
            path: String::from("subdir"),
        })]
    );
}

#[test]
fn swapped_roots_mirror_missing_kinds() {
    let tmp = tempfile::tempdir().unwrap();
    let base = tmp.path();
    write_file(&base.join("dirA/file1.txt"), "0123456789");
    write_file(&base.join("dirA/subdir/file2.txt"), "nested");
    write_file(&base.join("dirB/file1.txt"), "0123456789");
    let path_a = base.join("dirA").to_string_lossy().to_string();
    let path_b = base.join("dirB").to_string_lossy().to_string();
    assert_eq!(
        compare_dirs(&path_b, &path_a),
        vec![CompareResult::MissingInDirA(EntryInfo {
            path: String::from("subdir"),
        })]
    );
}

#[test]
fn type_mismatch_is_reported() {
    let tmp = tempfile::tempdir().unwrap();
    let base = tmp.path();
    write_file(&base.join("dirA/file1.txt"), "a file");
    make_dir(&base.join("dirB/file1.txt"));
    let path_a = base.join("dirA").to_string_lossy().to_string();
    let path_b = base.join("dirB").to_string_lossy().to_string();
    assert_eq!(
        compare_dirs(&path_a, &path_b),
        vec![CompareResult::TypeMismatch(EntryTypeMismatch {
            path: String::from("file1.txt"),
            type_in_dir_a: EntryType::File,
            type_in_dir_b: EntryType::Directory,
        })]
    );
}

#[test]
fn differing_content_is_reported() {
    let tmp = tempfile::tempdir().unwrap();
    let base = tmp.path();
    write_file(&base.join("dirA/file1.txt"), "old content");
    write_file(&base.join("dirB/file1.txt"), "new content");
    let path_a = base.join("dirA").to_string_lossy().to_string();
    let path_b = base.join("dirB").to_string_lossy().to_string();
    assert_eq!(
        compare_dirs(&path_a, &path_b),
        vec![CompareResult::DifferingContent(EntryInfo {
            path: String::from("file1.txt"),
        })]
    );
}

#[test]
fn findings_come_out_in_deterministic_order() {
    let unsorted = vec![
        CompareResult::DifferingContent(EntryInfo {
            path: String::from("differing_content2.txt"),
        }),
        CompareResult::MissingInDirB(EntryInfo {
            path: String::from("file_only_in_a.txt"),
        }),
        CompareResult::DifferingContent(EntryInfo {
            path: String::from("differing_content.txt"),
        }),
    ];
    assert_eq!(
        treediff::compare::sort_findings(unsorted),
        vec![
            CompareResult::MissingInDirB(EntryInfo {
                path: String::from("file_only_in_a.txt"),
            }),
            CompareResult::DifferingContent(EntryInfo {
                path: String::from("differing_content.txt"),
            }),
            CompareResult::DifferingContent(EntryInfo {
                path: String::from("differing_content2.txt"),
            }),
        ]
    );
}
