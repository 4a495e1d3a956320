#![allow(non_snake_case)]

use std::path::Path;
use treediff::compare::{
    collect_relative_paths, compare_directory_contents, find_missing_entries, get_entry_type,
    present_in_both, CompareResult, EntryInfo, EntryType, EntryTypeMismatch, PairObservation,
    WalkItem,
};
use treediff::hashing::hash_bytes;

fn walk_items(root: &str) -> Vec<WalkItem> {
    let mut items = Vec::new();
    for result in walkdir::WalkDir::new(root) {
        match result {
            Ok(entry) => items.push(WalkItem::Entry {
                path: entry.path().to_string_lossy().to_string(),
            }),
            Err(why) => items.push(WalkItem::Failure {
                path: why
                    .path()
                    .unwrap_or_else(|| Path::new(""))
                    .to_string_lossy()
                    .to_string(),
                message: why.to_string(),
            }),
        }
    }
    items
}

fn path_set(root: &str) -> (Vec<String>, Vec<CompareResult>) {
    let items = walk_items(root);
    collect_relative_paths(root, &items)
}

fn entry_kind(path: &Path) -> EntryType {
    for result in walkdir::WalkDir::new(path).max_depth(0) {
        if let Ok(e) = result {
            return get_entry_type(e.file_type().is_dir(), e.file_type().is_file());
        }
    }
    get_entry_type(false, false)
}

fn hash_file(path: &Path) -> Result<String, String> {
    match fs_extra::file::read_to_string(path) {
        Ok(content) => Ok(hash_bytes(content.as_bytes()).unwrap()),
        Err(e) => Err(e.to_string()),
    }
}

/// Structural half of the comparison: both path sets, then the collapsed
/// missing entries, with clean walks expected.
fn call_structure_compare(base: &Path, name: &str) -> Vec<CompareResult> {
    let path_a = base.join(name).join("dirA").to_string_lossy().to_string();
    let path_b = base.join(name).join("dirB").to_string_lossy().to_string();
    let (dir_content_a, dir_a_errors) = path_set(&path_a);
    let (dir_content_b, dir_b_errors) = path_set(&path_b);
    assert_eq!(dir_a_errors, vec![]);
    assert_eq!(dir_b_errors, vec![]);
    find_missing_entries(&dir_content_a, &dir_content_b)
}

/// Content half of the comparison: probe and hash every common path, then
/// classify the pairs.
fn call_content_compare(base: &Path, name: &str) -> Vec<CompareResult> {
    let path_a = base.join(name).join("dirA").to_string_lossy().to_string();
    let path_b = base.join(name).join("dirB").to_string_lossy().to_string();
    let (dir_content_a, dir_a_errors) = path_set(&path_a);
    let (dir_content_b, dir_b_errors) = path_set(&path_b);
    assert_eq!(dir_a_errors, vec![]);
    assert_eq!(dir_b_errors, vec![]);
    let common = present_in_both(&dir_content_a, &dir_content_b);
    let mut observations = Vec::new();
    for sub in common {
        let full_a = Path::new(&path_a).join(&sub);
        let full_b = Path::new(&path_b).join(&sub);
        let ta = entry_kind(&full_a);
        let tb = entry_kind(&full_b);
        let (hash_a, hash_b) = if ta == EntryType::File && tb == EntryType::File {
            (Some(hash_file(&full_a)), Some(hash_file(&full_b)))
        } else {
            (None, None)
        };
        observations.push(PairObservation {
            sub_path: sub,
            type_in_dir_a: ta,
            type_in_dir_b: tb,
            hash_a,
            hash_b,
        });
    }
    compare_directory_contents(&path_a, &path_b, &observations)
}

fn write_file(path: &Path, content: &str) {
    fs_extra::dir::create_all(path.parent().unwrap(), false).unwrap();
    fs_extra::file::write_all(path, content).unwrap();
}

fn make_dir(path: &Path) {
    fs_extra::dir::create_all(path, false).unwrap();
}

#[test]
fn main_t_01_test_files_match() {
    let tmp = tempfile::tempdir().unwrap();
    let base = tmp.path().join("01_test_files_match");
    write_file(&base.join("dirA/file1.txt"), "hello");
    write_file(&base.join("dirB/file1.txt"), "hello");
    assert_eq!(
        call_structure_compare(tmp.path(), "01_test_files_match"),
        vec![]
    );
}

#[test]
fn t_02_dir_a_lacks_file() {
    let tmp = tempfile::tempdir().unwrap();
    let base = tmp.path().join("02_dirA_lacks_file");
    write_file(&base.join("dirA/file1.txt"), "hello");
    write_file(&base.join("dirB/file1.txt"), "hello");
    write_file(&base.join("dirB/file2.txt"), "more");
    assert_eq!(
        call_structure_compare(tmp.path(), "02_dirA_lacks_file"),
        vec![CompareResult::MissingInDirA(EntryInfo {
            path: String::from("file2.txt")
        })]
    );
}

#[test]
fn t_03_dir_b_lacks_file() {
    let tmp = tempfile::tempdir().unwrap();
    let base = tmp.path().join("03_dirB_lacks_file");
    write_file(&base.join("dirA/file1.txt"), "hello");
    make_dir(&base.join("dirB"));
    assert_eq!(
        call_structure_compare(tmp.path(), "03_dirB_lacks_file"),
        vec![CompareResult::MissingInDirB(EntryInfo {
            path: String::from("file1.txt")
        })]
    );
}

#[test]
fn t_04_dir_a_lacks_sub_directory() {
    let tmp = tempfile::tempdir().unwrap();
    let base = tmp.path().join("04_dirA_lacks_sub_directory");
    make_dir(&base.join("dirA"));
    write_file(&base.join("dirB/subdir2/file2.txt"), "more");
    assert_eq!(
        call_structure_compare(tmp.path(), "04_dirA_lacks_sub_directory"),
        vec![CompareResult::MissingInDirA(EntryInfo {
            path: String::from("subdir2")
        })]
    );
}

#[test]
fn t_05_dir_a_lacks_file_in_sub_directory() {
    let tmp = tempfile::tempdir().unwrap();
    let base = tmp.path().join("05_dirA_lacks_file_in_sub_directory");
    make_dir(&base.join("dirA/subdir2"));
    write_file(&base.join("dirB/subdir2/file2.txt"), "more");
    assert_eq!(
        call_structure_compare(tmp.path(), "05_dirA_lacks_file_in_sub_directory"),
        vec![CompareResult::MissingInDirA(EntryInfo {
            path: String::from("subdir2/file2.txt")
        })]
    );
}

#[test]
fn t_06_different_text_content() {
    let tmp = tempfile::tempdir().unwrap();
    let base = tmp.path().join("06_different_text_content");
    write_file(&base.join("dirA/file1.txt"), "some text");
    write_file(&base.join("dirB/file1.txt"), "other text");
    assert_eq!(
        call_content_compare(tmp.path(), "06_different_text_content"),
        vec![CompareResult::DifferingContent(EntryInfo {
            path: String::from("file1.txt")
        })]
    );
}

#[test]
fn t_07_different_binary_content() {
    let tmp = tempfile::tempdir().unwrap();
    let base = tmp.path().join("07_different_binary_content");
    write_file(&base.join("dirA/file1.jpeg"), "\u{1}\u{2}\u{3}\u{fe}");
    write_file(&base.join("dirB/file1.jpeg"), "\u{1}\u{2}\u{4}\u{fe}");
    assert_eq!(
        call_content_compare(tmp.path(), "07_different_binary_content"),
        vec![CompareResult::DifferingContent(EntryInfo {
            path: String::from("file1.jpeg")
        })]
    );
}

#[test]
fn t_08_type_mismatch() {
    let tmp = tempfile::tempdir().unwrap();
    let base = tmp.path().join("08_type_mismatch");
    write_file(&base.join("dirA/file1.txt"), "a file");
    make_dir(&base.join("dirB/file1.txt"));
    assert_eq!(
        call_content_compare(tmp.path(), "08_type_mismatch"),
        vec![CompareResult::TypeMismatch(EntryTypeMismatch {
            path: String::from("file1.txt"),
            type_in_dir_a: EntryType::File,
            type_in_dir_b: EntryType::Directory,
        })],
    );
}
