use treediff::hashing::{hash_bytes, ContentHasher};
use treediff::paths::{remove_subdirectories, sort_strings, str_le, strip_root};

fn strings(v: &[&str]) -> Vec<String> {
    v.iter().map(|s| s.to_string()).collect()
}

#[test]
fn collapser_drops_descendants_of_a_kept_directory() {
    let input = strings(&["dir", "dir/a.txt", "dir/b.txt", "other.txt"]);
    assert_eq!(
        remove_subdirectories(&input),
        strings(&["dir", "other.txt"])
    );
}

#[test]
fn collapser_keeps_name_prefixes_that_are_not_ancestors() {
    let input = strings(&["file1", "file10"]);
    assert_eq!(remove_subdirectories(&input), strings(&["file1", "file10"]));
}

#[test]
fn collapser_sorts_its_input_first() {
    let input = strings(&["dir/a.txt", "other.txt", "dir"]);
    assert_eq!(
        remove_subdirectories(&input),
        strings(&["dir", "other.txt"])
    );
}

#[test]
fn collapser_lets_the_root_cover_everything() {
    let input = strings(&["", "sub", "sub/a.txt"]);
    assert_eq!(remove_subdirectories(&input), strings(&[""]));
}

#[test]
fn sort_strings_orders_lexicographically() {
    let input = strings(&["b", "a/c", "a", "ab"]);
    assert_eq!(sort_strings(&input), strings(&["a", "a/c", "ab", "b"]));
}

#[test]
fn str_le_compares_by_character_value() {
    assert!(str_le("a", "ab"));
    assert!(str_le("a/c", "ab"));
    assert!(!str_le("ab", "a/c"));
    assert!(str_le("abc", "abc"));
}

#[test]
fn strip_root_removes_root_and_separator() {
    assert_eq!(strip_root("/base", "/base"), Some(String::new()));
    assert_eq!(strip_root("/base", "/base/a/b"), Some(String::from("a/b")));
    assert_eq!(strip_root("/base", "/based/a"), None);
    assert_eq!(strip_root("/base", "/else"), None);
}

#[test]
fn hashing_is_deterministic() {
    let first = hash_bytes(b"some file content").unwrap();
    let second = hash_bytes(b"some file content").unwrap();
    assert_eq!(first, second);
}

#[test]
fn single_byte_change_changes_the_digest() {
    let first = hash_bytes(b"some file content").unwrap();
    let changed = hash_bytes(b"some file UontenT").unwrap();
    assert_ne!(first, changed);
    let changed_early = hash_bytes(b"Xome file content").unwrap();
    assert_ne!(first, changed_early);
}

#[test]
fn digest_matches_the_published_test_vector() {
    // SHA-256("abc"), uppercase hex
    assert_eq!(
        hash_bytes(b"abc").unwrap(),
        "BA7816BF8F01CFEA414140DE5DAE2223B00361A396177A9CB410FF61F20015AD"
    );
}

#[test]
fn empty_input_has_the_well_known_digest() {
    assert_eq!(
        hash_bytes(b"").unwrap(),
        "E3B0C44298FC1C149AFBF4C8996FB92427AE41E4649B934CA495991B7852B855"
    );
}

#[test]
fn streaming_equals_one_shot_hashing() {
    let mut h = ContentHasher::new();
    assert!(h.update(b"some file"));
    assert!(h.update(b" content"));
    assert_eq!(h.finish(), hash_bytes(b"some file content").unwrap());
}
