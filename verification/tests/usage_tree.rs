use treediff::debounce::Debounce;
use treediff::disk_space::{
    abort, analyse_entry, analyze_directory_recursive, analyze_disk_usage, load_nested_directory,
    FsNode, SavedAnalysisResult, ShouldAbort,
};
use treediff::fs_entry::{DirEntry, FileEntry, FsEntry};

fn sample_snapshot() -> FsNode {
    FsNode::Dir {
        path: String::from("root"),
        listing: Ok(vec![
            FsNode::File {
                path: String::from("root/a.txt"),
                size: 10,
            },
            FsNode::Dir {
                path: String::from("root/sub"),
                listing: Ok(vec![
                    FsNode::File {
                        path: String::from("root/sub/b.txt"),
                        size: 5,
                    },
                    FsNode::Dir {
                        path: String::from("root/sub/deep"),
                        listing: Ok(vec![FsNode::File {
                            path: String::from("root/sub/deep/c.txt"),
                            size: 7,
                        }]),
                    },
                ]),
            },
            FsNode::Broken {
                path: Some(String::from("root/bad")),
                reason: String::from("metadata failed"),
            },
        ]),
    }
}

#[test]
fn aggregates_sum_over_descendants() {
    let token = ShouldAbort::new();
    let tree = analyze_directory_recursive(&sample_snapshot(), &token);
    match &tree {
        FsEntry::Dir(root) => {
            assert_eq!(root.path, "root");
            // 10 + 5 + 7 bytes of files, 3 file leaves + 1 error leaf
            assert_eq!(root.size, 22);
            assert_eq!(root.number_of_files, 4);
            assert_eq!(root.content.len(), 3);
            match &root.content[1] {
                FsEntry::Dir(sub) => {
                    // the invariant holds for every subtree, not just the root
                    assert_eq!(sub.path, "root/sub");
                    assert_eq!(sub.size, 12);
                    assert_eq!(sub.number_of_files, 2);
                }
                other => panic!("expected a directory, got {:?}", other.size()),
            }
            match &root.content[2] {
                FsEntry::Error(e) => {
                    assert_eq!(e.reason, "metadata failed");
                    assert_eq!(e.path, Some(String::from("root/bad")));
                }
                _ => panic!("expected an error leaf"),
            }
        }
        _ => panic!("expected a directory tree"),
    }
}

#[test]
fn unreadable_listing_becomes_error_leaf() {
    let token = ShouldAbort::new();
    let node = FsNode::Dir {
        path: String::from("root"),
        listing: Ok(vec![FsNode::Dir {
            path: String::from("root/locked"),
            listing: Err(String::from("Permission denied")),
        }]),
    };
    let tree = analyze_directory_recursive(&node, &token);
    match &tree {
        FsEntry::Dir(root) => {
            assert_eq!(root.size, 0);
            // an error leaf counts one toward the file count
            assert_eq!(root.number_of_files, 1);
            match &root.content[0] {
                FsEntry::Error(e) => {
                    assert_eq!(e.path, Some(String::from("root/locked")));
                    assert_eq!(e.reason, "Permission denied");
                }
                _ => panic!("expected an error leaf"),
            }
        }
        _ => panic!("expected a directory tree"),
    }
}

#[test]
fn file_node_resolves_to_file_entry() {
    let token = ShouldAbort::new();
    let entry = analyse_entry(
        &FsNode::File {
            path: String::from("root/a.txt"),
            size: 10,
        },
        &token,
    );
    assert_eq!(entry.size(), 10);
    assert_eq!(entry.number_of_files(), 1);
}

#[test]
fn cancellation_yields_single_aborted_error() {
    let mut token = ShouldAbort::new();
    abort(&mut token);
    let mut cache = SavedAnalysisResult::new();
    let result = analyze_disk_usage(&sample_snapshot(), &token, &mut cache, 17);
    assert_eq!(result.duration, 17);
    match &result.result {
        FsEntry::Error(e) => {
            assert_eq!(e.reason, "Aborted");
            assert_eq!(e.path, Some(String::from("root")));
        }
        _ => panic!("expected the analysis to abort"),
    }
    assert!(cache.saved.is_none());
}

#[test]
fn successful_analysis_is_cached_and_flattened() {
    let token = ShouldAbort::new();
    let mut cache = SavedAnalysisResult::new();
    let result = analyze_disk_usage(&sample_snapshot(), &token, &mut cache, 3);
    assert_eq!(result.duration, 3);
    match &result.result {
        FsEntry::Dir(root) => {
            assert_eq!(root.size, 22);
            match &root.content[1] {
                FsEntry::Dir(sub) => {
                    // two levels are kept; the third level's listing is elided
                    match &sub.content[1] {
                        FsEntry::Dir(deep) => {
                            assert_eq!(deep.size, 7);
                            assert_eq!(deep.number_of_files, 1);
                            assert_eq!(deep.content.len(), 0);
                        }
                        _ => panic!("expected the deep directory"),
                    }
                }
                _ => panic!("expected the sub directory"),
            }
        }
        _ => panic!("expected a directory tree"),
    }
    // the cache holds the full tree, not the flattened copy
    match cache.saved.as_ref().unwrap() {
        FsEntry::Dir(root) => match &root.content[1] {
            FsEntry::Dir(sub) => match &sub.content[1] {
                FsEntry::Dir(deep) => assert_eq!(deep.content.len(), 1),
                _ => panic!("expected the deep directory"),
            },
            _ => panic!("expected the sub directory"),
        },
        _ => panic!("expected a directory tree"),
    }
}

#[test]
fn nested_directory_is_served_from_the_cache() {
    let token = ShouldAbort::new();
    let mut cache = SavedAnalysisResult::new();
    analyze_disk_usage(&sample_snapshot(), &token, &mut cache, 0);
    let found = load_nested_directory(String::from("root/sub"), &cache);
    match found.as_ref().unwrap() {
        FsEntry::Dir(sub) => {
            assert_eq!(sub.path, "root/sub");
            assert_eq!(sub.size, 12);
            assert_eq!(sub.number_of_files, 2);
            assert_eq!(sub.content.len(), 2);
        }
        _ => panic!("expected the sub directory"),
    }
    assert!(load_nested_directory(String::from("root/nowhere"), &cache).is_none());
}

#[test]
fn empty_cache_serves_nothing() {
    let cache = SavedAnalysisResult::new();
    assert!(load_nested_directory(String::from("root"), &cache).is_none());
}

#[test]
fn dir_entry_new_computes_aggregates() {
    let d = DirEntry::new(
        String::from("d"),
        vec![
            FsEntry::File(FileEntry {
                path: String::from("d/a"),
                size: 3,
            }),
            FsEntry::File(FileEntry {
                path: String::from("d/b"),
                size: 4,
            }),
        ],
    );
    assert_eq!(d.size, 7);
    assert_eq!(d.number_of_files, 2);
    assert_eq!(d.content.len(), 2);
}

#[test]
fn iter_files_keeps_only_files() {
    let token = ShouldAbort::new();
    let tree = analyze_directory_recursive(&sample_snapshot(), &token);
    match tree {
        FsEntry::Dir(root) => {
            let files = root.iter_files();
            assert_eq!(files.len(), 1);
            match &files[0] {
                FsEntry::File(f) => {
                    assert_eq!(f.path, "root/a.txt");
                    assert_eq!(f.size, 10);
                }
                _ => panic!("expected a file"),
            }
        }
        _ => panic!("expected a directory tree"),
    }
}

#[test]
fn clone_flat_zero_keeps_aggregates_and_empties_content() {
    let token = ShouldAbort::new();
    let tree = analyze_directory_recursive(&sample_snapshot(), &token);
    match tree {
        FsEntry::Dir(root) => {
            let flat = root.clone_flat(0);
            assert_eq!(flat.path, root.path);
            assert_eq!(flat.size, root.size);
            assert_eq!(flat.number_of_files, root.number_of_files);
            assert_eq!(flat.content.len(), 0);
        }
        _ => panic!("expected a directory tree"),
    }
}

#[test]
fn clone_flat_beyond_depth_changes_nothing() {
    let token = ShouldAbort::new();
    let tree = analyze_directory_recursive(&sample_snapshot(), &token);
    match tree {
        FsEntry::Dir(root) => {
            let copy = root.clone_flat(10);
            assert_eq!(copy.content.len(), root.content.len());
            match (&copy.content[1], &root.content[1]) {
                (FsEntry::Dir(c), FsEntry::Dir(o)) => {
                    assert_eq!(c.content.len(), o.content.len());
                    match (&c.content[1], &o.content[1]) {
                        (FsEntry::Dir(cd), FsEntry::Dir(od)) => {
                            assert_eq!(cd.content.len(), od.content.len());
                            assert_eq!(cd.size, od.size);
                        }
                        _ => panic!("expected the deep directories"),
                    }
                }
                _ => panic!("expected the sub directories"),
            }
        }
        _ => panic!("expected a directory tree"),
    }
}

#[test]
fn debounce_first_offer_fires_then_throttles() {
    let mut d = Debounce::new(100);
    assert!(d.maybe_run(0));
    assert!(!d.maybe_run(50));
    assert!(!d.maybe_run(100));
    assert!(d.maybe_run(101));
    assert!(!d.maybe_run(150));
    assert!(d.maybe_run(250));
}

#[test]
fn debounce_ignores_clock_going_backwards() {
    let mut d = Debounce::new(10);
    assert!(d.maybe_run(1000));
    assert!(!d.maybe_run(5));
    assert!(d.maybe_run(1011));
}
