use sgvcs::diff::ParentSide;
use sgvcs::errors::VcsError;
use sgvcs::repo::Sgvcs;

const HELLO_HASH: &str = "aaf4c61ddcc5e8a2dabede0f3b482cd9aea9434d";

#[test]
fn head_empty_initially() {
    let repo = Sgvcs::new();
    assert_eq!(repo.get_current_head(), String::new());
    assert_eq!(repo.index.entry_count(), 0);
    assert_eq!(repo.store.object_count(), 0);
}

#[test]
fn store_round_trip() {
    let mut repo = Sgvcs::new();
    let hash = repo.add_file("a.txt".to_string(), b"hello".to_vec());
    let content = repo.get_file_contents(&hash).unwrap();
    assert_eq!(content, b"hello".to_vec());
}

#[test]
fn hash_deterministic_and_store_does_not_grow() {
    let mut repo = Sgvcs::new();
    let h1 = repo.add_file("a.txt".to_string(), b"hello".to_vec());
    let count_after_first = repo.store.object_count();
    let h2 = repo.add_file("b.txt".to_string(), b"hello".to_vec());
    assert_eq!(h1, h2);
    assert_eq!(repo.store.object_count(), count_after_first);
}

#[test]
fn commit_clears_index_and_moves_head() {
    let mut repo = Sgvcs::new();
    repo.add_file("a.txt".to_string(), b"hello".to_vec());
    assert_eq!(repo.index.entry_count(), 1);
    let commit_hash = repo.commit("m1".to_string());
    assert_eq!(repo.get_current_head(), commit_hash);
    assert_eq!(repo.index.entry_count(), 0);
}

#[test]
fn scenario_first_commit() {
    let mut repo = Sgvcs::new();
    let blob_hash = repo.add_file("a.txt".to_string(), b"hello".to_vec());
    assert_eq!(blob_hash, HELLO_HASH.to_string());

    let staged = repo.index.read_all();
    assert_eq!(staged.len(), 1);
    assert_eq!(staged[0].path, "a.txt".to_string());
    assert_eq!(staged[0].hash, HELLO_HASH.to_string());

    let c1 = repo.commit("m1".to_string());
    assert_eq!(repo.get_current_head(), c1);
    assert_eq!(repo.index.entry_count(), 0);
    assert_eq!(repo.get_file_contents(&blob_hash).unwrap(), b"hello".to_vec());
    let record = repo.get_commit_data(&c1).unwrap();
    assert_eq!(record.message, "m1".to_string());
    assert_eq!(record.parent, String::new());
    assert_eq!(record.files.len(), 1);
    assert_eq!(record.files[0].path, "a.txt".to_string());
    assert_eq!(record.files[0].hash, HELLO_HASH.to_string());
}

#[test]
fn scenario_second_commit_parent_links() {
    let mut repo = Sgvcs::new();
    repo.add_file("a.txt".to_string(), b"hello".to_vec());
    let c1 = repo.commit("m1".to_string());
    repo.add_file("a.txt".to_string(), b"world".to_vec());
    let c2 = repo.commit("m2".to_string());

    let record2 = repo.get_commit_data(&c2).unwrap();
    assert_eq!(record2.parent, c1);

    let entries = repo.log().unwrap();
    assert_eq!(entries.len(), 2);
    assert_eq!(entries[0].0, c2);
    assert_eq!(entries[1].0, c1);
    assert_eq!(entries[0].1.message, "m2".to_string());
    assert_eq!(entries[1].1.message, "m1".to_string());
}

#[test]
fn log_three_commits_order_and_parents() {
    let mut repo = Sgvcs::new();
    let mut hashes: Vec<String> = Vec::new();
    for (i, content) in [b"one".to_vec(), b"two".to_vec(), b"three".to_vec()]
        .into_iter()
        .enumerate()
    {
        repo.add_file("a.txt".to_string(), content);
        hashes.push(repo.commit(format!("m{}", i + 1)));
    }
    let entries = repo.log().unwrap();
    assert_eq!(entries.len(), 3);
    assert_eq!(entries[0].0, hashes[2]);
    assert_eq!(entries[1].0, hashes[1]);
    assert_eq!(entries[2].0, hashes[0]);
    assert_eq!(entries[0].1.parent, entries[1].0);
    assert_eq!(entries[1].1.parent, entries[2].0);
    assert_eq!(entries[2].1.parent, String::new());
}

#[test]
fn log_empty_repository() {
    let repo = Sgvcs::new();
    let entries = repo.log().unwrap();
    assert_eq!(entries.len(), 0);
}

#[test]
fn diff_missing_hash_not_found() {
    let mut repo = Sgvcs::new();
    repo.add_file("a.txt".to_string(), b"hello".to_vec());
    let c1 = repo.commit("m1".to_string());
    let head_before = repo.get_current_head();
    let count_before = repo.store.object_count();

    let missing = "0123456789012345678901234567890123456789".to_string();
    let r = repo.show_commit_diff(missing);
    assert!(matches!(r, Err(VcsError::NotFound)));

    assert_eq!(repo.get_current_head(), head_before);
    assert_eq!(repo.get_current_head(), c1);
    assert_eq!(repo.store.object_count(), count_before);
    assert_eq!(repo.index.entry_count(), 0);
}

#[test]
fn scenario_diff_parent_content() {
    let mut repo = Sgvcs::new();
    repo.add_file("a.txt".to_string(), b"hello".to_vec());
    repo.commit("m1".to_string());
    repo.add_file("a.txt".to_string(), b"world".to_vec());
    let c2 = repo.commit("m2".to_string());

    let report = repo.show_commit_diff(c2).unwrap();
    assert_eq!(report.len(), 1);
    assert_eq!(report[0].path, "a.txt".to_string());
    assert_eq!(report[0].current, b"world".to_vec());
    match &report[0].parent {
        ParentSide::Previous(bytes) => assert_eq!(bytes, &b"hello".to_vec()),
        _ => panic!("expected the parent's content"),
    }
}

#[test]
fn diff_first_commit_has_no_comparison_side() {
    let mut repo = Sgvcs::new();
    repo.add_file("a.txt".to_string(), b"hello".to_vec());
    let c1 = repo.commit("m1".to_string());
    let report = repo.show_commit_diff(c1).unwrap();
    assert_eq!(report.len(), 1);
    assert!(matches!(report[0].parent, ParentSide::FirstCommit));
}

#[test]
fn diff_new_file_not_in_parent() {
    let mut repo = Sgvcs::new();
    repo.add_file("a.txt".to_string(), b"hello".to_vec());
    repo.commit("m1".to_string());
    repo.add_file("b.txt".to_string(), b"fresh".to_vec());
    let c2 = repo.commit("m2".to_string());

    let report = repo.show_commit_diff(c2).unwrap();
    assert_eq!(report.len(), 1);
    assert_eq!(report[0].path, "b.txt".to_string());
    assert!(matches!(report[0].parent, ParentSide::NotInParent));
}

#[test]
fn diff_parent_record_missing() {
    let mut repo = Sgvcs::new();
    repo.head = "ffffffffffffffffffffffffffffffffffffffff".to_string();
    repo.add_file("a.txt".to_string(), b"hello".to_vec());
    let c = repo.commit("m".to_string());
    let record = repo.get_commit_data(&c).unwrap();
    assert_eq!(record.parent, "ffffffffffffffffffffffffffffffffffffffff".to_string());

    let report = repo.show_commit_diff(c).unwrap();
    assert_eq!(report.len(), 1);
    assert!(matches!(report[0].parent, ParentSide::ParentNotFound));
}

#[test]
fn duplicate_paths_staged_in_order() {
    let mut repo = Sgvcs::new();
    let h1 = repo.add_file("a.txt".to_string(), b"hello".to_vec());
    let h2 = repo.add_file("a.txt".to_string(), b"world".to_vec());
    assert_eq!(repo.index.entry_count(), 2);
    let c = repo.commit("m".to_string());
    let record = repo.get_commit_data(&c).unwrap();
    assert_eq!(record.files.len(), 2);
    assert_eq!(record.files[0].path, "a.txt".to_string());
    assert_eq!(record.files[0].hash, h1);
    assert_eq!(record.files[1].path, "a.txt".to_string());
    assert_eq!(record.files[1].hash, h2);
}

#[test]
fn get_commit_data_errors() {
    let mut repo = Sgvcs::new();
    let blob_hash = repo.add_file("a.txt".to_string(), b"hello".to_vec());
    let missing = "0123456789012345678901234567890123456789".to_string();
    assert!(matches!(repo.get_commit_data(&missing), Err(VcsError::NotFound)));
    assert!(matches!(
        repo.get_commit_data(&blob_hash),
        Err(VcsError::SerializationError)
    ));
}

#[test]
fn get_file_contents_missing_is_not_found() {
    let repo = Sgvcs::new();
    let missing = "0123456789012345678901234567890123456789".to_string();
    assert!(matches!(repo.get_file_contents(&missing), Err(VcsError::NotFound)));
}

#[test]
fn update_staging_area_records_pair() {
    let mut repo = Sgvcs::new();
    repo.update_staging_area("some/path.txt".to_string(), "abc".to_string());
    let staged = repo.index.read_all();
    assert_eq!(staged.len(), 1);
    assert_eq!(staged[0].path, "some/path.txt".to_string());
    assert_eq!(staged[0].hash, "abc".to_string());
}

#[test]
fn commit_at_is_deterministic() {
    let mut repo_a = Sgvcs::new();
    repo_a.add_file("a.txt".to_string(), b"hello".to_vec());
    let ca = repo_a.commit_at("m1".to_string(), "01-01-2024 00:00:00".to_string());

    let mut repo_b = Sgvcs::new();
    repo_b.add_file("a.txt".to_string(), b"hello".to_vec());
    let cb = repo_b.commit_at("m1".to_string(), "01-01-2024 00:00:00".to_string());

    assert_eq!(ca, cb);
    let record = repo_a.get_commit_data(&ca).unwrap();
    assert_eq!(record.time_stamp, "01-01-2024 00:00:00".to_string());
    assert_eq!(record.message, "m1".to_string());
}

#[test]
fn diff_duplicate_parent_paths_first_entry_wins() {
    let mut repo = Sgvcs::new();
    repo.add_file("a.txt".to_string(), b"v1".to_vec());
    repo.add_file("a.txt".to_string(), b"v2".to_vec());
    repo.commit("m1".to_string());
    repo.add_file("a.txt".to_string(), b"v3".to_vec());
    let c2 = repo.commit("m2".to_string());

    let report = repo.show_commit_diff(c2).unwrap();
    assert_eq!(report.len(), 1);
    assert_eq!(report[0].current, b"v3".to_vec());
    match &report[0].parent {
        ParentSide::Previous(bytes) => assert_eq!(bytes, &b"v1".to_vec()),
        _ => panic!("expected the parent's first entry for the path"),
    }
}

#[test]
fn log_dangling_head_is_not_found() {
    let mut repo = Sgvcs::new();
    repo.head = "ffffffffffffffffffffffffffffffffffffffff".to_string();
    assert!(matches!(repo.log(), Err(VcsError::NotFound)));
}

#[test]
fn empty_commit_is_permitted() {
    let mut repo = Sgvcs::new();
    let c = repo.commit("nothing staged".to_string());
    let record = repo.get_commit_data(&c).unwrap();
    assert_eq!(record.files.len(), 0);
    let entries = repo.log().unwrap();
    assert_eq!(entries.len(), 1);
}
