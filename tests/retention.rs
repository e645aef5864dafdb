use audio_keeper::retention::{Bucket, FileEntry, Removal, Step, StorageTree};

const MB: u64 = 1024 * 1024;

fn file(mtime: u64, size: u64) -> FileEntry {
    FileEntry { id: mtime, mtime, size, active: false }
}

fn open_file(mtime: u64, size: u64) -> FileEntry {
    FileEntry { id: mtime, mtime, size, active: true }
}

#[test]
fn oldest_of_three_segments_is_deleted_alone() {
    let mut tree = StorageTree {
        buckets: vec![Bucket { id: 1, files: vec![file(20, 50 * MB), file(10, 50 * MB), file(30, 50 * MB)] }],
    };
    assert_eq!(tree.usage(), Some(150 * MB));
    let step = tree.next_step(120 * MB);
    assert_eq!(step, Step::RemoveFile { bucket: 0, file: 1 });
    tree.apply(step);
    assert_eq!(tree.next_step(120 * MB), Step::Done);
    assert_eq!(tree.usage(), Some(100 * MB));
    assert_eq!(tree.buckets[0].files, vec![file(20, 50 * MB), file(30, 50 * MB)]);
}

#[test]
fn enforce_deletes_exactly_the_oldest_segment() {
    let mut tree = StorageTree {
        buckets: vec![Bucket { id: 2, files: vec![file(10, 50 * MB), file(20, 50 * MB), file(30, 50 * MB)] }],
    };
    let steps = tree.enforce(120 * MB);
    assert_eq!(steps, vec![Step::RemoveFile { bucket: 0, file: 0 }]);
    assert_eq!(tree.usage(), Some(100 * MB));
    assert_eq!(tree.buckets[0].files, vec![file(20, 50 * MB), file(30, 50 * MB)]);
}

#[test]
fn older_bucket_is_emptied_and_removed_first() {
    // bucket 1 is the earlier date: all its files are older than bucket 0's
    let mut tree = StorageTree {
        buckets: vec![
            Bucket { id: 3, files: vec![file(30, 10), file(40, 10), open_file(50, 10)] },
            Bucket { id: 4, files: vec![file(20, 10), file(10, 10)] },
        ],
    };
    let s1 = tree.next_step(25);
    assert_eq!(s1, Step::RemoveFile { bucket: 1, file: 1 });
    tree.apply(s1);
    let s2 = tree.next_step(25);
    assert_eq!(s2, Step::RemoveFile { bucket: 1, file: 0 });
    tree.apply(s2);
    assert_eq!(tree.buckets.len(), 1);
    let s3 = tree.next_step(25);
    assert_eq!(s3, Step::RemoveFile { bucket: 0, file: 0 });
    tree.apply(s3);
    assert_eq!(tree.next_step(25), Step::Done);
    assert_eq!(tree.buckets[0].files, vec![file(40, 10), open_file(50, 10)]);
}

#[test]
fn file_age_decides_not_bucket_order() {
    let mut tree = StorageTree {
        buckets: vec![Bucket { id: 5, files: vec![file(50, 10)] }, Bucket { id: 6, files: vec![file(1, 10)] }],
    };
    let s = tree.next_step(10);
    assert_eq!(s, Step::RemoveFile { bucket: 1, file: 0 });
    tree.apply(s);
    assert_eq!(tree.next_step(10), Step::Done);
    assert_eq!(tree.buckets.len(), 1);
    assert_eq!(tree.buckets[0].files, vec![file(50, 10)]);
}

#[test]
fn enforce_converges_under_quota() {
    let mut tree = StorageTree {
        buckets: vec![
            Bucket { id: 7, files: vec![file(10, 10), file(20, 10)] },
            Bucket { id: 8, files: vec![file(30, 10), file(40, 10), open_file(50, 10)] },
        ],
    };
    let steps = tree.enforce(25);
    assert_eq!(
        steps,
        vec![
            Step::RemoveFile { bucket: 0, file: 0 },
            Step::RemoveFile { bucket: 0, file: 0 },
            Step::RemoveFile { bucket: 0, file: 0 },
        ]
    );
    assert_eq!(tree.usage(), Some(20));
}

#[test]
fn open_segment_is_never_chosen() {
    let mut tree = StorageTree { buckets: vec![Bucket { id: 9, files: vec![open_file(1, 100), file(2, 10)] }] };
    assert_eq!(tree.next_step(50), Step::RemoveFile { bucket: 0, file: 1 });
    let steps = tree.enforce(50);
    assert_eq!(steps, vec![Step::RemoveFile { bucket: 0, file: 1 }]);
    assert_eq!(tree.buckets[0].files, vec![open_file(1, 100)]);
}

#[test]
fn only_the_open_segment_left_is_starvation() {
    let mut tree = StorageTree { buckets: vec![Bucket { id: 10, files: vec![open_file(1, 100)] }] };
    assert_eq!(tree.next_step(50), Step::Starved);
    assert_eq!(tree.enforce(50), vec![]);
    assert_eq!(tree.buckets[0].files, vec![open_file(1, 100)]);
}

#[test]
fn starvation_removes_only_empty_buckets() {
    let mut tree = StorageTree {
        buckets: vec![Bucket { id: 11, files: vec![] }, Bucket { id: 12, files: vec![open_file(1, 100)] }],
    };
    let steps = tree.enforce(50);
    assert_eq!(steps, vec![Step::RemoveBucket { bucket: 0 }]);
    assert_eq!(tree.buckets.len(), 1);
    assert_eq!(tree.next_step(50), Step::Starved);
}

#[test]
fn empty_trees_are_within_quota() {
    let tree = StorageTree { buckets: vec![] };
    assert_eq!(tree.next_step(0), Step::Done);
    let tree2 = StorageTree { buckets: vec![Bucket { id: 13, files: vec![] }] };
    assert_eq!(tree2.next_step(0), Step::Done);
}

#[test]
fn empty_bucket_is_removed_first() {
    let mut tree = StorageTree {
        buckets: vec![Bucket { id: 14, files: vec![file(8, 100)] }, Bucket { id: 15, files: vec![] }],
    };
    let s = tree.next_step(10);
    assert_eq!(s, Step::RemoveBucket { bucket: 1 });
    tree.apply(s);
    assert_eq!(tree.buckets.len(), 1);
    assert_eq!(tree.next_step(10), Step::RemoveFile { bucket: 0, file: 0 });
}

#[test]
fn equal_times_take_the_first() {
    let tree = StorageTree {
        buckets: vec![
            Bucket { id: 16, files: vec![file(3, 10), file(1, 10)] },
            Bucket { id: 17, files: vec![file(1, 10)] },
        ],
    };
    assert_eq!(tree.next_step(0), Step::RemoveFile { bucket: 0, file: 1 });
}

#[test]
fn usage_beyond_u64_is_never_done() {
    let tree = StorageTree { buckets: vec![Bucket { id: 18, files: vec![file(1, u64::MAX), file(2, 1)] }] };
    assert_eq!(tree.usage(), None);
    assert_eq!(tree.buckets[0].size(), None);
    assert_eq!(tree.next_step(u64::MAX), Step::RemoveFile { bucket: 0, file: 0 });
}

#[test]
fn oldest_eligible_skips_the_open_file() {
    let b = Bucket { id: 19, files: vec![open_file(1, 1), file(5, 1), file(4, 1)] };
    assert_eq!(b.oldest_eligible(), Some(2));
    let only_open = Bucket { id: 20, files: vec![open_file(1, 1)] };
    assert_eq!(only_open.oldest_eligible(), None);
}

#[test]
fn apply_reports_what_it_removed() {
    let mut tree = StorageTree {
        buckets: vec![
            Bucket { id: 7, files: vec![file(5, 10), file(6, 10)] },
            Bucket { id: 8, files: vec![file(9, 10)] },
            Bucket { id: 9, files: vec![] },
        ],
    };
    assert_eq!(
        tree.apply(Step::RemoveFile { bucket: 0, file: 1 }),
        Removal { file: Some(6), bucket: None }
    );
    assert_eq!(
        tree.apply(Step::RemoveFile { bucket: 1, file: 0 }),
        Removal { file: Some(9), bucket: Some(8) }
    );
    assert_eq!(tree.apply(Step::RemoveBucket { bucket: 1 }), Removal { file: None, bucket: Some(9) });
    assert_eq!(tree.apply(Step::Done), Removal { file: None, bucket: None });
    assert_eq!(tree.buckets.len(), 1);
    assert_eq!(tree.buckets[0].files, vec![file(5, 10)]);
}

#[test]
fn deleted_files_are_older_than_those_left() {
    let mut tree = StorageTree {
        buckets: vec![
            Bucket { id: 1, files: vec![file(40, 10), file(15, 10)] },
            Bucket { id: 2, files: vec![file(30, 10), file(20, 10)] },
        ],
    };
    let steps = tree.enforce(20);
    assert_eq!(steps, vec![Step::RemoveFile { bucket: 0, file: 1 }, Step::RemoveFile { bucket: 1, file: 1 }]);
    assert_eq!(tree.buckets[0].files, vec![file(40, 10)]);
    assert_eq!(tree.buckets[1].files, vec![file(30, 10)]);
}
