//! Storage-quota enforcement over a snapshot of the recording tree.
//!
//! The tree's first-level directories are date buckets, each holding segment
//! files. Enforcement first removes empty buckets, then repeatedly deletes the
//! oldest eligible file of the whole tree (by modification time) until usage is
//! within quota, removing a bucket as soon as its last file is deleted. The
//! file of the open segment is never eligible, so a bucket holding only that
//! file is never removed.

use vstd::prelude::*;

verus! {

/// One file of a date bucket, as seen when the tree was scanned.
#[derive(Clone, Copy, Debug, PartialEq, Eq)]
pub struct FileEntry {
    /// The caller's name for the file, handed back when it is removed.
    pub id: u64,
    pub mtime: u64,
    pub size: u64,
    /// The file is the open segment's, which is never evicted.
    pub active: bool,
}

/// A date bucket: its files.
#[derive(Debug)]
pub struct Bucket {
    /// The caller's name for the bucket, handed back when it is removed.
    pub id: u64,
    pub files: Vec<FileEntry>,
}

pub ghost struct BucketView {
    pub id: u64,
    pub files: Seq<FileEntry>,
}

/// What carrying out a step removed, by the callers' names.
#[derive(Clone, Copy, Debug, PartialEq, Eq)]
pub struct Removal {
    pub file: Option<u64>,
    pub bucket: Option<u64>,
}

impl View for Bucket {
    type V = BucketView;

    open spec fn view(&self) -> BucketView {
        BucketView { id: self.id, files: self.files@ }
    }
}

/// A scanned recording tree: its date buckets.
#[derive(Debug)]
pub struct StorageTree {
    pub buckets: Vec<Bucket>,
}

impl View for StorageTree {
    type V = Seq<BucketView>;

    open spec fn view(&self) -> Seq<BucketView> {
        self.buckets@.map_values(|b: Bucket| b@)
    }
}

/// What one enforcement pass decides, by position in the scanned tree.
#[derive(Clone, Copy, Debug, PartialEq, Eq)]
pub enum Step {
    /// Usage is within quota.
    Done,
    /// Usage exceeds quota and nothing is left that may be deleted.
    Starved,
    /// Delete this file; remove its bucket too if that leaves it empty.
    RemoveFile { bucket: usize, file: usize },
    /// Remove this bucket, which holds no files.
    RemoveBucket { bucket: usize },
}

/// The sum of `w` over the items of `s`.
pub open spec fn total<A>(s: Seq<A>, w: spec_fn(A) -> nat) -> nat
    decreases s.len(),
{
    if s.len() == 0 {
        0
    } else {
        total(s.drop_last(), w) + w(s.last())
    }
}

pub open spec fn entry_size() -> spec_fn(FileEntry) -> nat {
    |f: FileEntry| f.size as nat
}

pub open spec fn entry_active() -> spec_fn(FileEntry) -> nat {
    |f: FileEntry|
        if f.active {
            1nat
        } else {
            0nat
        }
}

pub open spec fn bucket_size() -> spec_fn(BucketView) -> nat {
    |b: BucketView| total(b.files, entry_size())
}

pub open spec fn bucket_len() -> spec_fn(BucketView) -> nat {
    |b: BucketView| b.files.len()
}

pub open spec fn bucket_active() -> spec_fn(BucketView) -> nat {
    |b: BucketView| total(b.files, entry_active())
}

pub open spec fn entry_eligible() -> spec_fn(FileEntry) -> nat {
    |f: FileEntry|
        if f.active {
            0nat
        } else {
            1nat
        }
}

pub open spec fn bucket_eligible() -> spec_fn(BucketView) -> nat {
    |b: BucketView| total(b.files, entry_eligible())
}

/// Number of files in the tree that may be deleted.
pub open spec fn eligible_count(t: Seq<BucketView>) -> nat {
    total(t, bucket_eligible())
}

/// Number of file deletions (`files`) or of empty-bucket removals (`!files`) in `steps`.
pub open spec fn removals(steps: Seq<Step>, files: bool) -> nat
    decreases steps.len(),
{
    if steps.len() == 0 {
        0
    } else {
        removals(steps.drop_last(), files) + if (files && steps.last() is RemoveFile) || (!files
            && steps.last() is RemoveBucket) {
            1nat
        } else {
            0nat
        }
    }
}

/// Bytes used by all files of the tree.
pub open spec fn usage(t: Seq<BucketView>) -> nat {
    total(t, bucket_size())
}

/// Number of files in the tree.
pub open spec fn file_count(t: Seq<BucketView>) -> nat {
    total(t, bucket_len())
}

/// Number of open-segment files in the tree.
pub open spec fn active_count(t: Seq<BucketView>) -> nat {
    total(t, bucket_active())
}

pub open spec fn has_eligible(fs: Seq<FileEntry>) -> bool {
    exists|i: int| 0 <= i < fs.len() && !fs[i].active
}

pub open spec fn tree_has_eligible(t: Seq<BucketView>) -> bool {
    exists|b: int| 0 <= b < t.len() && has_eligible(#[trigger] t[b].files)
}

pub open spec fn has_empty_bucket(t: Seq<BucketView>) -> bool {
    exists|c: int| 0 <= c < t.len() && #[trigger] t[c].files.len() == 0
}

/// `i` is the first of the oldest files of `fs` that may be deleted.
pub open spec fn is_oldest_eligible(fs: Seq<FileEntry>, i: int) -> bool {
    &&& 0 <= i < fs.len()
    &&& !fs[i].active
    &&& forall|j: int|
        0 <= j < fs.len() && !#[trigger] fs[j].active ==> fs[i].mtime < fs[j].mtime || (
        fs[i].mtime == fs[j].mtime && i <= j)
}

/// File `f` of bucket `b` goes no later than file `g` of bucket `c`: it is
/// older, or as old and earlier in the tree.
pub open spec fn precedes(t: Seq<BucketView>, b: int, f: int, c: int, g: int) -> bool {
    t[b].files[f].mtime < t[c].files[g].mtime || (t[b].files[f].mtime == t[c].files[g].mtime && (b
        < c || (b == c && f <= g)))
}

/// File `f` of bucket `b` is the first of the oldest files of the whole tree
/// that may be deleted.
pub open spec fn is_oldest_in_tree(t: Seq<BucketView>, b: int, f: int) -> bool {
    &&& 0 <= b < t.len()
    &&& 0 <= f < t[b].files.len()
    &&& !t[b].files[f].active
    &&& forall|c: int, g: int|
        0 <= c < t.len() && 0 <= g < t[c].files.len() && !(#[trigger] t[c].files[g]).active
            ==> precedes(t, b, f, c, g)
}

/// `s` is the decision of one enforcement pass over `t` under `quota`.
pub open spec fn step_matches(t: Seq<BucketView>, quota: nat, s: Step) -> bool {
    match s {
        Step::Done => usage(t) <= quota,
        Step::Starved => usage(t) > quota && !has_empty_bucket(t) && !tree_has_eligible(t),
        Step::RemoveFile { bucket, file } => usage(t) > quota && !has_empty_bucket(t)
            && is_oldest_in_tree(t, bucket as int, file as int),
        Step::RemoveBucket { bucket } => usage(t) > quota && bucket < t.len() && t[bucket
            as int].files.len() == 0 && forall|c: int|
            0 <= c < bucket ==> #[trigger] t[c].files.len() > 0,
    }
}

/// `s` names positions that exist in `t`.
pub open spec fn step_in_range(t: Seq<BucketView>, s: Step) -> bool {
    match s {
        Step::RemoveFile { bucket, file } => bucket < t.len() && file < t[bucket as int].files.len(),
        Step::RemoveBucket { bucket } => bucket < t.len(),
        _ => true,
    }
}

/// The tree after carrying out `s`.
pub open spec fn after(t: Seq<BucketView>, s: Step) -> Seq<BucketView> {
    match s {
        Step::RemoveFile { bucket, file } => {
            let b = t[bucket as int];
            if b.files.len() == 1 {
                t.remove(bucket as int)
            } else {
                t.update(
                    bucket as int,
                    BucketView { id: b.id, files: b.files.remove(file as int) },
                )
            }
        },
        Step::RemoveBucket { bucket } => t.remove(bucket as int),
        _ => t,
    }
}

/// The tree after carrying out `steps` in order.
pub open spec fn replay(t: Seq<BucketView>, steps: Seq<Step>) -> Seq<BucketView>
    decreases steps.len(),
{
    if steps.len() == 0 {
        t
    } else {
        after(replay(t, steps.drop_last()), steps.last())
    }
}

proof fn lemma_total_remove<A>(s: Seq<A>, w: spec_fn(A) -> nat, i: int)
    requires
        0 <= i < s.len(),
    ensures
        total(s.remove(i), w) + w(s[i]) == total(s, w),
    decreases s.len(),
{
    if i == s.len() - 1 {
        assert(s.remove(i) =~= s.drop_last());
    } else {
        lemma_total_remove(s.drop_last(), w, i);
        assert(s.remove(i).drop_last() =~= s.drop_last().remove(i));
        assert(s.remove(i).last() == s.last());
    }
}

proof fn lemma_total_update<A>(s: Seq<A>, w: spec_fn(A) -> nat, i: int, a: A)
    requires
        0 <= i < s.len(),
    ensures
        total(s.update(i, a), w) + w(s[i]) == total(s, w) + w(a),
    decreases s.len(),
{
    if i == s.len() - 1 {
        assert(s.update(i, a).drop_last() =~= s.drop_last());
    } else {
        lemma_total_update(s.drop_last(), w, i, a);
        assert(s.update(i, a).drop_last() =~= s.drop_last().update(i, a));
    }
}

proof fn lemma_total_prefix<A>(s: Seq<A>, w: spec_fn(A) -> nat, k: int)
    requires
        0 <= k < s.len(),
    ensures
        total(s.subrange(0, k + 1), w) == total(s.subrange(0, k), w) + w(s[k]),
{
    assert(s.subrange(0, k + 1).drop_last() =~= s.subrange(0, k));
}

proof fn lemma_total_prefix_grows<A>(s: Seq<A>, w: spec_fn(A) -> nat, k: int)
    requires
        0 <= k <= s.len(),
    ensures
        total(s.subrange(0, k), w) <= total(s, w),
    decreases s.len() - k,
{
    if k < s.len() {
        lemma_total_prefix(s, w, k);
        lemma_total_prefix_grows(s, w, k + 1);
    } else {
        assert(s.subrange(0, k) =~= s);
    }
}

/// Carrying out a decided step removes no open-segment file, and removes at
/// least one file or bucket.
pub proof fn lemma_step_keeps_active(t: Seq<BucketView>, quota: nat, s: Step)
    requires
        step_matches(t, quota, s),
    ensures
        active_count(after(t, s)) == active_count(t),
        s is RemoveFile || s is RemoveBucket ==> file_count(after(t, s)) + after(t, s).len()
            < file_count(t) + t.len(),
        s is RemoveFile ==> eligible_count(after(t, s)) + 1 == eligible_count(t) && after(
            t,
            s,
        ).len() <= t.len(),
        s is RemoveBucket ==> eligible_count(after(t, s)) == eligible_count(t) && after(t, s).len()
            + 1 == t.len(),
{
    match s {
        Step::RemoveFile { bucket, file } => {
            let b = bucket as int;
            let f = file as int;
            let bv = t[b];
            lemma_total_remove(bv.files, entry_active(), f);
            lemma_total_remove(bv.files, entry_eligible(), f);
            lemma_total_remove(t, bucket_len(), b);
            if bv.files.len() == 1 {
                lemma_total_remove(t, bucket_active(), b);
                lemma_total_remove(t, bucket_eligible(), b);
                assert(bv.files.remove(f).len() == 0);
                assert(total(bv.files.remove(f), entry_eligible()) == 0);
            } else {
                let nb = BucketView { id: bv.id, files: bv.files.remove(f) };
                lemma_total_update(t, bucket_active(), b, nb);
                lemma_total_update(t, bucket_len(), b, nb);
                lemma_total_update(t, bucket_eligible(), b, nb);
            }
        },
        Step::RemoveBucket { bucket } => {
            let b = bucket as int;
            lemma_total_remove(t, bucket_active(), b);
            lemma_total_remove(t, bucket_len(), b);
            lemma_total_remove(t, bucket_eligible(), b);
        },
        _ => {},
    }
}

/// The open segment's file is never chosen: a chosen file is not the open
/// segment's, and a chosen bucket holds no file at all.
pub proof fn active_segment_never_chosen(t: Seq<BucketView>, quota: nat, s: Step)
    requires
        step_matches(t, quota, s),
    ensures
        s matches Step::RemoveFile { bucket, file } ==> !t[bucket as int].files[file as int].active,
        s matches Step::RemoveBucket { bucket } ==> t[bucket as int].files.len() == 0,
        active_count(after(t, s)) == active_count(t),
{
    lemma_step_keeps_active(t, quota, s);
}

/// `e` is one of the files of `t`.
pub open spec fn in_tree(t: Seq<BucketView>, e: FileEntry) -> bool {
    exists|b: int, i: int| 0 <= b < t.len() && 0 <= i < t[b].files.len() && #[trigger] t[b].files[i] == e
}

/// Carrying out a step adds no file.
proof fn lemma_after_shrinks(t: Seq<BucketView>, s: Step)
    requires
        step_in_range(t, s),
    ensures
        forall|e: FileEntry| #[trigger] in_tree(after(t, s), e) ==> in_tree(t, e),
{
    let a = after(t, s);
    assert forall|e: FileEntry| #[trigger] in_tree(a, e) implies in_tree(t, e) by {
        let (b2, i2) = choose|b: int, i: int|
            0 <= b < a.len() && 0 <= i < a[b].files.len() && #[trigger] a[b].files[i] == e;
        match s {
            Step::RemoveFile { bucket, file } => {
                let b = bucket as int;
                if t[b].files.len() == 1 {
                    let ob = if b2 < b { b2 } else { b2 + 1 };
                    assert(t[ob].files[i2] == e);
                } else if b2 != b {
                    assert(t[b2].files[i2] == e);
                } else {
                    let oi = if i2 < file { i2 } else { i2 + 1 };
                    assert(t[b].files[oi] == e);
                }
            },
            Step::RemoveBucket { bucket } => {
                let ob = if b2 < bucket { b2 } else { b2 + 1 };
                assert(t[ob].files[i2] == e);
            },
            _ => {
                assert(t[b2].files[i2] == e);
            },
        }
    }
}

/// The file that step `s` deletes from `t`, if it deletes one.
pub open spec fn deleted_by(t: Seq<BucketView>, s: Step) -> Option<FileEntry> {
    match s {
        Step::RemoveFile { bucket, file } => Some(t[bucket as int].files[file as int]),
        _ => None,
    }
}

/// Every file deleted by `steps`, carried out from `t`, is no newer than any
/// file that may be deleted in `u`.
pub open spec fn deleted_before(t: Seq<BucketView>, steps: Seq<Step>, u: Seq<BucketView>) -> bool {
    forall|k: int, e: FileEntry|
        0 <= k < steps.len() && #[trigger] in_tree(u, e) && !e.active && deleted_by(
            replay(t, steps.take(k)),
            steps[k],
        ) is Some ==> (#[trigger] deleted_by(replay(t, steps.take(k)), steps[k])).unwrap().mtime
            <= e.mtime
}

/// Whole-run form of oldest-first deletion across buckets: once enforcement
/// has deleted a file, no file that may be deleted and is older than it is
/// left anywhere, so a bucket whose files are all older than a deleted one
/// keeps none of its deletable files.
pub proof fn older_files_gone_first(
    t: Seq<BucketView>,
    steps: Seq<Step>,
    u: Seq<BucketView>,
    k: int,
    e: FileEntry,
)
    requires
        deleted_before(t, steps, u),
        0 <= k < steps.len(),
        deleted_by(replay(t, steps.take(k)), steps[k]) is Some,
        !e.active,
        e.mtime < deleted_by(replay(t, steps.take(k)), steps[k]).unwrap().mtime,
    ensures
        !in_tree(u, e),
{
}

/// A file is deleted only while no older file that may be deleted exists
/// anywhere in the tree.
pub proof fn eviction_takes_oldest(t: Seq<BucketView>, quota: nat, s: Step)
    requires
        step_matches(t, quota, s),
    ensures
        s matches Step::RemoveFile { bucket, file } ==> forall|c: int, g: int|
            0 <= c < t.len() && 0 <= g < t[c].files.len() && !(#[trigger] t[c].files[g]).active
                ==> t[bucket as int].files[file as int].mtime <= t[c].files[g].mtime,
{
}

/// Removing a bucket that holds no files keeps the file count, and leaves no
/// file that may be deleted where there was none.
proof fn lemma_remove_empty_bucket(t: Seq<BucketView>, b: int)
    requires
        0 <= b < t.len(),
        t[b].files.len() == 0,
    ensures
        file_count(t.remove(b)) == file_count(t),
        !tree_has_eligible(t) ==> !tree_has_eligible(t.remove(b)),
{
    lemma_total_remove(t, bucket_len(), b);
    let r = t.remove(b);
    if !tree_has_eligible(t) {
        assert forall|c: int| 0 <= c < r.len() implies !has_eligible(#[trigger] r[c].files) by {
            if c < b {
                assert(r[c] == t[c]);
                assert(!has_eligible(t[c].files));
            } else {
                assert(r[c] == t[c + 1]);
                assert(!has_eligible(t[c + 1].files));
            }
        }
    }
}

impl Bucket {
    /// The first of the oldest files that may be deleted, if any.
    pub fn oldest_eligible(&self) -> (r: Option<usize>)
        ensures
            r is None <==> !has_eligible(self.files@),
            r matches Some(i) ==> is_oldest_eligible(self.files@, i as int),
    {
        let mut best: Option<usize> = None;
        let mut i: usize = 0;
        while i < self.files.len()
            invariant
                i <= self.files.len(),
                best is None ==> forall|j: int| 0 <= j < i ==> #[trigger] self.files@[j].active,
                best matches Some(k) ==> {
                    &&& k < i
                    &&& !self.files@[k as int].active
                    &&& forall|j: int|
                        0 <= j < i && !#[trigger] self.files@[j].active ==> self.files@[k as int].mtime
                            < self.files@[j].mtime || (self.files@[k as int].mtime
                            == self.files@[j].mtime && k <= j)
                },
            decreases self.files.len() - i,
        {
            let e = self.files[i];
            if !e.active {
                match best {
                    None => {
                        best = Some(i);
                    },
                    Some(k) => {
                        if e.mtime < self.files[k].mtime {
                            best = Some(i);
                        }
                    },
                }
            }
            i += 1;
        }
        best
    }

    /// Bytes used by the bucket's files; `None` when the sum exceeds `u64::MAX`.
    pub fn size(&self) -> (r: Option<u64>)
        ensures
            r is None <==> total(self.files@, entry_size()) > u64::MAX,
            r matches Some(n) ==> n == total(self.files@, entry_size()),
    {
        let mut acc: u64 = 0;
        let mut i: usize = 0;
        while i < self.files.len()
            invariant
                i <= self.files.len(),
                acc == total(self.files@.subrange(0, i as int), entry_size()),
            decreases self.files.len() - i,
        {
            proof {
                lemma_total_prefix(self.files@, entry_size(), i as int);
            }
            let x = self.files[i].size;
            if acc > u64::MAX - x {
                proof {
                    lemma_total_prefix_grows(self.files@, entry_size(), i as int + 1);
                }
                return None;
            }
            acc = acc + x;
            i += 1;
        }
        assert(self.files@.subrange(0, i as int) =~= self.files@);
        Some(acc)
    }
}

impl StorageTree {
    /// Bytes used by all files of the tree; `None` when the sum exceeds `u64::MAX`.
    pub fn usage(&self) -> (r: Option<u64>)
        ensures
            r is None <==> usage(self@) > u64::MAX,
            r matches Some(n) ==> n == usage(self@),
    {
        let ghost t = self@;
        let mut acc: u64 = 0;
        let mut i: usize = 0;
        while i < self.buckets.len()
            invariant
                i <= self.buckets.len(),
                t == self@,
                acc == total(t.subrange(0, i as int), bucket_size()),
            decreases self.buckets.len() - i,
        {
            proof {
                lemma_total_prefix(t, bucket_size(), i as int);
            }
            match self.buckets[i].size() {
                None => {
                    proof {
                        lemma_total_prefix_grows(t, bucket_size(), i as int + 1);
                    }
                    return None;
                },
                Some(x) => {
                    if acc > u64::MAX - x {
                        proof {
                            lemma_total_prefix_grows(t, bucket_size(), i as int + 1);
                        }
                        return None;
                    }
                    acc = acc + x;
                },
            }
            i += 1;
        }
        assert(t.subrange(0, i as int) =~= t);
        Some(acc)
    }

    /// One enforcement pass: `Done` when usage is within `quota`; otherwise
    /// the first bucket that holds no files; otherwise the oldest file of the
    /// whole tree that may be deleted (the first one on equal times); or
    /// `Starved` when there is none.
    pub fn next_step(&self, quota: u64) -> (r: Step)
        ensures
            step_matches(self@, quota as nat, r),
            step_in_range(self@, r),
    {
        if let Some(used) = self.usage() {
            if used <= quota {
                return Step::Done;
            }
        }
        let ghost t = self@;
        assert(usage(t) > quota as nat);
        let mut i: usize = 0;
        while i < self.buckets.len()
            invariant
                i <= self.buckets.len(),
                t == self@,
                usage(t) > quota as nat,
                forall|c: int| 0 <= c < i ==> #[trigger] t[c].files.len() > 0,
            decreases self.buckets.len() - i,
        {
            if self.buckets[i].files.len() == 0 {
                return Step::RemoveBucket { bucket: i };
            }
            i += 1;
        }
        let mut best: Option<(usize, usize)> = None;
        let mut i: usize = 0;
        while i < self.buckets.len()
            invariant
                i <= self.buckets.len(),
                t == self@,
                usage(t) > quota as nat,
                !has_empty_bucket(t),
                best is None ==> forall|c: int, g: int|
                    0 <= c < i && 0 <= g < t[c].files.len() ==> (#[trigger] t[c].files[g]).active,
                best matches Some(bf) ==> {
                    &&& bf.0 < i
                    &&& bf.1 < t[bf.0 as int].files.len()
                    &&& !t[bf.0 as int].files[bf.1 as int].active
                    &&& forall|c: int, g: int|
                        0 <= c < i && 0 <= g < t[c].files.len() && !(#[trigger] t[c].files[g]).active
                            ==> precedes(t, bf.0 as int, bf.1 as int, c, g)
                },
            decreases self.buckets.len() - i,
        {
            let bk = &self.buckets[i];
            match bk.oldest_eligible() {
                None => {
                    assert forall|g: int| 0 <= g < t[i as int].files.len() implies (
                    #[trigger] t[i as int].files[g]).active by {
                        if !t[i as int].files[g].active {
                            assert(has_eligible(t[i as int].files));
                        }
                    }
                },
                Some(f) => {
                    let better = match best {
                        None => true,
                        Some(bf) => bk.files[f].mtime < self.buckets[bf.0].files[bf.1].mtime,
                    };
                    if better {
                        best = Some((i, f));
                    }
                },
            }
            i += 1;
        }
        match best {
            None => {
                assert(!tree_has_eligible(t));
                Step::Starved
            },
            Some(bf) => Step::RemoveFile { bucket: bf.0, file: bf.1 },
        }
    }

    /// Carries out `step` on the snapshot and reports what it removed: the
    /// deleted file, and its bucket when that file was the bucket's last; or
    /// the removed empty bucket.
    pub fn apply(&mut self, step: Step) -> (r: Removal)
        requires
            step_in_range(old(self)@, step),
        ensures
            final(self)@ == after(old(self)@, step),
            r == (match step {
                Step::RemoveFile { bucket, file } => Removal {
                    file: Some(old(self)@[bucket as int].files[file as int].id),
                    bucket: if old(self)@[bucket as int].files.len() == 1 {
                        Some(old(self)@[bucket as int].id)
                    } else {
                        None
                    },
                },
                Step::RemoveBucket { bucket } => Removal {
                    file: None,
                    bucket: Some(old(self)@[bucket as int].id),
                },
                _ => Removal { file: None, bucket: None },
            }),
    {
        let r = match step {
            Step::RemoveFile { bucket, file } => {
                let mut b = self.buckets.remove(bucket);
                let fid = b.files[file].id;
                if b.files.len() != 1 {
                    b.files.remove(file);
                    self.buckets.insert(bucket, b);
                    Removal { file: Some(fid), bucket: None }
                } else {
                    Removal { file: Some(fid), bucket: Some(b.id) }
                }
            },
            Step::RemoveBucket { bucket } => {
                let b = self.buckets.remove(bucket);
                Removal { file: None, bucket: Some(b.id) }
            },
            _ => Removal { file: None, bucket: None },
        };
        assert(self@ =~= after(old(self)@, step));
        r
    }

    /// Runs enforcement passes to the end, carrying each out on the snapshot,
    /// and returns the deletions in the order they were made. Afterwards usage
    /// is within `quota` or nothing is left that may be deleted, and every
    /// open-segment file is still there. There are at most as many file
    /// deletions as files that may be deleted, and at most as many bucket
    /// removals as buckets; where no file could be deleted to begin with, only
    /// empty buckets are removed and every file stays. Every deleted file is
    /// no newer than any file left that may be deleted.
    pub fn enforce(&mut self, quota: u64) -> (steps: Vec<Step>)
        ensures
            usage(final(self)@) <= quota || !tree_has_eligible(final(self)@),
            active_count(final(self)@) == active_count(old(self)@),
            steps@.len() <= file_count(old(self)@) + old(self)@.len(),
            removals(steps@, true) <= eligible_count(old(self)@),
            removals(steps@, false) <= old(self)@.len(),
            !tree_has_eligible(old(self)@) ==> file_count(final(self)@) == file_count(old(self)@)
                && forall|k: int| 0 <= k < steps@.len() ==> #[trigger] steps@[k] is RemoveBucket,
            final(self)@ == replay(old(self)@, steps@),
            forall|k: int|
                0 <= k < steps@.len() ==> step_matches(
                    replay(old(self)@, steps@.take(k)),
                    quota as nat,
                    #[trigger] steps@[k],
                ),
            deleted_before(old(self)@, steps@, final(self)@),
    {
        let ghost start = self@;
        let mut steps: Vec<Step> = Vec::new();
        loop
            invariant
                start == old(self)@,
                self@ == replay(start, steps@),
                active_count(self@) == active_count(start),
                steps@.len() + file_count(self@) + self@.len() <= file_count(start) + start.len(),
                deleted_before(start, steps@, self@),
                removals(steps@, true) + eligible_count(self@) <= eligible_count(start),
                removals(steps@, false) + self@.len() <= start.len(),
                !tree_has_eligible(start) ==> !tree_has_eligible(self@) && file_count(self@)
                    == file_count(start) && forall|k: int|
                    0 <= k < steps@.len() ==> #[trigger] steps@[k] is RemoveBucket,
                forall|k: int|
                    0 <= k < steps@.len() ==> step_matches(
                        replay(start, steps@.take(k)),
                        quota as nat,
                        #[trigger] steps@[k],
                    ),
            decreases file_count(self@) + self@.len(),
        {
            let s = self.next_step(quota);
            match s {
                Step::Done => {
                    return steps;
                },
                Step::Starved => {
                    return steps;
                },
                _ => {},
            }
            proof {
                lemma_step_keeps_active(self@, quota as nat, s);
                if let Step::RemoveBucket { bucket } = s {
                    lemma_remove_empty_bucket(self@, bucket as int);
                }
                if !tree_has_eligible(start) {
                    if let Step::RemoveFile { bucket, file } = s {
                        assert(has_eligible(self@[bucket as int].files));
                    }
                }
            }
            let ghost prev = steps@;
            let ghost cur = self@;
            proof {
                lemma_after_shrinks(cur, s);
            }
            self.apply(s);
            steps.push(s);
            proof {
                assert(steps@.drop_last() =~= prev);
                assert forall|k: int| 0 <= k < steps@.len() implies step_matches(
                    replay(start, steps@.take(k)),
                    quota as nat,
                    #[trigger] steps@[k],
                ) by {
                    if k < prev.len() {
                        assert(steps@.take(k) =~= prev.take(k));
                    } else {
                        assert(steps@.take(k) =~= prev);
                    }
                }
                assert forall|k: int| 0 <= k < prev.len() implies #[trigger] steps@[k] == prev[k] by {}
                assert(steps@.take(prev.len() as int) =~= prev);
                assert forall|k: int, e: FileEntry|
                    0 <= k < steps@.len() && #[trigger] in_tree(self@, e) && !e.active && deleted_by(
                        replay(start, steps@.take(k)),
                        steps@[k],
                    ) is Some implies (#[trigger] deleted_by(
                    replay(start, steps@.take(k)),
                    steps@[k],
                )).unwrap().mtime <= e.mtime by {
                    assert(in_tree(cur, e));
                    if k < prev.len() {
                        assert(steps@.take(k) =~= prev.take(k));
                    } else {
                        let (b2, i2) = choose|b: int, i: int|
                            0 <= b < cur.len() && 0 <= i < cur[b].files.len() && #[trigger] cur[b].files[i] == e;
                        assert(!cur[b2].files[i2].active);
                    }
                }
            }
        }
    }
}

} // verus!
