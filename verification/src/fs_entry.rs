//! The disk-usage aggregation tree.
//!
//! An entry is a file (with its size), a directory (with its children and the
//! aggregated size and file count of its whole subtree), or an error leaf for
//! an entry that could not be read.  Directories carry their aggregates
//! explicitly; `entry_wf` states the invariant that the stored numbers agree
//! with the children, and the lemmas at the end relate them to the sums over
//! all transitive descendants.

use crate::paths::is_prefix;
use crate::paths::str_starts_with;
use vstd::prelude::*;

verus! {

/// A regular file and its size in bytes.
pub struct FileEntry {
    pub path: String,
    pub size: u64,
}

/// An entry that could not be read.  `path` is absent when the failure was
/// not tied to a particular path (a directory listing handed back an error
/// before naming the entry).  `size` and `content` are carried for shape
/// compatibility with the other variants and are always absent.
pub struct ErrorEntry {
    pub path: Option<String>,
    pub size: Option<u64>,
    pub content: Option<Vec<FsEntry>>,
    pub reason: String,
}

/// A directory with its children and the aggregates over its whole subtree.
pub struct DirEntry {
    pub path: String,
    pub size: u64,
    pub number_of_files: u64,
    pub content: Vec<FsEntry>,
}

/// One node of the aggregation tree.
pub enum FsEntry {
    File(FileEntry),
    Dir(DirEntry),
    Error(ErrorEntry),
}

/// Mathematical image of a `FileEntry`.
pub struct FileEntryView {
    pub path: Seq<char>,
    pub size: u64,
}

/// Mathematical image of an `ErrorEntry`.
pub struct ErrorEntryView {
    pub path: Option<Seq<char>>,
    pub size: Option<u64>,
    pub content: Option<Seq<EntryView>>,
    pub reason: Seq<char>,
}

/// Mathematical image of a `DirEntry`.
pub struct DirEntryView {
    pub path: Seq<char>,
    pub size: u64,
    pub number_of_files: u64,
    pub content: Seq<EntryView>,
}

/// Mathematical image of an `FsEntry`; all contracts of this module speak
/// over these values.
pub enum EntryView {
    File(FileEntryView),
    Dir(DirEntryView),
    Error(ErrorEntryView),
}

/// Views of a sequence of entries, element for element.
pub open spec fn seq_view(s: Seq<FsEntry>) -> Seq<EntryView>
    decreases s,
{
    if s.len() == 0 {
        Seq::empty()
    } else {
        seq![s[0]@] + seq_view(s.drop_first())
    }
}

impl View for FileEntry {
    type V = FileEntryView;

    open spec fn view(&self) -> FileEntryView {
        FileEntryView { path: self.path@, size: self.size }
    }
}

impl View for ErrorEntry {
    type V = ErrorEntryView;

    open spec fn view(&self) -> ErrorEntryView
        decreases self,
    {
        ErrorEntryView {
            path: match self.path {
                Some(p) => Some(p@),
                None => None,
            },
            size: self.size,
            content: match self.content {
                Some(c) => Some(seq_view(c@)),
                None => None,
            },
            reason: self.reason@,
        }
    }
}

impl View for DirEntry {
    type V = DirEntryView;

    open spec fn view(&self) -> DirEntryView
        decreases self,
    {
        DirEntryView {
            path: self.path@,
            size: self.size,
            number_of_files: self.number_of_files,
            content: seq_view(self.content@),
        }
    }
}

impl View for FsEntry {
    type V = EntryView;

    open spec fn view(&self) -> EntryView
        decreases self,
    {
        match self {
            FsEntry::File(f) => EntryView::File(f@),
            FsEntry::Dir(d) => EntryView::Dir(d@),
            FsEntry::Error(e) => EntryView::Error(e@),
        }
    }
}

/// Size an entry contributes to its parent: its own size for a file, the
/// aggregated size for a directory, nothing for an error leaf.
pub open spec fn view_size(v: EntryView) -> u64 {
    match v {
        EntryView::File(f) => f.size,
        EntryView::Dir(d) => d.size,
        EntryView::Error(_) => 0,
    }
}

/// File count an entry contributes to its parent: one for a file or error
/// leaf, the aggregated count for a directory.
pub open spec fn view_count(v: EntryView) -> u64 {
    match v {
        EntryView::File(_) => 1,
        EntryView::Error(_) => 1,
        EntryView::Dir(d) => d.number_of_files,
    }
}

/// Sum of the contributed sizes over a sequence of siblings.
pub open spec fn sum_sizes(s: Seq<EntryView>) -> int
    decreases s.len(),
{
    if s.len() == 0 {
        0
    } else {
        view_size(s[0]) + sum_sizes(s.drop_first())
    }
}

/// Sum of the contributed file counts over a sequence of siblings.
pub open spec fn sum_counts(s: Seq<EntryView>) -> int
    decreases s.len(),
{
    if s.len() == 0 {
        0
    } else {
        view_count(s[0]) + sum_counts(s.drop_first())
    }
}

/// The stored aggregates of every directory in the tree agree with its
/// children, and error leaves carry no size and no content.
pub open spec fn entry_wf(v: EntryView) -> bool
    decreases v,
{
    match v {
        EntryView::File(_) => true,
        EntryView::Error(e) => e.size is None && e.content is None,
        EntryView::Dir(d) => {
            &&& d.size == sum_sizes(d.content)
            &&& d.number_of_files == sum_counts(d.content)
            &&& forall|i: int| 0 <= i < d.content.len() ==> entry_wf(#[trigger] d.content[i])
        },
    }
}

/// `entry_wf` of a directory, seen from the directory itself.
pub open spec fn dir_wf(d: DirEntryView) -> bool {
    entry_wf(EntryView::Dir(d))
}

pub proof fn lemma_seq_view_index(s: Seq<FsEntry>)
    ensures
        seq_view(s).len() == s.len(),
        forall|i: int| 0 <= i < s.len() ==> seq_view(s)[i] == s[i]@,
    decreases s.len(),
{
    if s.len() > 0 {
        lemma_seq_view_index(s.drop_first());
        let t = seq_view(s.drop_first());
        assert(seq_view(s) == seq![s[0]@] + t);
        assert(seq_view(s).len() == 1 + t.len());
        assert forall|i: int| 0 <= i < s.len() implies seq_view(s)[i] == s[i]@ by {
            if i == 0 {
                assert((seq![s[0]@] + t)[0] == s[0]@);
            } else {
                assert((seq![s[0]@] + t)[i] == t[i - 1]);
                assert(s.drop_first()[i - 1] == s[i]);
            }
        }
    }
}

proof fn lemma_sum_sizes_singleton(v: EntryView)
    ensures
        sum_sizes(seq![v]) == view_size(v),
{
    let s = seq![v];
    assert(s.drop_first() =~= Seq::<EntryView>::empty());
    assert(sum_sizes(Seq::<EntryView>::empty()) == 0);
    assert(sum_sizes(s) == view_size(s[0]) + sum_sizes(s.drop_first()));
}

proof fn lemma_sum_counts_singleton(v: EntryView)
    ensures
        sum_counts(seq![v]) == view_count(v),
{
    let s = seq![v];
    assert(s.drop_first() =~= Seq::<EntryView>::empty());
    assert(sum_counts(Seq::<EntryView>::empty()) == 0);
    assert(sum_counts(s) == view_count(s[0]) + sum_counts(s.drop_first()));
}

pub proof fn lemma_seq_view_push(s: Seq<FsEntry>, e: FsEntry)
    ensures
        seq_view(s.push(e)) == seq_view(s).push(e@),
{
    lemma_seq_view_index(s);
    lemma_seq_view_index(s.push(e));
    assert(seq_view(s.push(e)) =~= seq_view(s).push(e@));
}

pub proof fn lemma_sum_sizes_nonneg(s: Seq<EntryView>)
    ensures
        0 <= sum_sizes(s),
    decreases s.len(),
{
    if s.len() > 0 {
        lemma_sum_sizes_nonneg(s.drop_first());
    }
}

pub proof fn lemma_sum_counts_nonneg(s: Seq<EntryView>)
    ensures
        0 <= sum_counts(s),
    decreases s.len(),
{
    if s.len() > 0 {
        lemma_sum_counts_nonneg(s.drop_first());
    }
}

/// Summing a prefix and the matching suffix gives the sum of the whole.
pub proof fn lemma_sum_sizes_split(s: Seq<EntryView>, i: int)
    requires
        0 <= i <= s.len(),
    ensures
        sum_sizes(s) == sum_sizes(s.take(i)) + sum_sizes(s.skip(i)),
    decreases i,
{
    if i == 0 {
        assert(s.take(0) =~= Seq::<EntryView>::empty());
        assert(s.skip(0) =~= s);
    } else {
        let t = s.drop_first();
        assert(s.take(i).drop_first() =~= t.take(i - 1));
        assert(s.skip(i) =~= t.skip(i - 1));
        lemma_sum_sizes_split(t, i - 1);
        assert(s.take(i)[0] == s[0]);
    }
}

pub proof fn lemma_sum_counts_split(s: Seq<EntryView>, i: int)
    requires
        0 <= i <= s.len(),
    ensures
        sum_counts(s) == sum_counts(s.take(i)) + sum_counts(s.skip(i)),
    decreases i,
{
    if i == 0 {
        assert(s.take(0) =~= Seq::<EntryView>::empty());
        assert(s.skip(0) =~= s);
    } else {
        let t = s.drop_first();
        assert(s.take(i).drop_first() =~= t.take(i - 1));
        assert(s.skip(i) =~= t.skip(i - 1));
        lemma_sum_counts_split(t, i - 1);
        assert(s.take(i)[0] == s[0]);
    }
}

/// Peeling one element off the suffix that starts at `i`.
pub proof fn lemma_sum_sizes_skip_step(s: Seq<EntryView>, i: int)
    requires
        0 <= i < s.len(),
    ensures
        sum_sizes(s.skip(i)) == view_size(s[i]) + sum_sizes(s.skip(i + 1)),
{
    assert(s.skip(i)[0] == s[i]);
    assert(s.skip(i).drop_first() =~= s.skip(i + 1));
}

pub proof fn lemma_sum_counts_skip_step(s: Seq<EntryView>, i: int)
    requires
        0 <= i < s.len(),
    ensures
        sum_counts(s.skip(i)) == view_count(s[i]) + sum_counts(s.skip(i + 1)),
{
    assert(s.skip(i)[0] == s[i]);
    assert(s.skip(i).drop_first() =~= s.skip(i + 1));
}

impl FsEntry {
    /// Size this entry contributes to its parent.
    pub fn size(&self) -> (r: u64)
        ensures
            r == view_size(self@),
    {
        match self {
            FsEntry::File(f) => f.size,
            FsEntry::Dir(d) => d.size,
            FsEntry::Error(_) => 0,
        }
    }

    /// File count this entry contributes to its parent.
    pub fn number_of_files(&self) -> (r: u64)
        ensures
            r == view_count(self@),
    {
        match self {
            FsEntry::File(_) => 1,
            FsEntry::Error(_) => 1,
            FsEntry::Dir(d) => d.number_of_files,
        }
    }
}

impl DirEntry {
    /// Builds a directory entry from its children, computing the aggregated
    /// size and file count bottom-up, once, at construction time.
    pub fn new(path: String, entries: Vec<FsEntry>) -> (d: DirEntry)
        requires
            sum_sizes(seq_view(entries@)) <= u64::MAX,
            sum_counts(seq_view(entries@)) <= u64::MAX,
        ensures
            d@.path == path@,
            d@.content == seq_view(entries@),
            d@.size == sum_sizes(seq_view(entries@)),
            d@.number_of_files == sum_counts(seq_view(entries@)),
    {
        let ghost vs = seq_view(entries@);
        proof {
            lemma_seq_view_index(entries@);
        }
        let mut size: u64 = 0;
        let mut number_of_files: u64 = 0;
        let mut i: usize = 0;
        while i < entries.len()
            invariant
                i <= entries.len(),
                vs == seq_view(entries@),
                vs.len() == entries@.len(),
                forall|j: int| 0 <= j < entries@.len() ==> vs[j] == entries@[j]@,
                sum_sizes(vs) <= u64::MAX,
                sum_counts(vs) <= u64::MAX,
                size == sum_sizes(vs.take(i as int)),
                number_of_files == sum_counts(vs.take(i as int)),
            decreases entries.len() - i,
        {
            proof {
                lemma_sum_sizes_split(vs, i as int);
                lemma_sum_sizes_skip_step(vs, i as int);
                lemma_sum_sizes_nonneg(vs.skip(i as int + 1));
                lemma_sum_counts_split(vs, i as int);
                lemma_sum_counts_skip_step(vs, i as int);
                lemma_sum_counts_nonneg(vs.skip(i as int + 1));
                lemma_sum_sizes_split(vs.take(i as int + 1), i as int);
                lemma_sum_counts_split(vs.take(i as int + 1), i as int);
                assert(vs.take(i as int + 1).take(i as int) =~= vs.take(i as int));
                assert(vs.take(i as int + 1).skip(i as int) =~= seq![vs[i as int]]);
                lemma_sum_sizes_singleton(vs[i as int]);
                lemma_sum_counts_singleton(vs[i as int]);
            }
            size = size + entries[i].size();
            number_of_files = number_of_files + entries[i].number_of_files();
            i = i + 1;
        }
        proof {
            assert(vs.take(vs.len() as int) =~= vs);
        }
        DirEntry { path, size, number_of_files, content: entries }
    }
}

/// Image of `clone_flat`: the same node with everything below `levels`
/// replaced by an empty listing; sizes and counts are preserved.
pub open spec fn spec_clone_flat(d: DirEntryView, levels: int) -> DirEntryView
    decreases d,
{
    DirEntryView {
        path: d.path,
        size: d.size,
        number_of_files: d.number_of_files,
        content: if levels > 0 {
            spec_flatten_children(d.content, levels - 1)
        } else {
            Seq::empty()
        },
    }
}

pub open spec fn spec_flatten_children(s: Seq<EntryView>, levels: int) -> Seq<EntryView>
    decreases s,
{
    if s.len() == 0 {
        Seq::empty()
    } else {
        seq![spec_flatten_entry(s[0], levels)] + spec_flatten_children(s.drop_first(), levels)
    }
}

pub open spec fn spec_flatten_entry(v: EntryView, levels: int) -> EntryView
    decreases v,
{
    match v {
        EntryView::Dir(d) => EntryView::Dir(spec_clone_flat(d, levels)),
        _ => v,
    }
}

pub proof fn lemma_flatten_children_index(s: Seq<EntryView>, levels: int)
    ensures
        spec_flatten_children(s, levels).len() == s.len(),
        forall|i: int|
            0 <= i < s.len() ==> spec_flatten_children(s, levels)[i] == spec_flatten_entry(
                s[i],
                levels,
            ),
    decreases s.len(),
{
    if s.len() > 0 {
        lemma_flatten_children_index(s.drop_first(), levels);
        let t = spec_flatten_children(s.drop_first(), levels);
        assert(spec_flatten_children(s, levels) == seq![spec_flatten_entry(s[0], levels)] + t);
        assert forall|i: int| 0 <= i < s.len() implies spec_flatten_children(s, levels)[i]
            == spec_flatten_entry(s[i], levels) by {
            if i == 0 {
                assert((seq![spec_flatten_entry(s[0], levels)] + t)[0] == spec_flatten_entry(
                    s[0],
                    levels,
                ));
            } else {
                assert((seq![spec_flatten_entry(s[0], levels)] + t)[i] == t[i - 1]);
                assert(s.drop_first()[i - 1] == s[i]);
            }
        }
    }
}

impl DirEntry {
    /// Copy of this directory keeping `levels_to_keep` levels of listings:
    /// deeper directories keep their aggregates but lose their `content`.
    pub fn clone_flat(&self, levels_to_keep: i32) -> (r: DirEntry)
        requires
            dir_wf(self@),
        ensures
            r@ == spec_clone_flat(self@, levels_to_keep as int),
        decreases *self,
    {
        let ghost vs = seq_view(self.content@);
        proof {
            lemma_seq_view_index(self.content@);
        }
        let mut content: Vec<FsEntry> = Vec::new();
        if levels_to_keep > 0 {
            let mut i: usize = 0;
            while i < self.content.len()
                invariant
                    i <= self.content.len(),
                    dir_wf(self@),
                    vs == seq_view(self.content@),
                    vs == self@.content,
                    vs.len() == self.content@.len(),
                    forall|j: int| 0 <= j < self.content@.len() ==> vs[j] == self.content@[j]@,
                    levels_to_keep > 0,
                    seq_view(content@) == spec_flatten_children(
                        vs.take(i as int),
                        levels_to_keep - 1,
                    ),
                decreases self.content.len() - i,
            {
                let ghost prev = content@;
                let child = &self.content[i];
                proof {
                    assert(entry_wf(vs[i as int]));
                }
                let cloned: FsEntry = match child {
                    FsEntry::File(f) => FsEntry::File(
                        FileEntry { path: f.path.clone(), size: f.size },
                    ),
                    FsEntry::Error(e) => FsEntry::Error(
                        ErrorEntry {
                            path: match &e.path {
                                Some(p) => Some(p.clone()),
                                None => None,
                            },
                            size: None,
                            content: None,
                            reason: e.reason.clone(),
                        },
                    ),
                    FsEntry::Dir(d) => FsEntry::Dir(d.clone_flat(levels_to_keep - 1)),
                };
                proof {
                    assert(cloned@ == spec_flatten_entry(vs[i as int], levels_to_keep - 1));
                }
                content.push(cloned);
                i = i + 1;
                proof {
                    lemma_seq_view_push(prev, cloned);
                    lemma_flatten_children_index(vs.take(i as int), levels_to_keep - 1);
                    lemma_flatten_children_index(vs.take(i as int - 1), levels_to_keep - 1);
                    assert(seq_view(content@) =~= spec_flatten_children(
                        vs.take(i as int),
                        levels_to_keep - 1,
                    ));
                }
            }
            proof {
                assert(vs.take(vs.len() as int) =~= vs);
            }
        } else {
            proof {
                assert(seq_view(content@) =~= Seq::<EntryView>::empty());
            }
        }
        DirEntry {
            path: self.path.clone(),
            size: self.size,
            number_of_files: self.number_of_files,
            content,
        }
    }

    /// The file children of this directory, in listing order.
    pub fn iter_files(&self) -> (r: Vec<FsEntry>)
        ensures
            seq_view(r@) == spec_files(self@.content),
    {
        let ghost vs = seq_view(self.content@);
        proof {
            lemma_seq_view_index(self.content@);
        }
        let mut r: Vec<FsEntry> = Vec::new();
        let mut i: usize = 0;
        while i < self.content.len()
            invariant
                i <= self.content.len(),
                vs == seq_view(self.content@),
                vs == self@.content,
                vs.len() == self.content@.len(),
                forall|j: int| 0 <= j < self.content@.len() ==> vs[j] == self.content@[j]@,
                seq_view(r@) == spec_files(vs.take(i as int)),
            decreases self.content.len() - i,
        {
            let ghost prev = r@;
            proof {
                lemma_spec_files_take_step(vs, i as int);
            }
            match &self.content[i] {
                FsEntry::File(f) => {
                    let copy = FsEntry::File(FileEntry { path: f.path.clone(), size: f.size });
                    proof {
                        lemma_seq_view_push(prev, copy);
                    }
                    r.push(copy);
                },
                _ => {},
            }
            i = i + 1;
        }
        proof {
            assert(vs.take(vs.len() as int) =~= vs);
        }
        r
    }
}

/// The subsequence of file entries.
pub open spec fn spec_files(s: Seq<EntryView>) -> Seq<EntryView>
    decreases s.len(),
{
    if s.len() == 0 {
        Seq::empty()
    } else if s[0] is File {
        seq![s[0]] + spec_files(s.drop_first())
    } else {
        spec_files(s.drop_first())
    }
}

proof fn lemma_spec_files_concat(a: Seq<EntryView>, b: Seq<EntryView>)
    ensures
        spec_files(a + b) == spec_files(a) + spec_files(b),
    decreases a.len(),
{
    if a.len() == 0 {
        assert(a + b =~= b);
        assert(spec_files(a) + spec_files(b) =~= spec_files(b));
    } else {
        assert((a + b).drop_first() =~= a.drop_first() + b);
        lemma_spec_files_concat(a.drop_first(), b);
        assert((a + b)[0] == a[0]);
        if a[0] is File {
            assert(seq![a[0]] + (spec_files(a.drop_first()) + spec_files(b)) =~= (seq![a[0]]
                + spec_files(a.drop_first())) + spec_files(b));
        }
    }
}

proof fn lemma_spec_files_take_step(s: Seq<EntryView>, i: int)
    requires
        0 <= i < s.len(),
    ensures
        spec_files(s.take(i + 1)) == if s[i] is File {
            spec_files(s.take(i)).push(s[i])
        } else {
            spec_files(s.take(i))
        },
{
    assert(s.take(i + 1) =~= s.take(i) + seq![s[i]]);
    lemma_spec_files_concat(s.take(i), seq![s[i]]);
    assert(seq![s[i]].drop_first() =~= Seq::<EntryView>::empty());
    assert(spec_files(Seq::<EntryView>::empty()) =~= Seq::<EntryView>::empty());
    if s[i] is File {
        assert(spec_files(seq![s[i]]) =~= seq![s[i]]);
        assert(spec_files(s.take(i)) + seq![s[i]] =~= spec_files(s.take(i)).push(s[i]));
    } else {
        assert(spec_files(seq![s[i]]) =~= Seq::<EntryView>::empty());
        assert(spec_files(s.take(i)) + Seq::<EntryView>::empty() =~= spec_files(s.take(i)));
    }
}

/// Image of `get_entry_by_path`: scan the children left to right; the first
/// directory child whose path equals the target is the result; at the first
/// one whose path is a prefix of the target the search descends and does not
/// come back to later siblings.
pub open spec fn spec_lookup(d: DirEntryView, target: Seq<char>) -> Option<DirEntryView> {
    spec_lookup_seq(d.content, target)
}

pub open spec fn spec_lookup_seq(s: Seq<EntryView>, target: Seq<char>) -> Option<DirEntryView>
    decreases s,
{
    if s.len() == 0 {
        None
    } else {
        match s[0] {
            EntryView::Dir(d2) => if d2.path == target {
                Some(d2)
            } else if is_prefix(d2.path, target) {
                spec_lookup_seq(d2.content, target)
            } else {
                spec_lookup_seq(s.drop_first(), target)
            },
            _ => spec_lookup_seq(s.drop_first(), target),
        }
    }
}

impl DirEntry {
    /// Searches this directory's subtree for the directory whose path
    /// equals `path`, descending at the first child whose path is a prefix
    /// of it.
    pub fn get_entry_by_path(&self, path: String) -> (r: Option<&DirEntry>)
        ensures
            match r {
                Some(d2) => spec_lookup(self@, path@) == Some(d2@),
                None => spec_lookup(self@, path@) is None,
            },
        decreases *self,
    {
        let ghost vs = seq_view(self.content@);
        proof {
            lemma_seq_view_index(self.content@);
        }
        let mut i: usize = 0;
        proof {
            assert(vs.skip(0) =~= vs);
        }
        while i < self.content.len()
            invariant
                i <= self.content.len(),
                vs == seq_view(self.content@),
                vs == self@.content,
                vs.len() == self.content@.len(),
                forall|j: int| 0 <= j < self.content@.len() ==> vs[j] == self.content@[j]@,
                spec_lookup_seq(vs, path@) == spec_lookup_seq(vs.skip(i as int), path@),
            decreases self.content.len() - i,
        {
            proof {
                assert(vs.skip(i as int)[0] == vs[i as int]);
                assert(vs.skip(i as int).drop_first() =~= vs.skip(i as int + 1));
            }
            match &self.content[i] {
                FsEntry::Dir(d2) => {
                    if d2.path == path {
                        return Some(d2);
                    }
                    if str_starts_with(path.as_str(), d2.path.as_str()) {
                        proof {
                            assert(decreases_to!(*self => self.content));
                        }
                        return d2.get_entry_by_path(path);
                    }
                },
                _ => {},
            }
            i = i + 1;
        }
        proof {
            assert(vs.skip(vs.len() as int).len() == 0);
        }
        None
    }
}

/// A directory found by `spec_lookup` inside a well-formed tree is itself
/// well-formed.
pub proof fn lemma_spec_lookup_wf(d: DirEntryView, target: Seq<char>)
    requires
        dir_wf(d),
        spec_lookup(d, target) is Some,
    ensures
        dir_wf(spec_lookup(d, target)->Some_0),
{
    lemma_spec_lookup_seq_wf(d.content, target);
}

proof fn lemma_spec_lookup_seq_wf(s: Seq<EntryView>, target: Seq<char>)
    requires
        forall|i: int| 0 <= i < s.len() ==> entry_wf(#[trigger] s[i]),
        spec_lookup_seq(s, target) is Some,
    ensures
        dir_wf(spec_lookup_seq(s, target)->Some_0),
    decreases s,
{
    if s.len() > 0 {
        let t = s.drop_first();
        assert forall|i: int| 0 <= i < t.len() implies entry_wf(#[trigger] t[i]) by {
            assert(t[i] == s[i + 1]);
        }
        match s[0] {
            EntryView::Dir(d2) => {
                if d2.path == target {
                    assert(entry_wf(s[0]));
                } else if is_prefix(d2.path, target) {
                    assert(entry_wf(s[0]));
                    lemma_spec_lookup_seq_wf(d2.content, target);
                } else {
                    lemma_spec_lookup_seq_wf(t, target);
                }
            },
            _ => {
                lemma_spec_lookup_seq_wf(t, target);
            },
        }
    }
}

/// Sum of the sizes of all transitively contained file entries.
pub open spec fn total_file_size(v: EntryView) -> int
    decreases v,
{
    match v {
        EntryView::File(f) => f.size as int,
        EntryView::Error(_) => 0,
        EntryView::Dir(d) => total_file_size_seq(d.content),
    }
}

pub open spec fn total_file_size_seq(s: Seq<EntryView>) -> int
    decreases s,
{
    if s.len() == 0 {
        0
    } else {
        total_file_size(s[0]) + total_file_size_seq(s.drop_first())
    }
}

/// Number of all transitively contained file and error leaves.
pub open spec fn total_leaf_count(v: EntryView) -> int
    decreases v,
{
    match v {
        EntryView::File(_) => 1,
        EntryView::Error(_) => 1,
        EntryView::Dir(d) => total_leaf_count_seq(d.content),
    }
}

pub open spec fn total_leaf_count_seq(s: Seq<EntryView>) -> int
    decreases s,
{
    if s.len() == 0 {
        0
    } else {
        total_leaf_count(s[0]) + total_leaf_count_seq(s.drop_first())
    }
}

/// In a well-formed tree the stored aggregates of every node equal the sums
/// over all its transitive descendants: a directory's `size` is the sum of
/// the sizes of all files below it, and its `number_of_files` the number of
/// file and error leaves below it.  This holds for every subtree, since
/// `entry_wf` holds for every subtree of a well-formed tree.
pub proof fn lemma_wf_aggregates(v: EntryView)
    requires
        entry_wf(v),
    ensures
        view_size(v) == total_file_size(v),
        view_count(v) == total_leaf_count(v),
    decreases v,
{
    match v {
        EntryView::Dir(d) => {
            lemma_wf_aggregates_seq(d.content);
        },
        _ => {},
    }
}

proof fn lemma_wf_aggregates_seq(s: Seq<EntryView>)
    requires
        forall|i: int| 0 <= i < s.len() ==> entry_wf(#[trigger] s[i]),
    ensures
        sum_sizes(s) == total_file_size_seq(s),
        sum_counts(s) == total_leaf_count_seq(s),
    decreases s,
{
    if s.len() > 0 {
        assert(entry_wf(s[0]));
        lemma_wf_aggregates(s[0]);
        assert forall|i: int| 0 <= i < s.drop_first().len() implies entry_wf(
            #[trigger] s.drop_first()[i],
        ) by {
            assert(s.drop_first()[i] == s[i + 1]);
        }
        lemma_wf_aggregates_seq(s.drop_first());
    }
}

/// Depth of an entry: leaves have depth zero, a directory is one deeper
/// than its deepest child.
pub open spec fn entry_depth(v: EntryView) -> int
    decreases v,
{
    match v {
        EntryView::Dir(d) => 1 + children_depth(d.content),
        _ => 0,
    }
}

pub open spec fn children_depth(s: Seq<EntryView>) -> int
    decreases s,
{
    if s.len() == 0 {
        0
    } else if entry_depth(s[0]) >= children_depth(s.drop_first()) {
        entry_depth(s[0])
    } else {
        children_depth(s.drop_first())
    }
}

proof fn lemma_entry_depth_nonneg(v: EntryView)
    ensures
        entry_depth(v) >= 0,
    decreases v,
{
    match v {
        EntryView::Dir(d) => {
            lemma_children_depth_nonneg(d.content);
        },
        _ => {},
    }
}

proof fn lemma_children_depth_nonneg(s: Seq<EntryView>)
    ensures
        children_depth(s) >= 0,
    decreases s,
{
    if s.len() > 0 {
        lemma_entry_depth_nonneg(s[0]);
        lemma_children_depth_nonneg(s.drop_first());
    }
}

proof fn lemma_children_depth_ge(s: Seq<EntryView>, i: int)
    requires
        0 <= i < s.len(),
    ensures
        children_depth(s) >= entry_depth(s[i]),
    decreases s,
{
    if i > 0 {
        lemma_children_depth_ge(s.drop_first(), i - 1);
        assert(s.drop_first()[i - 1] == s[i]);
    }
}

/// Flattening a directory to depth zero keeps its path and aggregates and
/// empties its listing.
pub proof fn lemma_clone_flat_zero(d: DirEntryView)
    ensures
        spec_clone_flat(d, 0).path == d.path,
        spec_clone_flat(d, 0).size == d.size,
        spec_clone_flat(d, 0).number_of_files == d.number_of_files,
        spec_clone_flat(d, 0).content.len() == 0,
{
}

/// Flattening with at least the tree's depth changes nothing.
pub proof fn lemma_clone_flat_identity(d: DirEntryView, levels: int)
    requires
        levels >= 1 + children_depth(d.content),
    ensures
        spec_clone_flat(d, levels) == d,
    decreases d,
{
    lemma_children_depth_nonneg(d.content);
    lemma_flatten_children_index(d.content, levels - 1);
    assert forall|i: int| 0 <= i < d.content.len() implies spec_flatten_entry(
        #[trigger] d.content[i],
        levels - 1,
    ) == d.content[i] by {
        lemma_children_depth_ge(d.content, i);
        lemma_flatten_entry_identity(d.content[i], levels - 1);
    }
    assert(spec_flatten_children(d.content, levels - 1) =~= d.content);
}

proof fn lemma_flatten_entry_identity(v: EntryView, levels: int)
    requires
        levels >= entry_depth(v),
    ensures
        spec_flatten_entry(v, levels) == v,
    decreases v,
{
    match v {
        EntryView::Dir(d) => {
            lemma_children_depth_nonneg(d.content);
            lemma_flatten_children_index(d.content, levels - 1);
            assert forall|i: int| 0 <= i < d.content.len() implies spec_flatten_entry(
                #[trigger] d.content[i],
                levels - 1,
            ) == d.content[i] by {
                lemma_children_depth_ge(d.content, i);
                lemma_flatten_entry_identity(d.content[i], levels - 1);
            }
            assert(spec_flatten_children(d.content, levels - 1) =~= d.content);
        },
        _ => {},
    }
}

} // verus!
