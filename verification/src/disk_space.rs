//! Disk-usage analysis of one directory tree.
//!
//! The caller walks the filesystem and hands the analyzer a snapshot of what
//! it observed: every entry is a file with its size, a directory with its
//! listing (or the reason the listing failed), or a broken entry whose
//! metadata could not be read.  The analyzer turns the snapshot into an
//! aggregation tree bottom-up, consulting a cancellation token before
//! descending into any directory; a cancelled analysis resolves to a single
//! error entry and discards partial results.

use crate::fs_entry::{
    lemma_seq_view_index, lemma_seq_view_push, lemma_spec_lookup_wf, lemma_sum_counts_nonneg,
    lemma_sum_sizes_nonneg, seq_view, spec_clone_flat, spec_lookup, sum_counts, sum_sizes,
    dir_wf, entry_wf, DirEntry, DirEntryView, EntryView, ErrorEntry, ErrorEntryView, FileEntry,
    FileEntryView, FsEntry,
};
use vstd::prelude::*;

verus! {

/// What a traversal observed at one filesystem entry.
#[allow(inconsistent_fields)]
pub enum FsNode {
    /// A regular file and its size.
    File { path: String, size: u64 },
    /// A directory with its listing, or the reason it could not be listed.
    Dir { path: String, listing: Result<Vec<FsNode>, String> },
    /// An entry whose metadata could not be read; `path` is absent when the
    /// listing handed back an error before naming the entry.
    Broken { path: Option<String>, reason: String },
}

/// Mathematical image of an `FsNode`.
#[allow(inconsistent_fields)]
pub enum NodeView {
    File { path: Seq<char>, size: u64 },
    Dir { path: Seq<char>, listing: Result<Seq<NodeView>, Seq<char>> },
    Broken { path: Option<Seq<char>>, reason: Seq<char> },
}

/// Views of a sequence of nodes, element for element.
pub open spec fn node_seq_view(s: Seq<FsNode>) -> Seq<NodeView>
    decreases s,
{
    if s.len() == 0 {
        Seq::empty()
    } else {
        seq![s[0]@] + node_seq_view(s.drop_first())
    }
}

impl View for FsNode {
    type V = NodeView;

    open spec fn view(&self) -> NodeView
        decreases self,
    {
        match self {
            FsNode::File { path, size } => NodeView::File { path: path@, size: *size },
            FsNode::Dir { path, listing } => NodeView::Dir {
                path: path@,
                listing: match listing {
                    Ok(children) => Ok(node_seq_view(children@)),
                    Err(reason) => Err(reason@),
                },
            },
            FsNode::Broken { path, reason } => NodeView::Broken {
                path: match path {
                    Some(p) => Some(p@),
                    None => None,
                },
                reason: reason@,
            },
        }
    }
}

pub proof fn lemma_node_seq_view_index(s: Seq<FsNode>)
    ensures
        node_seq_view(s).len() == s.len(),
        forall|i: int| 0 <= i < s.len() ==> node_seq_view(s)[i] == s[i]@,
    decreases s.len(),
{
    if s.len() > 0 {
        lemma_node_seq_view_index(s.drop_first());
        let t = node_seq_view(s.drop_first());
        assert(node_seq_view(s) == seq![s[0]@] + t);
        assert(node_seq_view(s).len() == 1 + t.len());
        assert forall|i: int| 0 <= i < s.len() implies node_seq_view(s)[i] == s[i]@ by {
            if i == 0 {
                assert((seq![s[0]@] + t)[0] == s[0]@);
            } else {
                assert((seq![s[0]@] + t)[i] == t[i - 1]);
                assert(s.drop_first()[i - 1] == s[i]);
            }
        }
    }
}

/// The entry an observed node resolves to.  A broken entry or an unreadable
/// directory becomes an error leaf; while the token is cancelled every
/// directory resolves to an "Aborted" error, and nothing below it is
/// looked at; otherwise a directory aggregates its children bottom-up.
pub open spec fn spec_analyse(n: NodeView, aborted: bool) -> EntryView
    decreases n,
{
    match n {
        NodeView::Broken { path, reason } => EntryView::Error(
            ErrorEntryView { path, size: None, content: None, reason },
        ),
        NodeView::File { path, size } => EntryView::File(FileEntryView { path, size }),
        NodeView::Dir { path, listing } => {
            if aborted {
                EntryView::Error(
                    ErrorEntryView {
                        path: Some(path),
                        size: None,
                        content: None,
                        reason: "Aborted"@,
                    },
                )
            } else {
                match listing {
                    Err(reason) => EntryView::Error(
                        ErrorEntryView { path: Some(path), size: None, content: None, reason },
                    ),
                    Ok(children) => EntryView::Dir(
                        DirEntryView {
                            path,
                            size: sum_sizes(spec_analyse_seq(children, false)) as u64,
                            number_of_files: sum_counts(spec_analyse_seq(children, false)) as u64,
                            content: spec_analyse_seq(children, false),
                        },
                    ),
                }
            }
        },
    }
}

pub open spec fn spec_analyse_seq(s: Seq<NodeView>, aborted: bool) -> Seq<EntryView>
    decreases s,
{
    if s.len() == 0 {
        Seq::empty()
    } else {
        seq![spec_analyse(s[0], aborted)] + spec_analyse_seq(s.drop_first(), aborted)
    }
}

pub proof fn lemma_spec_analyse_seq_index(s: Seq<NodeView>, aborted: bool)
    ensures
        spec_analyse_seq(s, aborted).len() == s.len(),
        forall|i: int|
            0 <= i < s.len() ==> spec_analyse_seq(s, aborted)[i] == spec_analyse(s[i], aborted),
    decreases s.len(),
{
    if s.len() > 0 {
        lemma_spec_analyse_seq_index(s.drop_first(), aborted);
        let t = spec_analyse_seq(s.drop_first(), aborted);
        assert(spec_analyse_seq(s, aborted) == seq![spec_analyse(s[0], aborted)] + t);
        assert forall|i: int| 0 <= i < s.len() implies spec_analyse_seq(s, aborted)[i]
            == spec_analyse(s[i], aborted) by {
            if i == 0 {
                assert((seq![spec_analyse(s[0], aborted)] + t)[0] == spec_analyse(s[0], aborted));
            } else {
                assert((seq![spec_analyse(s[0], aborted)] + t)[i] == t[i - 1]);
                assert(s.drop_first()[i - 1] == s[i]);
            }
        }
    }
}

/// The aggregates of every directory of the snapshot fit in the machine
/// word they are stored in.
pub open spec fn node_fits(n: NodeView) -> bool
    decreases n,
{
    match n {
        NodeView::Dir { listing: Ok(children), .. } => {
            &&& sum_sizes(spec_analyse_seq(children, false)) <= u64::MAX
            &&& sum_counts(spec_analyse_seq(children, false)) <= u64::MAX
            &&& forall|i: int| 0 <= i < children.len() ==> node_fits(#[trigger] children[i])
        },
        _ => true,
    }
}

/// Cancellation token for one analysis request, polled at every directory
/// boundary.
pub struct ShouldAbort {
    pub aborted: bool,
}

impl ShouldAbort {
    pub fn new() -> (t: ShouldAbort)
        ensures
            !t.aborted,
    {
        ShouldAbort { aborted: false }
    }

    pub fn is_set(&self) -> (b: bool)
        ensures
            b == self.aborted,
    {
        self.aborted
    }

    pub fn set(&mut self)
        ensures
            final(self).aborted,
    {
        self.aborted = true;
    }
}

/// Requests cancellation of the analysis that polls this token.
pub fn abort(should_abort: &mut ShouldAbort)
    ensures
        final(should_abort).aborted,
{
    should_abort.set();
}

/// Resolves one observed child into its entry.
pub fn analyse_entry(node: &FsNode, should_abort: &ShouldAbort) -> (r: FsEntry)
    requires
        node_fits(node@),
    ensures
        r@ == spec_analyse(node@, should_abort.aborted),
        entry_wf(r@),
    decreases *node, 1int,
{
    match node {
        FsNode::File { path, size } => FsEntry::File(FileEntry { path: path.clone(), size: *size }),
        FsNode::Broken { path, reason } => FsEntry::Error(
            ErrorEntry {
                path: match path {
                    Some(p) => Some(p.clone()),
                    None => None,
                },
                size: None,
                content: None,
                reason: reason.clone(),
            },
        ),
        FsNode::Dir { .. } => analyze_directory_recursive(node, should_abort),
    }
}

/// Resolves an observed directory into its entry: an "Aborted" error when
/// the token is cancelled, an error leaf when the listing failed, otherwise
/// the aggregation over its children.
#[verifier::loop_isolation(false)]
pub fn analyze_directory_recursive(node: &FsNode, should_abort: &ShouldAbort) -> (r: FsEntry)
    requires
        node@ is Dir,
        node_fits(node@),
    ensures
        r@ == spec_analyse(node@, should_abort.aborted),
        entry_wf(r@),
        should_abort.aborted ==> (r@ matches EntryView::Error(e) && e.reason == "Aborted"@),
    decreases *node, 0int,
{
    match node {
        FsNode::Dir { path, listing } => {
            if should_abort.is_set() {
                return FsEntry::Error(
                    ErrorEntry {
                        path: Some(path.clone()),
                        size: None,
                        content: None,
                        reason: "Aborted".to_owned(),
                    },
                );
            }
            match listing {
                Err(reason) => FsEntry::Error(
                    ErrorEntry {
                        path: Some(path.clone()),
                        size: None,
                        content: None,
                        reason: reason.clone(),
                    },
                ),
                Ok(children) => {
                    let ghost cvs = node_seq_view(children@);
                    proof {
                        lemma_node_seq_view_index(children@);
                        lemma_spec_analyse_seq_index(cvs, false);
                    }
                    let mut entries: Vec<FsEntry> = Vec::new();
                    proof {
                        assert(seq_view(entries@) =~= Seq::<EntryView>::empty());
                        assert(cvs.take(0) =~= Seq::<NodeView>::empty());
                        assert(spec_analyse_seq(cvs.take(0), false) =~= Seq::<EntryView>::empty());
                    }
                    let mut i: usize = 0;
                    while i < children.len()
                        invariant
                            i <= children.len(),
                            cvs == node_seq_view(children@),
                            cvs.len() == children@.len(),
                            forall|j: int| 0 <= j < children@.len() ==> cvs[j] == children@[j]@,
                            node@ is Dir,
                            node_fits(node@),
                            node@->listing == Ok::<Seq<NodeView>, Seq<char>>(cvs),
                            !should_abort.aborted,
                            seq_view(entries@) == spec_analyse_seq(cvs.take(i as int), false),
                            forall|j: int|
                                0 <= j < seq_view(entries@).len() ==> entry_wf(
                                    #[trigger] seq_view(entries@)[j],
                                ),
                        decreases children.len() - i,
                    {
                        let ghost prev = entries@;
                        proof {
                            assert(node_fits(cvs[i as int]));
                            assert((*node)->listing == *listing);
                            assert(*listing == Ok::<Vec<FsNode>, String>(*children));
                            assert(decreases_to!(*node => (*node)->listing));
                            assert(decreases_to!((*node)->listing => (*node)->listing->Ok_0));
                            assert(decreases_to!((*node)->listing->Ok_0 => (*node)->listing->Ok_0@));
                            assert(decreases_to!((*node)->listing->Ok_0@ => (*node)->listing->Ok_0@[i as int]));
                            assert(decreases_to!(*node => children@[i as int]));
                        }
                        let e = analyse_entry(&children[i], should_abort);
                        proof {
                            lemma_seq_view_push(prev, e);
                            lemma_spec_analyse_seq_index(cvs.take(i as int), false);
                            lemma_spec_analyse_seq_index(cvs.take(i as int + 1), false);
                            assert(seq_view(prev).push(e@) =~= spec_analyse_seq(
                                cvs.take(i as int + 1),
                                false,
                            ));
                        }
                        entries.push(e);
                        i = i + 1;
                    }
                    proof {
                        assert(cvs.take(cvs.len() as int) =~= cvs);
                        lemma_sum_sizes_nonneg(seq_view(entries@));
                        lemma_sum_counts_nonneg(seq_view(entries@));
                    }
                    FsEntry::Dir(DirEntry::new(path.clone(), entries))
                },
            }
        },
        _ => {
            proof {
                assert(false);
            }
            FsEntry::Error(
                ErrorEntry { path: None, size: None, content: None, reason: "".to_owned() },
            )
        },
    }
}

/// Payload of one progress notification: the directory being entered and
/// the number of files found so far.
pub struct ProgressPayload {
    pub path: String,
    pub number_of_files_found: u64,
}

/// Result of one analysis request: the (depth-limited) tree and how long
/// the traversal took, in milliseconds.
pub struct AnalyseResult {
    pub result: FsEntry,
    pub duration: u64,
}

/// The single cached result of the most recent successful analysis.
pub struct SavedAnalysisResult {
    pub saved: Option<FsEntry>,
}

impl SavedAnalysisResult {
    /// A cached tree, if present, is well-formed.
    pub open spec fn wf(self) -> bool {
        match self.saved {
            Some(e) => entry_wf(e@),
            None => true,
        }
    }

    pub fn new() -> (s: SavedAnalysisResult)
        ensures
            s.saved is None,
            s.wf(),
    {
        SavedAnalysisResult { saved: None }
    }
}

/// The entry `analyze_disk_usage` returns: a cancelled request or a failed
/// root listing resolve to the error entry the analysis gives them; a
/// successful analysis is handed out flattened to two levels.
pub open spec fn spec_disk_usage_outcome(root: NodeView, aborted: bool) -> EntryView {
    if aborted {
        spec_analyse(root, true)
    } else {
        match spec_analyse(root, false) {
            EntryView::Dir(d) => EntryView::Dir(spec_clone_flat(d, 2)),
            other => other,
        }
    }
}

/// Analyzes a snapshot of the tree under `root`.  A cancelled request
/// resolves to a single "Aborted" error entry and leaves the cache alone;
/// so does a root whose listing failed.  Otherwise the full tree replaces
/// the cached result and a copy flattened to two levels is returned, with
/// the wall-clock duration the caller measured for the traversal.
pub fn analyze_disk_usage(
    root: &FsNode,
    should_abort: &ShouldAbort,
    saved_result: &mut SavedAnalysisResult,
    duration_ms: u64,
) -> (r: AnalyseResult)
    requires
        root@ is Dir,
        node_fits(root@),
        old(saved_result).wf(),
    ensures
        r.duration == duration_ms,
        final(saved_result).wf(),
        r.result@ == spec_disk_usage_outcome(root@, should_abort.aborted),
        should_abort.aborted ==> (r.result@ matches EntryView::Error(e) && e.reason
            == "Aborted"@),
        (!should_abort.aborted && spec_analyse(root@, false) is Dir)
            ==> (final(saved_result).saved matches Some(t) && t@ == spec_analyse(root@, false)),
        (should_abort.aborted || !(spec_analyse(root@, false) is Dir)) ==> *final(saved_result)
            == *old(saved_result),
{
    let result = analyze_directory_recursive(root, should_abort);
    match result {
        FsEntry::Dir(ref d) => {
            let flat = d.clone_flat(2);
            saved_result.saved = Some(result);
            AnalyseResult { result: FsEntry::Dir(flat), duration: duration_ms }
        },
        _ => AnalyseResult { result, duration: duration_ms },
    }
}

/// Image of `load_nested_directory`: only a cached directory tree can be
/// searched; a hit is handed out flattened to two levels.
pub open spec fn spec_load_nested(saved: Option<EntryView>, target: Seq<char>) -> Option<
    EntryView,
> {
    match saved {
        Some(EntryView::Dir(d)) => match spec_lookup(d, target) {
            Some(d2) => Some(EntryView::Dir(spec_clone_flat(d2, 2))),
            None => None,
        },
        _ => None,
    }
}

/// Serves a depth-limited view of the subtree at `path` from the cached
/// tree of the most recent analysis, without another traversal.
pub fn load_nested_directory(path: String, saved_result: &SavedAnalysisResult) -> (r: Option<
    FsEntry,
>)
    requires
        saved_result.wf(),
    ensures
        match r {
            Some(e) => spec_load_nested(
                match saved_result.saved {
                    Some(t) => Some(t@),
                    None => None,
                },
                path@,
            ) == Some(e@),
            None => spec_load_nested(
                match saved_result.saved {
                    Some(t) => Some(t@),
                    None => None,
                },
                path@,
            ) is None,
        },
{
    match &saved_result.saved {
        Some(FsEntry::Dir(d)) => {
            match d.get_entry_by_path(path) {
                Some(d2) => {
                    proof {
                        lemma_spec_lookup_wf(d@, path@);
                    }
                    Some(FsEntry::Dir(d2.clone_flat(2)))
                },
                None => None,
            }
        },
        _ => None,
    }
}

} // verus!
