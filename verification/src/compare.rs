//! Comparison of two directory trees.
//!
//! The caller walks both roots and probes the entries; everything the
//! comparison decides — relative-path sets, set differences, collapsing,
//! classification of each common path, and the deterministic order of the
//! findings — is computed here over those observations.

use crate::paths::{
    chars_le, lemma_chars_le_reflexive, lemma_chars_le_total, lemma_chars_le_transitive,
    lemma_chars_le_antisymmetric, path_le, sep, seq_views, spec_collapse, spec_strip_root,
    remove_subdirectories, str_le, strip_root,
};
use vstd::multiset::Multiset;
use vstd::prelude::*;
use vstd::relations::{sorted_by, total_ordering};
use vstd::seq_lib::{lemma_multiset_commutative, lemma_sorted_unique};

verus! {

/// The kind of filesystem entry observed at a path.
#[derive(Clone, Copy, Debug, PartialEq, Eq, Structural)]
pub enum EntryType {
    Directory,
    File,
    Unknown,
}

/// A path and the message of the failure observed there.
#[derive(Debug)]
pub struct ErrorInfo {
    pub path: String,
    pub message: String,
}

/// A path a finding is about.
#[derive(Debug)]
pub struct EntryInfo {
    pub path: String,
}

/// A path whose entry has a different kind in each root.
#[derive(Debug)]
pub struct EntryTypeMismatch {
    pub path: String,
    pub type_in_dir_a: EntryType,
    pub type_in_dir_b: EntryType,
}

/// One reported difference between the two trees.
#[derive(Debug)]
pub enum CompareResult {
    CouldNotReadDirectory(ErrorInfo),
    CouldNotCalculateHash(ErrorInfo),
    MissingInDirA(EntryInfo),
    MissingInDirB(EntryInfo),
    DifferingContent(EntryInfo),
    TypeMismatch(EntryTypeMismatch),
}

/// Mathematical image of an `ErrorInfo`.
pub struct ErrorInfoView {
    pub path: Seq<char>,
    pub message: Seq<char>,
}

/// Mathematical image of an `EntryInfo`.
pub struct EntryInfoView {
    pub path: Seq<char>,
}

/// Mathematical image of an `EntryTypeMismatch`.
pub struct MismatchView {
    pub path: Seq<char>,
    pub type_in_dir_a: EntryType,
    pub type_in_dir_b: EntryType,
}

/// Mathematical image of a `CompareResult`.
pub enum FindingView {
    CouldNotReadDirectory(ErrorInfoView),
    CouldNotCalculateHash(ErrorInfoView),
    MissingInDirA(EntryInfoView),
    MissingInDirB(EntryInfoView),
    DifferingContent(EntryInfoView),
    TypeMismatch(MismatchView),
}

impl View for ErrorInfo {
    type V = ErrorInfoView;

    open spec fn view(&self) -> ErrorInfoView {
        ErrorInfoView { path: self.path@, message: self.message@ }
    }
}

impl View for EntryInfo {
    type V = EntryInfoView;

    open spec fn view(&self) -> EntryInfoView {
        EntryInfoView { path: self.path@ }
    }
}

impl View for EntryTypeMismatch {
    type V = MismatchView;

    open spec fn view(&self) -> MismatchView {
        MismatchView {
            path: self.path@,
            type_in_dir_a: self.type_in_dir_a,
            type_in_dir_b: self.type_in_dir_b,
        }
    }
}

impl View for CompareResult {
    type V = FindingView;

    open spec fn view(&self) -> FindingView {
        match self {
            CompareResult::CouldNotReadDirectory(e) => FindingView::CouldNotReadDirectory(e@),
            CompareResult::CouldNotCalculateHash(e) => FindingView::CouldNotCalculateHash(e@),
            CompareResult::MissingInDirA(e) => FindingView::MissingInDirA(e@),
            CompareResult::MissingInDirB(e) => FindingView::MissingInDirB(e@),
            CompareResult::DifferingContent(e) => FindingView::DifferingContent(e@),
            CompareResult::TypeMismatch(m) => FindingView::TypeMismatch(m@),
        }
    }
}

impl PartialEq for ErrorInfo {
    fn eq(&self, other: &ErrorInfo) -> bool {
        self.path == other.path && self.message == other.message
    }
}

impl vstd::std_specs::cmp::PartialEqSpecImpl for ErrorInfo {
    open spec fn obeys_eq_spec() -> bool {
        true
    }

    open spec fn eq_spec(&self, other: &ErrorInfo) -> bool {
        self@ == other@
    }
}

impl PartialEq for EntryInfo {
    fn eq(&self, other: &EntryInfo) -> bool {
        self.path == other.path
    }
}

impl vstd::std_specs::cmp::PartialEqSpecImpl for EntryInfo {
    open spec fn obeys_eq_spec() -> bool {
        true
    }

    open spec fn eq_spec(&self, other: &EntryInfo) -> bool {
        self@ == other@
    }
}

impl PartialEq for EntryTypeMismatch {
    fn eq(&self, other: &EntryTypeMismatch) -> bool {
        self.path == other.path && self.type_in_dir_a == other.type_in_dir_a
            && self.type_in_dir_b == other.type_in_dir_b
    }
}

impl vstd::std_specs::cmp::PartialEqSpecImpl for EntryTypeMismatch {
    open spec fn obeys_eq_spec() -> bool {
        true
    }

    open spec fn eq_spec(&self, other: &EntryTypeMismatch) -> bool {
        self@ == other@
    }
}

impl PartialEq for CompareResult {
    fn eq(&self, other: &CompareResult) -> bool {
        match (self, other) {
            (CompareResult::CouldNotReadDirectory(a), CompareResult::CouldNotReadDirectory(b)) => a
                == b,
            (CompareResult::CouldNotCalculateHash(a), CompareResult::CouldNotCalculateHash(b)) => a
                == b,
            (CompareResult::MissingInDirA(a), CompareResult::MissingInDirA(b)) => a == b,
            (CompareResult::MissingInDirB(a), CompareResult::MissingInDirB(b)) => a == b,
            (CompareResult::DifferingContent(a), CompareResult::DifferingContent(b)) => a == b,
            (CompareResult::TypeMismatch(a), CompareResult::TypeMismatch(b)) => a == b,
            _ => false,
        }
    }
}

impl vstd::std_specs::cmp::PartialEqSpecImpl for CompareResult {
    open spec fn obeys_eq_spec() -> bool {
        true
    }

    open spec fn eq_spec(&self, other: &CompareResult) -> bool {
        self@ == other@
    }
}

/// Position of an entry kind in the deterministic order.
pub open spec fn type_rank(t: EntryType) -> int {
    match t {
        EntryType::Directory => 0,
        EntryType::File => 1,
        EntryType::Unknown => 2,
    }
}

/// Position of a finding kind in the deterministic order.
pub open spec fn finding_rank(f: FindingView) -> int {
    match f {
        FindingView::CouldNotReadDirectory(_) => 0,
        FindingView::CouldNotCalculateHash(_) => 1,
        FindingView::MissingInDirA(_) => 2,
        FindingView::MissingInDirB(_) => 3,
        FindingView::DifferingContent(_) => 4,
        FindingView::TypeMismatch(_) => 5,
    }
}

/// The deterministic total order on findings: by kind, then by the fields
/// of the kind, strings lexicographically.
pub open spec fn finding_le(a: FindingView, b: FindingView) -> bool {
    if finding_rank(a) != finding_rank(b) {
        finding_rank(a) < finding_rank(b)
    } else {
        match (a, b) {
            (FindingView::CouldNotReadDirectory(x), FindingView::CouldNotReadDirectory(y)) => (
            if x.path != y.path {
                chars_le(x.path, y.path)
            } else {
                chars_le(x.message, y.message)
            }),
            (FindingView::CouldNotCalculateHash(x), FindingView::CouldNotCalculateHash(y)) => (
            if x.path != y.path {
                chars_le(x.path, y.path)
            } else {
                chars_le(x.message, y.message)
            }),
            (FindingView::MissingInDirA(x), FindingView::MissingInDirA(y)) => chars_le(
                x.path,
                y.path,
            ),
            (FindingView::MissingInDirB(x), FindingView::MissingInDirB(y)) => chars_le(
                x.path,
                y.path,
            ),
            (FindingView::DifferingContent(x), FindingView::DifferingContent(y)) => chars_le(
                x.path,
                y.path,
            ),
            (FindingView::TypeMismatch(x), FindingView::TypeMismatch(y)) => (if x.path != y.path {
                chars_le(x.path, y.path)
            } else if x.type_in_dir_a != y.type_in_dir_a {
                type_rank(x.type_in_dir_a) < type_rank(y.type_in_dir_a)
            } else {
                type_rank(x.type_in_dir_b) <= type_rank(y.type_in_dir_b)
            }),
            _ => false,
        }
    }
}

/// `finding_le` as a first-class relation, for `sorted_by`.
pub open spec fn finding_order() -> spec_fn(FindingView, FindingView) -> bool {
    |a: FindingView, b: FindingView| finding_le(a, b)
}

/// The deterministic order on findings is a total order.
pub proof fn lemma_finding_order_total()
    ensures
        total_ordering(finding_order()),
{
    let le = finding_order();
    assert forall|a: FindingView| #[trigger] le(a, a) by {
        lemma_finding_le_reflexive(a);
    }
    assert forall|a: FindingView, b: FindingView| #[trigger] le(a, b) && #[trigger] le(b, a)
        implies a == b by {
        lemma_finding_le_antisymmetric(a, b);
    }
    assert forall|a: FindingView, b: FindingView, c: FindingView|
        #[trigger] le(a, b) && #[trigger] le(b, c) implies le(a, c) by {
        lemma_finding_le_transitive(a, b, c);
    }
    assert forall|a: FindingView, b: FindingView| #[trigger] le(a, b) || #[trigger] le(b, a) by {
        lemma_finding_le_total(a, b);
    }
}

proof fn lemma_finding_le_reflexive(a: FindingView)
    ensures
        finding_le(a, a),
{
    match a {
        FindingView::CouldNotReadDirectory(x) => lemma_chars_le_reflexive(x.message),
        FindingView::CouldNotCalculateHash(x) => lemma_chars_le_reflexive(x.message),
        FindingView::MissingInDirA(x) => lemma_chars_le_reflexive(x.path),
        FindingView::MissingInDirB(x) => lemma_chars_le_reflexive(x.path),
        FindingView::DifferingContent(x) => lemma_chars_le_reflexive(x.path),
        FindingView::TypeMismatch(x) => lemma_chars_le_reflexive(x.path),
    }
}

proof fn lemma_finding_le_total(a: FindingView, b: FindingView)
    ensures
        finding_le(a, b) || finding_le(b, a),
{
    if finding_rank(a) == finding_rank(b) {
        match (a, b) {
            (FindingView::CouldNotReadDirectory(x), FindingView::CouldNotReadDirectory(y)) => {
                lemma_chars_le_total(x.path, y.path);
                lemma_chars_le_total(x.message, y.message);
            },
            (FindingView::CouldNotCalculateHash(x), FindingView::CouldNotCalculateHash(y)) => {
                lemma_chars_le_total(x.path, y.path);
                lemma_chars_le_total(x.message, y.message);
            },
            (FindingView::MissingInDirA(x), FindingView::MissingInDirA(y)) => {
                lemma_chars_le_total(x.path, y.path);
            },
            (FindingView::MissingInDirB(x), FindingView::MissingInDirB(y)) => {
                lemma_chars_le_total(x.path, y.path);
            },
            (FindingView::DifferingContent(x), FindingView::DifferingContent(y)) => {
                lemma_chars_le_total(x.path, y.path);
            },
            (FindingView::TypeMismatch(x), FindingView::TypeMismatch(y)) => {
                lemma_chars_le_total(x.path, y.path);
            },
            _ => {},
        }
    }
}

proof fn lemma_finding_le_antisymmetric(a: FindingView, b: FindingView)
    requires
        finding_le(a, b),
        finding_le(b, a),
    ensures
        a == b,
{
    match (a, b) {
        (FindingView::CouldNotReadDirectory(x), FindingView::CouldNotReadDirectory(y)) => {
            if x.path != y.path {
                lemma_chars_le_antisymmetric(x.path, y.path);
            } else {
                lemma_chars_le_antisymmetric(x.message, y.message);
            }
        },
        (FindingView::CouldNotCalculateHash(x), FindingView::CouldNotCalculateHash(y)) => {
            if x.path != y.path {
                lemma_chars_le_antisymmetric(x.path, y.path);
            } else {
                lemma_chars_le_antisymmetric(x.message, y.message);
            }
        },
        (FindingView::MissingInDirA(x), FindingView::MissingInDirA(y)) => {
            lemma_chars_le_antisymmetric(x.path, y.path);
        },
        (FindingView::MissingInDirB(x), FindingView::MissingInDirB(y)) => {
            lemma_chars_le_antisymmetric(x.path, y.path);
        },
        (FindingView::DifferingContent(x), FindingView::DifferingContent(y)) => {
            lemma_chars_le_antisymmetric(x.path, y.path);
        },
        (FindingView::TypeMismatch(x), FindingView::TypeMismatch(y)) => {
            if x.path != y.path {
                lemma_chars_le_antisymmetric(x.path, y.path);
            }
        },
        _ => {},
    }
}

proof fn lemma_finding_le_transitive(a: FindingView, b: FindingView, c: FindingView)
    requires
        finding_le(a, b),
        finding_le(b, c),
    ensures
        finding_le(a, c),
{
    if finding_rank(a) == finding_rank(b) && finding_rank(b) == finding_rank(c) {
        match (a, b, c) {
            (
                FindingView::CouldNotReadDirectory(x),
                FindingView::CouldNotReadDirectory(y),
                FindingView::CouldNotReadDirectory(z),
            ) => {
                lemma_error_info_le_transitive(x, y, z);
            },
            (
                FindingView::CouldNotCalculateHash(x),
                FindingView::CouldNotCalculateHash(y),
                FindingView::CouldNotCalculateHash(z),
            ) => {
                lemma_error_info_le_transitive(x, y, z);
            },
            (
                FindingView::MissingInDirA(x),
                FindingView::MissingInDirA(y),
                FindingView::MissingInDirA(z),
            ) => {
                lemma_chars_le_transitive(x.path, y.path, z.path);
            },
            (
                FindingView::MissingInDirB(x),
                FindingView::MissingInDirB(y),
                FindingView::MissingInDirB(z),
            ) => {
                lemma_chars_le_transitive(x.path, y.path, z.path);
            },
            (
                FindingView::DifferingContent(x),
                FindingView::DifferingContent(y),
                FindingView::DifferingContent(z),
            ) => {
                lemma_chars_le_transitive(x.path, y.path, z.path);
            },
            (
                FindingView::TypeMismatch(x),
                FindingView::TypeMismatch(y),
                FindingView::TypeMismatch(z),
            ) => {
                if x.path == y.path && y.path == z.path {
                } else if x.path != y.path && y.path != z.path {
                    lemma_chars_le_transitive(x.path, y.path, z.path);
                    if x.path == z.path {
                        lemma_chars_le_antisymmetric(x.path, y.path);
                    }
                }
            },
            _ => {},
        }
    }
}

proof fn lemma_error_info_le_transitive(x: ErrorInfoView, y: ErrorInfoView, z: ErrorInfoView)
    requires
        if x.path != y.path {
            chars_le(x.path, y.path)
        } else {
            chars_le(x.message, y.message)
        },
        if y.path != z.path {
            chars_le(y.path, z.path)
        } else {
            chars_le(y.message, z.message)
        },
    ensures
        if x.path != z.path {
            chars_le(x.path, z.path)
        } else {
            chars_le(x.message, z.message)
        },
{
    if x.path == y.path && y.path == z.path {
        lemma_chars_le_transitive(x.message, y.message, z.message);
    } else if x.path != y.path && y.path != z.path {
        lemma_chars_le_transitive(x.path, y.path, z.path);
        if x.path == z.path {
            lemma_chars_le_antisymmetric(x.path, y.path);
        }
    }
}

/// The views of a sequence of findings, element for element.
pub open spec fn finding_views(s: Seq<CompareResult>) -> Seq<FindingView> {
    s.map_values(|f: CompareResult| f@)
}

fn entry_type_rank(t: &EntryType) -> (r: u8)
    ensures
        r as int == type_rank(*t),
{
    match t {
        EntryType::Directory => 0,
        EntryType::File => 1,
        EntryType::Unknown => 2,
    }
}

fn finding_rank_exec(f: &CompareResult) -> (r: u8)
    ensures
        r as int == finding_rank(f@),
{
    match f {
        CompareResult::CouldNotReadDirectory(_) => 0,
        CompareResult::CouldNotCalculateHash(_) => 1,
        CompareResult::MissingInDirA(_) => 2,
        CompareResult::MissingInDirB(_) => 3,
        CompareResult::DifferingContent(_) => 4,
        CompareResult::TypeMismatch(_) => 5,
    }
}

fn error_info_le(x: &ErrorInfo, y: &ErrorInfo) -> (r: bool)
    ensures
        r == if x@.path != y@.path {
            chars_le(x@.path, y@.path)
        } else {
            chars_le(x@.message, y@.message)
        },
{
    if !(x.path == y.path) {
        str_le(x.path.as_str(), y.path.as_str())
    } else {
        str_le(x.message.as_str(), y.message.as_str())
    }
}

/// Whether `a` comes at or before `b` in the deterministic order.
fn finding_le_exec(a: &CompareResult, b: &CompareResult) -> (r: bool)
    ensures
        r == finding_le(a@, b@),
{
    let ra = finding_rank_exec(a);
    let rb = finding_rank_exec(b);
    if ra != rb {
        return ra < rb;
    }
    match (a, b) {
        (CompareResult::CouldNotReadDirectory(x), CompareResult::CouldNotReadDirectory(y)) => {
            error_info_le(x, y)
        },
        (CompareResult::CouldNotCalculateHash(x), CompareResult::CouldNotCalculateHash(y)) => {
            error_info_le(x, y)
        },
        (CompareResult::MissingInDirA(x), CompareResult::MissingInDirA(y)) => {
            str_le(x.path.as_str(), y.path.as_str())
        },
        (CompareResult::MissingInDirB(x), CompareResult::MissingInDirB(y)) => {
            str_le(x.path.as_str(), y.path.as_str())
        },
        (CompareResult::DifferingContent(x), CompareResult::DifferingContent(y)) => {
            str_le(x.path.as_str(), y.path.as_str())
        },
        (CompareResult::TypeMismatch(x), CompareResult::TypeMismatch(y)) => {
            if !(x.path == y.path) {
                str_le(x.path.as_str(), y.path.as_str())
            } else if !(x.type_in_dir_a == y.type_in_dir_a) {
                entry_type_rank(&x.type_in_dir_a) < entry_type_rank(&y.type_in_dir_a)
            } else {
                entry_type_rank(&x.type_in_dir_b) <= entry_type_rank(&y.type_in_dir_b)
            }
        },
        _ => {
            proof {
                assert(false);
            }
            false
        },
    }
}

proof fn lemma_finding_views_insert(s: Seq<CompareResult>, j: int, x: CompareResult)
    requires
        0 <= j <= s.len(),
    ensures
        finding_views(s.insert(j, x)) == finding_views(s).insert(j, x@),
{
    assert(finding_views(s.insert(j, x)) =~= finding_views(s).insert(j, x@));
}

proof fn lemma_finding_to_multiset_insert(s: Seq<FindingView>, j: int, x: FindingView)
    requires
        0 <= j <= s.len(),
    ensures
        s.insert(j, x).to_multiset() == s.to_multiset().insert(x),
{
    broadcast use vstd::seq_lib::group_to_multiset_ensures;
    broadcast use vstd::multiset::group_multiset_axioms;

    assert(s.insert(j, x) =~= s.take(j) + (seq![x] + s.skip(j)));
    lemma_multiset_commutative(s.take(j), seq![x] + s.skip(j));
    lemma_multiset_commutative(seq![x], s.skip(j));
    lemma_multiset_commutative(s.take(j), s.skip(j));
    assert(s.take(j) + s.skip(j) =~= s);
    assert(seq![x] =~= Seq::<FindingView>::empty().push(x));
    assert(Seq::<FindingView>::empty().to_multiset() =~= Multiset::<FindingView>::empty());
    assert(seq![x].to_multiset() == Multiset::<FindingView>::empty().insert(x));
    assert(s.insert(j, x).to_multiset() =~= s.to_multiset().insert(x));
}

/// Sorts findings into the deterministic order, so repeated runs against
/// unchanged inputs give identical output.  The result is the unique
/// rearrangement of the input sorted by `finding_le`.
#[verifier::loop_isolation(false)]
pub fn sort_findings(findings: Vec<CompareResult>) -> (r: Vec<CompareResult>)
    ensures
        sorted_by(finding_views(r@), finding_order()),
        finding_views(r@).to_multiset() == finding_views(findings@).to_multiset(),
        finding_views(r@) == finding_views(findings@).sort_by(finding_order()),
{
    broadcast use vstd::seq_lib::group_to_multiset_ensures;
    broadcast use vstd::multiset::group_multiset_axioms;

    let ghost all = finding_views(findings@);
    let mut v = findings;
    let mut r: Vec<CompareResult> = Vec::new();
    proof {
        assert(finding_views(r@) =~= Seq::<FindingView>::empty());
        assert(Seq::<FindingView>::empty().to_multiset() =~= Multiset::<FindingView>::empty());
        assert(finding_views(r@).to_multiset().add(finding_views(v@).to_multiset())
            =~= all.to_multiset());
    }
    while v.len() > 0
        invariant
            sorted_by(finding_views(r@), finding_order()),
            finding_views(r@).to_multiset().add(finding_views(v@).to_multiset())
                == all.to_multiset(),
        decreases v.len(),
    {
        let ghost old_v = v@;
        let x = v.remove(0);
        proof {
            broadcast use vstd::seq_lib::group_to_multiset_ensures;
            broadcast use vstd::multiset::group_multiset_axioms;

            assert(finding_views(old_v.remove(0)) =~= finding_views(old_v).remove(0));
            assert(finding_views(old_v).remove(0).to_multiset() =~= finding_views(
                old_v,
            ).to_multiset().remove(finding_views(old_v)[0]));
            assert(finding_views(old_v)[0] == x@);
            assert(finding_views(old_v).contains(x@));
        }
        let ghost ov = finding_views(r@);
        let ghost old_r = r@;
        let mut j: usize = 0;
        while j < r.len() && finding_le_exec(&r[j], &x)
            invariant
                j <= r.len(),
                r@ == old_r,
                ov == finding_views(r@),
                forall|k: int| 0 <= k < j ==> finding_le(ov[k], x@),
            decreases r.len() - j,
        {
            proof {
                assert(ov[j as int] == r@[j as int]@);
            }
            j = j + 1;
        }
        proof {
            assert forall|a: int, b: int| 0 <= a < b < ov.len() implies finding_le(
                ov[a],
                ov[b],
            ) by {
                assert(finding_order()(ov[a], ov[b]));
            }
            if (j as int) < ov.len() {
                lemma_finding_le_total(ov[j as int], x@);
            }
            let nv = ov.insert(j as int, x@);
            assert forall|p: int, q: int| 0 <= p < q < nv.len() implies finding_order()(
                nv[p],
                nv[q],
            ) by {
                let vp = if p < j { ov[p] } else if p == j { x@ } else { ov[p - 1] };
                let vq = if q < j { ov[q] } else if q == j { x@ } else { ov[q - 1] };
                assert(nv[p] == vp);
                assert(nv[q] == vq);
                if q < j as int {
                } else if p < j && q == j {
                    assert(finding_le(ov[p], x@));
                } else if p == j {
                    assert(finding_le(x@, ov[j as int]));
                    if q > j + 1 {
                        lemma_finding_le_transitive(x@, ov[j as int], ov[q - 1]);
                    }
                } else if p < j && q > j {
                    assert(finding_le(ov[p], ov[q - 1]));
                } else {
                    assert(p > j);
                    assert(finding_le(ov[p - 1], ov[q - 1]));
                }
                assert(finding_le(vp, vq));
            }
            lemma_finding_views_insert(r@, j as int, x);
            lemma_finding_to_multiset_insert(ov, j as int, x@);
        }
        r.insert(j, x);
        proof {
            broadcast use vstd::seq_lib::group_to_multiset_ensures;
            broadcast use vstd::multiset::group_multiset_axioms;

            assert(finding_views(v@).to_multiset() == finding_views(old_v).to_multiset().remove(
                x@,
            ));
            assert(finding_views(r@).to_multiset() == ov.to_multiset().insert(x@));
            assert(finding_views(old_v).to_multiset().count(x@) > 0);
            assert(finding_views(r@).to_multiset().add(finding_views(v@).to_multiset())
                =~= all.to_multiset());
        }
    }
    proof {
        assert(finding_views(v@) =~= Seq::<FindingView>::empty());
        assert(Seq::<FindingView>::empty().to_multiset() =~= Multiset::<FindingView>::empty());
        assert(finding_views(r@).to_multiset() =~= all.to_multiset());
        lemma_finding_order_total();
        all.lemma_sort_by_ensures(finding_order());
        lemma_sorted_unique(finding_views(r@), all.sort_by(finding_order()), finding_order());
    }
    r
}

/// One item a walk of a root yielded.
pub enum WalkItem {
    /// A visited entry, by its full path.
    Entry { path: String },
    /// A traversal failure: the path it was tied to (empty when the walk
    /// could not name one) and its message.
    Failure { path: String, message: String },
}

/// Mathematical image of a `WalkItem`.
pub enum WalkItemView {
    Entry { path: Seq<char> },
    Failure { path: Seq<char>, message: Seq<char> },
}

impl View for WalkItem {
    type V = WalkItemView;

    open spec fn view(&self) -> WalkItemView {
        match self {
            WalkItem::Entry { path } => WalkItemView::Entry { path: path@ },
            WalkItem::Failure { path, message } => WalkItemView::Failure {
                path: path@,
                message: message@,
            },
        }
    }
}

/// The views of a sequence of walk items, element for element.
pub open spec fn walk_views(s: Seq<WalkItem>) -> Seq<WalkItemView> {
    s.map_values(|w: WalkItem| w@)
}

/// The findings for a walk's failures, in walk order.
pub open spec fn spec_walk_errors(items: Seq<WalkItemView>) -> Seq<FindingView>
    decreases items.len(),
{
    if items.len() == 0 {
        Seq::empty()
    } else {
        spec_walk_errors(items.drop_last()) + (match items.last() {
            WalkItemView::Failure { path, message } => seq![
                FindingView::CouldNotReadDirectory(ErrorInfoView { path, message }),
            ],
            _ => Seq::empty(),
        })
    }
}

/// The root-relative paths of a walk's entries, in walk order.
pub open spec fn spec_rel_paths(root: Seq<char>, items: Seq<WalkItemView>) -> Seq<Seq<char>>
    decreases items.len(),
{
    if items.len() == 0 {
        Seq::empty()
    } else {
        spec_rel_paths(root, items.drop_last()) + (match items.last() {
            WalkItemView::Entry { path } => match spec_strip_root(root, path) {
                Some(rel) => seq![rel],
                None => Seq::empty(),
            },
            _ => Seq::empty(),
        })
    }
}

/// First occurrence of every path, in order: the walk's output is a set.
pub open spec fn spec_dedup(s: Seq<Seq<char>>) -> Seq<Seq<char>>
    decreases s.len(),
{
    if s.len() == 0 {
        Seq::empty()
    } else {
        let d = spec_dedup(s.drop_last());
        if d.contains(s.last()) {
            d
        } else {
            d.push(s.last())
        }
    }
}

/// A walk's path set is a set: each visited path appears exactly once,
/// and exactly the stripped paths appear.
pub proof fn lemma_dedup_is_the_set(s: Seq<Seq<char>>)
    ensures
        spec_dedup(s).no_duplicates(),
        forall|x: Seq<char>| #[trigger] spec_dedup(s).contains(x) <==> s.contains(x),
    decreases s.len(),
{
    if s.len() > 0 {
        let t = s.drop_last();
        lemma_dedup_is_the_set(t);
        let d = spec_dedup(t);
        assert forall|x: Seq<char>| #[trigger] s.contains(x) implies d.contains(x) || x
            == s.last() by {
            let i = choose|i: int| 0 <= i < s.len() && s[i] == x;
            if i < s.len() - 1 {
                assert(t[i] == x);
                assert(t.contains(x));
            }
        }
        assert forall|x: Seq<char>| d.contains(x) || x == s.last() implies #[trigger] s.contains(
            x,
        ) by {
            if d.contains(x) {
                let i = choose|i: int| 0 <= i < t.len() && t[i] == x;
                assert(s[i] == x);
            } else {
                assert(s[s.len() - 1] == x);
            }
        }
        if !d.contains(s.last()) {
            let n = d.push(s.last());
            assert forall|x: Seq<char>| #[trigger] n.contains(x) implies d.contains(x) || x
                == s.last() by {
                let i = choose|i: int| 0 <= i < n.len() && n[i] == x;
                if i < d.len() {
                    assert(d[i] == x);
                }
            }
            assert forall|x: Seq<char>| d.contains(x) || x == s.last() implies #[trigger] n.contains(
                x,
            ) by {
                if d.contains(x) {
                    let i = choose|i: int| 0 <= i < d.len() && d[i] == x;
                    assert(n[i] == x);
                } else {
                    assert(n[n.len() - 1] == x);
                }
            }
            assert forall|i: int, j: int| 0 <= i < j < n.len() implies n[i] != n[j] by {
                if j < d.len() {
                    assert(d[i] == n[i] && d[j] == n[j]);
                } else {
                    assert(n[j] == s.last());
                    assert(d[i] == n[i]);
                    assert(d.contains(d[i]));
                }
            }
            assert(n.no_duplicates());
        }
    }
}

/// The difference holds exactly the paths of the first set that the second
/// lacks.
pub proof fn lemma_difference_membership(a: Seq<Seq<char>>, b: Seq<Seq<char>>)
    ensures
        forall|x: Seq<char>| #[trigger] spec_difference(a, b).contains(x) <==> a.contains(x)
            && !b.contains(x),
    decreases a.len(),
{
    if a.len() == 0 {
        assert forall|x: Seq<char>| !(#[trigger] spec_difference(a, b).contains(x)) by {}
        assert forall|x: Seq<char>| !(#[trigger] a.contains(x)) by {}
    } else {
        let t = a.drop_last();
        lemma_difference_membership(t, b);
        let d = spec_difference(t, b);
        let whole = spec_difference(a, b);
        assert forall|x: Seq<char>| #[trigger] whole.contains(x) implies a.contains(x)
            && !b.contains(x) by {
            let i = choose|i: int| 0 <= i < whole.len() && whole[i] == x;
            if i < d.len() {
                assert(d[i] == x);
                assert(d.contains(x));
                let j = choose|j: int| 0 <= j < t.len() && t[j] == x;
                assert(a[j] == x);
            } else {
                assert(!b.contains(a.last()));
                assert(x == a.last());
                assert(a[a.len() - 1] == x);
            }
        }
        assert forall|x: Seq<char>| a.contains(x) && !b.contains(x) implies #[trigger] whole.contains(
            x,
        ) by {
            let i = choose|i: int| 0 <= i < a.len() && a[i] == x;
            if i < a.len() - 1 {
                assert(t[i] == x);
                assert(t.contains(x));
                assert(d.contains(x));
                let j = choose|j: int| 0 <= j < d.len() && d[j] == x;
                assert(whole[j] == x);
            } else {
                assert(x == a.last());
                assert(whole[whole.len() - 1] == x);
            }
        }
    }
}

/// Whether the set holds this path.
pub fn contains_string(v: &Vec<String>, s: &String) -> (r: bool)
    ensures
        r == seq_views(v@).contains(s@),
{
    let mut j: usize = 0;
    while j < v.len()
        invariant
            j <= v.len(),
            forall|k: int| 0 <= k < j ==> seq_views(v@)[k] != s@,
        decreases v.len() - j,
    {
        if v[j].eq(s) {
            proof {
                assert(seq_views(v@)[j as int] == s@);
            }
            return true;
        }
        j = j + 1;
    }
    proof {
        if seq_views(v@).contains(s@) {
            let k = choose|k: int| 0 <= k < seq_views(v@).len() && seq_views(v@)[k] == s@;
            assert(false);
        }
    }
    false
}

/// Builds one root's path set from the items its walk yielded: the
/// root-relative path of every visited entry, each once, plus one
/// `CouldNotReadDirectory` finding per traversal failure.
#[verifier::loop_isolation(false)]
pub fn collect_relative_paths(root: &str, items: &Vec<WalkItem>) -> (r: (
    Vec<String>,
    Vec<CompareResult>,
))
    requires
        forall|i: int|
            0 <= i < items@.len() ==> match #[trigger] walk_views(items@)[i] {
                WalkItemView::Entry { path } => spec_strip_root(root@, path) is Some,
                _ => true,
            },
    ensures
        seq_views(r.0@) == spec_dedup(spec_rel_paths(root@, walk_views(items@))),
        finding_views(r.1@) == spec_walk_errors(walk_views(items@)),
{
    let ghost wv = walk_views(items@);
    let mut paths: Vec<String> = Vec::new();
    let mut errors: Vec<CompareResult> = Vec::new();
    proof {
        assert(wv.take(0) =~= Seq::<WalkItemView>::empty());
        assert(seq_views(paths@) =~= Seq::<Seq<char>>::empty());
        assert(finding_views(errors@) =~= Seq::<FindingView>::empty());
    }
    let mut i: usize = 0;
    while i < items.len()
        invariant
            i <= items.len(),
            seq_views(paths@) == spec_dedup(spec_rel_paths(root@, wv.take(i as int))),
            finding_views(errors@) == spec_walk_errors(wv.take(i as int)),
        decreases items.len() - i,
    {
        proof {
            assert(wv.take(i as int + 1).drop_last() =~= wv.take(i as int));
            assert(wv.take(i as int + 1).last() == wv[i as int]);
            assert(wv[i as int] == items@[i as int]@);
        }
        match &items[i] {
            WalkItem::Failure { path, message } => {
                let finding = CompareResult::CouldNotReadDirectory(
                    ErrorInfo { path: path.clone(), message: message.clone() },
                );
                proof {
                    assert(finding_views(errors@.push(finding)) =~= finding_views(errors@).push(
                        finding@,
                    ));
                    assert(finding_views(errors@).push(finding@) =~= spec_walk_errors(
                        wv.take(i as int + 1),
                    ));
                    assert(spec_rel_paths(root@, wv.take(i as int + 1)) =~= spec_rel_paths(
                        root@,
                        wv.take(i as int),
                    ));
                }
                errors.push(finding);
            },
            WalkItem::Entry { path } => {
                proof {
                    assert(spec_walk_errors(wv.take(i as int + 1)) =~= spec_walk_errors(
                        wv.take(i as int),
                    ));
                }
                match strip_root(root, path.as_str()) {
                    Some(rel) => {
                        proof {
                            let rp = spec_rel_paths(root@, wv.take(i as int));
                            assert(spec_rel_paths(root@, wv.take(i as int + 1)) =~= rp.push(rel@));
                            assert(rp.push(rel@).drop_last() =~= rp);
                            assert(rp.push(rel@).last() == rel@);
                        }
                        if !contains_string(&paths, &rel) {
                            proof {
                                assert(seq_views(paths@.push(rel)) =~= seq_views(paths@).push(
                                    rel@,
                                ));
                            }
                            paths.push(rel);
                        }
                    },
                    None => {
                        proof {
                            assert(false);
                        }
                    },
                }
            },
        }
        i = i + 1;
    }
    proof {
        assert(wv.take(wv.len() as int) =~= wv);
    }
    (paths, errors)
}

/// Paths of `a` that are not in `b`, in `a`'s order.
pub open spec fn spec_difference(a: Seq<Seq<char>>, b: Seq<Seq<char>>) -> Seq<Seq<char>>
    decreases a.len(),
{
    if a.len() == 0 {
        Seq::empty()
    } else {
        spec_difference(a.drop_last(), b) + (if b.contains(a.last()) {
            Seq::empty()
        } else {
            seq![a.last()]
        })
    }
}

/// Paths of `a` that are also in `b`, in `a`'s order.
pub open spec fn spec_intersection(a: Seq<Seq<char>>, b: Seq<Seq<char>>) -> Seq<Seq<char>>
    decreases a.len(),
{
    if a.len() == 0 {
        Seq::empty()
    } else {
        spec_intersection(a.drop_last(), b) + (if b.contains(a.last()) {
            seq![a.last()]
        } else {
            Seq::empty()
        })
    }
}

/// The paths of the first set that the second lacks.
#[verifier::loop_isolation(false)]
pub fn difference(a: &Vec<String>, b: &Vec<String>) -> (r: Vec<String>)
    ensures
        seq_views(r@) == spec_difference(seq_views(a@), seq_views(b@)),
{
    let ghost va = seq_views(a@);
    let mut r: Vec<String> = Vec::new();
    proof {
        assert(va.take(0) =~= Seq::<Seq<char>>::empty());
        assert(seq_views(r@) =~= Seq::<Seq<char>>::empty());
    }
    let mut i: usize = 0;
    while i < a.len()
        invariant
            i <= a.len(),
            seq_views(r@) == spec_difference(va.take(i as int), seq_views(b@)),
        decreases a.len() - i,
    {
        proof {
            assert(va.take(i as int + 1).drop_last() =~= va.take(i as int));
            assert(va.take(i as int + 1).last() == va[i as int]);
            assert(va[i as int] == a@[i as int]@);
        }
        if !contains_string(b, &a[i]) {
            let kept = a[i].clone();
            proof {
                assert(seq_views(r@.push(kept)) =~= seq_views(r@).push(kept@));
                assert(seq_views(r@).push(kept@) =~= spec_difference(
                    va.take(i as int + 1),
                    seq_views(b@),
                ));
            }
            r.push(kept);
        } else {
            proof {
                assert(spec_difference(va.take(i as int + 1), seq_views(b@)) =~= spec_difference(
                    va.take(i as int),
                    seq_views(b@),
                ));
            }
        }
        i = i + 1;
    }
    proof {
        assert(va.take(va.len() as int) =~= va);
    }
    r
}

/// The paths present in both sets.
#[verifier::loop_isolation(false)]
pub fn present_in_both(a: &Vec<String>, b: &Vec<String>) -> (r: Vec<String>)
    ensures
        seq_views(r@) == spec_intersection(seq_views(a@), seq_views(b@)),
{
    let ghost va = seq_views(a@);
    let mut r: Vec<String> = Vec::new();
    proof {
        assert(va.take(0) =~= Seq::<Seq<char>>::empty());
        assert(seq_views(r@) =~= Seq::<Seq<char>>::empty());
    }
    let mut i: usize = 0;
    while i < a.len()
        invariant
            i <= a.len(),
            seq_views(r@) == spec_intersection(va.take(i as int), seq_views(b@)),
        decreases a.len() - i,
    {
        proof {
            assert(va.take(i as int + 1).drop_last() =~= va.take(i as int));
            assert(va.take(i as int + 1).last() == va[i as int]);
            assert(va[i as int] == a@[i as int]@);
        }
        if contains_string(b, &a[i]) {
            let kept = a[i].clone();
            proof {
                assert(seq_views(r@.push(kept)) =~= seq_views(r@).push(kept@));
                assert(seq_views(r@).push(kept@) =~= spec_intersection(
                    va.take(i as int + 1),
                    seq_views(b@),
                ));
            }
            r.push(kept);
        } else {
            proof {
                assert(spec_intersection(va.take(i as int + 1), seq_views(b@))
                    =~= spec_intersection(va.take(i as int), seq_views(b@)));
            }
        }
        i = i + 1;
    }
    proof {
        assert(va.take(va.len() as int) =~= va);
    }
    r
}

/// The paths reported missing from the first tree: present in the second
/// set, absent from the first, sorted and collapsed.
pub open spec fn spec_missing_paths(a: Seq<Seq<char>>, b: Seq<Seq<char>>) -> Seq<Seq<char>> {
    spec_collapse(spec_difference(b, a).sort_by(path_le()))
}

/// The collapsed difference sets of the two roots.
#[derive(Debug)]
pub struct Missing {
    pub missing_in_dir_a: Vec<String>,
    pub missing_in_dir_b: Vec<String>,
}

impl View for Missing {
    type V = (Seq<Seq<char>>, Seq<Seq<char>>);

    open spec fn view(&self) -> (Seq<Seq<char>>, Seq<Seq<char>>) {
        (seq_views(self.missing_in_dir_a@), seq_views(self.missing_in_dir_b@))
    }
}

impl PartialEq for Missing {
    fn eq(&self, other: &Missing) -> bool {
        if self.missing_in_dir_a.len() != other.missing_in_dir_a.len()
            || self.missing_in_dir_b.len() != other.missing_in_dir_b.len() {
            proof {
                assert(seq_views(self.missing_in_dir_a@).len() == self.missing_in_dir_a@.len());
                assert(seq_views(other.missing_in_dir_a@).len() == other.missing_in_dir_a@.len());
                assert(seq_views(self.missing_in_dir_b@).len() == self.missing_in_dir_b@.len());
                assert(seq_views(other.missing_in_dir_b@).len() == other.missing_in_dir_b@.len());
            }
            return false;
        }
        let mut i: usize = 0;
        while i < self.missing_in_dir_a.len()
            invariant
                i <= self.missing_in_dir_a.len(),
                self.missing_in_dir_a.len() == other.missing_in_dir_a.len(),
                self.missing_in_dir_b.len() == other.missing_in_dir_b.len(),
                forall|k: int|
                    0 <= k < i ==> seq_views(self.missing_in_dir_a@)[k] == seq_views(
                        other.missing_in_dir_a@,
                    )[k],
            decreases self.missing_in_dir_a.len() - i,
        {
            if !self.missing_in_dir_a[i].eq(&other.missing_in_dir_a[i]) {
                proof {
                    assert(seq_views(self.missing_in_dir_a@)[i as int] != seq_views(
                        other.missing_in_dir_a@,
                    )[i as int]);
                }
                return false;
            }
            i = i + 1;
        }
        proof {
            assert(seq_views(self.missing_in_dir_a@) =~= seq_views(other.missing_in_dir_a@));
        }
        let mut j: usize = 0;
        while j < self.missing_in_dir_b.len()
            invariant
                j <= self.missing_in_dir_b.len(),
                self.missing_in_dir_b.len() == other.missing_in_dir_b.len(),
                seq_views(self.missing_in_dir_a@) =~= seq_views(other.missing_in_dir_a@),
                forall|k: int|
                    0 <= k < j ==> seq_views(self.missing_in_dir_b@)[k] == seq_views(
                        other.missing_in_dir_b@,
                    )[k],
            decreases self.missing_in_dir_b.len() - j,
        {
            if !self.missing_in_dir_b[j].eq(&other.missing_in_dir_b[j]) {
                proof {
                    assert(seq_views(self.missing_in_dir_b@)[j as int] != seq_views(
                        other.missing_in_dir_b@,
                    )[j as int]);
                }
                return false;
            }
            j = j + 1;
        }
        proof {
            assert(seq_views(self.missing_in_dir_a@) =~= seq_views(other.missing_in_dir_a@));
            assert(seq_views(self.missing_in_dir_b@) =~= seq_views(other.missing_in_dir_b@));
        }
        true
    }
}

impl vstd::std_specs::cmp::PartialEqSpecImpl for Missing {
    open spec fn obeys_eq_spec() -> bool {
        true
    }

    open spec fn eq_spec(&self, other: &Missing) -> bool {
        self@ == other@
    }
}

/// Computes both collapsed difference sets: a path is "missing in A" when
/// the walk of B yielded it and the walk of A did not, and the other way
/// around.
pub fn analyze(dir_a_content: &Vec<String>, dir_b_content: &Vec<String>) -> (m: Missing)
    ensures
        seq_views(m.missing_in_dir_a@) == spec_missing_paths(
            seq_views(dir_a_content@),
            seq_views(dir_b_content@),
        ),
        seq_views(m.missing_in_dir_b@) == spec_missing_paths(
            seq_views(dir_b_content@),
            seq_views(dir_a_content@),
        ),
{
    Missing {
        missing_in_dir_a: remove_subdirectories(&difference(dir_b_content, dir_a_content)),
        missing_in_dir_b: remove_subdirectories(&difference(dir_a_content, dir_b_content)),
    }
}

/// The "missing in A" findings, one per collapsed path.
pub open spec fn spec_missing_a_findings(a: Seq<Seq<char>>, b: Seq<Seq<char>>) -> Seq<
    FindingView,
> {
    spec_missing_paths(a, b).map_values(
        |p: Seq<char>| FindingView::MissingInDirA(EntryInfoView { path: p }),
    )
}

/// The "missing in B" findings, one per collapsed path.
pub open spec fn spec_missing_b_findings(a: Seq<Seq<char>>, b: Seq<Seq<char>>) -> Seq<
    FindingView,
> {
    spec_missing_paths(b, a).map_values(
        |p: Seq<char>| FindingView::MissingInDirB(EntryInfoView { path: p }),
    )
}

/// A finding as the comparison with swapped roots reports it: the two
/// missing-kinds exchange, a type mismatch swaps its two observed kinds,
/// and every other finding is unchanged.
pub open spec fn spec_mirror_finding(f: FindingView) -> FindingView {
    match f {
        FindingView::MissingInDirA(e) => FindingView::MissingInDirB(e),
        FindingView::MissingInDirB(e) => FindingView::MissingInDirA(e),
        FindingView::TypeMismatch(m) => FindingView::TypeMismatch(
            MismatchView {
                path: m.path,
                type_in_dir_a: m.type_in_dir_b,
                type_in_dir_b: m.type_in_dir_a,
            },
        ),
        other => other,
    }
}

/// `spec_mirror_finding` as a first-class function, for `map_values`.
pub open spec fn mirror_fn() -> spec_fn(FindingView) -> FindingView {
    |f: FindingView| spec_mirror_finding(f)
}

/// Swapping the two roots mirrors the missing findings: the paths reported
/// `MissingInDirA` for `compare(a, b)` are exactly the paths reported
/// `MissingInDirB` for `compare(b, a)`, and the other way around.
pub proof fn lemma_find_missing_entries_mirror(a: Seq<Seq<char>>, b: Seq<Seq<char>>)
    ensures
        spec_missing_a_findings(a, b) == spec_missing_b_findings(b, a).map_values(mirror_fn()),
        spec_missing_b_findings(a, b) == spec_missing_a_findings(b, a).map_values(mirror_fn()),
{
    assert(spec_missing_a_findings(a, b) =~= spec_missing_b_findings(b, a).map_values(
        mirror_fn(),
    ));
    assert(spec_missing_b_findings(a, b) =~= spec_missing_a_findings(b, a).map_values(
        mirror_fn(),
    ));
}

/// Lists the missing-entry findings for both directions, `MissingInDirA`
/// first, mirroring the traversal that produced the sets.
#[verifier::loop_isolation(false)]
pub fn find_missing_entries(dir_a_content: &Vec<String>, dir_b_content: &Vec<String>) -> (r: Vec<
    CompareResult,
>)
    ensures
        finding_views(r@) == spec_missing_a_findings(
            seq_views(dir_a_content@),
            seq_views(dir_b_content@),
        ) + spec_missing_b_findings(seq_views(dir_a_content@), seq_views(dir_b_content@)),
{
    let ghost va = seq_views(dir_a_content@);
    let ghost vb = seq_views(dir_b_content@);
    let missing_a = remove_subdirectories(&difference(dir_b_content, dir_a_content));
    let missing_b = remove_subdirectories(&difference(dir_a_content, dir_b_content));
    let ghost ma = spec_missing_a_findings(va, vb);
    let ghost mb = spec_missing_b_findings(va, vb);
    let mut r: Vec<CompareResult> = Vec::new();
    proof {
        assert(finding_views(r@) =~= Seq::<FindingView>::empty());
        assert(finding_views(r@) =~= ma.take(0));
    }
    let mut i: usize = 0;
    while i < missing_a.len()
        invariant
            i <= missing_a.len(),
            ma.len() == missing_a@.len(),
            finding_views(r@) == ma.take(i as int),
        decreases missing_a.len() - i,
    {
        let f = CompareResult::MissingInDirA(EntryInfo { path: missing_a[i].clone() });
        proof {
            assert(ma[i as int] == f@);
            assert(finding_views(r@.push(f)) =~= finding_views(r@).push(f@));
            assert(finding_views(r@).push(f@) =~= ma.take(i as int + 1));
        }
        r.push(f);
        i = i + 1;
    }
    proof {
        assert(ma.take(ma.len() as int) =~= ma);
        assert(finding_views(r@) =~= ma + mb.take(0));
    }
    let mut j: usize = 0;
    while j < missing_b.len()
        invariant
            j <= missing_b.len(),
            mb.len() == missing_b@.len(),
            finding_views(r@) == ma + mb.take(j as int),
        decreases missing_b.len() - j,
    {
        let f = CompareResult::MissingInDirB(EntryInfo { path: missing_b[j].clone() });
        proof {
            assert(mb[j as int] == f@);
            assert(finding_views(r@.push(f)) =~= finding_views(r@).push(f@));
            assert(finding_views(r@).push(f@) =~= ma + mb.take(j as int + 1));
        }
        r.push(f);
        j = j + 1;
    }
    proof {
        assert(mb.take(mb.len() as int) =~= mb);
    }
    r
}

/// The kind an entry was observed to have, from the two checks the caller
/// makes on it.
pub open spec fn spec_entry_type(is_dir: bool, is_file: bool) -> EntryType {
    if is_dir {
        EntryType::Directory
    } else if is_file {
        EntryType::File
    } else {
        EntryType::Unknown
    }
}

/// Classifies an entry from whether it was observed to be a directory or a
/// regular file.
pub fn get_entry_type(is_dir: bool, is_file: bool) -> (r: EntryType)
    ensures
        r == spec_entry_type(is_dir, is_file),
{
    if is_dir {
        EntryType::Directory
    } else if is_file {
        EntryType::File
    } else {
        EntryType::Unknown
    }
}

/// What the caller observed about one path present in both roots: the kind
/// on each side and, where both sides are regular files, the outcome of
/// hashing each side's content.
pub struct PairObservation {
    pub sub_path: String,
    pub type_in_dir_a: EntryType,
    pub type_in_dir_b: EntryType,
    pub hash_a: Option<Result<String, String>>,
    pub hash_b: Option<Result<String, String>>,
}

/// Mathematical image of a `PairObservation`.
pub struct ObservationView {
    pub sub_path: Seq<char>,
    pub type_in_dir_a: EntryType,
    pub type_in_dir_b: EntryType,
    pub hash_a: Option<Result<Seq<char>, Seq<char>>>,
    pub hash_b: Option<Result<Seq<char>, Seq<char>>>,
}

pub open spec fn hash_view(h: Option<Result<String, String>>) -> Option<
    Result<Seq<char>, Seq<char>>,
> {
    match h {
        Some(Ok(s)) => Some(Ok(s@)),
        Some(Err(m)) => Some(Err(m@)),
        None => None,
    }
}

impl View for PairObservation {
    type V = ObservationView;

    open spec fn view(&self) -> ObservationView {
        ObservationView {
            sub_path: self.sub_path@,
            type_in_dir_a: self.type_in_dir_a,
            type_in_dir_b: self.type_in_dir_b,
            hash_a: hash_view(self.hash_a),
            hash_b: hash_view(self.hash_b),
        }
    }
}

/// The views of a sequence of observations, element for element.
pub open spec fn obs_views(s: Seq<PairObservation>) -> Seq<ObservationView> {
    s.map_values(|o: PairObservation| o@)
}

/// When both sides are regular files, the observation carries both hash
/// outcomes.
pub open spec fn observation_wf(o: ObservationView) -> bool {
    (o.type_in_dir_a is File && o.type_in_dir_b is File) ==> (o.hash_a is Some
        && o.hash_b is Some)
}

/// A root joined with a path under it: an absolute path stands alone, a
/// relative one goes after the root and a separator.
pub open spec fn spec_join(dir: Seq<char>, sub: Seq<char>) -> Seq<char> {
    if sub.len() > 0 && sub[0] == sep() {
        sub
    } else {
        dir + "/"@ + sub
    }
}

fn join_path(dir: &str, sub: &str) -> (r: String)
    ensures
        r@ == spec_join(dir@, sub@),
{
    if sub.unicode_len() > 0 && sub.get_char(0) == '/' {
        return sub.to_owned();
    }
    let mut s = dir.to_owned();
    s.append("/");
    s.append(sub);
    s
}

/// The finding for one path present in both roots.  Two regular files
/// compare by their hashes: a hash failure on the first side is reported
/// for that side alone, then one on the second side, then differing hashes
/// as differing content.  Any other combination of kinds except
/// directory/directory is a type mismatch.
pub open spec fn spec_compare_entry(
    dir_a: Seq<char>,
    dir_b: Seq<char>,
    o: ObservationView,
) -> Option<FindingView> {
    if o.type_in_dir_a is File && o.type_in_dir_b is File {
        match o.hash_a {
            Some(Err(m)) => Some(
                FindingView::CouldNotCalculateHash(
                    ErrorInfoView { path: spec_join(dir_a, o.sub_path), message: m },
                ),
            ),
            Some(Ok(ha)) => match o.hash_b {
                Some(Err(m)) => Some(
                    FindingView::CouldNotCalculateHash(
                        ErrorInfoView { path: spec_join(dir_b, o.sub_path), message: m },
                    ),
                ),
                Some(Ok(hb)) => if ha != hb {
                    Some(FindingView::DifferingContent(EntryInfoView { path: o.sub_path }))
                } else {
                    None
                },
                None => None,
            },
            None => None,
        }
    } else if !(o.type_in_dir_a is Directory && o.type_in_dir_b is Directory) {
        Some(
            FindingView::TypeMismatch(
                MismatchView {
                    path: o.sub_path,
                    type_in_dir_a: o.type_in_dir_a,
                    type_in_dir_b: o.type_in_dir_b,
                },
            ),
        )
    } else {
        None
    }
}

/// Classifies one path present in both roots from what was observed there.
pub fn compare_entry(
    dir_a_path: &str,
    dir_b_path: &str,
    observation: &PairObservation,
) -> (r: Result<(), CompareResult>)
    requires
        observation_wf(observation@),
    ensures
        match r {
            Ok(_) => spec_compare_entry(dir_a_path@, dir_b_path@, observation@) is None,
            Err(f) => spec_compare_entry(dir_a_path@, dir_b_path@, observation@) == Some(f@),
        },
{
    if observation.type_in_dir_a == EntryType::File && observation.type_in_dir_b
        == EntryType::File {
        match &observation.hash_a {
            Some(Err(m)) => Err(
                CompareResult::CouldNotCalculateHash(
                    ErrorInfo {
                        path: join_path(dir_a_path, observation.sub_path.as_str()),
                        message: m.clone(),
                    },
                ),
            ),
            Some(Ok(ha)) => match &observation.hash_b {
                Some(Err(m)) => Err(
                    CompareResult::CouldNotCalculateHash(
                        ErrorInfo {
                            path: join_path(dir_b_path, observation.sub_path.as_str()),
                            message: m.clone(),
                        },
                    ),
                ),
                Some(Ok(hb)) => if !ha.eq(hb) {
                    Err(
                        CompareResult::DifferingContent(
                            EntryInfo { path: observation.sub_path.clone() },
                        ),
                    )
                } else {
                    Ok(())
                },
                None => {
                    proof {
                        assert(false);
                    }
                    Ok(())
                },
            },
            None => {
                proof {
                    assert(false);
                }
                Ok(())
            },
        }
    } else if !(observation.type_in_dir_a == EntryType::Directory && observation.type_in_dir_b
        == EntryType::Directory) {
        Err(
            CompareResult::TypeMismatch(
                EntryTypeMismatch {
                    path: observation.sub_path.clone(),
                    type_in_dir_a: observation.type_in_dir_a,
                    type_in_dir_b: observation.type_in_dir_b,
                },
            ),
        )
    } else {
        Ok(())
    }
}

/// The findings for the observed common paths, in observation order.
pub open spec fn spec_content_findings(
    dir_a: Seq<char>,
    dir_b: Seq<char>,
    obs: Seq<ObservationView>,
) -> Seq<FindingView>
    decreases obs.len(),
{
    if obs.len() == 0 {
        Seq::empty()
    } else {
        spec_content_findings(dir_a, dir_b, obs.drop_last()) + (match spec_compare_entry(
            dir_a,
            dir_b,
            obs.last(),
        ) {
            Some(f) => seq![f],
            None => Seq::empty(),
        })
    }
}

/// Classifies every observed common path, keeping the findings in
/// observation order.
#[verifier::loop_isolation(false)]
pub fn compare_directory_contents(
    dir_a_path: &str,
    dir_b_path: &str,
    observations: &Vec<PairObservation>,
) -> (r: Vec<CompareResult>)
    requires
        forall|i: int|
            0 <= i < observations@.len() ==> observation_wf(
                #[trigger] obs_views(observations@)[i],
            ),
    ensures
        finding_views(r@) == spec_content_findings(
            dir_a_path@,
            dir_b_path@,
            obs_views(observations@),
        ),
{
    let ghost ov = obs_views(observations@);
    let mut r: Vec<CompareResult> = Vec::new();
    proof {
        assert(ov.take(0) =~= Seq::<ObservationView>::empty());
        assert(finding_views(r@) =~= Seq::<FindingView>::empty());
    }
    let mut i: usize = 0;
    while i < observations.len()
        invariant
            i <= observations.len(),
            finding_views(r@) == spec_content_findings(dir_a_path@, dir_b_path@, ov.take(i as int)),
        decreases observations.len() - i,
    {
        proof {
            assert(ov.take(i as int + 1).drop_last() =~= ov.take(i as int));
            assert(ov.take(i as int + 1).last() == ov[i as int]);
            assert(ov[i as int] == observations@[i as int]@);
        }
        match compare_entry(dir_a_path, dir_b_path, &observations[i]) {
            Err(f) => {
                proof {
                    assert(finding_views(r@.push(f)) =~= finding_views(r@).push(f@));
                    assert(finding_views(r@).push(f@) =~= spec_content_findings(
                        dir_a_path@,
                        dir_b_path@,
                        ov.take(i as int + 1),
                    ));
                }
                r.push(f);
            },
            Ok(_) => {
                proof {
                    assert(spec_content_findings(dir_a_path@, dir_b_path@, ov.take(i as int + 1))
                        =~= spec_content_findings(dir_a_path@, dir_b_path@, ov.take(i as int)));
                }
            },
        }
        i = i + 1;
    }
    proof {
        assert(ov.take(ov.len() as int) =~= ov);
    }
    r
}

/// Everything the comparison of the two roots reports, before ordering.
pub open spec fn spec_compare_findings(
    path_a: Seq<char>,
    path_b: Seq<char>,
    wa: Seq<WalkItemView>,
    wb: Seq<WalkItemView>,
    obs: Seq<ObservationView>,
) -> Seq<FindingView> {
    let pa = spec_dedup(spec_rel_paths(path_a, wa));
    let pb = spec_dedup(spec_rel_paths(path_b, wb));
    spec_walk_errors(wa) + spec_walk_errors(wb) + spec_missing_a_findings(pa, pb)
        + spec_missing_b_findings(pa, pb) + spec_content_findings(path_a, path_b, obs)
}

/// Compares the two trees from what their walks and probes observed: the
/// traversal errors of both walks, the collapsed missing entries of both
/// directions, and the classification of every common path, sorted into
/// the deterministic order.
pub fn compare(
    path_a: &str,
    path_b: &str,
    walk_a: &Vec<WalkItem>,
    walk_b: &Vec<WalkItem>,
    observations: &Vec<PairObservation>,
) -> (r: Vec<CompareResult>)
    requires
        forall|i: int|
            0 <= i < walk_a@.len() ==> match #[trigger] walk_views(walk_a@)[i] {
                WalkItemView::Entry { path } => spec_strip_root(path_a@, path) is Some,
                _ => true,
            },
        forall|i: int|
            0 <= i < walk_b@.len() ==> match #[trigger] walk_views(walk_b@)[i] {
                WalkItemView::Entry { path } => spec_strip_root(path_b@, path) is Some,
                _ => true,
            },
        forall|i: int|
            0 <= i < observations@.len() ==> observation_wf(
                #[trigger] obs_views(observations@)[i],
            ),
        obs_views(observations@).map_values(|o: ObservationView| o.sub_path)
            == spec_intersection(
            spec_dedup(spec_rel_paths(path_a@, walk_views(walk_a@))),
            spec_dedup(spec_rel_paths(path_b@, walk_views(walk_b@))),
        ),
    ensures
        finding_views(r@) == spec_compare_findings(
            path_a@,
            path_b@,
            walk_views(walk_a@),
            walk_views(walk_b@),
            obs_views(observations@),
        ).sort_by(finding_order()),
        sorted_by(finding_views(r@), finding_order()),
{
    let (dir_a_content, mut res) = collect_relative_paths(path_a, walk_a);
    let (dir_b_content, mut errors_b) = collect_relative_paths(path_b, walk_b);
    let mut missing = find_missing_entries(&dir_a_content, &dir_b_content);
    let mut content = compare_directory_contents(path_a, path_b, observations);
    let ghost ve = finding_views(res@);
    let ghost vb = finding_views(errors_b@);
    let ghost vm = finding_views(missing@);
    let ghost vc = finding_views(content@);
    proof {
        assert(finding_views(res@ + errors_b@) =~= ve + vb);
    }
    res.append(&mut errors_b);
    proof {
        assert(finding_views(res@ + missing@) =~= (ve + vb) + vm);
    }
    res.append(&mut missing);
    proof {
        assert(finding_views(res@ + content@) =~= ((ve + vb) + vm) + vc);
    }
    res.append(&mut content);
    proof {
        assert(finding_views(res@) =~= spec_compare_findings(
            path_a@,
            path_b@,
            walk_views(walk_a@),
            walk_views(walk_b@),
            obs_views(observations@),
        ));
    }
    sort_findings(res)
}

proof fn lemma_walk_errors_clean(items: Seq<WalkItemView>)
    requires
        forall|i: int| 0 <= i < items.len() ==> items[i] is Entry,
    ensures
        spec_walk_errors(items) == Seq::<FindingView>::empty(),
    decreases items.len(),
{
    if items.len() > 0 {
        assert forall|i: int| 0 <= i < items.drop_last().len() implies items.drop_last()[i]
            is Entry by {
            assert(items.drop_last()[i] == items[i]);
        }
        lemma_walk_errors_clean(items.drop_last());
        assert(items.last() is Entry);
        assert(spec_walk_errors(items) =~= Seq::<FindingView>::empty());
    }
}

proof fn lemma_difference_subset(a: Seq<Seq<char>>, b: Seq<Seq<char>>)
    requires
        forall|i: int| 0 <= i < a.len() ==> b.contains(#[trigger] a[i]),
    ensures
        spec_difference(a, b) == Seq::<Seq<char>>::empty(),
    decreases a.len(),
{
    if a.len() > 0 {
        assert forall|i: int| 0 <= i < a.drop_last().len() implies b.contains(
            #[trigger] a.drop_last()[i],
        ) by {
            assert(a.drop_last()[i] == a[i]);
        }
        lemma_difference_subset(a.drop_last(), b);
        assert(b.contains(a.last()));
        assert(spec_difference(a, b) =~= Seq::<Seq<char>>::empty());
    }
}

/// An observation of a path that looks the same on both sides: the same
/// kind (file or directory) and, for files, the same successfully computed
/// fingerprint.
pub open spec fn matching_observation(o: ObservationView) -> bool {
    &&& o.type_in_dir_a == o.type_in_dir_b
    &&& (o.type_in_dir_a is File || o.type_in_dir_a is Directory)
    &&& (o.type_in_dir_a is File ==> o.hash_a == o.hash_b && o.hash_a matches Some(Ok(_)))
}

proof fn lemma_content_findings_matching(
    dir_a: Seq<char>,
    dir_b: Seq<char>,
    obs: Seq<ObservationView>,
)
    requires
        forall|i: int| 0 <= i < obs.len() ==> matching_observation(#[trigger] obs[i]),
    ensures
        spec_content_findings(dir_a, dir_b, obs) == Seq::<FindingView>::empty(),
    decreases obs.len(),
{
    if obs.len() > 0 {
        assert forall|i: int| 0 <= i < obs.drop_last().len() implies matching_observation(
            #[trigger] obs.drop_last()[i],
        ) by {
            assert(obs.drop_last()[i] == obs[i]);
        }
        lemma_content_findings_matching(dir_a, dir_b, obs.drop_last());
        assert(matching_observation(obs.last()));
        assert(spec_compare_entry(dir_a, dir_b, obs.last()) is None);
        assert(spec_content_findings(dir_a, dir_b, obs) =~= Seq::<FindingView>::empty());
    }
}

/// Comparing two identical trees yields the empty finding list: when both
/// walks succeed everywhere, both yield the same path set, and every
/// common path has the same kind on both sides — with equal fingerprints
/// for files — nothing is reported.
pub proof fn lemma_identical_trees_no_findings(
    path_a: Seq<char>,
    path_b: Seq<char>,
    wa: Seq<WalkItemView>,
    wb: Seq<WalkItemView>,
    obs: Seq<ObservationView>,
)
    requires
        forall|i: int| 0 <= i < wa.len() ==> wa[i] is Entry,
        forall|i: int| 0 <= i < wb.len() ==> wb[i] is Entry,
        spec_dedup(spec_rel_paths(path_a, wa)) == spec_dedup(spec_rel_paths(path_b, wb)),
        forall|i: int| 0 <= i < obs.len() ==> matching_observation(#[trigger] obs[i]),
    ensures
        spec_compare_findings(path_a, path_b, wa, wb, obs).sort_by(finding_order())
            == Seq::<FindingView>::empty(),
{
    broadcast use vstd::seq_lib::group_to_multiset_ensures;

    lemma_walk_errors_clean(wa);
    lemma_walk_errors_clean(wb);
    lemma_content_findings_matching(path_a, path_b, obs);
    let pa = spec_dedup(spec_rel_paths(path_a, wa));
    let pb = spec_dedup(spec_rel_paths(path_b, wb));
    assert forall|i: int| 0 <= i < pb.len() implies pa.contains(#[trigger] pb[i]) by {
        assert(pa[i] == pb[i]);
    }
    lemma_difference_subset(pb, pa);
    assert forall|i: int| 0 <= i < pa.len() implies pb.contains(#[trigger] pa[i]) by {
        assert(pb[i] == pa[i]);
    }
    lemma_difference_subset(pa, pb);
    crate::paths::lemma_path_le_total_ordering();
    let es = Seq::<Seq<char>>::empty();
    es.lemma_sort_by_ensures(path_le());
    assert(es.sort_by(path_le()).to_multiset() =~= es.to_multiset());
    assert(es.to_multiset().len() == es.len());
    assert(es.sort_by(path_le()).to_multiset().len() == es.sort_by(path_le()).len());
    assert(es.sort_by(path_le()).len() == 0);
    assert(es.sort_by(path_le()) =~= es);
    assert(spec_collapse(es) =~= Seq::<Seq<char>>::empty());
    assert(spec_missing_a_findings(pa, pb) =~= Seq::<FindingView>::empty());
    assert(spec_missing_b_findings(pa, pb) =~= Seq::<FindingView>::empty());
    let all = spec_compare_findings(path_a, path_b, wa, wb, obs);
    assert(all =~= Seq::<FindingView>::empty());
    lemma_finding_order_total();
    all.lemma_sort_by_ensures(finding_order());
    assert(all.sort_by(finding_order()).to_multiset() =~= all.to_multiset());
    assert(all.to_multiset().len() == all.len());
    assert(all.sort_by(finding_order()).to_multiset().len() == all.sort_by(
        finding_order(),
    ).len());
    assert(all.sort_by(finding_order()).len() == 0);
    assert(all.sort_by(finding_order()) =~= Seq::<FindingView>::empty());
}

/// The same observation, seen from the swapped pair of roots.
pub open spec fn spec_swap_observation(o: ObservationView) -> ObservationView {
    ObservationView {
        sub_path: o.sub_path,
        type_in_dir_a: o.type_in_dir_b,
        type_in_dir_b: o.type_in_dir_a,
        hash_a: o.hash_b,
        hash_b: o.hash_a,
    }
}

/// Swapping the two roots mirrors the per-path classification: differing
/// content and hash failures are reported identically, and a type mismatch
/// swaps its two observed kinds.  The one exception — left out here — is a
/// pair whose hashes failed on both sides, where each direction reports
/// its own first side's failure.
pub proof fn lemma_compare_entry_mirror(dir_a: Seq<char>, dir_b: Seq<char>, o: ObservationView)
    requires
        observation_wf(o),
        !(o.hash_a matches Some(Err(_)) && o.hash_b matches Some(Err(_))),
    ensures
        spec_compare_entry(dir_b, dir_a, spec_swap_observation(o)) == match spec_compare_entry(
            dir_a,
            dir_b,
            o,
        ) {
            Some(f) => Some(spec_mirror_finding(f)),
            None => None,
        },
{
}

/// `spec_swap_observation` as a first-class function, for `map_values`.
pub open spec fn swap_obs_fn() -> spec_fn(ObservationView) -> ObservationView {
    |o: ObservationView| spec_swap_observation(o)
}

proof fn lemma_walk_errors_kinds(items: Seq<WalkItemView>)
    ensures
        forall|i: int|
            0 <= i < spec_walk_errors(items).len() ==> #[trigger] spec_walk_errors(items)[i]
                is CouldNotReadDirectory,
    decreases items.len(),
{
    if items.len() > 0 {
        lemma_walk_errors_kinds(items.drop_last());
        let e = spec_walk_errors(items.drop_last());
        assert forall|i: int| 0 <= i < spec_walk_errors(items).len() implies #[trigger] spec_walk_errors(
            items,
        )[i] is CouldNotReadDirectory by {
            if i < e.len() {
                assert(spec_walk_errors(items)[i] == e[i]);
            }
        }
    }
}

proof fn lemma_map_mirror_concat(x: Seq<FindingView>, y: Seq<FindingView>)
    ensures
        (x + y).map_values(mirror_fn()) == x.map_values(mirror_fn()) + y.map_values(mirror_fn()),
{
    assert((x + y).map_values(mirror_fn()) =~= x.map_values(mirror_fn()) + y.map_values(
        mirror_fn(),
    ));
}

proof fn lemma_content_findings_mirror(
    dir_a: Seq<char>,
    dir_b: Seq<char>,
    obs: Seq<ObservationView>,
)
    requires
        forall|i: int| 0 <= i < obs.len() ==> observation_wf(#[trigger] obs[i]),
        forall|i: int|
            0 <= i < obs.len() ==> !((#[trigger] obs[i]).hash_a matches Some(Err(_))
                && obs[i].hash_b matches Some(Err(_))),
    ensures
        spec_content_findings(dir_b, dir_a, obs.map_values(swap_obs_fn()))
            == spec_content_findings(dir_a, dir_b, obs).map_values(mirror_fn()),
    decreases obs.len(),
{
    let swapped = obs.map_values(swap_obs_fn());
    if obs.len() == 0 {
        assert(spec_content_findings(dir_b, dir_a, swapped) =~= Seq::<FindingView>::empty());
        assert(spec_content_findings(dir_a, dir_b, obs).map_values(mirror_fn())
            =~= Seq::<FindingView>::empty());
    } else {
        let t = obs.drop_last();
        assert forall|i: int| 0 <= i < t.len() implies observation_wf(#[trigger] t[i]) by {
            assert(t[i] == obs[i]);
        }
        assert forall|i: int| 0 <= i < t.len() implies !((#[trigger] t[i]).hash_a matches Some(
            Err(_),
        ) && t[i].hash_b matches Some(Err(_))) by {
            assert(t[i] == obs[i]);
        }
        lemma_content_findings_mirror(dir_a, dir_b, t);
        assert(observation_wf(obs.last()));
        assert(!(obs.last().hash_a matches Some(Err(_)) && obs.last().hash_b matches Some(
            Err(_),
        )));
        lemma_compare_entry_mirror(dir_a, dir_b, obs.last());
        assert(swapped.drop_last() =~= t.map_values(swap_obs_fn()));
        assert(swapped.last() == spec_swap_observation(obs.last()));
        let tail = match spec_compare_entry(dir_a, dir_b, obs.last()) {
            Some(f) => seq![f],
            None => Seq::<FindingView>::empty(),
        };
        lemma_map_mirror_concat(spec_content_findings(dir_a, dir_b, t), tail);
        match spec_compare_entry(dir_a, dir_b, obs.last()) {
            Some(f) => {
                assert(tail.map_values(mirror_fn()) =~= seq![spec_mirror_finding(f)]);
            },
            None => {
                assert(tail.map_values(mirror_fn()) =~= Seq::<FindingView>::empty());
            },
        }
        assert(spec_content_findings(dir_b, dir_a, swapped) =~= spec_content_findings(
            dir_a,
            dir_b,
            obs,
        ).map_values(mirror_fn()));
    }
}

/// Swapping the two roots mirrors the whole comparison: up to the final
/// deterministic reordering, `compare(b, a)` over the swapped observations
/// reports exactly the mirror image of every finding of `compare(a, b)` —
/// the missing-kinds exchange, type mismatches swap their observed kinds,
/// and everything else is reported identically.  Pairs whose hashes failed
/// on both sides are left out: each direction reports its own first side's
/// failure there.
pub proof fn lemma_compare_mirror(
    path_a: Seq<char>,
    path_b: Seq<char>,
    wa: Seq<WalkItemView>,
    wb: Seq<WalkItemView>,
    obs: Seq<ObservationView>,
)
    requires
        forall|i: int| 0 <= i < obs.len() ==> observation_wf(#[trigger] obs[i]),
        forall|i: int|
            0 <= i < obs.len() ==> !((#[trigger] obs[i]).hash_a matches Some(Err(_))
                && obs[i].hash_b matches Some(Err(_))),
    ensures
        spec_compare_findings(path_b, path_a, wb, wa, obs.map_values(swap_obs_fn())).to_multiset()
            == spec_compare_findings(path_a, path_b, wa, wb, obs).map_values(
            mirror_fn(),
        ).to_multiset(),
{
    broadcast use vstd::multiset::group_multiset_axioms;

    let pa = spec_dedup(spec_rel_paths(path_a, wa));
    let pb = spec_dedup(spec_rel_paths(path_b, wb));
    let ea = spec_walk_errors(wa);
    let eb = spec_walk_errors(wb);
    let ma = spec_missing_a_findings(pa, pb);
    let mb = spec_missing_b_findings(pa, pb);
    let c = spec_content_findings(path_a, path_b, obs);
    // each piece of the swapped comparison mirrors the matching piece of
    // the direct one
    lemma_find_missing_entries_mirror(pb, pa);
    lemma_content_findings_mirror(path_a, path_b, obs);
    lemma_walk_errors_kinds(wa);
    lemma_walk_errors_kinds(wb);
    assert(ea.map_values(mirror_fn()) =~= ea);
    assert(eb.map_values(mirror_fn()) =~= eb);
    let lhs = spec_compare_findings(path_b, path_a, wb, wa, obs.map_values(swap_obs_fn()));
    assert(lhs == eb + ea + mb.map_values(mirror_fn()) + ma.map_values(mirror_fn())
        + c.map_values(mirror_fn()));
    let rhs = spec_compare_findings(path_a, path_b, wa, wb, obs).map_values(mirror_fn());
    lemma_map_mirror_concat(ea + eb + ma + mb, c);
    lemma_map_mirror_concat(ea + eb + ma, mb);
    lemma_map_mirror_concat(ea + eb, ma);
    lemma_map_mirror_concat(ea, eb);
    assert(rhs == ea + eb + ma.map_values(mirror_fn()) + mb.map_values(mirror_fn())
        + c.map_values(mirror_fn()));
    // the two sides list the same five chunks, two of them exchanged
    lemma_multiset_commutative(eb + ea + mb.map_values(mirror_fn()) + ma.map_values(mirror_fn()),
        c.map_values(mirror_fn()));
    lemma_multiset_commutative(eb + ea + mb.map_values(mirror_fn()), ma.map_values(mirror_fn()));
    lemma_multiset_commutative(eb + ea, mb.map_values(mirror_fn()));
    lemma_multiset_commutative(eb, ea);
    lemma_multiset_commutative(ea + eb + ma.map_values(mirror_fn()) + mb.map_values(mirror_fn()),
        c.map_values(mirror_fn()));
    lemma_multiset_commutative(ea + eb + ma.map_values(mirror_fn()), mb.map_values(mirror_fn()));
    lemma_multiset_commutative(ea + eb, ma.map_values(mirror_fn()));
    lemma_multiset_commutative(ea, eb);
    assert(lhs.to_multiset() =~= rhs.to_multiset());
}

} // verus!
