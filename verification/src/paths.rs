//! Order, prefixes and ancestry on root-relative paths.
//!
//! Paths are plain strings; the library orders them lexicographically by
//! character value.  An ancestor is a path naming a directory that contains
//! another path, which requires a path-segment boundary after the prefix: a
//! file whose name merely begins with a sibling's name is not its
//! descendant.

use vstd::prelude::*;
use vstd::relations::{sorted_by, total_ordering};
use vstd::multiset::Multiset;
use vstd::seq_lib::{lemma_multiset_commutative, lemma_sorted_unique};

verus! {

/// The path separator.
pub open spec fn sep() -> char {
    '/'
}

/// Lexicographic order on character sequences, by character value.
pub open spec fn chars_le(a: Seq<char>, b: Seq<char>) -> bool
    decreases a.len(),
{
    if a.len() == 0 {
        true
    } else if b.len() == 0 {
        false
    } else if a[0] == b[0] {
        chars_le(a.drop_first(), b.drop_first())
    } else {
        (a[0] as u32) < (b[0] as u32)
    }
}

/// `chars_le` as a first-class relation, for `sorted_by`.
pub open spec fn path_le() -> spec_fn(Seq<char>, Seq<char>) -> bool {
    |a: Seq<char>, b: Seq<char>| chars_le(a, b)
}

pub proof fn lemma_chars_le_reflexive(a: Seq<char>)
    ensures
        chars_le(a, a),
    decreases a.len(),
{
    if a.len() > 0 {
        lemma_chars_le_reflexive(a.drop_first());
    }
}

pub proof fn lemma_chars_le_total(a: Seq<char>, b: Seq<char>)
    ensures
        chars_le(a, b) || chars_le(b, a),
    decreases a.len(),
{
    if a.len() > 0 && b.len() > 0 {
        if a[0] == b[0] {
            lemma_chars_le_total(a.drop_first(), b.drop_first());
        } else {
            vstd::utf8::char_u32_cast(a[0], a[0] as u32);
            vstd::utf8::char_u32_cast(b[0], b[0] as u32);
            assert((a[0] as u32) != (b[0] as u32));
        }
    }
}

pub proof fn lemma_chars_le_antisymmetric(a: Seq<char>, b: Seq<char>)
    requires
        chars_le(a, b),
        chars_le(b, a),
    ensures
        a == b,
    decreases a.len(),
{
    if a.len() == 0 {
        assert(b.len() == 0);
        assert(a =~= b);
    } else {
        assert(b.len() > 0);
        assert(a[0] == b[0]);
        lemma_chars_le_antisymmetric(a.drop_first(), b.drop_first());
        assert(a.drop_first().len() == b.drop_first().len());
        assert(a.len() == b.len());
        assert forall|i: int| 0 <= i < a.len() implies a[i] == b[i] by {
            if i > 0 {
                assert(a.drop_first()[i - 1] == a[i]);
                assert(b.drop_first()[i - 1] == b[i]);
            }
        }
        assert(a =~= b);
    }
}

pub proof fn lemma_chars_le_transitive(a: Seq<char>, b: Seq<char>, c: Seq<char>)
    requires
        chars_le(a, b),
        chars_le(b, c),
    ensures
        chars_le(a, c),
    decreases a.len(),
{
    if a.len() > 0 && b.len() > 0 && c.len() > 0 {
        if a[0] == b[0] && b[0] == c[0] {
            lemma_chars_le_transitive(a.drop_first(), b.drop_first(), c.drop_first());
        }
    }
}

/// Lexicographic order by character value is a total order on paths.
pub proof fn lemma_path_le_total_ordering()
    ensures
        total_ordering(path_le()),
{
    let le = path_le();
    assert forall|a: Seq<char>| #[trigger] le(a, a) by {
        lemma_chars_le_reflexive(a);
    }
    assert forall|a: Seq<char>, b: Seq<char>| #[trigger] le(a, b) && #[trigger] le(b, a)
        implies a == b by {
        lemma_chars_le_antisymmetric(a, b);
    }
    assert forall|a: Seq<char>, b: Seq<char>, c: Seq<char>|
        #[trigger] le(a, b) && #[trigger] le(b, c) implies le(a, c) by {
        lemma_chars_le_transitive(a, b, c);
    }
    assert forall|a: Seq<char>, b: Seq<char>| #[trigger] le(a, b) || #[trigger] le(b, a) by {
        lemma_chars_le_total(a, b);
    }
}

/// When the first `i` characters agree, the order is decided by the rest.
proof fn lemma_chars_le_skip(a: Seq<char>, b: Seq<char>, i: int)
    requires
        0 <= i <= a.len(),
        i <= b.len(),
        a.take(i) == b.take(i),
    ensures
        chars_le(a, b) == chars_le(a.skip(i), b.skip(i)),
    decreases i,
{
    if i > 0 {
        assert(a.take(i)[0] == a[0]);
        assert(b.take(i)[0] == b[0]);
        assert(a[0] == b[0]);
        assert(a.drop_first().take(i - 1) =~= a.take(i).drop_first());
        assert(b.drop_first().take(i - 1) =~= b.take(i).drop_first());
        lemma_chars_le_skip(a.drop_first(), b.drop_first(), i - 1);
        assert(a.drop_first().skip(i - 1) =~= a.skip(i));
        assert(b.drop_first().skip(i - 1) =~= b.skip(i));
    } else {
        assert(a.skip(0) =~= a);
        assert(b.skip(0) =~= b);
    }
}

/// Lexicographic comparison of two strings: `a` is at or before `b`.
pub fn str_le(a: &str, b: &str) -> (r: bool)
    ensures
        r == chars_le(a@, b@),
{
    let a_len = a.unicode_len();
    let b_len = b.unicode_len();
    let mut i: usize = 0;
    loop
        invariant
            i <= a_len,
            i <= b_len,
            a_len == a@.len(),
            b_len == b@.len(),
            a@.take(i as int) == b@.take(i as int),
        decreases a_len - i,
    {
        proof {
            lemma_chars_le_skip(a@, b@, i as int);
        }
        if i == a_len {
            proof {
                assert(a@.skip(i as int).len() == 0);
            }
            return true;
        }
        if i == b_len {
            proof {
                assert(b@.skip(i as int).len() == 0);
                assert(a@.skip(i as int).len() > 0);
            }
            return false;
        }
        let ca = a.get_char(i);
        let cb = b.get_char(i);
        proof {
            assert(a@.skip(i as int)[0] == a@[i as int]);
            assert(b@.skip(i as int)[0] == b@[i as int]);
        }
        if ca != cb {
            return (ca as u32) < (cb as u32);
        }
        proof {
            assert(a@.take(i as int + 1) =~= b@.take(i as int + 1));
        }
        i = i + 1;
    }
}

/// `p` is an initial run of characters of `s`.
pub open spec fn is_prefix(p: Seq<char>, s: Seq<char>) -> bool {
    p.len() <= s.len() && s.take(p.len() as int) == p
}

/// Whether `s` starts with `p`, character for character.
pub fn str_starts_with(s: &str, p: &str) -> (r: bool)
    ensures
        r == is_prefix(p@, s@),
{
    let s_len = s.unicode_len();
    let p_len = p.unicode_len();
    if p_len > s_len {
        return false;
    }
    let mut i: usize = 0;
    while i < p_len
        invariant
            i <= p_len,
            p_len <= s_len,
            s_len == s@.len(),
            p_len == p@.len(),
            forall|j: int| 0 <= j < i ==> s@[j] == p@[j],
        decreases p_len - i,
    {
        if s.get_char(i) != p.get_char(i) {
            proof {
                assert(s@.take(p@.len() as int)[i as int] != p@[i as int]);
            }
            return false;
        }
        i = i + 1;
    }
    proof {
        assert(s@.take(p@.len() as int) =~= p@);
    }
    true
}

/// The views of a sequence of strings, element for element.
pub open spec fn seq_views(s: Seq<String>) -> Seq<Seq<char>> {
    s.map_values(|x: String| x@)
}

proof fn lemma_seq_views_push(s: Seq<String>, x: String)
    ensures
        seq_views(s.push(x)) == seq_views(s).push(x@),
{
    assert(seq_views(s.push(x)) =~= seq_views(s).push(x@));
}

proof fn lemma_seq_views_insert(s: Seq<String>, j: int, x: String)
    requires
        0 <= j <= s.len(),
    ensures
        seq_views(s.insert(j, x)) == seq_views(s).insert(j, x@),
{
    assert(seq_views(s.insert(j, x)) =~= seq_views(s).insert(j, x@));
}

proof fn lemma_to_multiset_empty<A>()
    ensures
        Seq::<A>::empty().to_multiset() == Multiset::<A>::empty(),
{
    broadcast use vstd::seq_lib::group_to_multiset_ensures;
    broadcast use vstd::multiset::group_multiset_axioms;

    assert(Seq::<A>::empty().to_multiset() =~= Multiset::<A>::empty());
}

/// Inserting anywhere adds one occurrence to the multiset of elements.
proof fn lemma_to_multiset_insert<A>(s: Seq<A>, j: int, x: A)
    requires
        0 <= j <= s.len(),
    ensures
        s.insert(j, x).to_multiset() == s.to_multiset().insert(x),
{
    broadcast use vstd::seq_lib::group_to_multiset_ensures;
    broadcast use vstd::multiset::group_multiset_axioms;

    assert(s.insert(j, x) =~= s.take(j) + (seq![x] + s.skip(j)));
    lemma_multiset_commutative(s.take(j), seq![x] + s.skip(j));
    lemma_multiset_commutative(seq![x], s.skip(j));
    lemma_multiset_commutative(s.take(j), s.skip(j));
    assert(s.take(j) + s.skip(j) =~= s);
    assert(seq![x] =~= Seq::<A>::empty().push(x));
    lemma_to_multiset_empty::<A>();
    assert(seq![x].to_multiset() == Multiset::<A>::empty().insert(x));
    assert(s.insert(j, x).to_multiset() =~= s.to_multiset().insert(x));
}

/// Sorts the paths lexicographically.  The result is the unique
/// rearrangement of the input that is sorted by `path_le`.
pub fn sort_strings(v: &Vec<String>) -> (r: Vec<String>)
    ensures
        sorted_by(seq_views(r@), path_le()),
        seq_views(r@).to_multiset() == seq_views(v@).to_multiset(),
        seq_views(r@) == seq_views(v@).sort_by(path_le()),
{
    let mut r: Vec<String> = Vec::new();
    proof {
        lemma_to_multiset_empty::<Seq<char>>();
        assert(seq_views(r@) =~= Seq::<Seq<char>>::empty());
        assert(seq_views(v@.take(0)) =~= Seq::<Seq<char>>::empty());
    }
    let mut i: usize = 0;
    while i < v.len()
        invariant
            i <= v.len(),
            sorted_by(seq_views(r@), path_le()),
            seq_views(r@).to_multiset() == seq_views(v@.take(i as int)).to_multiset(),
        decreases v.len() - i,
    {
        let x = v[i].clone();
        let ghost old_r = r@;
        let ghost ov = seq_views(r@);
        let mut j: usize = 0;
        while j < r.len() && str_le(r[j].as_str(), x.as_str())
            invariant
                j <= r.len(),
                r@ == old_r,
                ov == seq_views(r@),
                forall|k: int| 0 <= k < j ==> chars_le(ov[k], x@),
            decreases r.len() - j,
        {
            proof {
                assert(ov[j as int] == r@[j as int]@);
            }
            j = j + 1;
        }
        proof {
            assert forall|a: int, b: int| 0 <= a < b < ov.len() implies chars_le(
                ov[a],
                ov[b],
            ) by {
                assert(path_le()(ov[a], ov[b]));
            }
            if (j as int) < ov.len() {
                lemma_chars_le_total(ov[j as int], x@);
            }
            let nv = ov.insert(j as int, x@);
            assert forall|p: int, q: int| 0 <= p < q < nv.len() implies path_le()(
                nv[p],
                nv[q],
            ) by {
                let vp = if p < j { ov[p] } else if p == j { x@ } else { ov[p - 1] };
                let vq = if q < j { ov[q] } else if q == j { x@ } else { ov[q - 1] };
                assert(nv[p] == vp);
                assert(nv[q] == vq);
                if q < j as int {
                    // both below the insertion point: previous sortedness
                } else if p < j && q == j {
                    assert(chars_le(ov[p], x@));
                } else if p == j {
                    // x@ goes before the element the scan stopped at
                    assert(chars_le(x@, ov[j as int]));
                    if q > j + 1 {
                        lemma_chars_le_transitive(x@, ov[j as int], ov[q - 1]);
                    }
                } else if p < j && q > j {
                    // p < j <= q - 1, so previous sortedness applies
                    assert(chars_le(ov[p], ov[q - 1]));
                } else {
                    assert(p > j);
                    assert(chars_le(ov[p - 1], ov[q - 1]));
                }
                assert(chars_le(vp, vq));
            }
            lemma_seq_views_insert(r@, j as int, x);
            lemma_to_multiset_insert(ov, j as int, x@);
            lemma_seq_views_push(v@.take(i as int), v@[i as int]);
            assert(v@.take(i as int + 1) =~= v@.take(i as int).push(v@[i as int]));
            broadcast use vstd::seq_lib::group_to_multiset_ensures;

            assert(seq_views(v@.take(i as int + 1)).to_multiset() == seq_views(
                v@.take(i as int),
            ).to_multiset().insert(x@));
        }
        r.insert(j, x);
        i = i + 1;
    }
    proof {
        assert(v@.take(v@.len() as int) =~= v@);
        lemma_path_le_total_ordering();
        seq_views(v@).lemma_sort_by_ensures(path_le());
        lemma_sorted_unique(seq_views(r@), seq_views(v@).sort_by(path_le()), path_le());
    }
    r
}

/// `anc` names a directory that contains `p`: the empty relative path (the
/// root) contains every other entry; otherwise `anc` must be a proper prefix
/// of `p` followed by a path separator, so that a path merely beginning with
/// a sibling's name does not count as its descendant.
pub open spec fn is_ancestor(anc: Seq<char>, p: Seq<char>) -> bool {
    ||| (anc.len() == 0 && p.len() > 0)
    ||| (anc.len() < p.len() && p.take(anc.len() as int) == anc && p[anc.len() as int] == sep())
}

/// Whether the entry at `p` lies inside the directory at `anc`.
pub fn path_is_ancestor(anc: &str, p: &str) -> (r: bool)
    ensures
        r == is_ancestor(anc@, p@),
{
    let anc_len = anc.unicode_len();
    let p_len = p.unicode_len();
    if anc_len == 0 {
        return p_len > 0;
    }
    if anc_len >= p_len {
        return false;
    }
    if !str_starts_with(p, anc) {
        return false;
    }
    p.get_char(anc_len) == '/'
}

/// One pass of the collapser over a sorted run: a path is dropped when the
/// most recently kept path is an ancestor of it, otherwise it is kept and
/// becomes the new reference.
pub open spec fn spec_collapse_from(s: Seq<Seq<char>>, last: Seq<char>) -> Seq<Seq<char>>
    decreases s.len(),
{
    if s.len() == 0 {
        Seq::empty()
    } else if is_ancestor(last, s[0]) {
        spec_collapse_from(s.drop_first(), last)
    } else {
        seq![s[0]] + spec_collapse_from(s.drop_first(), s[0])
    }
}

/// Collapse of a sorted sequence of paths: the first path is always kept,
/// every later one only when the previously kept path is not an ancestor of
/// it.  Sorting puts a directory right before its descendants, so one pass
/// removes every entry that a kept ancestor already covers.
pub open spec fn spec_collapse(s: Seq<Seq<char>>) -> Seq<Seq<char>> {
    if s.len() == 0 {
        Seq::empty()
    } else {
        seq![s[0]] + spec_collapse_from(s.drop_first(), s[0])
    }
}

/// Sorts the paths and removes every path that lies inside a directory
/// already present in the set, so a missing directory is reported once and
/// not once per contained entry.
pub fn remove_subdirectories(paths: &Vec<String>) -> (r: Vec<String>)
    ensures
        seq_views(r@) == spec_collapse(seq_views(paths@).sort_by(path_le())),
{
    let sorted = sort_strings(paths);
    let ghost vs = seq_views(sorted@);
    let mut r: Vec<String> = Vec::new();
    proof {
        assert(seq_views(r@) =~= Seq::<Seq<char>>::empty());
    }
    if sorted.len() == 0 {
        return r;
    }
    let first = sorted[0].clone();
    proof {
        let ghost prev = seq_views(r@);
        lemma_seq_views_push(r@, first);
        assert(prev.push(first@) =~= seq![vs[0]]);
    }
    r.push(first);
    let mut i: usize = 1;
    while i < sorted.len()
        invariant
            1 <= i <= sorted.len(),
            vs == seq_views(sorted@),
            vs.len() == sorted@.len(),
            r@.len() > 0,
            spec_collapse(vs) == seq_views(r@) + spec_collapse_from(
                vs.skip(i as int),
                seq_views(r@).last(),
            ),
        decreases sorted.len() - i,
    {
        let ghost rv = seq_views(r@);
        proof {
            assert(rv[r@.len() - 1] == r@[r@.len() - 1]@);
            assert(vs[i as int] == sorted@[i as int]@);
            assert(vs.skip(i as int)[0] == vs[i as int]);
            assert(vs.skip(i as int).drop_first() =~= vs.skip(i as int + 1));
        }
        let last_kept = r.len() - 1;
        if !path_is_ancestor(r[last_kept].as_str(), sorted[i].as_str()) {
            let kept = sorted[i].clone();
            proof {
                lemma_seq_views_push(r@, kept);
                assert(seq_views(r@) + (seq![vs[i as int]] + spec_collapse_from(
                    vs.skip(i as int + 1),
                    vs[i as int],
                )) =~= seq_views(r@).push(kept@) + spec_collapse_from(
                    vs.skip(i as int + 1),
                    vs[i as int],
                ));
            }
            r.push(kept);
        }
        i = i + 1;
    }
    proof {
        assert(vs.skip(vs.len() as int).len() == 0);
        assert(seq_views(r@) + Seq::<Seq<char>>::empty() =~= seq_views(r@));
    }
    r
}

proof fn lemma_collapse_from_subset(s: Seq<Seq<char>>, last: Seq<char>)
    ensures
        forall|x: Seq<char>| #[trigger] spec_collapse_from(s, last).contains(x) ==> s.contains(x),
    decreases s.len(),
{
    if s.len() > 0 {
        let t = s.drop_first();
        lemma_collapse_from_subset(t, last);
        lemma_collapse_from_subset(t, s[0]);
        assert forall|x: Seq<char>| #[trigger] spec_collapse_from(s, last).contains(x) implies s.contains(
            x,
        ) by {
            let kept = spec_collapse_from(s, last);
            let i = choose|i: int| 0 <= i < kept.len() && kept[i] == x;
            if is_ancestor(last, s[0]) {
                assert(spec_collapse_from(t, last).contains(x));
                let j = choose|j: int| 0 <= j < t.len() && t[j] == x;
                assert(s[j + 1] == x);
            } else if i == 0 {
                assert(s[0] == x);
            } else {
                assert(spec_collapse_from(t, s[0])[i - 1] == x);
                assert(spec_collapse_from(t, s[0]).contains(x));
                let j = choose|j: int| 0 <= j < t.len() && t[j] == x;
                assert(s[j + 1] == x);
            }
        }
    }
}

/// Every path the collapser keeps was in its input.
pub proof fn lemma_collapse_subset(s: Seq<Seq<char>>)
    ensures
        forall|x: Seq<char>| #[trigger] spec_collapse(s).contains(x) ==> s.contains(x),
{
    if s.len() > 0 {
        let t = s.drop_first();
        lemma_collapse_from_subset(t, s[0]);
        assert forall|x: Seq<char>| #[trigger] spec_collapse(s).contains(x) implies s.contains(
            x,
        ) by {
            let kept = spec_collapse(s);
            let i = choose|i: int| 0 <= i < kept.len() && kept[i] == x;
            if i == 0 {
                assert(s[0] == x);
            } else {
                assert(spec_collapse_from(t, s[0])[i - 1] == x);
                assert(spec_collapse_from(t, s[0]).contains(x));
                let j = choose|j: int| 0 <= j < t.len() && t[j] == x;
                assert(s[j + 1] == x);
            }
        }
    }
}

proof fn lemma_collapse_from_no_ancestors(s: Seq<Seq<char>>, last: Seq<char>)
    requires
        forall|k: int| 0 <= k < s.len() ==> !is_ancestor(last, #[trigger] s[k]),
        forall|i: int, j: int|
            0 <= i < s.len() && 0 <= j < s.len() && i != j ==> !is_ancestor(s[i], s[j]),
    ensures
        spec_collapse_from(s, last) == s,
    decreases s.len(),
{
    if s.len() > 0 {
        let t = s.drop_first();
        assert forall|k: int| 0 <= k < t.len() implies !is_ancestor(s[0], #[trigger] t[k]) by {
            assert(t[k] == s[k + 1]);
        }
        assert forall|i: int, j: int|
            0 <= i < t.len() && 0 <= j < t.len() && i != j implies !is_ancestor(t[i], t[j]) by {
            assert(t[i] == s[i + 1]);
            assert(t[j] == s[j + 1]);
        }
        lemma_collapse_from_no_ancestors(t, s[0]);
        assert(spec_collapse_from(s, last) =~= s);
    }
}

/// When no path of the set lies inside another (for example two files whose
/// names merely share a prefix), collapsing changes nothing.
pub proof fn lemma_collapse_no_ancestors(s: Seq<Seq<char>>)
    requires
        forall|i: int, j: int|
            0 <= i < s.len() && 0 <= j < s.len() && i != j ==> !is_ancestor(s[i], s[j]),
    ensures
        spec_collapse(s) == s,
{
    if s.len() > 0 {
        let t = s.drop_first();
        assert forall|i: int, j: int|
            0 <= i < t.len() && 0 <= j < t.len() && i != j implies !is_ancestor(t[i], t[j]) by {
            assert(t[i] == s[i + 1]);
            assert(t[j] == s[j + 1]);
        }
        assert forall|k: int| 0 <= k < t.len() implies !is_ancestor(s[0], #[trigger] t[k]) by {
            assert(t[k] == s[k + 1]);
        }
        lemma_collapse_from_no_ancestors(t, s[0]);
        assert(spec_collapse(s) =~= s);
    }
}

/// Image of `strip_root`: the root itself maps to the empty relative path,
/// an entry under the root loses the root and the separator, anything else
/// is rejected.
pub open spec fn spec_strip_root(root: Seq<char>, full: Seq<char>) -> Option<Seq<char>> {
    if full == root {
        Some(Seq::empty())
    } else if root.len() < full.len() && full.take(root.len() as int) == root && full[root.len() as int]
        == sep() {
        Some(full.skip(root.len() as int + 1))
    } else {
        None
    }
}

/// Removes the traversal root (and the following separator) from the path
/// of a visited entry; `None` when the entry does not lie under the root.
pub fn strip_root(root: &str, full: &str) -> (r: Option<String>)
    ensures
        match r {
            Some(rel) => spec_strip_root(root@, full@) == Some(rel@),
            None => spec_strip_root(root@, full@) is None,
        },
{
    let root_len = root.unicode_len();
    let full_len = full.unicode_len();
    if root_len == full_len && str_starts_with(full, root) {
        proof {
            assert(full@.take(root@.len() as int) =~= full@);
        }
        return Some(String::new());
    }
    if root_len < full_len && str_starts_with(full, root) && full.get_char(root_len) == '/' {
        proof {
            assert(full@ != root@) by {
                assert(full@.len() != root@.len());
            }
        }
        let rel = full.substring_char(root_len + 1, full_len);
        return Some(rel.to_owned());
    }
    proof {
        if full@ == root@ {
            assert(full@.take(root@.len() as int) =~= root@);
        }
    }
    None
}

} // verus!
