use vstd::prelude::*;

use crate::flare::FlareTreeNode;
use crate::git::{seq_char_lt, GitNodeData};
use crate::polyglot_data::{CouplingMetadata, PolyglotData};

verus! {

/// A relative path as its components; paths here never start with a
/// separator and never contain empty components.
#[derive(Debug)]
pub struct PathVec {
    pub components: Vec<String>,
}

impl View for PathVec {
    type V = Seq<Seq<char>>;

    open spec fn view(&self) -> Seq<Seq<char>> {
        self.components@.map_values(|s: String| s@)
    }
}

impl Clone for PathVec {
    fn clone(&self) -> (r: Self)
        ensures
            r@ == self@,
    {
        let mut out: Vec<String> = Vec::new();
        let n = self.components.len();
        let mut i: usize = 0;
        while i < n
            invariant
                n == self.components@.len(),
                i <= n,
                out@.len() == i,
                forall|j: int| 0 <= j < i ==> (#[trigger] out@[j])@ == self.components@[j]@,
            decreases n - i,
        {
            out.push(self.components[i].clone());
            i += 1;
        }
        let r = PathVec { components: out };
        proof {
            assert(r@ =~= self@);
        }
        r
    }
}

impl PathVec {
    pub fn new() -> (r: Self)
        ensures
            r@ == Seq::<Seq<char>>::empty(),
    {
        let r = PathVec { components: Vec::new() };
        proof {
            assert(r@ =~= Seq::<Seq<char>>::empty());
        }
        r
    }

    pub fn push(&mut self, component: &str)
        ensures
            final(self)@ == old(self)@.push(component@),
    {
        self.components.push(String::from_str(component));
        proof {
            assert(self@ =~= old(self)@.push(component@));
        }
    }

    /// Split a '/'-separated path into its components; empty segments are
    /// dropped, so doubled separators collapse. Every component is a
    /// nonempty, separator-free stretch of the input.
    #[verifier::loop_isolation(false)]
    pub fn from_path(path: &str) -> (r: Self)
        ensures
            forall|i: int|
                0 <= i < r@.len() ==> (#[trigger] r@[i]).len() > 0 && (forall|k: int|
                    0 <= k < r@[i].len() ==> r@[i][k] != '/'),
            path@.len() == 0 ==> r@.len() == 0,
    {
        let mut components: Vec<String> = Vec::new();
        let n = path.unicode_len();
        let mut start: usize = 0;
        let mut i: usize = 0;
        while i < n
            invariant
                i <= n,
                start <= i,
                n == path@.len(),
                n == 0 ==> components@.len() == 0,
                forall|k: int| start <= k < i ==> path@[k] != '/',
                forall|j: int|
                    0 <= j < components@.len() ==> (#[trigger] components@[j])@.len() > 0 && (
                    forall|k: int| 0 <= k < components@[j]@.len() ==> components@[j]@[k] != '/'),
            decreases n - i,
        {
            if path.get_char(i) == '/' {
                if start < i {
                    let component = path.substring_char(start, i);
                    proof {
                        assert(forall|k: int|
                            0 <= k < component@.len() ==> component@[k] == path@[k + start]);
                    }
                    components.push(String::from_str(component));
                }
                start = i + 1;
            }
            i += 1;
        }
        if start < n {
            let component = path.substring_char(start, n);
            proof {
                assert(forall|k: int|
                    0 <= k < component@.len() ==> component@[k] == path@[k + start]);
            }
            components.push(String::from_str(component));
        }
        let r = PathVec { components };
        proof {
            assert(forall|j: int| 0 <= j < r@.len() ==> r@[j] == components@[j]@);
        }
        r
    }

    /// The components joined with '/'.
    #[verifier::loop_isolation(false)]
    pub fn to_path_string(&self) -> (r: String)
        ensures
            r@ == spec_join_path(self@),
    {
        let mut out = String::new();
        let n = self.components.len();
        let mut i: usize = 0;
        proof {
            reveal_strlit("/");
            assert(out@ =~= spec_join_path(self@.take(0)));
        }
        while i < n
            invariant
                n == self.components@.len(),
                i <= n,
                out@ == spec_join_path(self@.take(i as int)),
            decreases n - i,
        {
            proof {
                assert(self@.take(i + 1).drop_last() =~= self@.take(i as int));
                assert(self@.take(i + 1).last() == self@[i as int]);
            }
            if i > 0 {
                out.append("/");
                proof {
                    assert("/"@ =~= seq!['/']);
                }
            }
            out.append(self.components[i].as_str());
            proof {
                assert(out@ =~= spec_join_path(self@.take(i + 1)));
            }
            i += 1;
        }
        proof {
            assert(self@.take(n as int) =~= self@);
        }
        out
    }

    pub fn same_as(&self, other: &PathVec) -> (r: bool)
        ensures
            r == (self@ == other@),
    {
        if self.components.len() != other.components.len() {
            proof {
                if self@ == other@ {
                    assert(self@.len() == other@.len());
                }
            }
            return false;
        }
        let n = self.components.len();
        let mut i: usize = 0;
        while i < n
            invariant
                n == self.components@.len(),
                n == other.components@.len(),
                i <= n,
                forall|j: int| 0 <= j < i ==> self@[j] == other@[j],
            decreases n - i,
        {
            if !self.components[i].eq(&other.components[i]) {
                proof {
                    if self@ == other@ {
                        assert(self@[i as int] == other@[i as int]);
                    }
                }
                return false;
            }
            i += 1;
        }
        proof {
            assert(self@ =~= other@);
        }
        true
    }
}

/// The components of a path joined with '/'.
pub open spec fn spec_join_path(p: Seq<Seq<char>>) -> Seq<char>
    decreases p.len(),
{
    if p.len() == 0 {
        Seq::empty()
    } else if p.len() == 1 {
        p[0]
    } else {
        spec_join_path(p.drop_last()) + seq!['/'] + p.last()
    }
}

/// Whether a list of paths holds this one.
pub open spec fn contains_path(rs: Seq<PathVec>, p: Seq<Seq<char>>) -> bool {
    exists|i: int| 0 <= i < rs.len() && (#[trigger] rs[i])@ == p
}

/// Strict lexicographic order on paths, component by component.
pub open spec fn path_lt(a: Seq<Seq<char>>, b: Seq<Seq<char>>) -> bool
    decreases a.len() + b.len(),
{
    if b.len() == 0 {
        false
    } else if a.len() == 0 {
        true
    } else if seq_char_lt(a[0], b[0]) {
        true
    } else if seq_char_lt(b[0], a[0]) {
        false
    } else if a[0] == b[0] {
        path_lt(a.drop_first(), b.drop_first())
    } else {
        false
    }
}

fn path_before(a: &PathVec, b: &PathVec) -> (r: bool)
    ensures
        r == path_lt(a@, b@),
{
    let alen = a.components.len();
    let blen = b.components.len();
    let mut i: usize = 0;
    proof {
        assert(a@.skip(0) =~= a@);
        assert(b@.skip(0) =~= b@);
    }
    loop
        invariant
            i <= alen,
            i <= blen,
            alen == a@.len(),
            blen == b@.len(),
            path_lt(a@, b@) == path_lt(a@.skip(i as int), b@.skip(i as int)),
        decreases alen - i,
    {
        proof {
            if i < blen {
                assert(b@.skip(i as int)[0] == b@[i as int]);
            }
            if i < alen {
                assert(a@.skip(i as int)[0] == a@[i as int]);
            }
        }
        if i >= blen {
            proof {
                assert(b@.skip(i as int).len() == 0);
            }
            return false;
        }
        if i >= alen {
            proof {
                assert(a@.skip(i as int).len() == 0);
                assert(b@.skip(i as int).len() > 0);
            }
            return true;
        }
        if crate::git::str_before(a.components[i].as_str(), b.components[i].as_str()) {
            return true;
        }
        if crate::git::str_before(b.components[i].as_str(), a.components[i].as_str()) {
            return false;
        }
        if !a.components[i].eq(&b.components[i]) {
            return false;
        }
        proof {
            assert(a@.skip(i as int).drop_first() =~= a@.skip(i + 1));
            assert(b@.skip(i as int).drop_first() =~= b@.skip(i + 1));
        }
        i += 1;
    }
}

/// How many leading components two paths share.
pub open spec fn spec_common_roots(a: Seq<Seq<char>>, b: Seq<Seq<char>>) -> int
    decreases a.len() + b.len(),
{
    if a.len() == 0 || b.len() == 0 {
        0
    } else if a[0] == b[0] {
        1 + spec_common_roots(a.drop_first(), b.drop_first())
    } else {
        0
    }
}

/// Count the components two paths share from the root down.
pub fn common_roots(path1: &PathVec, path2: &PathVec) -> (r: usize)
    ensures
        r == spec_common_roots(path1@, path2@),
        r <= path1@.len() && r <= path2@.len(),
{
    let n1 = path1.components.len();
    let n2 = path2.components.len();
    let mut common: usize = 0;
    proof {
        assert(path1@.skip(0) =~= path1@);
        assert(path2@.skip(0) =~= path2@);
        lemma_common_roots_bound(path1@, path2@);
    }
    loop
        invariant
            common <= n1,
            common <= n2,
            n1 == path1@.len(),
            n2 == path2@.len(),
            spec_common_roots(path1@, path2@) == common + spec_common_roots(
                path1@.skip(common as int),
                path2@.skip(common as int),
            ),
        decreases n1 - common,
    {
        proof {
            if common < n1 {
                assert(path1@.skip(common as int)[0] == path1@[common as int]);
            }
            if common < n2 {
                assert(path2@.skip(common as int)[0] == path2@[common as int]);
            }
        }
        if common >= n1 || common >= n2 {
            proof {
                assert(spec_common_roots(
                    path1@.skip(common as int),
                    path2@.skip(common as int),
                ) == 0);
            }
            return common;
        }
        if !path1.components[common].eq(&path2.components[common]) {
            proof {
                assert(spec_common_roots(
                    path1@.skip(common as int),
                    path2@.skip(common as int),
                ) == 0);
            }
            return common;
        }
        proof {
            assert(path1@.skip(common as int).drop_first() =~= path1@.skip(common + 1));
            assert(path2@.skip(common as int).drop_first() =~= path2@.skip(common + 1));
        }
        common += 1;
    }
}

proof fn lemma_common_roots_bound(a: Seq<Seq<char>>, b: Seq<Seq<char>>)
    ensures
        0 <= spec_common_roots(a, b) <= a.len(),
        spec_common_roots(a, b) <= b.len(),
    decreases a.len() + b.len(),
{
    if a.len() == 0 || b.len() == 0 {
    } else if a[0] == b[0] {
        lemma_common_roots_bound(a.drop_first(), b.drop_first());
    }
}

/// The tree-relationship distance: 0 for the same path, 1 for siblings, 2
/// for cousins and uncle-or-nephew pairs, and so on; nothing when the paths
/// share no root at all.
pub open spec fn spec_distance(a: Seq<Seq<char>>, b: Seq<Seq<char>>) -> Option<int> {
    if spec_common_roots(a, b) == 0 {
        Option::None
    } else if b.len() > a.len() {
        Option::Some(b.len() - spec_common_roots(a, b))
    } else {
        Option::Some(a.len() - spec_common_roots(a, b))
    }
}

pub fn relationship_distance(path1: &PathVec, path2: &PathVec) -> (r: Option<usize>)
    ensures
        match r {
            Option::Some(v) => spec_distance(path1@, path2@) == Option::Some(v as int),
            Option::None => spec_distance(path1@, path2@) is None,
        },
{
    let common = common_roots(path1, path2);
    relationship_distance_with_common_precalculated(path1, path2, common)
}

pub fn relationship_distance_with_common_precalculated(
    path1: &PathVec,
    path2: &PathVec,
    common_root_count: usize,
) -> (r: Option<usize>)
    requires
        common_root_count == spec_common_roots(path1@, path2@),
    ensures
        match r {
            Option::Some(v) => spec_distance(path1@, path2@) == Option::Some(v as int),
            Option::None => spec_distance(path1@, path2@) is None,
        },
{
    if common_root_count == 0 {
        return Option::None;
    }
    proof {
        lemma_common_roots_bound(path1@, path2@);
    }
    let depth1 = path1.components.len();
    let depth2 = path2.components.len();
    if depth2 > depth1 {
        Option::Some(depth2 - common_root_count)
    } else {
        Option::Some(depth1 - common_root_count)
    }
}

/// Whether a pair of files may couple: the shared prefix must not be too
/// long, and the relationship distance not too short.
pub open spec fn spec_filter_file(
    min_distance: int,
    max_common_roots: Option<int>,
    a: Seq<Seq<char>>,
    b: Seq<Seq<char>>,
) -> bool {
    &&& (match max_common_roots {
        Option::Some(m) => spec_common_roots(a, b) <= m,
        Option::None => true,
    })
    &&& (match spec_distance(a, b) {
        Option::Some(dist) => dist >= min_distance,
        Option::None => true,
    })
}

pub fn filter_file(
    min_distance: usize,
    max_common_roots: Option<usize>,
    path1: &PathVec,
    path2: &PathVec,
) -> (r: bool)
    ensures
        r == spec_filter_file(
            min_distance as int,
            match max_common_roots {
                Option::Some(m) => Option::Some(m as int),
                Option::None => Option::None,
            },
            path1@,
            path2@,
        ),
{
    let common_root_count = common_roots(path1, path2);
    match max_common_roots {
        Option::Some(m) => {
            if common_root_count > m {
                return false;
            }
        },
        Option::None => {},
    }
    let distance = relationship_distance_with_common_precalculated(
        path1,
        path2,
        common_root_count,
    );
    match distance {
        Option::Some(d) => d >= min_distance,
        Option::None => true,
    }
}

/// An ascending list of timestamps.
pub open spec fn sorted_times(s: Seq<u64>) -> bool {
    forall|i: int, j: int| 0 <= i < j < s.len() ==> s[i] < s[j]
}

/// Whether a tree node is worth coupling on at a time: it counts lines of
/// code, and some git activity at exactly that time moved lines.
pub open spec fn node_changed_at(n: FlareTreeNode, t: u64) -> bool {
    &&& (match n.spec_data().loc {
        Option::Some(loc) => loc.code > 0,
        Option::None => false,
    })
    &&& (match n.spec_data().git {
        Option::Some(GitNodeData::File { data }) => exists|a: int|
            0 <= a < data.activity@.len() && (#[trigger] data.activity@[a]).commit_time == t && (
            data.activity@[a].lines_added > 0 || data.activity@[a].lines_deleted > 0),
        _ => false,
    })
}

/// Whether the tree under `n` holds a qualifying change of the node at the
/// relative path `rel` at time `t`.
pub open spec fn tree_changed_at(n: FlareTreeNode, rel: Seq<Seq<char>>, t: u64) -> bool {
    match crate::flare::spec_get_in(n, rel) {
        Option::Some(target) => node_changed_at(target, t),
        Option::None => false,
    }
}

/// A change of `(p, t)` contributed by the subtree rooted at `n`, which
/// stands at path `base`.
pub open spec fn subtree_changed(
    n: FlareTreeNode,
    base: Seq<Seq<char>>,
    p: Seq<Seq<char>>,
    t: u64,
) -> bool {
    base.len() <= p.len() && p.take(base.len() as int) == base && tree_changed_at(
        n,
        p.skip(base.len() as int),
        t,
    )
}

/// Every file change worth coupling on: for each file its ascending change
/// times, and for each time the files changed then. Only files with code
/// lines and with changes that moved lines are recorded.
#[derive(Debug)]
pub struct FileChangeTimestamps {
    /// one entry per file: the path and its ascending change times
    pub file_changes: Vec<(PathVec, Vec<u64>)>,
    /// ascending change times, each with the files changed at that time
    pub timestamps: Vec<(u64, Vec<usize>)>,
}

impl FileChangeTimestamps {
    pub closed spec fn wf(&self) -> bool {
        &&& forall|i: int|
            0 <= i < self.file_changes@.len() ==> sorted_times(
                (#[trigger] self.file_changes@[i]).1@,
            )
        &&& forall|i: int, j: int|
            0 <= i < j < self.timestamps@.len() ==> (#[trigger] self.timestamps@[i]).0 < (
            #[trigger] self.timestamps@[j]).0
        &&& forall|i: int, c: int|
            0 <= i < self.timestamps@.len() && 0 <= c < self.timestamps@[i].1@.len()
                ==> (#[trigger] self.timestamps@[i].1@[c]) < self.file_changes@.len()
    }

    /// The per-file index holds a change of path `p` at time `t`.
    pub open spec fn records(&self, p: Seq<Seq<char>>, t: u64) -> bool {
        exists|i: int|
            0 <= i < self.file_changes@.len() && (#[trigger] self.file_changes@[i]).0@ == p
                && self.file_changes@[i].1@.contains(t)
    }

    /// The timestamp index lists a change of path `p` at time `t`.
    pub open spec fn listed(&self, p: Seq<Seq<char>>, t: u64) -> bool {
        exists|i: int, c: int|
            0 <= i < self.timestamps@.len() && self.timestamps@[i].0 == t && 0 <= c
                < self.timestamps@[i].1@.len() && 0 <= (#[trigger] self.timestamps@[i].1@[c])
                < self.file_changes@.len() && self.file_changes@[self.timestamps@[i].1@[c] as int].0@ == p
    }

    /// Walk the tree and record, for every file with code lines, each commit
    /// time at which lines were actually added or deleted. The two indexes
    /// are transposes of each other; when sibling names are unambiguous,
    /// they hold `(p, t)` exactly when the node at `p` qualifies at `t`.
    pub fn new(root: &FlareTreeNode) -> (r: Self)
        ensures
            r.wf(),
            forall|p: Seq<Seq<char>>, t: u64| #[trigger] r.listed(p, t) == r.records(p, t),
            root.addressable() ==> forall|p: Seq<Seq<char>>, t: u64| #[trigger] r.records(p, t)
                == tree_changed_at(*root, p, t),
    {
        let mut stats = FileChangeTimestamps { file_changes: Vec::new(), timestamps: Vec::new() };
        let path = PathVec::new();
        proof {
            assert forall|p: Seq<Seq<char>>, t: u64| !#[trigger] stats.records(p, t) by {}
            assert forall|p: Seq<Seq<char>>, t: u64| !#[trigger] stats.listed(p, t) by {}
        }
        accumulate_files(&mut stats, root, path);
        proof {
            if root.addressable() {
                assert forall|p: Seq<Seq<char>>, t: u64| #[trigger] stats.records(p, t)
                    == tree_changed_at(*root, p, t) by {
                    assert(subtree_changed(*root, Seq::<Seq<char>>::empty(), p, t)
                        == tree_changed_at(*root, p, t)) by {
                        assert(p.take(0) =~= Seq::<Seq<char>>::empty());
                        assert(p.skip(0) =~= p);
                    }
                }
            }
        }
        stats
    }

    pub fn is_empty(&self) -> (r: bool)
        ensures
            r == (self.timestamps@.len() == 0),
    {
        self.timestamps.len() == 0
    }

    pub fn earliest(&self) -> (r: Option<u64>)
        ensures
            (r is Some) == (self.timestamps@.len() > 0),
            self.timestamps@.len() > 0 ==> r == Option::Some(self.timestamps@[0].0),
    {
        if self.timestamps.len() == 0 {
            Option::None
        } else {
            Option::Some(self.timestamps[0].0)
        }
    }

    pub fn latest(&self) -> (r: Option<u64>)
        ensures
            (r is Some) == (self.timestamps@.len() > 0),
            self.timestamps@.len() > 0 ==> r == Option::Some(
                self.timestamps@[self.timestamps@.len() - 1].0,
            ),
    {
        if self.timestamps.len() == 0 {
            Option::None
        } else {
            Option::Some(self.timestamps[self.timestamps.len() - 1].0)
        }
    }

    /// The earliest and latest timestamps must exist and be ordered when
    /// anything was recorded.
    pub proof fn lemma_earliest_le_latest(&self)
        requires
            self.wf(),
            self.timestamps@.len() > 0,
        ensures
            self.timestamps@[0].0 <= self.timestamps@[self.timestamps@.len() - 1].0,
    {
    }

    /// Record one change of one file at one time: both indexes gain exactly
    /// the pair (that file's path, the time), and nothing else changes.
    #[verifier::rlimit(100)]
    #[verifier::loop_isolation(false)]
    fn record(&mut self, file_index: usize, time: u64)
        requires
            old(self).wf(),
            file_index < old(self).file_changes@.len(),
        ensures
            final(self).wf(),
            final(self).file_changes@.len() == old(self).file_changes@.len(),
            forall|i: int|
                0 <= i < old(self).file_changes@.len()
                    ==> (#[trigger] final(self).file_changes@[i]).0@ == old(
                    self,
                ).file_changes@[i].0@,
            forall|p: Seq<Seq<char>>, t: u64| #[trigger] final(self).records(p, t) == (old(
                self,
            ).records(p, t) || (p == old(self).file_changes@[file_index as int].0@ && t == time)),
            forall|p: Seq<Seq<char>>, t: u64| #[trigger] final(self).listed(p, t) == (old(
                self,
            ).listed(p, t) || (p == old(self).file_changes@[file_index as int].0@ && t == time)),
    {
        // insert the time into the file's ascending list
        let ghost before = self.file_changes@;
        let ghost fpath = before[file_index as int].0@;
        let mut pair = self.file_changes.remove(file_index);
        insert_time(&mut pair.1, time);
        self.file_changes.insert(file_index, pair);
        proof {
            assert forall|i: int|
                0 <= i < self.file_changes@.len() implies sorted_times(
                (#[trigger] self.file_changes@[i]).1@,
            ) by {
                if i != file_index {
                    assert(self.file_changes@[i] == before[i]);
                }
            }
            assert(self.file_changes@.len() == before.len());
            assert(forall|i: int|
                0 <= i < before.len() && i != file_index ==> #[trigger] self.file_changes@[i]
                    == before[i]);
            assert(self.file_changes@[file_index as int].0@ == fpath);
            assert(forall|t: u64|
                #[trigger] self.file_changes@[file_index as int].1@.contains(t) == (before[
                file_index as int].1@.contains(t) || t == time));
            assert forall|i: int, c: int|
                0 <= i < self.timestamps@.len() && 0 <= c < self.timestamps@[i].1@.len()
                implies (#[trigger] self.timestamps@[i].1@[c]) < self.file_changes@.len() by {
            }
            // the per-file index now records exactly the old pairs plus ours
            assert forall|p: Seq<Seq<char>>, t: u64| #[trigger] self.records(p, t) == (old(
                self,
            ).records(p, t) || (p == fpath && t == time)) by {
                if self.records(p, t) {
                    let i = choose|i: int|
                        0 <= i < self.file_changes@.len() && (#[trigger] self.file_changes@[i]).0@
                            == p && self.file_changes@[i].1@.contains(t);
                    if i != file_index {
                        assert(before[i].0@ == p && before[i].1@.contains(t));
                    }
                }
                if old(self).records(p, t) {
                    let i = choose|i: int|
                        0 <= i < before.len() && (#[trigger] before[i]).0@ == p && before[
                        i].1@.contains(t);
                    if i != file_index {
                        assert(self.file_changes@[i].0@ == p && self.file_changes@[
                        i].1@.contains(t));
                    } else {
                        assert(self.file_changes@[i].0@ == p && self.file_changes@[
                        i].1@.contains(t));
                    }
                }
                if p == fpath && t == time {
                    assert(self.file_changes@[file_index as int].0@ == p && self.file_changes@[
                    file_index as int].1@.contains(t));
                }
            }
            // the timestamp index is untouched so far, but its entries now
            // point into a same-path list
            assert forall|p: Seq<Seq<char>>, t: u64| #[trigger] self.listed(p, t) == old(
                self,
            ).listed(p, t) by {
                if self.listed(p, t) {
                    let (i, c) = choose|i: int, c: int|
                        0 <= i < self.timestamps@.len() && self.timestamps@[i].0 == t && 0 <= c
                            < self.timestamps@[i].1@.len() && 0 <= (#[trigger] self.timestamps@[
                        i].1@[c]) < self.file_changes@.len() && self.file_changes@[
                        self.timestamps@[i].1@[c] as int].0@ == p;
                    assert(before[self.timestamps@[i].1@[c] as int].0@ == p);
                }
                if old(self).listed(p, t) {
                    let (i, c) = choose|i: int, c: int|
                        0 <= i < old(self).timestamps@.len() && old(self).timestamps@[i].0 == t
                            && 0 <= c < old(self).timestamps@[i].1@.len() && 0 <= (#[trigger] old(
                        self).timestamps@[i].1@[c]) < before.len() && before[old(
                        self).timestamps@[i].1@[c] as int].0@ == p;
                    assert(self.file_changes@[self.timestamps@[i].1@[c] as int].0@ == p);
                }
            }
        }
        let ghost mid_listed_state = *self;
        // insert the time and file into the ascending timestamp index
        let n = self.timestamps.len();
        let mut pos: usize = 0;
        while pos < n && self.timestamps[pos].0 < time
            invariant
                self.wf(),
                self.file_changes@.len() == old(self).file_changes@.len(),
                n == self.timestamps@.len(),
                pos <= n,
                forall|j: int| 0 <= j < pos ==> (#[trigger] self.timestamps@[j]).0 < time,
            decreases n - pos,
        {
            pos += 1;
        }
        if pos < n && self.timestamps[pos].0 == time {
            let ghost tsbefore = self.timestamps@;
            let ghost oldfiles = tsbefore[pos as int].1@;
            let mut entry = self.timestamps.remove(pos);
            push_file(&mut entry.1, file_index);
            self.timestamps.insert(pos, entry);
            proof {
                assert(self.timestamps@.len() == tsbefore.len());
                assert(forall|i: int|
                    0 <= i < tsbefore.len() && i != pos ==> #[trigger] self.timestamps@[i]
                        == tsbefore[i]);
                assert(self.timestamps@[pos as int].0 == time);
                assert(forall|x: usize|
                    #[trigger] self.timestamps@[pos as int].1@.contains(x) == (oldfiles.contains(
                        x,
                    ) || x == file_index));
                assert forall|i: int, j: int|
                    0 <= i < j < self.timestamps@.len() implies (#[trigger] self.timestamps@[i]).0
                    < (#[trigger] self.timestamps@[j]).0 by {
                    assert(self.timestamps@[i].0 == tsbefore[i].0);
                    assert(self.timestamps@[j].0 == tsbefore[j].0);
                }
                assert forall|i: int, c: int|
                    0 <= i < self.timestamps@.len() && 0 <= c < self.timestamps@[i].1@.len()
                    implies (#[trigger] self.timestamps@[i].1@[c])
                    < self.file_changes@.len() by {
                    if i != pos {
                        assert(self.timestamps@[i] == tsbefore[i]);
                    } else {
                        let x = self.timestamps@[i].1@[c];
                        assert(self.timestamps@[i].1@.contains(x));
                        if oldfiles.contains(x) {
                            let w = choose|w: int| 0 <= w < oldfiles.len() && oldfiles[w] == x;
                            assert(mid_listed_state.timestamps@[pos as int].1@[w] == x);
                        }
                    }
                }
                // the pair (this file's path, this time) joins the listing
                assert forall|p: Seq<Seq<char>>, t: u64| #[trigger] self.listed(p, t) == (
                mid_listed_state.listed(p, t) || (p == fpath && t == time)) by {
                    if self.listed(p, t) {
                        let (i, c) = choose|i: int, c: int|
                            0 <= i < self.timestamps@.len() && self.timestamps@[i].0 == t && 0 <= c
                                < self.timestamps@[i].1@.len() && 0 <= (
                        #[trigger] self.timestamps@[i].1@[c]) < self.file_changes@.len()
                                && self.file_changes@[self.timestamps@[i].1@[c] as int].0@ == p;
                        if i != pos {
                            assert(mid_listed_state.timestamps@[i] == tsbefore[i]);
                            assert(mid_listed_state.listed(p, t));
                        } else {
                            let x = self.timestamps@[i].1@[c];
                            assert(self.timestamps@[pos as int].1@.contains(x));
                            if x == file_index {
                                assert(p == fpath && t == time);
                            } else {
                                assert(oldfiles.contains(x));
                                let w = choose|w: int|
                                    0 <= w < oldfiles.len() && oldfiles[w] == x;
                                assert(mid_listed_state.timestamps@[pos as int].1@[w] == x);
                                assert(mid_listed_state.listed(p, t));
                            }
                        }
                    }
                    if mid_listed_state.listed(p, t) {
                        let (i, c) = choose|i: int, c: int|
                            0 <= i < mid_listed_state.timestamps@.len()
                                && mid_listed_state.timestamps@[i].0 == t && 0 <= c
                                < mid_listed_state.timestamps@[i].1@.len() && 0 <= (
                        #[trigger] mid_listed_state.timestamps@[i].1@[c])
                                < mid_listed_state.file_changes@.len()
                                && mid_listed_state.file_changes@[mid_listed_state.timestamps@[
                        i].1@[c] as int].0@ == p;
                        if i != pos {
                            assert(self.timestamps@[i] == tsbefore[i]);
                            assert(self.listed(p, t));
                        } else {
                            let x = mid_listed_state.timestamps@[pos as int].1@[c];
                            assert(oldfiles.contains(x));
                            assert(self.timestamps@[pos as int].1@.contains(x));
                            let w = choose|w: int|
                                0 <= w < self.timestamps@[pos as int].1@.len()
                                    && self.timestamps@[pos as int].1@[w] == x;
                            assert(self.listed(p, t));
                        }
                    }
                    if p == fpath && t == time {
                        assert(self.timestamps@[pos as int].1@.contains(file_index));
                        let w = choose|w: int|
                            0 <= w < self.timestamps@[pos as int].1@.len() && self.timestamps@[
                            pos as int].1@[w] == file_index;
                        assert(self.file_changes@[file_index as int].0@ == fpath);
                        assert(self.listed(p, t));
                    }
                }
            }
        } else {
            let ghost tsbefore = self.timestamps@;
            let mut files: Vec<usize> = Vec::new();
            files.push(file_index);
            self.timestamps.insert(pos, (time, files));
            proof {
                assert(forall|j: int|
                    0 <= j < pos ==> #[trigger] self.timestamps@[j] == tsbefore[j]);
                assert(forall|j: int|
                    pos < j < self.timestamps@.len() ==> #[trigger] self.timestamps@[j] == tsbefore[
                    j - 1]);
                assert(self.timestamps@[pos as int].0 == time);
                assert(self.timestamps@[pos as int].1@.len() == 1);
                assert(self.timestamps@[pos as int].1@[0] == file_index);
                assert(tsbefore.len() == 0 || (pos < tsbefore.len() ==> tsbefore[pos as int].0
                    != time));
                assert forall|i: int, j: int|
                    0 <= i < j < self.timestamps@.len() implies (#[trigger] self.timestamps@[i]).0
                    < (#[trigger] self.timestamps@[j]).0 by {
                    if i < pos && j == pos {
                    } else if i == pos && j > pos {
                        assert(self.timestamps@[j].0 == tsbefore[j - 1].0);
                        if j - 1 > pos {
                            assert(tsbefore[pos as int].0 < tsbefore[j - 1].0);
                        }
                    } else if i < pos && j > pos {
                        assert(self.timestamps@[j].0 == tsbefore[j - 1].0);
                        if j - 1 > i {
                            assert(tsbefore[i].0 < tsbefore[j - 1].0);
                        }
                    } else if i > pos {
                        assert(self.timestamps@[i].0 == tsbefore[i - 1].0);
                        assert(self.timestamps@[j].0 == tsbefore[j - 1].0);
                    }
                }
                assert forall|i: int, c: int|
                    0 <= i < self.timestamps@.len() && 0 <= c < self.timestamps@[i].1@.len()
                    implies (#[trigger] self.timestamps@[i].1@[c])
                    < self.file_changes@.len() by {
                    if i < pos {
                        assert(self.timestamps@[i] == tsbefore[i]);
                    } else if i > pos {
                        assert(self.timestamps@[i] == tsbefore[i - 1]);
                    }
                }
                // a fresh entry at the time lists exactly the new pair
                assert forall|p: Seq<Seq<char>>, t: u64| #[trigger] self.listed(p, t) == (
                mid_listed_state.listed(p, t) || (p == fpath && t == time)) by {
                    if self.listed(p, t) {
                        let (i, c) = choose|i: int, c: int|
                            0 <= i < self.timestamps@.len() && self.timestamps@[i].0 == t && 0 <= c
                                < self.timestamps@[i].1@.len() && 0 <= (
                        #[trigger] self.timestamps@[i].1@[c]) < self.file_changes@.len()
                                && self.file_changes@[self.timestamps@[i].1@[c] as int].0@ == p;
                        if i < pos {
                            assert(mid_listed_state.timestamps@[i] == tsbefore[i]);
                            assert(mid_listed_state.listed(p, t));
                        } else if i > pos {
                            assert(mid_listed_state.timestamps@[i - 1] == self.timestamps@[i]);
                            assert(mid_listed_state.listed(p, t));
                        } else {
                            assert(c == 0);
                            assert(p == fpath && t == time);
                        }
                    }
                    if mid_listed_state.listed(p, t) {
                        let (i, c) = choose|i: int, c: int|
                            0 <= i < mid_listed_state.timestamps@.len()
                                && mid_listed_state.timestamps@[i].0 == t && 0 <= c
                                < mid_listed_state.timestamps@[i].1@.len() && 0 <= (
                        #[trigger] mid_listed_state.timestamps@[i].1@[c])
                                < mid_listed_state.file_changes@.len()
                                && mid_listed_state.file_changes@[mid_listed_state.timestamps@[
                        i].1@[c] as int].0@ == p;
                        if i < pos {
                            assert(self.timestamps@[i] == tsbefore[i]);
                            assert(self.listed(p, t));
                        } else {
                            assert(self.timestamps@[i + 1] == tsbefore[i]);
                            assert(self.listed(p, t));
                        }
                    }
                    if p == fpath && t == time {
                        assert(self.file_changes@[file_index as int].0@ == fpath);
                        assert(self.listed(p, t));
                    }
                }
            }
        }
        proof {
            assert(self.file_changes@ == mid_listed_state.file_changes@);
            assert forall|p: Seq<Seq<char>>, t: u64| #[trigger] self.records(p, t)
                == mid_listed_state.records(p, t) by {}
        }
    }
}

#[verifier::loop_isolation(false)]
fn insert_time(times: &mut Vec<u64>, t: u64)
    requires
        sorted_times(old(times)@),
    ensures
        sorted_times(final(times)@),
        forall|y: u64| #[trigger] final(times)@.contains(y) == (old(times)@.contains(y) || y == t),
{
    let n = times.len();
    let mut pos: usize = 0;
    while pos < n && times[pos] < t
        invariant
            times@ == old(times)@,
            sorted_times(times@),
            n == times@.len(),
            pos <= n,
            forall|j: int| 0 <= j < pos ==> times@[j] < t,
        decreases n - pos,
    {
        pos += 1;
    }
    if pos < n && times[pos] == t {
        proof {
            assert(times@[pos as int] == t);
            assert(times@.contains(t));
        }
        return ;
    }
    let ghost s = times@;
    times.insert(pos, t);
    proof {
        assert forall|i: int, j: int| 0 <= i < j < times@.len() implies times@[i] < times@[j] by {
            if j < pos {
            } else if i < pos && j == pos {
            } else if i < pos && j > pos {
                assert(times@[j] == s[j - 1]);
            } else if i == pos {
                assert(times@[j] == s[j - 1]);
                assert(t < s[pos as int]);
                if j - 1 > pos {
                    assert(s[pos as int] < s[j - 1]);
                }
            } else {
                assert(times@[i] == s[i - 1]);
                assert(times@[j] == s[j - 1]);
            }
        }
        assert forall|y: u64| #[trigger] times@.contains(y) == (s.contains(y) || y == t) by {
            if times@.contains(y) {
                let w = choose|w: int| 0 <= w < times@.len() && times@[w] == y;
                if w < pos {
                    assert(s[w] == y);
                } else if w > pos {
                    assert(s[w - 1] == y);
                }
            }
            if s.contains(y) {
                let w = choose|w: int| 0 <= w < s.len() && s[w] == y;
                if w < pos {
                    assert(times@[w] == y);
                } else {
                    assert(times@[w + 1] == y);
                }
            }
            if y == t {
                assert(times@[pos as int] == y);
            }
        }
    }
}

/// Add a file to the set at one timestamp, keeping it duplicate-free.
fn push_file(files: &mut Vec<usize>, f: usize)
    ensures
        final(files)@.len() >= old(files)@.len(),
        forall|x: usize|
            #[trigger] final(files)@.contains(x) == (old(files)@.contains(x) || x == f),
{
    let n = files.len();
    let mut i: usize = 0;
    while i < n
        invariant
            files@ == old(files)@,
            n == files@.len(),
            i <= n,
        decreases n - i,
    {
        if files[i] == f {
            proof {
                assert(files@[i as int] == f);
                assert(files@.contains(f));
            }
            return ;
        }
        i += 1;
    }
    files.push(f);
    proof {
        assert forall|x: usize|
            #[trigger] files@.contains(x) == (old(files)@.contains(x) || x == f) by {
            if files@.contains(x) {
                let w = choose|w: int| 0 <= w < files@.len() && files@[w] == x;
                if w < old(files)@.len() {
                    assert(old(files)@[w] == x);
                }
            }
            if old(files)@.contains(x) {
                let w = choose|w: int| 0 <= w < old(files)@.len() && old(files)@[w] == x;
                assert(files@[w] == x);
            }
            if x == f {
                assert(files@[old(files)@.len() as int] == x);
            }
        }
    }
}

/// Splitting a path that extends `base` by one more component.
proof fn lemma_path_decompose(base: Seq<Seq<char>>, p: Seq<Seq<char>>)
    requires
        base.len() < p.len(),
        p.take(base.len() as int) == base,
    ensures
        p.take(base.len() as int + 1) == base.push(p[base.len() as int]),
        p.skip(base.len() as int).drop_first() == p.skip(base.len() as int + 1),
        p.skip(base.len() as int).len() > 0,
        p.skip(base.len() as int)[0] == p[base.len() as int],
{
    assert(p.take(base.len() as int + 1) =~= base.push(p[base.len() as int]));
    assert(p.skip(base.len() as int).drop_first() =~= p.skip(base.len() as int + 1));
}

/// A subtree's changes split into the node's own and its children's, one
/// child per leading component, provided sibling names are unambiguous.
proof fn lemma_subtree_unfold(n: FlareTreeNode, base: Seq<Seq<char>>, p: Seq<Seq<char>>, t: u64)
    requires
        n.spec_is_file() ==> n.spec_children().len() == 0,
        forall|i: int, j: int|
            0 <= i < j < n.spec_children().len()
                ==> (#[trigger] n.spec_children()[i]).spec_name() != (
            #[trigger] n.spec_children()[j]).spec_name(),
    ensures
        subtree_changed(n, base, p, t) == ((p == base && node_changed_at(n, t)) || (exists|c: int|
            0 <= c < n.spec_children().len() && subtree_changed(
                #[trigger] n.spec_children()[c],
                base.push(n.spec_children()[c].spec_name()),
                p,
                t,
            ))),
{
    let children = n.spec_children();
    if p.len() == base.len() && p.take(base.len() as int) == base {
        assert(p =~= base);
    }
    if p == base {
        assert(p.take(base.len() as int) =~= base);
        assert(p.skip(base.len() as int).len() == 0);
        assert(subtree_changed(n, base, p, t) == node_changed_at(n, t));
        assert forall|c: int|
            0 <= c < children.len() implies !subtree_changed(
            #[trigger] children[c],
            base.push(children[c].spec_name()),
            p,
            t,
        ) by {
            assert(base.push(children[c].spec_name()).len() > p.len());
        }
    } else if base.len() < p.len() && p.take(base.len() as int) == base {
        lemma_path_decompose(base, p);
        let rel = p.skip(base.len() as int);
        let head = p[base.len() as int];
        if n.spec_is_file() {
            assert(crate::flare::spec_get_in(n, rel) is None);
            assert(children.len() == 0) ;
        } else if crate::flare::has_child(children, head) {
            crate::flare::lemma_child_index_props(children, head);
            let ci = crate::flare::child_index(children, head);
            assert(crate::flare::spec_get_in(n, rel) == crate::flare::spec_get_in(
                children[ci],
                rel.drop_first(),
            ));
            // the matching child carries exactly this path's changes
            assert(subtree_changed(children[ci], base.push(head), p, t) == subtree_changed(
                n,
                base,
                p,
                t,
            )) by {
                assert(p.take(base.len() as int + 1) == base.push(head));
                assert(p.skip(base.len() as int + 1) == rel.drop_first());
            }
            assert forall|c: int|
                0 <= c < children.len() && c != ci implies !subtree_changed(
                #[trigger] children[c],
                base.push(children[c].spec_name()),
                p,
                t,
            ) by {
                if subtree_changed(children[c], base.push(children[c].spec_name()), p, t) {
                    assert(p.take(base.len() as int + 1) == base.push(children[c].spec_name()));
                    assert(p.take(base.len() as int + 1)[base.len() as int]
                        == children[c].spec_name());
                    assert(p.take(base.len() as int + 1)[base.len() as int] == head);
                    assert(children[ci].spec_name() == head);
                }
            }
            if subtree_changed(n, base, p, t) {
                assert(subtree_changed(children[ci], base.push(children[ci].spec_name()), p, t));
            }
        } else {
            assert(crate::flare::spec_get_in(n, rel) is None);
            assert(!subtree_changed(n, base, p, t));
            assert forall|c: int|
                0 <= c < children.len() implies !subtree_changed(
                #[trigger] children[c],
                base.push(children[c].spec_name()),
                p,
                t,
            ) by {
                if subtree_changed(children[c], base.push(children[c].spec_name()), p, t) {
                    assert(p.take(base.len() as int + 1) == base.push(children[c].spec_name()));
                    assert(p.take(base.len() as int + 1)[base.len() as int]
                        == children[c].spec_name());
                    assert(children[c].spec_name() == head);
                    assert(crate::flare::has_child(children, head));
                }
            }
        }
    } else {
        // p does not extend base at all
        assert(!subtree_changed(n, base, p, t));
        assert forall|c: int|
            0 <= c < children.len() implies !subtree_changed(
            #[trigger] children[c],
            base.push(children[c].spec_name()),
            p,
            t,
        ) by {
            if subtree_changed(children[c], base.push(children[c].spec_name()), p, t) {
                assert(p.take(base.len() as int + 1) == base.push(children[c].spec_name()));
                assert(p.take(base.len() as int) =~= p.take(base.len() as int + 1).take(
                    base.len() as int,
                ));
                assert(p.take(base.len() as int + 1).take(base.len() as int) =~= base);
            }
        }
    }
}

/// Walk the tree, carrying the path from the root, and record each file
/// worth coupling on: for every qualifying node below, both indexes gain
/// exactly its (path, time) changes, and stay transposes of each other.
#[verifier::rlimit(100)]
#[verifier::loop_isolation(false)]
fn accumulate_files(stats: &mut FileChangeTimestamps, node: &FlareTreeNode, path: PathVec)
    requires
        old(stats).wf(),
        forall|p: Seq<Seq<char>>, t: u64| #[trigger] old(stats).listed(p, t) == old(stats).records(p, t),
    ensures
        final(stats).wf(),
        forall|p: Seq<Seq<char>>, t: u64| #[trigger] final(stats).listed(p, t) == final(stats).records(p, t),
        node.addressable() ==> forall|p: Seq<Seq<char>>, t: u64| #[trigger] final(stats).records(
            p,
            t,
        ) == (old(stats).records(p, t) || subtree_changed(*node, path@, p, t)),
    decreases node,
{
    let ghost base = path@;
    let has_code = match node.indicators().loc {
        Option::Some(ref loc) => loc.code > 0,
        Option::None => false,
    };
    let ghost own_done = false;
    if has_code {
        match node.indicators().git {
            Option::Some(GitNodeData::File { ref data }) => {
                // the file joins the index before its activity is recorded
                let ghost before = stats.file_changes@;
                let ghost entry0 = *stats;
                let idx = stats.file_changes.len();
                let mut empty: Vec<u64> = Vec::new();
                stats.file_changes.push((path.clone(), empty));
                proof {
                    assert forall|i: int|
                        0 <= i < stats.file_changes@.len() implies sorted_times(
                        (#[trigger] stats.file_changes@[i]).1@,
                    ) by {
                        if i < before.len() {
                            assert(stats.file_changes@[i] == before[i]);
                        }
                    }
                    assert(stats.file_changes@[idx as int].0@ == base);
                    assert(forall|t: u64|
                        !#[trigger] stats.file_changes@[idx as int].1@.contains(t));
                    // an empty time list records nothing new
                    assert forall|p: Seq<Seq<char>>, t: u64| #[trigger] stats.records(p, t)
                        == entry0.records(p, t) by {
                        if stats.records(p, t) {
                            let i = choose|i: int|
                                0 <= i < stats.file_changes@.len() && (
                                #[trigger] stats.file_changes@[i]).0@ == p
                                    && stats.file_changes@[i].1@.contains(t);
                            assert(i != idx);
                            assert(before[i].0@ == p && before[i].1@.contains(t));
                        }
                        if entry0.records(p, t) {
                            let i = choose|i: int|
                                0 <= i < before.len() && (#[trigger] before[i]).0@ == p && before[
                                i].1@.contains(t);
                            assert(stats.file_changes@[i].0@ == p && stats.file_changes@[
                            i].1@.contains(t));
                        }
                    }
                    assert forall|p: Seq<Seq<char>>, t: u64| #[trigger] stats.listed(p, t)
                        == entry0.listed(p, t) by {
                        if stats.listed(p, t) {
                            let (i, c) = choose|i: int, c: int|
                                0 <= i < stats.timestamps@.len() && stats.timestamps@[i].0 == t
                                    && 0 <= c < stats.timestamps@[i].1@.len() && 0 <= (
                                #[trigger] stats.timestamps@[i].1@[c])
                                    < stats.file_changes@.len() && stats.file_changes@[
                                stats.timestamps@[i].1@[c] as int].0@ == p;
                            assert(entry0.timestamps@[i].1@[c] < before.len());
                            assert(before[stats.timestamps@[i].1@[c] as int].0@ == p);
                        }
                        if entry0.listed(p, t) {
                            let (i, c) = choose|i: int, c: int|
                                0 <= i < entry0.timestamps@.len() && entry0.timestamps@[i].0 == t
                                    && 0 <= c < entry0.timestamps@[i].1@.len() && 0 <= (
                                #[trigger] entry0.timestamps@[i].1@[c]) < before.len() && before[
                                entry0.timestamps@[i].1@[c] as int].0@ == p;
                            assert(stats.file_changes@[entry0.timestamps@[i].1@[c] as int].0@
                                == p);
                        }
                    }
                }
                let ghost phase0 = *stats;
                let na = data.activity.len();
                let mut a: usize = 0;
                while a < na
                    invariant
                        stats.wf(),
                        na == data.activity@.len(),
                        a <= na,
                        idx < stats.file_changes@.len(),
                        stats.file_changes@.len() == old(stats).file_changes@.len() + 1,
                        stats.file_changes@[idx as int].0@ == base,
                        forall|p: Seq<Seq<char>>, t: u64| #[trigger] stats.listed(p, t)
                            == stats.records(p, t),
                        forall|p: Seq<Seq<char>>, t: u64| #[trigger] stats.records(p, t) == (
                        phase0.records(p, t) || (p == base && exists|w: int|
                            0 <= w < a && (#[trigger] data.activity@[w]).commit_time == t && (
                            data.activity@[w].lines_added > 0 || data.activity@[w].lines_deleted
                                > 0))),
                    decreases na - a,
                {
                    let act = &data.activity[a];
                    let ghost loop0 = *stats;
                    if act.lines_added > 0 || act.lines_deleted > 0 {
                        stats.record(idx, act.commit_time);
                    }
                    proof {
                        assert forall|p: Seq<Seq<char>>, t: u64| #[trigger] stats.records(p, t)
                            == (phase0.records(p, t) || (p == base && exists|w: int|
                            0 <= w < a + 1 && (#[trigger] data.activity@[w]).commit_time == t && (
                            data.activity@[w].lines_added > 0 || data.activity@[w].lines_deleted
                                > 0))) by {
                            if stats.records(p, t) && !phase0.records(p, t) {
                                if loop0.records(p, t) {
                                    let w = choose|w: int|
                                        0 <= w < a && (#[trigger] data.activity@[w]).commit_time
                                            == t && (data.activity@[w].lines_added > 0
                                            || data.activity@[w].lines_deleted > 0);
                                    assert(0 <= w < a + 1 && data.activity@[w].commit_time == t
                                        && (data.activity@[w].lines_added > 0 || data.activity@[
                                    w].lines_deleted > 0));
                                } else {
                                    assert(data.activity@[a as int].commit_time == t);
                                }
                            }
                            if !stats.records(p, t) && (p == base && exists|w: int|
                                0 <= w < a + 1 && (#[trigger] data.activity@[w]).commit_time == t
                                    && (data.activity@[w].lines_added > 0 || data.activity@[
                                w].lines_deleted > 0)) {
                                let w = choose|w: int|
                                    0 <= w < a + 1 && (#[trigger] data.activity@[w]).commit_time
                                        == t && (data.activity@[w].lines_added > 0
                                        || data.activity@[w].lines_deleted > 0);
                                if w < a {
                                    assert(loop0.records(p, t));
                                } else {
                                    assert(act.lines_added > 0 || act.lines_deleted > 0);
                                }
                            }
                        }
                    }
                    a += 1;
                }
                proof {
                    // the phase recorded exactly this node's own changes
                    assert forall|p: Seq<Seq<char>>, t: u64| #[trigger] stats.records(p, t) == (
                    entry0.records(p, t) || (p == base && node_changed_at(*node, t))) by {
                        assert(node_changed_at(*node, t) == (exists|w: int|
                            0 <= w < data.activity@.len() && (
                            #[trigger] data.activity@[w]).commit_time == t && (data.activity@[
                            w].lines_added > 0 || data.activity@[w].lines_deleted > 0)));
                    }
                }
            },
            _ => {
                proof {
                    assert(!(match node.spec_data().loc {
                        Option::Some(loc) => loc.code > 0,
                        Option::None => false,
                    }) || !(node.spec_data().git matches Option::Some(
                        GitNodeData::File { data },
                    )));
                }
            },
        }
    }
    proof {
        // whatever branch ran, the state now holds the old records plus
        // exactly this node's own qualifying changes
        assert forall|p: Seq<Seq<char>>, t: u64| #[trigger] stats.records(p, t) == (old(stats).records(p, t) || (p == base && node_changed_at(*node, t))) by {
            if !(match node.spec_data().loc {
                Option::Some(loc) => loc.code > 0,
                Option::None => false,
            }) {
                assert(!node_changed_at(*node, t));
            } else if !(node.spec_data().git matches Option::Some(GitNodeData::File { data })) {
                assert(!node_changed_at(*node, t));
            }
        }
    }
    let ghost own = *stats;
    proof {
        node.lemma_children_are_spec_children();
    }
    let nc = node.children.len();
    let mut c: usize = 0;
    while c < nc
        invariant
            stats.wf(),
            nc == node.children@.len(),
            c <= nc,
            forall|p: Seq<Seq<char>>, t: u64| #[trigger] stats.listed(p, t) == stats.records(
                p,
                t,
            ),
            node.addressable() ==> forall|p: Seq<Seq<char>>, t: u64| #[trigger] stats.records(
                p,
                t,
            ) == (own.records(p, t) || (exists|w: int|
                0 <= w < c && subtree_changed(
                    #[trigger] node.children@[w],
                    base.push(node.children@[w].spec_name()),
                    p,
                    t,
                ))),
        decreases nc - c,
    {
        let child = &node.children[c];
        let mut child_path = path.clone();
        let ghost cloned = child_path@;
        child_path.push(child.name().as_str());
        proof {
            node.lemma_children_are_spec_children();
            assert(*child == node.spec_children()[c as int]);
            assert(cloned == base);
            assert(child_path@ == base.push(child.spec_name()));
            assert(child.spec_name() == node.children@[c as int].spec_name());
        }
        let ghost loop0 = *stats;
        accumulate_files(stats, child, child_path);
        proof {
            if node.addressable() {
                assert(child.addressable());
                assert forall|p: Seq<Seq<char>>, t: u64| #[trigger] stats.records(p, t) == (
                own.records(p, t) || (exists|w: int|
                    0 <= w < c + 1 && subtree_changed(
                        #[trigger] node.children@[w],
                        base.push(node.children@[w].spec_name()),
                        p,
                        t,
                    ))) by {
                    if stats.records(p, t) && !own.records(p, t) {
                        if loop0.records(p, t) {
                            let w = choose|w: int|
                                0 <= w < c && subtree_changed(
                                    #[trigger] node.children@[w],
                                    base.push(node.children@[w].spec_name()),
                                    p,
                                    t,
                                );
                            assert(0 <= w < c + 1 && subtree_changed(
                                node.children@[w],
                                base.push(node.children@[w].spec_name()),
                                p,
                                t,
                            ));
                        } else {
                            assert(subtree_changed(
                                node.children@[c as int],
                                base.push(node.children@[c as int].spec_name()),
                                p,
                                t,
                            ));
                        }
                    }
                    if !stats.records(p, t) && (own.records(p, t) || (exists|w: int|
                        0 <= w < c + 1 && subtree_changed(
                            #[trigger] node.children@[w],
                            base.push(node.children@[w].spec_name()),
                            p,
                            t,
                        ))) {
                        if own.records(p, t) {
                            assert(loop0.records(p, t));
                        } else {
                            let w = choose|w: int|
                                0 <= w < c + 1 && subtree_changed(
                                    #[trigger] node.children@[w],
                                    base.push(node.children@[w].spec_name()),
                                    p,
                                    t,
                                );
                            if w < c {
                                assert(loop0.records(p, t));
                            }
                        }
                    }
                }
            }
        }
        c += 1;
    }
    proof {
        if node.addressable() {
            assert forall|p: Seq<Seq<char>>, t: u64| #[trigger] stats.records(p, t) == (old(stats).records(p, t) || subtree_changed(*node, base, p, t)) by {
                lemma_subtree_unfold(*node, base, p, t);
            }
        }
    }
}

/// A burst of activity on one file/// A burst of activity on one file: its first and last event (inclusive)
/// and how many events fell in it.
#[derive(Debug, Clone, Copy, PartialEq, Eq, Structural)]
pub struct ActivityBurst {
    pub start: u64,
    /// inclusive
    pub end: u64,
    /// 1 or more
    pub event_count: u64,
}

/// The bursts of an ascending event list: successive events no further than
/// `min_activity_gap` apart share a burst; a larger gap opens a new one.
pub open spec fn spec_bursts(events: Seq<u64>, min_activity_gap: u64) -> Seq<ActivityBurst>
    decreases events.len(),
{
    if events.len() == 0 {
        Seq::empty()
    } else {
        let prev = spec_bursts(events.drop_last(), min_activity_gap);
        let e = events.last();
        if prev.len() == 0 {
            seq![ActivityBurst { start: e, end: e, event_count: 1 }]
        } else if e - prev.last().end <= min_activity_gap {
            prev.update(
                prev.len() - 1,
                ActivityBurst {
                    start: prev.last().start,
                    end: e,
                    event_count: (prev.last().event_count + 1) as u64,
                },
            )
        } else {
            prev.push(ActivityBurst { start: e, end: e, event_count: 1 })
        }
    }
}

impl ActivityBurst {
    /// Partition an ascending event list into bursts.
    pub fn from_events(events: &Vec<u64>, min_activity_gap: u64) -> (r: Vec<ActivityBurst>)
        requires
            sorted_times(events@),
            events@.len() < u64::MAX,
        ensures
            r@ == spec_bursts(events@, min_activity_gap),
    {
        let mut results: Vec<ActivityBurst> = Vec::new();
        let n = events.len();
        let mut i: usize = 0;
        proof {
            assert(events@.take(0) =~= Seq::<u64>::empty());
            assert(results@ =~= spec_bursts(events@.take(0), min_activity_gap));
        }
        while i < n
            invariant
                sorted_times(events@),
                events@.len() < u64::MAX,
                n == events@.len(),
                i <= n,
                results@ == spec_bursts(events@.take(i as int), min_activity_gap),
                results@.len() > 0 ==> results@.last().end <= events@[i as int - 1]
                    && i > 0,
                i > 0 ==> results@.len() > 0,
                forall|b: int|
                    0 <= b < results@.len() ==> (#[trigger] results@[b]).event_count <= i,
            decreases n - i,
        {
            let e = events[i];
            proof {
                assert(events@.take(i + 1).drop_last() =~= events@.take(i as int));
                assert(events@.take(i + 1).last() == events@[i as int]);
                if i > 0 {
                    assert(events@[i as int - 1] < events@[i as int]);
                }
            }
            if results.len() == 0 {
                results.push(ActivityBurst { start: e, end: e, event_count: 1 });
                proof {
                    assert(results@ =~= spec_bursts(events@.take(i + 1), min_activity_gap));
                }
            } else {
                let last_idx = results.len() - 1;
                let last = results[last_idx];
                if e - last.end <= min_activity_gap {
                    let ghost before = results@;
                    let updated = ActivityBurst {
                        start: last.start,
                        end: e,
                        event_count: last.event_count + 1,
                    };
                    let _ = results.remove(last_idx);
                    results.push(updated);
                    proof {
                        assert(results@ =~= before.update(
                            before.len() - 1,
                            ActivityBurst {
                                start: before.last().start,
                                end: e,
                                event_count: (before.last().event_count + 1) as u64,
                            },
                        ));
                        assert(results@ =~= spec_bursts(events@.take(i + 1), min_activity_gap));
                    }
                } else {
                    results.push(ActivityBurst { start: e, end: e, event_count: 1 });
                    proof {
                        assert(results@ =~= spec_bursts(events@.take(i + 1), min_activity_gap));
                    }
                }
            }
            i += 1;
        }
        proof {
            assert(events@.take(n as int) =~= events@);
        }
        results
    }
}

/// The coupling thresholds for one run. The ratio threshold is a fraction:
/// a coupled file is kept when `count * ratio_den >= ratio_num * bursts`.
#[derive(Debug, Clone, Copy, PartialEq, Eq, Structural)]
pub struct CouplingConfig {
    /// days per bucket
    pub bucket_days: u64,
    /// a source file needs at least this many bursts in a bucket
    pub min_bursts: u64,
    /// numerator of the minimum coupling ratio
    pub ratio_num: u64,
    /// denominator of the minimum coupling ratio, never zero
    pub ratio_den: u64,
    /// commits at most this many seconds apart share a burst
    pub min_activity_gap: u64,
    /// how far around a burst other files' commits count as coupled
    pub coupling_time_distance: u64,
    /// pairs closer than this in the tree are ignored
    pub min_distance: usize,
    /// pairs sharing more than this many leading components are ignored
    pub max_common_roots: Option<usize>,
}

impl CouplingConfig {
    pub fn new(
        bucket_days: u64,
        min_bursts: u64,
        ratio_num: u64,
        ratio_den: u64,
        min_activity_gap: u64,
        coupling_time_distance: u64,
        min_distance: usize,
        max_common_roots: Option<usize>,
    ) -> (r: CouplingConfig)
        requires
            bucket_days >= 1,
            bucket_days <= 0xFFFF_FFFF,
            ratio_den >= 1,
        ensures
            r == (CouplingConfig {
                bucket_days,
                min_bursts,
                ratio_num,
                ratio_den,
                min_activity_gap,
                coupling_time_distance,
                min_distance,
                max_common_roots,
            }),
    {
        CouplingConfig {
            bucket_days,
            min_bursts,
            ratio_num,
            ratio_den,
            min_activity_gap,
            coupling_time_distance,
            min_distance,
            max_common_roots,
        }
    }

    pub open spec fn wf(&self) -> bool {
        1 <= self.bucket_days <= 0xFFFF_FFFF && self.ratio_den >= 1
    }

    pub fn bucket_size(&self) -> (r: u64)
        requires
            self.wf(),
        ensures
            r == self.bucket_days * 86400,
            r >= 86400,
    {
        self.bucket_days * 24 * 60 * 60
    }

    /// The bucket count and first bucket start for a time range: buckets are
    /// right-aligned so the latest second is the last second of the last
    /// bucket.
    #[verifier::loop_isolation(false)]
    pub fn buckets_for(&self, earliest: u64, latest: u64) -> (r: (u64, u64))
        requires
            self.wf(),
            earliest <= latest,
            latest >= self.bucket_days * 86400 * (((latest - earliest) / (self.bucket_days
                * 86400)) + 1),
        ensures
            r.0 == ((latest - earliest) as u64 / (self.bucket_days * 86400) as u64) + 1,
            r.1 == latest - self.bucket_days * 86400 * r.0 + 1,
    {
        let bucket_size = self.bucket_size();
        proof {
            assert((latest - earliest) as int / (bucket_size as int) + 1 <= u64::MAX)
                by (nonlinear_arith)
                requires
                    bucket_size >= 86400,
                    latest >= earliest,
                    latest <= u64::MAX,
            ;
        }
        let bucket_count = ((latest - earliest) / bucket_size) + 1;
        proof {
            let bs = bucket_size as int;
            let bc = bucket_count as int;
            let d = self.bucket_days as int;
            let range = latest - earliest;
            assert(bs * bc == d * 86400 * ((range / (d * 86400)) + 1) && bs * bc >= 1)
                by (nonlinear_arith)
                requires
                    bs == d * 86400,
                    bc == (range / bs) + 1,
                    d >= 1,
                    range >= 0,
            ;
        }
        let first_bucket_start = (latest - (bucket_size * bucket_count)) + 1;
        (bucket_count, first_bucket_start)
    }
}

/// The fixed bucket layout of one run: right-aligned fixed-width windows
/// covering the observed range.
#[derive(Debug, Clone, Copy, PartialEq, Eq, Structural)]
pub struct BucketingConfig {
    pub bucket_size: u64,
    pub bucket_count: u64,
    pub first_bucket_start: u64,
}

impl BucketingConfig {
    /// Lay out buckets over the observed range. The range must leave room
    /// for the right-aligned layout above time zero.
    pub fn new(coupling_config: CouplingConfig, earliest: u64, latest: u64) -> (r: Option<
        BucketingConfig,
    >)
        requires
            coupling_config.wf(),
            earliest <= latest,
        ensures
            r matches Option::Some(b) ==> {
                &&& b.bucket_size == coupling_config.bucket_days * 86400
                &&& b.bucket_count == ((latest - earliest) as u64 / b.bucket_size as u64) + 1
                &&& b.first_bucket_start == latest - b.bucket_size * b.bucket_count + 1
                &&& b.first_bucket_start <= earliest
                &&& latest < b.first_bucket_start + b.bucket_size * b.bucket_count
                &&& b.bucket_size >= 1
            },
            // the layout exists exactly when the count fits, the span does
            // not overflow, and the range leaves room above time zero
            (r is Some) <==> ({
                let size = (coupling_config.bucket_days * 86400) as int;
                let count = (latest - earliest) as int / size + 1;
                count <= 0xFFFF_FFFF && size * count <= u64::MAX && latest >= size * count
            }),
    {
        let bucket_size = coupling_config.bucket_size();
        proof {
            assert((latest - earliest) as int / (bucket_size as int) + 1 <= u64::MAX)
                by (nonlinear_arith)
                requires
                    bucket_size >= 86400,
                    latest >= earliest,
                    latest <= u64::MAX,
            ;
        }
        let bucket_count = ((latest - earliest) / bucket_size) + 1;
        if bucket_count > 0xFFFF_FFFF {
            return Option::None;
        }
        let span = match bucket_size.checked_mul(bucket_count) {
            Option::Some(s) => s,
            Option::None => {
                proof {
                    assert((bucket_size as int) * (bucket_count as int) > u64::MAX);
                }
                return Option::None;
            },
        };
        if latest < span {
            return Option::None;
        }
        proof {
            assert(span >= 1) by (nonlinear_arith)
                requires
                    span == bucket_size * bucket_count,
                    bucket_size >= 1,
                    bucket_count >= 1,
            ;
        }
        let first_bucket_start = (latest - span) + 1;
        proof {
            let d = bucket_size as int;
            let range = (latest - earliest) as int;
            assert(d * ((range / d) + 1) > range) by (nonlinear_arith)
                requires
                    d >= 1,
                    range >= 0,
            ;
        }
        Option::Some(BucketingConfig { bucket_size, bucket_count, first_bucket_start })
    }

    pub fn bucket_start(&self, bucket: u64) -> (r: u64)
        requires
            self.first_bucket_start + bucket * self.bucket_size <= u64::MAX,
        ensures
            r == self.first_bucket_start + bucket * self.bucket_size,
    {
        proof {
            assert(bucket * self.bucket_size >= 0) by (nonlinear_arith);
        }
        self.first_bucket_start + bucket * self.bucket_size
    }

    /// Which bucket a timestamp falls in, if it lies in the covered range.
    pub fn bucket_for(&self, timestamp: u64) -> (r: Option<u64>)
        requires
            self.bucket_size >= 1,
        ensures
            match r {
                Option::Some(b) => timestamp >= self.first_bucket_start && b == (timestamp
                    - self.first_bucket_start) as u64 / self.bucket_size as u64 && (timestamp
                    - self.first_bucket_start) < self.bucket_count * self.bucket_size,
                Option::None => timestamp < self.first_bucket_start || (timestamp
                    - self.first_bucket_start) >= self.bucket_count * self.bucket_size,
            },
    {
        if timestamp < self.first_bucket_start {
            return Option::None;
        }
        let relative_ts = timestamp - self.first_bucket_start;
        let limit_ok = match self.bucket_count.checked_mul(self.bucket_size) {
            Option::Some(limit) => relative_ts < limit,
            Option::None => {
                proof {
                    assert(self.bucket_count * self.bucket_size > u64::MAX ==> relative_ts
                        < self.bucket_count * self.bucket_size) by (nonlinear_arith)
                        requires
                            relative_ts <= u64::MAX,
                    ;
                }
                true
            },
        };
        if !limit_ok {
            return Option::None;
        }
        Option::Some(relative_ts / self.bucket_size)
    }
}

/// The mathematical value of one source file's coupling in one bucket.
pub struct CouplingView {
    pub name: Seq<Seq<char>>,
    pub activity_bursts: u64,
    pub coupled_files: Seq<(Seq<Seq<char>>, u64)>,
}

/// The coupling a single source file gathered in one bucket: how many bursts
/// it had, and for every other file, in how many of those bursts' windows it
/// also changed.
#[derive(Debug)]
pub struct Coupling {
    pub name: PathVec,
    pub activity_bursts: u64,
    pub coupled_files: Vec<(PathVec, u64)>,
}

impl View for Coupling {
    type V = CouplingView;

    open spec fn view(&self) -> CouplingView {
        CouplingView {
            name: self.name@,
            activity_bursts: self.activity_bursts,
            coupled_files: self.coupled_files@.map_values(|p: (PathVec, u64)| (p.0@, p.1)),
        }
    }
}

/// The views of a stored coupling list.
pub open spec fn couplings_view(s: Seq<Coupling>) -> Seq<CouplingView> {
    s.map_values(|c: Coupling| c@)
}

/// Whether a path is among the coupled files.
pub open spec fn cf_has(files: Seq<(Seq<Seq<char>>, u64)>, p: Seq<Seq<char>>) -> bool {
    exists|i: int| 0 <= i < files.len() && (#[trigger] files[i]).0 == p
}

/// The first index a path occupies among the coupled files.
pub open spec fn cf_index(files: Seq<(Seq<Seq<char>>, u64)>, p: Seq<Seq<char>>) -> int
    decreases files.len(),
{
    if files.len() == 0 {
        0
    } else if files[0].0 == p {
        0
    } else {
        1 + cf_index(files.drop_first(), p)
    }
}

/// The count recorded against a path, zero when it is absent.
pub open spec fn cf_count(files: Seq<(Seq<Seq<char>>, u64)>, p: Seq<Seq<char>>) -> u64 {
    if cf_has(files, p) {
        files[cf_index(files, p)].1
    } else {
        0u64
    }
}

/// No path occurs twice among the coupled files.
pub open spec fn cf_unique(files: Seq<(Seq<Seq<char>>, u64)>) -> bool {
    forall|i: int, j: int| 0 <= i < j < files.len() ==> (#[trigger] files[i]).0 != (
    #[trigger] files[j]).0
}

pub proof fn lemma_cf_index_props(files: Seq<(Seq<Seq<char>>, u64)>, p: Seq<Seq<char>>)
    requires
        cf_has(files, p),
    ensures
        0 <= cf_index(files, p) < files.len(),
        files[cf_index(files, p)].0 == p,
        forall|j: int| 0 <= j < cf_index(files, p) ==> files[j].0 != p,
    decreases files.len(),
{
    if files.len() == 0 {
    } else if files[0].0 == p {
    } else {
        let rest = files.drop_first();
        assert(cf_has(rest, p)) by {
            let i = choose|i: int| 0 <= i < files.len() && (#[trigger] files[i]).0 == p;
            assert(rest[i - 1] == files[i]);
        }
        lemma_cf_index_props(rest, p);
        assert forall|j: int| 0 <= j < cf_index(files, p) implies files[j].0 != p by {
            if j > 0 {
                assert(files[j] == rest[j - 1]);
            }
        }
    }
}

/// Whether a coupled file's count clears the ratio threshold against the
/// source's burst count.
pub open spec fn ratio_ok(count: u64, bursts: u64, ratio_num: u64, ratio_den: u64) -> bool {
    count * ratio_den >= ratio_num * bursts
}

/// The coupled files that survive the ratio filter, in their stored order.
pub open spec fn spec_ratio_keep(
    files: Seq<(Seq<Seq<char>>, u64)>,
    bursts: u64,
    ratio_num: u64,
    ratio_den: u64,
) -> Seq<(Seq<Seq<char>>, u64)>
    decreases files.len(),
{
    if files.len() == 0 {
        Seq::empty()
    } else {
        let rest = spec_ratio_keep(files.drop_last(), bursts, ratio_num, ratio_den);
        if ratio_ok(files.last().1, bursts, ratio_num, ratio_den) {
            rest.push(files.last())
        } else {
            rest
        }
    }
}

/// The couplings that survive a bucket's filtering: sources with enough
/// bursts, each with only its qualifying coupled files, in stored order.
pub open spec fn spec_filter_couplings(
    cs: Seq<CouplingView>,
    min_bursts: u64,
    ratio_num: u64,
    ratio_den: u64,
) -> Seq<CouplingView>
    decreases cs.len(),
{
    if cs.len() == 0 {
        Seq::empty()
    } else {
        let rest = spec_filter_couplings(cs.drop_last(), min_bursts, ratio_num, ratio_den);
        let c = cs.last();
        if c.activity_bursts >= min_bursts {
            rest.push(
                CouplingView {
                    name: c.name,
                    activity_bursts: c.activity_bursts,
                    coupled_files: spec_ratio_keep(
                        c.coupled_files,
                        c.activity_bursts,
                        ratio_num,
                        ratio_den,
                    ),
                },
            )
        } else {
            rest
        }
    }
}

impl Coupling {
    pub fn new(name: PathVec) -> (r: Self)
        ensures
            r.activity_bursts == 0,
            r.coupled_files@.len() == 0,
            r.name@ == name@,
    {
        Coupling { name, activity_bursts: 0, coupled_files: Vec::new() }
    }

    /// Whether each coupled file is listed once.
    pub open spec fn wf(&self) -> bool {
        cf_unique(self@.coupled_files)
    }

    /// Count one co-occurring file, ignoring the source itself: its count
    /// rises by one (created at one), every other file's count stays. New
    /// files are placed in ascending path order.
    #[verifier::loop_isolation(false)]
    pub fn add_file(&mut self, file: &PathVec)
        requires
            old(self).wf(),
        ensures
            final(self).wf(),
            final(self).activity_bursts == old(self).activity_bursts,
            final(self).name@ == old(self).name@,
            file@ == old(self).name@ ==> final(self)@.coupled_files == old(
                self,
            )@.coupled_files,
            file@ != old(self).name@ ==> forall|p: Seq<Seq<char>>|
                #[trigger] cf_count(final(self)@.coupled_files, p) == (if p == file@ {
                    crate::git::sat_add(cf_count(old(self)@.coupled_files, p), 1)
                } else {
                    cf_count(old(self)@.coupled_files, p)
                }),
    {
        let ghost fv = self@.coupled_files;
        if file.same_as(&self.name) {
            return ;
        }
        // look for the file among those already counted
        let n = self.coupled_files.len();
        let mut i: usize = 0;
        let mut found: Option<usize> = Option::None;
        while i < n && found.is_none()
            invariant
                i <= n,
                n == self.coupled_files@.len(),
                *self == *old(self),
                fv == self@.coupled_files,
                match found {
                    Option::Some(fi) => fi < n && fv[fi as int].0 == file@ && (forall|j: int|
                        0 <= j < fi ==> (#[trigger] fv[j]).0 != file@),
                    Option::None => forall|j: int| 0 <= j < i ==> (#[trigger] fv[j]).0 != file@,
                },
            decreases n - i,
        {
            if self.coupled_files[i].0.same_as(file) {
                found = Option::Some(i);
            }
            i += 1;
        }
        match found {
            Option::Some(fi) => {
                proof {
                    lemma_cf_index_props(fv, file@);
                    let ci = cf_index(fv, file@);
                    if ci < fi {
                        assert(fv[ci].0 != file@);
                    }
                    if fi < ci {
                        assert(fv[fi as int].0 != file@);
                    }
                }
                let ghost before = self.coupled_files@;
                let mut pair = self.coupled_files.remove(fi);
                pair.1 = pair.1.saturating_add(1);
                self.coupled_files.insert(fi, pair);
                proof {
                    let fvn = self@.coupled_files;
                    assert(fvn.len() == fv.len());
                    assert(forall|j: int|
                        0 <= j < fv.len() && j != fi ==> #[trigger] fvn[j] == fv[j]);
                    assert(fvn[fi as int].0 == file@ && fvn[fi as int].1 == crate::git::sat_add(
                        fv[fi as int].1,
                        1,
                    ));
                    assert forall|p: Seq<Seq<char>>| #[trigger] cf_count(fvn, p) == (if p
                        == file@ {
                        crate::git::sat_add(cf_count(fv, p), 1)
                    } else {
                        cf_count(fv, p)
                    }) by {
                        self.lemma_counts_after_update(fv, fvn, fi as int, file@, p);
                    }
                }
            },
            Option::None => {
                proof {
                    assert(!cf_has(fv, file@));
                }
                // place the new file in path order
                let n2 = self.coupled_files.len();
                let mut pos: usize = 0;
                while pos < n2 && path_before(&self.coupled_files[pos].0, file)
                    invariant
                        pos <= n2,
                        n2 == self.coupled_files@.len(),
                        *self == *old(self),
                        fv == self@.coupled_files,
                    decreases n2 - pos,
                {
                    pos += 1;
                }
                self.coupled_files.insert(pos, (file.clone(), 1));
                proof {
                    let fvn = self@.coupled_files;
                    assert(fvn.len() == fv.len() + 1);
                    assert(forall|j: int| 0 <= j < pos ==> #[trigger] fvn[j] == fv[j]);
                    assert(forall|j: int|
                        pos < j < fvn.len() ==> #[trigger] fvn[j] == fv[j - 1]);
                    assert(fvn[pos as int].0 == file@ && fvn[pos as int].1 == 1);
                    assert forall|p: Seq<Seq<char>>| #[trigger] cf_count(fvn, p) == (if p
                        == file@ {
                        crate::git::sat_add(cf_count(fv, p), 1)
                    } else {
                        cf_count(fv, p)
                    }) by {
                        self.lemma_counts_after_insert(fv, fvn, pos as int, file@, p);
                    }
                }
            },
        }
    }

    /// Updating the matched entry changes exactly that path's count.
    proof fn lemma_counts_after_update(
        &self,
        fv: Seq<(Seq<Seq<char>>, u64)>,
        fvn: Seq<(Seq<Seq<char>>, u64)>,
        fi: int,
        file: Seq<Seq<char>>,
        p: Seq<Seq<char>>,
    )
        requires
            cf_unique(fv),
            0 <= fi < fv.len(),
            fvn.len() == fv.len(),
            fv[fi].0 == file,
            forall|j: int| 0 <= j < fv.len() && j != fi ==> #[trigger] fvn[j] == fv[j],
            fvn[fi].0 == file,
            fvn[fi].1 == crate::git::sat_add(fv[fi].1, 1),
            cf_unique(fvn),
        ensures
            cf_count(fvn, p) == (if p == file {
                crate::git::sat_add(cf_count(fv, p), 1)
            } else {
                cf_count(fv, p)
            }),
    {
        if p == file {
            assert(cf_has(fv, p));
            assert(cf_has(fvn, p));
            lemma_cf_index_props(fv, p);
            lemma_cf_index_props(fvn, p);
            let ci = cf_index(fv, p);
            let cn = cf_index(fvn, p);
            if ci != fi {
                assert(fv[ci].0 == p && fv[fi].0 == p);
            }
            if cn != fi {
                assert(fvn[cn].0 == p && fvn[fi].0 == p);
            }
        } else {
            if cf_has(fv, p) {
                lemma_cf_index_props(fv, p);
                let ci = cf_index(fv, p);
                assert(ci != fi);
                assert(cf_has(fvn, p)) by {
                    assert(fvn[ci] == fv[ci]);
                }
                lemma_cf_index_props(fvn, p);
                let cn = cf_index(fvn, p);
                assert(cn != fi);
                assert(fvn[cn] == fv[cn]);
                if ci != cn {
                    assert(fv[ci].0 == p && fv[cn].0 == p);
                }
            } else {
                if cf_has(fvn, p) {
                    lemma_cf_index_props(fvn, p);
                    let cn = cf_index(fvn, p);
                    assert(cn != fi);
                    assert(fv[cn] == fvn[cn]);
                    assert(cf_has(fv, p));
                }
            }
        }
    }

    /// Inserting a fresh entry creates exactly that path's count at one.
    proof fn lemma_counts_after_insert(
        &self,
        fv: Seq<(Seq<Seq<char>>, u64)>,
        fvn: Seq<(Seq<Seq<char>>, u64)>,
        pos: int,
        file: Seq<Seq<char>>,
        p: Seq<Seq<char>>,
    )
        requires
            cf_unique(fv),
            !cf_has(fv, file),
            0 <= pos <= fv.len(),
            fvn.len() == fv.len() + 1,
            forall|j: int| 0 <= j < pos ==> #[trigger] fvn[j] == fv[j],
            forall|j: int| pos < j < fvn.len() ==> #[trigger] fvn[j] == fv[j - 1],
            fvn[pos].0 == file,
            fvn[pos].1 == 1,
        ensures
            cf_count(fvn, p) == (if p == file {
                crate::git::sat_add(cf_count(fv, p), 1)
            } else {
                cf_count(fv, p)
            }),
            cf_unique(fvn),
    {
        assert forall|i: int, j: int| 0 <= i < j < fvn.len() implies (#[trigger] fvn[i]).0 != (
        #[trigger] fvn[j]).0 by {
            let i0: int = if i < pos {
                i
            } else {
                i - 1
            };
            let j0: int = if j < pos {
                j
            } else {
                j - 1
            };
            if i == pos {
                assert(fvn[j] == fv[j - 1]);
                if fv[j - 1].0 == file {
                    assert(cf_has(fv, file));
                }
            } else if j == pos {
                assert(fvn[i] == fv[i]);
                if fv[i].0 == file {
                    assert(cf_has(fv, file));
                }
            } else {
                assert(fvn[i] == fv[i0]);
                assert(fvn[j] == fv[j0]);
            }
        }
        if p == file {
            assert(cf_has(fvn, p)) by {
                assert(fvn[pos].0 == p);
            }
            lemma_cf_index_props(fvn, p);
            let cn = cf_index(fvn, p);
            if cn != pos {
                assert(fvn[cn].0 == p && fvn[pos].0 == p);
            }
            assert(cf_count(fvn, p) == 1);
            assert(cf_count(fv, p) == 0);
        } else {
            if cf_has(fv, p) {
                lemma_cf_index_props(fv, p);
                let ci = cf_index(fv, p);
                assert(cf_has(fvn, p)) by {
                    if ci < pos {
                        assert(fvn[ci] == fv[ci]);
                    } else {
                        assert(fvn[ci + 1] == fv[ci]);
                    }
                }
                lemma_cf_index_props(fvn, p);
                let cn = cf_index(fvn, p);
                assert(cn != pos);
                let cn0: int = if cn < pos {
                    cn
                } else {
                    cn - 1
                };
                assert(fvn[cn] == fv[cn0]);
                if ci != cn0 {
                    assert(fv[ci].0 == p && fv[cn0].0 == p);
                }
            } else {
                if cf_has(fvn, p) {
                    lemma_cf_index_props(fvn, p);
                    let cn = cf_index(fvn, p);
                    assert(cn != pos);
                    let cn0: int = if cn < pos {
                        cn
                    } else {
                        cn - 1
                    };
                    assert(fvn[cn] == fv[cn0]);
                    assert(cf_has(fv, p));
                }
            }
        }
    }

    /// One burst's worth of co-occurring files: the burst count rises by
    /// one, and each listed file other than the source gains one count.
    #[verifier::loop_isolation(false)]
    pub fn add_files(&mut self, files: &Vec<PathVec>)
        requires
            old(self).wf(),
            forall|i: int, j: int|
                0 <= i < j < files@.len() ==> (#[trigger] files@[i])@ != (#[trigger] files@[j])@,
        ensures
            final(self).wf(),
            final(self).activity_bursts == crate::git::sat_add(old(self).activity_bursts, 1),
            final(self).name@ == old(self).name@,
            forall|p: Seq<Seq<char>>|
                #[trigger] cf_count(final(self)@.coupled_files, p) == (if p != old(self).name@
                    && (exists|w: int| 0 <= w < files@.len() && (#[trigger] files@[w])@ == p) {
                    crate::git::sat_add(cf_count(old(self)@.coupled_files, p), 1)
                } else {
                    cf_count(old(self)@.coupled_files, p)
                }),
    {
        let n = files.len();
        let mut i: usize = 0;
        while i < n
            invariant
                i <= n,
                n == files@.len(),
                self.wf(),
                self.activity_bursts == old(self).activity_bursts,
                self.name@ == old(self).name@,
                forall|p: Seq<Seq<char>>|
                    #[trigger] cf_count(self@.coupled_files, p) == (if p != old(self).name@ && (
                    exists|w: int| 0 <= w < i && (#[trigger] files@[w])@ == p) {
                        crate::git::sat_add(cf_count(old(self)@.coupled_files, p), 1)
                    } else {
                        cf_count(old(self)@.coupled_files, p)
                    }),
            decreases n - i,
        {
            let ghost mid = self@.coupled_files;
            self.add_file(&files[i]);
            proof {
                assert forall|p: Seq<Seq<char>>|
                    #[trigger] cf_count(self@.coupled_files, p) == (if p != old(self).name@ && (
                    exists|w: int| 0 <= w < i + 1 && (#[trigger] files@[w])@ == p) {
                        crate::git::sat_add(cf_count(old(self)@.coupled_files, p), 1)
                    } else {
                        cf_count(old(self)@.coupled_files, p)
                    }) by {
                    let fw = files@[i as int]@;
                    if p == fw && p != old(self).name@ {
                        // the file first appears now: earlier occurrences
                        // are ruled out by distinctness
                        assert(cf_count(mid, p) == cf_count(old(self)@.coupled_files, p)) by {
                            if exists|w: int| 0 <= w < i && (#[trigger] files@[w])@ == p {
                                let w = choose|w: int|
                                    0 <= w < i && (#[trigger] files@[w])@ == p;
                                assert(files@[w]@ == files@[i as int]@);
                            }
                        }
                        assert(0 <= i < i + 1 && files@[i as int]@ == p);
                    } else if p != fw {
                        if exists|w: int| 0 <= w < i + 1 && (#[trigger] files@[w])@ == p {
                            let w = choose|w: int|
                                0 <= w < i + 1 && (#[trigger] files@[w])@ == p;
                            assert(w < i);
                            assert(exists|w2: int| 0 <= w2 < i && (#[trigger] files@[w2])@ == p);
                        }
                    }
                }
            }
            i += 1;
        }
        self.activity_bursts = self.activity_bursts.saturating_add(1);
    }

    /// Whether every kept coupled file clears the ratio threshold.
    pub open spec fn ratio_filtered(&self, ratio_num: u64, ratio_den: u64) -> bool {
        forall|i: int|
            0 <= i < self.coupled_files@.len() ==> (#[trigger] self.coupled_files@[i]).1
                * ratio_den >= ratio_num * self.activity_bursts
    }

    /// The coupling with exactly the files below the ratio threshold
    /// dropped; everything else is kept as it was.
    #[verifier::loop_isolation(false)]
    pub fn filter_by_ratio(self, ratio_num: u64, ratio_den: u64) -> (r: Coupling)
        requires
            ratio_den >= 1,
        ensures
            r.ratio_filtered(ratio_num, ratio_den),
            r.activity_bursts == self.activity_bursts,
            r.name@ == self.name@,
            r@.coupled_files == spec_ratio_keep(
                self@.coupled_files,
                self.activity_bursts,
                ratio_num,
                ratio_den,
            ),
    {
        let Coupling { name, activity_bursts, coupled_files } = self;
        let ghost filesv = coupled_files@.map_values(|p: (PathVec, u64)| (p.0@, p.1));
        let mut kept: Vec<(PathVec, u64)> = Vec::new();
        let n = coupled_files.len();
        let mut i: usize = 0;
        let src = coupled_files;
        proof {
            assert(filesv.take(0) =~= Seq::<(Seq<Seq<char>>, u64)>::empty());
            assert(kept@.map_values(|p: (PathVec, u64)| (p.0@, p.1)) =~= spec_ratio_keep(
                filesv.take(0),
                activity_bursts,
                ratio_num,
                ratio_den,
            ));
        }
        while i < n
            invariant
                i <= n,
                n == src@.len(),
                filesv == src@.map_values(|p: (PathVec, u64)| (p.0@, p.1)),
                kept@.map_values(|p: (PathVec, u64)| (p.0@, p.1)) == spec_ratio_keep(
                    filesv.take(i as int),
                    activity_bursts,
                    ratio_num,
                    ratio_den,
                ),
                forall|j: int|
                    0 <= j < kept@.len() ==> (#[trigger] kept@[j]).1 as int * ratio_den
                        >= ratio_num * activity_bursts,
            decreases n - i,
        {
            let count = src[i].1;
            proof {
                assert((count as u128) * (ratio_den as u128) <= u128::MAX && (ratio_num as u128)
                    * (activity_bursts as u128) <= u128::MAX) by (nonlinear_arith)
                    requires
                        count <= u64::MAX,
                        ratio_den <= u64::MAX,
                        ratio_num <= u64::MAX,
                        activity_bursts <= u64::MAX,
                ;
            }
            let keep = (count as u128) * (ratio_den as u128) >= (ratio_num as u128)
                * (activity_bursts as u128);
            proof {
                assert(keep == ratio_ok(count, activity_bursts, ratio_num, ratio_den));
                assert(filesv.take(i + 1).drop_last() =~= filesv.take(i as int));
                assert(filesv.take(i + 1).last() == filesv[i as int]);
            }
            if keep {
                kept.push((src[i].0.clone(), count));
                proof {
                    assert(kept@.map_values(|p: (PathVec, u64)| (p.0@, p.1)) =~= spec_ratio_keep(
                        filesv.take(i + 1),
                        activity_bursts,
                        ratio_num,
                        ratio_den,
                    ));
                }
            } else {
                proof {
                    assert(kept@.map_values(|p: (PathVec, u64)| (p.0@, p.1)) =~= spec_ratio_keep(
                        filesv.take(i + 1),
                        activity_bursts,
                        ratio_num,
                        ratio_den,
                    ));
                }
            }
            i += 1;
        }
        proof {
            assert(filesv.take(n as int) =~= filesv);
        }
        Coupling { name, activity_bursts, coupled_files: kept }
    }
}

/// One bucket's couplings, keyed by source file.
#[derive(Debug)]
pub struct CouplingBucket {
    pub bucket_start: u64,
    pub bucket_size: u64,
    pub couplings: Vec<Coupling>,
}

impl CouplingBucket {
    pub fn new(bucket_start: u64, bucket_size: u64) -> (r: Self)
        ensures
            r.bucket_start == bucket_start,
            r.bucket_size == bucket_size,
            r.couplings@.len() == 0,
    {
        CouplingBucket { bucket_start, bucket_size, couplings: Vec::new() }
    }

    /// Whether each stored coupling lists every coupled file once.
    pub open spec fn couplings_wf(&self) -> bool {
        forall|c: int| 0 <= c < self.couplings@.len() ==> (#[trigger] self.couplings@[c]).wf()
    }

    /// Record one burst of `from` together with the files in its window.
    #[verifier::loop_isolation(false)]
    pub fn add_files(&mut self, from: &PathVec, to: &Vec<PathVec>)
        requires
            old(self).couplings_wf(),
            forall|i: int, j: int|
                0 <= i < j < to@.len() ==> (#[trigger] to@[i])@ != (#[trigger] to@[j])@,
        ensures
            final(self).couplings_wf(),
            final(self).bucket_start == old(self).bucket_start,
            final(self).bucket_size == old(self).bucket_size,
    {
        let n = self.couplings.len();
        let mut i: usize = 0;
        while i < n
            invariant
                i <= n,
                n == self.couplings@.len(),
                *self == *old(self),
            decreases n - i,
        {
            if self.couplings[i].name.same_as(from) {
                let ghost before = self.couplings@;
                let mut c = self.couplings.remove(i);
                c.add_files(to);
                self.couplings.insert(i, c);
                proof {
                    assert forall|k: int| 0 <= k < self.couplings@.len() implies (
                    #[trigger] self.couplings@[k]).wf() by {
                        if k != i {
                            assert(self.couplings@[k] == before[k]);
                        }
                    }
                }
                return ;
            }
            i += 1;
        }
        let ghost before = self.couplings@;
        let mut c = Coupling::new(from.clone());
        proof {
            assert(c@.coupled_files =~= Seq::<(Seq<Seq<char>>, u64)>::empty());
        }
        c.add_files(to);
        self.couplings.push(c);
        proof {
            assert forall|k: int| 0 <= k < self.couplings@.len() implies (
            #[trigger] self.couplings@[k]).wf() by {
                if k < before.len() {
                    assert(self.couplings@[k] == before[k]);
                }
            }
        }
    }

    /// Whether the bucket has been filtered down to meaningful couplings.
    pub open spec fn filtered(&self, min_bursts: u64, ratio_num: u64, ratio_den: u64) -> bool {
        forall|i: int|
            0 <= i < self.couplings@.len() ==> (#[trigger] self.couplings@[i]).activity_bursts
                >= min_bursts && self.couplings@[i].ratio_filtered(ratio_num, ratio_den)
    }

    /// Drop exactly the sources with too few bursts, and per surviving
    /// source exactly the files below the coupling ratio; everything else
    /// is kept in its stored order.
    #[verifier::loop_isolation(false)]
    pub fn filter_by(&mut self, min_bursts: u64, ratio_num: u64, ratio_den: u64)
        requires
            ratio_den >= 1,
        ensures
            final(self).filtered(min_bursts, ratio_num, ratio_den),
            final(self).bucket_start == old(self).bucket_start,
            final(self).bucket_size == old(self).bucket_size,
            couplings_view(final(self).couplings@) == spec_filter_couplings(
                couplings_view(old(self).couplings@),
                min_bursts,
                ratio_num,
                ratio_den,
            ),
    {
        let ghost csv = couplings_view(self.couplings@);
        let mut kept: Vec<Coupling> = Vec::new();
        let n = self.couplings.len();
        let mut i: usize = 0;
        proof {
            assert(csv.take(0) =~= Seq::<CouplingView>::empty());
            assert(couplings_view(kept@) =~= spec_filter_couplings(
                csv.take(0),
                min_bursts,
                ratio_num,
                ratio_den,
            ));
        }
        while i < n
            invariant
                i <= n,
                n == old(self).couplings@.len(),
                self.couplings@ == old(self).couplings@,
                csv == couplings_view(old(self).couplings@),
                self.bucket_start == old(self).bucket_start,
                self.bucket_size == old(self).bucket_size,
                couplings_view(kept@) == spec_filter_couplings(
                    csv.take(i as int),
                    min_bursts,
                    ratio_num,
                    ratio_den,
                ),
                forall|j: int|
                    0 <= j < kept@.len() ==> (#[trigger] kept@[j]).activity_bursts >= min_bursts
                        && kept@[j].ratio_filtered(ratio_num, ratio_den),
            decreases n - i,
        {
            proof {
                assert(csv.take(i + 1).drop_last() =~= csv.take(i as int));
                assert(csv.take(i + 1).last() == csv[i as int]);
                assert(csv[i as int] == self.couplings@[i as int]@);
            }
            if self.couplings[i].activity_bursts >= min_bursts {
                let c = self.couplings[i].duplicate();
                let filtered = c.filter_by_ratio(ratio_num, ratio_den);
                kept.push(filtered);
                proof {
                    assert(couplings_view(kept@) =~= spec_filter_couplings(
                        csv.take(i + 1),
                        min_bursts,
                        ratio_num,
                        ratio_den,
                    ));
                }
            } else {
                proof {
                    assert(couplings_view(kept@) =~= spec_filter_couplings(
                        csv.take(i + 1),
                        min_bursts,
                        ratio_num,
                        ratio_den,
                    ));
                }
            }
            i += 1;
        }
        proof {
            assert(csv.take(n as int) =~= csv);
        }
        self.couplings = kept;
    }
}

impl Coupling {
    fn duplicate(&self) -> (r: Coupling)
        ensures
            r@ == self@,
            r.activity_bursts == self.activity_bursts,
            r.name@ == self.name@,
            r.coupled_files@.len() == self.coupled_files@.len(),
            forall|j: int|
                0 <= j < r.coupled_files@.len() ==> (#[trigger] r.coupled_files@[j]).1
                    == self.coupled_files@[j].1,
    {
        let mut files: Vec<(PathVec, u64)> = Vec::new();
        let n = self.coupled_files.len();
        let mut i: usize = 0;
        while i < n
            invariant
                i <= n,
                n == self.coupled_files@.len(),
                files@.len() == i,
                forall|j: int|
                    0 <= j < i ==> (#[trigger] files@[j]).1 == self.coupled_files@[j].1
                        && files@[j].0@ == self.coupled_files@[j].0@,
            decreases n - i,
        {
            files.push((self.coupled_files[i].0.clone(), self.coupled_files[i].1));
            i += 1;
        }
        let r = Coupling {
            name: self.name.clone(),
            activity_bursts: self.activity_bursts,
            coupled_files: files,
        };
        proof {
            assert(r@.coupled_files =~= self@.coupled_files);
        }
        r
    }
}

/// The mathematical value of one bucket's couplings.
pub struct CouplingBucketView {
    pub bucket_start: u64,
    pub bucket_size: u64,
    pub couplings: Seq<CouplingView>,
}

impl View for CouplingBucket {
    type V = CouplingBucketView;

    open spec fn view(&self) -> CouplingBucketView {
        CouplingBucketView {
            bucket_start: self.bucket_start,
            bucket_size: self.bucket_size,
            couplings: couplings_view(self.couplings@),
        }
    }
}

/// The views of the stored bucket list.
pub open spec fn buckets_view(s: Seq<CouplingBucket>) -> Seq<CouplingBucketView> {
    s.map_values(|b: CouplingBucket| b@)
}

/// The first coupling a file has in a bucket, if any.
pub open spec fn find_coupling(cs: Seq<CouplingView>, f: Seq<Seq<char>>) -> Option<CouplingView>
    decreases cs.len(),
{
    if cs.len() == 0 {
        Option::None
    } else if cs[0].name == f {
        Option::Some(cs[0])
    } else {
        find_coupling(cs.drop_first(), f)
    }
}

proof fn lemma_find_coupling_at(cs: Seq<CouplingView>, f: Seq<Seq<char>>, i: int)
    requires
        0 <= i < cs.len(),
        cs[i].name == f,
        forall|j: int| 0 <= j < i ==> (#[trigger] cs[j]).name != f,
    ensures
        find_coupling(cs, f) == Option::Some(cs[i]),
    decreases cs.len(),
{
    if i > 0 {
        assert(forall|j: int|
            0 <= j < cs.drop_first().len() ==> #[trigger] cs.drop_first()[j] == cs[j + 1]);
        lemma_find_coupling_at(cs.drop_first(), f, i - 1);
    }
}

proof fn lemma_find_coupling_none(cs: Seq<CouplingView>, f: Seq<Seq<char>>)
    requires
        forall|j: int| 0 <= j < cs.len() ==> (#[trigger] cs[j]).name != f,
    ensures
        find_coupling(cs, f) is None,
    decreases cs.len(),
{
    if cs.len() > 0 {
        assert(forall|j: int|
            0 <= j < cs.drop_first().len() ==> #[trigger] cs.drop_first()[j] == cs[j + 1]);
        lemma_find_coupling_none(cs.drop_first(), f);
    }
}

/// One emitted record: a bucket's window and the file's coupling there.
pub open spec fn spec_bucket_record(
    b: CouplingBucketView,
    c: CouplingView,
) -> SerializableCouplingBucketDataView {
    SerializableCouplingBucketDataView {
        bucket_start: b.bucket_start,
        bucket_end: sat_sub_one(crate::git::sat_add(b.bucket_start, b.bucket_size)),
        activity_bursts: c.activity_bursts,
        coupled_files: c.coupled_files,
    }
}

pub open spec fn sat_sub_one(x: u64) -> u64 {
    if x >= 1 {
        (x - 1) as u64
    } else {
        0
    }
}

/// A file's emitted records: one per bucket that kept a coupling for it, in
/// bucket order.
pub open spec fn spec_file_records(
    bs: Seq<CouplingBucketView>,
    f: Seq<Seq<char>>,
) -> Seq<SerializableCouplingBucketDataView>
    decreases bs.len(),
{
    if bs.len() == 0 {
        Seq::empty()
    } else {
        let rest = spec_file_records(bs.drop_last(), f);
        match find_coupling(bs.last().couplings, f) {
            Option::Some(c) => rest.push(spec_bucket_record(bs.last(), c)),
            Option::None => rest,
        }
    }
}

/// All buckets of one run, already filtered by the thresholds.
#[derive(Debug)]
pub struct CouplingBuckets {
    pub buckets: Vec<CouplingBucket>,
}

impl CouplingBuckets {
    pub open spec fn filtered(&self, min_bursts: u64, ratio_num: u64, ratio_den: u64) -> bool {
        forall|b: int|
            0 <= b < self.buckets@.len() ==> (#[trigger] self.buckets@[b]).filtered(
                min_bursts,
                ratio_num,
                ratio_den,
            )
    }

    /// How many buckets one run lays out: the layout's count, capped at
    /// what an index can address.
    pub open spec fn spec_bucket_total(bc: BucketingConfig) -> int {
        if bc.bucket_count > 0xFFFF_FFFF {
            0xFFFF_FFFF
        } else {
            bc.bucket_count as int
        }
    }

    /// Where bucket `k` begins, saturating at the top of the clock.
    pub open spec fn spec_bucket_start(bc: BucketingConfig, k: int) -> u64 {
        if k * bc.bucket_size > u64::MAX {
            u64::MAX
        } else if bc.first_bucket_start + k * bc.bucket_size > u64::MAX {
            u64::MAX
        } else {
            (bc.first_bucket_start + k * bc.bucket_size) as u64
        }
    }

    /// Gather every file's bursts into buckets, record each burst's window
    /// of co-changing files, and filter by the thresholds. One bucket per
    /// laid-out window, in order, each with its start and width.
    #[verifier::loop_isolation(false)]
    pub fn new(
        config: CouplingConfig,
        file_change_timestamps: &FileChangeTimestamps,
        bucketing_config: BucketingConfig,
    ) -> (r: CouplingBuckets)
        requires
            config.wf(),
            bucketing_config.bucket_size >= 1,
            file_change_timestamps.wf(),
        ensures
            r.filtered(config.min_bursts, config.ratio_num, config.ratio_den),
            r.buckets@.len() == CouplingBuckets::spec_bucket_total(bucketing_config),
            forall|k: int|
                0 <= k < r.buckets@.len() ==> (#[trigger] r.buckets@[k]).bucket_size
                    == bucketing_config.bucket_size && r.buckets@[k].bucket_start
                    == CouplingBuckets::spec_bucket_start(bucketing_config, k),
    {
        let mut buckets: Vec<CouplingBucket> = Vec::new();
        let count64 = bucketing_config.bucket_count;
        let count: usize = if count64 > 0xFFFF_FFFF {
            0xFFFF_FFFF
        } else {
            count64 as usize
        };
        let mut b: usize = 0;
        while b < count
            invariant
                b <= count,
                buckets@.len() == b,
                forall|k: int|
                    0 <= k < b ==> (#[trigger] buckets@[k]).bucket_size
                        == bucketing_config.bucket_size && buckets@[k].bucket_start
                        == CouplingBuckets::spec_bucket_start(bucketing_config, k) && buckets@[
                    k].couplings_wf(),
            decreases count - b,
        {
            let start = match (b as u64).checked_mul(bucketing_config.bucket_size) {
                Option::Some(offset) => bucketing_config.first_bucket_start.saturating_add(offset),
                Option::None => u64::MAX,
            };
            proof {
                assert(start == CouplingBuckets::spec_bucket_start(bucketing_config, b as int));
            }
            buckets.push(CouplingBucket::new(start, bucketing_config.bucket_size));
            b += 1;
        }

        let nf = file_change_timestamps.file_changes.len();
        let mut f: usize = 0;
        while f < nf
            invariant
                f <= nf,
                nf == file_change_timestamps.file_changes@.len(),
                file_change_timestamps.wf(),
                buckets@.len() == count,
                config.wf(),
                forall|k: int|
                    0 <= k < count ==> (#[trigger] buckets@[k]).bucket_size
                        == bucketing_config.bucket_size && buckets@[k].bucket_start
                        == CouplingBuckets::spec_bucket_start(bucketing_config, k) && buckets@[
                    k].couplings_wf(),
            decreases nf - f,
        {
            let file = &file_change_timestamps.file_changes[f].0;
            let times = &file_change_timestamps.file_changes[f].1;
            if times.len() < u64::MAX as usize {
                proof {
                    assert(sorted_times(file_change_timestamps.file_changes@[f as int].1@));
                }
                let bursts = ActivityBurst::from_events(times, config.min_activity_gap);
                let nb = bursts.len();
                let mut bi: usize = 0;
                while bi < nb
                    invariant
                        bi <= nb,
                        nb == bursts@.len(),
                        nf == file_change_timestamps.file_changes@.len(),
                        f < nf,
                        file_change_timestamps.wf(),
                        buckets@.len() == count,
                        config.wf(),
                        forall|k: int|
                            0 <= k < count ==> (#[trigger] buckets@[k]).bucket_size
                                == bucketing_config.bucket_size && buckets@[k].bucket_start
                                == CouplingBuckets::spec_bucket_start(bucketing_config, k)
                                && buckets@[k].couplings_wf(),
                    decreases nb - bi,
                {
                    let burst = bursts[bi];
                    let window_start = burst.start.saturating_sub(config.coupling_time_distance);
                    let window_end = burst.end.saturating_add(config.coupling_time_distance);
                    match bucketing_config.bucket_for(burst.start) {
                        Option::Some(bucket_number64) => {
                            if bucket_number64 < count as u64 {
                                let bucket_number = bucket_number64 as usize;
                                let unique_files = collect_window(
                                    file_change_timestamps,
                                    file,
                                    window_start,
                                    window_end,
                                    config.min_distance,
                                    config.max_common_roots,
                                );
                                let ghost bs0 = buckets@;
                                let mut bucket = buckets.remove(bucket_number);
                                bucket.add_files(file, &unique_files);
                                buckets.insert(bucket_number, bucket);
                                proof {
                                    assert forall|k: int| 0 <= k < count implies (
                                    #[trigger] buckets@[k]).bucket_size
                                        == bucketing_config.bucket_size && buckets@[
                                    k].bucket_start == CouplingBuckets::spec_bucket_start(
                                        bucketing_config,
                                        k,
                                    ) && buckets@[k].couplings_wf() by {
                                        if k != bucket_number {
                                            assert(buckets@[k] == bs0[k]);
                                        }
                                    }
                                }
                            }
                        },
                        Option::None => {},
                    }
                    bi += 1;
                }
            }
            f += 1;
        }

        let mut filtered: Vec<CouplingBucket> = Vec::new();
        let mut k: usize = 0;
        let total = buckets.len();
        while k < total
            invariant
                k <= total,
                total == count,
                buckets@.len() == total - k,
                filtered@.len() == k,
                config.wf(),
                forall|j: int|
                    0 <= j < buckets@.len() ==> (#[trigger] buckets@[j]).bucket_size
                        == bucketing_config.bucket_size && buckets@[j].bucket_start
                        == CouplingBuckets::spec_bucket_start(bucketing_config, j + k),
                forall|j: int|
                    0 <= j < filtered@.len() ==> (#[trigger] filtered@[j]).filtered(
                        config.min_bursts,
                        config.ratio_num,
                        config.ratio_den,
                    ) && filtered@[j].bucket_size == bucketing_config.bucket_size && filtered@[
                    j].bucket_start == CouplingBuckets::spec_bucket_start(bucketing_config, j),
            decreases total - k,
        {
            let ghost rem0 = buckets@;
            let mut bucket = buckets.remove(0);
            bucket.filter_by(config.min_bursts, config.ratio_num, config.ratio_den);
            filtered.push(bucket);
            proof {
                assert(forall|j: int|
                    0 <= j < buckets@.len() ==> #[trigger] buckets@[j] == rem0[j + 1]);
            }
            k += 1;
        }
        CouplingBuckets { buckets: filtered }
    }

    /// Whether some bucket kept a coupling for this source path.
    pub open spec fn has_source(&self, p: Seq<Seq<char>>) -> bool {
        exists|b: int, c: int|
            0 <= b < self.buckets@.len() && 0 <= c < self.buckets@[b].couplings@.len() && (
            #[trigger] self.buckets@[b].couplings@[c])@.name == p
    }

    /// Every source file that survived filtering in any bucket, each listed
    /// once.
    #[verifier::loop_isolation(false)]
    pub fn all_files(&self) -> (r: Vec<PathVec>)
        ensures
            forall|i: int, j: int|
                0 <= i < j < r@.len() ==> (#[trigger] r@[i])@ != (#[trigger] r@[j])@,
            forall|i: int| 0 <= i < r@.len() ==> self.has_source((#[trigger] r@[i])@),
            forall|b: int, c: int|
                0 <= b < self.buckets@.len() && 0 <= c < self.buckets@[b].couplings@.len()
                    ==> contains_path(r@, (#[trigger] self.buckets@[b].couplings@[c])@.name),
    {
        let mut out: Vec<PathVec> = Vec::new();
        let nb = self.buckets.len();
        let mut b: usize = 0;
        while b < nb
            invariant
                b <= nb,
                nb == self.buckets@.len(),
                forall|i: int, j: int|
                    0 <= i < j < out@.len() ==> (#[trigger] out@[i])@ != (#[trigger] out@[j])@,
                forall|i: int| 0 <= i < out@.len() ==> self.has_source((#[trigger] out@[i])@),
                forall|b2: int, c2: int|
                    0 <= b2 < b && 0 <= c2 < self.buckets@[b2].couplings@.len() ==> contains_path(
                        out@,
                        (#[trigger] self.buckets@[b2].couplings@[c2])@.name,
                    ),
            decreases nb - b,
        {
            let nc = self.buckets[b].couplings.len();
            let mut c: usize = 0;
            while c < nc
                invariant
                    c <= nc,
                    b < nb,
                    nb == self.buckets@.len(),
                    nc == self.buckets@[b as int].couplings@.len(),
                    forall|i: int, j: int|
                        0 <= i < j < out@.len() ==> (#[trigger] out@[i])@ != (
                        #[trigger] out@[j])@,
                    forall|i: int| 0 <= i < out@.len() ==> self.has_source((#[trigger] out@[i])@),
                    forall|b2: int, c2: int|
                        0 <= b2 < b && 0 <= c2 < self.buckets@[b2].couplings@.len()
                            ==> contains_path(
                            out@,
                            (#[trigger] self.buckets@[b2].couplings@[c2])@.name,
                        ),
                    forall|c2: int|
                        0 <= c2 < c ==> contains_path(
                            out@,
                            (#[trigger] self.buckets@[b as int].couplings@[c2])@.name,
                        ),
                decreases nc - c,
            {
                let name = &self.buckets[b].couplings[c].name;
                let mut seen = false;
                let no = out.len();
                let mut o: usize = 0;
                while o < no
                    invariant
                        o <= no,
                        no == out@.len(),
                        b < nb,
                        c < nc,
                        name@ == self.buckets@[b as int].couplings@[c as int]@.name,
                        seen == (exists|w: int| 0 <= w < o && (#[trigger] out@[w])@ == name@),
                    decreases no - o,
                {
                    if out[o].same_as(name) {
                        seen = true;
                    }
                    proof {
                        if !seen && out@[o as int]@ == name@ {
                            assert(false);
                        }
                    }
                    o += 1;
                }
                let ghost outprev = out@;
                if !seen {
                    out.push(name.clone());
                    proof {
                        assert(out@[outprev.len() as int]@ == name@);
                        assert forall|i: int, j: int|
                            0 <= i < j < out@.len() implies (#[trigger] out@[i])@ != (
                        #[trigger] out@[j])@ by {
                            if j == outprev.len() {
                                assert(out@[i] == outprev[i]);
                                assert(!(exists|w: int|
                                    0 <= w < outprev.len() && (#[trigger] outprev[w])@ == name@));
                            } else {
                                assert(out@[i] == outprev[i]);
                                assert(out@[j] == outprev[j]);
                            }
                        }
                        assert forall|i: int| 0 <= i < out@.len() implies self.has_source(
                            (#[trigger] out@[i])@,
                        ) by {
                            if i == outprev.len() {
                                assert((#[trigger] self.buckets@[b as int].couplings@[
                                c as int])@.name == out@[i]@);
                            } else {
                                assert(out@[i] == outprev[i]);
                            }
                        }
                        assert forall|p: Seq<Seq<char>>| contains_path(outprev, p)
                            implies contains_path(out@, p) by {
                            let w = choose|w: int|
                                0 <= w < outprev.len() && (#[trigger] outprev[w])@ == p;
                            assert(out@[w]@ == p);
                        }
                    }
                } else {
                    proof {
                        let w = choose|w: int|
                            0 <= w < outprev.len() && (#[trigger] outprev[w])@ == name@;
                    }
                }
                proof {
                    assert(contains_path(out@, name@)) by {
                        if seen {
                            let w = choose|w: int|
                                0 <= w < outprev.len() && (#[trigger] outprev[w])@ == name@;
                            assert(out@[w]@ == name@);
                        } else {
                            assert(out@[outprev.len() as int]@ == name@);
                        }
                    }
                    assert forall|c2: int| 0 <= c2 < c + 1 implies contains_path(
                        out@,
                        (#[trigger] self.buckets@[b as int].couplings@[c2])@.name,
                    ) by {
                        if c2 < c {
                            let w = choose|w: int|
                                0 <= w < outprev.len() && (#[trigger] outprev[w])@ == (
                                self.buckets@[b as int].couplings@[c2])@.name;
                            assert(out@[w]@ == (self.buckets@[b as int].couplings@[c2])@.name);
                        }
                    }
                    assert forall|b2: int, c2: int|
                        0 <= b2 < b && 0 <= c2 < self.buckets@[b2].couplings@.len()
                        implies contains_path(
                        out@,
                        (#[trigger] self.buckets@[b2].couplings@[c2])@.name,
                    ) by {
                        let w = choose|w: int|
                            0 <= w < outprev.len() && (#[trigger] outprev[w])@ == (self.buckets@[
                            b2].couplings@[c2])@.name;
                        assert(out@[w]@ == (self.buckets@[b2].couplings@[c2])@.name);
                    }
                }
                c += 1;
            }
            b += 1;
        }
        out
    }

    /// The serializable record for one file: exactly one entry per bucket
    /// in which the file survived filtering, in bucket order, each carrying
    /// that bucket's window and the file's stored bursts and counts. Every
    /// emitted bucket clears the burst floor and every coupled file in it
    /// clears the ratio.
    #[verifier::loop_isolation(false)]
    pub fn file_coupling_data(
        &self,
        config: CouplingConfig,
        file: &PathVec,
    ) -> (r: SerializableCouplingData)
        requires
            config.wf(),
            self.filtered(config.min_bursts, config.ratio_num, config.ratio_den),
        ensures
            records_view(r.buckets@) == spec_file_records(buckets_view(self.buckets@), file@),
            forall|i: int|
                0 <= i < r.buckets@.len() ==> (#[trigger] r.buckets@[i]).activity_bursts
                    >= config.min_bursts,
            forall|i: int, j: int|
                0 <= i < r.buckets@.len() && 0 <= j < r.buckets@[i].coupled_files@.len() ==> (
                #[trigger] r.buckets@[i].coupled_files@[j]).1 * config.ratio_den
                    >= config.ratio_num * r.buckets@[i].activity_bursts,
    {
        let ghost bsv = buckets_view(self.buckets@);
        let mut out: Vec<SerializableCouplingBucketData> = Vec::new();
        let nb = self.buckets.len();
        let mut b: usize = 0;
        proof {
            assert(bsv.take(0) =~= Seq::<CouplingBucketView>::empty());
            assert(records_view(out@) =~= spec_file_records(bsv.take(0), file@));
        }
        while b < nb
            invariant
                b <= nb,
                nb == self.buckets@.len(),
                bsv == buckets_view(self.buckets@),
                config.wf(),
                self.filtered(config.min_bursts, config.ratio_num, config.ratio_den),
                records_view(out@) == spec_file_records(bsv.take(b as int), file@),
                forall|i: int|
                    0 <= i < out@.len() ==> (#[trigger] out@[i]).activity_bursts
                        >= config.min_bursts,
                forall|i: int, j: int|
                    0 <= i < out@.len() && 0 <= j < out@[i].coupled_files@.len() ==> (
                    #[trigger] out@[i].coupled_files@[j]).1 * config.ratio_den >= config.ratio_num
                        * out@[i].activity_bursts,
            decreases nb - b,
        {
            proof {
                assert(bsv.take(b + 1).drop_last() =~= bsv.take(b as int));
                assert(bsv.take(b + 1).last() == bsv[b as int]);
                assert(bsv[b as int] == self.buckets@[b as int]@);
            }
            // find the file's coupling in this bucket, if it survived
            let bucket = &self.buckets[b];
            let nc = bucket.couplings.len();
            let mut c: usize = 0;
            let mut found: Option<usize> = Option::None;
            while c < nc && found.is_none()
                invariant
                    c <= nc,
                    b < nb,
                    nb == self.buckets@.len(),
                    nc == self.buckets@[b as int].couplings@.len(),
                    match found {
                        Option::Some(ci) => ci < nc && self.buckets@[b as int].couplings@[
                        ci as int]@.name == file@ && (forall|j: int|
                            0 <= j < ci ==> (#[trigger] self.buckets@[b as int].couplings@[
                            j]@).name != file@),
                        Option::None => forall|j: int|
                            0 <= j < c ==> (#[trigger] self.buckets@[b as int].couplings@[
                            j]@).name != file@,
                    },
                decreases nc - c,
            {
                if bucket.couplings[c].name.same_as(file) {
                    found = Option::Some(c);
                }
                c += 1;
            }
            match found {
                Option::Some(ci) => {
                    proof {
                        lemma_find_coupling_at(bsv[b as int].couplings, file@, ci as int);
                        assert(self.buckets@[b as int].filtered(
                            config.min_bursts,
                            config.ratio_num,
                            config.ratio_den,
                        ));
                        assert(self.buckets@[b as int].couplings@[ci as int].activity_bursts
                            >= config.min_bursts);
                        assert(self.buckets@[b as int].couplings@[ci as int].ratio_filtered(
                            config.ratio_num,
                            config.ratio_den,
                        ));
                    }
                    let stats = self.buckets[b].couplings[ci].duplicate();
                    let record = SerializableCouplingBucketData {
                        bucket_start: self.buckets[b].bucket_start,
                        bucket_end: self.buckets[b].bucket_start.saturating_add(
                            self.buckets[b].bucket_size,
                        ).saturating_sub(1),
                        activity_bursts: stats.activity_bursts,
                        coupled_files: stats.coupled_files,
                    };
                    out.push(record);
                    proof {
                        assert(records_view(out@) =~= spec_file_records(
                            bsv.take(b + 1),
                            file@,
                        ));
                    }
                },
                Option::None => {
                    proof {
                        lemma_find_coupling_none(bsv[b as int].couplings, file@);
                        assert(records_view(out@) =~= spec_file_records(
                            bsv.take(b + 1),
                            file@,
                        ));
                    }
                },
            }
            b += 1;
        }
        proof {
            assert(bsv.take(nb as int) =~= bsv);
        }
        SerializableCouplingData { buckets: out }
    }
}

/// The deduplicated files changed in a window around a burst, after the
/// distance filter against the source file.
#[verifier::loop_isolation(false)]
fn collect_window(
    stats: &FileChangeTimestamps,
    file: &PathVec,
    window_start: u64,
    window_end: u64,
    min_distance: usize,
    max_common_roots: Option<usize>,
) -> (r: Vec<PathVec>)
    requires
        stats.wf(),
    ensures
        forall|i: int, j: int| 0 <= i < j < r@.len() ==> (#[trigger] r@[i])@ != (#[trigger] r@[j])@,
        forall|i: int|
            0 <= i < r@.len() ==> spec_filter_file(
                min_distance as int,
                match max_common_roots {
                    Option::Some(m) => Option::Some(m as int),
                    Option::None => Option::None,
                },
                file@,
                (#[trigger] r@[i])@,
            ),
{
    let mut out: Vec<PathVec> = Vec::new();
    let nt = stats.timestamps.len();
    let mut t: usize = 0;
    while t < nt
        invariant
            t <= nt,
            nt == stats.timestamps@.len(),
            stats.wf(),
            forall|i: int, j: int|
                0 <= i < j < out@.len() ==> (#[trigger] out@[i])@ != (#[trigger] out@[j])@,
            forall|i: int|
                0 <= i < out@.len() ==> spec_filter_file(
                    min_distance as int,
                    match max_common_roots {
                        Option::Some(m) => Option::Some(m as int),
                        Option::None => Option::None,
                    },
                    file@,
                    (#[trigger] out@[i])@,
                ),
        decreases nt - t,
    {
        let ts = stats.timestamps[t].0;
        if ts >= window_start && ts < window_end {
            let nf = stats.timestamps[t].1.len();
            let mut fi: usize = 0;
            while fi < nf
                invariant
                    fi <= nf,
                    t < nt,
                    nt == stats.timestamps@.len(),
                    nf == stats.timestamps@[t as int].1@.len(),
                    stats.wf(),
                    forall|i: int, j: int|
                        0 <= i < j < out@.len() ==> (#[trigger] out@[i])@ != (
                        #[trigger] out@[j])@,
                    forall|i: int|
                        0 <= i < out@.len() ==> spec_filter_file(
                            min_distance as int,
                            match max_common_roots {
                                Option::Some(m) => Option::Some(m as int),
                                Option::None => Option::None,
                            },
                            file@,
                            (#[trigger] out@[i])@,
                        ),
                decreases nf - fi,
            {
                let fidx = stats.timestamps[t].1[fi];
                proof {
                    assert(stats.timestamps@[t as int].1@[fi as int]
                        < stats.file_changes@.len());
                }
                let dest = &stats.file_changes[fidx].0;
                if filter_file(min_distance, max_common_roots, file, dest) {
                    let mut seen = false;
                    let no = out.len();
                    let mut o: usize = 0;
                    while o < no
                        invariant
                            o <= no,
                            no == out@.len(),
                            seen == (exists|w: int| 0 <= w < o && (#[trigger] out@[w])@ == dest@),
                        decreases no - o,
                    {
                        if out[o].same_as(dest) {
                            seen = true;
                        }
                        proof {
                            if !seen && out@[o as int]@ == dest@ {
                                assert(false);
                            }
                        }
                        o += 1;
                    }
                    if !seen {
                        let ghost outprev = out@;
                        out.push(dest.clone());
                        proof {
                            assert forall|i: int, j: int|
                                0 <= i < j < out@.len() implies (#[trigger] out@[i])@ != (
                            #[trigger] out@[j])@ by {
                                if j == outprev.len() {
                                    assert(out@[j]@ == dest@);
                                    assert(out@[i] == outprev[i]);
                                    assert(!(exists|w: int|
                                        0 <= w < outprev.len() && (#[trigger] outprev[w])@
                                            == dest@));
                                } else {
                                    assert(out@[i] == outprev[i]);
                                    assert(out@[j] == outprev[j]);
                                }
                            }
                        }
                    }
                }
                fi += 1;
            }
        }
        t += 1;
    }
    out
}

/// The mathematical value of one emitted bucket record.
pub struct SerializableCouplingBucketDataView {
    pub bucket_start: u64,
    pub bucket_end: u64,
    pub activity_bursts: u64,
    pub coupled_files: Seq<(Seq<Seq<char>>, u64)>,
}

/// One bucket of one file's emitted coupling data.
#[derive(Debug)]
pub struct SerializableCouplingBucketData {
    pub bucket_start: u64,
    pub bucket_end: u64,
    pub activity_bursts: u64,
    pub coupled_files: Vec<(PathVec, u64)>,
}

impl View for SerializableCouplingBucketData {
    type V = SerializableCouplingBucketDataView;

    open spec fn view(&self) -> SerializableCouplingBucketDataView {
        SerializableCouplingBucketDataView {
            bucket_start: self.bucket_start,
            bucket_end: self.bucket_end,
            activity_bursts: self.activity_bursts,
            coupled_files: self.coupled_files@.map_values(|p: (PathVec, u64)| (p.0@, p.1)),
        }
    }
}

/// The views of an emitted record list.
pub open spec fn records_view(
    s: Seq<SerializableCouplingBucketData>,
) -> Seq<SerializableCouplingBucketDataView> {
    s.map_values(|d: SerializableCouplingBucketData| d@)
}

/// A file's emitted coupling data, bucket by bucket.
#[derive(Debug)]
pub struct SerializableCouplingData {
    pub buckets: Vec<SerializableCouplingBucketData>,
}

impl SerializableCouplingData {
    pub fn new(buckets: Vec<SerializableCouplingBucketData>) -> (r: Self)
        ensures
            r.buckets@ == buckets@,
    {
        SerializableCouplingData { buckets }
    }
}

/// Gather coupling over the populated tree and attach the surviving records
/// to their file nodes; root metadata records the bucket layout and the
/// configuration. Trees without usable timestamps stay untouched.
/// Why coupling could not be written back.
#[derive(Debug, Clone, Copy, PartialEq, Eq, Structural)]
pub enum CouplingError {
    /// a surviving source path has no node in the tree: a structural fault
    PathNotFound,
}

/// Gather coupling over the populated tree and attach the surviving records
/// to their file nodes; root metadata records the bucket layout and the
/// configuration. A tree without usable timestamps is left untouched with
/// `Ok(false)`; a surviving path missing from the tree is a structural
/// fault and surfaces as an error.
pub fn gather_coupling(polyglot_data: &mut PolyglotData, config: CouplingConfig) -> (r: Result<
    bool,
    CouplingError,
>)
    requires
        config.wf(),
    ensures
        r == Result::<bool, CouplingError>::Ok(false) ==> *final(polyglot_data) == *old(polyglot_data),
        final(polyglot_data).spec_name() == old(polyglot_data).spec_name(),
        final(polyglot_data).spec_id() == old(polyglot_data).spec_id(),
        final(polyglot_data).spec_version() == old(polyglot_data).spec_version(),
        final(polyglot_data).spec_features() == old(polyglot_data).spec_features(),
        final(polyglot_data).spec_tree().spec_name() == old(polyglot_data).spec_tree().spec_name(),
        final(polyglot_data).spec_tree().spec_is_file() == old(polyglot_data).spec_tree().spec_is_file(),
        final(polyglot_data).spec_tree().spec_children().len() == old(polyglot_data).spec_tree().spec_children().len(),
        (final(polyglot_data).spec_metadata().git is Some) == (old(polyglot_data).spec_metadata().git is Some),
        r == Result::<bool, CouplingError>::Ok(true) ==> (match final(polyglot_data).spec_metadata().coupling {
            Option::Some(cm) => cm.config == config && cm.buckets.bucket_size
                == config.bucket_days * 86400 && cm.buckets.bucket_size >= 1,
            Option::None => false,
        }),
{
    let timestamps = FileChangeTimestamps::new(polyglot_data.tree());
    if timestamps.is_empty() {
        return Result::Ok(false);
    }
    let earliest = match timestamps.earliest() {
        Option::Some(e) => e,
        Option::None => {
            return Result::Ok(false);
        },
    };
    let latest = match timestamps.latest() {
        Option::Some(l) => l,
        Option::None => {
            return Result::Ok(false);
        },
    };
    proof {
        timestamps.lemma_earliest_le_latest();
    }
    let bucketing_config = match BucketingConfig::new(config, earliest, latest) {
        Option::Some(b) => b,
        Option::None => {
            return Result::Ok(false);
        },
    };
    let filtered_buckets = CouplingBuckets::new(config, &timestamps, bucketing_config);

    let files = filtered_buckets.all_files();
    let nf = files.len();
    let mut i: usize = 0;
    while i < nf
        invariant
            i <= nf,
            nf == files@.len(),
            config.wf(),
            filtered_buckets.filtered(config.min_bursts, config.ratio_num, config.ratio_den),
            polyglot_data.spec_name() == old(polyglot_data).spec_name(),
            polyglot_data.spec_id() == old(polyglot_data).spec_id(),
            polyglot_data.spec_version() == old(polyglot_data).spec_version(),
            polyglot_data.spec_features() == old(polyglot_data).spec_features(),
            polyglot_data.spec_metadata() == old(polyglot_data).spec_metadata(),
            polyglot_data.spec_tree().spec_name() == old(polyglot_data).spec_tree().spec_name(),
            polyglot_data.spec_tree().spec_is_file() == old(polyglot_data).spec_tree().spec_is_file(),
            polyglot_data.spec_tree().spec_children().len() == old(polyglot_data).spec_tree().spec_children().len(),
        decreases nf - i,
    {
        let coupling_data = filtered_buckets.file_coupling_data(config, &files[i]);
        let tree = polyglot_data.tree_mut();
        let found = tree.attach_coupling_at(&files[i].components, 0, coupling_data);
        if !found {
            // spec treats a missing write-back target as a structural fault
            return Result::Err(CouplingError::PathNotFound);
        }
        i += 1;
    }
    polyglot_data.set_coupling_metadata(CouplingMetadata { buckets: bucketing_config, config });
    Result::Ok(true)
}

} // verus!
