use vstd::prelude::*;

use crate::coupling::SerializableCouplingData;
use crate::file_stats::FileStats;
use crate::git::GitNodeData;
use crate::indentation::IndentationData;
use crate::loc::LanguageLocData;

verus! {

/// The closed set of per-node indicator slots; absent slots are omitted when
/// the tree is written out.
#[derive(Debug)]
pub struct IndicatorData {
    pub git: Option<GitNodeData>,
    pub indentation: Option<IndentationData>,
    pub loc: Option<LanguageLocData>,
    pub coupling: Option<SerializableCouplingData>,
    pub file_stats: Option<FileStats>,
}

impl IndicatorData {
    pub fn new() -> (r: Self)
        ensures
            r.git is None,
            r.indentation is None,
            r.loc is None,
            r.coupling is None,
            r.file_stats is None,
    {
        IndicatorData {
            git: Option::None,
            indentation: Option::None,
            loc: Option::None,
            coupling: Option::None,
            file_stats: Option::None,
        }
    }

    pub fn is_empty(&self) -> (r: bool)
        ensures
            r == (self.git is None && self.indentation is None && self.loc is None
                && self.coupling is None && self.file_stats is None),
    {
        self.git.is_none() && self.indentation.is_none() && self.loc.is_none()
            && self.coupling.is_none() && self.file_stats.is_none()
    }
}

/// The name used for the root of the hierarchy.
pub fn root_name() -> (r: String)
    ensures
        r@ == "<root>"@,
{
    String::from_str("<root>")
}

/// A node of the indicator tree: a path component, a file or directory flag,
/// children (only for directories), and the indicator record.
#[derive(Debug)]
pub struct FlareTreeNode {
    pub(crate) name: String,
    pub(crate) is_file: bool,
    pub(crate) children: Vec<FlareTreeNode>,
    pub(crate) data: IndicatorData,
}

/// The first child carrying the given name; meaningful only when one exists.
pub open spec fn child_index(children: Seq<FlareTreeNode>, name: Seq<char>) -> int
    decreases children.len(),
{
    if children.len() == 0 {
        0
    } else if children[0].spec_name() == name {
        0
    } else {
        1 + child_index(children.subrange(1, children.len() as int), name)
    }
}

pub open spec fn has_child(children: Seq<FlareTreeNode>, name: Seq<char>) -> bool {
    exists|i: int| 0 <= i < children.len() && (#[trigger] children[i]).spec_name() == name
}

/// The node reached by walking the path, component by component, through
/// first-matching children; nothing when a component is missing or a file is
/// asked for children.
pub open spec fn spec_get_in(n: FlareTreeNode, path: Seq<Seq<char>>) -> Option<FlareTreeNode>
    decreases path.len(),
{
    if path.len() == 0 {
        Option::Some(n)
    } else if n.spec_is_file() {
        Option::None
    } else if has_child(n.spec_children(), path[0]) {
        spec_get_in(n.spec_children()[child_index(n.spec_children(), path[0])], path.drop_first())
    } else {
        Option::None
    }
}

pub proof fn lemma_child_index_props(children: Seq<FlareTreeNode>, name: Seq<char>)
    requires
        has_child(children, name),
    ensures
        0 <= child_index(children, name) < children.len(),
        children[child_index(children, name)].spec_name() == name,
        forall|j: int| 0 <= j < child_index(children, name) ==> children[j].spec_name() != name,
    decreases children.len(),
{
    if children.len() == 0 {
    } else if children[0].spec_name() == name {
    } else {
        let rest = children.subrange(1, children.len() as int);
        assert(has_child(rest, name)) by {
            let i = choose|i: int|
                0 <= i < children.len() && (#[trigger] children[i]).spec_name() == name;
            assert(rest[i - 1] == children[i]);
        }
        lemma_child_index_props(rest, name);
        assert forall|j: int| 0 <= j < child_index(children, name) implies children[j].spec_name()
            != name by {
            if j > 0 {
                assert(children[j] == rest[j - 1]);
            }
        }
    }
}

/// Which child a name finds depends only on the children's names: two lists
/// with the same names agree on presence and position.
pub proof fn lemma_child_index_names(c1: Seq<FlareTreeNode>, c2: Seq<FlareTreeNode>, name: Seq<char>)
    requires
        c1.len() == c2.len(),
        forall|j: int| 0 <= j < c1.len() ==> (#[trigger] c1[j]).spec_name() == c2[j].spec_name(),
    ensures
        has_child(c1, name) == has_child(c2, name),
        child_index(c1, name) == child_index(c2, name),
    decreases c1.len(),
{
    if c1.len() == 0 {
    } else {
        let r1 = c1.subrange(1, c1.len() as int);
        let r2 = c2.subrange(1, c2.len() as int);
        assert(forall|j: int| 0 <= j < r1.len() ==> (#[trigger] r1[j]) == c1[j + 1]);
        assert(forall|j: int| 0 <= j < r2.len() ==> (#[trigger] r2[j]) == c2[j + 1]);
        lemma_child_index_names(r1, r2, name);
        assert(has_child(c1, name) == has_child(c2, name)) by {
            if has_child(c1, name) {
                let i = choose|i: int|
                    0 <= i < c1.len() && (#[trigger] c1[i]).spec_name() == name;
                assert(c2[i].spec_name() == name);
            }
            if has_child(c2, name) {
                let i = choose|i: int|
                    0 <= i < c2.len() && (#[trigger] c2[i]).spec_name() == name;
                assert(c1[i].spec_name() == name);
            }
        }
    }
}

impl FlareTreeNode {
    pub closed spec fn spec_name(&self) -> Seq<char> {
        self.name@
    }

    pub closed spec fn spec_is_file(&self) -> bool {
        self.is_file
    }

    pub closed spec fn spec_children(&self) -> Seq<FlareTreeNode> {
        self.children@
    }

    pub closed spec fn spec_data(&self) -> IndicatorData {
        self.data
    }

    /// Paths address nodes unambiguously: no two siblings anywhere share a
    /// name, and files carry no children. The walker builds trees this way.
    pub open spec fn addressable(self) -> bool
        decreases self,
    {
        &&& (self.spec_is_file() ==> self.spec_children().len() == 0)
        &&& (forall|i: int, j: int|
            0 <= i < j < self.spec_children().len()
                ==> (#[trigger] self.spec_children()[i]).spec_name() != (
            #[trigger] self.spec_children()[j]).spec_name())
        &&& (forall|i: int|
            0 <= i < self.spec_children().len() ==> (#[trigger] self.spec_children()[i]).addressable())
    }

    /// Within the crate, the stored children are the spec-level children.
    pub(crate) proof fn lemma_children_are_spec_children(&self)
        ensures
            self.children@ == self.spec_children(),
    {
    }

    pub fn new(name: &str, is_file: bool) -> (r: Self)
        ensures
            r.spec_name() == name@,
            r.spec_is_file() == is_file,
            r.spec_children() == Seq::<FlareTreeNode>::empty(),
            r.spec_data().git is None,
            r.spec_data().indentation is None,
            r.spec_data().loc is None,
            r.spec_data().coupling is None,
            r.spec_data().file_stats is None,
    {
        let r = FlareTreeNode {
            name: String::from_str(name),
            is_file,
            children: Vec::new(),
            data: IndicatorData::new(),
        };
        proof {
            assert(r.spec_children() =~= Seq::<FlareTreeNode>::empty());
        }
        r
    }

    pub fn file(name: &str) -> (r: Self)
        ensures
            r.spec_name() == name@,
            r.spec_is_file(),
            r.spec_children() == Seq::<FlareTreeNode>::empty(),
    {
        Self::new(name, true)
    }

    pub fn dir(name: &str) -> (r: Self)
        ensures
            r.spec_name() == name@,
            !r.spec_is_file(),
            r.spec_children() == Seq::<FlareTreeNode>::empty(),
    {
        Self::new(name, false)
    }

    pub fn name(&self) -> (r: &String)
        ensures
            r@ == self.spec_name(),
    {
        &self.name
    }

    pub fn is_file(&self) -> (r: bool)
        ensures
            r == self.spec_is_file(),
    {
        self.is_file
    }

    pub fn indicators(&self) -> (r: &IndicatorData)
        ensures
            *r == self.spec_data(),
    {
        &self.data
    }

    pub fn indicators_mut(&mut self) -> (r: &mut IndicatorData)
        ensures
            *r == old(self).spec_data(),
            final(self).spec_data() == *final(r),
            final(self).spec_name() == old(self).spec_name(),
            final(self).spec_is_file() == old(self).spec_is_file(),
            final(self).spec_children() == old(self).spec_children(),
    {
        &mut self.data
    }

    /// Appending a child is only meaningful on a directory.
    pub fn append_child(&mut self, child: FlareTreeNode)
        requires
            !old(self).spec_is_file(),
        ensures
            final(self).spec_name() == old(self).spec_name(),
            final(self).spec_is_file() == old(self).spec_is_file(),
            final(self).spec_data() == old(self).spec_data(),
            final(self).spec_children() == old(self).spec_children().push(child),
    {
        self.children.push(child);
    }

    pub fn get_children(&self) -> (r: &Vec<FlareTreeNode>)
        ensures
            r@ == self.spec_children(),
    {
        &self.children
    }

    /// The node under the path, if every component exists.
    pub fn get_in(&self, path: &Vec<String>) -> (r: Option<&FlareTreeNode>)
        ensures
            match r {
                Option::Some(node) => spec_get_in(*self, path@.map_values(|s: String| s@))
                    == Option::Some(*node),
                Option::None => spec_get_in(*self, path@.map_values(|s: String| s@)) is None,
            },
    {
        proof {
            assert(path@.map_values(|s: String| s@).skip(0) =~= path@.map_values(
                |s: String| s@,
            ));
        }
        self.get_in_from(path, 0)
    }

    #[verifier::loop_isolation(false)]
    fn get_in_from(&self, path: &Vec<String>, from: usize) -> (r: Option<&FlareTreeNode>)
        requires
            from <= path@.len(),
        ensures
            match r {
                Option::Some(node) => spec_get_in(
                    *self,
                    path@.map_values(|s: String| s@).skip(from as int),
                ) == Option::Some(*node),
                Option::None => spec_get_in(
                    *self,
                    path@.map_values(|s: String| s@).skip(from as int),
                ) is None,
            },
        decreases path@.len() - from,
    {
        let ghost pv = path@.map_values(|s: String| s@).skip(from as int);
        if from == path.len() {
            proof {
                assert(pv.len() == 0);
            }
            return Option::Some(self);
        }
        proof {
            assert(pv[0] == path@[from as int]@);
        }
        if self.is_file {
            return Option::None;
        }
        let name = &path[from];
        let n = self.children.len();
        let mut i: usize = 0;
        while i < n
            invariant
                n == self.children@.len(),
                i <= n,
                from < path@.len(),
                !self.spec_is_file(),
                pv == path@.map_values(|s: String| s@).skip(from as int),
                pv.len() > 0,
                pv[0] == name@,
                name@ == path@[from as int]@,
                forall|j: int| 0 <= j < i ==> (#[trigger] self.children@[j]).spec_name() != name@,
            decreases n - i,
        {
            if self.children[i].name.eq(name) {
                proof {
                    assert(self.children@[i as int].spec_name() == name@);
                    assert(has_child(self.spec_children(), pv[0]));
                    lemma_child_index_props(self.spec_children(), name@);
                    let ci = child_index(self.spec_children(), name@);
                    if ci < i {
                        assert(self.children@[ci].spec_name() != name@);
                    }
                    if i < ci {
                        assert(self.children@[i as int].spec_name() != name@);
                    }
                    assert(pv.drop_first() =~= path@.map_values(|s: String| s@).skip(
                        from + 1,
                    ));
                }
                return self.children[i].get_in_from(path, from + 1);
            }
            i += 1;
        }
        proof {
            assert(!has_child(self.spec_children(), pv[0]));
        }
        Option::None
    }

    /// Append a child to the directory the path (from `from` on) addresses.
    /// Answers whether such a directory exists; when it does not, nothing
    /// changes. When it does, that directory gains exactly the child, its
    /// other fields stay, and every node on the way keeps its name, kind,
    /// indicators and other children.
    pub fn append_child_at(
        &mut self,
        path: &Vec<String>,
        from: usize,
        child: FlareTreeNode,
    ) -> (r: bool)
        requires
            from <= path@.len(),
        ensures
            r == (match spec_get_in(*old(self), path@.map_values(|s: String| s@).skip(from as int)) {
                Option::Some(t) => !t.spec_is_file(),
                Option::None => false,
            }),
            !r ==> *final(self) == *old(self),
            r ==> (match (
                spec_get_in(*old(self), path@.map_values(|s: String| s@).skip(from as int)),
                spec_get_in(*final(self), path@.map_values(|s: String| s@).skip(from as int)),
            ) {
                (Option::Some(a), Option::Some(b)) => b.spec_name() == a.spec_name()
                    && b.spec_is_file() == a.spec_is_file() && b.spec_data() == a.spec_data()
                    && b.spec_children() == a.spec_children().push(child),
                _ => false,
            }),
            final(self).spec_name() == old(self).spec_name(),
            final(self).spec_is_file() == old(self).spec_is_file(),
            final(self).spec_data() == old(self).spec_data(),
    {
        let found = match self.get_in_from(path, from) {
            Option::Some(node) => !node.is_file(),
            Option::None => false,
        };
        if !found {
            return false;
        }
        self.append_at_found(path, from, child);
        true
    }

    /// The mutation behind `append_child_at`, once the directory is known to
    /// exist.
    #[verifier::loop_isolation(false)]
    fn append_at_found(&mut self, path: &Vec<String>, from: usize, child: FlareTreeNode)
        requires
            from <= path@.len(),
            (match spec_get_in(*old(self), path@.map_values(|s: String| s@).skip(from as int)) {
                Option::Some(t) => !t.spec_is_file(),
                Option::None => false,
            }),
        ensures
            (match (
                spec_get_in(*old(self), path@.map_values(|s: String| s@).skip(from as int)),
                spec_get_in(*final(self), path@.map_values(|s: String| s@).skip(from as int)),
            ) {
                (Option::Some(a), Option::Some(b)) => b.spec_name() == a.spec_name()
                    && b.spec_is_file() == a.spec_is_file() && b.spec_data() == a.spec_data()
                    && b.spec_children() == a.spec_children().push(child),
                _ => false,
            }),
            final(self).spec_name() == old(self).spec_name(),
            final(self).spec_is_file() == old(self).spec_is_file(),
            final(self).spec_data() == old(self).spec_data(),
            from < path@.len() ==> final(self).spec_children().len() == old(
                self,
            ).spec_children().len() && (forall|j: int|
                0 <= j < old(self).spec_children().len()
                    ==> (#[trigger] final(self).spec_children()[j]).spec_name() == old(
                    self,
                ).spec_children()[j].spec_name()),
        decreases path@.len() - from,
    {
        let ghost pv = path@.map_values(|s: String| s@).skip(from as int);
        if from == path.len() {
            proof {
                assert(pv.len() == 0);
            }
            self.children.push(child);
            return ;
        }
        proof {
            assert(pv[0] == path@[from as int]@);
        }
        let name = &path[from];
        let n = self.children.len();
        let mut i: usize = 0;
        while i < n
            invariant
                *self == *old(self),
                n == self.children@.len(),
                i <= n,
                from < path@.len(),
                name@ == path@[from as int]@,
                pv == path@.map_values(|s: String| s@).skip(from as int),
                pv.len() > 0,
                pv[0] == name@,
                forall|j: int| 0 <= j < i ==> (#[trigger] self.children@[j]).spec_name() != name@,
            decreases n - i,
        {
            if self.children[i].name.eq(name) {
                proof {
                    assert(self.children@[i as int].spec_name() == name@);
                    assert(has_child(self.spec_children(), pv[0]));
                    lemma_child_index_props(self.spec_children(), name@);
                    let ci = child_index(self.spec_children(), name@);
                    if ci < i {
                        assert(self.children@[ci].spec_name() != name@);
                    }
                    if i < ci {
                        assert(self.children@[i as int].spec_name() != name@);
                    }
                    assert(pv.drop_first() =~= path@.map_values(|s: String| s@).skip(from + 1));
                }
                let ghost before = self.children@;
                let mut sub = self.children.remove(i);
                proof {
                    assert(sub == old(self).spec_children()[i as int]);
                    assert(spec_get_in(*old(self), pv) == spec_get_in(sub, pv.drop_first()));
                }
                sub.append_at_found(path, from + 1, child);
                self.children.insert(i, sub);
                proof {
                    assert(self.children@.len() == before.len());
                    assert(forall|j: int| 0 <= j < i ==> #[trigger] self.children@[j] == before[j]);
                    assert(forall|j: int|
                        i < j < before.len() ==> #[trigger] self.children@[j] == before[j]);
                    assert(self.children@[i as int].spec_name() == before[i as int].spec_name());
                    self.lemma_after_child_mutation(*old(self), before, i as int, pv);
                    assert(pv.drop_first() =~= path@.map_values(|s: String| s@).skip(from + 1));
                }
                return ;
            }
            i += 1;
        }
        proof {
            assert(!has_child(self.spec_children(), pv[0]));
            assert(false);
        }
    }

    /// After replacing the child at the matched index with a mutated copy
    /// that kept its name, the path still resolves, through that child.
    proof fn lemma_after_child_mutation(
        &self,
        orig: FlareTreeNode,
        before: Seq<FlareTreeNode>,
        i: int,
        pv: Seq<Seq<char>>,
    )
        requires
            pv.len() > 0,
            !orig.spec_is_file(),
            !self.spec_is_file(),
            before == orig.spec_children(),
            self.spec_children().len() == before.len(),
            0 <= i < before.len(),
            forall|j: int|
                0 <= j < before.len() && j != i ==> #[trigger] self.spec_children()[j] == before[j],
            self.spec_children()[i].spec_name() == before[i].spec_name(),
            before[i].spec_name() == pv[0],
            i == child_index(before, pv[0]),
            has_child(before, pv[0]),
        ensures
            has_child(self.spec_children(), pv[0]),
            child_index(self.spec_children(), pv[0]) == i,
            spec_get_in(*self, pv) == spec_get_in(self.spec_children()[i], pv.drop_first()),
            spec_get_in(orig, pv) == spec_get_in(before[i], pv.drop_first()),
    {
        assert(forall|j: int|
            0 <= j < before.len() ==> (#[trigger] self.spec_children()[j]).spec_name() == before[
            j].spec_name());
        lemma_child_index_names(self.spec_children(), before, pv[0]);
        assert(has_child(self.spec_children(), pv[0])) by {
            assert(self.spec_children()[i].spec_name() == pv[0]);
        }
    }

    /// Strip the bulky per-file git lists from this node and everything
    /// below it: the fine-grained activity always goes; the per-day
    /// summaries stay only when detailed git output is asked for. The same
    /// contract holds of every node below, since each child is stripped by
    /// this same function.
    #[verifier::loop_isolation(false)]
    pub fn strip_git_lists(&mut self, keep_details: bool)
        ensures
            final(self).spec_name() == old(self).spec_name(),
            final(self).spec_is_file() == old(self).spec_is_file(),
            final(self).spec_children().len() == old(self).spec_children().len(),
            final(self).spec_data().loc == old(self).spec_data().loc,
            final(self).spec_data().coupling == old(self).spec_data().coupling,
            final(self).spec_data().indentation == old(self).spec_data().indentation,
            final(self).spec_data().file_stats == old(self).spec_data().file_stats,
            (match (old(self).spec_data().git, final(self).spec_data().git) {
                (
                    Option::Some(GitNodeData::File { data: a }),
                    Option::Some(GitNodeData::File { data: b }),
                ) => b.last_update == a.last_update && b.age_in_days == a.age_in_days
                    && b.creation_date == a.creation_date && b.user_count == a.user_count
                    && b.users@ == a.users@ && b.activity@.len() == 0 && (keep_details
                    ==> crate::git::details_view(b.details@) == crate::git::details_view(
                    a.details@,
                )) && (!keep_details ==> b.details@.len() == 0),
                (x, y) => y == x,
            }),
        decreases *old(self),
    {
        let git = self.data.git.take();
        match git {
            Option::Some(GitNodeData::File { data }) => {
                let mut data = data;
                if !keep_details {
                    data.details = Vec::new();
                }
                data.activity = Vec::new();
                self.data.git = Option::Some(GitNodeData::File { data });
            },
            other => {
                self.data.git = other;
            },
        }
        let ghost stripped = self.spec_data();
        let n = self.children.len();
        let mut i: usize = 0;
        while i < n
            invariant
                n == self.children@.len(),
                i <= n,
                self.spec_name() == old(self).spec_name(),
                self.spec_is_file() == old(self).spec_is_file(),
                self.spec_data() == stripped,
                forall|j: int|
                    i <= j < n ==> #[trigger] self.children@[j] == old(self).spec_children()[j],
            decreases n - i,
        {
            let ghost before = self.children@;
            let mut child = self.children.remove(i);
            proof {
                assert(child == before[i as int]);
                assert(child == old(self).spec_children()[i as int]);
            }
            child.strip_git_lists(keep_details);
            self.children.insert(i, child);
            proof {
                assert forall|j: int|
                    i + 1 <= j < n implies #[trigger] self.children@[j] == old(
                    self,
                ).spec_children()[j] by {
                    assert(self.children@[j] == before[j]);
                }
            }
            i += 1;
        }
    }

    /// Attach a coupling record to the node the path addresses. Answers
    /// whether the path resolves; when it does not, nothing changes. When it
    /// does, that node's coupling slot becomes exactly the record, its other
    /// slots and structure stay, and every node on the way keeps its name,
    /// kind, indicators and other children.
    pub fn attach_coupling_at(
        &mut self,
        path: &Vec<String>,
        from: usize,
        data: SerializableCouplingData,
    ) -> (r: bool)
        requires
            from <= path@.len(),
        ensures
            r == (spec_get_in(*old(self), path@.map_values(|s: String| s@).skip(from as int))
                is Some),
            !r ==> *final(self) == *old(self),
            r ==> (match (
                spec_get_in(*old(self), path@.map_values(|s: String| s@).skip(from as int)),
                spec_get_in(*final(self), path@.map_values(|s: String| s@).skip(from as int)),
            ) {
                (Option::Some(a), Option::Some(b)) => b.spec_name() == a.spec_name()
                    && b.spec_is_file() == a.spec_is_file() && b.spec_children()
                    == a.spec_children() && b.spec_data().coupling == Option::Some(data)
                    && b.spec_data().git == a.spec_data().git && b.spec_data().loc
                    == a.spec_data().loc && b.spec_data().indentation == a.spec_data().indentation
                    && b.spec_data().file_stats == a.spec_data().file_stats,
                _ => false,
            }),
            final(self).spec_name() == old(self).spec_name(),
            final(self).spec_is_file() == old(self).spec_is_file(),
            final(self).spec_children().len() == old(self).spec_children().len(),
    {
        let found = match self.get_in_from(path, from) {
            Option::Some(_) => true,
            Option::None => false,
        };
        if !found {
            return false;
        }
        self.attach_at_found(path, from, data);
        true
    }

    /// The mutation behind `attach_coupling_at`, once the node is known to
    /// exist.
    #[verifier::loop_isolation(false)]
    fn attach_at_found(&mut self, path: &Vec<String>, from: usize, data: SerializableCouplingData)
        requires
            from <= path@.len(),
            spec_get_in(*old(self), path@.map_values(|s: String| s@).skip(from as int)) is Some,
        ensures
            (match (
                spec_get_in(*old(self), path@.map_values(|s: String| s@).skip(from as int)),
                spec_get_in(*final(self), path@.map_values(|s: String| s@).skip(from as int)),
            ) {
                (Option::Some(a), Option::Some(b)) => b.spec_name() == a.spec_name()
                    && b.spec_is_file() == a.spec_is_file() && b.spec_children()
                    == a.spec_children() && b.spec_data().coupling == Option::Some(data)
                    && b.spec_data().git == a.spec_data().git && b.spec_data().loc
                    == a.spec_data().loc && b.spec_data().indentation == a.spec_data().indentation
                    && b.spec_data().file_stats == a.spec_data().file_stats,
                _ => false,
            }),
            final(self).spec_name() == old(self).spec_name(),
            final(self).spec_is_file() == old(self).spec_is_file(),
            final(self).spec_children().len() == old(self).spec_children().len(),
            forall|j: int|
                0 <= j < old(self).spec_children().len()
                    ==> (#[trigger] final(self).spec_children()[j]).spec_name() == old(
                    self,
                ).spec_children()[j].spec_name(),
        decreases path@.len() - from,
    {
        let ghost pv = path@.map_values(|s: String| s@).skip(from as int);
        if from == path.len() {
            proof {
                assert(pv.len() == 0);
            }
            self.data.coupling = Option::Some(data);
            return ;
        }
        proof {
            assert(pv[0] == path@[from as int]@);
        }
        let name = &path[from];
        let n = self.children.len();
        let mut i: usize = 0;
        while i < n
            invariant
                *self == *old(self),
                n == self.children@.len(),
                i <= n,
                from < path@.len(),
                name@ == path@[from as int]@,
                pv == path@.map_values(|s: String| s@).skip(from as int),
                pv.len() > 0,
                pv[0] == name@,
                forall|j: int| 0 <= j < i ==> (#[trigger] self.children@[j]).spec_name() != name@,
            decreases n - i,
        {
            if self.children[i].name.eq(name) {
                proof {
                    assert(self.children@[i as int].spec_name() == name@);
                    assert(has_child(self.spec_children(), pv[0]));
                    lemma_child_index_props(self.spec_children(), name@);
                    let ci = child_index(self.spec_children(), name@);
                    if ci < i {
                        assert(self.children@[ci].spec_name() != name@);
                    }
                    if i < ci {
                        assert(self.children@[i as int].spec_name() != name@);
                    }
                    assert(pv.drop_first() =~= path@.map_values(|s: String| s@).skip(from + 1));
                }
                let ghost before = self.children@;
                let mut sub = self.children.remove(i);
                proof {
                    assert(sub == old(self).spec_children()[i as int]);
                    assert(spec_get_in(*old(self), pv) == spec_get_in(sub, pv.drop_first()));
                }
                sub.attach_at_found(path, from + 1, data);
                self.children.insert(i, sub);
                proof {
                    assert(self.children@.len() == before.len());
                    assert(forall|j: int| 0 <= j < i ==> #[trigger] self.children@[j] == before[j]);
                    assert(forall|j: int|
                        i < j < before.len() ==> #[trigger] self.children@[j] == before[j]);
                    assert(self.children@[i as int].spec_name() == before[i as int].spec_name());
                    self.lemma_after_child_mutation(*old(self), before, i as int, pv);
                    assert(pv.drop_first() =~= path@.map_values(|s: String| s@).skip(from + 1));
                }
                return ;
            }
            i += 1;
        }
        proof {
            assert(!has_child(self.spec_children(), pv[0]));
            assert(false);
        }
    }
}

} // verus!
