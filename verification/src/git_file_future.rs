use vstd::prelude::*;

verus! {

/// What one commit does to one path's name.
#[derive(Debug)]
pub enum FileNameChange {
    Renamed(String),
    Deleted(),
}

pub enum FileNameChangeView {
    Renamed(Seq<char>),
    Deleted,
}

impl View for FileNameChange {
    type V = FileNameChangeView;

    open spec fn view(&self) -> FileNameChangeView {
        match self {
            FileNameChange::Renamed(s) => FileNameChangeView::Renamed(s@),
            FileNameChange::Deleted() => FileNameChangeView::Deleted,
        }
    }
}

impl Clone for FileNameChange {
    fn clone(&self) -> (r: Self)
        ensures
            r@ == self@,
    {
        match self {
            FileNameChange::Renamed(s) => FileNameChange::Renamed(s.clone()),
            FileNameChange::Deleted() => FileNameChange::Deleted(),
        }
    }
}

/// The name changes one commit introduces, and the commit's children on the
/// lines of descent seen so far. Only the first child is ever followed: it is
/// the main line.
#[derive(Debug)]
struct RevChange {
    files: Vec<(String, FileNameChange)>,
    children: Vec<String>,
}

pub struct RevChangeView {
    pub files: Seq<(Seq<char>, FileNameChangeView)>,
    pub children: Seq<Seq<char>>,
}

impl View for RevChange {
    type V = RevChangeView;

    closed spec fn view(&self) -> RevChangeView {
        RevChangeView {
            files: self.files@.map_values(|p: (String, FileNameChange)| (p.0@, p.1@)),
            children: self.children@.map_values(|s: String| s@),
        }
    }
}

impl RevChange {
    fn new() -> (r: Self)
        ensures
            r@ == empty_rev(),
    {
        let r = RevChange { files: Vec::new(), children: Vec::new() };
        proof {
            assert(r@.files =~= empty_rev().files);
            assert(r@.children =~= empty_rev().children);
        }
        r
    }
}

/// The registry as a mathematical value: commit ids in first-registration
/// order, each with its name changes and children.
pub type RegView = Seq<(Seq<char>, RevChangeView)>;

pub open spec fn empty_rev() -> RevChangeView {
    RevChangeView { files: Seq::empty(), children: Seq::empty() }
}

pub open spec fn reg_contains(r: RegView, id: Seq<char>) -> bool {
    exists|i: int| 0 <= i < r.len() && r[i].0 == id
}

/// The index of a commit id; meaningful only when `reg_contains` holds.
pub open spec fn reg_index(r: RegView, id: Seq<char>) -> int
    decreases r.len(),
{
    if r.len() == 0 {
        0
    } else if r[0].0 == id {
        0
    } else {
        1 + reg_index(r.subrange(1, r.len() as int), id)
    }
}

pub open spec fn reg_at(r: RegView, id: Seq<char>) -> RevChangeView {
    r[reg_index(r, id)].1
}

/// The change recorded for a path at one commit: the latest registration
/// wins, as later entries overwrite earlier ones.
pub open spec fn file_lookup(
    files: Seq<(Seq<char>, FileNameChangeView)>,
    path: Seq<char>,
) -> Option<FileNameChangeView>
    decreases files.len(),
{
    if files.len() == 0 {
        Option::None
    } else if files.last().0 == path {
        Option::Some(files.last().1)
    } else {
        file_lookup(files.drop_last(), path)
    }
}

/// One step of the walk towards the future: apply this commit's change to the
/// path, then follow the first child. `fuel` bounds the number of steps; a
/// registry built from an acyclic commit graph never exhausts it when it
/// starts at the number of registered commits.
pub open spec fn walk(r: RegView, id: Seq<char>, path: Seq<char>, fuel: nat) -> Option<Seq<char>>
    decreases fuel,
{
    let rc = reg_at(r, id);
    match file_lookup(rc.files, path) {
        Option::Some(FileNameChangeView::Deleted) => Option::None,
        Option::Some(FileNameChangeView::Renamed(new_name)) => if rc.children.len() == 0 {
            Option::Some(new_name)
        } else if fuel == 0 {
            Option::Some(new_name)
        } else {
            walk(r, rc.children[0], new_name, (fuel - 1) as nat)
        },
        Option::None => if rc.children.len() == 0 {
            Option::Some(path)
        } else if fuel == 0 {
            Option::Some(path)
        } else {
            walk(r, rc.children[0], path, (fuel - 1) as nat)
        },
    }
}

pub open spec fn ensure_entry(r: RegView, id: Seq<char>) -> RegView {
    if reg_contains(r, id) {
        r
    } else {
        r.push((id, empty_rev()))
    }
}

/// The registry with the given name changes appended at an already-present
/// commit.
pub open spec fn with_files(
    r: RegView,
    id: Seq<char>,
    fcs: Seq<(Seq<char>, FileNameChangeView)>,
) -> RegView {
    let i = reg_index(r, id);
    r.update(
        i,
        (id, RevChangeView { files: r[i].1.files + fcs, children: r[i].1.children }),
    )
}

/// The registry with `child` recorded as the next child of `parent`,
/// creating the parent's entry when it is new.
pub open spec fn with_child(r: RegView, parent: Seq<char>, child: Seq<char>) -> RegView {
    let r1 = ensure_entry(r, parent);
    let i = reg_index(r1, parent);
    r1.update(
        i,
        (parent, RevChangeView { files: r1[i].1.files, children: r1[i].1.children.push(child) }),
    )
}

pub open spec fn with_parents(r: RegView, parents: Seq<Seq<char>>, child: Seq<char>) -> RegView
    decreases parents.len(),
{
    if parents.len() == 0 {
        r
    } else {
        with_child(with_parents(r, parents.drop_last(), child), parents.last(), child)
    }
}

/// What one registration does to the registry.
pub open spec fn register_spec(
    r: RegView,
    id: Seq<char>,
    parents: Seq<Seq<char>>,
    fcs: Seq<(Seq<char>, FileNameChangeView)>,
) -> RegView {
    with_parents(with_files(ensure_entry(r, id), id, fcs), parents, id)
}

pub proof fn lemma_reg_index_props(r: RegView, id: Seq<char>)
    requires
        reg_contains(r, id),
    ensures
        0 <= reg_index(r, id) < r.len(),
        r[reg_index(r, id)].0 == id,
        forall|j: int| 0 <= j < reg_index(r, id) ==> r[j].0 != id,
    decreases r.len(),
{
    if r.len() == 0 {
    } else if r[0].0 == id {
    } else {
        let rest = r.subrange(1, r.len() as int);
        assert(reg_contains(rest, id)) by {
            let i = choose|i: int| 0 <= i < r.len() && r[i].0 == id;
            assert(rest[i - 1] == r[i]);
        }
        lemma_reg_index_props(rest, id);
        assert forall|j: int| 0 <= j < reg_index(r, id) implies r[j].0 != id by {
            if j > 0 {
                assert(r[j] == rest[j - 1]);
            }
        }
    }
}


/// Tracks, per commit id, the name changes it introduced and its children in
/// registration order; answers what a path under a commit is finally called
/// on the main line of descent, or that it is deleted.
#[derive(Debug)]
pub struct GitFileFutureRegistry {
    rev_changes: Vec<(String, RevChange)>,
}

impl View for GitFileFutureRegistry {
    type V = RegView;

    closed spec fn view(&self) -> RegView {
        self.rev_changes@.map_values(|p: (String, RevChange)| (p.0@, p.1@))
    }
}

impl GitFileFutureRegistry {
    /// Commit ids are stored once each, and every recorded child id has an
    /// entry of its own.
    pub closed spec fn wf(&self) -> bool {
        &&& forall|i: int, j: int| 0 <= i < j < self@.len() ==> (#[trigger] self@[i]).0 != (
        #[trigger] self@[j]).0
        &&& forall|i: int, c: int|
            0 <= i < self@.len() && 0 <= c < self@[i].1.children.len() ==> reg_contains(
                self@,
                #[trigger] self@[i].1.children[c],
            )
    }

    pub fn new() -> (r: Self)
        ensures
            r.wf(),
            r@ == Seq::<(Seq<char>, RevChangeView)>::empty(),
    {
        let r = GitFileFutureRegistry { rev_changes: Vec::new() };
        proof {
            assert(r@ =~= Seq::<(Seq<char>, RevChangeView)>::empty());
        }
        r
    }

    /// The position of the commit's entry, creating an empty one when the id
    /// is new.
    fn entry_index(&mut self, id: &String) -> (idx: usize)
        requires
            old(self).wf(),
        ensures
            final(self).wf(),
            final(self)@ == ensure_entry(old(self)@, id@),
            reg_contains(final(self)@, id@),
            idx == reg_index(final(self)@, id@),
            idx < final(self)@.len(),
            final(self)@[idx as int].0 == id@,
    {
        let ghost d = self@;
        let n = self.rev_changes.len();
        let mut i: usize = 0;
        while i < n
            invariant
                self.wf(),
                self@ == d,
                d == old(self)@,
                n == self.rev_changes@.len(),
                i <= n,
                forall|j: int| 0 <= j < i ==> (#[trigger] d[j]).0 != id@,
            decreases n - i,
        {
            if self.rev_changes[i].0.eq(id) {
                proof {
                    assert(d[i as int].0 == id@);
                    lemma_reg_index_props(d, id@);
                    let ki = reg_index(d, id@);
                    if ki < i {
                        assert(d[ki].0 != id@);
                    }
                }
                return i;
            }
            i += 1;
        }
        proof {
            assert(!reg_contains(d, id@));
        }
        self.rev_changes.push((id.clone(), RevChange::new()));
        proof {
            assert(self@ =~= d.push((id@, empty_rev())));
            assert(self@[d.len() as int].0 == id@);
            lemma_reg_index_props(self@, id@);
            let ki = reg_index(self@, id@);
            if ki < d.len() {
                assert(d[ki] == self@[ki]);
                assert(!reg_contains(d, id@));
            }
            assert forall|a: int, b: int| 0 <= a < b < self@.len() implies (
            #[trigger] self@[a]).0 != (#[trigger] self@[b]).0 by {
                if b == d.len() {
                    assert(!reg_contains(d, id@));
                }
            }
            assert forall|a: int, c: int|
                0 <= a < self@.len() && 0 <= c < self@[a].1.children.len() implies reg_contains(
                self@,
                #[trigger] self@[a].1.children[c],
            ) by {
                if a < d.len() {
                    assert(self@[a] == d[a]);
                    assert(reg_contains(d, d[a].1.children[c]));
                    let w = choose|w: int|
                        0 <= w < d.len() && d[w].0 == d[a].1.children[c];
                    assert(self@[w].0 == d[a].1.children[c]);
                }
            }
        }
        n
    }

    /// Record one commit: its own name changes, and itself as the next child
    /// of each of its parents, in the order the log reports them.
    pub fn register(
        &mut self,
        id: &String,
        parent_ids: &Vec<String>,
        file_changes: &Vec<(String, FileNameChange)>,
    )
        requires
            old(self).wf(),
        ensures
            final(self).wf(),
            final(self)@ == register_spec(
                old(self)@,
                id@,
                parent_ids@.map_values(|s: String| s@),
                file_changes@.map_values(|p: (String, FileNameChange)| (p.0@, p.1@)),
            ),
            reg_contains(final(self)@, id@),
    {
        let ghost d0 = self@;
        let ghost fcsv = file_changes@.map_values(|p: (String, FileNameChange)| (p.0@, p.1@));
        let ghost psv = parent_ids@.map_values(|s: String| s@);
        let idx = self.entry_index(id);
        let ghost d1 = self@;

        // append this commit's name changes to its entry
        let mut files = self.rev_changes[idx].1.files.clone_entries();
        let mut children = self.rev_changes[idx].1.children.clone_strings();
        proof {
            assert(fcsv.take(0) =~= Seq::<(Seq<char>, FileNameChangeView)>::empty());
            assert(files@.map_values(|p: (String, FileNameChange)| (p.0@, p.1@)) =~= d1[
                idx as int].1.files + fcsv.take(0));
        }
        let nf = file_changes.len();
        let mut j: usize = 0;
        while j < nf
            invariant
                j <= nf,
                nf == file_changes@.len(),
                fcsv == file_changes@.map_values(|p: (String, FileNameChange)| (p.0@, p.1@)),
                files@.map_values(|p: (String, FileNameChange)| (p.0@, p.1@)) == d1[idx as int].1.files
                    + fcsv.take(j as int),
                idx < d1.len(),
            decreases nf - j,
        {
            let ghost files_before = files@;
            let fc = &file_changes[j];
            files.push((fc.0.clone(), fc.1.clone()));
            proof {
                assert(fcsv[j as int] == (file_changes@[j as int].0@, file_changes@[j as int].1@));
                assert(files@ == files_before.push((files@.last().0, files@.last().1)));
                assert(files@.last().0@ == fcsv[j as int].0);
                assert(files@.last().1@ == fcsv[j as int].1);
                assert(files@.map_values(|p: (String, FileNameChange)| (p.0@, p.1@))
                    =~= files_before.map_values(|p: (String, FileNameChange)| (p.0@, p.1@)).push(
                    fcsv[j as int],
                ));
                assert(files_before.map_values(|p: (String, FileNameChange)| (p.0@, p.1@)).push(
                    fcsv[j as int],
                ) =~= d1[idx as int].1.files + fcsv.take(j + 1));
            }
            j += 1;
        }
        let new_entry = RevChange { files, children };
        let id_copy = id.clone();
        self.rev_changes.set(idx, (id_copy, new_entry));
        let ghost d2 = self@;
        proof {
            assert(fcsv.take(nf as int) =~= fcsv);
            assert(d2 =~= with_files(d1, id@, fcsv)) by {
                lemma_reg_index_props(d1, id@);
            }
            // ids are unchanged by the update, so wf is kept
            assert forall|a: int, b: int| 0 <= a < b < d2.len() implies (#[trigger] d2[a]).0 != (
            #[trigger] d2[b]).0 by {
                assert(d2[a].0 == d1[a].0);
                assert(d2[b].0 == d1[b].0);
            }
            assert forall|a: int, c: int|
                0 <= a < d2.len() && 0 <= c < d2[a].1.children.len() implies reg_contains(
                d2,
                #[trigger] d2[a].1.children[c],
            ) by {
                assert(d2[a].1.children == d1[a].1.children);
                assert(reg_contains(d1, d1[a].1.children[c]));
                let w = choose|w: int| 0 <= w < d1.len() && d1[w].0 == d1[a].1.children[c];
                assert(d2[w].0 == d1[w].0);
            }
            assert(self.wf());
            lemma_reg_index_props(d1, id@);
            assert(d2[reg_index(d1, id@)].0 == id@);
            assert(psv.take(0) =~= Seq::<Seq<char>>::empty());
        }

        // record this commit as a child of each parent
        let np = parent_ids.len();
        let mut p: usize = 0;
        while p < np
            invariant
                self.wf(),
                p <= np,
                np == parent_ids@.len(),
                psv == parent_ids@.map_values(|s: String| s@),
                self@ == with_parents(d2, psv.take(p as int), id@),
                reg_contains(self@, id@),
            decreases np - p,
        {
            let ghost before = self@;
            let pidx = self.entry_index(&parent_ids[p]);
            let ghost mid = self@;
            let mut pfiles = self.rev_changes[pidx].1.files.clone_entries();
            let mut pchildren = self.rev_changes[pidx].1.children.clone_strings();
            pchildren.push(id.clone());
            let parent_copy = parent_ids[p].clone();
            self.rev_changes.set(pidx, (parent_copy, RevChange { files: pfiles, children: pchildren }));
            proof {
                let pv = psv[p as int];
                assert(mid == ensure_entry(before, pv));
                lemma_reg_index_props(mid, pv);
                assert(self@ =~= with_child(before, pv, id@)) by {
                    assert(self@.len() == mid.len());
                    assert(pchildren@.map_values(|s: String| s@) =~= mid[pidx as int].1.children.push(
                        id@,
                    ));
                }
                assert(psv.take(p + 1).drop_last() =~= psv.take(p as int));
                assert(psv.take(p + 1).last() == pv);
                // wf: ids unchanged from mid, children extended only with id, which is present
                assert forall|a: int, b: int| 0 <= a < b < self@.len() implies (
                #[trigger] self@[a]).0 != (#[trigger] self@[b]).0 by {
                    assert(self@[a].0 == mid[a].0);
                    assert(self@[b].0 == mid[b].0);
                }
                assert(reg_contains(mid, id@)) by {
                    let w = choose|w: int| 0 <= w < before.len() && before[w].0 == id@;
                    assert(mid[w].0 == id@);
                }
                assert forall|a: int, c: int|
                    0 <= a < self@.len() && 0 <= c < self@[a].1.children.len()
                    implies reg_contains(self@, #[trigger] self@[a].1.children[c]) by {
                    let target = self@[a].1.children[c];
                    assert(reg_contains(mid, target)) by {
                        if a == pidx && c == mid[a].1.children.len() {
                            assert(target == id@);
                        } else {
                            assert(mid[a].1.children[c] == target);
                        }
                    }
                    let w = choose|w: int| 0 <= w < mid.len() && mid[w].0 == target;
                    assert(self@[w].0 == mid[w].0);
                }
                assert(reg_contains(self@, id@)) by {
                    let w = choose|w: int| 0 <= w < mid.len() && mid[w].0 == id@;
                    assert(self@[w].0 == mid[w].0);
                }
            }
            p += 1;
        }
        proof {
            assert(psv.take(np as int) =~= psv);
        }
    }

    /// What this path, as of this commit, is finally called on the main line
    /// of descent: `None` when it is deleted along the way. Follows first
    /// children only, for at most as many steps as there are registered
    /// commits.
    pub fn final_name(&self, ref_id: &String, file: &String) -> (r: Option<String>)
        requires
            self.wf(),
            reg_contains(self@, ref_id@),
        ensures
            match r {
                Option::None => walk(self@, ref_id@, file@, self@.len() as nat) is None,
                Option::Some(name) => walk(self@, ref_id@, file@, self@.len() as nat)
                    == Option::Some(name@),
            },
    {
        let ghost full_fuel = self@.len() as nat;
        let mut current_name = file.clone();
        let mut current_ref = ref_id.clone();
        let mut fuel = self.rev_changes.len();
        loop
            invariant
                self.wf(),
                reg_contains(self@, current_ref@),
                fuel <= self@.len(),
                walk(self@, ref_id@, file@, full_fuel) == walk(
                    self@,
                    current_ref@,
                    current_name@,
                    fuel as nat,
                ),
                full_fuel == self@.len() as nat,
            decreases fuel + 1,
        {
            proof {
                lemma_reg_index_props(self@, current_ref@);
            }
            let idx = self.index_of(&current_ref);
            let change = self.lookup_file(idx, &current_name);
            match change {
                Option::Some(FileNameChange::Deleted()) => {
                    return Option::None;
                },
                Option::Some(FileNameChange::Renamed(new_name)) => {
                    current_name = new_name;
                },
                Option::None => {},
            }
            if self.rev_changes[idx].1.children.len() == 0 {
                return Option::Some(current_name);
            }
            if fuel == 0 {
                return Option::Some(current_name);
            }
            let next_ref = self.rev_changes[idx].1.children[0].clone();
            proof {
                assert(reg_contains(self@, self@[idx as int].1.children[0]));
            }
            current_ref = next_ref;
            fuel -= 1;
        }
    }

    /// The position of an already-registered commit.
    fn index_of(&self, id: &String) -> (idx: usize)
        requires
            reg_contains(self@, id@),
        ensures
            idx == reg_index(self@, id@),
            idx < self@.len(),
            self@[idx as int].0 == id@,
    {
        let ghost d = self@;
        let n = self.rev_changes.len();
        let mut i: usize = 0;
        proof {
            lemma_reg_index_props(d, id@);
        }
        while i < n
            invariant
                self@ == d,
                reg_contains(d, id@),
                n == d.len(),
                i <= n,
                i <= reg_index(d, id@),
            decreases n - i,
        {
            if self.rev_changes[i].0.eq(id) {
                proof {
                    assert(d[i as int].0 == id@);
                    lemma_reg_index_props(d, id@);
                    let ki = reg_index(d, id@);
                    if i < ki {
                        assert(d[i as int].0 != id@);
                    }
                }
                return i;
            }
            proof {
                lemma_reg_index_props(d, id@);
                if reg_index(d, id@) == i {
                    assert(d[i as int].0 == id@);
                }
            }
            i += 1;
        }
        proof {
            lemma_reg_index_props(d, id@);
            assert(false);
        }
        0
    }

    /// The change this commit records for the path, latest registration
    /// winning.
    fn lookup_file(&self, idx: usize, path: &String) -> (r: Option<FileNameChange>)
        requires
            idx < self@.len(),
        ensures
            match r {
                Option::None => file_lookup(self@[idx as int].1.files, path@) is None,
                Option::Some(fc) => file_lookup(self@[idx as int].1.files, path@)
                    == Option::Some(fc@),
            },
    {
        let ghost files = self@[idx as int].1.files;
        let entry_files = &self.rev_changes[idx].1.files;
        let n = entry_files.len();
        proof {
            assert(files.take(n as int) =~= files);
        }
        let mut i: usize = n;
        while i > 0
            invariant
                n == entry_files@.len(),
                i <= n,
                files == self@[idx as int].1.files,
                entry_files@.map_values(|p: (String, FileNameChange)| (p.0@, p.1@)) == files,
                file_lookup(files, path@) == file_lookup(files.take(i as int), path@),
            decreases i,
        {
            proof {
                assert(files.take(i as int).last() == files[i - 1]);
                assert(files.take(i as int).drop_last() =~= files.take(i - 1));
            }
            if entry_files[i - 1].0.eq(path) {
                return Option::Some(entry_files[i - 1].1.clone());
            }
            i -= 1;
        }
        proof {
            assert(files.take(0) =~= Seq::<(Seq<char>, FileNameChangeView)>::empty());
        }
        Option::None
    }
}

/// Registration never disturbs the ids already stored: it only appends new
/// entries and edits the bodies of existing ones.
pub proof fn lemma_register_ids_preserved(
    r: RegView,
    id: Seq<char>,
    parents: Seq<Seq<char>>,
    fcs: Seq<(Seq<char>, FileNameChangeView)>,
)
    ensures
        register_spec(r, id, parents, fcs).len() >= r.len(),
        forall|j: int|
            0 <= j < r.len() ==> (#[trigger] register_spec(r, id, parents, fcs)[j]).0 == r[j].0,
        reg_contains(register_spec(r, id, parents, fcs), id),
{
    let r1 = ensure_entry(r, id);
    lemma_ensure_ids(r, id);
    let r2 = with_files(r1, id, fcs);
    lemma_reg_index_props(r1, id);
    assert forall|j: int| 0 <= j < r1.len() implies (#[trigger] r2[j]).0 == r1[j].0 by {
        if j == reg_index(r1, id) {
            assert(r1[j].0 == id);
        }
    }
    assert(r2[reg_index(r1, id)].0 == id);
    lemma_with_parents_ids(r2, parents, id);
    let r3 = with_parents(r2, parents, id);
    assert(r3[reg_index(r1, id)].0 == id);
}

proof fn lemma_ensure_ids(r: RegView, id: Seq<char>)
    ensures
        ensure_entry(r, id).len() >= r.len(),
        forall|j: int| 0 <= j < r.len() ==> (#[trigger] ensure_entry(r, id)[j]).0 == r[j].0,
        reg_contains(ensure_entry(r, id), id),
{
    if reg_contains(r, id) {
    } else {
        assert(ensure_entry(r, id)[r.len() as int].0 == id);
    }
}

proof fn lemma_with_child_ids(r: RegView, parent: Seq<char>, child: Seq<char>)
    ensures
        with_child(r, parent, child).len() >= r.len(),
        forall|j: int| 0 <= j < r.len() ==> (#[trigger] with_child(r, parent, child)[j]).0 == r[j].0,
{
    let r1 = ensure_entry(r, parent);
    lemma_ensure_ids(r, parent);
    lemma_reg_index_props(r1, parent);
    assert forall|j: int| 0 <= j < r.len() implies (#[trigger] with_child(r, parent, child)[j]).0
        == r[j].0 by {
        if j == reg_index(r1, parent) {
            assert(r1[j].0 == parent);
        }
    }
}

proof fn lemma_with_parents_ids(r: RegView, parents: Seq<Seq<char>>, child: Seq<char>)
    ensures
        with_parents(r, parents, child).len() >= r.len(),
        forall|j: int|
            0 <= j < r.len() ==> (#[trigger] with_parents(r, parents, child)[j]).0 == r[j].0,
    decreases parents.len(),
{
    if parents.len() == 0 {
    } else {
        let prev = with_parents(r, parents.drop_last(), child);
        lemma_with_parents_ids(r, parents.drop_last(), child);
        lemma_with_child_ids(prev, parents.last(), child);
    }
}

/// A main line of descent: each commit's first child is the next commit,
/// the last commit has no children, and no commit repeats.
pub open spec fn is_main_line(r: RegView, ids: Seq<Seq<char>>) -> bool {
    &&& ids.len() >= 1
    &&& ids.no_duplicates()
    &&& forall|i: int| 0 <= i < ids.len() ==> reg_contains(r, #[trigger] ids[i])
    &&& forall|i: int|
        0 <= i < ids.len() - 1 ==> reg_at(r, #[trigger] ids[i]).children.len() > 0 && reg_at(
            r,
            ids[i],
        ).children[0] == ids[i + 1]
    &&& reg_at(r, ids.last()).children.len() == 0
}

/// The name a path ends with after applying, commit by commit, the changes
/// along a line of descent: `None` once some commit deletes it.
pub open spec fn chain_result(r: RegView, ids: Seq<Seq<char>>, path: Seq<char>) -> Option<
    Seq<char>,
>
    decreases ids.len(),
{
    if ids.len() == 0 {
        Option::Some(path)
    } else {
        match file_lookup(reg_at(r, ids[0]).files, path) {
            Option::Some(FileNameChangeView::Deleted) => Option::None,
            Option::Some(FileNameChangeView::Renamed(new_name)) => chain_result(
                r,
                ids.drop_first(),
                new_name,
            ),
            Option::None => chain_result(r, ids.drop_first(), path),
        }
    }
}

proof fn lemma_walk_follows_chain(r: RegView, ids: Seq<Seq<char>>, path: Seq<char>, fuel: nat)
    requires
        is_main_line(r, ids),
        fuel + 1 >= ids.len(),
    ensures
        walk(r, ids[0], path, fuel) == chain_result(r, ids, path),
    decreases ids.len(),
{
    let rc = reg_at(r, ids[0]);
    if ids.len() == 1 {
        assert(rc.children.len() == 0);
        let rest = ids.drop_first();
        assert(rest.len() == 0);
        match file_lookup(rc.files, path) {
            Option::Some(FileNameChangeView::Deleted) => {},
            Option::Some(FileNameChangeView::Renamed(new_name)) => {
                assert(chain_result(r, rest, new_name) == Option::Some(new_name));
            },
            Option::None => {
                assert(chain_result(r, rest, path) == Option::Some(path));
            },
        }
    } else {
        let rest = ids.drop_first();
        assert(is_main_line(r, rest)) by {
            assert(rest.len() >= 1);
            assert forall|i: int| 0 <= i < rest.len() implies reg_contains(
                r,
                #[trigger] rest[i],
            ) by {
                assert(rest[i] == ids[i + 1]);
            }
            assert forall|i: int| 0 <= i < rest.len() - 1 implies reg_at(
                r,
                #[trigger] rest[i],
            ).children.len() > 0 && reg_at(r, rest[i]).children[0] == rest[i + 1] by {
                assert(rest[i] == ids[i + 1]);
                assert(rest[i + 1] == ids[i + 2]);
            }
            assert(rest.last() == ids.last());
        }
        assert(rc.children.len() > 0 && rc.children[0] == ids[1]);
        assert(rest[0] == ids[1]);
        assert(fuel > 0);
        match file_lookup(rc.files, path) {
            Option::Some(FileNameChangeView::Deleted) => {},
            Option::Some(FileNameChangeView::Renamed(new_name)) => {
                lemma_walk_follows_chain(r, rest, new_name, (fuel - 1) as nat);
            },
            Option::None => {
                lemma_walk_follows_chain(r, rest, path, (fuel - 1) as nat);
            },
        }
    }
}

/// A sequence of distinct registered commits is no longer than the registry.
proof fn lemma_chain_fits(r: RegView, ids: Seq<Seq<char>>)
    requires
        forall|i: int, j: int| 0 <= i < j < r.len() ==> (#[trigger] r[i]).0 != (#[trigger] r[j]).0,
        ids.no_duplicates(),
        forall|i: int| 0 <= i < ids.len() ==> reg_contains(r, #[trigger] ids[i]),
    ensures
        ids.len() <= r.len(),
{
    let idxs = Seq::new(ids.len(), |i: int| reg_index(r, ids[i]));
    assert forall|i: int, j: int| 0 <= i < idxs.len() && 0 <= j < idxs.len() && i != j
        implies idxs[i] != idxs[j] by {
        lemma_reg_index_props(r, ids[i]);
        lemma_reg_index_props(r, ids[j]);
        if idxs[i] == idxs[j] {
            assert(r[reg_index(r, ids[i])].0 == ids[i]);
            assert(r[reg_index(r, ids[j])].0 == ids[j]);
        }
    }
    idxs.unique_seq_to_set();
    assert forall|x: int| idxs.to_set().contains(x) implies vstd::set_lib::set_int_range(
        0,
        r.len() as int,
    ).contains(x) by {
        let i = choose|i: int| 0 <= i < idxs.len() && idxs[i] == x;
        lemma_reg_index_props(r, ids[i]);
    }
    vstd::set_lib::lemma_int_range(0, r.len() as int);
    vstd::set_lib::lemma_len_subset(
        idxs.to_set(),
        vstd::set_lib::set_int_range(0, r.len() as int),
    );
}

/// Law: along any chain of renames on the main line, the name that
/// `final_name` answers for the oldest commit of the chain is exactly the
/// name the path carries at the youngest main-line descendant, or absent when
/// a commit on the chain deletes it.
pub proof fn lemma_final_name_follows_chain(
    reg: &GitFileFutureRegistry,
    ids: Seq<Seq<char>>,
    path: Seq<char>,
)
    requires
        reg.wf(),
        is_main_line(reg@, ids),
    ensures
        walk(reg@, ids[0], path, reg@.len() as nat) == chain_result(reg@, ids, path),
{
    lemma_chain_fits(reg@, ids);
    lemma_walk_follows_chain(reg@, ids, path, reg@.len() as nat);
}

/// Helpers to copy the stored vectors; cloning keeps each element's value.
trait CloneEntries {
    fn clone_entries(&self) -> Vec<(String, FileNameChange)>;
}

trait CloneStrings {
    fn clone_strings(&self) -> Vec<String>;
}

impl CloneEntries for Vec<(String, FileNameChange)> {
    fn clone_entries(&self) -> (r: Vec<(String, FileNameChange)>)
        ensures
            r@.map_values(|p: (String, FileNameChange)| (p.0@, p.1@)) == self@.map_values(
                |p: (String, FileNameChange)| (p.0@, p.1@),
            ),
    {
        let mut out: Vec<(String, FileNameChange)> = Vec::new();
        let n = self.len();
        let mut i: usize = 0;
        while i < n
            invariant
                n == self@.len(),
                i <= n,
                out@.len() == i,
                forall|j: int|
                    0 <= j < i ==> ((#[trigger] out@[j]).0@, out@[j].1@) == (self@[j].0@, self@[j].1@),
            decreases n - i,
        {
            out.push((self[i].0.clone(), self[i].1.clone()));
            i += 1;
        }
        proof {
            assert(out@.map_values(|p: (String, FileNameChange)| (p.0@, p.1@)) =~= self@.map_values(
                |p: (String, FileNameChange)| (p.0@, p.1@),
            ));
        }
        out
    }
}

impl CloneStrings for Vec<String> {
    fn clone_strings(&self) -> (r: Vec<String>)
        ensures
            r@.map_values(|s: String| s@) == self@.map_values(|s: String| s@),
    {
        let mut out: Vec<String> = Vec::new();
        let n = self.len();
        let mut i: usize = 0;
        while i < n
            invariant
                n == self@.len(),
                i <= n,
                out@.len() == i,
                forall|j: int| 0 <= j < i ==> (#[trigger] out@[j])@ == self@[j]@,
            decreases n - i,
        {
            out.push(self[i].clone());
            i += 1;
        }
        proof {
            assert(out@.map_values(|s: String| s@) =~= self@.map_values(|s: String| s@));
        }
        out
    }
}

} // verus!
