use vstd::prelude::*;

use crate::git_file_future::{
    lemma_reg_index_props, reg_contains, register_spec, walk, FileNameChange, FileNameChangeView,
    GitFileFutureRegistry, RegView,
};
use crate::git_logger::{CommitChange, FileChange, FileChangeView, GitLogEntry, GitLogEntryView, User, UserView};

verus! {

/// The mathematical value of one file-history entry.
pub struct FileHistoryEntryView {
    pub id: Seq<char>,
    pub committer: UserView,
    pub commit_time: u64,
    pub author: UserView,
    pub author_time: u64,
    pub co_authors: Seq<UserView>,
    pub change: CommitChange,
    pub lines_added: u64,
    pub lines_deleted: u64,
}

/// One commit projected onto one file change: who changed the file, when,
/// what kind of change it was, and how many lines moved.
#[derive(Debug)]
pub struct FileHistoryEntry {
    pub id: String,
    pub committer: User,
    pub commit_time: u64,
    pub author: User,
    pub author_time: u64,
    pub co_authors: Vec<User>,
    pub change: CommitChange,
    pub lines_added: u64,
    pub lines_deleted: u64,
}

impl View for FileHistoryEntry {
    type V = FileHistoryEntryView;

    open spec fn view(&self) -> FileHistoryEntryView {
        FileHistoryEntryView {
            id: self.id@,
            committer: self.committer@,
            commit_time: self.commit_time,
            author: self.author@,
            author_time: self.author_time,
            co_authors: self.co_authors@.map_values(|u: User| u@),
            change: self.change,
            lines_added: self.lines_added,
            lines_deleted: self.lines_deleted,
        }
    }
}

/// The projection of a commit onto one of its file changes.
pub open spec fn project_entry(e: GitLogEntryView, fc: FileChangeView) -> FileHistoryEntryView {
    FileHistoryEntryView {
        id: e.id,
        committer: e.committer,
        commit_time: e.commit_time,
        author: e.author,
        author_time: e.author_time,
        co_authors: e.co_authors,
        change: fc.change,
        lines_added: fc.lines_added,
        lines_deleted: fc.lines_deleted,
    }
}

fn clone_users(users: &Vec<User>) -> (r: Vec<User>)
    ensures
        r@.map_values(|u: User| u@) == users@.map_values(|u: User| u@),
{
    let mut out: Vec<User> = Vec::new();
    let n = users.len();
    let mut i: usize = 0;
    while i < n
        invariant
            n == users@.len(),
            i <= n,
            out@.len() == i,
            forall|j: int| 0 <= j < i ==> (#[trigger] out@[j])@ == users@[j]@,
        decreases n - i,
    {
        out.push(users[i].clone());
        i += 1;
    }
    proof {
        assert(out@.map_values(|u: User| u@) =~= users@.map_values(|u: User| u@));
    }
    out
}

impl FileHistoryEntry {
    pub fn from(entry: &GitLogEntry, file_change: &FileChange) -> (r: FileHistoryEntry)
        ensures
            r@ == project_entry(entry@, file_change@),
    {
        FileHistoryEntry {
            id: entry.id.clone(),
            committer: entry.committer.clone(),
            commit_time: entry.commit_time,
            author: entry.author.clone(),
            author_time: entry.author_time,
            co_authors: clone_users(&entry.co_authors),
            change: file_change.change,
            lines_added: file_change.lines_added,
            lines_deleted: file_change.lines_deleted,
        }
    }
}

/// Builds a `FileHistoryEntry` field by field; `build` fails while a field is
/// still missing.
#[derive(Debug)]
pub struct FileHistoryEntryBuilder {
    id: Option<String>,
    committer: Option<User>,
    commit_time: Option<u64>,
    author: Option<User>,
    author_time: Option<u64>,
    co_authors: Option<Vec<User>>,
    change: Option<CommitChange>,
    lines_added: Option<u64>,
    lines_deleted: Option<u64>,
}

impl FileHistoryEntryBuilder {
    pub closed spec fn complete(&self) -> bool {
        &&& self.id is Some
        &&& self.committer is Some
        &&& self.commit_time is Some
        &&& self.author is Some
        &&& self.author_time is Some
        &&& self.co_authors is Some
        &&& self.change is Some
        &&& self.lines_added is Some
        &&& self.lines_deleted is Some
    }

    pub closed spec fn built(&self) -> FileHistoryEntryView {
        FileHistoryEntryView {
            id: self.id->0@,
            committer: self.committer->0@,
            commit_time: self.commit_time->0,
            author: self.author->0@,
            author_time: self.author_time->0,
            co_authors: self.co_authors->0@.map_values(|u: User| u@),
            change: self.change->0,
            lines_added: self.lines_added->0,
            lines_deleted: self.lines_deleted->0,
        }
    }

    pub fn default() -> (r: Self)
        ensures
            !r.complete(),
    {
        FileHistoryEntryBuilder {
            id: Option::None,
            committer: Option::None,
            commit_time: Option::None,
            author: Option::None,
            author_time: Option::None,
            co_authors: Option::None,
            change: Option::None,
            lines_added: Option::None,
            lines_deleted: Option::None,
        }
    }

    /// A builder with the fields that tests rarely vary already set: no
    /// co-authors, an `Add` change, and no line counts.
    pub fn test_default() -> (r: Self)
        ensures
            r.built().co_authors == Seq::<UserView>::empty(),
            r.built().change == CommitChange::Add,
            r.built().lines_added == 0u64,
            r.built().lines_deleted == 0u64,
    {
        let r = FileHistoryEntryBuilder::default().co_authors(Vec::new()).change(
            CommitChange::Add,
        ).lines_added(0u64).lines_deleted(0u64);
        proof {
            assert(r.built().co_authors =~= Seq::<UserView>::empty());
        }
        r
    }

    /// Set committer and author to the same email-only user.
    pub fn emails(self, email: &str) -> (r: Self)
        ensures
            r.built().committer == (UserView { name: Option::None, email: Option::Some(email@) }),
            r.built().author == (UserView { name: Option::None, email: Option::Some(email@) }),
            r.built().id == self.built().id,
            r.built().commit_time == self.built().commit_time,
            r.built().author_time == self.built().author_time,
            r.built().co_authors == self.built().co_authors,
            r.built().change == self.built().change,
            r.built().lines_added == self.built().lines_added,
            r.built().lines_deleted == self.built().lines_deleted,
            self.all_but_users_set() ==> r.complete(),
    {
        self.committer(User::new(Option::None, Option::Some(email))).author(
            User::new(Option::None, Option::Some(email)),
        )
    }

    /// Whether everything except committer and author is set.
    pub closed spec fn all_but_users_set(&self) -> bool {
        &&& self.id is Some
        &&& self.commit_time is Some
        &&& self.author_time is Some
        &&& self.co_authors is Some
        &&& self.change is Some
        &&& self.lines_added is Some
        &&& self.lines_deleted is Some
    }

    pub closed spec fn committer_missing(&self) -> bool {
        self.committer is None
    }

    pub closed spec fn author_missing(&self) -> bool {
        self.author is None
    }

    /// Set commit time and author time to the same instant.
    pub fn times(self, time: u64) -> (r: Self)
        ensures
            r.built().commit_time == time,
            r.built().author_time == time,
            r.built().id == self.built().id,
            r.built().committer == self.built().committer,
            r.built().author == self.built().author,
            r.built().co_authors == self.built().co_authors,
            r.built().change == self.built().change,
            r.built().lines_added == self.built().lines_added,
            r.built().lines_deleted == self.built().lines_deleted,
    {
        self.commit_time(time).author_time(time)
    }

    pub fn id(self, id: &str) -> (r: Self)
        ensures
            r.built().id == id@,
    {
        let mut b = self;
        b.id = Option::Some(String::from_str(id));
        b
    }

    pub fn committer(self, committer: User) -> (r: Self)
        ensures
            r.all_but_users_set() == self.all_but_users_set(),
            r.author_missing() == self.author_missing(),
            !r.committer_missing(),
            r.complete() == (self.all_but_users_set() && !self.author_missing()),
            r.built().committer == committer@,
            r.built().id == self.built().id,
            r.built().commit_time == self.built().commit_time,
            r.built().author == self.built().author,
            r.built().author_time == self.built().author_time,
            r.built().co_authors == self.built().co_authors,
            r.built().change == self.built().change,
            r.built().lines_added == self.built().lines_added,
            r.built().lines_deleted == self.built().lines_deleted,
    {
        let mut b = self;
        b.committer = Option::Some(committer);
        b
    }

    pub fn author(self, author: User) -> (r: Self)
        ensures
            r.all_but_users_set() == self.all_but_users_set(),
            r.committer_missing() == self.committer_missing(),
            !r.author_missing(),
            r.complete() == (self.all_but_users_set() && !self.committer_missing()),
            r.built().author == author@,
            r.built().id == self.built().id,
            r.built().commit_time == self.built().commit_time,
            r.built().committer == self.built().committer,
            r.built().author_time == self.built().author_time,
            r.built().co_authors == self.built().co_authors,
            r.built().change == self.built().change,
            r.built().lines_added == self.built().lines_added,
            r.built().lines_deleted == self.built().lines_deleted,
    {
        let mut b = self;
        b.author = Option::Some(author);
        b
    }

    pub fn commit_time(self, time: u64) -> (r: Self)
        ensures
            r.built().commit_time == time,
            r.built().id == self.built().id,
            r.built().committer == self.built().committer,
            r.built().author == self.built().author,
            r.built().author_time == self.built().author_time,
            r.built().co_authors == self.built().co_authors,
            r.built().change == self.built().change,
            r.built().lines_added == self.built().lines_added,
            r.built().lines_deleted == self.built().lines_deleted,
    {
        let mut b = self;
        b.commit_time = Option::Some(time);
        b
    }

    pub fn author_time(self, time: u64) -> (r: Self)
        ensures
            r.built().author_time == time,
            r.built().id == self.built().id,
            r.built().committer == self.built().committer,
            r.built().author == self.built().author,
            r.built().commit_time == self.built().commit_time,
            r.built().co_authors == self.built().co_authors,
            r.built().change == self.built().change,
            r.built().lines_added == self.built().lines_added,
            r.built().lines_deleted == self.built().lines_deleted,
    {
        let mut b = self;
        b.author_time = Option::Some(time);
        b
    }

    pub fn co_authors(self, co_authors: Vec<User>) -> (r: Self)
        ensures
            r.built().co_authors == co_authors@.map_values(|u: User| u@),
            r.built().id == self.built().id,
            r.built().committer == self.built().committer,
            r.built().author == self.built().author,
            r.built().commit_time == self.built().commit_time,
            r.built().author_time == self.built().author_time,
            r.built().change == self.built().change,
            r.built().lines_added == self.built().lines_added,
            r.built().lines_deleted == self.built().lines_deleted,
    {
        let mut b = self;
        b.co_authors = Option::Some(co_authors);
        b
    }

    pub fn change(self, change: CommitChange) -> (r: Self)
        ensures
            r.built().change == change,
            r.built().id == self.built().id,
            r.built().committer == self.built().committer,
            r.built().author == self.built().author,
            r.built().commit_time == self.built().commit_time,
            r.built().author_time == self.built().author_time,
            r.built().co_authors == self.built().co_authors,
            r.built().lines_added == self.built().lines_added,
            r.built().lines_deleted == self.built().lines_deleted,
    {
        let mut b = self;
        b.change = Option::Some(change);
        b
    }

    pub fn lines_added(self, lines_added: u64) -> (r: Self)
        ensures
            r.built().lines_added == lines_added,
            r.built().id == self.built().id,
            r.built().committer == self.built().committer,
            r.built().author == self.built().author,
            r.built().commit_time == self.built().commit_time,
            r.built().author_time == self.built().author_time,
            r.built().co_authors == self.built().co_authors,
            r.built().change == self.built().change,
            r.built().lines_deleted == self.built().lines_deleted,
    {
        let mut b = self;
        b.lines_added = Option::Some(lines_added);
        b
    }

    pub fn lines_deleted(self, lines_deleted: u64) -> (r: Self)
        ensures
            r.built().lines_deleted == lines_deleted,
            r.built().id == self.built().id,
            r.built().committer == self.built().committer,
            r.built().author == self.built().author,
            r.built().commit_time == self.built().commit_time,
            r.built().author_time == self.built().author_time,
            r.built().co_authors == self.built().co_authors,
            r.built().change == self.built().change,
            r.built().lines_added == self.built().lines_added,
    {
        let mut b = self;
        b.lines_deleted = Option::Some(lines_deleted);
        b
    }

    /// The entry, when every field has been given; the name of a missing
    /// field otherwise.
    pub fn build(self) -> (r: Result<FileHistoryEntry, String>)
        ensures
            self.complete() ==> r is Ok && r->Ok_0@ == self.built(),
            !self.complete() ==> r is Err,
    {
        let FileHistoryEntryBuilder {
            id,
            committer,
            commit_time,
            author,
            author_time,
            co_authors,
            change,
            lines_added,
            lines_deleted,
        } = self;
        let id = match id {
            Option::Some(v) => v,
            Option::None => {
                return Result::Err(String::from_str("id is not set"));
            },
        };
        let committer = match committer {
            Option::Some(v) => v,
            Option::None => {
                return Result::Err(String::from_str("committer is not set"));
            },
        };
        let commit_time = match commit_time {
            Option::Some(v) => v,
            Option::None => {
                return Result::Err(String::from_str("commit_time is not set"));
            },
        };
        let author = match author {
            Option::Some(v) => v,
            Option::None => {
                return Result::Err(String::from_str("author is not set"));
            },
        };
        let author_time = match author_time {
            Option::Some(v) => v,
            Option::None => {
                return Result::Err(String::from_str("author_time is not set"));
            },
        };
        let co_authors = match co_authors {
            Option::Some(v) => v,
            Option::None => {
                return Result::Err(String::from_str("co_authors is not set"));
            },
        };
        let change = match change {
            Option::Some(v) => v,
            Option::None => {
                return Result::Err(String::from_str("change is not set"));
            },
        };
        let lines_added = match lines_added {
            Option::Some(v) => v,
            Option::None => {
                return Result::Err(String::from_str("lines_added is not set"));
            },
        };
        let lines_deleted = match lines_deleted {
            Option::Some(v) => v,
            Option::None => {
                return Result::Err(String::from_str("lines_deleted is not set"));
            },
        };
        Result::Ok(
            FileHistoryEntry {
                id,
                committer,
                commit_time,
                author,
                author_time,
                co_authors,
                change,
                lines_added,
                lines_deleted,
            },
        )
    }
}

/// The history map as a mathematical value: final paths with their entries,
/// keyed uniquely, in order of first attribution.
pub type HistMapView = Seq<(Seq<char>, Seq<FileHistoryEntryView>)>;

pub open spec fn hist_contains(m: HistMapView, key: Seq<char>) -> bool {
    exists|i: int| 0 <= i < m.len() && m[i].0 == key
}

pub open spec fn hist_index(m: HistMapView, key: Seq<char>) -> int
    decreases m.len(),
{
    if m.len() == 0 {
        0
    } else if m[0].0 == key {
        0
    } else {
        1 + hist_index(m.subrange(1, m.len() as int), key)
    }
}

pub open spec fn hist_lookup(m: HistMapView, key: Seq<char>) -> Option<Seq<FileHistoryEntryView>> {
    if hist_contains(m, key) {
        Option::Some(m[hist_index(m, key)].1)
    } else {
        Option::None
    }
}

/// The map with one entry appended under a key, creating the key at the end
/// when it is new.
pub open spec fn hist_append(m: HistMapView, key: Seq<char>, v: FileHistoryEntryView) -> HistMapView {
    if hist_contains(m, key) {
        let i = hist_index(m, key);
        m.update(i, (key, m[i].1.push(v)))
    } else {
        m.push((key, seq![v]))
    }
}

/// The rename and delete events one commit contributes to the registry.
pub open spec fn name_changes_of(fcs: Seq<FileChangeView>) -> Seq<(Seq<char>, FileNameChangeView)>
    decreases fcs.len(),
{
    if fcs.len() == 0 {
        Seq::empty()
    } else {
        let rest = name_changes_of(fcs.drop_last());
        let fc = fcs.last();
        if fc.change == CommitChange::Rename && fc.old_file is Some {
            rest.push((fc.old_file->0, FileNameChangeView::Renamed(fc.file)))
        } else if fc.change == CommitChange::Delete {
            rest.push((fc.file, FileNameChangeView::Deleted))
        } else {
            rest
        }
    }
}

/// The registry that the first pass over the log builds.
pub open spec fn registry_of(entries: Seq<GitLogEntryView>) -> RegView
    decreases entries.len(),
{
    if entries.len() == 0 {
        Seq::empty()
    } else {
        let e = entries.last();
        register_spec(registry_of(entries.drop_last()), e.id, e.parents, name_changes_of(e.file_changes))
    }
}

/// The history map after attributing one file change of one commit: the
/// entry lands under the change's final path, or nowhere when that path is
/// deleted on the main line.
pub open spec fn attribute_change(
    m: HistMapView,
    reg: RegView,
    e: GitLogEntryView,
    fc: FileChangeView,
) -> HistMapView {
    match walk(reg, e.id, fc.file, reg.len() as nat) {
        Option::None => m,
        Option::Some(final_path) => hist_append(m, final_path, project_entry(e, fc)),
    }
}

pub open spec fn attribute_changes(
    m: HistMapView,
    reg: RegView,
    e: GitLogEntryView,
    fcs: Seq<FileChangeView>,
) -> HistMapView
    decreases fcs.len(),
{
    if fcs.len() == 0 {
        m
    } else {
        attribute_change(attribute_changes(m, reg, e, fcs.drop_last()), reg, e, fcs.last())
    }
}

pub open spec fn attribute_all(
    m: HistMapView,
    reg: RegView,
    entries: Seq<GitLogEntryView>,
) -> HistMapView
    decreases entries.len(),
{
    if entries.len() == 0 {
        m
    } else {
        attribute_changes(
            attribute_all(m, reg, entries.drop_last()),
            reg,
            entries.last(),
            entries.last().file_changes,
        )
    }
}

/// The largest commit time in the log, 0 when the log is empty.
pub open spec fn max_commit_time(entries: Seq<GitLogEntryView>) -> u64
    decreases entries.len(),
{
    if entries.len() == 0 {
        0u64
    } else if entries.last().commit_time > max_commit_time(entries.drop_last()) {
        entries.last().commit_time
    } else {
        max_commit_time(entries.drop_last())
    }
}

/// Per-file history for one repository: every change event grouped under the
/// file's final, workdir-relative path, built in two passes over the commit
/// log.
#[derive(Debug)]
pub struct GitFileHistory {
    /// repository workdir; callers hand in canonical paths below it
    workdir: String,
    history_by_file: Vec<(String, Vec<FileHistoryEntry>)>,
    last_commit: u64,
}

impl GitFileHistory {
    pub closed spec fn spec_workdir(&self) -> Seq<char> {
        self.workdir@
    }

    pub closed spec fn spec_history(&self) -> HistMapView {
        self.history_by_file@.map_values(
            |p: (String, Vec<FileHistoryEntry>)|
                (p.0@, p.1@.map_values(|e: FileHistoryEntry| e@)),
        )
    }

    pub closed spec fn spec_last_commit(&self) -> u64 {
        self.last_commit
    }

    /// Build the history from a commit log, newest first, as the log reader
    /// yields it: the first pass registers every rename and delete, the
    /// second attributes each change to its final path.
    pub fn from_entries(workdir: String, entries: &Vec<GitLogEntry>) -> (r: GitFileHistory)
        ensures
            r.spec_workdir() == workdir@,
            r.spec_history() == attribute_all(
                Seq::empty(),
                registry_of(entries@.map_values(|e: GitLogEntry| e@)),
                entries@.map_values(|e: GitLogEntry| e@),
            ),
            r.spec_last_commit() == max_commit_time(entries@.map_values(|e: GitLogEntry| e@)),
    {
        let ghost evs = entries@.map_values(|e: GitLogEntry| e@);
        let mut registry = GitFileFutureRegistry::new();
        let n = entries.len();
        let mut i: usize = 0;
        proof {
            assert(evs.take(0) =~= Seq::<GitLogEntryView>::empty());
        }
        while i < n
            invariant
                registry.wf(),
                n == entries@.len(),
                i <= n,
                evs == entries@.map_values(|e: GitLogEntry| e@),
                registry@ == registry_of(evs.take(i as int)),
            decreases n - i,
        {
            let entry = &entries[i];
            let changes = name_change_list(&entry.file_changes);
            registry.register(&entry.id, &entry.parents, &changes);
            proof {
                assert(evs.take(i + 1).drop_last() =~= evs.take(i as int));
                assert(evs.take(i + 1).last() == evs[i as int]);
                assert(evs[i as int].parents =~= entry.parents@.map_values(|s: String| s@));
                assert(evs[i as int].file_changes =~= entry.file_changes@.map_values(
                    |c: FileChange| c@,
                ));
            }
            i += 1;
        }
        proof {
            assert(evs.take(n as int) =~= evs);
        }
        let ghost reg = registry@;

        let mut history_by_file: Vec<(String, Vec<FileHistoryEntry>)> = Vec::new();
        let mut last_commit: u64 = 0;
        let mut k: usize = 0;
        proof {
            assert(history_view(history_by_file@) =~= Seq::<(
                Seq<char>,
                Seq<FileHistoryEntryView>,
            )>::empty());
        }
        while k < n
            invariant
                registry.wf(),
                registry@ == reg,
                reg == registry_of(evs),
                n == entries@.len(),
                k <= n,
                evs == entries@.map_values(|e: GitLogEntry| e@),
                history_view(history_by_file@) == attribute_all(Seq::empty(), reg, evs.take(k as int)),
                last_commit == max_commit_time(evs.take(k as int)),
            decreases n - k,
        {
            let entry = &entries[k];
            if entry.commit_time > last_commit {
                last_commit = entry.commit_time;
            }
            proof {
                assert(evs.take(k + 1).drop_last() =~= evs.take(k as int));
                assert(evs.take(k + 1).last() == evs[k as int]);
                lemma_registry_of_contains(evs, k as int);
            }
            let nc = entry.file_changes.len();
            let mut c: usize = 0;
            proof {
                assert(entry@ == evs[k as int]);
                assert(evs[k as int].file_changes.take(0) =~= Seq::<FileChangeView>::empty());
            }
            while c < nc
                invariant
                    registry.wf(),
                    registry@ == reg,
                    reg_contains(reg, evs[k as int].id),
                    k < n,
                    n == entries@.len(),
                    entry@ == evs[k as int],
                    nc == entry.file_changes@.len(),
                    c <= nc,
                    evs == entries@.map_values(|e: GitLogEntry| e@),
                    evs[k as int].file_changes == entry.file_changes@.map_values(
                        |x: FileChange| x@,
                    ),
                    history_view(history_by_file@) == attribute_changes(
                        attribute_all(Seq::empty(), reg, evs.take(k as int)),
                        reg,
                        evs[k as int],
                        evs[k as int].file_changes.take(c as int),
                    ),
                decreases nc - c,
            {
                let fc = &entry.file_changes[c];
                let final_name = registry.final_name(&entry.id, &fc.file);
                proof {
                    assert(evs[k as int].file_changes.take(c + 1).drop_last() =~= evs[
                        k as int].file_changes.take(c as int));
                    assert(evs[k as int].file_changes.take(c + 1).last() == evs[
                        k as int].file_changes[c as int]);
                }
                proof {
                    assert(fc@ == evs[k as int].file_changes[c as int]);
                }
                match final_name {
                    Option::Some(name) => {
                        let new_entry = FileHistoryEntry::from(entry, fc);
                        push_history(&mut history_by_file, name, new_entry);
                    },
                    Option::None => {},
                }
                c += 1;
            }
            proof {
                assert(evs[k as int].file_changes.take(nc as int) =~= evs[k as int].file_changes);
            }
            k += 1;
        }
        proof {
            assert(evs.take(n as int) =~= evs);
        }
        GitFileHistory { workdir, history_by_file, last_commit }
    }

    /// True exactly when the path lies in this repository's workdir: it is
    /// the workdir itself or sits below it. Callers pass canonical paths.
    pub fn is_repo_for(&self, file: &str) -> (r: bool)
        ensures
            r == path_in_dir(file@, self.spec_workdir()),
    {
        path_starts_with_dir(file, self.workdir.as_str())
    }

    /// The history of the file under its workdir-relative path, or nothing
    /// when the file is outside the workdir or has no recorded history.
    pub fn history_for<'a>(&'a self, file: &str) -> (r: Option<&'a Vec<FileHistoryEntry>>)
        ensures
            match r {
                Option::Some(v) => path_in_dir(file@, self.spec_workdir()) && hist_lookup(
                    self.spec_history(),
                    relative_to(file@, self.spec_workdir()),
                ) == Option::Some(v@.map_values(|e: FileHistoryEntry| e@)),
                Option::None => !path_in_dir(file@, self.spec_workdir()) || hist_lookup(
                    self.spec_history(),
                    relative_to(file@, self.spec_workdir()),
                ) is None,
            },
    {
        if !path_starts_with_dir(file, self.workdir.as_str()) {
            return Option::None;
        }
        let rel = strip_dir_prefix(file, self.workdir.as_str());
        let ghost m = self.spec_history();
        let ghost key = relative_to(file@, self.spec_workdir());
        let n = self.history_by_file.len();
        let mut i: usize = 0;
        while i < n
            invariant
                path_in_dir(file@, self.spec_workdir()),
                key == relative_to(file@, self.spec_workdir()),
                n == self.history_by_file@.len(),
                m == self.spec_history(),
                key == rel@,
                forall|j: int| 0 <= j < i ==> (#[trigger] m[j]).0 != key,
                i <= n,
            decreases n - i,
        {
            if self.history_by_file[i].0.eq(&rel) {
                proof {
                    assert(m[i as int].0 == key);
                    lemma_hist_index_props(m, key);
                    let ki = hist_index(m, key);
                    if ki < i {
                        assert(m[ki].0 != key);
                    }
                    if i < ki {
                        assert(m[i as int].0 != key);
                    }
                    assert(hist_lookup(m, key) == Option::Some(m[i as int].1));
                    assert(self.history_by_file@[i as int].1@.map_values(
                        |e: FileHistoryEntry| e@,
                    ) == m[i as int].1);
                }
                return Option::Some(&self.history_by_file[i].1);
            }
            i += 1;
        }
        proof {
            assert(!hist_contains(m, key));
        }
        Option::None
    }

    /// The newest commit time seen anywhere in the log.
    pub fn last_commit(&self) -> (r: u64)
        ensures
            r == self.spec_last_commit(),
    {
        self.last_commit
    }
}

/// The view of the stored history vector.
pub open spec fn history_view(v: Seq<(String, Vec<FileHistoryEntry>)>) -> HistMapView {
    v.map_values(
        |p: (String, Vec<FileHistoryEntry>)| (p.0@, p.1@.map_values(|e: FileHistoryEntry| e@)),
    )
}

pub proof fn lemma_hist_index_props(m: HistMapView, key: Seq<char>)
    requires
        hist_contains(m, key),
    ensures
        0 <= hist_index(m, key) < m.len(),
        m[hist_index(m, key)].0 == key,
        forall|j: int| 0 <= j < hist_index(m, key) ==> m[j].0 != key,
    decreases m.len(),
{
    if m.len() == 0 {
    } else if m[0].0 == key {
    } else {
        let rest = m.subrange(1, m.len() as int);
        assert(hist_contains(rest, key)) by {
            let i = choose|i: int| 0 <= i < m.len() && m[i].0 == key;
            assert(rest[i - 1] == m[i]);
        }
        lemma_hist_index_props(rest, key);
        assert forall|j: int| 0 <= j < hist_index(m, key) implies m[j].0 != key by {
            if j > 0 {
                assert(m[j] == rest[j - 1]);
            }
        }
    }
}

/// Every commit id in the log has an entry in the registry the log builds.
proof fn lemma_registry_of_contains(entries: Seq<GitLogEntryView>, i: int)
    requires
        0 <= i < entries.len(),
    ensures
        reg_contains(registry_of(entries), entries[i].id),
    decreases entries.len(),
{
    let prev = registry_of(entries.drop_last());
    let e = entries.last();
    let next = register_spec(prev, e.id, e.parents, name_changes_of(e.file_changes));
    crate::git_file_future::lemma_register_ids_preserved(
        prev,
        e.id,
        e.parents,
        name_changes_of(e.file_changes),
    );
    if i == entries.len() - 1 {
    } else {
        lemma_registry_of_contains(entries.drop_last(), i);
        assert(entries.drop_last()[i] == entries[i]);
        let w = choose|w: int| 0 <= w < prev.len() && prev[w].0 == entries[i].id;
        assert(next[w].0 == prev[w].0);
    }
}

/// Append one entry under a final path, creating the bucket when new.
fn push_history(
    v: &mut Vec<(String, Vec<FileHistoryEntry>)>,
    key: String,
    entry: FileHistoryEntry,
)
    ensures
        history_view(final(v)@) == hist_append(history_view(old(v)@), key@, entry@),
{
    let ghost m = history_view(v@);
    let n = v.len();
    let mut i: usize = 0;
    while i < n
        invariant
            m == history_view(v@),
            v@ == old(v)@,
            n == v@.len(),
            i <= n,
            forall|j: int| 0 <= j < i ==> (#[trigger] m[j]).0 != key@,
        decreases n - i,
    {
        if v[i].0.eq(&key) {
            proof {
                assert(m[i as int].0 == key@);
                lemma_hist_index_props(m, key@);
                let ki = hist_index(m, key@);
                if ki < i {
                    assert(m[ki].0 != key@);
                }
                if i < ki {
                    assert(m[i as int].0 != key@);
                }
            }
            let ghost vprev = v@;
            let mut pair = v.remove(i);
            pair.1.push(entry);
            v.insert(i, pair);
            proof {
                assert(history_view(v@) =~= hist_append(m, key@, entry@)) by {
                    assert(v@[i as int].1@.map_values(|e: FileHistoryEntry| e@) =~= m[i as int].1.push(
                        entry@,
                    ));
                    assert forall|j: int| 0 <= j < v@.len() && j != i implies history_view(v@)[j]
                        == m[j] by {
                        assert(v@[j] == vprev[j]);
                        assert(m == history_view(vprev));
                    }
                }
            }
            return ;
        }
        i += 1;
    }
    proof {
        assert(!hist_contains(m, key@));
    }
    v.push((key, singleton(entry)));
    proof {
        assert(history_view(v@) =~= hist_append(m, key@, entry@));
    }
}

fn singleton(entry: FileHistoryEntry) -> (r: Vec<FileHistoryEntry>)
    ensures
        r@.map_values(|e: FileHistoryEntry| e@) == seq![entry@],
{
    let mut v: Vec<FileHistoryEntry> = Vec::new();
    v.push(entry);
    proof {
        assert(v@.map_values(|e: FileHistoryEntry| e@) =~= seq![v@[0]@]);
    }
    v
}

/// The rename and delete events of a commit, in order, as registry input.
fn name_change_list(fcs: &Vec<FileChange>) -> (r: Vec<(String, FileNameChange)>)
    ensures
        r@.map_values(|p: (String, FileNameChange)| (p.0@, p.1@)) == name_changes_of(
            fcs@.map_values(|c: FileChange| c@),
        ),
{
    let ghost fv = fcs@.map_values(|c: FileChange| c@);
    let mut out: Vec<(String, FileNameChange)> = Vec::new();
    let n = fcs.len();
    let mut i: usize = 0;
    proof {
        assert(fv.take(0) =~= Seq::<FileChangeView>::empty());
        assert(out@.map_values(|p: (String, FileNameChange)| (p.0@, p.1@)) =~= name_changes_of(
            fv.take(0),
        ));
    }
    while i < n
        invariant
            n == fcs@.len(),
            i <= n,
            fv == fcs@.map_values(|c: FileChange| c@),
            out@.map_values(|p: (String, FileNameChange)| (p.0@, p.1@)) == name_changes_of(
                fv.take(i as int),
            ),
        decreases n - i,
    {
        let fc = &fcs[i];
        let ghost before = out@;
        proof {
            assert(fv.take(i + 1).drop_last() =~= fv.take(i as int));
            assert(fv.take(i + 1).last() == fv[i as int]);
        }
        match fc.change {
            CommitChange::Rename => {
                match &fc.old_file {
                    Option::Some(old_name) => {
                        out.push((old_name.clone(), FileNameChange::Renamed(fc.file.clone())));
                        proof {
                            assert(out@.map_values(|p: (String, FileNameChange)| (p.0@, p.1@))
                                =~= name_changes_of(fv.take(i + 1)));
                        }
                    },
                    Option::None => {
                        // a rename without a source says nothing about names
                        proof {
                            assert(out@.map_values(|p: (String, FileNameChange)| (p.0@, p.1@))
                                =~= name_changes_of(fv.take(i + 1)));
                        }
                    },
                }
            },
            CommitChange::Delete => {
                out.push((fc.file.clone(), FileNameChange::Deleted()));
                proof {
                    assert(out@.map_values(|p: (String, FileNameChange)| (p.0@, p.1@))
                        =~= name_changes_of(fv.take(i + 1)));
                }
            },
            _ => {
                proof {
                    assert(out@.map_values(|p: (String, FileNameChange)| (p.0@, p.1@))
                        =~= name_changes_of(fv.take(i + 1)));
                }
            },
        }
        i += 1;
    }
    proof {
        assert(fv.take(n as int) =~= fv);
    }
    out
}

/// Whether a path is the directory itself or lies below it.
pub open spec fn path_in_dir(file: Seq<char>, dir: Seq<char>) -> bool {
    file == dir || (file.len() > dir.len() && file.take(dir.len() as int) == dir && file[dir.len() as int] == '/')
}

/// The path relative to the directory: empty for the directory itself.
pub open spec fn relative_to(file: Seq<char>, dir: Seq<char>) -> Seq<char> {
    if file == dir {
        Seq::empty()
    } else {
        file.skip(dir.len() as int + 1)
    }
}

fn path_starts_with_dir(file: &str, dir: &str) -> (r: bool)
    ensures
        r == path_in_dir(file@, dir@),
{
    let flen = file.unicode_len();
    let dlen = dir.unicode_len();
    if flen < dlen {
        proof {
            if file@ == dir@ {
                assert(file@.len() == dir@.len());
            }
        }
        return false;
    }
    let mut i: usize = 0;
    while i < dlen
        invariant
            i <= dlen,
            dlen == dir@.len(),
            flen == file@.len(),
            dlen <= flen,
            forall|j: int| 0 <= j < i ==> file@[j] == dir@[j],
        decreases dlen - i,
    {
        if file.get_char(i) != dir.get_char(i) {
            proof {
                if file@ == dir@ {
                    assert(file@[i as int] == dir@[i as int]);
                }
                if file@.take(dlen as int) == dir@ {
                    assert(file@.take(dlen as int)[i as int] == dir@[i as int]);
                }
            }
            return false;
        }
        i += 1;
    }
    if flen == dlen {
        proof {
            assert(file@ =~= dir@);
        }
        true
    } else {
        let c = file.get_char(dlen);
        proof {
            assert(file@.take(dlen as int) =~= dir@);
        }
        c == '/'
    }
}

/// The tail of the path after the directory and its separator; the empty
/// string for the directory itself.
fn strip_dir_prefix(file: &str, dir: &str) -> (r: String)
    requires
        path_in_dir(file@, dir@),
    ensures
        r@ == relative_to(file@, dir@),
{
    let flen = file.unicode_len();
    let dlen = dir.unicode_len();
    if flen == dlen {
        proof {
            if file@ != dir@ {
                assert(false);
            }
        }
        String::new()
    } else {
        let rest = file.substring_char(dlen + 1, flen);
        proof {
            assert(rest@ =~= file@.skip(dlen + 1));
        }
        String::from_str(rest)
    }
}

} // verus!
