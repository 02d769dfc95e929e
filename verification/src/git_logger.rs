use vstd::prelude::*;

verus! {

/// Configuration for reading a commit log: whether merge commits contribute
/// file changes, and the earliest commit time (seconds since the epoch) that
/// is still reported.
#[derive(Debug, Clone, Copy, PartialEq, Eq, Structural)]
pub struct GitLogConfig {
    pub include_merges: bool,
    pub earliest_time: u64,
}

impl GitLogConfig {
    pub fn default() -> (r: GitLogConfig)
        ensures
            !r.include_merges,
            r.earliest_time == 0,
    {
        GitLogConfig { include_merges: false, earliest_time: 0 }
    }

    pub fn include_merges(self, include_merges: bool) -> (r: GitLogConfig)
        ensures
            r.include_merges == include_merges,
            r.earliest_time == self.earliest_time,
    {
        let mut config = self;
        config.include_merges = include_merges;
        config
    }

    /// Filter the log by a unix timestamp: commits older than this are dropped.
    pub fn since(self, earliest_time: u64) -> (r: GitLogConfig)
        ensures
            r.include_merges == self.include_merges,
            r.earliest_time == earliest_time,
    {
        let mut config = self;
        config.earliest_time = earliest_time;
        config
    }

    /// Whether a commit with this many parents reports file changes: merge
    /// commits (two or more parents) do so only when merges are included.
    pub fn reports_file_changes(&self, parent_count: usize) -> (r: bool)
        ensures
            r == (parent_count <= 1 || self.include_merges),
    {
        parent_count <= 1 || self.include_merges
    }

    /// Whether a commit at this time is still within the horizon.
    pub fn admits_commit(&self, commit_time: u64) -> (r: bool)
        ensures
            r == (commit_time >= self.earliest_time),
    {
        commit_time >= self.earliest_time
    }

    /// Filter the log by a number of years before the current wall-clock time.
    /// Nothing useful can be promised about the clock, so the contract only
    /// says that the merge policy is kept.
    pub fn since_years(self, years: u64) -> (r: GitLogConfig)
        ensures
            r.include_merges == self.include_merges,
    {
        let now = unix_now();
        let secs_per_year: u64 = 60 * 60 * 24 * 365;
        let limit: u64 = u64::MAX / secs_per_year;
        let span = if years <= limit {
            proof {
                assert(years * secs_per_year <= u64::MAX) by (nonlinear_arith)
                    requires
                        years <= limit,
                        limit == u64::MAX / secs_per_year,
                        secs_per_year == 60 * 60 * 24 * 365,
                ;
            }
            years * secs_per_year
        } else {
            u64::MAX
        };
        self.since(now.saturating_sub(span))
    }
}

/// Relies on std::time::SystemTime::now: the body reads the system clock and
/// converts the result to whole seconds since the unix epoch. Nothing can be
/// promised about the value.
#[verifier::external_body]
fn unix_now() -> u64 {
    match std::time::SystemTime::now().duration_since(std::time::SystemTime::UNIX_EPOCH) {
        Ok(d) => d.as_secs(),
        Err(_) => 0,
    }
}

/// What str::to_lowercase returns; the result depends on the characters alone.
pub uninterp spec fn lower_of(s: Seq<char>) -> Seq<char>;

/// Relies on str::to_lowercase: Unicode lowercasing, a function of the
/// characters alone.
#[verifier::external_body]
fn lowercase(s: &str) -> (r: String)
    ensures
        r@ == lower_of(s@),
{
    s.to_lowercase()
}

/// What str::trim returns; the result depends on the characters alone.
pub uninterp spec fn trim_of(s: Seq<char>) -> Seq<char>;

/// Relies on str::trim: removes leading and trailing whitespace; a function
/// of the characters alone, never longer than its input.
#[verifier::external_body]
pub(crate) fn trim(s: &str) -> (r: &str)
    ensures
        r@ == trim_of(s@),
        r@.len() <= s@.len(),
{
    s.trim()
}

/// Whether char::is_whitespace holds; a property of the character alone.
pub uninterp spec fn is_space_char(c: char) -> bool;

/// Relies on char::is_whitespace: the Unicode White_Space property of the
/// character.
#[verifier::external_body]
fn is_whitespace(c: char) -> (r: bool)
    ensures
        r == is_space_char(c),
{
    c.is_whitespace()
}

/// The mathematical value of a user: both fields as optional character
/// sequences.
pub struct UserView {
    pub name: Option<Seq<char>>,
    pub email: Option<Seq<char>>,
}

pub open spec fn opt_lower(s: Option<Seq<char>>) -> Option<Seq<char>> {
    match s {
        Option::None => Option::None,
        Option::Some(x) => Option::Some(lower_of(x)),
    }
}

/// The case-insensitive identity of a user: both fields lowered.
pub open spec fn user_key(u: UserView) -> UserView {
    UserView { name: opt_lower(u.name), email: opt_lower(u.email) }
}

/// A commit participant: optional display name and optional email.
/// Two users are treated as the same person when both fields agree
/// case-insensitively; the dictionary in `git_user_dictionary` interns them.
#[derive(Debug, PartialEq, Eq, Hash)]
pub struct User {
    pub name: Option<String>,
    pub email: Option<String>,
}

impl View for User {
    type V = UserView;

    open spec fn view(&self) -> UserView {
        UserView {
            name: match self.name {
                Option::None => Option::None,
                Option::Some(s) => Option::Some(s@),
            },
            email: match self.email {
                Option::None => Option::None,
                Option::Some(s) => Option::Some(s@),
            },
        }
    }
}

fn clone_opt_string(o: &Option<String>) -> (r: Option<String>)
    ensures
        (r is None) == (*o is None),
        r is Some ==> r->0@ == o->0@,
{
    match o {
        Option::None => Option::None,
        Option::Some(s) => Option::Some(s.clone()),
    }
}

impl Clone for User {
    fn clone(&self) -> (r: Self)
        ensures
            r@ == self@,
    {
        User { name: clone_opt_string(&self.name), email: clone_opt_string(&self.email) }
    }
}

impl User {
    pub fn new(name: Option<&str>, email: Option<&str>) -> (r: User)
        ensures
            r@ == (UserView {
                name: match name {
                    Option::None => Option::None,
                    Option::Some(s) => Option::Some(s@),
                },
                email: match email {
                    Option::None => Option::None,
                    Option::Some(s) => Option::Some(s@),
                },
            }),
    {
        let n = match name {
            Option::None => Option::None,
            Option::Some(s) => Option::Some(String::from_str(s)),
        };
        let e = match email {
            Option::None => Option::None,
            Option::Some(s) => Option::Some(String::from_str(s)),
        };
        User { name: n, email: e }
    }

    /// The user with both fields lowercased: the dictionary's lookup key.
    pub fn as_lower_case(&self) -> (r: User)
        ensures
            r@ == user_key(self@),
    {
        let n = match &self.name {
            Option::None => Option::None,
            Option::Some(s) => Option::Some(lowercase(s.as_str())),
        };
        let e = match &self.email {
            Option::None => Option::None,
            Option::Some(s) => Option::Some(lowercase(s.as_str())),
        };
        User { name: n, email: e }
    }

    /// Field-for-field equality of the character sequences.
    pub fn same_as(&self, other: &User) -> (r: bool)
        ensures
            r == (self@ == other@),
    {
        let names_eq = match (&self.name, &other.name) {
            (Option::None, Option::None) => true,
            (Option::Some(a), Option::Some(b)) => a.eq(b),
            _ => false,
        };
        let emails_eq = match (&self.email, &other.email) {
            (Option::None, Option::None) => true,
            (Option::Some(a), Option::Some(b)) => a.eq(b),
            _ => false,
        };
        if names_eq && emails_eq {
            proof {
                assert(self@.name == other@.name);
                assert(self@.email == other@.email);
            }
            true
        } else {
            proof {
                if self@ == other@ {
                    assert(self@.name == other@.name);
                    assert(self@.email == other@.email);
                }
            }
            false
        }
    }
}

/// The kinds of change a commit can make to one file.
#[derive(Debug, Clone, Copy, PartialEq, Eq, Structural)]
pub enum CommitChange {
    Add,
    Rename,
    Delete,
    Modify,
    Copied,
}

/// The mathematical value of one file change.
pub struct FileChangeView {
    pub file: Seq<char>,
    pub old_file: Option<Seq<char>>,
    pub change: CommitChange,
    pub lines_added: u64,
    pub lines_deleted: u64,
}

/// One file touched by a commit: its path (workdir-relative, '/'-separated),
/// the prior path for renames and copies, the kind of change, and line stats.
/// Binary diffs report 0/0.
#[derive(Debug)]
pub struct FileChange {
    pub file: String,
    pub old_file: Option<String>,
    pub change: CommitChange,
    pub lines_added: u64,
    pub lines_deleted: u64,
}

impl View for FileChange {
    type V = FileChangeView;

    open spec fn view(&self) -> FileChangeView {
        FileChangeView {
            file: self.file@,
            old_file: match self.old_file {
                Option::None => Option::None,
                Option::Some(s) => Option::Some(s@),
            },
            change: self.change,
            lines_added: self.lines_added,
            lines_deleted: self.lines_deleted,
        }
    }
}

impl Clone for FileChange {
    fn clone(&self) -> (r: Self)
        ensures
            r@ == self@,
    {
        FileChange {
            file: self.file.clone(),
            old_file: clone_opt_string(&self.old_file),
            change: self.change,
            lines_added: self.lines_added,
            lines_deleted: self.lines_deleted,
        }
    }
}

impl FileChange {
    pub fn file(&self) -> (r: &String)
        ensures
            r@ == self@.file,
    {
        &self.file
    }

    pub fn old_file(&self) -> (r: &Option<String>)
        ensures
            (*r is None) == (self@.old_file is None),
            *r is Some ==> r->0@ == self@.old_file->0,
    {
        &self.old_file
    }

    pub fn change(&self) -> (r: CommitChange)
        ensures
            r == self@.change,
    {
        self.change
    }

    pub fn lines_added(&self) -> (r: u64)
        ensures
            r == self@.lines_added,
    {
        self.lines_added
    }

    pub fn lines_deleted(&self) -> (r: u64)
        ensures
            r == self@.lines_deleted,
    {
        self.lines_deleted
    }
}

/// The mathematical value of one commit record.
pub struct GitLogEntryView {
    pub id: Seq<char>,
    pub summary: Seq<char>,
    pub parents: Seq<Seq<char>>,
    pub committer: UserView,
    pub commit_time: u64,
    pub author: UserView,
    pub author_time: u64,
    pub co_authors: Seq<UserView>,
    pub file_changes: Seq<FileChangeView>,
}

/// One commit record: id, summary, ordered parent ids, the people involved,
/// both times in seconds since the epoch, and the file changes it makes.
#[derive(Debug)]
pub struct GitLogEntry {
    pub id: String,
    pub summary: String,
    pub parents: Vec<String>,
    pub committer: User,
    pub commit_time: u64,
    pub author: User,
    pub author_time: u64,
    pub co_authors: Vec<User>,
    pub file_changes: Vec<FileChange>,
}

impl View for GitLogEntry {
    type V = GitLogEntryView;

    open spec fn view(&self) -> GitLogEntryView {
        GitLogEntryView {
            id: self.id@,
            summary: self.summary@,
            parents: self.parents@.map_values(|s: String| s@),
            committer: self.committer@,
            commit_time: self.commit_time,
            author: self.author@,
            author_time: self.author_time,
            co_authors: self.co_authors@.map_values(|u: User| u@),
            file_changes: self.file_changes@.map_values(|c: FileChange| c@),
        }
    }
}

impl GitLogEntry {
    pub fn id(&self) -> (r: &String)
        ensures
            r@ == self@.id,
    {
        &self.id
    }

    pub fn summary(&self) -> (r: &String)
        ensures
            r@ == self@.summary,
    {
        &self.summary
    }

    pub fn parents(&self) -> (r: &Vec<String>)
        ensures
            r@.map_values(|s: String| s@) == self@.parents,
    {
        &self.parents
    }

    pub fn committer(&self) -> (r: &User)
        ensures
            r@ == self@.committer,
    {
        &self.committer
    }

    pub fn commit_time(&self) -> (r: u64)
        ensures
            r == self@.commit_time,
    {
        self.commit_time
    }

    pub fn author(&self) -> (r: &User)
        ensures
            r@ == self@.author,
    {
        &self.author
    }

    pub fn author_time(&self) -> (r: u64)
        ensures
            r == self@.author_time,
    {
        self.author_time
    }

    pub fn co_authors(&self) -> (r: &Vec<User>)
        ensures
            r@.map_values(|u: User| u@) == self@.co_authors,
    {
        &self.co_authors
    }

    pub fn file_changes(&self) -> (r: &Vec<FileChange>)
        ensures
            r@.map_values(|c: FileChange| c@) == self@.file_changes,
    {
        &self.file_changes
    }
}

/// A trimmed string, or nothing when trimming leaves it empty. Used when
/// parsing co-author trailers, where empty names and emails become `None`.
pub fn trim_string(s: &str) -> (r: Option<&str>)
    ensures
        (r is None) <==> trim_of(s@).len() == 0,
        r is Some ==> r->0@ == trim_of(s@),
{
    let trimmed = trim(s);
    if trimmed.unicode_len() == 0 {
        Option::None
    } else {
        Option::Some(trimmed)
    }
}

/// How many characters a line runs before its newline (or the end).
pub open spec fn no_newline_prefix(s: Seq<char>) -> nat
    decreases s.len(),
{
    if s.len() == 0 {
        0
    } else if s[0] == '\n' {
        0
    } else {
        1 + no_newline_prefix(s.drop_first())
    }
}

/// The first newline at or after `from`, or the end of the message.
pub open spec fn next_newline(s: Seq<char>, from: int) -> int {
    from + no_newline_prefix(s.skip(from))
}

/// Where the leading whitespace of `[lo, hi)` ends.
pub open spec fn ws_end(s: Seq<char>, lo: int, hi: int) -> int
    decreases hi - lo,
{
    if lo >= hi {
        lo
    } else if is_space_char(s[lo]) {
        ws_end(s, lo + 1, hi)
    } else {
        lo
    }
}

/// The trailer keyword every co-author line carries.
pub open spec fn coauthor_keyword() -> Seq<char> {
    "Co-authored-by:"@
}

/// The largest index in `[lo, hi)` holding `c`, or `lo - 1` when none does.
pub open spec fn last_index_of(s: Seq<char>, c: char, lo: int, hi: int) -> int
    decreases hi - lo,
{
    if hi <= lo {
        lo - 1
    } else if s[hi - 1] == c {
        hi - 1
    } else {
        last_index_of(s, c, lo, hi - 1)
    }
}

pub open spec fn has_at_sign(t: Seq<char>) -> bool {
    exists|q: int| 0 <= q < t.len() && t[q] == '@'
}

/// A trimmed field, or nothing when trimming leaves it empty.
pub open spec fn opt_trimmed(t: Seq<char>) -> Option<Seq<char>> {
    if trim_of(t).len() == 0 {
        Option::None
    } else {
        Option::Some(trim_of(t))
    }
}

/// Where a trailing `<...>` pair splits the trailer text: the last `<`
/// after the last stray `>`, leaving a nonempty email before the final `>`;
/// `-1` when no such split exists.
pub open spec fn angle_split(t: Seq<char>) -> int {
    let n = t.len() as int;
    let g = last_index_of(t, '>', 0, n - 1);
    let p = last_index_of(t, '<', g + 1, n - 2);
    if p >= g + 1 {
        p
    } else {
        -1
    }
}

/// The user a trailer's text names: a final `<...>` pair is name and email;
/// otherwise text with an `@` is an email and anything else a name.
pub open spec fn coauthor_user_of(t: Seq<char>) -> UserView {
    let n = t.len() as int;
    if n >= 2 && t[n - 1] == '>' && angle_split(t) >= 0 {
        UserView {
            name: opt_trimmed(t.subrange(0, angle_split(t))),
            email: opt_trimmed(t.subrange(angle_split(t) + 1, n - 1)),
        }
    } else if has_at_sign(t) {
        UserView { name: Option::None, email: opt_trimmed(t) }
    } else {
        UserView { name: opt_trimmed(t), email: Option::None }
    }
}

/// One line of the message, between the bounds: the user it names when it
/// is a co-author trailer, allowing leading whitespace.
pub open spec fn spec_parse_line(s: Seq<char>, lo: int, hi: int) -> Option<UserView> {
    let w = ws_end(s, lo, hi);
    if w + 15 <= hi && s.subrange(w, w + 15) == coauthor_keyword() {
        Option::Some(coauthor_user_of(s.subrange(w + 15, hi)))
    } else {
        Option::None
    }
}

/// Every co-author named from `from` on, line by line, in order.
pub open spec fn spec_coauthors(s: Seq<char>, from: int) -> Seq<UserView>
    decreases s.len() - from,
    when 0 <= from <= s.len()
{
    let nl = next_newline(s, from);
    let here = spec_parse_line(s, from, if nl < s.len() {
        nl
    } else {
        s.len() as int
    });
    let rest: Seq<UserView> = if nl < s.len() && from <= nl {
        spec_coauthors(s, nl + 1)
    } else {
        Seq::empty()
    };
    match here {
        Option::Some(u) => seq![u] + rest,
        Option::None => rest,
    }
}

proof fn lemma_no_newline_prefix(s: Seq<char>)
    ensures
        no_newline_prefix(s) <= s.len(),
        forall|q: int| 0 <= q < no_newline_prefix(s) ==> s[q] != '\n',
        no_newline_prefix(s) < s.len() ==> s[no_newline_prefix(s) as int] == '\n',
    decreases s.len(),
{
    if s.len() > 0 && s[0] != '\n' {
        lemma_no_newline_prefix(s.drop_first());
        assert forall|q: int| 0 <= q < no_newline_prefix(s) implies s[q] != '\n' by {
            if q > 0 {
                assert(s.drop_first()[q - 1] == s[q]);
            }
        }
        if no_newline_prefix(s) < s.len() {
            assert(s.drop_first()[no_newline_prefix(s) - 1] == s[no_newline_prefix(s) as int]);
        }
    }
}

/// The newline the scan found is the one the spec names.
proof fn lemma_next_newline_at(s: Seq<char>, from: int, at: int)
    requires
        0 <= from <= at <= s.len(),
        forall|q: int| from <= q < at ==> s[q] != '\n',
        at < s.len() ==> s[at] == '\n',
    ensures
        next_newline(s, from) == at,
{
    let tail = s.skip(from);
    lemma_no_newline_prefix(tail);
    assert(forall|q: int| 0 <= q < tail.len() ==> tail[q] == s[q + from]);
    let pfx = no_newline_prefix(tail) as int;
    if pfx < at - from {
        assert(tail[pfx] == '\n');
        assert(s[pfx + from] == '\n');
    }
    if pfx > at - from {
        assert(at < s.len());
        assert(tail[at - from] != '\n');
    }
}

/// The whitespace scan stopped exactly where the spec says it does.
proof fn lemma_ws_end_at(s: Seq<char>, lo: int, hi: int, at: int)
    requires
        0 <= lo <= at <= hi <= s.len(),
        forall|q: int| lo <= q < at ==> is_space_char(s[q]),
        at < hi ==> !is_space_char(s[at]),
    ensures
        ws_end(s, lo, hi) == at,
    decreases at - lo,
{
    if lo < at {
        lemma_ws_end_at(s, lo + 1, hi, at);
    }
}

/// The backwards scan found exactly the last occurrence in the range.
pub proof fn lemma_last_index_at(s: Seq<char>, c: char, lo: int, hi: int, at: int)
    requires
        lo - 1 <= at,
        at < hi || at == lo - 1,
        hi <= s.len(),
        at >= lo ==> s[at] == c,
        forall|q: int| lo <= q < hi && q > at ==> s[q] != c,
    ensures
        last_index_of(s, c, lo, hi) == at,
    decreases hi - lo,
{
    if hi <= lo {
    } else if s[hi - 1] == c {
    } else {
        lemma_last_index_at(s, c, lo, hi - 1, at);
    }
}

/// The co-author users named in a commit message: one per line of the form
/// `Co-authored-by:<text>`, leading whitespace allowed. Inside the text, a
/// final `<...>` pair is name and email; otherwise text with an `@` is an
/// email and anything else a name. Trimmed empty parts become absent fields.
#[verifier::loop_isolation(false)]
pub fn find_coauthors(message: &str) -> (r: Vec<User>)
    ensures
        r@.map_values(|u: User| u@) == spec_coauthors(message@, 0),
{
    let ghost sv = message@;
    let mut out: Vec<User> = Vec::new();
    let n = message.unicode_len();
    let mut line_start: usize = 0;
    let mut i: usize = 0;
    proof {
        assert(out@.map_values(|u: User| u@) + spec_coauthors(sv, 0) =~= spec_coauthors(sv, 0));
    }
    while i < n
        invariant
            i <= n,
            line_start <= i,
            n == sv.len(),
            sv == message@,
            forall|q: int| line_start <= q < i ==> sv[q] != '\n',
            out@.map_values(|u: User| u@) + spec_coauthors(sv, line_start as int)
                == spec_coauthors(sv, 0),
        decreases n - i,
    {
        if message.get_char(i) == '\n' {
            proof {
                lemma_next_newline_at(sv, line_start as int, i as int);
            }
            let ghost outv0 = out@.map_values(|u: User| u@);
            match parse_coauthor_line(message, line_start, i) {
                Option::Some(user) => {
                    out.push(user);
                    proof {
                        assert(out@.map_values(|u: User| u@) =~= outv0.push(
                            out@[out@.len() - 1]@,
                        ));
                        assert(spec_coauthors(sv, line_start as int) =~= seq![
                            out@[out@.len() - 1]@,
                        ] + spec_coauthors(sv, i + 1));
                        assert(out@.map_values(|u: User| u@) + spec_coauthors(sv, i + 1)
                            =~= outv0 + spec_coauthors(sv, line_start as int));
                    }
                },
                Option::None => {
                    proof {
                        assert(spec_coauthors(sv, line_start as int) == spec_coauthors(
                            sv,
                            i + 1,
                        ));
                    }
                },
            }
            line_start = i + 1;
        }
        i += 1;
    }
    proof {
        lemma_next_newline_at(sv, line_start as int, n as int);
    }
    let ghost outv0 = out@.map_values(|u: User| u@);
    match parse_coauthor_line(message, line_start, n) {
        Option::Some(user) => {
            out.push(user);
            proof {
                assert(out@.map_values(|u: User| u@) =~= outv0.push(out@[out@.len() - 1]@));
                assert(spec_coauthors(sv, line_start as int) =~= seq![out@[out@.len() - 1]@]);
                assert(out@.map_values(|u: User| u@) =~= outv0 + spec_coauthors(
                    sv,
                    line_start as int,
                ));
            }
        },
        Option::None => {
            proof {
                assert(spec_coauthors(sv, line_start as int) =~= Seq::<UserView>::empty());
                assert(out@.map_values(|u: User| u@) =~= outv0 + spec_coauthors(
                    sv,
                    line_start as int,
                ));
            }
        },
    }
    out
}

/// One line of the message, between the given character bounds: the user it
/// names, when it is a co-author trailer.
#[verifier::loop_isolation(false)]
fn parse_coauthor_line(message: &str, start: usize, end: usize) -> (r: Option<User>)
    requires
        start <= end <= message@.len(),
    ensures
        match r {
            Option::Some(u) => spec_parse_line(message@, start as int, end as int)
                == Option::Some(u@),
            Option::None => spec_parse_line(message@, start as int, end as int) is None,
        },
{
    let ghost sv = message@;
    proof {
        reveal_strlit("Co-authored-by:");
        assert(coauthor_keyword().len() == 15);
    }
    // skip leading whitespace
    let mut p = start;
    while p < end && is_whitespace(message.get_char(p))
        invariant
            start <= p <= end,
            forall|q: int| start <= q < p ==> is_space_char(sv[q]),
        decreases end - p,
    {
        p += 1;
    }
    proof {
        lemma_ws_end_at(sv, start as int, end as int, p as int);
    }
    // match the trailer keyword character by character
    let pat = "Co-authored-by:";
    let plen = pat.unicode_len();
    if end - p < plen {
        return Option::None;
    }
    let mut k: usize = 0;
    while k < plen
        invariant
            k <= plen,
            plen == pat@.len(),
            pat@ == coauthor_keyword(),
            p + plen <= end,
            forall|q: int| 0 <= q < k ==> sv[p + q] == pat@[q],
        decreases plen - k,
    {
        if message.get_char(p + k) != pat.get_char(k) {
            proof {
                if sv.subrange(p as int, p as int + 15) == coauthor_keyword() {
                    assert(sv.subrange(p as int, p as int + 15)[k as int] == sv[p + k]);
                }
            }
            return Option::None;
        }
        k += 1;
    }
    proof {
        assert(sv.subrange(p as int, p as int + 15) =~= coauthor_keyword());
    }
    let text_start = p + plen;
    let text = message.substring_char(text_start, end);
    let user = parse_coauthor_text(text);
    proof {
        assert(text@ == sv.subrange(text_start as int, end as int));
    }
    Option::Some(user)
}

/// The user named by the text after the trailer keyword.
#[verifier::loop_isolation(false)]
fn parse_coauthor_text(text: &str) -> (r: User)
    ensures
        r@ == coauthor_user_of(text@),
{
    let ghost tv = text@;
    let n = text.unicode_len();
    // a trailing `<...>` pair wins: find the '<' after the last stray '>'
    if n >= 2 && text.get_char(n - 1) == '>' {
        // the last '>' before the final one bounds the search
        let mut g: usize = 0;
        let mut has_g = false;
        let mut j: usize = 0;
        while j < n - 1
            invariant
                n >= 2,
                j <= n - 1,
                n == tv.len(),
                has_g ==> g < j && tv[g as int] == '>',
                forall|q: int| 0 <= q < j && (!has_g || q > g) ==> tv[q] != '>',
            decreases n - j,
        {
            if text.get_char(j) == '>' {
                g = j;
                has_g = true;
            }
            j += 1;
        }
        let ghost gpos: int = if has_g {
            g as int
        } else {
            -1
        };
        proof {
            lemma_last_index_at(tv, '>', 0, n as int - 1, gpos);
        }
        // the last '<' strictly before the final '>', leaving a nonempty email
        let lo: usize = if has_g {
            g + 1
        } else {
            0
        };
        let mut p: usize = 0;
        let mut has_p = false;
        let mut k: usize = lo;
        while k < n - 1
            invariant
                n >= 2,
                lo <= n,
                k >= lo,
                k <= n,
                n == tv.len(),
                has_p ==> lo <= p && p < k && p + 2 < n && tv[p as int] == '<',
                forall|q: int|
                    lo <= q < k && q < n - 2 && (!has_p || q > p) ==> tv[q] != '<',
            decreases n - k,
        {
            if text.get_char(k) == '<' && k + 1 < n - 1 {
                p = k;
                has_p = true;
            }
            k += 1;
        }
        let ghost ppos: int = if has_p {
            p as int
        } else {
            lo as int - 1
        };
        proof {
            lemma_last_index_at(tv, '<', lo as int, n as int - 2, ppos);
            assert(last_index_of(tv, '<', gpos + 1, n as int - 2) == ppos);
        }
        if has_p {
            proof {
                assert(angle_split(tv) == p as int);
            }
            let name_part = text.substring_char(0, p);
            let email_part = text.substring_char(p + 1, n - 1);
            let name = trim_string(name_part);
            let email = trim_string(email_part);
            proof {
                assert(name_part@ == tv.subrange(0, p as int));
                assert(email_part@ == tv.subrange(p as int + 1, n as int - 1));
            }
            return User::new(name, email);
        }
        proof {
            assert(angle_split(tv) == -1);
        }
    }
    // otherwise an '@' makes the whole text an email, else a name
    let mut has_at = false;
    let mut q: usize = 0;
    while q < n
        invariant
            q <= n,
            n == tv.len(),
            has_at == (exists|w: int| 0 <= w < q && tv[w] == '@'),
        decreases n - q,
    {
        if text.get_char(q) == '@' {
            has_at = true;
        }
        proof {
            if !has_at && tv[q as int] == '@' {
                assert(false);
            }
        }
        q += 1;
    }
    proof {
        assert(has_at == has_at_sign(tv));
    }
    if has_at {
        User::new(Option::None, trim_string(text))
    } else {
        User::new(trim_string(text), Option::None)
    }
}

} // verus!
