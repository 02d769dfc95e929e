use vstd::prelude::*;

use crate::git_file_history::{FileHistoryEntry, FileHistoryEntryView, GitFileHistory};
use crate::git_logger::{user_key, CommitChange, GitLogConfig, User, UserView};
use crate::idlist::{
    ids_before, ids_eq, ids_lex_lt, insert_id, lemma_ids_lex_irrefl, lemma_ids_lex_trans,
    lemma_ids_lex_trichotomy, lemma_sorted_ids_canonical, merge_ids, copy_ids, sorted_ids,
    ids_represent,
};
use crate::git_user_dictionary::{
    has_key, key_index, lemma_key_index_props, lemma_key_index_push, register_id, register_spec,
    GitUserDictionary,
};

verus! {

/// Number of seconds in one day.
pub const SECONDS_PER_DAY: u64 = 86400;

/// The UTC start of the day a timestamp falls in: whole days since the epoch
/// times the length of a day.
pub open spec fn spec_start_of_day(secs: u64) -> u64 {
    ((secs as int / (SECONDS_PER_DAY as int)) * (SECONDS_PER_DAY as int)) as u64
}

pub fn start_of_day(secs_since_epoch: u64) -> (r: u64)
    ensures
        r == spec_start_of_day(secs_since_epoch),
        r % SECONDS_PER_DAY == 0,
        r <= secs_since_epoch,
{
    let r = (secs_since_epoch / SECONDS_PER_DAY) * SECONDS_PER_DAY;
    proof {
        let s = secs_since_epoch as int;
        let d = SECONDS_PER_DAY as int;
        assert((s / d) * d <= s && (s / d) * d >= 0 && ((s / d) * d) % d == 0) by (nonlinear_arith)
            requires
                s >= 0,
                d == 86400,
        ;
    }
    r
}

/// Everyone a history entry names: co-authors, then author, then committer.
pub open spec fn users_of_entry(e: FileHistoryEntryView) -> Seq<UserView> {
    e.co_authors + seq![e.author, e.committer]
}

/// Strict lexicographic order on character sequences, by code point.
pub open spec fn seq_char_lt(a: Seq<char>, b: Seq<char>) -> bool
    decreases a.len() + b.len(),
{
    if b.len() == 0 {
        false
    } else if a.len() == 0 {
        true
    } else if (a[0] as u32) < (b[0] as u32) {
        true
    } else if (b[0] as u32) < (a[0] as u32) {
        false
    } else {
        seq_char_lt(a.drop_first(), b.drop_first())
    }
}

/// An absent field sorts before any present one.
pub open spec fn opt_str_lt(a: Option<Seq<char>>, b: Option<Seq<char>>) -> bool {
    match (a, b) {
        (Option::None, Option::Some(_)) => true,
        (Option::Some(x), Option::Some(y)) => seq_char_lt(x, y),
        _ => false,
    }
}

/// Strict order on users: by name, then by email.
pub open spec fn user_lt(a: UserView, b: UserView) -> bool {
    opt_str_lt(a.name, b.name) || (a.name == b.name && opt_str_lt(a.email, b.email))
}

/// Insertion into a duplicate-free ascending user list: walk past smaller
/// users, drop the new one when an equal user is already there.
pub open spec fn insert_user(s: Seq<UserView>, u: UserView) -> Seq<UserView>
    decreases s.len(),
{
    if s.len() == 0 {
        seq![u]
    } else if user_lt(s[0], u) {
        seq![s[0]] + insert_user(s.drop_first(), u)
    } else if s[0] == u {
        s
    } else {
        seq![u] + s
    }
}

/// The ascending, duplicate-free arrangement of a user list; the order in
/// which an entry's users meet the dictionary.
pub open spec fn sorted_users(us: Seq<UserView>) -> Seq<UserView>
    decreases us.len(),
{
    if us.len() == 0 {
        Seq::empty()
    } else {
        insert_user(sorted_users(us.drop_last()), us.last())
    }
}

/// The dictionary after registering a list of users in order.
pub open spec fn reg_users(d: Seq<UserView>, us: Seq<UserView>) -> Seq<UserView>
    decreases us.len(),
{
    if us.len() == 0 {
        d
    } else {
        register_spec(reg_users(d, us.drop_last()), us.last())
    }
}

/// The dictionary after one history entry: its users register in ascending
/// order.
pub open spec fn reg_entry(d: Seq<UserView>, e: FileHistoryEntryView) -> Seq<UserView> {
    reg_users(d, sorted_users(users_of_entry(e)))
}

/// The dictionary after a whole history, entry by entry.
pub open spec fn reg_history(d: Seq<UserView>, h: Seq<FileHistoryEntryView>) -> Seq<UserView>
    decreases h.len(),
{
    if h.len() == 0 {
        d
    } else {
        reg_entry(reg_history(d, h.drop_last()), h.last())
    }
}

/// The ids under which an entry's users are interned.
pub open spec fn changer_set(e: FileHistoryEntryView, d: Seq<UserView>) -> Set<usize> {
    Set::new(
        |x: usize|
            exists|i: int|
                0 <= i < users_of_entry(e).len() && x as int == key_index(
                    d,
                    user_key(users_of_entry(e)[i]),
                ),
    )
}

/// All user keys that an entry mentions are present in the dictionary.
pub open spec fn entry_keys_present(e: FileHistoryEntryView, d: Seq<UserView>) -> bool {
    forall|i: int|
        0 <= i < users_of_entry(e).len() ==> has_key(d, user_key(#[trigger] users_of_entry(e)[i]))
}



pub proof fn lemma_insert_user_membership(s: Seq<UserView>, u: UserView, x: UserView)
    ensures
        insert_user(s, u).contains(x) <==> (s.contains(x) || x == u),
    decreases s.len(),
{
    if s.len() == 0 {
        assert(insert_user(s, u) == seq![u]);
        assert(insert_user(s, u).contains(x) <==> x == u) by {
            if x == u {
                assert(insert_user(s, u)[0] == u);
            }
        }
    } else if user_lt(s[0], u) {
        lemma_insert_user_membership(s.drop_first(), u, x);
        let r = seq![s[0]] + insert_user(s.drop_first(), u);
        assert(insert_user(s, u) == r);
        if s.contains(x) || x == u {
            if x == s[0] {
                assert(r[0] == x);
            } else if s.contains(x) {
                let i = choose|i: int| 0 <= i < s.len() && s[i] == x;
                assert(s.drop_first()[i - 1] == x);
                assert(insert_user(s.drop_first(), u).contains(x));
                let w = choose|w: int|
                    0 <= w < insert_user(s.drop_first(), u).len() && insert_user(
                        s.drop_first(),
                        u,
                    )[w] == x;
                assert(r[w + 1] == x);
            } else {
                assert(insert_user(s.drop_first(), u).contains(x));
                let w = choose|w: int|
                    0 <= w < insert_user(s.drop_first(), u).len() && insert_user(
                        s.drop_first(),
                        u,
                    )[w] == x;
                assert(r[w + 1] == x);
            }
        }
        if r.contains(x) {
            let w = choose|w: int| 0 <= w < r.len() && r[w] == x;
            if w == 0 {
                assert(s[0] == x);
            } else {
                assert(insert_user(s.drop_first(), u)[w - 1] == x);
                if s.drop_first().contains(x) {
                    let i = choose|i: int| 0 <= i < s.drop_first().len() && s.drop_first()[i] == x;
                    assert(s[i + 1] == x);
                }
            }
        }
    } else if s[0] == u {
        if x == u {
            assert(s[0] == x);
        }
    } else {
        let r = seq![u] + s;
        assert(insert_user(s, u) == r);
        if s.contains(x) {
            let i = choose|i: int| 0 <= i < s.len() && s[i] == x;
            assert(r[i + 1] == x);
        }
        if x == u {
            assert(r[0] == x);
        }
        if r.contains(x) {
            let w = choose|w: int| 0 <= w < r.len() && r[w] == x;
            if w > 0 {
                assert(s[w - 1] == x);
            }
        }
    }
}

pub proof fn lemma_sorted_users_membership(us: Seq<UserView>, x: UserView)
    ensures
        sorted_users(us).contains(x) <==> us.contains(x),
    decreases us.len(),
{
    if us.len() == 0 {
    } else {
        lemma_sorted_users_membership(us.drop_last(), x);
        lemma_insert_user_membership(sorted_users(us.drop_last()), us.last(), x);
        if us.contains(x) {
            let i = choose|i: int| 0 <= i < us.len() && us[i] == x;
            if i < us.len() - 1 {
                assert(us.drop_last()[i] == x);
            }
        }
        if us.drop_last().contains(x) {
            let i = choose|i: int| 0 <= i < us.drop_last().len() && us.drop_last()[i] == x;
            assert(us[i] == x);
        }
        if x == us.last() {
            assert(us[us.len() - 1] == x);
        }
    }
}

/// Registering users only appends: the old dictionary is a prefix of the new.
pub proof fn lemma_reg_users_extends(d: Seq<UserView>, us: Seq<UserView>)
    ensures
        reg_users(d, us).len() >= d.len(),
        forall|j: int| 0 <= j < d.len() ==> #[trigger] reg_users(d, us)[j] == d[j],
    decreases us.len(),
{
    if us.len() == 0 {
    } else {
        let prev = reg_users(d, us.drop_last());
        lemma_reg_users_extends(d, us.drop_last());
        if has_key(prev, user_key(us.last())) {
        } else {
            assert forall|j: int| 0 <= j < d.len() implies #[trigger] reg_users(d, us)[j]
                == d[j] by {
                assert(prev.push(us.last())[j] == prev[j]);
            }
        }
    }
}

/// A key already present keeps its index when the dictionary grows at the
/// end.
pub proof fn lemma_key_index_prefix_stable(d1: Seq<UserView>, d2: Seq<UserView>, k: UserView)
    requires
        has_key(d1, k),
        d1.len() <= d2.len(),
        forall|j: int| 0 <= j < d1.len() ==> #[trigger] d2[j] == d1[j],
    ensures
        has_key(d2, k),
        key_index(d2, k) == key_index(d1, k),
{
    lemma_key_index_props(d1, k);
    let i = key_index(d1, k);
    assert(user_key(d2[i]) == k);
    lemma_key_index_props(d2, k);
    let i2 = key_index(d2, k);
    if i2 < i {
        assert(user_key(d1[i2]) != k);
        assert(d2[i2] == d1[i2]);
    }
    if i < i2 {
        assert(user_key(d2[i]) != k);
    }
}

/// A change-set is unaffected by later growth of the dictionary, once every
/// key it mentions is present.
pub proof fn lemma_changer_set_stable(
    e: FileHistoryEntryView,
    d1: Seq<UserView>,
    d2: Seq<UserView>,
)
    requires
        entry_keys_present(e, d1),
        d1.len() <= d2.len(),
        forall|j: int| 0 <= j < d1.len() ==> #[trigger] d2[j] == d1[j],
    ensures
        entry_keys_present(e, d2),
        changer_set(e, d2) == changer_set(e, d1),
{
    let us = users_of_entry(e);
    assert forall|i: int| 0 <= i < us.len() implies has_key(d2, user_key(#[trigger] us[i]))
        && key_index(d2, user_key(us[i])) == key_index(d1, user_key(us[i])) by {
        lemma_key_index_prefix_stable(d1, d2, user_key(us[i]));
    }
    assert(changer_set(e, d2) =~= changer_set(e, d1));
}

fn user_before(a: &User, b: &User) -> (r: bool)
    ensures
        r == user_lt(a@, b@),
{
    let names_equal = match (&a.name, &b.name) {
        (Option::None, Option::None) => true,
        (Option::Some(x), Option::Some(y)) => x.eq(y),
        _ => false,
    };
    if names_equal {
        proof {
            match (a@.name, b@.name) {
                (Option::Some(x), Option::Some(y)) => {
                    lemma_seq_char_lt_irrefl(x);
                },
                _ => {},
            }
        }
        opt_str_before(&a.email, &b.email)
    } else {
        opt_str_before(&a.name, &b.name)
    }
}

fn opt_str_before(a: &Option<String>, b: &Option<String>) -> (r: bool)
    ensures
        r == opt_str_lt(
            match a {
                Option::None => Option::None,
                Option::Some(s) => Option::Some(s@),
            },
            match b {
                Option::None => Option::None,
                Option::Some(s) => Option::Some(s@),
            },
        ),
{
    match (a, b) {
        (Option::None, Option::Some(_)) => true,
        (Option::Some(x), Option::Some(y)) => str_before(x.as_str(), y.as_str()),
        _ => false,
    }
}

proof fn lemma_seq_char_lt_irrefl(x: Seq<char>)
    ensures
        !seq_char_lt(x, x),
    decreases x.len(),
{
    if x.len() > 0 {
        lemma_seq_char_lt_irrefl(x.drop_first());
    }
}

pub(crate) fn str_before(a: &str, b: &str) -> (r: bool)
    ensures
        r == seq_char_lt(a@, b@),
{
    let alen = a.unicode_len();
    let blen = b.unicode_len();
    let mut i: usize = 0;
    proof {
        assert(a@.skip(0) =~= a@);
        assert(b@.skip(0) =~= b@);
    }
    loop
        invariant
            i <= alen,
            i <= blen,
            alen == a@.len(),
            blen == b@.len(),
            seq_char_lt(a@, b@) == seq_char_lt(a@.skip(i as int), b@.skip(i as int)),
        decreases alen - i,
    {
        proof {
            if i < blen {
                assert(b@.skip(i as int)[0] == b@[i as int]);
            }
            if i < alen {
                assert(a@.skip(i as int)[0] == a@[i as int]);
            }
        }
        if i >= blen {
            proof {
                assert(b@.skip(i as int).len() == 0);
            }
            return false;
        }
        if i >= alen {
            proof {
                assert(a@.skip(i as int).len() == 0);
                assert(b@.skip(i as int).len() > 0);
            }
            return true;
        }
        let ca = a.get_char(i);
        let cb = b.get_char(i);
        if (ca as u32) < (cb as u32) {
            return true;
        }
        if (cb as u32) < (ca as u32) {
            return false;
        }
        proof {
            assert(a@.skip(i as int).drop_first() =~= a@.skip(i + 1));
            assert(b@.skip(i as int).drop_first() =~= b@.skip(i + 1));
        }
        i += 1;
    }
}

proof fn lemma_insert_user_at(s: Seq<UserView>, u: UserView, pos: int)
    requires
        0 <= pos <= s.len(),
        forall|j: int| 0 <= j < pos ==> user_lt(#[trigger] s[j], u),
        pos < s.len() ==> !user_lt(s[pos], u),
    ensures
        insert_user(s, u) == if pos < s.len() && s[pos] == u {
            s
        } else {
            s.take(pos) + seq![u] + s.skip(pos)
        },
    decreases s.len(),
{
    if pos == 0 {
        if s.len() == 0 {
            assert(insert_user(s, u) =~= s.take(0) + seq![u] + s.skip(0));
        } else if s[0] == u {
        } else {
            assert(!user_lt(s[0], u));
            assert(insert_user(s, u) =~= s.take(0) + seq![u] + s.skip(0));
        }
    } else {
        let rest = s.drop_first();
        assert(user_lt(s[0], u));
        lemma_insert_user_at(rest, u, pos - 1);
        if pos < s.len() && s[pos] == u {
            assert(rest[pos - 1] == u);
            assert(insert_user(s, u) =~= seq![s[0]] + rest);
            assert(seq![s[0]] + rest =~= s);
        } else {
            assert(insert_user(s, u) =~= seq![s[0]] + (rest.take(pos - 1) + seq![u] + rest.skip(
                pos - 1,
            )));
            assert(seq![s[0]] + (rest.take(pos - 1) + seq![u] + rest.skip(pos - 1)) =~= s.take(pos)
                + seq![u] + s.skip(pos));
        }
    }
}

/// Insert a user into an ascending duplicate-free list, exactly as
/// `insert_user` describes.
fn insert_user_exec(acc: &mut Vec<User>, u: &User)
    ensures
        final(acc)@.map_values(|x: User| x@) == insert_user(
            old(acc)@.map_values(|x: User| x@),
            u@,
        ),
{
    let ghost s = acc@.map_values(|x: User| x@);
    let n = acc.len();
    let mut pos: usize = 0;
    while pos < n && user_before(&acc[pos], u)
        invariant
            acc@ == old(acc)@,
            s == acc@.map_values(|x: User| x@),
            n == acc@.len(),
            pos <= n,
            forall|j: int| 0 <= j < pos ==> user_lt(#[trigger] s[j], u@),
        decreases n - pos,
    {
        proof {
            assert(s[pos as int] == acc@[pos as int]@);
        }
        pos += 1;
    }
    proof {
        assert(s == old(acc)@.map_values(|x: User| x@));
        if pos < n {
            assert(s[pos as int] == acc@[pos as int]@);
        }
    }
    if pos < n {
        if acc[pos].same_as(u) {
            proof {
                lemma_insert_user_at(s, u@, pos as int);
            }
            return ;
        }
        proof {
            lemma_insert_user_at(s, u@, pos as int);
        }
        acc.insert(pos, u.clone());
        proof {
            assert(acc@.map_values(|x: User| x@) =~= s.take(pos as int) + seq![u@] + s.skip(
                pos as int,
            ));
        }
    } else {
        proof {
            lemma_insert_user_at(s, u@, pos as int);
        }
        acc.push(u.clone());
        proof {
            assert(acc@.map_values(|x: User| x@) =~= s.take(pos as int) + seq![u@] + s.skip(
                pos as int,
            ));
        }
    }
}




/// History of the git roots a scan has discovered, with the configuration
/// used to read each of them.
#[derive(Debug)]
pub struct GitHistories {
    pub git_file_histories: Vec<GitFileHistory>,
    /// config used to initialize any git histories
    pub git_log_config: GitLogConfig,
}

impl GitHistories {
    pub fn new(config: GitLogConfig) -> (r: Self)
        ensures
            r.git_file_histories@.len() == 0,
            r.git_log_config == config,
    {
        GitHistories { git_file_histories: Vec::new(), git_log_config: config }
    }

    /// The first known history whose workdir holds the file.
    pub fn git_history(&self, filename: &str) -> (r: Option<&GitFileHistory>)
        ensures
            match r {
                Option::Some(h) => exists|i: int|
                    0 <= i < self.git_file_histories@.len() && crate::git_file_history::path_in_dir(
                        filename@,
                        (#[trigger] self.git_file_histories@[i]).spec_workdir(),
                    ),
                Option::None => forall|i: int|
                    0 <= i < self.git_file_histories@.len()
                        ==> !crate::git_file_history::path_in_dir(
                        filename@,
                        (#[trigger] self.git_file_histories@[i]).spec_workdir(),
                    ),
            },
    {
        let n = self.git_file_histories.len();
        let mut i: usize = 0;
        while i < n
            invariant
                n == self.git_file_histories@.len(),
                i <= n,
                forall|j: int|
                    0 <= j < i ==> !crate::git_file_history::path_in_dir(
                        filename@,
                        (#[trigger] self.git_file_histories@[j]).spec_workdir(),
                    ),
            decreases n - i,
        {
            if self.git_file_histories[i].is_repo_for(filename) {
                return Option::Some(&self.git_file_histories[i]);
            }
            i += 1;
        }
        Option::None
    }

    /// Remember a freshly built history; the walker adds one per repository
    /// it discovers.
    pub fn add_history(&mut self, history: GitFileHistory)
        ensures
            final(self).git_file_histories@ == old(self).git_file_histories@.push(history),
            final(self).git_log_config == old(self).git_log_config,
    {
        self.git_file_histories.push(history);
    }

    /// The interned ids of everyone an entry names, in ascending order
    /// without duplicates, registering first-met users along the way.
    pub fn unique_changers(history: &FileHistoryEntry, dictionary: &mut GitUserDictionary) -> (r:
        Vec<usize>)
        requires
            old(dictionary).wf(),
        ensures
            final(dictionary).wf(),
            final(dictionary)@ == reg_entry(old(dictionary)@, history@),
            entry_keys_present(history@, final(dictionary)@),
            ids_represent(r@, changer_set(history@, final(dictionary)@)),
    {
        let ghost d0 = dictionary@;
        let ghost usv = users_of_entry(history@);

        // gather the users in the order the entry names them
        let mut users: Vec<User> = Vec::new();
        let nco = history.co_authors.len();
        let mut i: usize = 0;
        while i < nco
            invariant
                i <= nco,
                nco == history.co_authors@.len(),
                users@.len() == i,
                forall|j: int| 0 <= j < i ==> (#[trigger] users@[j])@ == history.co_authors@[j]@,
            decreases nco - i,
        {
            users.push(history.co_authors[i].clone());
            i += 1;
        }
        users.push(history.author.clone());
        users.push(history.committer.clone());
        proof {
            assert(users@.map_values(|x: User| x@) =~= usv);
        }

        // arrange them in ascending order, dropping exact duplicates
        let mut sorted: Vec<User> = Vec::new();
        let nu = users.len();
        let mut k: usize = 0;
        proof {
            assert(sorted@.map_values(|x: User| x@) =~= sorted_users(usv.take(0)));
        }
        while k < nu
            invariant
                k <= nu,
                nu == users@.len(),
                usv == users@.map_values(|x: User| x@),
                sorted@.map_values(|x: User| x@) == sorted_users(usv.take(k as int)),
            decreases nu - k,
        {
            proof {
                assert(usv.take(k + 1).drop_last() =~= usv.take(k as int));
                assert(usv.take(k + 1).last() == usv[k as int]);
            }
            insert_user_exec(&mut sorted, &users[k]);
            k += 1;
        }
        proof {
            assert(usv.take(nu as int) =~= usv);
        }
        let ghost sortedv = sorted@.map_values(|x: User| x@);

        // register them in that order and collect the ids
        let mut ids: Vec<usize> = Vec::new();
        let ns = sorted.len();
        let mut m: usize = 0;
        proof {
            assert(reg_users(d0, sortedv.take(0)) =~= d0);
        }
        while m < ns
            invariant
                dictionary.wf(),
                m <= ns,
                ns == sorted@.len(),
                d0 == old(dictionary)@,
                sortedv == sorted@.map_values(|x: User| x@),
                dictionary@ == reg_users(d0, sortedv.take(m as int)),
                sorted_ids(ids@),
                forall|y: usize|
                    ids@.contains(y) <==> exists|i: int|
                        0 <= i < m && has_key(dictionary@, user_key(#[trigger] sortedv[i]))
                            && y as int == key_index(dictionary@, user_key(sortedv[i])),
            decreases ns - m,
        {
            let ghost dprev = dictionary@;
            let ghost idsprev = ids@;
            let id = dictionary.register(&sorted[m]);
            proof {
                assert(sortedv.take(m + 1).drop_last() =~= sortedv.take(m as int));
                assert(sortedv.take(m + 1).last() == sortedv[m as int]);
                // registration only appends, so the dictionary keeps its prefix
                assert(dprev.len() <= dictionary@.len() && forall|j: int|
                    0 <= j < dprev.len() ==> #[trigger] dictionary@[j] == dprev[j]) by {
                    if !has_key(dprev, user_key(sortedv[m as int])) {
                        assert(dictionary@ == dprev.push(sorted@[m as int]@));
                    }
                }
            }
            insert_id(&mut ids, id);
            proof {
                assert(has_key(dictionary@, user_key(sortedv[m as int])));
                assert(id as int == key_index(dictionary@, user_key(sortedv[m as int]))) by {
                    if has_key(dprev, user_key(sortedv[m as int])) {
                        assert(dictionary@ == dprev);
                    } else {
                        lemma_key_index_push(
                            dprev,
                            user_key(sortedv[m as int]),
                            sorted@[m as int]@,
                        );
                    }
                }
                assert forall|y: usize| ids@.contains(y) implies exists|i: int|
                    0 <= i < m + 1 && has_key(dictionary@, user_key(#[trigger] sortedv[i]))
                        && y as int == key_index(dictionary@, user_key(sortedv[i])) by {
                    if y == id {
                        assert(has_key(dictionary@, user_key(sortedv[m as int])) && y as int
                            == key_index(dictionary@, user_key(sortedv[m as int])));
                    } else {
                        assert(idsprev.contains(y));
                        let i = choose|i: int|
                            0 <= i < m && has_key(dprev, user_key(#[trigger] sortedv[i]))
                                && y as int == key_index(dprev, user_key(sortedv[i]));
                        lemma_key_index_prefix_stable(dprev, dictionary@, user_key(sortedv[i]));
                        assert(has_key(dictionary@, user_key(sortedv[i])) && y as int == key_index(
                            dictionary@,
                            user_key(sortedv[i]),
                        ));
                    }
                }
                assert forall|y: usize|
                    (exists|i: int|
                        0 <= i < m + 1 && has_key(dictionary@, user_key(#[trigger] sortedv[i]))
                            && y as int == key_index(dictionary@, user_key(sortedv[i])))
                    implies ids@.contains(y) by {
                    let i = choose|i: int|
                        0 <= i < m + 1 && has_key(dictionary@, user_key(#[trigger] sortedv[i]))
                            && y as int == key_index(dictionary@, user_key(sortedv[i]));
                    if i < m {
                        lemma_ids_present(d0, sortedv.take(m as int), i, dprev);
                        assert(sortedv.take(m as int)[i] == sortedv[i]);
                        lemma_key_index_prefix_stable(dprev, dictionary@, user_key(sortedv[i]));
                        assert(y as int == key_index(dprev, user_key(sortedv[i])));
                        assert(idsprev.contains(y));
                    } else {
                        assert(y == id);
                    }
                }
            }
            m += 1;
        }
        proof {
            assert(sortedv.take(ns as int) =~= sortedv);
            let df = dictionary@;
            // every user of the entry is in the sorted list and vice versa,
            // so the collected ids are exactly the entry's changer ids
            assert forall|y: usize| ids@.contains(y) implies changer_set(history@, df).contains(
                y,
            ) by {
                let i = choose|i: int|
                    0 <= i < sortedv.len() && has_key(df, user_key(#[trigger] sortedv[i]))
                        && y as int == key_index(df, user_key(sortedv[i]));
                lemma_sorted_users_membership(usv, sortedv[i]);
                assert(sortedv.contains(sortedv[i]));
                let w = choose|w: int| 0 <= w < usv.len() && usv[w] == sortedv[i];
            }
            assert forall|y: usize| changer_set(history@, df).contains(y) implies ids@.contains(
                y,
            ) by {
                let i = choose|i: int|
                    0 <= i < usv.len() && y as int == key_index(df, user_key(usv[i]));
                lemma_sorted_users_membership(usv, usv[i]);
                assert(usv.contains(usv[i]));
                let w = choose|w: int| 0 <= w < sortedv.len() && sortedv[w] == usv[i];
                assert(has_key(df, user_key(sortedv[w]))) by {
                    lemma_ids_present(d0, sortedv, w, df);
                }
            }
            assert(entry_keys_present(history@, df)) by {
                assert forall|i: int| 0 <= i < usv.len() implies has_key(
                    df,
                    user_key(#[trigger] usv[i]),
                ) by {
                    lemma_sorted_users_membership(usv, usv[i]);
                    let w = choose|w: int| 0 <= w < sortedv.len() && sortedv[w] == usv[i];
                    lemma_ids_present(d0, sortedv, w, df);
                }
            }
        }
        ids
    }
}

/// After registering a list, every listed user's key is in the dictionary.
proof fn lemma_ids_present(d: Seq<UserView>, us: Seq<UserView>, w: int, df: Seq<UserView>)
    requires
        0 <= w < us.len(),
        df == reg_users(d, us),
    ensures
        has_key(df, user_key(us[w])),
    decreases us.len(),
{
    let prev = reg_users(d, us.drop_last());
    if w == us.len() - 1 {
        if has_key(prev, user_key(us.last())) {
        } else {
            assert(df == prev.push(us.last()));
            assert(user_key(df[prev.len() as int]) == user_key(us.last()));
        }
    } else {
        lemma_ids_present(d, us.drop_last(), w, prev);
        assert(us.drop_last()[w] == us[w]);
        let i = choose|i: int| 0 <= i < prev.len() && user_key(prev[i]) == user_key(us[w]);
        if has_key(prev, user_key(us.last())) {
            assert(df == prev);
        } else {
            assert(df == prev.push(us.last()));
            assert(user_key(df[i]) == user_key(us[w]));
        }
    }
}


/// The mathematical value of one per-day, per-user-set summary.
pub struct GitDetailsView {
    pub commit_day: u64,
    pub users: Seq<usize>,
    pub commits: u64,
    pub lines_added: u64,
    pub lines_deleted: u64,
}

/// Git information for one day and one unique set of users, summarized.
/// Days go by author date, taken as the UTC start of day; several summaries
/// can share a day when different user sets committed on it.
#[derive(Debug)]
pub struct GitDetails {
    /// start of the author-date day, a multiple of the day length
    pub commit_day: u64,
    /// dictionary ids, ascending
    pub users: Vec<usize>,
    pub commits: u64,
    pub lines_added: u64,
    pub lines_deleted: u64,
}

impl View for GitDetails {
    type V = GitDetailsView;

    open spec fn view(&self) -> GitDetailsView {
        GitDetailsView {
            commit_day: self.commit_day,
            users: self.users@,
            commits: self.commits,
            lines_added: self.lines_added,
            lines_deleted: self.lines_deleted,
        }
    }
}

pub struct GitActivityView {
    pub author_time: u64,
    pub commit_time: u64,
    pub users: Seq<usize>,
    pub change: CommitChange,
    pub lines_added: u64,
    pub lines_deleted: u64,
}

/// Fine-grained git activity: one record per history entry, used by the
/// coupling calculations.
#[derive(Debug)]
pub struct GitActivity {
    pub author_time: u64,
    pub commit_time: u64,
    /// dictionary ids, ascending
    pub users: Vec<usize>,
    pub change: CommitChange,
    pub lines_added: u64,
    pub lines_deleted: u64,
}

impl View for GitActivity {
    type V = GitActivityView;

    open spec fn view(&self) -> GitActivityView {
        GitActivityView {
            author_time: self.author_time,
            commit_time: self.commit_time,
            users: self.users@,
            change: self.change,
            lines_added: self.lines_added,
            lines_deleted: self.lines_deleted,
        }
    }
}

/// The views of stored summary and activity vectors.
pub open spec fn details_view(s: Seq<GitDetails>) -> Seq<GitDetailsView> {
    s.map_values(|x: GitDetails| x@)
}

pub open spec fn activity_view(s: Seq<GitActivity>) -> Seq<GitActivityView> {
    s.map_values(|a: GitActivity| a@)
}

pub struct GitDataView {
    pub last_update: u64,
    pub age_in_days: u64,
    pub creation_date: Option<u64>,
    pub user_count: usize,
    pub users: Seq<usize>,
    pub details: Seq<GitDetailsView>,
    pub activity: Seq<GitActivityView>,
}

/// The per-file aggregate of git history.
#[derive(Debug)]
pub struct GitData {
    pub last_update: u64,
    pub age_in_days: u64,
    /// only present when an Add was seen and nothing predates it
    pub creation_date: Option<u64>,
    pub user_count: usize,
    pub users: Vec<usize>,
    pub details: Vec<GitDetails>,
    pub activity: Vec<GitActivity>,
}

impl View for GitData {
    type V = GitDataView;

    open spec fn view(&self) -> GitDataView {
        GitDataView {
            last_update: self.last_update,
            age_in_days: self.age_in_days,
            creation_date: self.creation_date,
            user_count: self.user_count,
            users: self.users@,
            details: details_view(self.details@),
            activity: activity_view(self.activity@),
        }
    }
}

impl GitData {
    /// A placeholder aggregate around a given activity list, with everything
    /// else empty; handy for building coupling inputs directly.
    pub fn fake_with_activity(activity: Vec<GitActivity>) -> (r: Self)
        ensures
            r@.last_update == 0,
            r@.age_in_days == 0,
            r@.creation_date is None,
            r@.user_count == 0,
            r@.users == Seq::<usize>::empty(),
            r@.details == Seq::<GitDetailsView>::empty(),
            r@.activity == activity_view(activity@),
    {
        let r = GitData {
            last_update: 0,
            age_in_days: 0,
            creation_date: Option::None,
            user_count: 0,
            users: Vec::new(),
            details: Vec::new(),
            activity,
        };
        proof {
            assert(r@.users =~= Seq::<usize>::empty());
            assert(r@.details =~= Seq::<GitDetailsView>::empty());
        }
        r
    }
}

/// Git data for a directory: just the remote and head of its repository.
#[derive(Debug)]
pub struct GitInfo {
    pub remote_url: Option<String>,
    pub head: Option<String>,
}

/// Git data for a file or a directory node.
#[derive(Debug)]
pub enum GitNodeData {
    File { data: GitData },
    Dir { data: GitInfo },
}

// --- folds over a history that the statistics contract speaks of ---

pub open spec fn sat_add(a: u64, b: u64) -> u64 {
    if a + b > u64::MAX {
        u64::MAX
    } else {
        (a + b) as u64
    }
}

pub open spec fn max_commit_of(h: Seq<FileHistoryEntryView>) -> u64
    decreases h.len(),
{
    if h.len() == 0 {
        0u64
    } else if h.last().commit_time > max_commit_of(h.drop_last()) {
        h.last().commit_time
    } else {
        max_commit_of(h.drop_last())
    }
}

pub open spec fn min_author_of(h: Seq<FileHistoryEntryView>) -> u64
    decreases h.len(),
{
    if h.len() == 0 {
        u64::MAX
    } else if h.last().author_time < min_author_of(h.drop_last()) {
        h.last().author_time
    } else {
        min_author_of(h.drop_last())
    }
}

/// The earliest author time among `Add` entries, when any exists.
pub open spec fn min_add_author(h: Seq<FileHistoryEntryView>) -> Option<u64>
    decreases h.len(),
{
    if h.len() == 0 {
        Option::<u64>::None
    } else {
        let rest = min_add_author(h.drop_last());
        if h.last().change == CommitChange::Add {
            match rest {
                Option::None => Option::Some(h.last().author_time),
                Option::Some(m) => if h.last().author_time < m {
                    Option::Some(h.last().author_time)
                } else {
                    Option::Some(m)
                },
            }
        } else {
            rest
        }
    }
}

/// The creation date: the earliest `Add`, unless an earlier event of any
/// kind predates it, in which case nothing is claimed.
pub open spec fn creation_of(h: Seq<FileHistoryEntryView>) -> Option<u64> {
    match min_add_author(h) {
        Option::None => Option::None,
        Option::Some(c) => if min_author_of(h) < c {
            Option::None
        } else {
            Option::Some(c)
        },
    }
}

pub open spec fn entry_day(e: FileHistoryEntryView) -> u64 {
    spec_start_of_day(e.author_time)
}

/// Whether an entry belongs to the summary keyed by a day and a user set.
pub open spec fn matches_key(
    e: FileHistoryEntryView,
    d: Seq<UserView>,
    day: u64,
    uset: Set<usize>,
) -> bool {
    entry_day(e) == day && changer_set(e, d) == uset
}

pub open spec fn count_key(
    h: Seq<FileHistoryEntryView>,
    d: Seq<UserView>,
    day: u64,
    uset: Set<usize>,
) -> int
    decreases h.len(),
{
    if h.len() == 0 {
        0
    } else {
        count_key(h.drop_last(), d, day, uset) + if matches_key(h.last(), d, day, uset) {
            1int
        } else {
            0int
        }
    }
}

pub open spec fn sum_added_key(
    h: Seq<FileHistoryEntryView>,
    d: Seq<UserView>,
    day: u64,
    uset: Set<usize>,
) -> u64
    decreases h.len(),
{
    if h.len() == 0 {
        0u64
    } else {
        let rest = sum_added_key(h.drop_last(), d, day, uset);
        if matches_key(h.last(), d, day, uset) {
            sat_add(rest, h.last().lines_added)
        } else {
            rest
        }
    }
}

pub open spec fn sum_deleted_key(
    h: Seq<FileHistoryEntryView>,
    d: Seq<UserView>,
    day: u64,
    uset: Set<usize>,
) -> u64
    decreases h.len(),
{
    if h.len() == 0 {
        0u64
    } else {
        let rest = sum_deleted_key(h.drop_last(), d, day, uset);
        if matches_key(h.last(), d, day, uset) {
            sat_add(rest, h.last().lines_deleted)
        } else {
            rest
        }
    }
}


/// Strict order of summaries: by day, then by user set.
pub open spec fn detail_lt(a: GitDetailsView, b: GitDetailsView) -> bool {
    a.commit_day < b.commit_day || (a.commit_day == b.commit_day && ids_lex_lt(a.users, b.users))
}

/// One activity record carries exactly one entry's data, with the users as
/// their interned ids.
pub open spec fn activity_matches(
    a: GitActivityView,
    e: FileHistoryEntryView,
    d: Seq<UserView>,
) -> bool {
    &&& a.author_time == e.author_time
    &&& a.commit_time == e.commit_time
    &&& a.change == e.change
    &&& a.lines_added == e.lines_added
    &&& a.lines_deleted == e.lines_deleted
    &&& ids_represent(a.users, changer_set(e, d))
}

/// Two summaries carry the same key: the same day and the same user set.
pub open spec fn same_detail_key(a: GitDetailsView, b: GitDetailsView) -> bool {
    a.commit_day == b.commit_day && a.users.to_set() == b.users.to_set()
}

/// The summaries stand in strictly ascending key order.
pub open spec fn details_sorted(dl: Seq<GitDetailsView>) -> bool {
    forall|i1: int, i2: int|
        0 <= i1 < i2 < dl.len() ==> detail_lt(#[trigger] dl[i1], #[trigger] dl[i2])
}

/// Every summary is sound for the history.
pub open spec fn details_all_ok(
    dl: Seq<GitDetailsView>,
    h: Seq<FileHistoryEntryView>,
    d: Seq<UserView>,
) -> bool {
    forall|i: int| 0 <= i < dl.len() ==> detail_ok(#[trigger] dl[i], h, d)
}

/// Every entry of the history has a summary with its key.
pub open spec fn details_cover(
    dl: Seq<GitDetailsView>,
    h: Seq<FileHistoryEntryView>,
    d: Seq<UserView>,
) -> bool {
    forall|j: int|
        0 <= j < h.len() ==> exists|i: int|
            0 <= i < dl.len() && matches_key(
                #[trigger] h[j],
                d,
                dl[i].commit_day,
                dl[i].users.to_set(),
            )
}

/// Activity records stand in ascending commit-time order.
pub open spec fn activity_sorted(a: Seq<GitActivityView>) -> bool {
    forall|i: int, j: int| 0 <= i < j < a.len() ==> a[i].commit_time <= a[j].commit_time
}

/// `m` places each history entry's record in the activity list: one index
/// per entry, no index used twice, and the record there carries exactly
/// that entry's data.
pub open spec fn activity_maps(
    m: Seq<int>,
    a: Seq<GitActivityView>,
    h: Seq<FileHistoryEntryView>,
    d: Seq<UserView>,
) -> bool {
    &&& m.len() == h.len()
    &&& a.len() == h.len()
    &&& forall|j: int| 0 <= j < m.len() ==> 0 <= #[trigger] m[j] < a.len()
    &&& forall|j1: int, j2: int| 0 <= j1 < j2 < m.len() ==> m[j1] != m[j2]
    &&& forall|j: int| 0 <= j < h.len() ==> activity_matches(a[#[trigger] m[j]], h[j], d)
}

/// The whole per-file aggregate, as the history and the dictionary demand
/// it: newest change, age, creation date, the user set, the activity list
/// sorted by commit time and carrying exactly the entries, and the per-day
/// summaries.
pub open spec fn git_data_ok(
    g: GitDataView,
    h: Seq<FileHistoryEntryView>,
    d: Seq<UserView>,
    last_commit: u64,
) -> bool {
    &&& g.last_update == max_commit_of(h)
    &&& g.age_in_days == (last_commit - max_commit_of(h)) as u64 / SECONDS_PER_DAY
    &&& g.creation_date == creation_of(h)
    &&& ids_represent(g.users, all_changers(h, d))
    &&& g.user_count == g.users.len()
    &&& activity_sorted(g.activity)
    &&& exists|m: Seq<int>| activity_maps(m, g.activity, h, d)
    &&& details_sorted(g.details)
    &&& details_all_ok(g.details, h, d)
    &&& details_cover(g.details, h, d)
}

/// One summary is sound for the history: its day is a whole day, its users
/// are an ascending id list, at least one entry carries exactly this key,
/// and its counts are the totals over the entries with this key.
#[verifier::opaque]
pub open spec fn detail_ok(
    dv: GitDetailsView,
    h: Seq<FileHistoryEntryView>,
    d: Seq<UserView>,
) -> bool {
    &&& dv.commit_day % SECONDS_PER_DAY == 0
    &&& sorted_ids(dv.users)
    &&& exists|j: int|
        0 <= j < h.len() && matches_key(#[trigger] h[j], d, dv.commit_day, dv.users.to_set())
    &&& dv.commits == count_key(h, d, dv.commit_day, dv.users.to_set())
    &&& dv.lines_added == sum_added_key(h, d, dv.commit_day, dv.users.to_set())
    &&& dv.lines_deleted == sum_deleted_key(h, d, dv.commit_day, dv.users.to_set())
}





/// Counts and sums over a prefix of the history do not change when the
/// dictionary grows, as long as every key the prefix mentions is present.
proof fn lemma_counts_stable(
    h: Seq<FileHistoryEntryView>,
    d1: Seq<UserView>,
    d2: Seq<UserView>,
    day: u64,
    uset: Set<usize>,
)
    requires
        forall|j: int| 0 <= j < h.len() ==> entry_keys_present(#[trigger] h[j], d1),
        d1.len() <= d2.len(),
        forall|j: int| 0 <= j < d1.len() ==> #[trigger] d2[j] == d1[j],
    ensures
        count_key(h, d2, day, uset) == count_key(h, d1, day, uset),
        sum_added_key(h, d2, day, uset) == sum_added_key(h, d1, day, uset),
        sum_deleted_key(h, d2, day, uset) == sum_deleted_key(h, d1, day, uset),
    decreases h.len(),
{
    if h.len() == 0 {
    } else {
        assert(forall|j: int|
            0 <= j < h.drop_last().len() ==> #[trigger] h.drop_last()[j] == h[j]);
        lemma_counts_stable(h.drop_last(), d1, d2, day, uset);
        lemma_changer_set_stable(h.last(), d1, d2);
    }
}

proof fn lemma_count_le_len(
    h: Seq<FileHistoryEntryView>,
    d: Seq<UserView>,
    day: u64,
    uset: Set<usize>,
)
    ensures
        0 <= count_key(h, d, day, uset) <= h.len(),
    decreases h.len(),
{
    if h.len() > 0 {
        lemma_count_le_len(h.drop_last(), d, day, uset);
    }
}



impl GitHistories {
    /// The per-file aggregate over a file's history: the newest change, the
    /// age against the repository's last commit, the creation date when it
    /// is trustworthy, everyone involved, one summary per day and user set,
    /// and one activity record per entry. Nothing for an empty history.
    #[verifier::rlimit(100)]
    pub fn stats_from_history(
        dictionary: &mut GitUserDictionary,
        last_commit: u64,
        history: &Vec<FileHistoryEntry>,
    ) -> (r: Option<GitData>)
        requires
            old(dictionary).wf(),
            forall|j: int|
                0 <= j < history@.len() ==> (#[trigger] history@[j])@.commit_time <= last_commit,
        ensures
            final(dictionary).wf(),
            final(dictionary)@ == reg_history(
                old(dictionary)@,
                history@.map_values(|e: FileHistoryEntry| e@),
            ),
            (r is None) <==> history@.len() == 0,
            r matches Option::Some(g) ==> git_data_ok(
                g@,
                history@.map_values(|e: FileHistoryEntry| e@),
                final(dictionary)@,
                last_commit,
            ),
    {
        let ghost d0 = dictionary@;
        let ghost hv = history@.map_values(|e: FileHistoryEntry| e@);
        let n = history.len();
        if n == 0 {
            proof {
                assert(reg_history(d0, hv) == d0);
            }
            return Option::None;
        }

        // first pass: intern every user, entry by entry
        register_history(dictionary, history);
        let ghost df = dictionary@;

        // second pass: plain time folds
        let (last_update, creation) = time_stats(history);
        proof {
            lemma_max_commit_bound(hv, history@, last_commit);
        }
        let age_in_days = (last_commit - last_update) / SECONDS_PER_DAY;

        // third pass: users, activity and summaries, against the now-fixed
        // dictionary
        let mut users: Vec<usize> = Vec::new();
        let mut activity: Vec<GitActivity> = Vec::new();
        let mut details: Vec<GitDetails> = Vec::new();
        let ghost mut positions: Seq<int> = Seq::empty();
        let mut k: usize = 0;
        proof {
            assert(hv.take(0) =~= Seq::<FileHistoryEntryView>::empty());
            assert(activity_view(activity@) =~= Seq::<GitActivityView>::empty());
            assert(details_view(details@) =~= Seq::<GitDetailsView>::empty());
        }
        while k < n
            invariant
                dictionary.wf(),
                n == history@.len(),
                n >= 1,
                k <= n,
                df == dictionary@,
                hv == history@.map_values(|e: FileHistoryEntry| e@),
                forall|j: int| 0 <= j < n ==> entry_keys_present(#[trigger] hv[j], df),
                sorted_ids(users@),
                forall|y: usize|
                    users@.contains(y) <==> exists|j: int|
                        0 <= j < k && changer_set(#[trigger] hv[j], df).contains(y),
                activity@.len() == k,
                activity_sorted(activity_view(activity@)),
                positions.len() == k,
                forall|j: int| 0 <= j < k ==> 0 <= #[trigger] positions[j] < k,
                forall|j1: int, j2: int| 0 <= j1 < j2 < k ==> positions[j1] != positions[j2],
                forall|j: int|
                    0 <= j < k ==> activity_matches(
                        activity_view(activity@)[#[trigger] positions[j]],
                        hv[j],
                        df,
                    ),
                details_sorted(details_view(details@)),
                details_all_ok(details_view(details@), hv.take(k as int), df),
                details_cover(details_view(details@), hv.take(k as int), df),
            decreases n - k,
        {
            let entry = &history[k];
            proof {
                assert(entry@ == hv[k as int]);
            }
            let uc = GitHistories::unique_changers(entry, dictionary);
            proof {
                lemma_reg_entry_noop(df, hv[k as int]);
                assert(dictionary@ == df);
            }

            // fold this entry's users into the overall set
            let ghost users_prev = users@;
            merge_ids(&mut users, &uc);
            proof {
                let kset = changer_set(hv[k as int], df);
                assert forall|y: usize| users@.contains(y) implies exists|j: int|
                    0 <= j < k + 1 && changer_set(#[trigger] hv[j], df).contains(y) by {
                    if users_prev.contains(y) {
                        let j = choose|j: int|
                            0 <= j < k && changer_set(#[trigger] hv[j], df).contains(y);
                        assert(0 <= j < k + 1 && changer_set(hv[j], df).contains(y));
                    } else {
                        assert(uc@.contains(y));
                        assert(kset.contains(y));
                        assert(changer_set(hv[k as int], df).contains(y));
                    }
                }
                assert forall|y: usize|
                    (exists|j: int| 0 <= j < k + 1 && changer_set(#[trigger] hv[j], df).contains(
                        y,
                    )) implies users@.contains(y) by {
                    let j = choose|j: int|
                        0 <= j < k + 1 && changer_set(#[trigger] hv[j], df).contains(y);
                    if j < k {
                        assert(users_prev.contains(y));
                    } else {
                        assert(kset.contains(y));
                        assert(uc@.contains(y));
                    }
                }
            }

            // record the fine-grained activity, in commit-time order
            let act = GitActivity {
                author_time: entry.author_time,
                commit_time: entry.commit_time,
                users: copy_ids(&uc),
                change: entry.change,
                lines_added: entry.lines_added,
                lines_deleted: entry.lines_deleted,
            };
            let ghost actv = act@;
            let ghost avb = activity_view(activity@);
            let pos = insert_activity(&mut activity, act);
            proof {
                let avn = activity_view(activity@);
                assert(avn == avb.insert(pos as int, actv));
                // where every element ended up after the insertion
                assert(avn[pos as int] == actv) by {
                    lemma_insert_index(avb, pos as int, actv);
                }
                assert(forall|q: int| 0 <= q < pos ==> #[trigger] avn[q] == avb[q]) by {
                    lemma_insert_index(avb, pos as int, actv);
                }
                assert(forall|q: int|
                    pos <= q < avb.len() ==> #[trigger] avn[q + 1] == avb[q]) by {
                    lemma_insert_index(avb, pos as int, actv);
                }
                let old_pos = positions;
                positions = Seq::new(
                    k as nat,
                    |j: int|
                        if old_pos[j] >= pos {
                            old_pos[j] + 1
                        } else {
                            old_pos[j]
                        },
                ).push(pos as int);
                assert forall|j: int| 0 <= j < k + 1 implies 0 <= #[trigger] positions[j] < k
                    + 1 by {
                    if j < k {
                        assert(0 <= old_pos[j] < k);
                    }
                }
                assert forall|j1: int, j2: int| 0 <= j1 < j2 < k + 1 implies positions[j1]
                    != positions[j2] by {
                    if j2 == k {
                        if old_pos[j1] >= pos {
                            assert(positions[j1] == old_pos[j1] + 1);
                        } else {
                            assert(positions[j1] == old_pos[j1]);
                        }
                    } else {
                        assert(old_pos[j1] != old_pos[j2]);
                    }
                }
                assert forall|j: int| 0 <= j < k + 1 implies activity_matches(
                    avn[#[trigger] positions[j]],
                    hv[j],
                    df,
                ) by {
                    if j < k {
                        assert(activity_matches(avb[old_pos[j]], hv[j], df));
                        if old_pos[j] >= pos {
                            assert(avn[old_pos[j] + 1] == avb[old_pos[j]]);
                        } else {
                            assert(avn[old_pos[j]] == avb[old_pos[j]]);
                        }
                    } else {
                        assert(avn[pos as int] == actv);
                        assert(activity_matches(actv, hv[k as int], df)) by {
                            assert(uc@.to_set() =~= changer_set(hv[k as int], df)) by {
                                assert(forall|y: usize|
                                    uc@.contains(y) <==> changer_set(hv[k as int], df).contains(
                                        y,
                                    ));
                            }
                        }
                    }
                }
            }

            // fold the entry into its day-and-users summary
            let day = start_of_day(entry.author_time);
            let ghost key_set = changer_set(hv[k as int], df);
            proof {
                assert(uc@.to_set() =~= key_set) by {
                    assert(forall|y: usize| uc@.contains(y) <==> key_set.contains(y));
                }
            }
            let ghost dl = details_view(details@);
            upsert_detail(
                &mut details,
                day,
                uc,
                entry.lines_added,
                entry.lines_deleted,
                Ghost(hv.take(k as int)),
                Ghost(df),
                Ghost(hv[k as int]),
            );
            proof {
                assert(hv.take(k + 1) =~= hv.take(k as int).push(hv[k as int]));
            }
            k += 1;
        }
        proof {
            assert(hv.take(n as int) =~= hv);
            assert(all_changers(hv, df) =~= Set::<usize>::new(
                |y: usize|
                    exists|j: int|
                        0 <= j < hv.len() && changer_set(#[trigger] hv[j], df).contains(y),
            ));
            assert(activity_maps(positions, activity_view(activity@), hv, df));
        }

        let user_count = users.len();
        Option::Some(
            GitData {
                last_update,
                age_in_days,
                creation_date: creation,
                user_count,
                users,
                details,
                activity,
            },
        )
    }
}

/// First pass: intern every user the history names, in entry order.
fn register_history(dictionary: &mut GitUserDictionary, history: &Vec<FileHistoryEntry>)
    requires
        old(dictionary).wf(),
    ensures
        final(dictionary).wf(),
        final(dictionary)@ == reg_history(
            old(dictionary)@,
            history@.map_values(|e: FileHistoryEntry| e@),
        ),
        forall|j: int|
            0 <= j < history@.len() ==> entry_keys_present(
                (#[trigger] history@[j])@,
                final(dictionary)@,
            ),
{
    let ghost d0 = dictionary@;
    let ghost hv = history@.map_values(|e: FileHistoryEntry| e@);
    let n = history.len();
    let mut k: usize = 0;
    proof {
        assert(hv.take(0) =~= Seq::<FileHistoryEntryView>::empty());
    }
    while k < n
        invariant
            dictionary.wf(),
            n == history@.len(),
            k <= n,
            d0 == old(dictionary)@,
            hv == history@.map_values(|e: FileHistoryEntry| e@),
            dictionary@ == reg_history(d0, hv.take(k as int)),
            forall|j: int| 0 <= j < k ==> entry_keys_present(#[trigger] hv[j], dictionary@),
        decreases n - k,
    {
        let ghost dprev = dictionary@;
        let entry = &history[k];
        let uc = GitHistories::unique_changers(entry, dictionary);
        proof {
            assert(hv.take(k + 1).drop_last() =~= hv.take(k as int));
            assert(hv.take(k + 1).last() == hv[k as int]);
            assert(entry@ == hv[k as int]);
            lemma_reg_users_extends(dprev, sorted_users(users_of_entry(hv[k as int])));
            assert forall|j: int| 0 <= j < k implies entry_keys_present(
                #[trigger] hv[j],
                dictionary@,
            ) by {
                lemma_changer_set_stable(hv[j], dprev, dictionary@);
            }
        }
        k += 1;
    }
    proof {
        assert(hv.take(n as int) =~= hv);
        assert(forall|j: int|
            0 <= j < history@.len() ==> (#[trigger] history@[j])@ == hv[j]);
    }
}

/// Registering an entry whose user keys are all known changes nothing.
proof fn lemma_reg_entry_noop(d: Seq<UserView>, e: FileHistoryEntryView)
    requires
        entry_keys_present(e, d),
    ensures
        reg_entry(d, e) == d,
{
    let su = sorted_users(users_of_entry(e));
    assert forall|i: int| 0 <= i < su.len() implies has_key(d, user_key(#[trigger] su[i])) by {
        lemma_sorted_users_membership(users_of_entry(e), su[i]);
        assert(su.contains(su[i]));
        let w = choose|w: int|
            0 <= w < users_of_entry(e).len() && users_of_entry(e)[w] == su[i];
    }
    lemma_reg_users_noop(d, su);
}

proof fn lemma_reg_users_noop(d: Seq<UserView>, us: Seq<UserView>)
    requires
        forall|i: int| 0 <= i < us.len() ==> has_key(d, user_key(#[trigger] us[i])),
    ensures
        reg_users(d, us) == d,
    decreases us.len(),
{
    if us.len() > 0 {
        assert(forall|i: int|
            0 <= i < us.drop_last().len() ==> #[trigger] us.drop_last()[i] == us[i]);
        lemma_reg_users_noop(d, us.drop_last());
        assert(us[us.len() - 1] == us.last());
    }
}

/// Second pass: the newest commit time, and the creation date when it can be
/// trusted.
fn time_stats(history: &Vec<FileHistoryEntry>) -> (r: (u64, Option<u64>))
    requires
        history@.len() >= 1,
    ensures
        ({
            let h = history@.map_values(|e: FileHistoryEntry| e@);
            r.0 == max_commit_of(h) && r.1 == creation_of(h)
        }),
{
    let ghost hv = history@.map_values(|e: FileHistoryEntry| e@);
    let mut last_update: u64 = 0;
    let mut min_author: u64 = u64::MAX;
    let mut min_add: Option<u64> = Option::None;
    let n = history.len();
    let mut k: usize = 0;
    proof {
        assert(hv.take(0) =~= Seq::<FileHistoryEntryView>::empty());
    }
    while k < n
        invariant
            n == history@.len(),
            k <= n,
            hv == history@.map_values(|e: FileHistoryEntry| e@),
            last_update == max_commit_of(hv.take(k as int)),
            min_author == min_author_of(hv.take(k as int)),
            min_add == min_add_author(hv.take(k as int)),
        decreases n - k,
    {
        let entry = &history[k];
        proof {
            assert(entry@ == hv[k as int]);
            assert(hv.take(k + 1).drop_last() =~= hv.take(k as int));
            assert(hv.take(k + 1).last() == hv[k as int]);
        }
        if entry.commit_time > last_update {
            last_update = entry.commit_time;
        }
        if entry.author_time < min_author {
            min_author = entry.author_time;
        }
        if matches!(entry.change, CommitChange::Add) {
            min_add = match min_add {
                Option::None => Option::Some(entry.author_time),
                Option::Some(m) => if entry.author_time < m {
                    Option::Some(entry.author_time)
                } else {
                    Option::Some(m)
                },
            };
        }
        k += 1;
    }
    proof {
        assert(hv.take(n as int) =~= hv);
    }
    let creation = match min_add {
        Option::None => Option::None,
        Option::Some(c) => if min_author < c {
            Option::None
        } else {
            Option::Some(c)
        },
    };
    (last_update, creation)
}

/// Everyone who changed any entry of the history.
pub open spec fn all_changers(h: Seq<FileHistoryEntryView>, d: Seq<UserView>) -> Set<usize> {
    Set::new(
        |y: usize| exists|j: int| 0 <= j < h.len() && changer_set(#[trigger] h[j], d).contains(y),
    )
}

proof fn lemma_max_commit_bound(
    hv: Seq<FileHistoryEntryView>,
    h: Seq<FileHistoryEntry>,
    last_commit: u64,
)
    requires
        hv == h.map_values(|e: FileHistoryEntry| e@),
        forall|j: int| 0 <= j < h.len() ==> (#[trigger] h[j])@.commit_time <= last_commit,
    ensures
        max_commit_of(hv) <= last_commit,
    decreases hv.len(),
{
    if hv.len() > 0 {
        assert(hv.drop_last() =~= h.drop_last().map_values(|e: FileHistoryEntry| e@));
        lemma_max_commit_bound(hv.drop_last(), h.drop_last(), last_commit);
        assert(hv.last() == h[h.len() - 1]@);
    }
}


/// How an insertion rearranges a sequence: everything before the slot
/// stays, the new element sits at the slot, everything from the slot on
/// moves up one.
proof fn lemma_insert_index<A>(s: Seq<A>, i: int, a: A)
    requires
        0 <= i <= s.len(),
    ensures
        s.insert(i, a).len() == s.len() + 1,
        s.insert(i, a)[i] == a,
        forall|q: int| 0 <= q < i ==> #[trigger] s.insert(i, a)[q] == s[q],
        forall|q: int| i <= q < s.len() ==> #[trigger] s.insert(i, a)[q + 1] == s[q],
{
}

/// Place one activity record at its commit-time position, keeping the list
/// ascending; equal times keep their arrival order.
#[verifier::loop_isolation(false)]
fn insert_activity(activity: &mut Vec<GitActivity>, act: GitActivity) -> (pos: usize)
    requires
        activity_sorted(activity_view(old(activity)@)),
    ensures
        pos <= old(activity)@.len(),
        final(activity)@.len() == old(activity)@.len() + 1,
        activity_view(final(activity)@) == activity_view(old(activity)@).insert(
            pos as int,
            act@,
        ),
        activity_sorted(activity_view(final(activity)@)),
{
    let ghost avb = activity_view(activity@);
    let n = activity.len();
    let mut pos: usize = n;
    while pos > 0 && activity[pos - 1].commit_time > act.commit_time
        invariant
            pos <= n,
            forall|q: int| pos <= q < n ==> avb[q].commit_time > act@.commit_time,
        decreases pos,
    {
        pos -= 1;
    }
    activity.insert(pos, act);
    proof {
        let avn = activity_view(activity@);
        assert(avn =~= avb.insert(pos as int, act@)) by {
            lemma_insert_index(avb, pos as int, act@);
            assert(forall|q: int|
                0 <= q < pos ==> #[trigger] avn[q] == activity@[q]@ && activity@[q]
                    == old(activity)@[q]);
            assert(forall|q: int|
                pos < q < avn.len() ==> #[trigger] avn[q] == activity@[q]@ && activity@[q]
                    == old(activity)@[q - 1]);
        }
        lemma_insert_index(avb, pos as int, act@);
        assert forall|a: int, b: int| 0 <= a < b < avn.len() implies avn[a].commit_time
            <= avn[b].commit_time by {
            let a0: int = if a < pos {
                a
            } else {
                a - 1
            };
            let b0: int = if b < pos {
                b
            } else {
                b - 1
            };
            if a == pos && b > pos {
                assert(avn[b] == avb[b - 1]);
                assert(avb[b - 1].commit_time > act@.commit_time);
            } else if b == pos && a < pos {
                assert(avn[a] == avb[a]);
                if a < pos - 1 {
                    assert(avb[a].commit_time <= avb[pos - 1].commit_time);
                }
                assert(!(avb[pos - 1].commit_time > act@.commit_time));
            } else if a != pos && b != pos {
                assert(avn[a] == avb[a0]);
                assert(avn[b] == avb[b0]);
                if a0 < b0 {
                    assert(avb[a0].commit_time <= avb[b0].commit_time);
                }
            }
        }
    }
    pos
}

/// Add one entry's contribution to the summary with its key, creating the
/// summary in order when the key is new.
/// The would-be summary for the new key, used only for ordering.
pub open spec fn fresh_detail_view(day: u64, uc: Seq<usize>) -> GitDetailsView {
    GitDetailsView { commit_day: day, users: uc, commits: 0, lines_added: 0, lines_deleted: 0 }
}

#[verifier::rlimit(50)]
fn upsert_detail(
    details: &mut Vec<GitDetails>,
    day: u64,
    uc: Vec<usize>,
    lines_added: u64,
    lines_deleted: u64,
    Ghost(hp): Ghost<Seq<FileHistoryEntryView>>,
    Ghost(d): Ghost<Seq<UserView>>,
    Ghost(e): Ghost<FileHistoryEntryView>,
)
    requires
        day % SECONDS_PER_DAY == 0,
        sorted_ids(uc@),
        hp.len() < u64::MAX,
        matches_key(e, d, day, uc@.to_set()),
        e.lines_added == lines_added,
        e.lines_deleted == lines_deleted,
        details_sorted(details_view(old(details)@)),
        details_all_ok(details_view(old(details)@), hp, d),
        details_cover(details_view(old(details)@), hp, d),
    ensures
        details_sorted(details_view(final(details)@)),
        details_all_ok(details_view(final(details)@), hp.push(e), d),
        details_cover(details_view(final(details)@), hp.push(e), d),
{
    let ghost dl = details_view(details@);
    let n = details.len();
    let mut pos: usize = 0;
    while pos < n && (details[pos].commit_day < day || (details[pos].commit_day == day
        && ids_before(&details[pos].users, &uc)))
        invariant
            details@ == old(details)@,
            dl == details_view(details@),
            n == details@.len(),
            pos <= n,
            forall|j: int| 0 <= j < pos ==> detail_lt(#[trigger] dl[j], fresh_detail_view(day, uc@)),
        decreases n - pos,
    {
        pos += 1;
    }
    if pos < n && details[pos].commit_day == day && ids_eq(&details[pos].users, &uc) {
        proof {
            assert(dl[pos as int].users == uc@);
            assert(matches_key(e, d, dl[pos as int].commit_day, dl[pos as int].users.to_set()));
        }
        bump_detail(details, pos, lines_added, lines_deleted, Ghost(hp), Ghost(d), Ghost(e));
    } else {
        insert_detail_at(
            details,
            pos,
            day,
            uc,
            lines_added,
            lines_deleted,
            Ghost(hp),
            Ghost(d),
            Ghost(e),
        );
    }
}

/// An existing summary absorbs one more entry with its key.
#[verifier::rlimit(100)]
fn bump_detail(
    details: &mut Vec<GitDetails>,
    pos: usize,
    lines_added: u64,
    lines_deleted: u64,
    Ghost(hp): Ghost<Seq<FileHistoryEntryView>>,
    Ghost(d): Ghost<Seq<UserView>>,
    Ghost(e): Ghost<FileHistoryEntryView>,
)
    requires
        pos < old(details)@.len(),
        hp.len() < u64::MAX,
        matches_key(
            e,
            d,
            details_view(old(details)@)[pos as int].commit_day,
            details_view(old(details)@)[pos as int].users.to_set(),
        ),
        e.lines_added == lines_added,
        e.lines_deleted == lines_deleted,
        details_sorted(details_view(old(details)@)),
        details_all_ok(details_view(old(details)@), hp, d),
        details_cover(details_view(old(details)@), hp, d),
    ensures
        details_sorted(details_view(final(details)@)),
        details_all_ok(details_view(final(details)@), hp.push(e), d),
        details_cover(details_view(final(details)@), hp.push(e), d),
{
    let ghost dl = details_view(details@);
    let ghost oldd = dl[pos as int];
    let ghost day = oldd.commit_day;
    let ghost key_set = oldd.users.to_set();
    proof {
        reveal(detail_ok);
        assert(detail_ok(dl[pos as int], hp, d));
        lemma_count_le_len(hp, d, day, key_set);
    }
    let mut pair = details.remove(pos);
    pair.commits = pair.commits + 1;
    pair.lines_added = pair.lines_added.saturating_add(lines_added);
    pair.lines_deleted = pair.lines_deleted.saturating_add(lines_deleted);
    details.insert(pos, pair);
    proof {
        let dln = details_view(details@);
        assert(dln =~= dl.update(
            pos as int,
            GitDetailsView {
                commit_day: oldd.commit_day,
                users: oldd.users,
                commits: (oldd.commits + 1) as u64,
                lines_added: sat_add(oldd.lines_added, lines_added),
                lines_deleted: sat_add(oldd.lines_deleted, lines_deleted),
            },
        )) by {
            assert(forall|j: int| 0 <= j < dln.len() && j != pos ==> #[trigger] dln[j] == dl[j]);
        }
        lemma_bump_post(dl, dln, hp, d, e, pos as int, day, key_set);
    }
}

/// After bumping the summary at `pos`, everything the caller needs holds.
proof fn lemma_bump_post(
    dl: Seq<GitDetailsView>,
    dln: Seq<GitDetailsView>,
    hp: Seq<FileHistoryEntryView>,
    d: Seq<UserView>,
    e: FileHistoryEntryView,
    pos: int,
    day: u64,
    key_set: Set<usize>,
)
    requires
        0 <= pos < dl.len(),
        dln.len() == dl.len(),
        hp.len() < u64::MAX,
        matches_key(e, d, day, key_set),
        day == dl[pos].commit_day,
        key_set == dl[pos].users.to_set(),
        details_sorted(dl),
        details_all_ok(dl, hp, d),
        details_cover(dl, hp, d),
        dln[pos] == (GitDetailsView {
            commit_day: dl[pos].commit_day,
            users: dl[pos].users,
            commits: (dl[pos].commits + 1) as u64,
            lines_added: sat_add(dl[pos].lines_added, e.lines_added),
            lines_deleted: sat_add(dl[pos].lines_deleted, e.lines_deleted),
        }),
        dl[pos].commits + 1 <= u64::MAX,
        forall|j: int| 0 <= j < dln.len() && j != pos ==> #[trigger] dln[j] == dl[j],
    ensures
        details_sorted(dln),
        details_all_ok(dln, hp.push(e), d),
        details_cover(dln, hp.push(e), d),
{
    assert forall|i1: int, i2: int| 0 <= i1 < i2 < dln.len() implies detail_lt(
        #[trigger] dln[i1],
        #[trigger] dln[i2],
    ) by {
        assert(dln[i1].commit_day == dl[i1].commit_day && dln[i1].users == dl[i1].users);
        assert(dln[i2].commit_day == dl[i2].commit_day && dln[i2].users == dl[i2].users);
        assert(detail_lt(dl[i1], dl[i2]));
    }
    assert forall|i: int| 0 <= i < dln.len() implies detail_ok(#[trigger] dln[i], hp.push(e), d) by {
        assert(hp.push(e).drop_last() =~= hp);
        assert(detail_ok(dl[i], hp, d));
        lemma_detail_update(dl, dln, hp, hp.push(e), d, i, pos, day, key_set);
    }
    assert forall|j: int| 0 <= j < hp.push(e).len() implies exists|i: int|
        0 <= i < dln.len() && matches_key(
            #[trigger] hp.push(e)[j],
            d,
            dln[i].commit_day,
            dln[i].users.to_set(),
        ) by {
        if j < hp.len() {
            assert(hp.push(e)[j] == hp[j]);
            let i = choose|i: int|
                0 <= i < dl.len() && matches_key(
                    #[trigger] hp[j],
                    d,
                    dl[i].commit_day,
                    dl[i].users.to_set(),
                );
            assert(dln[i].commit_day == dl[i].commit_day && dln[i].users == dl[i].users);
            assert(matches_key(hp.push(e)[j], d, dln[i].commit_day, dln[i].users.to_set()));
        } else {
            assert(hp.push(e)[j] == e);
            assert(matches_key(hp.push(e)[j], d, dln[pos].commit_day, dln[pos].users.to_set()));
        }
    }
}

/// A fresh summary for a key no stored summary carries, inserted in order.
#[verifier::rlimit(50)]
fn insert_detail_at(
    details: &mut Vec<GitDetails>,
    pos: usize,
    day: u64,
    uc: Vec<usize>,
    lines_added: u64,
    lines_deleted: u64,
    Ghost(hp): Ghost<Seq<FileHistoryEntryView>>,
    Ghost(d): Ghost<Seq<UserView>>,
    Ghost(e): Ghost<FileHistoryEntryView>,
)
    requires
        day % SECONDS_PER_DAY == 0,
        sorted_ids(uc@),
        matches_key(e, d, day, uc@.to_set()),
        e.lines_added == lines_added,
        e.lines_deleted == lines_deleted,
        pos <= old(details)@.len(),
        forall|j: int|
            0 <= j < pos ==> detail_lt(
                #[trigger] details_view(old(details)@)[j],
                fresh_detail_view(day, uc@),
            ),
        pos < old(details)@.len() ==> !(details_view(old(details)@)[pos as int].commit_day < day
            || (details_view(old(details)@)[pos as int].commit_day == day && ids_lex_lt(
            details_view(old(details)@)[pos as int].users,
            uc@,
        ))),
        pos < old(details)@.len() ==> !(details_view(old(details)@)[pos as int].commit_day == day
            && details_view(old(details)@)[pos as int].users == uc@),
        details_sorted(details_view(old(details)@)),
        details_all_ok(details_view(old(details)@), hp, d),
        details_cover(details_view(old(details)@), hp, d),
    ensures
        details_sorted(details_view(final(details)@)),
        details_all_ok(details_view(final(details)@), hp.push(e), d),
        details_cover(details_view(final(details)@), hp.push(e), d),
{
    let ghost dl = details_view(details@);
    let new_detail = GitDetails { commit_day: day, users: uc, commits: 1, lines_added, lines_deleted };
    details.insert(pos, new_detail);
    proof {
        let dln = details_view(details@);
        assert(dln.len() == dl.len() + 1);
        assert(forall|j: int| 0 <= j < pos ==> #[trigger] dln[j] == dl[j]);
        assert(forall|j: int| pos < j < dln.len() ==> #[trigger] dln[j] == dl[j - 1]);
        assert(dln[pos as int] == (GitDetailsView {
            commit_day: day,
            users: dln[pos as int].users,
            commits: 1,
            lines_added,
            lines_deleted,
        }));
        assert(dln[pos as int].users == details@[pos as int].users@);
        lemma_insert_post(dl, dln, hp, d, e, pos as int, day, dln[pos as int].users);
    }
}

/// After inserting a fresh summary at the scan position, everything the
/// caller needs holds.
#[verifier::rlimit(50)]
proof fn lemma_insert_post(
    dl: Seq<GitDetailsView>,
    dln: Seq<GitDetailsView>,
    hp: Seq<FileHistoryEntryView>,
    d: Seq<UserView>,
    e: FileHistoryEntryView,
    pos: int,
    day: u64,
    uc: Seq<usize>,
)
    requires
        day % SECONDS_PER_DAY == 0,
        sorted_ids(uc),
        matches_key(e, d, day, uc.to_set()),
        0 <= pos <= dl.len(),
        dln.len() == dl.len() + 1,
        forall|j: int| 0 <= j < pos ==> #[trigger] dln[j] == dl[j],
        forall|j: int| pos < j < dln.len() ==> #[trigger] dln[j] == dl[j - 1],
        dln[pos] == (GitDetailsView {
            commit_day: day,
            users: uc,
            commits: 1,
            lines_added: e.lines_added,
            lines_deleted: e.lines_deleted,
        }),
        forall|j: int| 0 <= j < pos ==> detail_lt(#[trigger] dl[j], fresh_detail_view(day, uc)),
        pos < dl.len() ==> !(dl[pos].commit_day < day || (dl[pos].commit_day == day && ids_lex_lt(
            dl[pos].users,
            uc,
        ))),
        pos < dl.len() ==> !(dl[pos].commit_day == day && dl[pos].users == uc),
        details_sorted(dl),
        details_all_ok(dl, hp, d),
        details_cover(dl, hp, d),
    ensures
        details_sorted(dln),
        details_all_ok(dln, hp.push(e), d),
        details_cover(dln, hp.push(e), d),
{
    reveal(detail_ok);
    let key_set = uc.to_set();
    assert forall|i: int| 0 <= i < dl.len() implies sorted_ids((#[trigger] dl[i]).users) by {
        assert(detail_ok(dl[i], hp, d));
    }
    lemma_fresh_key_distinct(dl, pos, day, uc, key_set);
    lemma_insert_sorted_details(dl, dln, pos, day, uc);
    assert forall|j: int| 0 <= j < hp.len() implies !matches_key(
        #[trigger] hp[j],
        d,
        day,
        key_set,
    ) by {
        if matches_key(hp[j], d, day, key_set) {
            let w = choose|w: int|
                0 <= w < dl.len() && matches_key(
                    hp[j],
                    d,
                    (#[trigger] dl[w]).commit_day,
                    dl[w].users.to_set(),
                );
            assert(dl[w].commit_day == entry_day(hp[j]));
            assert(dl[w].users.to_set() == changer_set(hp[j], d));
            assert(dl[w].commit_day == day && dl[w].users.to_set() == key_set);
        }
    }
    lemma_no_match_counts(hp, d, day, key_set);
    assert forall|i: int| 0 <= i < dln.len() implies detail_ok(#[trigger] dln[i], hp.push(e), d) by {
        let hk = hp.push(e);
        assert(hk.drop_last() =~= hp);
        if i == pos {
            assert(count_key(hk, d, day, key_set) == 1);
            assert(sum_added_key(hk, d, day, key_set) == sat_add(0, e.lines_added));
            assert(sum_deleted_key(hk, d, day, key_set) == sat_add(0, e.lines_deleted));
            assert(matches_key(hk[hk.len() - 1], d, day, key_set));
        } else {
            let iold: int = if i < pos { i } else { i - 1 };
            assert(dln[i] == dl[iold]);
            assert(detail_ok(dl[iold], hp, d));
            assert(!(dl[iold].commit_day == day && dl[iold].users.to_set() == key_set));
            lemma_detail_other(dl, hp, hk, d, iold, day, key_set);
        }
    }
    assert forall|j: int| 0 <= j < hp.push(e).len() implies exists|i: int|
        0 <= i < dln.len() && matches_key(
            #[trigger] hp.push(e)[j],
            d,
            dln[i].commit_day,
            dln[i].users.to_set(),
        ) by {
        if j < hp.len() {
            assert(hp.push(e)[j] == hp[j]);
            let i = choose|i: int|
                0 <= i < dl.len() && matches_key(
                    #[trigger] hp[j],
                    d,
                    dl[i].commit_day,
                    dl[i].users.to_set(),
                );
            let i2: int = if i < pos { i } else { i + 1 };
            assert(dln[i2] == dl[i]);
            assert(matches_key(hp.push(e)[j], d, dln[i2].commit_day, dln[i2].users.to_set()));
        } else {
            assert(hp.push(e)[j] == e);
            assert(dln[pos].users.to_set() == key_set);
            assert(matches_key(hp.push(e)[j], d, dln[pos].commit_day, dln[pos].users.to_set()));
        }
    }
}

/// No stored summary carries the fresh key, because the scan stopped where
/// the order says it would have to be.
proof fn lemma_fresh_key_distinct(
    dl: Seq<GitDetailsView>,
    pos: int,
    day: u64,
    uc: Seq<usize>,
    key_set: Set<usize>,
)
    requires
        sorted_ids(uc),
        key_set == uc.to_set(),
        0 <= pos <= dl.len(),
        forall|i: int| 0 <= i < dl.len() ==> sorted_ids((#[trigger] dl[i]).users),
        details_sorted(dl),
        forall|j: int| 0 <= j < pos ==> detail_lt(#[trigger] dl[j], fresh_detail_view(day, uc)),
        pos < dl.len() ==> !(dl[pos].commit_day < day || (dl[pos].commit_day == day && ids_lex_lt(
            dl[pos].users,
            uc,
        ))),
        pos < dl.len() ==> !(dl[pos].commit_day == day && dl[pos].users == uc),
    ensures
        forall|j: int|
            0 <= j < dl.len() ==> !((#[trigger] dl[j]).commit_day == day && dl[j].users.to_set()
                == key_set),
{
    assert forall|j: int| 0 <= j < dl.len() implies !((#[trigger] dl[j]).commit_day == day && dl[
        j].users.to_set() == key_set) by {
        if dl[j].commit_day == day && dl[j].users.to_set() == key_set {
            assert forall|x: usize| dl[j].users.contains(x) <==> uc.contains(x) by {
                assert(dl[j].users.to_set().contains(x) == uc.to_set().contains(x));
            }
            lemma_sorted_ids_canonical(dl[j].users, uc);
            assert(dl[j].users == uc);
            if j < pos {
                assert(detail_lt(dl[j], fresh_detail_view(day, uc)));
                lemma_ids_lex_irrefl(uc);
            } else if j == pos {
                assert(false);
            } else {
                assert(detail_lt(dl[pos], dl[j]));
                lemma_ids_lex_trichotomy(dl[pos].users, uc);
                if dl[pos].commit_day == day {
                    assert(ids_lex_lt(uc, dl[pos].users));
                    assert(ids_lex_lt(dl[pos].users, dl[j].users));
                    lemma_ids_lex_trans(uc, dl[pos].users, dl[j].users);
                    lemma_ids_lex_irrefl(uc);
                } else {
                    assert(dl[pos].commit_day > day);
                }
            }
        }
    }
}

/// Inserting the fresh summary at the scan position keeps the list strictly
/// ascending.
proof fn lemma_insert_sorted_details(
    dl: Seq<GitDetailsView>,
    dln: Seq<GitDetailsView>,
    pos: int,
    day: u64,
    uc: Seq<usize>,
)
    requires
        0 <= pos <= dl.len(),
        dln.len() == dl.len() + 1,
        forall|j: int| 0 <= j < pos ==> #[trigger] dln[j] == dl[j],
        forall|j: int| pos < j < dln.len() ==> #[trigger] dln[j] == dl[j - 1],
        dln[pos].commit_day == day && dln[pos].users == uc,
        details_sorted(dl),
        forall|j: int| 0 <= j < pos ==> detail_lt(#[trigger] dl[j], fresh_detail_view(day, uc)),
        pos < dl.len() ==> !(dl[pos].commit_day < day || (dl[pos].commit_day == day && ids_lex_lt(
            dl[pos].users,
            uc,
        ))),
        pos < dl.len() ==> !(dl[pos].commit_day == day && dl[pos].users == uc),
    ensures
        details_sorted(dln),
{
    assert forall|i1: int, i2: int| 0 <= i1 < i2 < dln.len() implies detail_lt(
        #[trigger] dln[i1],
        #[trigger] dln[i2],
    ) by {
        if i2 < pos {
        } else if i1 < pos && i2 == pos {
            assert(detail_lt(dl[i1], fresh_detail_view(day, uc)));
        } else if i1 < pos && i2 > pos {
            assert(dln[i2] == dl[i2 - 1]);
            if i2 - 1 == i1 {
                assert(detail_lt(dl[i1], fresh_detail_view(day, uc)));
                assert(pos < dl.len());
                lemma_new_before_tail(dl, pos, day, uc, i2 - 1);
            } else {
                assert(detail_lt(dl[i1], dl[i2 - 1]));
            }
        } else if i1 == pos {
            assert(dln[i2] == dl[i2 - 1]);
            assert(pos <= i2 - 1 < dl.len());
            lemma_new_before_tail(dl, pos, day, uc, i2 - 1);
        } else {
            assert(dln[i1] == dl[i1 - 1]);
            assert(dln[i2] == dl[i2 - 1]);
        }
    }
}

/// The fresh key sorts strictly before every summary at or after the scan
/// position.
proof fn lemma_new_before_tail(
    dl: Seq<GitDetailsView>,
    pos: int,
    day: u64,
    uc: Seq<usize>,
    j: int,
)
    requires
        0 <= pos <= j < dl.len(),
        details_sorted(dl),
        !(dl[pos].commit_day < day || (dl[pos].commit_day == day && ids_lex_lt(dl[pos].users, uc))),
        !(dl[pos].commit_day == day && dl[pos].users == uc),
    ensures
        detail_lt(fresh_detail_view(day, uc), dl[j]),
{
    lemma_ids_lex_trichotomy(dl[pos].users, uc);
    assert(detail_lt(fresh_detail_view(day, uc), dl[pos])) by {
        if dl[pos].commit_day == day {
            assert(!ids_lex_lt(dl[pos].users, uc) && dl[pos].users != uc);
            assert(ids_lex_lt(uc, dl[pos].users));
        }
    }
    if j > pos {
        assert(detail_lt(dl[pos], dl[j]));
        if fresh_detail_view(day, uc).commit_day == dl[pos].commit_day && dl[pos].commit_day == dl[
            j].commit_day {
            lemma_ids_lex_trans(uc, dl[pos].users, dl[j].users);
        }
    }
}

/// When no entry of the history matches a key, its counts are all zero.
proof fn lemma_no_match_counts(
    hp: Seq<FileHistoryEntryView>,
    d: Seq<UserView>,
    day: u64,
    key_set: Set<usize>,
)
    requires
        forall|j: int| 0 <= j < hp.len() ==> !matches_key(#[trigger] hp[j], d, day, key_set),
    ensures
        count_key(hp, d, day, key_set) == 0,
        sum_added_key(hp, d, day, key_set) == 0,
        sum_deleted_key(hp, d, day, key_set) == 0,
    decreases hp.len(),
{
    if hp.len() > 0 {
        assert(forall|j: int|
            0 <= j < hp.drop_last().len() ==> #[trigger] hp.drop_last()[j] == hp[j]);
        lemma_no_match_counts(hp.drop_last(), d, day, key_set);
        assert(hp[hp.len() - 1] == hp.last());
    }
}

/// A summary whose key equals the new entry's key gains exactly that entry.
proof fn lemma_detail_update(
    dl: Seq<GitDetailsView>,
    dln: Seq<GitDetailsView>,
    hp: Seq<FileHistoryEntryView>,
    hk: Seq<FileHistoryEntryView>,
    d: Seq<UserView>,
    i: int,
    pos: int,
    day: u64,
    key_set: Set<usize>,
)
    requires
        0 <= i < dln.len(),
        dln.len() == dl.len(),
        0 <= pos < dl.len(),
        hk.drop_last() == hp,
        hk.len() == hp.len() + 1,
        matches_key(hk.last(), d, day, key_set),
        forall|j: int| 0 <= j < dl.len() ==> detail_ok(#[trigger] dl[j], hp, d),
        dl[pos].commit_day == day,
        dl[pos].users.to_set() == key_set,
        dln[pos] == (GitDetailsView {
            commit_day: dl[pos].commit_day,
            users: dl[pos].users,
            commits: (dl[pos].commits + 1) as u64,
            lines_added: sat_add(dl[pos].lines_added, hk.last().lines_added),
            lines_deleted: sat_add(dl[pos].lines_deleted, hk.last().lines_deleted),
        }),
        dl[pos].commits + 1 <= u64::MAX,
        forall|j: int| 0 <= j < dln.len() && j != pos ==> #[trigger] dln[j] == dl[j],
        forall|i1: int, i2: int|
            0 <= i1 < i2 < dl.len() ==> detail_lt(#[trigger] dl[i1], #[trigger] dl[i2]),
    ensures
        detail_ok(dln[i], hk, d),
{
    reveal(detail_ok);
    assert(hk.drop_last() =~= hp);
    if i == pos {
        assert(count_key(hk, d, day, key_set) == count_key(hp, d, day, key_set) + 1);
        let j0 = hk.len() - 1;
        assert(matches_key(hk[j0], d, day, key_set));
    } else {
        assert(!(dl[i].commit_day == day && dl[i].users.to_set() == key_set)) by {
            if dl[i].commit_day == day && dl[i].users.to_set() == key_set {
                assert(detail_ok(dl[i], hp, d));
                assert(detail_ok(dl[pos], hp, d));
                assert forall|x: usize| dl[i].users.contains(x) <==> dl[pos].users.contains(
                    x,
                ) by {
                    assert(dl[i].users.to_set().contains(x) == dl[pos].users.to_set().contains(x));
                }
                lemma_sorted_ids_canonical(dl[i].users, dl[pos].users);
                if i < pos {
                    assert(detail_lt(dl[i], dl[pos]));
                } else {
                    assert(detail_lt(dl[pos], dl[i]));
                }
                lemma_ids_lex_irrefl(dl[i].users);
            }
        }
        lemma_detail_other(dl, hp, hk, d, i, day, key_set);
    }
}

/// A summary keyed differently from the new entry is untouched by it.
proof fn lemma_detail_other(
    dl: Seq<GitDetailsView>,
    hp: Seq<FileHistoryEntryView>,
    hk: Seq<FileHistoryEntryView>,
    d: Seq<UserView>,
    i: int,
    day: u64,
    key_set: Set<usize>,
)
    requires
        0 <= i < dl.len(),
        hk.drop_last() == hp,
        hk.len() == hp.len() + 1,
        matches_key(hk.last(), d, day, key_set),
        detail_ok(dl[i], hp, d),
        !(dl[i].commit_day == day && dl[i].users.to_set() == key_set),
    ensures
        detail_ok(dl[i], hk, d),
{
    reveal(detail_ok);
    assert(hk.drop_last() =~= hp);
    assert(!matches_key(hk.last(), d, dl[i].commit_day, dl[i].users.to_set()));
    let j = choose|j: int|
        0 <= j < hp.len() && matches_key(#[trigger] hp[j], d, dl[i].commit_day, dl[i].users.to_set());
    assert(hk[j] == hp[j]);
}

/// Drives the git pass: the histories discovered so far and the user
/// dictionary for the whole run. The scanning shell reads repositories and
/// hands the plain history data in.
#[derive(Debug)]
pub struct GitCalculator {
    pub histories: GitHistories,
    pub dictionary: GitUserDictionary,
}

impl GitCalculator {
    pub fn new(config: GitLogConfig) -> (r: Self)
        ensures
            r.histories.git_file_histories@.len() == 0,
            r.histories.git_log_config == config,
            r.dictionary.wf(),
            r.dictionary@ == Seq::<UserView>::empty(),
    {
        GitCalculator {
            histories: GitHistories::new(config),
            dictionary: GitUserDictionary::new(),
        }
    }

    /// The per-file git data for a file with the given history, measured
    /// against the repository's newest commit.
    pub fn stats_for_file(
        &mut self,
        last_commit: u64,
        history: &Vec<FileHistoryEntry>,
    ) -> (r: Option<GitNodeData>)
        requires
            old(self).dictionary.wf(),
            forall|j: int|
                0 <= j < history@.len() ==> (#[trigger] history@[j])@.commit_time <= last_commit,
        ensures
            final(self).dictionary.wf(),
            final(self).dictionary@ == reg_history(
                old(self).dictionary@,
                history@.map_values(|e: FileHistoryEntry| e@),
            ),
            final(self).histories == old(self).histories,
            (r is None) <==> history@.len() == 0,
            r matches Option::Some(nd) ==> (nd matches GitNodeData::File { data } && git_data_ok(
                data@,
                history@.map_values(|e: FileHistoryEntry| e@),
                final(self).dictionary@,
                last_commit,
            )),
    {
        let stats = GitHistories::stats_from_history(&mut self.dictionary, last_commit, history);
        match stats {
            Option::Some(data) => Option::Some(GitNodeData::File { data }),
            Option::None => Option::None,
        }
    }
}

} // verus!
// --- git data types and per-file statistics ---
