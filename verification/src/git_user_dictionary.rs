use vstd::prelude::*;

use crate::git_logger::{user_key, User, UserView};

verus! {

/// Whether some stored user has the given case-insensitive key.
pub open spec fn has_key(d: Seq<UserView>, k: UserView) -> bool {
    exists|i: int| 0 <= i < d.len() && user_key(d[i]) == k
}

/// The first index whose user has the given key; meaningful only when
/// `has_key(d, k)` holds.
pub open spec fn key_index(d: Seq<UserView>, k: UserView) -> int
    decreases d.len(),
{
    if d.len() == 0 {
        0
    } else if user_key(d[0]) == k {
        0
    } else {
        1 + key_index(d.subrange(1, d.len() as int), k)
    }
}

/// What one registration does to the stored users: nothing when the key is
/// already known, else the user is appended with the next id.
pub open spec fn register_spec(d: Seq<UserView>, u: UserView) -> Seq<UserView> {
    if has_key(d, user_key(u)) {
        d
    } else {
        d.push(u)
    }
}

/// The id that one registration returns.
pub open spec fn register_id(d: Seq<UserView>, u: UserView) -> int {
    if has_key(d, user_key(u)) {
        key_index(d, user_key(u))
    } else {
        d.len() as int
    }
}

pub proof fn lemma_key_index_props(d: Seq<UserView>, k: UserView)
    requires
        has_key(d, k),
    ensures
        0 <= key_index(d, k) < d.len(),
        user_key(d[key_index(d, k)]) == k,
        forall|j: int| 0 <= j < key_index(d, k) ==> user_key(d[j]) != k,
    decreases d.len(),
{
    if d.len() == 0 {
    } else if user_key(d[0]) == k {
    } else {
        let rest = d.subrange(1, d.len() as int);
        assert(has_key(rest, k)) by {
            let i = choose|i: int| 0 <= i < d.len() && user_key(d[i]) == k;
            assert(rest[i - 1] == d[i]);
        }
        lemma_key_index_props(rest, k);
        assert forall|j: int| 0 <= j < key_index(d, k) implies user_key(d[j]) != k by {
            if j > 0 {
                assert(d[j] == rest[j - 1]);
            }
        }
    }
}

pub proof fn lemma_key_index_push(d: Seq<UserView>, k: UserView, u: UserView)
    ensures
        has_key(d, k) ==> key_index(d.push(u), k) == key_index(d, k),
        !has_key(d, k) && user_key(u) == k ==> key_index(d.push(u), k) == d.len(),
        has_key(d.push(u), k) == (has_key(d, k) || user_key(u) == k),
    decreases d.len(),
{
    let dp = d.push(u);
    assert(has_key(d, k) ==> has_key(dp, k)) by {
        if has_key(d, k) {
            let i = choose|i: int| 0 <= i < d.len() && user_key(d[i]) == k;
            assert(dp[i] == d[i]);
        }
    }
    assert(user_key(u) == k ==> has_key(dp, k)) by {
        if user_key(u) == k {
            assert(dp[d.len() as int] == u);
        }
    }
    assert(has_key(dp, k) ==> has_key(d, k) || user_key(u) == k) by {
        if has_key(dp, k) {
            let i = choose|i: int| 0 <= i < dp.len() && user_key(dp[i]) == k;
            if i < d.len() {
                assert(d[i] == dp[i]);
            } else {
                assert(dp[i] == u);
            }
        }
    }
    if d.len() == 0 {
    } else {
        let rest = d.subrange(1, d.len() as int);
        lemma_key_index_push(rest, k, u);
        assert(dp.subrange(1, dp.len() as int) =~= rest.push(u));
        if user_key(d[0]) == k {
        } else {
            assert(has_key(d, k) ==> has_key(rest, k)) by {
                if has_key(d, k) {
                    let i = choose|i: int| 0 <= i < d.len() && user_key(d[i]) == k;
                    assert(i > 0);
                    assert(rest[i - 1] == d[i]);
                }
            }
            assert(has_key(rest, k) ==> has_key(d, k)) by {
                if has_key(rest, k) {
                    let i = choose|i: int| 0 <= i < rest.len() && user_key(rest[i]) == k;
                    assert(d[i + 1] == rest[i]);
                }
            }
        }
    }
}

/// Interns users into dense small ids, case-insensitively on both fields.
/// The first-seen casing is the one kept for display; ids are assigned in
/// strictly the order of first registration, starting at 0.
#[derive(Debug)]
pub struct GitUserDictionary {
    /// users by id, in first-seen casing
    users: Vec<User>,
    /// the lowered form of each entry of `users`, kept alongside for lookups
    lower_users: Vec<User>,
}

impl View for GitUserDictionary {
    type V = Seq<UserView>;

    closed spec fn view(&self) -> Seq<UserView> {
        self.users@.map_values(|u: User| u@)
    }
}

impl GitUserDictionary {
    /// The stored lowered forms track the stored users, and no two stored
    /// users share a case-insensitive key.
    pub closed spec fn wf(&self) -> bool {
        &&& self.lower_users@.len() == self.users@.len()
        &&& forall|i: int|
            0 <= i < self.users@.len() ==> #[trigger] self.lower_users@[i]@ == user_key(self@[i])
        &&& forall|i: int, j: int|
            0 <= i < j < self@.len() ==> user_key(#[trigger] self@[i]) != user_key(
                #[trigger] self@[j],
            )
    }

    pub fn new() -> (r: Self)
        ensures
            r.wf(),
            r@ == Seq::<UserView>::empty(),
    {
        let r = GitUserDictionary { users: Vec::new(), lower_users: Vec::new() };
        proof {
            assert(r@ =~= Seq::<UserView>::empty());
        }
        r
    }

    /// The id of the user, assigning the next free id when the user's
    /// case-insensitive key has not been seen before.
    pub fn register(&mut self, user: &User) -> (id: usize)
        requires
            old(self).wf(),
        ensures
            final(self).wf(),
            final(self)@ == register_spec(old(self)@, user@),
            id == register_id(old(self)@, user@),
            id < final(self)@.len(),
            user_key(final(self)@[id as int]) == user_key(user@),
    {
        let ghost d = self@;
        let ghost k = user_key(user@);
        let lower_user = user.as_lower_case();
        let n = self.users.len();
        let mut i: usize = 0;
        while i < n
            invariant
                self.wf(),
                self@ == d,
                d == old(self)@,
                k == user_key(user@),
                n == self.users@.len(),
                i <= n,
                lower_user@ == k,
                forall|j: int| 0 <= j < i ==> user_key(#[trigger] d[j]) != k,
            decreases n - i,
        {
            if self.lower_users[i].same_as(&lower_user) {
                proof {
                    assert(user_key(d[i as int]) == k);
                    lemma_key_index_props(d, k);
                    assert(key_index(d, k) == i) by {
                        let ki = key_index(d, k);
                        if ki < i {
                            assert(user_key(d[ki]) != k);
                        }
                    }
                }
                return i;
            }
            i += 1;
        }
        proof {
            assert(!has_key(d, k));
        }
        self.users.push(user.clone());
        self.lower_users.push(lower_user);
        proof {
            assert(self@ =~= d.push(user@));
            assert forall|a: int, b: int| 0 <= a < b < self@.len() implies user_key(
                #[trigger] self@[a],
            ) != user_key(#[trigger] self@[b]) by {
                if b == d.len() {
                    assert(self@[b] == user@);
                    assert(user_key(d[a]) != k);
                }
            }
        }
        n
    }

    /// The stored (first-seen) user for an id.
    pub fn user_by_id(&self, user_id: usize) -> (r: User)
        requires
            user_id < self@.len(),
        ensures
            r@ == self@[user_id as int],
    {
        self.users[user_id].clone()
    }

    pub fn user_count(&self) -> (r: usize)
        ensures
            r == self@.len(),
    {
        self.users.len()
    }

    /// The id the user already has, if its case-insensitive key is known.
    pub fn user_id(&self, user: &User) -> (r: Option<usize>)
        requires
            self.wf(),
        ensures
            has_key(self@, user_key(user@)) ==> r == Option::Some(
                key_index(self@, user_key(user@)) as usize,
            ),
            !has_key(self@, user_key(user@)) ==> r is None,
    {
        let ghost d = self@;
        let ghost k = user_key(user@);
        let lower_user = user.as_lower_case();
        let n = self.users.len();
        let mut i: usize = 0;
        while i < n
            invariant
                self.wf(),
                self@ == d,
                k == user_key(user@),
                n == self.users@.len(),
                i <= n,
                lower_user@ == k,
                forall|j: int| 0 <= j < i ==> user_key(#[trigger] d[j]) != k,
            decreases n - i,
        {
            if self.lower_users[i].same_as(&lower_user) {
                proof {
                    assert(user_key(d[i as int]) == k);
                    lemma_key_index_props(d, k);
                    assert(key_index(d, k) == i) by {
                        let ki = key_index(d, k);
                        if ki < i {
                            assert(user_key(d[ki]) != k);
                        }
                    }
                }
                return Option::Some(i);
            }
            i += 1;
        }
        Option::None
    }
}

impl Clone for GitUserDictionary {
    fn clone(&self) -> (r: Self)
        ensures
            r@ == self@,
            self.wf() ==> r.wf(),
    {
        let mut users: Vec<User> = Vec::new();
        let mut lower_users: Vec<User> = Vec::new();
        let n = self.users.len();
        let mut i: usize = 0;
        while i < n
            invariant
                n == self.users@.len(),
                i <= n,
                users@.len() == i,
                forall|j: int| 0 <= j < i ==> #[trigger] users@[j]@ == self.users@[j]@,
            decreases n - i,
        {
            users.push(self.users[i].clone());
            i += 1;
        }
        let m = self.lower_users.len();
        let mut i2: usize = 0;
        while i2 < m
            invariant
                m == self.lower_users@.len(),
                i2 <= m,
                lower_users@.len() == i2,
                forall|j: int| 0 <= j < i2 ==> #[trigger] lower_users@[j]@ == self.lower_users@[j]@,
            decreases m - i2,
        {
            lower_users.push(self.lower_users[i2].clone());
            i2 += 1;
        }
        let r = GitUserDictionary { users, lower_users };
        proof {
            assert(r@ =~= self@);
        }
        r
    }
}

/// Law: a user dictionary maps two users to the same id exactly when they
/// compare equal case-insensitively on both name and email. Registering `u1`
/// and then `u2` (in a dictionary with any prior contents) returns equal ids
/// if and only if their keys agree.
pub proof fn lemma_register_case_insensitive(d: Seq<UserView>, u1: UserView, u2: UserView)
    ensures
        register_id(register_spec(d, u1), u2) == register_id(d, u1) <==> user_key(u1) == user_key(
            u2,
        ),
{
    let k1 = user_key(u1);
    let k2 = user_key(u2);
    let id1 = register_id(d, u1);
    let d1 = register_spec(d, u1);
    let id2 = register_id(d1, u2);
    if k1 == k2 {
        if has_key(d, k1) {
            assert(d1 == d);
        } else {
            lemma_key_index_push(d, k1, u1);
        }
    } else {
        if has_key(d, k1) {
            lemma_key_index_props(d, k1);
            if has_key(d1, k2) {
                lemma_key_index_props(d1, k2);
                assert(user_key(d1[id2]) == k2);
                assert(user_key(d1[id1]) == k1);
            }
        } else {
            lemma_key_index_push(d, k2, u1);
            if has_key(d1, k2) {
                lemma_key_index_props(d1, k2);
                assert(user_key(d1[id2]) == k2);
                assert(user_key(d1[id1 as int]) == k1);
            } else {
                assert(id2 == d1.len());
                assert(d1.len() == d.len() + 1);
            }
        }
    }
}

} // verus!
