//! Ascending lists of dictionary ids: ordering, canonicity, and the
//! operations that keep them duplicate-free.

use vstd::prelude::*;

verus! {

/// A strictly ascending id list.
pub open spec fn sorted_ids(s: Seq<usize>) -> bool {
    forall|i: int, j: int| 0 <= i < j < s.len() ==> s[i] < s[j]
}

/// A strictly ascending id list holding exactly the given set.
pub open spec fn ids_represent(s: Seq<usize>, t: Set<usize>) -> bool {
    sorted_ids(s) && (forall|x: usize| s.contains(x) <==> t.contains(x))
}

/// Strict lexicographic order on ascending id lists; the order of the
/// summaries' user sets.
pub open spec fn ids_lex_lt(a: Seq<usize>, b: Seq<usize>) -> bool
    decreases a.len() + b.len(),
{
    if b.len() == 0 {
        false
    } else if a.len() == 0 {
        true
    } else if a[0] < b[0] {
        true
    } else if b[0] < a[0] {
        false
    } else {
        ids_lex_lt(a.drop_first(), b.drop_first())
    }
}

pub proof fn lemma_ids_lex_trichotomy(a: Seq<usize>, b: Seq<usize>)
    ensures
        ids_lex_lt(a, b) || ids_lex_lt(b, a) || a == b,
    decreases a.len() + b.len(),
{
    if b.len() == 0 || a.len() == 0 {
        if a.len() == 0 && b.len() == 0 {
            assert(a =~= b);
        }
    } else if a[0] < b[0] || b[0] < a[0] {
    } else {
        lemma_ids_lex_trichotomy(a.drop_first(), b.drop_first());
        if a.drop_first() == b.drop_first() {
            assert(a.drop_first().len() == b.drop_first().len());
            assert(a.len() == b.len());
            assert forall|i: int| 0 <= i < a.len() implies a[i] == b[i] by {
                if i > 0 {
                    assert(a.drop_first()[i - 1] == b.drop_first()[i - 1]);
                    assert(a.drop_first()[i - 1] == a[i]);
                    assert(b.drop_first()[i - 1] == b[i]);
                }
            }
            assert(a =~= b);
        }
    }
}

pub proof fn lemma_ids_lex_trans(a: Seq<usize>, b: Seq<usize>, c: Seq<usize>)
    requires
        ids_lex_lt(a, b),
        ids_lex_lt(b, c),
    ensures
        ids_lex_lt(a, c),
    decreases a.len() + b.len() + c.len(),
{
    if a.len() == 0 {
    } else if a[0] < b[0] {
        if b[0] <= c[0] {
        }
    } else {
        // heads of a and b are equal here
        if b[0] < c[0] {
        } else {
            lemma_ids_lex_trans(a.drop_first(), b.drop_first(), c.drop_first());
        }
    }
}

pub proof fn lemma_ids_lex_irrefl(a: Seq<usize>)
    ensures
        !ids_lex_lt(a, a),
    decreases a.len(),
{
    if a.len() > 0 {
        lemma_ids_lex_irrefl(a.drop_first());
    }
}

/// Ascending id lists are canonical: the same set gives the same list.
pub proof fn lemma_sorted_ids_canonical(s1: Seq<usize>, s2: Seq<usize>)
    requires
        sorted_ids(s1),
        sorted_ids(s2),
        forall|x: usize| s1.contains(x) <==> s2.contains(x),
    ensures
        s1 == s2,
    decreases s1.len(),
{
    if s1.len() == 0 {
        if s2.len() > 0 {
            assert(s2.contains(s2[0]));
        }
        assert(s1 =~= s2);
    } else {
        assert(s1.contains(s1[0]));
        assert(s2.contains(s1[0]));
        if s2.len() == 0 {
            assert(false);
        }
        let w = choose|w: int| 0 <= w < s2.len() && s2[w] == s1[0];
        assert(s2.contains(s2[0]));
        assert(s1.contains(s2[0]));
        let v = choose|v: int| 0 <= v < s1.len() && s1[v] == s2[0];
        assert(s1[0] == s2[0]) by {
            if w > 0 {
                assert(s2[0] < s2[w]);
            }
            if v > 0 {
                assert(s1[0] < s1[v]);
            }
        }
        let t1 = s1.drop_first();
        let t2 = s2.drop_first();
        assert forall|x: usize| t1.contains(x) implies t2.contains(x) by {
            let i = choose|i: int| 0 <= i < t1.len() && t1[i] == x;
            assert(s1[i + 1] == x);
            assert(s1.contains(x));
            assert(s2.contains(x));
            let j = choose|j: int| 0 <= j < s2.len() && s2[j] == x;
            assert(x > s1[0]);
            if j == 0 {
                assert(false);
            }
            assert(t2[j - 1] == x);
        }
        assert forall|x: usize| t2.contains(x) implies t1.contains(x) by {
            let i = choose|i: int| 0 <= i < t2.len() && t2[i] == x;
            assert(s2[i + 1] == x);
            assert(s2.contains(x));
            assert(s1.contains(x));
            let j = choose|j: int| 0 <= j < s1.len() && s1[j] == x;
            assert(x > s2[0]);
            if j == 0 {
                assert(false);
            }
            assert(t1[j - 1] == x);
        }
        assert(sorted_ids(t1)) by {
            assert(forall|i: int, j: int|
                0 <= i < j < t1.len() ==> #[trigger] t1[i] == s1[i + 1] && #[trigger] t1[j] == s1[j
                    + 1]);
        }
        assert(sorted_ids(t2)) by {
            assert(forall|i: int, j: int|
                0 <= i < j < t2.len() ==> #[trigger] t2[i] == s2[i + 1] && #[trigger] t2[j] == s2[j
                    + 1]);
        }
        lemma_sorted_ids_canonical(t1, t2);
        assert(s1 =~= s2) by {
            assert(forall|i: int| 1 <= i < s1.len() ==> #[trigger] s1[i] == t1[i - 1]);
            assert(forall|i: int| 1 <= i < s2.len() ==> #[trigger] s2[i] == t2[i - 1]);
        }
    }
}

/// Compare two ascending id lists for equality of contents.
pub(crate) fn ids_eq(a: &Vec<usize>, b: &Vec<usize>) -> (r: bool)
    ensures
        r == (a@ == b@),
{
    if a.len() != b.len() {
        proof {
            if a@ == b@ {
                assert(a@.len() == b@.len());
            }
        }
        return false;
    }
    let n = a.len();
    let mut i: usize = 0;
    while i < n
        invariant
            n == a@.len(),
            n == b@.len(),
            i <= n,
            forall|j: int| 0 <= j < i ==> a@[j] == b@[j],
        decreases n - i,
    {
        if a[i] != b[i] {
            proof {
                if a@ == b@ {
                    assert(a@[i as int] == b@[i as int]);
                }
            }
            return false;
        }
        i += 1;
    }
    proof {
        assert(a@ =~= b@);
    }
    true
}

/// Whether the first id list sorts strictly before the second.
pub(crate) fn ids_before(a: &Vec<usize>, b: &Vec<usize>) -> (r: bool)
    ensures
        r == ids_lex_lt(a@, b@),
{
    let alen = a.len();
    let blen = b.len();
    let mut i: usize = 0;
    proof {
        assert(a@.skip(0) =~= a@);
        assert(b@.skip(0) =~= b@);
    }
    loop
        invariant
            i <= alen,
            i <= blen,
            alen == a@.len(),
            blen == b@.len(),
            ids_lex_lt(a@, b@) == ids_lex_lt(a@.skip(i as int), b@.skip(i as int)),
        decreases alen - i,
    {
        proof {
            if i < blen {
                assert(b@.skip(i as int)[0] == b@[i as int]);
            }
            if i < alen {
                assert(a@.skip(i as int)[0] == a@[i as int]);
            }
        }
        if i >= blen {
            proof {
                assert(b@.skip(i as int).len() == 0);
            }
            return false;
        }
        if i >= alen {
            proof {
                assert(a@.skip(i as int).len() == 0);
                assert(b@.skip(i as int).len() > 0);
            }
            return true;
        }
        if a[i] < b[i] {
            return true;
        }
        if b[i] < a[i] {
            return false;
        }
        proof {
            assert(a@.skip(i as int).drop_first() =~= a@.skip(i + 1));
            assert(b@.skip(i as int).drop_first() =~= b@.skip(i + 1));
        }
        i += 1;
    }
}

/// Insert an id into a strictly ascending id list, keeping it a set.
#[verifier::rlimit(50)]
pub(crate) fn insert_id(acc: &mut Vec<usize>, x: usize)
    requires
        sorted_ids(old(acc)@),
    ensures
        sorted_ids(final(acc)@),
        forall|y: usize| #![trigger final(acc)@.contains(y)]
            final(acc)@.contains(y) <==> (old(acc)@.contains(y) || y == x),
{
    let n = acc.len();
    let mut pos: usize = 0;
    while pos < n && acc[pos] < x
        invariant
            acc@ == old(acc)@,
            sorted_ids(acc@),
            n == acc@.len(),
            pos <= n,
            forall|j: int| 0 <= j < pos ==> acc@[j] < x,
        decreases n - pos,
    {
        pos += 1;
    }
    if pos < n && acc[pos] == x {
        proof {
            assert(acc@[pos as int] == x);
            assert(acc@.contains(x));
        }
        return ;
    }
    let ghost s = acc@;
    acc.insert(pos, x);
    proof {
        assert forall|i: int, j: int| 0 <= i < j < acc@.len() implies acc@[i] < acc@[j] by {
            if j < pos {
            } else if i < pos && j == pos {
            } else if i < pos && j > pos {
                assert(acc@[j] == s[j - 1]);
            } else if i == pos {
                assert(acc@[j] == s[j - 1]);
                assert(x < s[pos as int]);
                if j - 1 > pos {
                    assert(s[pos as int] < s[j - 1]);
                }
            } else {
                assert(acc@[i] == s[i - 1]);
                assert(acc@[j] == s[j - 1]);
            }
        }
        assert forall|y: usize| acc@.contains(y) implies (s.contains(y) || y == x) by {
            let w = choose|w: int| 0 <= w < acc@.len() && acc@[w] == y;
            if w < pos {
                assert(s[w] == y);
            } else if w > pos {
                assert(s[w - 1] == y);
            }
        }
        assert forall|y: usize| s.contains(y) || y == x implies acc@.contains(y) by {
            if s.contains(y) {
                let w = choose|w: int| 0 <= w < s.len() && s[w] == y;
                if w < pos {
                    assert(acc@[w] == y);
                } else {
                    assert(acc@[w + 1] == y);
                }
            } else {
                assert(acc@[pos as int] == y);
            }
        }
    }
}

/// Fold a second ascending id list into the first.
#[verifier::rlimit(50)]
pub(crate) fn merge_ids(acc: &mut Vec<usize>, add: &Vec<usize>)
    requires
        sorted_ids(old(acc)@),
    ensures
        sorted_ids(final(acc)@),
        forall|y: usize| #![trigger final(acc)@.contains(y)]
            final(acc)@.contains(y) <==> (old(acc)@.contains(y) || add@.contains(y)),
{
    let ghost before = acc@;
    let n = add.len();
    let mut i: usize = 0;
    while i < n
        invariant
            i <= n,
            n == add@.len(),
            sorted_ids(acc@),
            forall|y: usize| #![trigger acc@.contains(y)]
                acc@.contains(y) <==> (before.contains(y) || exists|w: int|
                    0 <= w < i && add@[w] == y),
        decreases n - i,
    {
        let ghost mid = acc@;
        insert_id(acc, add[i]);
        proof {
            assert forall|y: usize| acc@.contains(y) implies (before.contains(y) || exists|w: int|
                0 <= w < i + 1 && add@[w] == y) by {
                if y == add@[i as int] {
                    assert(add@[i as int] == y);
                } else {
                    assert(mid.contains(y));
                    if !before.contains(y) {
                        let w = choose|w: int| 0 <= w < i && add@[w] == y;
                        assert(0 <= w < i + 1 && add@[w] == y);
                    }
                }
            }
            assert forall|y: usize|
                (before.contains(y) || exists|w: int| 0 <= w < i + 1 && add@[w] == y)
                implies acc@.contains(y) by {
                if before.contains(y) {
                    assert(mid.contains(y));
                } else {
                    let w = choose|w: int| 0 <= w < i + 1 && add@[w] == y;
                    if w < i {
                        assert(mid.contains(y));
                    } else {
                        assert(y == add@[i as int]);
                    }
                }
            }
        }
        i += 1;
    }
    proof {
        assert forall|y: usize| acc@.contains(y) implies (before.contains(y) || add@.contains(
            y,
        )) by {
            if !before.contains(y) {
                let w = choose|w: int| 0 <= w < i && add@[w] == y;
                assert(add@[w] == y);
            }
        }
        assert forall|y: usize| before.contains(y) || add@.contains(y) implies acc@.contains(
            y,
        ) by {
            if add@.contains(y) {
                let w = choose|w: int| 0 <= w < add@.len() && add@[w] == y;
                assert(0 <= w < i && add@[w] == y);
                assert(exists|w2: int| 0 <= w2 < i && add@[w2] == y);
            }
        }
    }
}

pub(crate) fn copy_ids(v: &Vec<usize>) -> (r: Vec<usize>)
    ensures
        r@ == v@,
{
    let mut out: Vec<usize> = Vec::new();
    let n = v.len();
    let mut i: usize = 0;
    while i < n
        invariant
            n == v@.len(),
            i <= n,
            out@ =~= v@.take(i as int),
        decreases n - i,
    {
        out.push(v[i]);
        proof {
            assert(out@ =~= v@.take(i + 1));
        }
        i += 1;
    }
    proof {
        assert(v@.take(n as int) =~= v@);
    }
    out
}

} // verus!
