use vstd::prelude::*;

verus! {

/// The first position of `x` in `s`, or `s.len()` where `x` does not occur.
pub open spec fn first_pos<A>(s: Seq<A>, x: A) -> int
    decreases s.len(),
{
    if s.len() == 0 {
        0
    } else if s[0] == x {
        0
    } else {
        1 + first_pos(s.drop_first(), x)
    }
}

/// No value occurs twice in `s`.
pub open spec fn all_distinct<A>(s: Seq<A>) -> bool {
    forall|i: int, j: int| 0 <= i < j < s.len() ==> s[i] != s[j]
}

pub proof fn lemma_first_pos<A>(s: Seq<A>, x: A)
    ensures
        0 <= first_pos(s, x) <= s.len(),
        first_pos(s, x) < s.len() ==> s[first_pos(s, x)] == x,
        forall|j: int| 0 <= j < first_pos(s, x) ==> s[j] != x,
    decreases s.len(),
{
    if s.len() > 0 && s[0] != x {
        lemma_first_pos(s.drop_first(), x);
        assert forall|j: int| 0 <= j < first_pos(s, x) implies s[j] != x by {
            if j > 0 {
                assert(s[j] == s.drop_first()[j - 1]);
            }
        }
    }
}

/// The first position is the one before which `x` does not occur.
pub proof fn lemma_first_pos_at<A>(s: Seq<A>, x: A, i: int)
    requires
        0 <= i <= s.len(),
        i < s.len() ==> s[i] == x,
        forall|j: int| 0 <= j < i ==> s[j] != x,
    ensures
        first_pos(s, x) == i,
{
    lemma_first_pos(s, x);
}

/// In a sequence without repetition, each value is found where it stands.
pub proof fn lemma_first_pos_distinct<A>(s: Seq<A>, i: int)
    requires
        all_distinct(s),
        0 <= i < s.len(),
    ensures
        first_pos(s, s[i]) == i,
{
    lemma_first_pos_at(s, s[i], i);
}

/// Where a value is found after another is appended.
pub proof fn lemma_first_pos_push<A>(s: Seq<A>, x: A, n: A)
    ensures
        first_pos(s.push(x), n) == if first_pos(s, n) < s.len() {
            first_pos(s, n)
        } else if x == n {
            s.len() as int
        } else {
            s.len() + 1int
        },
{
    lemma_first_pos(s, n);
    let t = s.push(x);
    let q = first_pos(s, n);
    if q < s.len() {
        lemma_first_pos_at(t, n, q);
    } else if x == n {
        lemma_first_pos_at(t, n, s.len() as int);
    } else {
        lemma_first_pos(t, n);
    }
}

/// Where a value is found after the entry at `p` is removed from a sequence
/// without repetition.
pub proof fn lemma_first_pos_remove<A>(s: Seq<A>, p: int, n: A)
    requires
        all_distinct(s),
        0 <= p < s.len(),
    ensures
        first_pos(s.remove(p), n) == if n == s[p] {
            s.len() - 1int
        } else if first_pos(s, n) < p {
            first_pos(s, n)
        } else {
            first_pos(s, n) - 1
        },
        all_distinct(s.remove(p)),
{
    lemma_first_pos(s, n);
    let t = s.remove(p);
    assert forall|i: int, j: int| 0 <= i < j < t.len() implies t[i] != t[j] by {
        let i0 = if i < p { i } else { i + 1 };
        let j0 = if j < p { j } else { j + 1 };
        assert(t[i] == s[i0] && t[j] == s[j0]);
    }
    let q = first_pos(s, n);
    if n == s[p] {
        assert forall|j: int| 0 <= j < t.len() implies t[j] != n by {
            let j0 = if j < p { j } else { j + 1 };
            assert(t[j] == s[j0]);
        }
        lemma_first_pos_at(t, n, t.len() as int);
    } else if q < p {
        lemma_first_pos_at(t, n, q);
    } else {
        assert forall|j: int| 0 <= j < q - 1 implies t[j] != n by {
            let j0 = if j < p { j } else { j + 1 };
            assert(t[j] == s[j0]);
        }
        if q < s.len() {
            assert(t[q - 1] == s[q]);
        }
        lemma_first_pos_at(t, n, q - 1);
    }
}

} // verus!
