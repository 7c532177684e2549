//! Small verified helpers on sequences of board squares.

use vstd::prelude::*;

verus! {

broadcast use {
    vstd::seq_lib::group_to_multiset_ensures,
    vstd::multiset::group_multiset_axioms,
    vstd::seq_lib::group_seq_properties,
};

/// `s` is in non-decreasing order.
pub open spec fn sorted(s: Seq<usize>) -> bool {
    forall|i: int, j: int| 0 <= i <= j < s.len() ==> s[i] <= s[j]
}

/// `s` is in strictly increasing order (sorted, no repeats).
pub open spec fn strictly_sorted(s: Seq<usize>) -> bool {
    forall|i: int, j: int| 0 <= i < j < s.len() ==> s[i] < s[j]
}

/// Every element of `s` is below `bound`.
pub open spec fn all_below(s: Seq<usize>, bound: nat) -> bool {
    forall|i: int| 0 <= i < s.len() ==> s[i] < bound
}

/// Number of squares on the board.
pub const SQUARES: usize = 25;

/// The board's squares in order: `0, 1, ..., 24`.
pub open spec fn square_seq() -> Seq<usize> {
    Seq::new(SQUARES as nat, |i: int| i as usize)
}

/// A sequence made of `a`'s and `b`'s members: the two hold the same values.
pub open spec fn same_members(a: Seq<usize>, b: Seq<usize>) -> bool {
    forall|x: usize| a.contains(x) <==> b.contains(x)
}

/// Number of distinct values in `s`.
pub open spec fn distinct_count(s: Seq<usize>) -> nat {
    s.to_set().len()
}

/// Two sequences with the same multiset hold the same members and the same
/// length, and the second has no repeats when the first has none.
pub proof fn lemma_perm_facts(s: Seq<usize>, t: Seq<usize>)
    requires
        s.to_multiset() == t.to_multiset(),
    ensures
        same_members(s, t),
        s.len() == t.len(),
        s.no_duplicates() ==> t.no_duplicates(),
{
    assert forall|x: usize| s.contains(x) <==> t.contains(x) by {
        vstd::seq_lib::to_multiset_contains(s, x);
        vstd::seq_lib::to_multiset_contains(t, x);
    }
    vstd::seq_lib::to_multiset_len(s);
    vstd::seq_lib::to_multiset_len(t);
    if s.no_duplicates() {
        s.lemma_multiset_has_no_duplicates();
        t.lemma_multiset_has_no_duplicates_conv();
    }
}

/// A sorted sequence without repeats is strictly sorted.
pub proof fn lemma_sorted_nodup_strict(s: Seq<usize>)
    requires
        sorted(s),
        s.no_duplicates(),
    ensures
        strictly_sorted(s),
{
}

/// A strictly sorted sequence has no repeats.
pub proof fn lemma_strict_nodup(s: Seq<usize>)
    requires
        strictly_sorted(s),
    ensures
        s.no_duplicates(),
{
    assert forall|i: int, j: int| 0 <= i < s.len() && 0 <= j < s.len() && i != j implies s[i]
        != s[j] by {
        if i < j {
        } else {
        }
    }
}

/// Without repeats, the length is the number of distinct values, and a
/// sequence whose members all lie in another one is no longer than it; when
/// the two are as long, they have the same members.
pub proof fn lemma_nodup_subset_len(a: Seq<usize>, b: Seq<usize>)
    requires
        a.no_duplicates(),
        b.no_duplicates(),
        forall|x: usize| a.contains(x) ==> b.contains(x),
    ensures
        a.len() <= b.len(),
        a.len() == b.len() ==> same_members(a, b),
{
    a.unique_seq_to_set();
    b.unique_seq_to_set();
    assert(a.to_set().subset_of(b.to_set()));
    vstd::set_lib::lemma_len_subset(a.to_set(), b.to_set());
    if a.len() == b.len() {
        vstd::set_lib::lemma_subset_equality(a.to_set(), b.to_set());
        assert forall|x: usize| a.contains(x) <==> b.contains(x) by {
            assert(a.to_set().contains(x) == b.to_set().contains(x));
        }
    }
}

/// The squares `0..25` in order.
pub fn all_squares() -> (r: Vec<usize>)
    ensures
        r@ == square_seq(),
{
    let mut r: Vec<usize> = Vec::new();
    let mut i: usize = 0;
    while i < SQUARES
        invariant
            i <= SQUARES,
            r@ == Seq::new(i as nat, |k: int| k as usize),
        decreases SQUARES - i,
    {
        r.push(i);
        i += 1;
        assert(r@ =~= Seq::new(i as nat, |k: int| k as usize));
    }
    r
}

/// Facts about `square_seq`: its members are exactly the values below 25 and
/// it has no repeats.
pub proof fn lemma_square_seq()
    ensures
        square_seq().len() == SQUARES,
        square_seq().no_duplicates(),
        forall|x: usize| square_seq().contains(x) <==> x < SQUARES,
        strictly_sorted(square_seq()),
{
    assert forall|x: usize| x < SQUARES implies square_seq().contains(x) by {
        assert(square_seq()[x as int] == x);
    }
}

/// Two sequences that between them hold every square are together at
/// least as long as the board.
pub proof fn lemma_cover_len(u: Seq<usize>, b: Seq<usize>)
    requires
        forall|x: usize| x < SQUARES ==> u.contains(x) || b.contains(x),
    ensures
        u.len() + b.len() >= SQUARES,
{
    lemma_square_seq();
    let full = square_seq().to_set();
    let us = u.to_set();
    let bs = b.to_set();
    square_seq().unique_seq_to_set();
    u.lemma_cardinality_of_set();
    b.lemma_cardinality_of_set();
    assert(full.subset_of(us.union(bs))) by {
        assert forall|y: usize| full.contains(y) implies us.union(bs).contains(y) by {
            assert(square_seq().contains(y));
        }
    }
    vstd::set_lib::lemma_len_union(us, bs);
    vstd::set_lib::lemma_len_subset(full, us.union(bs));
}

/// Whether `v` holds `x`.
pub fn vec_contains(v: &Vec<usize>, x: usize) -> (r: bool)
    ensures
        r == v@.contains(x),
{
    let mut i: usize = 0;
    while i < v.len()
        invariant
            i <= v.len(),
            forall|j: int| 0 <= j < i ==> v@[j] != x,
        decreases v.len() - i,
    {
        if v[i] == x {
            return true;
        }
        i += 1;
    }
    false
}

/// Swapping two positions keeps the multiset of a sequence.
pub proof fn lemma_swap_keeps_multiset(s: Seq<usize>, i: int, j: int)
    requires
        0 <= i < s.len(),
        0 <= j < s.len(),
    ensures
        s.update(i, s[j]).update(j, s[i]).to_multiset() == s.to_multiset(),
{
    let t = s.update(i, s[j]);
    assert(t.to_multiset() == s.to_multiset().insert(s[j]).remove(s[i]));
    assert(t.update(j, s[i]).to_multiset() == t.to_multiset().insert(s[i]).remove(t[j]));
    if i == j {
        assert(t =~= s);
        assert(t.update(j, s[i]) =~= s);
    } else {
        assert(t[j] == s[j]);
        assert(s.to_multiset().insert(s[j]).remove(s[i]).insert(s[i]).remove(s[j])
            =~= s.to_multiset());
    }
}

/// Sorts `v` in non-decreasing order, keeping its elements.
pub fn sort_ascending(v: &mut Vec<usize>)
    ensures
        sorted(final(v)@),
        final(v)@.to_multiset() == old(v)@.to_multiset(),
        final(v)@.len() == old(v)@.len(),
{
    let n = v.len();
    let mut i: usize = 0;
    while i < n
        invariant
            n == v.len(),
            i <= n,
            sorted(v@.subrange(0, i as int)),
            v@.to_multiset() == old(v)@.to_multiset(),
        decreases n - i,
    {
        let mut j: usize = i;
        assert forall|a: int, b: int| 0 <= a <= b <= i && a != j && b != j implies v@[a] <= v@[b] by {
            assert(v@.subrange(0, i as int)[a] == v@[a]);
            assert(v@.subrange(0, i as int)[b] == v@[b]);
        }
        while j > 0 && v[j - 1] > v[j]
            invariant
                n == v.len(),
                j <= i < n,
                forall|a: int, b: int|
                    0 <= a <= b <= i && a != j && b != j ==> v@[a] <= v@[b],
                forall|k: int| j < k <= i ==> v@[j as int] < v@[k],
                v@.to_multiset() == old(v)@.to_multiset(),
            decreases j,
        {
            let a = v[j - 1];
            let b = v[j];
            proof {
                lemma_swap_keeps_multiset(v@, j - 1, j as int);
            }
            v[j - 1] = b;
            v[j] = a;
            j -= 1;
        }
        assert(sorted(v@.subrange(0, i + 1))) by {
            assert forall|x: int, y: int| 0 <= x <= y < i + 1 implies v@[x] <= v@[y] by {
                if x == j && y > j {
                } else if y == j && x < j {
                    assert(v@[x] <= v@[j - 1]);
                } else {
                }
            }
        }
        i += 1;
    }
    assert(v@.subrange(0, n as int) =~= v@);
}

/// The distinct values of a sorted vector, in increasing order.
pub fn dedup_sorted(v: &Vec<usize>) -> (r: Vec<usize>)
    requires
        sorted(v@),
    ensures
        strictly_sorted(r@),
        same_members(r@, v@),
{
    let mut r: Vec<usize> = Vec::new();
    let mut i: usize = 0;
    while i < v.len()
        invariant
            i <= v.len(),
            sorted(v@),
            strictly_sorted(r@),
            forall|x: usize| r@.contains(x) <==> v@.subrange(0, i as int).contains(x),
            r@.len() > 0 ==> i > 0 && r@.last() == v@[i - 1],
            r@.len() == 0 ==> i == 0,
        decreases v.len() - i,
    {
        let x = v[i];
        let ghost prev = r@;
        if r.len() == 0 || r[r.len() - 1] != x {
            r.push(x);
            assert(r@ == prev.push(x));
        } else {
            assert(r@ == prev);
        }
        assert forall|y: usize| r@.contains(y) <==> v@.subrange(0, i + 1).contains(y) by {
            assert(v@.subrange(0, i + 1) =~= v@.subrange(0, i as int).push(x));
            if y != x {
                assert(r@.contains(y) <==> prev.contains(y));
            } else {
                assert(r@.contains(x) ) by {
                    if r@.len() == prev.len() + 1 {
                        assert(r@[r@.len() - 1] == x);
                    } else {
                        assert(r@[r@.len() - 1] == x);
                    }
                }
            }
        }
        i += 1;
    }
    assert(v@.subrange(0, v.len() as int) =~= v@);
    r
}

} // verus!
