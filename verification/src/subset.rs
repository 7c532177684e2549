//! Building blocks of the genetic search over 18-square subsets.

use crate::rng::{gen_index, gen_ratio, shuffle};
use crate::seqs::{
    lemma_cover_len,
    sorted,
    all_below, all_squares, lemma_perm_facts, lemma_sorted_nodup_strict, lemma_square_seq,
    lemma_strict_nodup, sort_ascending, dedup_sorted, same_members, distinct_count, square_seq, strictly_sorted, vec_contains, SQUARES,
};
use rand::rngs::ThreadRng;
use vstd::prelude::*;

verus! {

broadcast use {
    vstd::seq_lib::group_to_multiset_ensures,
    vstd::multiset::group_multiset_axioms,
    vstd::seq_lib::group_seq_properties,
};

/// Number of squares in one candidate subset.
pub const SUBSET_K: usize = 18;

/// A candidate subset: 18 distinct squares in increasing order.
pub open spec fn is_subset_shape(s: Seq<usize>) -> bool {
    &&& s.len() == SUBSET_K
    &&& strictly_sorted(s)
    &&& all_below(s, SQUARES as nat)
}

/// How many of `x`'s two board neighbours (`x - 1` and `x + 1`, within the
/// board) belong to `s`.
pub open spec fn neighbour_hits(s: Seq<usize>, x: usize) -> nat {
    (if 0 < x && s.contains((x - 1) as usize) { 1nat } else { 0nat }) + (if x + 1 < SQUARES
        && s.contains((x + 1) as usize) {
        1nat
    } else {
        0nat
    })
}

/// Sum of `neighbour_hits(s, s[i])` over the first `n` positions of `s`.
pub open spec fn adjacency_score(s: Seq<usize>, n: int) -> nat
    decreases n,
{
    if n <= 0 {
        0
    } else {
        adjacency_score(s, n - 1) + neighbour_hits(s, s[n - 1])
    }
}

/// Counts the neighbour pairs inside a subset: for each member `x`, one for
/// `x - 1` and one for `x + 1` when they are members too. The clustering
/// score of a subset is this count divided by twice its length.
pub fn cluster_adjacency(subset: &Vec<usize>) -> (score: usize)
    requires
        all_below(subset@, usize::MAX as nat),
        subset@.len() <= usize::MAX / 2,
    ensures
        score == adjacency_score(subset@, subset@.len() as int),
        score <= 2 * subset@.len(),
{
    let mut score: usize = 0;
    let mut i: usize = 0;
    while i < subset.len()
        invariant
            i <= subset@.len(),
            subset@.len() <= usize::MAX / 2,
            all_below(subset@, usize::MAX as nat),
            score == adjacency_score(subset@, i as int),
            score <= 2 * i,
        decreases subset@.len() - i,
    {
        let x = subset[i];
        if x > 0 && vec_contains(subset, x - 1) {
            score += 1;
        }
        if x + 1 < SQUARES && vec_contains(subset, x + 1) {
            score += 1;
        }
        i += 1;
    }
    score
}

/// A random candidate subset: the squares shuffled, the first 18 kept, then
/// sorted.
pub fn random_subset(rng: &mut ThreadRng) -> (r: Vec<usize>)
    ensures
        is_subset_shape(r@),
{
    let mut pool = all_squares();
    proof {
        lemma_square_seq();
    }
    let ghost before = pool@;
    shuffle(&mut pool, rng);
    proof {
        lemma_perm_facts(before, pool@);
    }
    pool.truncate(SUBSET_K);
    let ghost kept = pool@;
    assert(kept.no_duplicates());
    assert(all_below(kept, SQUARES as nat)) by {
        assert forall|i: int| 0 <= i < kept.len() implies kept[i] < SQUARES by {
            assert(before.contains(kept[i]));
        }
    }
    sort_ascending(&mut pool);
    proof {
        lemma_perm_facts(kept, pool@);
        lemma_sorted_nodup_strict(pool@);
        assert forall|i: int| 0 <= i < pool@.len() implies pool@[i] < SQUARES by {
            assert(kept.contains(pool@[i]));
        }
    }
    pool
}

/// The squares that `u` does not hold, in increasing order.
pub fn missing_squares(u: &Vec<usize>) -> (r: Vec<usize>)
    ensures
        strictly_sorted(r@),
        all_below(r@, SQUARES as nat),
        forall|x: usize| r@.contains(x) <==> (x < SQUARES && !u@.contains(x)),
        r@.len() + u@.len() >= SQUARES,
{
    let mut r: Vec<usize> = Vec::new();
    let mut x: usize = 0;
    while x < SQUARES
        invariant
            x <= SQUARES,
            strictly_sorted(r@),
            all_below(r@, x as nat),
            forall|y: usize| r@.contains(y) <==> (y < x && !u@.contains(y)),
        decreases SQUARES - x,
    {
        if !vec_contains(u, x) {
            r.push(x);
        }
        x += 1;
    }
    proof {
        lemma_cover_len(r@, u@);
    }
    r
}

/// Concatenation of two vectors.
pub fn concat(a: &Vec<usize>, b: &Vec<usize>) -> (r: Vec<usize>)
    ensures
        r@ == a@ + b@,
{
    let mut r: Vec<usize> = Vec::new();
    let mut i: usize = 0;
    while i < a.len()
        invariant
            i <= a@.len(),
            r@ == a@.subrange(0, i as int),
        decreases a@.len() - i,
    {
        r.push(a[i]);
        i += 1;
        assert(r@ =~= a@.subrange(0, i as int));
    }
    let mut j: usize = 0;
    while j < b.len()
        invariant
            i == a@.len(),
            j <= b@.len(),
            r@ == a@ + b@.subrange(0, j as int),
        decreases b@.len() - j,
    {
        r.push(b[j]);
        j += 1;
        assert(r@ =~= a@ + b@.subrange(0, j as int));
    }
    assert(b@.subrange(0, j as int) =~= b@);
    assert(a@.subrange(0, i as int) =~= a@);
    r
}

/// `child` is a possible crossover child of parents `a` and `b`: 18
/// distinct squares in increasing order; when the parents hold at least 18
/// distinct squares they all come from the parents, and otherwise the child
/// holds every square of both parents and the rest are board squares.
pub open spec fn crossover_child(a: Seq<usize>, b: Seq<usize>, child: Seq<usize>) -> bool {
    &&& child.len() == SUBSET_K
    &&& strictly_sorted(child)
    &&& forall|x: usize| child.contains(x) ==> (a + b).contains(x) || x < SQUARES
    &&& distinct_count(a + b) >= SUBSET_K ==> forall|x: usize|
        child.contains(x) ==> (a + b).contains(x)
    &&& distinct_count(a + b) < SUBSET_K ==> forall|x: usize|
        (a + b).contains(x) ==> child.contains(x)
}

/// Crossover of two parent subsets: the distinct squares of both parents,
/// topped up with random other squares when there are fewer than 18, then
/// shuffled, cut to 18 and sorted.
///
/// Whatever the random choices, the child has 18 distinct squares in
/// increasing order; when the parents hold at least 18 distinct squares
/// they all come from the parents, and otherwise the child holds every
/// square of both parents and the rest are board squares.
pub fn crossover(a: &Vec<usize>, b: &Vec<usize>, rng: &mut ThreadRng) -> (child: Vec<usize>)
    ensures
        crossover_child(a@, b@, child@),
{
    let ghost ab = a@ + b@;
    let mut joined = concat(a, b);
    let ghost before_sort = joined@;
    sort_ascending(&mut joined);
    proof {
        lemma_perm_facts(before_sort, joined@);
    }
    let mut union = dedup_sorted(&joined);
    let ghost u = union@;
    proof {
        lemma_strict_nodup(u);
        u.unique_seq_to_set();
        assert(u.to_set() =~= ab.to_set()) by {
            assert forall|x: usize| u.to_set().contains(x) <==> ab.to_set().contains(x) by {
                assert(u.contains(x) <==> joined@.contains(x));
            }
        }
        assert(u.len() == distinct_count(ab));
    }
    if union.len() < SUBSET_K {
        let mut remaining = missing_squares(&union);
        let ghost rem0 = remaining@;
        proof {
            lemma_strict_nodup(rem0);
        }
        shuffle(&mut remaining, rng);
        proof {
            lemma_perm_facts(rem0, remaining@);
        }
        let need = SUBSET_K - union.len();
        let mut k: usize = 0;
        while k < need
            invariant
                k <= need,
                need == SUBSET_K - u.len(),
                need <= remaining@.len(),
                union@ == u + remaining@.subrange(0, k as int),
            decreases need - k,
        {
            union.push(remaining[k]);
            k += 1;
            assert(union@ =~= u + remaining@.subrange(0, k as int));
        }
        proof {
            let rest = remaining@.subrange(0, need as int);
            assert(union@ == u + rest);
            assert(rest.no_duplicates());
            assert(u.disjoint(rest)) by {
                assert forall|p: int, q: int| 0 <= p < u.len() && 0 <= q < rest.len() implies u[p]
                    != rest[q] by {
                    assert(remaining@.contains(rest[q]));
                    assert(rem0.contains(rest[q]));
                    assert(u.contains(u[p]));
                }
            }
            vstd::seq_lib::lemma_no_dup_in_concat(u, rest);
            assert forall|x: usize| union@.contains(x) implies ab.contains(x) || x < SQUARES by {
                let idx = choose|idx: int| 0 <= idx < union@.len() && union@[idx] == x;
                if idx >= u.len() {
                    assert(rest[idx - u.len()] == x);
                    assert(remaining@.contains(x));
                    assert(rem0.contains(x));
                } else {
                    assert(u.contains(x));
                    assert(joined@.contains(x));
                }
            }
            assert forall|x: usize| ab.contains(x) implies union@.contains(x) by {
                assert(joined@.contains(x));
                assert(u.contains(x));
                let idx = choose|idx: int| 0 <= idx < u.len() && u[idx] == x;
                assert(union@[idx] == x);
            }
        }
    } else {
        proof {
            assert forall|x: usize| union@.contains(x) implies ab.contains(x) by {
                assert(joined@.contains(x));
            }
        }
    }
    let ghost filled = union@;
    assert(filled.no_duplicates());
    assert(filled.len() >= SUBSET_K);
    shuffle(&mut union, rng);
    proof {
        lemma_perm_facts(filled, union@);
    }
    let ghost shuffled = union@;
    union.truncate(SUBSET_K);
    let ghost kept = union@;
    assert(kept.no_duplicates());
    assert(forall|x: usize| kept.contains(x) ==> filled.contains(x));
    sort_ascending(&mut union);
    proof {
        lemma_perm_facts(kept, union@);
        lemma_sorted_nodup_strict(union@);
        if u.len() < SUBSET_K {
            assert(filled.len() == SUBSET_K);
            assert(kept =~= shuffled);
            assert forall|x: usize| ab.contains(x) implies union@.contains(x) by {
                assert(filled.contains(x));
                assert(shuffled.contains(x));
            }
        }
    }
    union
}

/// `m` agrees with `s` everywhere but at positions `i` and `j`.
pub open spec fn unchanged_except(s: Seq<usize>, m: Seq<usize>, i: int, j: int) -> bool {
    forall|k: int| 0 <= k < s.len() && k != i && k != j ==> m[k] == s[k]
}

/// `m` comes from `s` by replacing at most two positions, each replaced
/// position holding a board square that `s` does not hold, and no two
/// replaced positions holding the same square.
pub open spec fn small_mutation(s: Seq<usize>, m: Seq<usize>) -> bool {
    &&& m.len() == s.len()
    &&& exists|i: int, j: int| #[trigger] unchanged_except(s, m, i, j)
    &&& forall|k: int|
        0 <= k < s.len() && m[k] != s[k] ==> m[k] < SQUARES && !s.contains(m[k])
    &&& forall|p: int, q: int|
        0 <= p < q < s.len() && m[p] != s[p] && m[q] != s[q] ==> m[p] != m[q]
}

/// `r` is a possible result of mutating `s`: a sorted rearrangement of a
/// small mutation of `s` that differs from `s` whenever some square is
/// missing from `s`.
pub open spec fn mutated_from(s: Seq<usize>, r: Seq<usize>) -> bool {
    &&& sorted(r)
    &&& exists|m: Seq<usize>|
        {
            &&& #[trigger] small_mutation(s, m)
            &&& r.to_multiset() == m.to_multiset()
            &&& (exists|x: usize| x < SQUARES && !s.contains(x)) ==> m != s
        }
}

/// Mutation of a subset: one or two random positions get a random square
/// that the subset does not hold, then the subset is sorted.
///
/// The subset must not be empty (a random position is drawn from it). The
/// result is a sorted rearrangement of a small mutation of the input; it
/// differs from the input whenever some square is missing from it, and it
/// keeps the input free of repeats.
pub fn mutate(sub: &mut Vec<usize>, rng: &mut ThreadRng)
    requires
        old(sub)@.len() > 0,
    ensures
        sorted(final(sub)@),
        exists|m: Seq<usize>|
            {
                &&& small_mutation(old(sub)@, m)
                &&& final(sub)@.to_multiset() == m.to_multiset()
                &&& (exists|x: usize| x < SQUARES && !old(sub)@.contains(x)) ==> m != old(sub)@
            },
        old(sub)@.no_duplicates() ==> final(sub)@.no_duplicates(),
{
    let ghost s0 = sub@;
    let replace_n: usize = if gen_ratio(rng, 1, 2) {
        1
    } else {
        2
    };
    let mut pool = missing_squares(sub);
    let ghost pool0 = pool@;
    proof {
        lemma_strict_nodup(pool0);
    }
    shuffle(&mut pool, rng);
    proof {
        lemma_perm_facts(pool0, pool@);
    }
    let ghost mut g0: int = -1;
    let ghost mut g1: int = -1;
    let mut i: usize = 0;
    while i < replace_n && pool.len() > 0
        invariant
            replace_n <= 2,
            i <= replace_n,
            sub@.len() == s0.len(),
            s0.len() > 0,
            pool@.no_duplicates(),
            forall|x: usize| #[trigger] pool@.contains(x) ==> x < SQUARES && !s0.contains(x),
            i == 0 ==> sub@ == s0 && same_members(pool@, pool0) && g0 == -1 && g1 == -1,
            i == 1 ==> 0 <= g0 < s0.len() && g1 == -1,
            i == 2 ==> 0 <= g0 < s0.len() && 0 <= g1 < s0.len(),
            i > 0 ==> (i == 1 ==> sub@[g0] != s0[g0]) && (i == 2 ==> sub@[g1] != s0[g1]),
            forall|k: int| 0 <= k < s0.len() && k != g0 && k != g1 ==> sub@[k] == s0[k],
            forall|k: int|
                0 <= k < s0.len() && sub@[k] != s0[k] ==> sub@[k] < SQUARES && !s0.contains(
                    sub@[k],
                ) && !pool@.contains(sub@[k]),
            forall|p: int, q: int|
                0 <= p < q < s0.len() && sub@[p] != s0[p] && sub@[q] != s0[q] ==> sub@[p]
                    != sub@[q],
        decreases replace_n - i,
    {
        let replace_idx = gen_index(rng, sub.len());
        let ghost pool_before = pool@;
        let new_val = pool.pop().unwrap();
        proof {
            assert(pool_before == pool@.push(new_val));
            assert(pool_before.contains(new_val));
            assert(!pool@.contains(new_val)) by {
                if pool@.contains(new_val) {
                    let t = choose|t: int| 0 <= t < pool@.len() && pool@[t] == new_val;
                    assert(pool_before[t] == pool_before[pool_before.len() - 1]);
                }
            }
            assert forall|x: usize| #[trigger] pool@.contains(x) implies pool_before.contains(x)
                && x < SQUARES && !s0.contains(x) by {
                let t = choose|t: int| 0 <= t < pool@.len() && pool@[t] == x;
                assert(pool_before[t] == x);
                assert(pool_before.contains(x));
            }
            if i == 0 {
                g0 = replace_idx as int;
            } else {
                g1 = replace_idx as int;
            }
        }
        sub.set(replace_idx, new_val);
        proof {
            assert(!s0.contains(new_val));
            assert(s0.contains(s0[replace_idx as int]));
            assert(sub@[replace_idx as int] != s0[replace_idx as int]);
        }
        i += 1;
    }
    let ghost m = sub@;
    proof {
        assert(small_mutation(s0, m)) by {
            assert(unchanged_except(s0, m, g0, g1));
        }
        if exists|x: usize| x < SQUARES && !s0.contains(x) {
            let x = choose|x: usize| x < SQUARES && !s0.contains(x);
            assert(pool0.contains(x));
            assert(i > 0) by {
                if i == 0 {
                    assert(pool@.contains(x));
                }
            }
            if i == 1 {
                assert(m[g0] != s0[g0]);
            } else {
                assert(m[g1] != s0[g1]);
            }
        }
        if s0.no_duplicates() {
            assert(m.no_duplicates()) by {
                assert forall|p: int, q: int|
                    0 <= p < m.len() && 0 <= q < m.len() && p != q implies m[p] != m[q] by {
                    if m[p] != s0[p] && m[q] == s0[q] {
                        assert(s0.contains(m[q]));
                    } else if m[p] == s0[p] && m[q] != s0[q] {
                        assert(s0.contains(m[p]));
                    } else if m[p] != s0[p] && m[q] != s0[q] {
                        if p > q {
                        }
                    }
                }
            }
        }
    }
    sort_ascending(sub);
    proof {
        lemma_perm_facts(m, sub@);
    }
}

/// Population size of the genetic search.
pub const GA_POP: usize = 120;

/// Number of generations the genetic search runs.
pub const GA_GENS: usize = 60;

/// Number of best individuals carried over unchanged into the next
/// generation (5% of the population).
pub const GA_ELITE: usize = 6;

/// Chance, in percent, that a child is mutated.
pub const GA_MUTATION_PERCENT: u32 = 12;

/// Position `i` comes before position `j` when ordering by key, highest
/// first, ties kept in their input order.
pub open spec fn ranks_before(keys: Seq<u64>, i: int, j: int) -> bool {
    keys[i] > keys[j] || (keys[i] == keys[j] && i < j)
}

/// `order` lists the positions `0..keys.len()` by key, highest first, ties
/// in their input order (the order of a stable sort by descending key).
pub open spec fn is_rank_order(keys: Seq<u64>, order: Seq<usize>) -> bool {
    &&& order.len() == keys.len()
    &&& order.no_duplicates()
    &&& forall|k: int| 0 <= k < order.len() ==> order[k] < keys.len()
    &&& forall|a: int, b: int|
        0 <= a < b < order.len() ==> ranks_before(keys, order[a] as int, order[b] as int)
}

/// The keys of a scored population.
pub open spec fn keys_of(scored: Seq<(u64, Vec<usize>)>) -> Seq<u64> {
    scored.map_values(|p: (u64, Vec<usize>)| p.0)
}

/// The positions of `keys`, ordered by key, highest first, ties in their
/// input order.
pub fn rank_order(keys: &Vec<u64>) -> (order: Vec<usize>)
    ensures
        is_rank_order(keys@, order@),
{
    let n = keys.len();
    let mut order: Vec<usize> = Vec::new();
    let mut i: usize = 0;
    while i < n
        invariant
            n == keys@.len(),
            i <= n,
            order@.len() == i,
            order@.to_multiset() == Seq::new(i as nat, |k: int| k as usize).to_multiset(),
            forall|k: int| 0 <= k < i ==> order@[k] < i,
            forall|a: int, b: int|
                0 <= a < b < i ==> ranks_before(keys@, order@[a] as int, order@[b] as int),
        decreases n - i,
    {
        let ghost prev = order@;
        order.push(i);
        proof {
            assert(Seq::new((i + 1) as nat, |k: int| k as usize) =~= Seq::new(
                i as nat,
                |k: int| k as usize,
            ).push(i));
            vstd::seq_lib::to_multiset_build(prev, i);
            vstd::seq_lib::to_multiset_build(Seq::new(i as nat, |k: int| k as usize), i);
        }
        let mut j: usize = i;
        while j > 0 && (keys[order[j]] > keys[order[j - 1]] || (keys[order[j]] == keys[
            order[j - 1]] && order[j] < order[j - 1]))
            invariant
                n == keys@.len(),
                j <= i < n,
                order@.len() == i + 1,
                order@.to_multiset() == Seq::new((i + 1) as nat, |k: int| k as usize).to_multiset(),
                forall|k: int| 0 <= k <= i ==> order@[k] <= i,
                forall|a: int, b: int|
                    0 <= a < b <= i && a != j && b != j ==> ranks_before(
                        keys@,
                        order@[a] as int,
                        order@[b] as int,
                    ),
                forall|k: int|
                    j < k <= i ==> ranks_before(keys@, order@[j as int] as int, order@[k] as int),
            decreases j,
        {
            let x = order[j - 1];
            let y = order[j];
            proof {
                crate::seqs::lemma_swap_keeps_multiset(order@, j - 1, j as int);
            }
            order.set(j - 1, y);
            order.set(j, x);
            j -= 1;
        }
        proof {
            let full = Seq::new((i + 1) as nat, |k: int| k as usize);
            assert(full.no_duplicates());
            lemma_perm_facts(full, order@);
            if j > 0 {
                assert(order@[j - 1] != order@[j as int]);
                assert(ranks_before(keys@, order@[j - 1] as int, order@[j as int] as int));
            }
            assert forall|a: int, b: int| 0 <= a < b <= i implies ranks_before(
                keys@,
                order@[a] as int,
                order@[b] as int,
            ) by {
                if b == j {
                    if a < j - 1 {
                        assert(ranks_before(keys@, order@[a] as int, order@[j - 1] as int));
                    }
                }
            }
        }
        i += 1;
    }
    proof {
        let full = Seq::new(n as nat, |k: int| k as usize);
        assert(full.no_duplicates());
        lemma_perm_facts(full, order@);
    }
    order
}

/// The position that wins a tournament among positions `a`, `b`, `c`: the
/// one with the highest key, the later one on equal keys.
pub open spec fn best_of_three(keys: Seq<u64>, a: int, b: int, c: int) -> int {
    let ab = if keys[b] >= keys[a] {
        b
    } else {
        a
    };
    if keys[c] >= keys[ab] {
        c
    } else {
        ab
    }
}

/// The individuals of a scored population.
pub open spec fn inds_of(scored: Seq<(u64, Vec<usize>)>) -> Seq<Seq<usize>> {
    scored.map_values(|p: (u64, Vec<usize>)| p.1@)
}

/// `p` is a possible tournament winner of the population with keys `keys`
/// and individuals `inds`: the winner among some three positions; of an
/// empty population, the empty individual.
pub open spec fn tournament_pick(keys: Seq<u64>, inds: Seq<Seq<usize>>, p: Seq<usize>) -> bool {
    if keys.len() == 0 {
        p.len() == 0
    } else {
        exists|a: int, b: int, c: int|
            0 <= a < keys.len() && 0 <= b < keys.len() && 0 <= c < keys.len() && p
                == inds[#[trigger] best_of_three(keys, a, b, c)]
    }
}

/// `child` is a possible child bred in the population with keys `keys`
/// and individuals `inds`: the crossover child of two tournament winners,
/// either kept as it is or mutated.
pub open spec fn bred_child(keys: Seq<u64>, inds: Seq<Seq<usize>>, child: Seq<usize>) -> bool {
    exists|p1: Seq<usize>, p2: Seq<usize>, c: Seq<usize>|
        {
            &&& tournament_pick(keys, inds, p1)
            &&& tournament_pick(keys, inds, p2)
            &&& #[trigger] crossover_child(p1, p2, c)
            &&& (child == c || mutated_from(c, child))
        }
}

/// The elements of `s` at the positions `order`, in this order.
pub open spec fn in_order<T>(s: Seq<T>, order: Seq<usize>) -> Seq<T> {
    Seq::new(order.len(), |t: int| s[order[t] as int])
}

/// A tournament among positions `a`, `b`, `c` is won by one of them whose
/// key is at least the key of each of the three; among equal highest keys
/// the one drawn last wins (`c` before `b` before `a`).
pub proof fn law_best_of_three(keys: Seq<u64>, a: int, b: int, c: int)
    ensures
        ({
            let w = best_of_three(keys, a, b, c);
            &&& w == a || w == b || w == c
            &&& keys[w] >= keys[a] && keys[w] >= keys[b] && keys[w] >= keys[c]
            &&& keys[c] >= keys[a] && keys[c] >= keys[b] ==> w == c
            &&& keys[b] >= keys[a] && keys[b] > keys[c] ==> w == b
            &&& keys[a] > keys[b] && keys[a] > keys[c] ==> w == a
        }),
{
}

/// Tournament selection: three random positions of the scored population,
/// and the individual with the highest key among them (the later one on
/// equal keys). An empty population gives an empty individual.
pub fn tournament_select(scored: &Vec<(u64, Vec<usize>)>, rng: &mut ThreadRng) -> (winner: Vec<
    usize,
>)
    ensures
        tournament_pick(keys_of(scored@), inds_of(scored@), winner@),
{
    let n = scored.len();
    if n == 0 {
        return Vec::new();
    }
    let a = gen_index(rng, n);
    let b = gen_index(rng, n);
    let c = gen_index(rng, n);
    let mut best = a;
    if scored[b].0 >= scored[best].0 {
        best = b;
    }
    if scored[c].0 >= scored[best].0 {
        best = c;
    }
    let winner = scored[best].1.clone();
    proof {
        assert(winner@ =~= scored@[best as int].1@);
        assert(best as int == best_of_three(keys_of(scored@), a as int, b as int, c as int));
        assert(inds_of(scored@)[best as int] == scored@[best as int].1@);
    }
    winner
}

/// Number of elites kept from a population of `n`.
pub open spec fn elite_count(n: nat) -> nat {
    if n < GA_ELITE {
        n
    } else {
        GA_ELITE as nat
    }
}

/// Every individual of a scored population is a candidate subset.
pub open spec fn all_shaped(scored: Seq<(u64, Vec<usize>)>) -> bool {
    forall|i: int| 0 <= i < scored.len() ==> is_subset_shape(#[trigger] scored[i].1@)
}

/// A child of crossover and mutation: the crossover child of two
/// tournament winners, mutated with a chance of 12%.
fn breed(scored: &Vec<(u64, Vec<usize>)>, rng: &mut ThreadRng) -> (child: Vec<usize>)
    ensures
        child@.len() == SUBSET_K,
        strictly_sorted(child@),
        all_shaped(scored@) ==> all_below(child@, SQUARES as nat),
        bred_child(keys_of(scored@), inds_of(scored@), child@),
{
    let parent1 = tournament_select(scored, rng);
    let parent2 = tournament_select(scored, rng);
    let mut child = crossover(&parent1, &parent2, rng);
    let ghost c0 = child@;
    proof {
        if all_shaped(scored@) {
            assert forall|x: usize| (parent1@ + parent2@).contains(x) implies x < SQUARES by {
                let i = choose|i: int| 0 <= i < (parent1@ + parent2@).len() && (parent1@
                    + parent2@)[i] == x;
                if scored@.len() > 0 {
                    let keys = keys_of(scored@);
                    let (a, b, c) = choose|a: int, b: int, c: int|
                        0 <= a < keys.len() && 0 <= b < keys.len() && 0 <= c < keys.len()
                            && parent1@ == inds_of(scored@)[#[trigger] best_of_three(keys, a, b, c)];
                    let (d, e, f) = choose|a: int, b: int, c: int|
                        0 <= a < keys.len() && 0 <= b < keys.len() && 0 <= c < keys.len()
                            && parent2@ == inds_of(scored@)[#[trigger] best_of_three(keys, a, b, c)];
                    let w1 = best_of_three(keys, a, b, c);
                    let w2 = best_of_three(keys, d, e, f);
                    assert(is_subset_shape(scored@[w1].1@));
                    assert(is_subset_shape(scored@[w2].1@));
                    assert(inds_of(scored@)[w1] == scored@[w1].1@);
                    assert(inds_of(scored@)[w2] == scored@[w2].1@);
                    if i < parent1@.len() {
                        assert(parent1@[i] == x);
                    } else {
                        assert(parent2@[i - parent1@.len()] == x);
                    }
                }
            }
        }
    }
    proof {
        if all_shaped(scored@) {
            assert forall|k: int| 0 <= k < child@.len() implies child@[k] < SQUARES by {
                assert(child@.contains(child@[k]));
            }
        }
    }
    if gen_ratio(rng, GA_MUTATION_PERCENT, 100) {
        let ghost before = child@;
        proof {
            lemma_strict_nodup(before);
        }
        mutate(&mut child, rng);
        proof {
            let m = choose|m: Seq<usize>|
                {
                    &&& small_mutation(before, m)
                    &&& child@.to_multiset() == m.to_multiset()
                    &&& (exists|x: usize| x < SQUARES && !before.contains(x)) ==> m != before
                };
            assert(mutated_from(c0, child@));
            lemma_perm_facts(m, child@);
            lemma_sorted_nodup_strict(child@);
            if all_shaped(scored@) {
                assert forall|k: int| 0 <= k < child@.len() implies child@[k] < SQUARES by {
                    assert(m.contains(child@[k]));
                    let t = choose|t: int| 0 <= t < m.len() && m[t] == child@[k];
                    if m[t] == before[t] {
                        assert(before[t] < SQUARES);
                    } else {
                        assert(m[t] < SQUARES);
                    }
                }
            }
        }
    }
    proof {
        assert(crossover_child(parent1@, parent2@, c0));
        assert(child@ == c0 || mutated_from(c0, child@));
    }
    child
}

/// One generation of the genetic search. The scored population is ordered
/// by key, highest first (ties in their order); its first six individuals
/// are kept, and the rest of the 120 places are filled with children of two
/// tournament winners, each mutated with a chance of 12%.
pub fn next_generation(scored: &Vec<(u64, Vec<usize>)>, rng: &mut ThreadRng) -> (next: Vec<
    Vec<usize>,
>)
    ensures
        next@.len() == GA_POP,
        exists|order: Seq<usize>|
            {
                &&& is_rank_order(keys_of(scored@), order)
                &&& forall|k: int|
                    0 <= k < elite_count(scored@.len()) ==> #[trigger] next@[k]@
                        == scored@[order[k] as int].1@
                &&& forall|k: int|
                    elite_count(scored@.len()) <= k < GA_POP ==> #[trigger] bred_child(
                        in_order(keys_of(scored@), order),
                        in_order(inds_of(scored@), order),
                        next@[k]@,
                    )
            },
        forall|k: int|
            elite_count(scored@.len()) <= k < GA_POP ==> (#[trigger] next@[k]@).len() == SUBSET_K
                && strictly_sorted(next@[k]@),
        all_shaped(scored@) ==> forall|k: int|
            0 <= k < GA_POP ==> is_subset_shape(#[trigger] next@[k]@),
{
    let n = scored.len();
    let mut keys: Vec<u64> = Vec::new();
    let mut i: usize = 0;
    while i < n
        invariant
            n == scored@.len(),
            i <= n,
            keys@ == keys_of(scored@).subrange(0, i as int),
        decreases n - i,
    {
        keys.push(scored[i].0);
        i += 1;
        assert(keys@ =~= keys_of(scored@).subrange(0, i as int));
    }
    assert(keys@ =~= keys_of(scored@));
    let order = rank_order(&keys);
    let mut ranked: Vec<(u64, Vec<usize>)> = Vec::new();
    let mut k: usize = 0;
    while k < n
        invariant
            n == scored@.len(),
            k <= n,
            is_rank_order(keys_of(scored@), order@),
            ranked@.len() == k,
            forall|t: int| 0 <= t < k ==> (#[trigger] ranked@[t]).0 == scored@[order@[t] as int].0
                && ranked@[t].1@ == scored@[order@[t] as int].1@,
        decreases n - k,
    {
        let idx = order[k];
        let ind = scored[idx].1.clone();
        assert(ind@ =~= scored@[idx as int].1@);
        ranked.push((scored[idx].0, ind));
        k += 1;
    }
    proof {
        if all_shaped(scored@) {
            assert forall|t: int| 0 <= t < ranked@.len() implies is_subset_shape(
                #[trigger] ranked@[t].1@,
            ) by {
                assert(is_subset_shape(scored@[order@[t] as int].1@));
            }
        }
        assert(keys_of(ranked@) =~= in_order(keys_of(scored@), order@));
        assert(inds_of(ranked@) =~= in_order(inds_of(scored@), order@));
    }
    let ghost rkeys = keys_of(ranked@);
    let ghost rinds = inds_of(ranked@);
    let mut next: Vec<Vec<usize>> = Vec::new();
    let elites = if n < GA_ELITE {
        n
    } else {
        GA_ELITE
    };
    let mut e: usize = 0;
    while e < elites
        invariant
            elites == elite_count(n as nat),
            elites <= n,
            n == ranked@.len(),
            e <= elites,
            next@.len() == e,
            forall|t: int| 0 <= t < e ==> #[trigger] next@[t]@ == ranked@[t].1@,
        decreases elites - e,
    {
        let ind = ranked[e].1.clone();
        assert(ind@ =~= ranked@[e as int].1@);
        next.push(ind);
        e += 1;
    }
    while next.len() < GA_POP
        invariant
            elites == elite_count(n as nat),
            elites <= GA_POP,
            n == ranked@.len(),
            elites <= next@.len() <= GA_POP,
            forall|t: int| 0 <= t < elites ==> #[trigger] next@[t]@ == ranked@[t].1@,
            forall|t: int|
                elites <= t < next@.len() ==> (#[trigger] next@[t]@).len() == SUBSET_K
                    && strictly_sorted(next@[t]@),
            all_shaped(ranked@) ==> forall|t: int|
                elites <= t < next@.len() ==> all_below(#[trigger] next@[t]@, SQUARES as nat),
            rkeys == keys_of(ranked@),
            rinds == inds_of(ranked@),
            forall|t: int| elites <= t < next@.len() ==> #[trigger] bred_child(rkeys, rinds, next@[t]@),
        decreases GA_POP - next@.len(),
    {
        let child = breed(&ranked, rng);
        next.push(child);
    }
    proof {
        assert forall|t: int| 0 <= t < elite_count(scored@.len()) implies #[trigger] next@[t]@
            == scored@[order@[t] as int].1@ by {
            assert(next@[t]@ == ranked@[t].1@);
        }
        assert forall|t: int| elite_count(scored@.len()) <= t < GA_POP implies #[trigger] bred_child(
            in_order(keys_of(scored@), order@),
            in_order(inds_of(scored@), order@),
            next@[t]@,
        ) by {
            assert(bred_child(rkeys, rinds, next@[t]@));
        }
        if all_shaped(scored@) {
            assert forall|t: int| 0 <= t < GA_POP implies is_subset_shape(#[trigger] next@[t]@) by {
                if t < elites {
                    assert(next@[t]@ == ranked@[t].1@);
                }
            }
        }
    }
    next
}

/// A fresh population of 120 random candidate subsets.
pub fn initial_population(rng: &mut ThreadRng) -> (pop: Vec<Vec<usize>>)
    ensures
        pop@.len() == GA_POP,
        forall|k: int| 0 <= k < GA_POP ==> is_subset_shape(#[trigger] pop@[k]@),
{
    let mut pop: Vec<Vec<usize>> = Vec::new();
    while pop.len() < GA_POP
        invariant
            pop@.len() <= GA_POP,
            forall|k: int| 0 <= k < pop@.len() ==> is_subset_shape(#[trigger] pop@[k]@),
        decreases GA_POP - pop@.len(),
    {
        let ind = random_subset(rng);
        pop.push(ind);
    }
    pop
}

/// The final pick of the genetic search: the individual with the highest
/// key, the first one on equal keys; without individuals, the squares
/// `0..18`.
pub fn ga_best(scored: &Vec<(u64, Vec<usize>)>) -> (best: Vec<usize>)
    ensures
        scored@.len() == 0 ==> best@ == square_seq().take(SUBSET_K as int),
        scored@.len() > 0 ==> exists|i: int|
            {
                &&& 0 <= i < scored@.len()
                &&& best@ == scored@[i].1@
                &&& forall|j: int| 0 <= j < scored@.len() ==> scored@[j].0 <= scored@[i].0
                &&& forall|j: int| 0 <= j < i ==> scored@[j].0 < scored@[i].0
            },
{
    let n = scored.len();
    if n == 0 {
        let mut v = all_squares();
        v.truncate(SUBSET_K);
        return v;
    }
    let mut bi: usize = 0;
    let mut i: usize = 1;
    while i < n
        invariant
            n == scored@.len(),
            1 <= i <= n,
            bi < i,
            forall|j: int| 0 <= j < i ==> scored@[j].0 <= scored@[bi as int].0,
            forall|j: int| 0 <= j < bi ==> scored@[j].0 < scored@[bi as int].0,
        decreases n - i,
    {
        if scored[i].0 > scored[bi].0 {
            bi = i;
        }
        i += 1;
    }
    let best = scored[bi].1.clone();
    assert(best@ =~= scored@[bi as int].1@);
    best
}

} // verus!
