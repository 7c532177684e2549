//! The frequency predictor: per-square win counts, the accuracy of its
//! picks, and the picks themselves built from a frequency ranking of the
//! squares.

use crate::rng::{gen_index, shuffle, thread_rng};
use rand::rngs::ThreadRng;
use crate::seqs::{
    all_below, all_squares, lemma_nodup_subset_len, lemma_perm_facts, lemma_square_seq,
    lemma_sorted_nodup_strict, lemma_strict_nodup, same_members, sort_ascending, sorted,
    square_seq, strictly_sorted, vec_contains, SQUARES, lemma_cover_len, dedup_sorted,
    distinct_count,
};
use crate::subset::{concat, missing_squares};
use vstd::prelude::*;

verus! {

broadcast use {
    vstd::seq_lib::group_to_multiset_ensures,
    vstd::multiset::group_multiset_axioms,
    vstd::seq_lib::group_seq_properties,
};

/// Number of main squares in a pick.
pub const MAIN_PICKS: usize = 18;

/// Number of extra low-frequency squares added to a pick.
pub const BOOSTERS: usize = 2;

/// A frequency ranking of the board: every square exactly once, the most
/// frequent first.
pub open spec fn is_ranking(s: Seq<usize>) -> bool {
    &&& s.len() == SQUARES
    &&& s.no_duplicates()
    &&& all_below(s, SQUARES as nat)
}

/// A ranking holds every square.
pub proof fn lemma_ranking_covers(s: Seq<usize>)
    requires
        is_ranking(s),
    ensures
        forall|x: usize| x < SQUARES ==> s.contains(x),
{
    lemma_square_seq();
    assert forall|x: usize| s.contains(x) implies square_seq().contains(x) by {
        let i = choose|i: int| 0 <= i < s.len() && s[i] == x;
        assert(s[i] < SQUARES);
    }
    lemma_nodup_subset_len(s, square_seq());
}

/// The first `n` elements of `v`, or all of them when there are fewer.
pub fn prefix(v: &Vec<usize>, n: usize) -> (r: Vec<usize>)
    ensures
        r@ == v@.take(if n < v@.len() { n as int } else { v@.len() as int }),
{
    let m = if n < v.len() {
        n
    } else {
        v.len()
    };
    let mut r: Vec<usize> = Vec::new();
    let mut i: usize = 0;
    while i < m
        invariant
            m <= v@.len(),
            i <= m,
            r@ == v@.take(i as int),
        decreases m - i,
    {
        r.push(v[i]);
        i += 1;
        assert(r@ =~= v@.take(i as int));
    }
    r
}

/// The elements of `v` from last to first.
pub fn reversed(v: &Vec<usize>) -> (r: Vec<usize>)
    ensures
        r@ == v@.reverse(),
{
    let mut r: Vec<usize> = Vec::new();
    let n = v.len();
    let mut i: usize = 0;
    while i < n
        invariant
            n == v@.len(),
            i <= n,
            r@.len() == i,
            forall|k: int| 0 <= k < i ==> r@[k] == v@[n - 1 - k],
        decreases n - i,
    {
        r.push(v[n - 1 - i]);
        i += 1;
    }
    assert(r@ =~= v@.reverse());
    r
}

/// Appends `x` to `v` unless `v` already holds it.
fn push_absent(v: &mut Vec<usize>, x: usize)
    ensures
        old(v)@.contains(x) ==> final(v)@ == old(v)@,
        !old(v)@.contains(x) ==> final(v)@ == old(v)@.push(x),
{
    if !vec_contains(v, x) {
        v.push(x);
    }
}

/// Number of most frequent squares that the hybrid pick always keeps.
pub const HYBRID_FREQ_TOP: usize = 12;

/// Number of squares of the genetic search's pick that the hybrid pick
/// always keeps.
pub const HYBRID_EC_TOP: usize = 6;

/// The first six squares of the genetic search's pick (or all of them).
pub open spec fn ec_head(ec: Seq<usize>) -> Seq<usize> {
    ec.take(if ec.len() < HYBRID_EC_TOP { ec.len() as int } else { HYBRID_EC_TOP as int })
}

/// Main squares of a hybrid pick: the `m` most frequent squares together
/// with the first six squares of the genetic search's pick.
pub open spec fn hybrid_core(freq: Seq<usize>, ec: Seq<usize>, m: int) -> Set<usize> {
    freq.take(m).to_set().union(ec_head(ec).to_set())
}

/// The 18 main squares of the hybrid pick, in frequency order: the 12 most
/// frequent squares and the first 6 of `ec`, topped up with the next most
/// frequent squares.
fn hybrid_main(freq: &Vec<usize>, ec: &Vec<usize>) -> (out: Vec<usize>)
    requires
        is_ranking(freq@),
        all_below(ec@, SQUARES as nat),
    ensures
        out@.len() == MAIN_PICKS,
        out@.no_duplicates(),
        all_below(out@, SQUARES as nat),
        exists|m: int|
            HYBRID_FREQ_TOP <= m <= SQUARES && #[trigger] hybrid_core(freq@, ec@, m)
                == out@.to_set(),
{
    let freq_top = prefix(freq, HYBRID_FREQ_TOP);
    let ec_top = prefix(ec, HYBRID_EC_TOP);
    let joined = concat(&freq_top, &ec_top);
    let ghost e6 = ec_head(ec@);
    assert(ec_top@ == e6);
    // collect the distinct squares of both heads
    let mut set: Vec<usize> = Vec::new();
    let mut i: usize = 0;
    while i < joined.len()
        invariant
            i <= joined@.len(),
            joined@ == freq@.take(12) + e6,
            set@.no_duplicates(),
            set@.len() <= i,
            forall|x: usize| set@.contains(x) <==> joined@.take(i as int).contains(x),
        decreases joined@.len() - i,
    {
        let ghost before = set@;
        push_absent(&mut set, joined[i]);
        i += 1;
        proof {
            assert(joined@.take(i as int) =~= joined@.take(i - 1).push(joined@[i - 1]));
        }
    }
    assert(joined@.take(i as int) =~= joined@);
    // top up with the next most frequent squares
    let mut j: usize = 0;
    let ghost mut m: int = 12;
    while j < SQUARES && set.len() < MAIN_PICKS
        invariant
            is_ranking(freq@),
            all_below(ec@, SQUARES as nat),
            j <= SQUARES,
            m == if j < 12 { 12int } else { j as int },
            set@.no_duplicates(),
            set@.len() <= MAIN_PICKS,
            forall|x: usize| set@.contains(x) <==> (freq@.take(m) + e6).contains(x),
        decreases SQUARES - j,
    {
        push_absent(&mut set, freq[j]);
        j += 1;
        proof {
            let m2: int = if j < 12 { 12int } else { j as int };
            assert forall|x: usize| set@.contains(x) <==> (freq@.take(m2) + e6).contains(x) by {
                if j <= 12 {
                    assert(freq@.take(m2) == freq@.take(m));
                    assert(freq@.take(m).contains(freq@[j - 1]));
                } else {
                    assert(freq@.take(m2) =~= freq@.take(m).push(freq@[j - 1]));
                }
            }
            m = m2;
        }
    }
    proof {
        // the set reached 18 squares
        assert(freq@.take(m).no_duplicates());
        assert forall|x: usize| freq@.take(m).contains(x) implies set@.contains(x) by {
            assert((freq@.take(m) + e6).contains(x)) by {
                let q = choose|q: int| 0 <= q < m && freq@.take(m)[q] == x;
                assert((freq@.take(m) + e6)[q] == x);
            }
        }
        lemma_nodup_subset_len(freq@.take(m), set@);
        assert(set@.len() == MAIN_PICKS);
    }
    let ghost core = set@;
    // the set's squares in frequency order
    let mut out: Vec<usize> = Vec::new();
    let mut k: usize = 0;
    while k < SQUARES
        invariant
            is_ranking(freq@),
            k <= SQUARES,
            set@ == core,
            core.no_duplicates(),
            core.len() == MAIN_PICKS,
            out@.no_duplicates(),
            out@.len() <= MAIN_PICKS,
            forall|x: usize| #[trigger]
                out@.contains(x) <==> (core.contains(x) && freq@.take(k as int).contains(x)),
        decreases SQUARES - k,
    {
        let x = freq[k];
        let ghost before = out@;
        proof {
            assert(freq@.take(k + 1) =~= freq@.take(k as int).push(x));
            assert(!freq@.take(k as int).contains(x)) by {
                if freq@.take(k as int).contains(x) {
                    let q = choose|q: int| 0 <= q < k && freq@.take(k as int)[q] == x;
                    assert(freq@[q] == freq@[k as int]);
                }
            }
            if out@.len() == MAIN_PICKS && core.contains(x) {
                lemma_nodup_subset_len(out@, core);
                assert(out@.contains(x));
            }
        }
        let mut pushed = false;
        if out.len() < MAIN_PICKS && vec_contains(&set, x) {
            out.push(x);
            pushed = true;
        }
        proof {
            if pushed {
                assert(out@ == before.push(x));
                assert(core.contains(x));
                assert(out@[out@.len() - 1] == x);
                assert(!before.contains(x));
                assert forall|p: int, q: int|
                    0 <= p < out@.len() && 0 <= q < out@.len() && p != q implies out@[p]
                    != out@[q] by {
                    if p < before.len() && q < before.len() {
                        assert(before[p] != before[q]);
                    } else if p < before.len() {
                        assert(before.contains(before[p]));
                    } else if q < before.len() {
                        assert(before.contains(before[q]));
                    }
                }
            } else {
                assert(out@ == before);
                assert(!before.contains(x));
                assert(!core.contains(x));
            }
            assert forall|y: usize| out@.contains(y) <==> (core.contains(y) && freq@.take(
                k + 1,
            ).contains(y)) by {
                let tk = freq@.take(k as int);
                assert(freq@.take(k + 1) == tk.push(x));
                assert(before.contains(y) <==> (core.contains(y) && tk.contains(y)));
                if y != x {
                    assert(tk.push(x).contains(y) ==> tk.contains(y)) by {
                        if tk.push(x).contains(y) {
                            let q = choose|q: int| 0 <= q < tk.len() + 1 && tk.push(x)[q] == y;
                            assert(tk[q] == y);
                        }
                    }
                    assert(tk.contains(y) ==> tk.push(x).contains(y)) by {
                        if tk.contains(y) {
                            let q = choose|q: int| 0 <= q < tk.len() && tk[q] == y;
                            assert(tk.push(x)[q] == y);
                        }
                    }
                    assert(out@.contains(y) <==> before.contains(y)) by {
                        if pushed {
                            if out@.contains(y) {
                                let q = choose|q: int| 0 <= q < out@.len() && out@[q] == y;
                                assert(before[q] == y);
                            }
                            if before.contains(y) {
                                let q = choose|q: int| 0 <= q < before.len() && before[q] == y;
                                assert(out@[q] == y);
                            }
                        }
                    }
                } else {
                    assert(tk.push(x)[k as int] == x);
                }
            }
        }
        k += 1;
    }
    proof {
        lemma_ranking_covers(freq@);
        assert(freq@.take(25) =~= freq@);
        assert forall|x: usize| core.contains(x) implies out@.contains(x) by {
            assert((freq@.take(m) + e6).contains(x));
            let q = choose|q: int| 0 <= q < (freq@.take(m) + e6).len() && (freq@.take(m) + e6)[q] == x;
            if q < m {
                assert(freq@[q] == x);
            } else {
                assert(ec@[q - m] == x);
            }
        }
        lemma_nodup_subset_len(core, out@);
        lemma_nodup_subset_len(out@, core);
        assert(out@.to_set() =~= hybrid_core(freq@, ec@, m)) by {
            assert forall|x: usize| out@.to_set().contains(x) <==> hybrid_core(freq@, ec@, m).contains(x) by {
                if (freq@.take(m) + e6).contains(x) {
                    let q = choose|q: int| 0 <= q < (freq@.take(m) + e6).len() && (freq@.take(m) + e6)[q] == x;
                    if q < m {
                        assert(freq@.take(m).contains(x));
                    } else {
                        assert(e6[q - m] == x);
                        assert(e6.contains(x));
                    }
                }
                if freq@.take(m).contains(x) {
                    let q = choose|q: int| 0 <= q < m && freq@.take(m)[q] == x;
                    assert((freq@.take(m) + e6)[q] == x);
                }
                if e6.contains(x) {
                    let q = choose|q: int| 0 <= q < e6.len() && e6[q] == x;
                    assert((freq@.take(m) + e6)[m + q] == x);
                }
            }
        }
        assert forall|t: int| 0 <= t < out@.len() implies out@[t] < SQUARES by {
            assert(out@.contains(out@[t]));
            assert(freq@.contains(out@[t]));
        }
    }
    out
}

/// The reverse of a ranking is a ranking.
proof fn lemma_reverse_ranking(s: Seq<usize>)
    requires
        is_ranking(s),
    ensures
        is_ranking(s.reverse()),
{
    let r = s.reverse();
    assert forall|p: int, q: int| 0 <= p < r.len() && 0 <= q < r.len() && p != q implies r[p]
        != r[q] by {
        assert(r[p] == s[s.len() - 1 - p]);
        assert(r[q] == s[s.len() - 1 - q]);
    }
    assert forall|p: int| 0 <= p < r.len() implies r[p] < SQUARES by {
        assert(r[p] == s[s.len() - 1 - p]);
    }
}

/// Two distinct squares outside `out`: the squares are visited in a random
/// order (positions of the reversed ranking, shuffled) and the first two
/// that `out` does not hold are taken.
fn pick_boosters(out: &Vec<usize>, freq: &Vec<usize>, rng: &mut ThreadRng) -> (b: Vec<usize>)
    requires
        is_ranking(freq@),
        out@.len() == MAIN_PICKS,
    ensures
        b@.len() == BOOSTERS,
        b@[0] != b@[1],
        forall|k: int| 0 <= k < BOOSTERS ==> #[trigger] b@[k] < SQUARES && !out@.contains(b@[k]),
{
    let low_pool = reversed(freq);
    proof {
        lemma_reverse_ranking(freq@);
        lemma_ranking_covers(low_pool@);
        lemma_square_seq();
    }
    let mut idxs = all_squares();
    shuffle(&mut idxs, rng);
    proof {
        lemma_perm_facts(square_seq(), idxs@);
    }
    let mut boosters: Vec<usize> = Vec::new();
    let mut t: usize = 0;
    while t < idxs.len() && boosters.len() < BOOSTERS
        invariant
            is_ranking(low_pool@),
            forall|x: usize| x < SQUARES ==> low_pool@.contains(x),
            idxs@.len() == SQUARES,
            idxs@.no_duplicates(),
            same_members(square_seq(), idxs@),
            t <= SQUARES,
            boosters@.len() <= BOOSTERS,
            boosters@.no_duplicates(),
            forall|k: int|
                0 <= k < boosters@.len() ==> #[trigger] boosters@[k] < SQUARES && !out@.contains(
                    boosters@[k],
                ),
            forall|k: int|
                0 <= k < boosters@.len() ==> exists|s: int|
                    0 <= s < t && #[trigger] boosters@[k] == low_pool@[idxs@[s] as int],
            boosters@.len() < BOOSTERS ==> forall|s: int|
                0 <= s < t && !out@.contains(#[trigger] low_pool@[idxs@[s] as int])
                    ==> boosters@.contains(low_pool@[idxs@[s] as int]),
        decreases SQUARES - t,
    {
        let j = idxs[t];
        proof {
            assert(idxs@.contains(j));
            assert(square_seq().contains(j));
        }
        let candidate = low_pool[j];
        let ghost before = boosters@;
        proof {
            assert forall|k: int| 0 <= k < before.len() implies before[k] != candidate by {
                let s = choose|s: int| 0 <= s < t && before[k] == low_pool@[idxs@[s] as int];
                assert(idxs@[s] != idxs@[t as int]);
                assert(square_seq().contains(idxs@[s]));
            }
        }
        if !vec_contains(out, candidate) {
            boosters.push(candidate);
            proof {
                assert(boosters@ == before.push(candidate));
                assert forall|p: int, q: int|
                    0 <= p < boosters@.len() && 0 <= q < boosters@.len() && p != q implies boosters@[p]
                    != boosters@[q] by {
                    if p < before.len() && q < before.len() {
                    } else if p < before.len() {
                    } else if q < before.len() {
                    }
                }
                assert(boosters@[before.len() as int] == low_pool@[idxs@[t as int] as int]);
            }
        }
        t += 1;
        proof {
            assert forall|k: int| 0 <= k < boosters@.len() implies exists|s: int|
                0 <= s < t && #[trigger] boosters@[k] == low_pool@[idxs@[s] as int] by {
                if k < before.len() {
                    let s = choose|s: int|
                        0 <= s < t - 1 && before[k] == low_pool@[idxs@[s] as int];
                    assert(boosters@[k] == before[k]);
                } else {
                    assert(boosters@[k] == low_pool@[idxs@[t - 1] as int]);
                }
            }
            if boosters@.len() < BOOSTERS {
                assert forall|s: int|
                    0 <= s < t && !out@.contains(#[trigger] low_pool@[idxs@[s] as int])
                        implies boosters@.contains(low_pool@[idxs@[s] as int]) by {
                    if s < t - 1 {
                        assert(before.contains(low_pool@[idxs@[s] as int]));
                        let q = choose|q: int| 0 <= q < before.len() && before[q] == low_pool@[idxs@[s] as int];
                        assert(boosters@[q] == before[q]);
                    } else {
                        assert(boosters@[before.len() as int] == candidate);
                    }
                }
            }
        }
    }
    proof {
        if boosters@.len() < BOOSTERS {
            assert forall|x: usize| x < SQUARES implies out@.contains(x) || boosters@.contains(x) by {
                assert(low_pool@.contains(x));
                let p = choose|p: int| 0 <= p < low_pool@.len() && low_pool@[p] == x;
                assert(square_seq()[p] == p as usize);
                assert(square_seq().contains(p as usize));
                assert(idxs@.contains(p as usize));
                let s = choose|s: int| 0 <= s < idxs@.len() && idxs@[s] == p as usize;
                assert(low_pool@[idxs@[s] as int] == x);
            }
            lemma_cover_len(out@, boosters@);
        }
    }
    boosters
}

/// `pick` holds only values of `base`, and every value of `base` left out
/// is larger than every value of `pick`: `pick` is made of the smallest
/// distinct values of `base`.
pub open spec fn smallest_of(base: Seq<usize>, pick: Seq<usize>) -> bool {
    &&& forall|x: usize| pick.contains(x) ==> base.contains(x)
    &&& forall|x: usize, y: usize|
        base.contains(x) && !pick.contains(x) && pick.contains(y) ==> y < x
}

/// The board squares that `u` does not hold, in increasing order.
pub open spec fn complement_of(u: Seq<usize>) -> Seq<usize> {
    square_seq().filter(|x: usize| !u.contains(x))
}

/// `acc` with `x` appended when it has fewer than 18 entries and `x` is a
/// board square it does not hold yet.
pub open spec fn push_new(acc: Seq<usize>, x: usize) -> Seq<usize> {
    if acc.len() < MAIN_PICKS && x < SQUARES && !acc.contains(x) {
        acc.push(x)
    } else {
        acc
    }
}

/// `acc` topped up, in order, with the entries of `s` (see `push_new`).
pub open spec fn top_up_from(acc: Seq<usize>, s: Seq<usize>) -> Seq<usize>
    decreases s.len(),
{
    if s.len() == 0 {
        acc
    } else {
        push_new(top_up_from(acc, s.drop_last()), s.last())
    }
}

/// The second alternative of the two-alternative pick before sorting: the
/// squares `first` leaves out, topped up with the draws, then with the
/// smallest squares left.
pub open spec fn second_pick(first: Seq<usize>, draws: Seq<usize>) -> Seq<usize> {
    top_up_from(top_up_from(complement_of(first), draws), square_seq())
}

/// The distinct values of `base` cut to the 18 smallest, or, when there are
/// fewer, topped up with the most frequent squares not among them; sorted.
pub fn top_up_pick(base: &Vec<usize>, freq: &Vec<usize>) -> (pick: Vec<usize>)
    requires
        is_ranking(freq@),
    ensures
        pick@.len() == MAIN_PICKS,
        strictly_sorted(pick@),
        distinct_count(base@) >= MAIN_PICKS ==> smallest_of(base@, pick@),
        distinct_count(base@) < MAIN_PICKS ==> exists|m: int|
            0 <= m <= SQUARES && pick@.to_set() == #[trigger] base@.to_set().union(
                freq@.take(m).to_set(),
            ),
{
    let mut all = concat(base, &Vec::new());
    assert(all@ =~= base@);
    let ghost base_seq = all@;
    sort_ascending(&mut all);
    proof {
        lemma_perm_facts(base_seq, all@);
    }
    let d = dedup_sorted(&all);
    proof {
        lemma_strict_nodup(d@);
        d@.unique_seq_to_set();
        assert(d@.to_set() =~= base@.to_set()) by {
            assert forall|x: usize| d@.to_set().contains(x) <==> base@.to_set().contains(x) by {
                assert(d@.contains(x) <==> all@.contains(x));
            }
        }
    }
    let mut pick = prefix(&d, MAIN_PICKS);
    let ghost start = pick@;
    proof {
        assert(start.no_duplicates());
    }
    let mut j: usize = 0;
    while j < SQUARES && pick.len() < MAIN_PICKS
        invariant
            is_ranking(freq@),
            j <= SQUARES,
            pick@.no_duplicates(),
            pick@.len() <= MAIN_PICKS,
            d@.len() < MAIN_PICKS ==> start == d@,
            j > 0 ==> start.len() < MAIN_PICKS,
            j == 0 ==> pick@ == start,
            forall|x: usize| #[trigger] pick@.contains(x) <==> (start + freq@.take(j as int)).contains(x),
        decreases SQUARES - j,
    {
        let ghost before = pick@;
        push_absent(&mut pick, freq[j]);
        j += 1;
        proof {
            assert(freq@.take(j as int) =~= freq@.take(j - 1).push(freq@[j - 1]));
            assert(start + freq@.take(j as int) =~= (start + freq@.take(j - 1)).push(freq@[j - 1]));
            assert forall|x: usize| #[trigger] pick@.contains(x) <==> (start + freq@.take(j as int)).contains(x) by {
                if x != freq@[j - 1] {
                    assert(pick@.contains(x) <==> before.contains(x));
                }
            }
        }
    }
    proof {
        // the pick reached 18 values
        if pick@.len() < MAIN_PICKS {
            assert(j == SQUARES);
            assert(freq@.take(j as int) =~= freq@);
            assert forall|x: usize| freq@.contains(x) implies pick@.contains(x) by {
                let q = choose|q: int| 0 <= q < freq@.len() && freq@[q] == x;
                assert((start + freq@)[start.len() + q] == x);
            }
            lemma_nodup_subset_len(freq@, pick@);
        }
    }
    let ghost unsorted = pick@;
    sort_ascending(&mut pick);
    proof {
        lemma_perm_facts(unsorted, pick@);
        lemma_sorted_nodup_strict(pick@);
        if d@.len() >= MAIN_PICKS {
            assert(j == 0);
            assert(freq@.take(0) =~= Seq::<usize>::empty());
            assert(start + freq@.take(0) =~= start);
            assert(start == d@.take(MAIN_PICKS as int));
            assert forall|x: usize| pick@.contains(x) implies base@.contains(x) by {
                assert(start.contains(x));
                let q = choose|q: int| 0 <= q < start.len() && start[q] == x;
                assert(d@[q] == x);
                assert(d@.to_set().contains(x));
            }
            assert forall|x: usize, y: usize|
                base@.contains(x) && !pick@.contains(x) && pick@.contains(y) implies y < x by {
                assert(base@.to_set().contains(x));
                assert(d@.contains(x));
                let qx = choose|qx: int| 0 <= qx < d@.len() && d@[qx] == x;
                assert(start.contains(y));
                let qy = choose|qy: int| 0 <= qy < start.len() && start[qy] == y;
                if qx < MAIN_PICKS {
                    assert(start[qx] == x);
                    assert(start.contains(x));
                }
                assert(d@[qy] == y);
            }
        } else {
            let m = j as int;
            assert(pick@.to_set() =~= base@.to_set().union(freq@.take(m).to_set())) by {
                assert forall|x: usize| pick@.to_set().contains(x) <==> base@.to_set().union(
                    freq@.take(m).to_set(),
                ).contains(x) by {
                    assert(pick@.contains(x) <==> unsorted.contains(x));
                    assert(unsorted.contains(x) <==> (d@ + freq@.take(m)).contains(x));
                    if (d@ + freq@.take(m)).contains(x) {
                        let q = choose|q: int| 0 <= q < (d@ + freq@.take(m)).len() && (d@
                            + freq@.take(m))[q] == x;
                        if q < d@.len() {
                            assert(d@.contains(x));
                        } else {
                            assert(freq@.take(m)[q - d@.len()] == x);
                            assert(freq@.take(m).contains(x));
                        }
                    }
                    if d@.contains(x) {
                        let q = choose|q: int| 0 <= q < d@.len() && d@[q] == x;
                        assert((d@ + freq@.take(m))[q] == x);
                    }
                    if freq@.take(m).contains(x) {
                        let q = choose|q: int| 0 <= q < m && freq@.take(m)[q] == x;
                        assert((d@ + freq@.take(m))[d@.len() + q] == x);
                    }
                }
            }
        }
    }
    pick
}

/// The first two picks of the three-way prediction split the board: no
/// square is in both, and every square is in one of them.
pub proof fn lemma_three_way_split(freq: Seq<usize>, first: Seq<usize>, second: Seq<usize>)
    requires
        is_ranking(freq),
        first.to_set() == freq.take(MAIN_PICKS as int).to_set(),
        second.to_set() == freq.skip(MAIN_PICKS as int).to_set(),
    ensures
        forall|x: usize| !(first.contains(x) && second.contains(x)),
        forall|x: usize| x < SQUARES ==> first.contains(x) || second.contains(x),
{
    lemma_ranking_covers(freq);
    assert forall|x: usize| !(first.contains(x) && second.contains(x)) by {
        if first.contains(x) && second.contains(x) {
            assert(first.to_set().contains(x));
            assert(second.to_set().contains(x));
            let p = choose|p: int| 0 <= p < 18 && freq.take(18)[p] == x;
            let q = choose|q: int| 0 <= q < 7 && freq.skip(18)[q] == x;
            assert(freq[p] == freq[18 + q]);
        }
    }
    assert forall|x: usize| x < SQUARES implies first.contains(x) || second.contains(x) by {
        assert(freq.contains(x));
        let p = choose|p: int| 0 <= p < 25 && freq[p] == x;
        if p < 18 {
            assert(freq.take(18)[p] == x);
            assert(freq.take(18).to_set().contains(x));
            assert(first.to_set().contains(x));
        } else {
            assert(freq.skip(18)[p - 18] == x);
            assert(freq.skip(18).to_set().contains(x));
            assert(second.to_set().contains(x));
        }
    }
}

/// Sum of the win counts.
pub open spec fn count_sum(s: Seq<u64>) -> int
    decreases s.len(),
{
    if s.len() == 0 {
        0
    } else {
        count_sum(s.drop_last()) + s.last()
    }
}

/// Adding one to a count adds one to the sum.
pub proof fn lemma_count_sum_bump(s: Seq<u64>, i: int)
    requires
        0 <= i < s.len(),
        s[i] < u64::MAX,
    ensures
        count_sum(s.update(i, (s[i] + 1) as u64)) == count_sum(s) + 1,
    decreases s.len(),
{
    let t = s.update(i, (s[i] + 1) as u64);
    if i == s.len() - 1 {
        assert(t.drop_last() =~= s.drop_last());
    } else {
        lemma_count_sum_bump(s.drop_last(), i);
        assert(t.drop_last() =~= s.drop_last().update(i, (s[i] + 1) as u64));
    }
}

/// Every count starting at one: the sum is the number of counts.
proof fn lemma_count_sum_ones(n: nat)
    ensures
        count_sum(Seq::new(n, |i: int| 1u64)) == n,
    decreases n,
{
    if n > 0 {
        lemma_count_sum_ones((n - 1) as nat);
        assert(Seq::new(n, |i: int| 1u64).drop_last() =~= Seq::new((n - 1) as nat, |i: int| 1u64));
    }
}

/// Per-square win counts (starting at one each) and the hit record of the
/// predictor's picks.
pub struct HybridPredictor {
    counts: Vec<u64>,
    total_rounds: usize,
    correct_hybrid: usize,
}

impl HybridPredictor {
    #[verifier::type_invariant]
    spec fn well_formed(self) -> bool {
        &&& self.counts@.len() == SQUARES
        &&& self.correct_hybrid <= self.total_rounds
        &&& count_sum(self.counts@) == SQUARES + self.total_rounds
    }

    /// Win count of each square (one more than its number of wins).
    pub closed spec fn count_view(self) -> Seq<u64> {
        self.counts@
    }

    /// Number of rounds recorded.
    pub closed spec fn rounds_view(self) -> nat {
        self.total_rounds as nat
    }

    /// Number of recorded rounds whose winning square was in the pick.
    pub closed spec fn hits_view(self) -> nat {
        self.correct_hybrid as nat
    }

    /// A fresh predictor: every square counted once (Laplace smoothing), no
    /// rounds recorded.
    pub fn new() -> (p: Self)
        ensures
            p.count_view() == Seq::new(SQUARES as nat, |i: int| 1u64),
            p.rounds_view() == 0,
            p.hits_view() == 0,
    {
        let mut counts: Vec<u64> = Vec::new();
        while counts.len() < SQUARES
            invariant
                counts@.len() <= SQUARES,
                forall|k: int| 0 <= k < counts@.len() ==> counts@[k] == 1,
            decreases SQUARES - counts@.len(),
        {
            counts.push(1);
        }
        assert(counts@ =~= Seq::new(SQUARES as nat, |i: int| 1u64));
        proof {
            lemma_count_sum_ones(SQUARES as nat);
        }
        HybridPredictor { counts, total_rounds: 0, correct_hybrid: 0 }
    }

    /// Records a round: the round count grows by one, the hit count grows
    /// by one when `predicted` holds the winning square, and the winning
    /// square's count grows by one.
    pub fn update(&mut self, actual: usize, predicted: &[usize])
        requires
            actual < SQUARES,
            old(self).rounds_view() < usize::MAX,
            old(self).count_view()[actual as int] < u64::MAX,
        ensures
            final(self).rounds_view() == old(self).rounds_view() + 1,
            final(self).hits_view() == old(self).hits_view() + (if predicted@.contains(actual) {
                1int
            } else {
                0int
            }),
            final(self).count_view() == old(self).count_view().update(
                actual as int,
                (old(self).count_view()[actual as int] + 1) as u64,
            ),
            final(self).count_view().len() == SQUARES,
            final(self).hits_view() <= final(self).rounds_view(),
    {
        proof {
            use_type_invariant(&*self);
        }
        let rounds = self.total_rounds + 1;
        let mut hit = false;
        let mut i: usize = 0;
        while i < predicted.len()
            invariant
                i <= predicted@.len(),
                hit <==> predicted@.subrange(0, i as int).contains(actual),
            decreases predicted@.len() - i,
        {
            if predicted[i] == actual {
                hit = true;
            }
            i += 1;
            assert(predicted@.subrange(0, i as int) =~= predicted@.subrange(0, i - 1).push(
                predicted@[i - 1],
            ));
        }
        assert(predicted@.subrange(0, i as int) =~= predicted@);
        let hits = if hit {
            self.correct_hybrid + 1
        } else {
            self.correct_hybrid
        };
        let mut bumped: Vec<u64> = Vec::new();
        let mut k: usize = 0;
        while k < SQUARES
            invariant
                k <= SQUARES,
                self.counts@.len() == SQUARES,
                self.counts@ == old(self).count_view(),
                actual < SQUARES,
                old(self).count_view()[actual as int] < u64::MAX,
                bumped@ == old(self).count_view().update(
                    actual as int,
                    (old(self).count_view()[actual as int] + 1) as u64,
                ).take(k as int),
            decreases SQUARES - k,
        {
            let c = self.counts[k];
            if k == actual {
                bumped.push(c + 1);
            } else {
                bumped.push(c);
            }
            k += 1;
            assert(bumped@ =~= old(self).count_view().update(
                actual as int,
                (old(self).count_view()[actual as int] + 1) as u64,
            ).take(k as int));
        }
        proof {
            lemma_count_sum_bump(old(self).count_view(), actual as int);
            assert(bumped@ =~= old(self).count_view().update(
                actual as int,
                (old(self).count_view()[actual as int] + 1) as u64,
            ));
        }
        *self = HybridPredictor { counts: bumped, total_rounds: rounds, correct_hybrid: hits };
    }

    /// Win counts of the squares. They always add up to the number of
    /// squares plus the number of rounds recorded: each count starts at one
    /// and each recorded round adds one.
    pub fn counts(&self) -> (r: &Vec<u64>)
        ensures
            r@ == self.count_view(),
            r@.len() == SQUARES,
            count_sum(r@) == SQUARES + self.rounds_view(),
    {
        proof {
            use_type_invariant(self);
        }
        &self.counts
    }

    /// Number of rounds recorded.
    pub fn total_rounds(&self) -> (r: usize)
        ensures
            r == self.rounds_view(),
    {
        self.total_rounds
    }

    /// Number of recorded rounds that the pick hit.
    pub fn correct_hybrid(&self) -> (r: usize)
        ensures
            r == self.hits_view(),
            r <= self.rounds_view(),
    {
        proof {
            use_type_invariant(self);
        }
        self.correct_hybrid
    }

    /// The basic pick from a frequency ranking: the 18 most frequent
    /// squares plus two distinct squares drawn at random from the 7 least
    /// frequent, sorted: 20 distinct squares. A cold square already drawn
    /// is skipped, so the second draw is uniform over the other six.
    pub fn predict(&self, ranking: &Vec<usize>) -> (pick: Vec<usize>)
        requires
            is_ranking(ranking@),
        ensures
            pick@.len() == MAIN_PICKS + BOOSTERS,
            strictly_sorted(pick@),
            all_below(pick@, SQUARES as nat),
            exists|a: usize, b: usize|
                {
                    &&& a != b
                    &&& ranking@.subrange(MAIN_PICKS as int, SQUARES as int).contains(a)
                    &&& ranking@.subrange(MAIN_PICKS as int, SQUARES as int).contains(b)
                    &&& pick@.to_multiset() == ranking@.take(MAIN_PICKS as int).to_multiset().insert(
                        a,
                    ).insert(b)
                },
    {
        let mut rng = thread_rng();
        let mut top = prefix(ranking, MAIN_PICKS);
        let rev = reversed(ranking);
        let low_pool = prefix(&rev, 7);
        let ghost tail = ranking@.subrange(MAIN_PICKS as int, SQUARES as int);
        let ghost main = top@;
        let j1 = gen_index(&mut rng, 7);
        let d = gen_index(&mut rng, 6);
        let j2 = if d >= j1 {
            d + 1
        } else {
            d
        };
        let a = low_pool[j1];
        let b = low_pool[j2];
        proof {
            lemma_ranking_covers(ranking@);
            assert(a == ranking@[24 - j1 as int]);
            assert(b == ranking@[24 - j2 as int]);
            assert(tail[24 - j1 as int - 18] == a);
            assert(tail[24 - j2 as int - 18] == b);
            assert(a != b);
            assert(main == ranking@.take(18));
            assert(!main.contains(a)) by {
                if main.contains(a) {
                    let q = choose|q: int| 0 <= q < main.len() && main[q] == a;
                    assert(ranking@[q] == ranking@[24 - j1 as int]);
                }
            }
            assert(!main.contains(b)) by {
                if main.contains(b) {
                    let q = choose|q: int| 0 <= q < main.len() && main[q] == b;
                    assert(ranking@[q] == ranking@[24 - j2 as int]);
                }
            }
        }
        top.push(a);
        top.push(b);
        let ghost unsorted = top@;
        proof {
            assert(unsorted == main.push(a).push(b));
            assert(unsorted.to_multiset() == main.to_multiset().insert(a).insert(b));
            assert forall|p: int, q: int|
                0 <= p < unsorted.len() && 0 <= q < unsorted.len() && p != q implies unsorted[p]
                != unsorted[q] by {
                if p < 18 && q < 18 {
                    assert(main[p] == ranking@[p]);
                    assert(main[q] == ranking@[q]);
                } else if p < 18 {
                    assert(main.contains(main[p]));
                } else if q < 18 {
                    assert(main.contains(main[q]));
                }
            }
            assert forall|p: int| 0 <= p < unsorted.len() implies unsorted[p] < SQUARES by {
                if p < 18 {
                    assert(main[p] == ranking@[p]);
                }
            }
        }
        sort_ascending(&mut top);
        proof {
            lemma_perm_facts(unsorted, top@);
            lemma_sorted_nodup_strict(top@);
            assert forall|p: int| 0 <= p < top@.len() implies top@[p] < SQUARES by {
                assert(top@.contains(top@[p]));
                assert(unsorted.contains(top@[p]));
            }
        }
        top
    }

    /// The hybrid pick. Its 18 main squares are the 12 most frequent
    /// squares and the first 6 squares of the genetic search's pick
    /// (`ec_set`), topped up with the next most frequent squares; two more
    /// distinct squares outside them are added at random; the pick is
    /// returned sorted.
    pub fn predict_hybrid(&self, freq_order: &Vec<usize>, ec_set: &Vec<usize>) -> (pick: Vec<
        usize,
    >)
        requires
            is_ranking(freq_order@),
            all_below(ec_set@, SQUARES as nat),
        ensures
            pick@.len() == MAIN_PICKS + BOOSTERS,
            strictly_sorted(pick@),
            exists|m: int, a: usize, b: usize|
                {
                    &&& HYBRID_FREQ_TOP <= m <= SQUARES
                    &&& hybrid_core(freq_order@, ec_set@, m).len() == MAIN_PICKS
                    &&& a != b
                    &&& a < SQUARES
                    &&& b < SQUARES
                    &&& !hybrid_core(freq_order@, ec_set@, m).contains(a)
                    &&& !hybrid_core(freq_order@, ec_set@, m).contains(b)
                    &&& pick@.to_set() == #[trigger] hybrid_core(freq_order@, ec_set@, m).insert(
                        a,
                    ).insert(b)
                },
    {
        let mut rng = thread_rng();
        let mut out = hybrid_main(freq_order, ec_set);
        let ghost main = out@;
        // top-up with the lowest squares; the main part already has 18
        let mut i: usize = 0;
        while i < SQUARES && out.len() < MAIN_PICKS
            invariant
                out@ == main,
                main.len() == MAIN_PICKS,
            decreases SQUARES - i,
        {
            push_absent(&mut out, i);
            i += 1;
        }
        let boosters = pick_boosters(&out, freq_order, &mut rng);
        let a = boosters[0];
        let b = boosters[1];
        out.push(a);
        out.push(b);
        let ghost unsorted = out@;
        proof {
            assert(unsorted == main.push(a).push(b));
            assert(!main.contains(a));
            assert(!main.contains(b));
            assert(unsorted.no_duplicates()) by {
                assert forall|p: int, q: int|
                    0 <= p < unsorted.len() && 0 <= q < unsorted.len() && p != q implies unsorted[p]
                    != unsorted[q] by {
                    if p < 18 && q < 18 {
                    } else if p < 18 {
                        assert(main.contains(main[p]));
                    } else if q < 18 {
                        assert(main.contains(main[q]));
                    }
                }
            }
        }
        sort_ascending(&mut out);
        proof {
            lemma_perm_facts(unsorted, out@);
            lemma_sorted_nodup_strict(out@);
            let m = choose|m: int|
                HYBRID_FREQ_TOP <= m <= SQUARES && #[trigger] hybrid_core(freq_order@, ec_set@, m)
                    == main.to_set();
            main.unique_seq_to_set();
            assert(out@.to_set() =~= hybrid_core(freq_order@, ec_set@, m).insert(a).insert(b)) by {
                assert forall|x: usize| out@.to_set().contains(x) <==> main.to_set().insert(
                    a,
                ).insert(b).contains(x) by {
                    assert(out@.contains(x) <==> unsorted.contains(x));
                    if unsorted.contains(x) && x != a && x != b {
                        let q = choose|q: int| 0 <= q < unsorted.len() && unsorted[q] == x;
                        assert(main[q] == x);
                    }
                    if main.contains(x) {
                        let q = choose|q: int| 0 <= q < main.len() && main[q] == x;
                        assert(unsorted[q] == x);
                    }
                    assert(unsorted[18] == a);
                    assert(unsorted[19] == b);
                }
            }
            assert(!hybrid_core(freq_order@, ec_set@, m).contains(a));
        }
        out
    }

    /// Three alternative picks. The first is the 18 most frequent squares,
    /// the second the remaining 7, the third the distinct squares of the
    /// genetic search's pick `ec_list` cut to the 18 smallest or topped up
    /// with the most frequent squares not among them. Each is sorted.
    pub fn predict_3way(&self, freq_order: &Vec<usize>, ec_list: &Vec<usize>) -> (picks: (
        Vec<usize>,
        Vec<usize>,
        Vec<usize>,
    ))
        requires
            is_ranking(freq_order@),
        ensures
            picks.0@.len() == MAIN_PICKS,
            strictly_sorted(picks.0@),
            picks.0@.to_set() == freq_order@.take(MAIN_PICKS as int).to_set(),
            picks.1@.len() == SQUARES - MAIN_PICKS,
            strictly_sorted(picks.1@),
            picks.1@.to_set() == freq_order@.skip(MAIN_PICKS as int).to_set(),
            picks.2@.len() == MAIN_PICKS,
            strictly_sorted(picks.2@),
            distinct_count(ec_list@) >= MAIN_PICKS ==> smallest_of(ec_list@, picks.2@),
            distinct_count(ec_list@) < MAIN_PICKS ==> exists|m: int|
                0 <= m <= SQUARES && picks.2@.to_set() == #[trigger] ec_list@.to_set().union(
                    freq_order@.take(m).to_set(),
                ),
    {
        let freq = freq_order;
        let mut alt1 = prefix(freq, MAIN_PICKS);
        let ghost top = alt1@;
        assert(top == freq@.take(18));
        // the next squares by frequency, skipping the first pick
        let mut alt2: Vec<usize> = Vec::new();
        let mut k: usize = 0;
        while k < SQUARES
            invariant
                is_ranking(freq@),
                alt1@ == top,
                top == freq@.take(18),
                k <= SQUARES,
                alt2@ == freq@.subrange(18, if k < 18 { 18int } else { k as int }),
            decreases SQUARES - k,
        {
            let x = freq[k];
            proof {
                if k < 18 {
                    assert(top[k as int] == x);
                } else {
                    assert(!top.contains(x)) by {
                        if top.contains(x) {
                            let q = choose|q: int| 0 <= q < 18 && top[q] == x;
                            assert(freq@[q] == freq@[k as int]);
                        }
                    }
                }
            }
            if alt2.len() < MAIN_PICKS && !vec_contains(&alt1, x) {
                alt2.push(x);
            }
            k += 1;
            proof {
                if k > 18 {
                    assert(alt2@ =~= freq@.subrange(18, k as int));
                }
            }
        }
        // fill from the lowest squares (every square is already placed)
        let ghost second = alt2@;
        proof {
            lemma_ranking_covers(freq@);
        }
        let mut i: usize = 0;
        while i < SQUARES && alt2.len() < MAIN_PICKS
            invariant
                is_ranking(freq@),
                forall|x: usize| x < SQUARES ==> freq@.contains(x),
                alt1@ == top,
                top == freq@.take(18),
                second == freq@.subrange(18, 25),
                alt2@ == second,
                i <= SQUARES,
            decreases SQUARES - i,
        {
            proof {
                assert(freq@.contains(i));
                let q = choose|q: int| 0 <= q < 25 && freq@[q] == i;
                if q < 18 {
                    assert(top[q] == i);
                    assert(top.contains(i));
                } else {
                    assert(second[q - 18] == i);
                    assert(second.contains(i));
                }
            }
            if !vec_contains(&alt2, i) && !vec_contains(&alt1, i) {
                alt2.push(i);
            }
            i += 1;
        }
        let alt3 = top_up_pick(ec_list, freq);
        sort_ascending(&mut alt1);
        sort_ascending(&mut alt2);
        proof {
            assert(top.no_duplicates());
            assert(second.no_duplicates());
            lemma_perm_facts(top, alt1@);
            lemma_perm_facts(second, alt2@);
            lemma_sorted_nodup_strict(alt1@);
            lemma_sorted_nodup_strict(alt2@);
            assert(freq@.skip(18) =~= second);
            assert(alt1@.to_set() =~= top.to_set());
            assert(alt2@.to_set() =~= second.to_set());
        }
        (alt1, alt2, alt3)
    }

    /// The two-alternative pick. The first alternative is the distinct
    /// squares of the hybrid pick `hybrid` cut to the 18 smallest, or topped
    /// up with the most frequent squares of `freq_order` not among them.
    /// The second alternative holds every square the first leaves out,
    /// topped up to 18 with the weighted random draws `draws` (in order,
    /// each board square not yet present) and, should the draws run out
    /// first, with the smallest squares not yet present. Both are sorted.
    pub fn predict_two_alt(
        &self,
        hybrid: &Vec<usize>,
        freq_order: &Vec<usize>,
        draws: &Vec<usize>,
    ) -> (picks: (Vec<usize>, Vec<usize>))
        requires
            is_ranking(freq_order@),
            all_below(hybrid@, SQUARES as nat),
        ensures
            picks.0@.len() == MAIN_PICKS,
            strictly_sorted(picks.0@),
            all_below(picks.0@, SQUARES as nat),
            distinct_count(hybrid@) >= MAIN_PICKS ==> smallest_of(hybrid@, picks.0@),
            distinct_count(hybrid@) < MAIN_PICKS ==> exists|m: int|
                0 <= m <= SQUARES && picks.0@.to_set() == #[trigger] hybrid@.to_set().union(
                    freq_order@.take(m).to_set(),
                ),
            picks.1@.len() == MAIN_PICKS,
            strictly_sorted(picks.1@),
            all_below(picks.1@, SQUARES as nat),
            forall|x: usize| x < SQUARES && !picks.0@.contains(x) ==> picks.1@.contains(x),
            picks.1@.to_set() == second_pick(picks.0@, draws@).to_set(),
    {
        let alt1 = top_up_pick(hybrid, freq_order);
        proof {
            lemma_ranking_covers(freq_order@);
            assert forall|k: int| 0 <= k < alt1@.len() implies alt1@[k] < SQUARES by {
                let x = alt1@[k];
                assert(alt1@.contains(x));
                if distinct_count(hybrid@) >= MAIN_PICKS {
                    assert(hybrid@.contains(x));
                } else {
                    let m = choose|m: int|
                        0 <= m <= SQUARES && alt1@.to_set() == #[trigger] hybrid@.to_set().union(
                            freq_order@.take(m).to_set(),
                        );
                    assert(alt1@.to_set().contains(x));
                    if hybrid@.to_set().contains(x) {
                        assert(hybrid@.contains(x));
                    } else {
                        assert(freq_order@.take(m).contains(x));
                        let q = choose|q: int| 0 <= q < m && freq_order@.take(m)[q] == x;
                        assert(freq_order@[q] == x);
                    }
                }
            }
            lemma_strict_nodup(alt1@);
        }
        // the squares the first alternative leaves out
        let mut alt2: Vec<usize> = Vec::new();
        let mut i: usize = 0;
        while i < SQUARES
            invariant
                i <= SQUARES,
                alt2@ == square_seq().take(i as int).filter(|x: usize| !alt1@.contains(x)),
                strictly_sorted(alt2@),
                forall|k: int| 0 <= k < alt2@.len() ==> alt2@[k] < i,
                forall|x: usize| alt2@.contains(x) <==> (x < i && !alt1@.contains(x)),
            decreases SQUARES - i,
        {
            proof {
                assert(square_seq().take(i + 1) =~= square_seq().take(i as int).push(i));
                square_seq().take(i as int).lemma_filter_push(i, |x: usize| !alt1@.contains(x));
            }
            let ghost before = alt2@;
            if !vec_contains(&alt1, i) {
                alt2.push(i);
                proof {
                    assert forall|x: usize| alt2@.contains(x) <==> (x < i + 1 && !alt1@.contains(x)) by {
                        if alt2@.contains(x) && x != i {
                            let q = choose|q: int| 0 <= q < alt2@.len() && alt2@[q] == x;
                            assert(before[q] == x);
                        }
                        if x < i && !alt1@.contains(x) {
                            assert(before.contains(x));
                            let q = choose|q: int| 0 <= q < before.len() && before[q] == x;
                            assert(alt2@[q] == x);
                        }
                        if x == i {
                            assert(alt2@[before.len() as int] == i);
                        }
                    }
                }
            }
            i += 1;
        }
        let ghost c = alt2@;
        proof {
            lemma_square_seq();
            assert(square_seq().take(25) =~= square_seq());
            lemma_strict_nodup(c);
            // the first alternative's 18 squares and the 7 others make the board
            let both = c + alt1@;
            assert(both.no_duplicates()) by {
                assert forall|p: int, q: int|
                    0 <= p < both.len() && 0 <= q < both.len() && p != q implies both[p] != both[q] by {
                    if p < c.len() && q < c.len() {
                    } else if p >= c.len() && q >= c.len() {
                    } else if p < c.len() {
                        assert(c.contains(c[p]));
                        assert(alt1@.contains(alt1@[q - c.len()]));
                    } else {
                        assert(c.contains(c[q]));
                        assert(alt1@.contains(alt1@[p - c.len()]));
                    }
                }
            }
            assert forall|x: usize| both.contains(x) implies square_seq().contains(x) by {
                let q = choose|q: int| 0 <= q < both.len() && both[q] == x;
                if q < c.len() {
                    assert(c.contains(x));
                } else {
                    assert(alt1@[q - c.len()] == x);
                }
            }
            lemma_nodup_subset_len(both, square_seq());
            assert(c.len() <= SQUARES - MAIN_PICKS);
        }
        // topped up with the weighted draws
        let mut j: usize = 0;
        while j < draws.len()
            invariant
                j <= draws@.len(),
                alt2@ == top_up_from(c, draws@.take(j as int)),
                alt2@.no_duplicates(),
                all_below(alt2@, SQUARES as nat),
                alt2@.len() <= MAIN_PICKS,
                forall|x: usize| c.contains(x) ==> alt2@.contains(x),
            decreases draws@.len() - j,
        {
            let x = draws[j];
            let ghost before = alt2@;
            proof {
                assert(draws@.take(j + 1).drop_last() =~= draws@.take(j as int));
            }
            if alt2.len() < MAIN_PICKS && x < SQUARES && !vec_contains(&alt2, x) {
                alt2.push(x);
                proof {
                    assert(alt2@ == before.push(x));
                    assert forall|p: int, q: int|
                        0 <= p < alt2@.len() && 0 <= q < alt2@.len() && p != q implies alt2@[p]
                        != alt2@[q] by {
                        if p < before.len() && q < before.len() {
                        } else if p < before.len() {
                            assert(before.contains(before[p]));
                        } else if q < before.len() {
                            assert(before.contains(before[q]));
                        }
                    }
                    assert forall|y: usize| c.contains(y) implies alt2@.contains(y) by {
                        let q = choose|q: int| 0 <= q < before.len() && before[q] == y;
                        assert(alt2@[q] == y);
                    }
                }
            }
            j += 1;
        }
        proof {
            assert(draws@.take(draws@.len() as int) =~= draws@);
        }
        let ghost after_draws = alt2@;
        // and, should the draws run out, with the smallest squares left
        let mut k: usize = 0;
        while k < SQUARES
            invariant
                k <= SQUARES,
                alt2@ == top_up_from(after_draws, square_seq().take(k as int)),
                alt2@.no_duplicates(),
                all_below(alt2@, SQUARES as nat),
                alt2@.len() <= MAIN_PICKS,
                forall|x: usize| after_draws.contains(x) ==> alt2@.contains(x),
                alt2@.len() < MAIN_PICKS ==> forall|x: usize| x < k ==> alt2@.contains(x),
            decreases SQUARES - k,
        {
            let ghost before = alt2@;
            proof {
                assert(square_seq().take(k + 1).drop_last() =~= square_seq().take(k as int));
                assert(square_seq().take(k + 1).last() == k);
            }
            if alt2.len() < MAIN_PICKS && !vec_contains(&alt2, k) {
                alt2.push(k);
                proof {
                    assert(alt2@ == before.push(k));
                    assert forall|p: int, q: int|
                        0 <= p < alt2@.len() && 0 <= q < alt2@.len() && p != q implies alt2@[p]
                        != alt2@[q] by {
                        if p < before.len() && q < before.len() {
                        } else if p < before.len() {
                            assert(before.contains(before[p]));
                        } else if q < before.len() {
                            assert(before.contains(before[q]));
                        }
                    }
                    assert forall|y: usize| after_draws.contains(y) || (alt2@.len() < MAIN_PICKS && y < k)
                        implies alt2@.contains(y) by {
                        if before.contains(y) {
                            let q = choose|q: int| 0 <= q < before.len() && before[q] == y;
                            assert(alt2@[q] == y);
                        }
                    }
                    assert(alt2@[before.len() as int] == k);
                }
            } else {
                proof {
                    if alt2@.len() < MAIN_PICKS {
                        assert(before.contains(k as usize));
                    }
                }
            }
            k += 1;
        }
        proof {
            assert(square_seq().take(25) =~= square_seq());
            if alt2@.len() < MAIN_PICKS {
                assert forall|x: usize| square_seq().contains(x) implies alt2@.contains(x) by {}
                lemma_nodup_subset_len(square_seq(), alt2@);
            }
            assert forall|x: usize| x < SQUARES && !alt1@.contains(x) implies alt2@.contains(x) by {
                assert(c.contains(x));
            }
        }
        let ghost unsorted = alt2@;
        sort_ascending(&mut alt2);
        proof {
            lemma_perm_facts(unsorted, alt2@);
            lemma_sorted_nodup_strict(alt2@);
            assert forall|t: int| 0 <= t < alt2@.len() implies alt2@[t] < SQUARES by {
                assert(alt2@.contains(alt2@[t]));
                assert(unsorted.contains(alt2@[t]));
            }
            assert(alt2@.to_set() =~= unsorted.to_set()) by {
                assert forall|x: usize| alt2@.to_set().contains(x) <==> unsorted.to_set().contains(x) by {
                    assert(alt2@.contains(x) <==> unsorted.contains(x));
                }
            }
            assert(c == complement_of(alt1@));
        }
        (alt1, alt2)
    }

    /// Whether the pick's hit rate is at least `percent` percent (never
    /// before the first recorded round).
    pub fn accuracy_at_least(&self, percent: u64) -> (r: bool)
        ensures
            r == (self.rounds_view() > 0 && self.hits_view() * 100 >= percent * self.rounds_view()),
    {
        if self.total_rounds == 0 {
            return false;
        }
        let hits = self.correct_hybrid as u128;
        let rounds = self.total_rounds as u128;
        let p = percent as u128;
        assert(hits * 100 <= u128::MAX) by (nonlinear_arith)
            requires
                hits <= u64::MAX,
        ;
        assert(p * rounds <= u128::MAX) by (nonlinear_arith)
            requires
                p <= u64::MAX,
                rounds <= u64::MAX,
        ;
        hits * 100 >= p * rounds
    }
}

} // verus!