//! The most frequent winning squares of a history.

use vstd::prelude::*;

verus! {

broadcast use {
    vstd::seq_lib::group_to_multiset_ensures,
    vstd::multiset::group_multiset_axioms,
    vstd::seq_lib::group_seq_properties,
};

/// How often `x` occurs in `data`.
pub open spec fn occurrences(data: Seq<usize>, x: usize) -> nat {
    data.to_multiset().count(x)
}

/// A value occurs no more often than the length of the sequence.
pub proof fn lemma_occurrences_le_len(s: Seq<usize>, x: usize)
    ensures
        occurrences(s, x) <= s.len(),
    decreases s.len(),
{
    if s.len() > 0 {
        let init = s.drop_last();
        lemma_occurrences_le_len(init, x);
        assert(s =~= init.push(s.last()));
        assert(s.to_multiset() == init.to_multiset().insert(s.last()));
    } else {
        assert(s.to_multiset() =~= vstd::multiset::Multiset::empty());
    }
}

/// The values of a list of (value, count) pairs.
pub open spec fn pair_values(pairs: Seq<(usize, usize)>) -> Seq<usize> {
    pairs.map_values(|p: (usize, usize)| p.0)
}

/// `pairs` lists distinct values of `data`, each with its number of
/// occurrences, in non-increasing order of that number.
pub open spec fn is_frequency_table(data: Seq<usize>, pairs: Seq<(usize, usize)>) -> bool {
    &&& pair_values(pairs).no_duplicates()
    &&& forall|k: int|
        0 <= k < pairs.len() ==> data.contains(#[trigger] pairs[k].0) && pairs[k].1 as nat
            == occurrences(data, pairs[k].0)
    &&& forall|a: int, b: int| 0 <= a < b < pairs.len() ==> pairs[a].1 >= pairs[b].1
}

/// The `n` most frequent values of `data` with their number of
/// occurrences, most frequent first. Every value of `data` left out occurs
/// no more often than any one listed. Among values that occur equally
/// often, which come first is left open.
pub fn top_n_frequent(data: &[usize], n: usize) -> (top: Vec<(usize, usize)>)
    ensures
        is_frequency_table(data@, top@),
        top@.len() == if n < data@.to_set().len() {
            n as nat
        } else {
            data@.to_set().len()
        },
        forall|x: usize, t: int|
            data@.contains(x) && !pair_values(top@).contains(x) && 0 <= t < top@.len()
                ==> #[trigger] occurrences(data@, x) <= #[trigger] top@[t].1,
{
    // count each distinct value, in order of first occurrence
    let mut pairs: Vec<(usize, usize)> = Vec::new();
    let len = data.len();
    let mut i: usize = 0;
    while i < len
        invariant
            len == data@.len(),
            i <= data@.len(),
            pair_values(pairs@).no_duplicates(),
            forall|x: usize|
                #[trigger] pair_values(pairs@).contains(x) <==> data@.take(i as int).contains(x),
            forall|k: int|
                0 <= k < pairs@.len() ==> (#[trigger] pairs@[k]).1 as nat == occurrences(
                    data@.take(i as int),
                    pairs@[k].0,
                ),
        decreases data@.len() - i,
    {
        let x = data[i];
        let ghost prev = pairs@;
        proof {
            assert(data@.take(i + 1) =~= data@.take(i as int).push(x));
            assert(data@.take(i + 1).to_multiset() == data@.take(i as int).to_multiset().insert(x));
        }
        proof {
            lemma_occurrences_le_len(data@.take(i as int), x);
        }
        let mut found = false;
        let mut j: usize = 0;
        while j < pairs.len()
            invariant
                j <= pairs@.len(),
                pairs@.len() == prev.len(),
                !found ==> pairs@ == prev,
                !found ==> forall|t: int| 0 <= t < j ==> prev[t].0 != x,
                found ==> exists|t: int|
                    0 <= t < prev.len() && prev[t].0 == x && pairs@ == prev.update(
                        t,
                        (x, (prev[t].1 + 1) as usize),
                    ),
                i < data@.len(),
                len == data@.len(),
                forall|k: int|
                    0 <= k < prev.len() ==> (#[trigger] prev[k]).1 as nat == occurrences(
                        data@.take(i as int),
                        prev[k].0,
                    ),
                occurrences(data@.take(i as int), x) <= i,
            decreases pairs@.len() - j,
        {
            if !found && pairs[j].0 == x {
                let c = pairs[j].1;
                proof {
                    assert(pairs@[j as int] == prev[j as int]);
                    assert(prev[j as int].1 as nat == occurrences(data@.take(i as int), x));
                    assert(c as int <= i);
                    assert(i < data@.len());
                    assert(i < len);
                }
                pairs.set(j, (x, c + 1));
                found = true;
            }
            j += 1;
        }
        if !found {
            pairs.push((x, 1));
        }
        proof {
            let take1 = data@.take(i + 1);
            assert(pair_values(pairs@).no_duplicates() && (forall|y: usize|
                #[trigger] pair_values(pairs@).contains(y) <==> take1.contains(y))) by {
                if found {
                    let t = choose|t: int|
                        0 <= t < prev.len() && prev[t].0 == x && pairs@ == prev.update(
                            t,
                            (x, (prev[t].1 + 1) as usize),
                        );
                    assert(pair_values(pairs@) =~= pair_values(prev));
                    assert(pair_values(prev)[t] == x);
                } else {
                    assert(pair_values(pairs@) =~= pair_values(prev).push(x));
                    assert(!pair_values(prev).contains(x)) by {
                        if pair_values(prev).contains(x) {
                            let t = choose|t: int| 0 <= t < prev.len() && pair_values(prev)[t] == x;
                        }
                    }
                }
            }
            assert forall|k: int| 0 <= k < pairs@.len() implies (#[trigger] pairs@[k]).1 as nat
                == occurrences(take1, pairs@[k].0) by {
                if k < prev.len() {
                    assert(occurrences(take1, prev[k].0) == occurrences(data@.take(i as int), prev[k].0) + (if prev[k].0 == x { 1int } else { 0int }));
                    assert(prev[k].1 as nat == occurrences(data@.take(i as int), prev[k].0));
                    if found {
                        let t = choose|t: int|
                            0 <= t < prev.len() && prev[t].0 == x && pairs@ == prev.update(
                                t,
                                (x, (prev[t].1 + 1) as usize),
                            );
                        if k == t {
                        } else {
                            assert(pair_values(prev)[k] != pair_values(prev)[t]);
                            assert(prev[k].0 != x);
                        }
                    } else {
                        assert(prev[k].0 != x);
                    }
                } else {
                    assert(!data@.take(i as int).contains(x)) by {
                        if data@.take(i as int).contains(x) {
                            assert(pair_values(prev).contains(x));
                            let t = choose|t: int| 0 <= t < prev.len() && pair_values(prev)[t] == x;
                        }
                    }
                    assert(occurrences(data@.take(i as int), x) == 0);
                }
            }
        }
        i += 1;
    }
    assert(data@.take(data@.len() as int) =~= data@);
    // order by count, highest first, keeping first-occurrence order on ties
    let m = pairs.len();
    let mut s: usize = 0;
    while s < m
        invariant
            m == pairs@.len(),
            s <= m,
            pair_values(pairs@).no_duplicates(),
            forall|x: usize| #[trigger] pair_values(pairs@).contains(x) <==> data@.contains(x),
            forall|k: int|
                0 <= k < pairs@.len() ==> (#[trigger] pairs@[k]).1 as nat == occurrences(
                    data@,
                    pairs@[k].0,
                ),
            forall|a: int, b: int| 0 <= a < b < s ==> pairs@[a].1 >= pairs@[b].1,
        decreases m - s,
    {
        let mut j: usize = s;
        while j > 0 && pairs[j - 1].1 < pairs[j].1
            invariant
                m == pairs@.len(),
                j <= s < m,
                pair_values(pairs@).no_duplicates(),
                forall|x: usize| #[trigger] pair_values(pairs@).contains(x) <==> data@.contains(x),
                forall|k: int|
                    0 <= k < pairs@.len() ==> (#[trigger] pairs@[k]).1 as nat == occurrences(
                        data@,
                        pairs@[k].0,
                    ),
                forall|a: int, b: int|
                    0 <= a < b <= s && a != j && b != j ==> pairs@[a].1 >= pairs@[b].1,
                forall|k: int| j < k <= s ==> pairs@[j as int].1 > pairs@[k].1,
            decreases j,
        {
            let p = pairs[j - 1];
            let q = pairs[j];
            let ghost before = pairs@;
            pairs.set(j - 1, q);
            pairs.set(j, p);
            proof {
                let pv = pair_values(pairs@);
                let bv = pair_values(before);
                assert(pv =~= bv.update(j - 1, bv[j as int]).update(j as int, bv[j - 1]));
                assert forall|x: usize| #[trigger] pv.contains(x) <==> bv.contains(x) by {
                    if pv.contains(x) {
                        let t = choose|t: int| 0 <= t < pv.len() && pv[t] == x;
                        if t == j - 1 {
                            assert(bv[j as int] == x);
                        } else if t == j {
                            assert(bv[j - 1] == x);
                        } else {
                            assert(bv[t] == x);
                        }
                    }
                    if bv.contains(x) {
                        let t = choose|t: int| 0 <= t < bv.len() && bv[t] == x;
                        if t == j - 1 {
                            assert(pv[j as int] == x);
                        } else if t == j {
                            assert(pv[j - 1] == x);
                        } else {
                            assert(pv[t] == x);
                        }
                    }
                }
                assert forall|a: int, b: int|
                    0 <= a < pv.len() && 0 <= b < pv.len() && a != b implies pv[a] != pv[b] by {
                    let sa = if a == j - 1 { j as int } else if a == j { j - 1 } else { a };
                    let sb = if b == j - 1 { j as int } else if b == j { j - 1 } else { b };
                    assert(pv[a] == bv[sa]);
                    assert(pv[b] == bv[sb]);
                }
            }
            j -= 1;
        }
        s += 1;
    }
    // keep the first n
    let mut top: Vec<(usize, usize)> = Vec::new();
    let mut k: usize = 0;
    while k < m && k < n
        invariant
            m == pairs@.len(),
            k <= m,
            k <= n,
            top@ == pairs@.take(k as int),
        decreases m - k,
    {
        top.push(pairs[k]);
        k += 1;
        assert(top@ =~= pairs@.take(k as int));
    }
    proof {
        let pv = pair_values(pairs@);
        pv.unique_seq_to_set();
        assert(pv.to_set() =~= data@.to_set()) by {
            assert forall|x: usize| pv.to_set().contains(x) <==> data@.to_set().contains(x) by {
                assert(pv.contains(x) <==> data@.contains(x));
            }
        }
        assert(pair_values(top@) =~= pv.take(k as int));
        assert(pv.len() == m);
        assert forall|t: int| 0 <= t < top@.len() implies data@.contains(#[trigger] top@[t].0) by {
            assert(pv.contains(pv[t]));
        }
        assert forall|x: usize, t: int|
            data@.contains(x) && !pair_values(top@).contains(x) && 0 <= t < top@.len()
                implies #[trigger] occurrences(data@, x) <= #[trigger] top@[t].1 by {
            assert(pv.contains(x));
            let q = choose|q: int| 0 <= q < pv.len() && pv[q] == x;
            if q < k {
                assert(pair_values(top@)[q] == x);
            }
            assert(pairs@[t].1 >= pairs@[q].1);
        }
    }
    top
}

} // verus!
