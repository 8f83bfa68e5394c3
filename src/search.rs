use vstd::prelude::*;
use crate::counts::{
    copies, count_in, lemma_copies_count, lemma_total_bounds, lemma_total_prefix,
    lemma_total_update, lemma_zero_total, non_negative, table_of, total, treat_size_counts,
};
use crate::guess::{guess, guess_order};
use crate::score::{lemma_constant_score, lemma_growth_bound, lemma_score_bounds, score_of, Puppies};

verus! {

broadcast use {vstd::seq_lib::group_to_multiset_ensures, vstd::multiset::group_multiset_axioms};

/// `full` extends `prefix` with exactly the treats counted in the table
/// `rest`, in some order.
pub open spec fn completes(prefix: Seq<i32>, rest: Seq<i32>, full: Seq<i32>) -> bool {
    &&& full.len() == prefix.len() + total(rest)
    &&& full.subrange(0, prefix.len() as int) == prefix
    &&& forall|v: i32| #[trigger]
        full.to_multiset().count(v) == prefix.to_multiset().count(v) + count_in(rest, v as int)
}

/// Ordering found by the depth-first search that extends `prefix` with the
/// treats counted in `rest`, with `seed` as the first best ordering.
pub open spec fn search(rest: Seq<i32>, prefix: Seq<i32>, seed: Seq<i32>) -> Seq<i32>
    decreases total(rest), rest.len() + 1,
{
    if total(rest) <= 0 {
        prefix
    } else {
        search_sizes(rest, prefix, seed, 0, seed)
    }
}

/// The search at one level, from size `i` on, with `best` as the best
/// ordering found so far: placing size `i` next is explored unless its score
/// plus `total(rest) / 3 + 1` cannot exceed the score of `best`, and what it
/// finds replaces `best` when it scores strictly more.
pub open spec fn search_sizes(
    rest: Seq<i32>,
    prefix: Seq<i32>,
    seed: Seq<i32>,
    i: int,
    best: Seq<i32>,
) -> Seq<i32>
    decreases total(rest), rest.len() - i,
{
    if i < 0 || i >= rest.len() || total(rest) <= 0 {
        best
    } else if rest[i] <= 0 {
        search_sizes(rest, prefix, seed, i + 1, best)
    } else {
        let next = prefix.push(i as i32);
        if score_of(next) + total(rest) / 3 + 1 <= score_of(best) {
            search_sizes(rest, prefix, seed, i + 1, best)
        } else {
            proof {
                lemma_total_update(rest, i, (rest[i] - 1) as i32);
            }
            let found = search(rest.update(i, (rest[i] - 1) as i32), next, seed);
            search_sizes(
                rest,
                prefix,
                seed,
                i + 1,
                if score_of(found) > score_of(best) {
                    found
                } else {
                    best
                },
            )
        }
    }
}

/// Ordering returned for `treats`: the treats themselves where they all have
/// one size, else the search from an empty line seeded with the heuristic
/// ordering.
pub open spec fn solution_of(treats: Seq<i32>) -> Seq<i32> {
    if forall|i: int, j: int|
        0 <= i < treats.len() && 0 <= j < treats.len() ==> treats[i] == treats[j] {
        treats
    } else {
        search(table_of(treats), Seq::empty(), guess_order(treats))
    }
}

/// `q` lists exactly the treats counted in the table `c`, in some order.
pub open spec fn holds_counts(q: Seq<i32>, c: Seq<i32>) -> bool {
    &&& q.len() == total(c)
    &&& forall|v: i32| #[trigger] q.to_multiset().count(v) == count_in(c, v as int)
}

proof fn lemma_holds_first(q: Seq<i32>, c: Seq<i32>)
    requires
        holds_counts(q, c),
        q.len() > 0,
    ensures
        0 <= q[0] < c.len(),
        c[q[0] as int] > 0,
        holds_counts(q.drop_first(), c.update(q[0] as int, (c[q[0] as int] - 1) as i32)),
{
    assert(q.contains(q[0]));
    assert(q.to_multiset().count(q[0]) > 0);
    assert(q.remove(0) =~= q.drop_first());
    lemma_total_update(c, q[0] as int, (c[q[0] as int] - 1) as i32);
}

proof fn lemma_completes_empty(prefix: Seq<i32>, rest: Seq<i32>)
    requires
        non_negative(rest),
        total(rest) == 0,
    ensures
        completes(prefix, rest, prefix),
{
    lemma_total_bounds(rest);
    assert(prefix.subrange(0, prefix.len() as int) =~= prefix);
}

proof fn lemma_completes_step(prefix: Seq<i32>, rest: Seq<i32>, i: int, full: Seq<i32>)
    requires
        0 <= i < rest.len() <= i32::MAX as int + 1,
        non_negative(rest),
        rest[i] > 0,
        completes(prefix.push(i as i32), rest.update(i, (rest[i] - 1) as i32), full),
    ensures
        completes(prefix, rest, full),
{
    lemma_total_update(rest, i, (rest[i] - 1) as i32);
    lemma_total_bounds(rest.update(i, (rest[i] - 1) as i32));
    let p = prefix.push(i as i32);
    assert(full.subrange(0, prefix.len() as int) =~= full.subrange(0, p.len() as int).subrange(
        0,
        prefix.len() as int,
    ));
    assert(p.subrange(0, prefix.len() as int) =~= prefix);
    assert forall|v: i32| #[trigger]
        full.to_multiset().count(v) == prefix.to_multiset().count(v) + count_in(
            rest,
            v as int,
        ) by {
        assert(full.to_multiset().count(v) == p.to_multiset().count(v) + count_in(
            rest.update(i, (rest[i] - 1) as i32),
            v as int,
        ));
    }
}

/// Best ordering found by extending `result` with every treat counted in
/// `take_from`, depth first and smallest size first; a branch is cut when its
/// score plus `n / 3 + 1`, for `n` treats left before the branch, cannot
/// exceed the best score known, which starts at that of `guess`. No
/// completion of a cut branch can score more than that.
///
/// With no treat left, `result` is complete and comes back as it is. Otherwise
/// the ordering returned scores at least as much as `guess` and as every
/// completion of `result`, and is `guess` itself or such a completion.
pub fn permutation_helper(take_from: &Vec<i32>, result: &Puppies, guess: &Puppies) -> (r: Puppies)
    requires
        result.wf(),
        guess.wf(),
        non_negative(take_from@),
        take_from@.len() <= i32::MAX as int + 1,
        result.treats@.len() + total(take_from@) <= i32::MAX,
    ensures
        r.wf(),
        r.treats@ == search(take_from@, result.treats@, guess.treats@),
        forall|q: Seq<i32>| #[trigger]
            holds_counts(q, take_from@) ==> score_of(result.treats@ + q) <= r.happiness,
        total(take_from@) == 0 ==> r.treats@ == result.treats@,
        total(take_from@) > 0 ==> r.happiness >= guess.happiness,
        total(take_from@) > 0 ==> r.treats@ == guess.treats@ || completes(
            result.treats@,
            take_from@,
            r.treats@,
        ),
    decreases total(take_from@),
{
    let mut left: i32 = 0;
    let mut k: usize = 0;
    while k < take_from.len()
        invariant
            k <= take_from@.len(),
            non_negative(take_from@),
            total(take_from@) <= i32::MAX,
            left == total(take_from@.subrange(0, k as int)),
        decreases take_from@.len() - k,
    {
        proof {
            lemma_total_prefix(take_from@, k as int);
            lemma_total_prefix(take_from@, k + 1);
        }
        left = left + take_from[k];
        k += 1;
    }
    proof {
        assert(take_from@.subrange(0, k as int) =~= take_from@);
        lemma_total_bounds(take_from@);
    }
    if left == 0 {
        proof {
            assert forall|q: Seq<i32>| #[trigger]
                holds_counts(q, take_from@) implies score_of(result.treats@ + q)
                <= result.happiness by {
                assert(result.treats@ + q =~= result.treats@);
            }
        }
        return result.clone();
    }
    let mut best_lineup = guess.clone();
    let max_add: i32 = left / 3 + 1;
    let mut i: usize = 0;
    while i < take_from.len()
        invariant
            i <= take_from@.len() <= i32::MAX as int + 1,
            result.wf(),
            guess.wf(),
            non_negative(take_from@),
            left == total(take_from@) > 0,
            result.treats@.len() + total(take_from@) <= i32::MAX,
            max_add == left / 3 + 1,
            forall|q: Seq<i32>|
                #[trigger] holds_counts(q, take_from@) && q.len() > 0 && 0 <= q[0] && (q[0] as int) < (i as int)
                    ==> score_of(result.treats@ + q) <= best_lineup.happiness,
            forall|j: int| 0 <= j < take_from@.len() ==> take_from@[j] <= left,
            best_lineup.wf(),
            search_sizes(take_from@, result.treats@, guess.treats@, i as int, best_lineup.treats@)
                == search(take_from@, result.treats@, guess.treats@),
            best_lineup.happiness >= guess.happiness,
            best_lineup.treats@ == guess.treats@ || completes(
                result.treats@,
                take_from@,
                best_lineup.treats@,
            ),
        decreases take_from@.len() - i,
    {
        let ghost best_before = best_lineup.happiness;
        if take_from[i] != 0 {
            let mut take_from_copy = take_from.clone();
            let mut result_copy = result.clone();
            proof {
                assert(take_from_copy@ =~= take_from@);
            }
            result_copy.add_treat(i as i32);
            take_from_copy.set(i, take_from_copy[i] - 1);
            proof {
                lemma_total_update(take_from@, i as int, (take_from@[i as int] - 1) as i32);
                lemma_score_bounds(result_copy.treats@);
            }
            let max_possible_score = result_copy.happiness + max_add;
            if max_possible_score > best_lineup.happiness {
                let p = permutation_helper(&take_from_copy, &result_copy, guess);
                if p.happiness > best_lineup.happiness {
                    proof {
                        if total(take_from_copy@) == 0 {
                            lemma_completes_empty(result_copy.treats@, take_from_copy@);
                        }
                        lemma_completes_step(result.treats@, take_from@, i as int, p.treats@);
                    }
                    best_lineup = p;
                }
                proof {
                    assert forall|q: Seq<i32>|
                        #[trigger] holds_counts(q, take_from@) && q.len() > 0 && q[0] as int
                            == i as int implies score_of(result.treats@ + q)
                        <= best_lineup.happiness by {
                        lemma_holds_first(q, take_from@);
                        assert(result.treats@ + q =~= result_copy.treats@ + q.drop_first());
                        assert(holds_counts(q.drop_first(), take_from_copy@));
                    }
                }
            } else {
                proof {
                    assert forall|q: Seq<i32>|
                        #[trigger] holds_counts(q, take_from@) && q.len() > 0 && q[0] as int
                            == i as int implies score_of(result.treats@ + q)
                        <= best_lineup.happiness by {
                        lemma_holds_first(q, take_from@);
                        assert(result.treats@ + q =~= result_copy.treats@ + q.drop_first());
                        lemma_growth_bound(result_copy.treats@, q.drop_first());
                    }
                }
            }
        } else {
            proof {
                assert forall|q: Seq<i32>|
                    #[trigger] holds_counts(q, take_from@) && q.len() > 0 && q[0] as int
                        == i as int implies score_of(result.treats@ + q)
                    <= best_lineup.happiness by {
                    lemma_holds_first(q, take_from@);
                }
            }
        }
        proof {
            assert forall|q: Seq<i32>|
                #[trigger] holds_counts(q, take_from@) && q.len() > 0 && 0 <= q[0] && (q[0] as int) < (i + 1)
                    implies score_of(result.treats@ + q) <= best_lineup.happiness by {
                if (q[0] as int) < (i as int) {
                    assert(score_of(result.treats@ + q) <= best_before);
                }
            }
        }
        i += 1;
    }
    proof {
        assert forall|q: Seq<i32>| #[trigger]
            holds_counts(q, take_from@) implies score_of(result.treats@ + q)
            <= best_lineup.happiness by {
            lemma_holds_first(q, take_from@);
        }
    }
    best_lineup
}

/// Searches for an ordering of `treats` with the highest happiness.
///
/// The ordering returned is `solution_of(treats)`: it holds the same treats
/// as the input, its happiness is the score of that order, and no ordering of
/// the same treats scores more. Where all treats have one size,
/// the search is skipped.
pub fn solve(treats: &Vec<i32>) -> (r: Puppies)
    requires
        treats@.len() > 0,
        treats@.len() <= i32::MAX,
        forall|i: int| 0 <= i < treats@.len() ==> treats@[i] >= 0,
    ensures
        r.wf(),
        r.treats@ == solution_of(treats@),
        r.treats@.to_multiset() == treats@.to_multiset(),
        forall|q: Seq<i32>| #[trigger]
            q.to_multiset() == treats@.to_multiset() ==> score_of(q) <= r.happiness,
        (forall|i: int, j: int|
            0 <= i < treats@.len() && 0 <= j < treats@.len() ==> treats@[i] == treats@[j])
            ==> r.happiness == if treats@.len() == 1 {
            1int
        } else {
            0
        },        !(forall|i: int, j: int|
            0 <= i < treats@.len() && 0 <= j < treats@.len() ==> treats@[i] == treats@[j])
            ==> r.happiness >= score_of(guess_order(treats@)),
{
    let v = treat_size_counts(treats);
    proof {
        lemma_total_bounds(v@);
        let w = choose|w: int| 0 <= w < treats@.len() && treats@[w] == v@.len() - 1;
        assert(v@.len() <= i32::MAX as int + 1);
    }
    let mut non_zeros: usize = 0;
    let ghost mut first: int = 0;
    let ghost mut second: int = 0;
    let mut k: usize = 0;
    while k < v.len()
        invariant
            k <= v@.len(),
            non_zeros <= k,
            non_zeros == 0 ==> forall|j: int| 0 <= j < k ==> v@[j] == 0,
            non_zeros >= 1 ==> 0 <= first < k && v@[first] != 0,
            non_zeros == 1 ==> forall|j: int| 0 <= j < k && j != first ==> v@[j] == 0,
            non_zeros >= 2 ==> 0 <= second < k && second != first && v@[second] != 0,
        decreases v@.len() - k,
    {
        if v[k] != 0 {
            proof {
                if non_zeros == 0 {
                    first = k as int;
                } else if non_zeros == 1 {
                    second = k as int;
                }
            }
            non_zeros += 1;
        }
        k += 1;
    }
    if non_zeros == 1 {
        let mut index: usize = 0;
        while v[index] == 0
            invariant
                0 <= index <= first < v@.len() <= i32::MAX as int + 1,
                v@[first] != 0,
            decreases first - index,
        {
            index += 1;
        }
        let mut result = Puppies::new();
        let mut i: i32 = 0;
        while i < v[index]
            invariant
                index == first,
                first < v@.len() <= i32::MAX as int + 1,
                0 <= i <= v@[first],
                v@[first] <= total(v@) == treats@.len() <= i32::MAX,
                result.wf(),
                result.treats@ == copies(index as i32, i as int),
            decreases v@[first] - i,
        {
            result.add_treat(index as i32);
            i += 1;
            proof {
                assert(result.treats@ =~= copies(index as i32, i as int));
            }
        }
        proof {
            assert forall|x: i32| #[trigger]
                result.treats@.to_multiset().count(x) == treats@.to_multiset().count(x) by {
                lemma_copies_count(index as i32, i as int, x);
            }
            assert(result.treats@.to_multiset() =~= treats@.to_multiset());
            assert(result.treats@.to_multiset().len() == treats@.to_multiset().len());
            lemma_constant_score(result.treats@);
            assert forall|j: int| 0 <= j < treats@.len() implies treats@[j] == first by {
                assert(treats@.contains(treats@[j]));
                assert(treats@.to_multiset().count(treats@[j]) > 0);
            }
            assert(result.treats@ =~= treats@);
            assert forall|q: Seq<i32>| #[trigger]
                q.to_multiset() == treats@.to_multiset() implies score_of(q) <= result.happiness by {
                assert(q.to_multiset().len() == treats@.to_multiset().len());
                assert forall|a: int, b: int| 0 <= a < q.len() && 0 <= b < q.len() implies q[a] == q[b] by {
                    assert(q.contains(q[a]) && q.contains(q[b]));
                    assert(treats@.to_multiset().count(q[a]) > 0);
                    assert(treats@.to_multiset().count(q[b]) > 0);
                    assert(treats@.contains(q[a]) && treats@.contains(q[b]));
                }
                lemma_constant_score(q);
            }
        }
        return result;
    }
    proof {
        assert(total(v@) > 0);
        if non_zeros == 0 {
            lemma_zero_total(v@);
        }
        if forall|i: int, j: int|
            0 <= i < treats@.len() && 0 <= j < treats@.len() ==> treats@[i] == treats@[j] {
            let t = treats@[0];
            let a = if first != t { first } else { second };
            assert(non_zeros >= 2);
            assert(a != t);
            assert(!treats@.contains(a as i32));
            assert(treats@.to_multiset().count(a as i32) == 0);
            assert(false);
        }
    }
    let first_guess = guess(treats);
    let p = Puppies::new();
    let r = permutation_helper(&v, &p, &first_guess);
    proof {
        assert forall|q: Seq<i32>| #[trigger]
            q.to_multiset() == treats@.to_multiset() implies score_of(q) <= r.happiness by {
            assert(q.to_multiset().len() == treats@.to_multiset().len());
            assert(holds_counts(q, v@));
            assert(p.treats@ + q =~= q);
        }
        if r.treats@ != first_guess.treats@ {
            assert forall|x: i32| #[trigger]
                r.treats@.to_multiset().count(x) == treats@.to_multiset().count(x) by {}
            assert(r.treats@.to_multiset() =~= treats@.to_multiset());
        }
    }
    r
}

} // verus!
