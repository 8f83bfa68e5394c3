use vstd::multiset::Multiset;
use vstd::prelude::*;
use crate::counts::{lemma_split_counts, pairs_of, singles_and_pairs, singles_of, table_of, treat_size_counts};
use crate::score::Puppies;

verus! {

broadcast use {vstd::seq_lib::group_to_multiset_ensures, vstd::multiset::group_multiset_axioms};

/// Treats still to place, as singles and pairs, together with those placed.
pub open spec fn pooled(placed: Seq<i32>, singles: Seq<i32>, pairs: Seq<i32>) -> Multiset<i32> {
    placed.to_multiset().add(singles.to_multiset()).add(pairs.to_multiset()).add(
        pairs.to_multiset(),
    )
}

/// Pairs moved back to the singles, largest pair first, until there are
/// more singles than pairs.
pub open spec fn rebalanced(singles: Seq<i32>, pairs: Seq<i32>) -> (Seq<i32>, Seq<i32>)
    decreases pairs.len(),
{
    if pairs.len() > 0 && pairs.len() >= singles.len() {
        rebalanced(singles.push(pairs.last()).push(pairs.last()), pairs.drop_last())
    } else {
        (singles, pairs)
    }
}

/// Index of the first element of `s` that satisfies `f`, or the length of
/// `s` when none does.
pub open spec fn first_where(s: Seq<i32>, f: spec_fn(i32) -> bool) -> int
    decreases s.len(),
{
    if s.len() == 0 {
        0
    } else if f(s[0]) {
        0
    } else {
        1 + first_where(s.drop_first(), f)
    }
}

/// Index of the smallest element of `s` strictly greater than `p`, the first
/// such one among equals, or the length of `s` when there is none.
pub open spec fn least_above(s: Seq<i32>, p: i32) -> int
    decreases s.len(),
{
    if s.len() == 0 {
        0
    } else {
        let k = least_above(s.drop_last(), p);
        if s.last() > p && (k == s.len() - 1 || s.last() < s[k]) {
            s.len() - 1
        } else if k == s.len() - 1 {
            s.len() as int
        } else {
            k
        }
    }
}

proof fn lemma_least_above_range(s: Seq<i32>, p: i32)
    ensures
        0 <= least_above(s, p) <= s.len(),
    decreases s.len(),
{
    if s.len() > 0 {
        lemma_least_above_range(s.drop_last(), p);
    }
}

/// The ordering assembled from `singles` and `pairs`: the first pair follows
/// the smallest single larger than it; when no single is larger, the
/// last pair becomes two singles, placed before the first single smaller
/// than it. With no pair left, the singles follow in their order.
pub open spec fn assemble(singles: Seq<i32>, pairs: Seq<i32>) -> Seq<i32>
    decreases pairs.len(),
{
    if pairs.len() == 0 {
        singles
    } else {
        let p = pairs[0];
        let i = least_above(singles, p);
        if i < singles.len() {
            seq![singles[i], p, p] + assemble(singles.remove(i), pairs.drop_first())
        } else {
            let l = pairs.last();
            let j = first_where(singles, |x: i32| x < l);
            assemble(singles.insert(j, l).insert(j + 1, l), pairs.drop_last())
        }
    }
}

/// The heuristic ordering of `treats`.
pub open spec fn guess_order(treats: Seq<i32>) -> Seq<i32> {
    let c = table_of(treats);
    let sp = rebalanced(singles_of(c), pairs_of(c));
    assemble(sp.0, sp.1)
}

proof fn lemma_first_where(s: Seq<i32>, f: spec_fn(i32) -> bool, i: int)
    requires
        0 <= i <= s.len(),
        forall|k: int| 0 <= k < i ==> !f(#[trigger] s[k]),
        i < s.len() ==> f(s[i]),
    ensures
        first_where(s, f) == i,
        0 <= first_where(s, f) <= s.len(),
    decreases i,
{
    if i > 0 {
        assert forall|k: int| 0 <= k < i - 1 implies !f(#[trigger] s.drop_first()[k]) by {
            assert(s.drop_first()[k] == s[k + 1]);
        }
        assert(!f(s[0]));
        lemma_first_where(s.drop_first(), f, i - 1);
    }
}

proof fn lemma_insert_to_multiset(s: Seq<i32>, i: int, a: i32)
    requires
        0 <= i <= s.len(),
    ensures
        s.insert(i, a).to_multiset() =~= s.to_multiset().insert(a),
{
    let t = s.insert(i, a);
    assert(t.remove(i) =~= s);
    assert(t[i] == a);
    assert(t.contains(a));
}

proof fn lemma_pop_to_multiset(s: Seq<i32>)
    requires
        s.len() > 0,
    ensures
        s.to_multiset() =~= s.drop_last().to_multiset().insert(s.last()),
{
    assert(s.drop_last().push(s.last()) =~= s);
}

/// A complete ordering of `treats` built without search: each pair of equal
/// treats follows the smallest single that is strictly larger, and the
/// remaining singles come last.
pub fn guess(treats: &Vec<i32>) -> (r: Puppies)
    requires
        treats@.len() > 0,
        treats@.len() <= i32::MAX,
        forall|i: int| 0 <= i < treats@.len() ==> treats@[i] >= 0,
    ensures
        r.wf(),
        r.treats@ == guess_order(treats@),
        r.treats@.to_multiset() == treats@.to_multiset(),
{
    let v = treat_size_counts(treats);
    let (mut singles, mut pairs) = singles_and_pairs(&v);
    let mut result = Puppies::new();
    proof {
        assert forall|x: i32| #[trigger]
            pooled(result.treats@, singles@, pairs@).count(x) == treats@.to_multiset().count(
                x,
            ) by {
            lemma_split_counts(v@, x);
        }
        assert(pooled(result.treats@, singles@, pairs@) =~= treats@.to_multiset());
        assert(pooled(result.treats@, singles@, pairs@).len() == treats@.len());
        assert(result.treats@.to_multiset().len() == 0);
        assert(singles@.to_multiset().len() == singles@.len());
        assert(pairs@.to_multiset().len() == pairs@.len());
    }
    while pairs.len() >= singles.len()
        invariant
            result.wf(),
            result.treats@.len() == 0,
            singles@.len() + 2 * pairs@.len() == treats@.len() > 0,
            rebalanced(singles@, pairs@) == rebalanced(singles_of(v@), pairs_of(v@)),
            pooled(result.treats@, singles@, pairs@) == treats@.to_multiset(),
        decreases pairs@.len(),
    {
        proof {
            lemma_pop_to_multiset(pairs@);
        }
        let ghost s0 = singles@;
        let ghost p0 = pairs@;
        let x = pairs.pop().unwrap();
        singles.push(x);
        singles.push(x);
        proof {
            assert(p0.drop_last() == pairs@);
            assert(rebalanced(s0, p0) == rebalanced(singles@, pairs@));
            assert(singles@ == s0.push(x).push(x));
            assert(singles@.to_multiset() =~= s0.to_multiset().insert(x).insert(x));
            assert(pooled(result.treats@, singles@, pairs@) =~= treats@.to_multiset());
        }
    }
    proof {
        assert(result.treats@ + assemble(singles@, pairs@) =~= guess_order(treats@));
    }
    while pairs.len() != 0
        invariant
            result.wf(),
            pooled(result.treats@, singles@, pairs@) == treats@.to_multiset(),
            result.treats@.len() + singles@.len() + 2 * pairs@.len() == treats@.len() <= i32::MAX,
            result.treats@ + assemble(singles@, pairs@) == guess_order(treats@),
        decreases pairs@.len(),
    {
        let next_pair = pairs[0];
        let mut i: usize = singles.len();
        let mut n: usize = 0;
        while n < singles.len()
            invariant
                n <= singles@.len(),
                i == if least_above(singles@.subrange(0, n as int), next_pair) == n {
                    singles@.len() as int
                } else {
                    least_above(singles@.subrange(0, n as int), next_pair)
                },
            decreases singles@.len() - n,
        {
            proof {
                let t = singles@.subrange(0, n + 1);
                assert(t.drop_last() =~= singles@.subrange(0, n as int));
                lemma_least_above_range(singles@.subrange(0, n as int), next_pair);
            }
            if singles[n] > next_pair && (i == singles.len() || singles[n] < singles[i]) {
                i = n;
            }
            n += 1;
        }
        proof {
            assert(singles@.subrange(0, n as int) =~= singles@);
            lemma_least_above_range(singles@, next_pair);
        }
        if i < singles.len() {
            let ghost old_pairs = pairs@;
            let ghost old_singles = singles@;
            let single = singles.remove(i);
            pairs.remove(0);
            proof {
                assert(old_pairs.remove(0).to_multiset() == old_pairs.to_multiset().remove(next_pair));
                assert(old_singles.remove(i as int).to_multiset() == old_singles.to_multiset().remove(single));
            }
            result.add_treat(single);
            result.add_treat(next_pair);
            result.add_treat(next_pair);
            proof {
                assert(pooled(result.treats@, singles@, pairs@) =~= treats@.to_multiset());
                assert(old_pairs.remove(0) =~= old_pairs.drop_first());
                assert(result.treats@ + assemble(singles@, pairs@) =~= guess_order(treats@));
            }
        } else {
            let mut j: usize = 0;
            let largest_pair = pairs[pairs.len() - 1];
            while j < singles.len() && singles[j] >= largest_pair
                invariant
                    j <= singles@.len(),
                    forall|k: int| 0 <= k < j ==> singles@[k] >= largest_pair,
                decreases singles@.len() - j,
            {
                j += 1;
            }
            proof {
                lemma_first_where(singles@, |x: i32| x < largest_pair, j as int);
                lemma_pop_to_multiset(pairs@);
                lemma_insert_to_multiset(singles@, j as int, largest_pair);
                lemma_insert_to_multiset(singles@.insert(j as int, largest_pair), j + 1, largest_pair);
            }
            pairs.pop();
            singles.insert(j, largest_pair);
            singles.insert(j + 1, largest_pair);
            proof {
                assert(result.treats@ + assemble(singles@, pairs@) == guess_order(treats@));
                assert(pooled(result.treats@, singles@, pairs@) =~= treats@.to_multiset());
            }
        }
    }
    proof {
        assert(singles@.subrange(0, singles@.len() as int) =~= singles@);
        assert(pairs@.to_multiset() =~= Multiset::empty());
        assert(result.treats@.to_multiset().add(singles@.to_multiset()) =~= treats@.to_multiset());
    }
    let mut k: usize = 0;
    while k < singles.len()
        invariant
            k <= singles@.len(),
            result.wf(),
            result.treats@.len() + singles@.len() - k == treats@.len() <= i32::MAX,
            result.treats@ + singles@.subrange(k as int, singles@.len() as int) == guess_order(
                treats@,
            ),
            result.treats@.to_multiset().add(singles@.subrange(k as int, singles@.len() as int).to_multiset())
                == treats@.to_multiset(),
        decreases singles@.len() - k,
    {
        proof {
            let rest = singles@.subrange(k as int, singles@.len() as int);
            assert(rest.drop_first() =~= singles@.subrange(k + 1, singles@.len() as int));
            assert(rest =~= seq![rest[0]] + rest.drop_first());
            vstd::seq_lib::lemma_multiset_commutative(seq![rest[0]], rest.drop_first());
        }
        result.add_treat(singles[k]);
        k += 1;
        proof {
            assert(result.treats@.to_multiset().add(singles@.subrange(k as int, singles@.len() as int).to_multiset())
                =~= treats@.to_multiset());
            assert(result.treats@ + singles@.subrange(k as int, singles@.len() as int) =~= guess_order(
                treats@,
            ));
        }
    }
    proof {
        assert(singles@.subrange(k as int, singles@.len() as int) =~= Seq::<i32>::empty());
        assert(result.treats@.to_multiset() =~= treats@.to_multiset());
        assert(result.treats@ =~= result.treats@ + singles@.subrange(k as int, singles@.len() as int));
    }
    result
}

} // verus!
