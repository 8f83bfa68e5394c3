use vstd::prelude::*;

verus! {

broadcast use vstd::seq_lib::group_to_multiset_ensures;

/// Number of treats of size `v` recorded in the table `c`, where `c[v]`
/// holds the count of size `v`.
pub open spec fn count_in(c: Seq<i32>, v: int) -> int {
    if 0 <= v < c.len() {
        c[v] as int
    } else {
        0
    }
}

/// Largest size in a non-empty list of sizes.
pub open spec fn largest(s: Seq<i32>) -> i32
    decreases s.len(),
{
    if s.len() <= 1 {
        s[0]
    } else if s.last() > largest(s.drop_last()) {
        s.last()
    } else {
        largest(s.drop_last())
    }
}

/// Table of counts of `treats`: index `v` holds how many treats have size
/// `v`, for every `v` from zero to the largest size.
pub open spec fn table_of(treats: Seq<i32>) -> Seq<i32> {
    Seq::new(
        (largest(treats) + 1) as nat,
        |v: int| treats.to_multiset().count(v as i32) as i32,
    )
}

proof fn lemma_largest(s: Seq<i32>)
    requires
        s.len() > 0,
    ensures
        forall|i: int| 0 <= i < s.len() ==> s[i] <= largest(s),
        exists|i: int| 0 <= i < s.len() && s[i] == largest(s),
    decreases s.len(),
{
    if s.len() > 1 {
        lemma_largest(s.drop_last());
        let w = choose|i: int| 0 <= i < s.len() - 1 && s.drop_last()[i] == largest(s.drop_last());
        assert(s[w] == s.drop_last()[w]);
        assert forall|i: int| 0 <= i < s.len() implies s[i] <= largest(s) by {
            if i < s.len() - 1 {
                assert(s[i] == s.drop_last()[i]);
            }
        }
    } else {
        assert(s[0] == largest(s));
    }
}

/// Number of treats recorded in the table `c`.
pub open spec fn total(c: Seq<i32>) -> int
    decreases c.len(),
{
    if c.len() == 0 {
        0
    } else {
        total(c.drop_last()) + c.last()
    }
}

/// Every count in the table is non-negative.
pub open spec fn non_negative(c: Seq<i32>) -> bool {
    forall|i: int| 0 <= i < c.len() ==> c[i] >= 0
}

/// `n` copies of the size `v`.
pub open spec fn copies(v: i32, n: int) -> Seq<i32> {
    Seq::new(n as nat, |j: int| v)
}

/// The sizes that can be grouped two by two: `c[i] / 2` copies of each size
/// `i`, smallest size first.
pub open spec fn pairs_of(c: Seq<i32>) -> Seq<i32>
    decreases c.len(),
{
    if c.len() == 0 {
        Seq::empty()
    } else {
        pairs_of(c.drop_last()) + copies((c.len() - 1) as i32, c.last() / 2)
    }
}

/// The sizes left over once pairs are formed: each size whose count is odd,
/// smallest size first.
pub open spec fn singles_of(c: Seq<i32>) -> Seq<i32>
    decreases c.len(),
{
    if c.len() == 0 {
        Seq::empty()
    } else if c.last() % 2 == 1 {
        singles_of(c.drop_last()).push((c.len() - 1) as i32)
    } else {
        singles_of(c.drop_last())
    }
}

/// Changing one count changes the total by the same amount.
pub proof fn lemma_total_update(c: Seq<i32>, i: int, x: i32)
    requires
        0 <= i < c.len(),
    ensures
        total(c.update(i, x)) == total(c) - c[i] + x,
    decreases c.len(),
{
    let d = c.update(i, x);
    if i < c.len() - 1 {
        assert(d.drop_last() =~= c.drop_last().update(i, x));
        lemma_total_update(c.drop_last(), i, x);
    } else {
        assert(d.drop_last() =~= c.drop_last());
    }
}

/// The counts of a prefix of the table add up to at most the total, one more
/// count at a time.
pub proof fn lemma_total_prefix(c: Seq<i32>, i: int)
    requires
        0 <= i <= c.len(),
        non_negative(c),
    ensures
        0 <= total(c.subrange(0, i)) <= total(c),
        i < c.len() ==> total(c.subrange(0, i + 1)) == total(c.subrange(0, i)) + c[i],
    decreases c.len(),
{
    if i < c.len() {
        assert(c.subrange(0, i + 1).drop_last() =~= c.subrange(0, i));
        assert(c.drop_last().subrange(0, i) =~= c.subrange(0, i));
        lemma_total_prefix(c.drop_last(), i);
    } else {
        assert(c.subrange(0, i) =~= c);
        if c.len() > 0 {
            lemma_total_prefix(c.drop_last(), i - 1);
            assert(c.drop_last().subrange(0, i - 1) =~= c.drop_last());
        }
    }
}

/// A table with no treats left holds only zeros; otherwise every count is at
/// most the total.
pub proof fn lemma_total_bounds(c: Seq<i32>)
    requires
        non_negative(c),
    ensures
        total(c) >= 0,
        forall|i: int| 0 <= i < c.len() ==> c[i] <= total(c),
        total(c) == 0 ==> forall|i: int| 0 <= i < c.len() ==> c[i] == 0,
    decreases c.len(),
{
    if c.len() > 0 {
        lemma_total_bounds(c.drop_last());
        assert forall|i: int| 0 <= i < c.len() - 1 implies c[i] == c.drop_last()[i] by {}
    }
}

/// `n` copies of `v` hold `v` exactly `n` times and nothing else.
pub proof fn lemma_copies_count(v: i32, n: int, x: i32)
    requires
        n >= 0,
    ensures
        copies(v, n).to_multiset().count(x) == if x == v {
            n
        } else {
            0
        },
    decreases n,
{
    if n > 0 {
        lemma_copies_count(v, n - 1, x);
        assert(copies(v, n) =~= copies(v, n - 1).push(v));
    } else {
        assert(copies(v, n) =~= Seq::<i32>::empty());
    }
}

/// Each count splits into its pairs and its single.
pub proof fn lemma_split_counts(c: Seq<i32>, x: i32)
    requires
        non_negative(c),
        c.len() <= i32::MAX as int + 1,
    ensures
        singles_of(c).to_multiset().count(x) + 2 * pairs_of(c).to_multiset().count(x) == count_in(
            c,
            x as int,
        ),
    decreases c.len(),
{
    if c.len() > 0 {
        let k = (c.len() - 1) as i32;
        lemma_split_counts(c.drop_last(), x);
        lemma_copies_count(k, c.last() / 2, x);
        vstd::seq_lib::lemma_multiset_commutative(
            pairs_of(c.drop_last()),
            copies(k, c.last() / 2),
        );
        assert((c.len() - 1) as i32 == c.len() - 1);
    }
}

/// Table of counts: index `v` holds how many treats have size `v`, for every
/// size from zero to the largest one given.
pub fn treat_size_counts(treats: &Vec<i32>) -> (r: Vec<i32>)
    requires
        treats@.len() > 0,
        treats@.len() <= i32::MAX,
        forall|i: int| 0 <= i < treats@.len() ==> treats@[i] >= 0,
    ensures
        forall|i: int| 0 <= i < treats@.len() ==> treats@[i] < r@.len(),
        exists|i: int| 0 <= i < treats@.len() && treats@[i] == r@.len() - 1,
        forall|v: i32| #[trigger] treats@.to_multiset().count(v) == count_in(r@, v as int),
        non_negative(r@),
        total(r@) == treats@.len(),
        r@ == table_of(treats@),
{
    let mut max: i32 = treats[0];
    let mut k: usize = 1;
    while k < treats.len()
        invariant
            1 <= k <= treats@.len(),
            exists|i: int| 0 <= i < k && treats@[i] == max,
            forall|i: int| 0 <= i < k ==> treats@[i] <= max,
        decreases treats@.len() - k,
    {
        if treats[k] > max {
            max = treats[k];
        }
        k += 1;
    }
    let size: usize = max as usize + 1;
    let mut result: Vec<i32> = Vec::new();
    let mut i: usize = 0;
    while i < size
        invariant
            i <= size,
            result@.len() == i,
            forall|j: int| 0 <= j < i ==> result@[j] == 0,
        decreases size - i,
    {
        result.push(0);
        i += 1;
    }
    proof {
        assert(total(result@) == 0) by {
            lemma_zero_total(result@);
        }
    }
    let mut n: usize = 0;
    while n < treats.len()
        invariant
            0 <= n <= treats@.len() <= i32::MAX,
            result@.len() == size,
            forall|i: int| 0 <= i < treats@.len() ==> 0 <= #[trigger] treats@[i] < size,
            forall|v: i32|
                #[trigger] treats@.subrange(0, n as int).to_multiset().count(v) == count_in(
                    result@,
                    v as int,
                ),
            non_negative(result@),
            total(result@) == n,
        decreases treats@.len() - n,
    {
        let t = treats[n] as usize;
        proof {
            lemma_total_bounds(result@);
            lemma_total_update(result@, t as int, (result@[t as int] + 1) as i32);
            assert(treats@.subrange(0, n + 1) =~= treats@.subrange(0, n as int).push(treats@[n as int]));
        }
        result.set(t, result[t] + 1);
        n += 1;
    }
    proof {
        assert(treats@.subrange(0, n as int) =~= treats@);
        lemma_largest(treats@);
        let w = choose|w: int| 0 <= w < treats@.len() && treats@[w] == largest(treats@);
        assert(result@.len() == largest(treats@) + 1);
        assert forall|v: int| 0 <= v < result@.len() implies result@[v] == table_of(treats@)[v] by {
            assert(treats@.to_multiset().count(v as i32) == count_in(result@, v));
        }
        assert(result@ =~= table_of(treats@));
    }
    result
}

/// A table of zeros records no treat.
pub proof fn lemma_zero_total(c: Seq<i32>)
    requires
        forall|j: int| 0 <= j < c.len() ==> c[j] == 0,
    ensures
        total(c) == 0,
    decreases c.len(),
{
    if c.len() > 0 {
        lemma_zero_total(c.drop_last());
    }
}

/// Splits each count of the table into pairs and at most one single.
pub fn singles_and_pairs(input: &Vec<i32>) -> (r: (Vec<i32>, Vec<i32>))
    requires
        input@.len() <= i32::MAX as int + 1,
        non_negative(input@),
    ensures
        r.0@ == singles_of(input@),
        r.1@ == pairs_of(input@),
{
    let mut singles: Vec<i32> = Vec::new();
    let mut pairs: Vec<i32> = Vec::new();
    let mut i: usize = 0;
    while i < input.len()
        invariant
            i <= input@.len() <= i32::MAX as int + 1,
            non_negative(input@),
            singles@ == singles_of(input@.subrange(0, i as int)),
            pairs@ == pairs_of(input@.subrange(0, i as int)),
        decreases input@.len() - i,
    {
        let ghost before = pairs@;
        let c: i32 = input[i];
        let mut left: i32 = c;
        while left > 1
            invariant
                0 <= left <= c,
                (c - left) % 2 == 0,
                pairs@ == before + copies(i as i32, (c - left) / 2),
            decreases left,
        {
            left -= 2;
            pairs.push(i as i32);
            proof {
                assert(pairs@ =~= before + copies(i as i32, (c - left) / 2));
            }
        }
        if left == 1 {
            singles.push(i as i32);
        }
        proof {
            let s = input@.subrange(0, i + 1);
            assert(s.drop_last() =~= input@.subrange(0, i as int));
            assert(left == c % 2);
            assert((c - left) / 2 == c / 2);
        }
        i += 1;
    }
    proof {
        assert(input@.subrange(0, i as int) =~= input@);
    }
    (singles, pairs)
}

} // verus!
