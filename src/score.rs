use vstd::prelude::*;

verus! {

/// Change of the happiness when `to_add` is handed out after `second_last`
/// and `last`.
///
/// A rise followed by a fall or a level step costs one point, as does a level
/// step followed by a fall; a level step followed by a rise, or a fall followed
/// by a level step or a rise, earns one.
pub open spec fn transition_delta(second_last: int, last: int, to_add: int) -> int {
    if last > second_last {
        if last >= to_add {
            -1
        } else {
            0
        }
    } else if last == second_last {
        if last > to_add {
            -1
        } else if last == to_add {
            0
        } else {
            1
        }
    } else {
        if last > to_add {
            0
        } else {
            1
        }
    }
}

/// Happiness of a line that received the treats `s`, in that order.
///
/// One treat makes its puppy happy; two treats score nothing; every further
/// treat adds `transition_delta` of the last three.
pub open spec fn score_of(s: Seq<i32>) -> int
    decreases s.len(),
{
    if s.len() == 0 {
        0
    } else if s.len() == 1 {
        1
    } else if s.len() == 2 {
        0
    } else {
        score_of(s.drop_last()) + transition_delta(
            s[s.len() - 3] as int,
            s[s.len() - 2] as int,
            s[s.len() - 1] as int,
        )
    }
}

/// The happiness of a line never exceeds its length in absolute value.
pub proof fn lemma_score_bounds(s: Seq<i32>)
    ensures
        -s.len() <= score_of(s) <= s.len(),
        s.len() >= 2 ==> score_of(s) < s.len(),
    decreases s.len(),
{
    if s.len() > 2 {
        lemma_score_bounds(s.drop_last());
    }
}

/// Weight of the last step of a line: nothing after a rise, two after a level
/// step, four after a fall.
pub open spec fn step_weight(s: Seq<i32>) -> int {
    if s.len() < 2 || s.last() > s[s.len() - 2] {
        0
    } else if s.last() == s[s.len() - 2] {
        2
    } else {
        4
    }
}

/// Each further treat raises three times the happiness plus the weight of
/// the last step by at most one.
pub proof fn lemma_potential(s: Seq<i32>, e: Seq<i32>)
    requires
        s.len() >= 2,
    ensures
        3 * score_of(s + e) + step_weight(s + e) <= 3 * score_of(s) + step_weight(s) + e.len(),
    decreases e.len(),
{
    if e.len() > 0 {
        lemma_potential(s, e.drop_last());
        let t = s + e.drop_last();
        assert((s + e).drop_last() =~= t);
        assert((s + e).last() == e.last());
        assert(t.last() == (s + e)[(s + e).len() - 2]);
        assert(t[t.len() - 2] == (s + e)[(s + e).len() - 3]);
    } else {
        assert(s + e =~= s);
    }
}

/// Treats added after a line of at least one treat raise its happiness by at
/// most one point for every three of them, counting one more, plus one.
pub proof fn lemma_growth_bound(s: Seq<i32>, e: Seq<i32>)
    requires
        s.len() >= 1,
    ensures
        score_of(s + e) <= score_of(s) + (e.len() + 1) / 3 + 1,
{
    if s.len() >= 2 {
        lemma_potential(s, e);
        assert(3 * score_of(s + e) <= 3 * score_of(s) + 4 + e.len());
    } else if e.len() > 0 {
        let s2 = s.push(e[0]);
        let e2 = e.drop_first();
        assert(s + e =~= s2 + e2);
        assert(s2.drop_last() =~= s);
        lemma_potential(s2, e2);
        assert(3 * score_of(s + e) <= 3 * score_of(s2) + 4 + e2.len());
    } else {
        assert(s + e =~= s);
    }
}

/// A line where every puppy gets the same size scores one if it has a single
/// puppy, and nothing otherwise.
pub proof fn lemma_constant_score(s: Seq<i32>)
    requires
        forall|i: int, j: int| 0 <= i < s.len() && 0 <= j < s.len() ==> s[i] == s[j],
    ensures
        score_of(s) == if s.len() == 1 {
            1int
        } else {
            0
        },
    decreases s.len(),
{
    if s.len() > 2 {
        lemma_constant_score(s.drop_last());
        assert(s[s.len() - 3] == s[s.len() - 1] && s[s.len() - 2] == s[s.len() - 1]);
    }
}

/// A line of treats handed out so far, with its running happiness.
pub struct Puppies {
    pub happiness: i32,
    pub treats: Vec<i32>,
}

impl Puppies {
    /// The running happiness is that of the treats, whose number fits an `i32`.
    pub open spec fn wf(&self) -> bool {
        &&& self.happiness == score_of(self.treats@)
        &&& self.treats@.len() <= i32::MAX
    }

    /// An empty line.
    pub fn new() -> (r: Puppies)
        ensures
            r.wf(),
            r.treats@ == Seq::<i32>::empty(),
            r.happiness == 0,
    {
        Puppies { happiness: 0, treats: Vec::new() }
    }

    /// Hands `to_add` to the next puppy and updates the happiness.
    pub fn add_treat(&mut self, to_add: i32)
        requires
            old(self).wf(),
            old(self).treats@.len() < i32::MAX,
        ensures
            final(self).wf(),
            final(self).treats@ == old(self).treats@.push(to_add),
            final(self).happiness == score_of(old(self).treats@.push(to_add)),
            old(self).treats@.len() == 0 ==> final(self).happiness == 1,
            old(self).treats@.len() == 1 ==> final(self).happiness == 0,
            old(self).treats@.len() >= 2 ==> final(self).happiness == old(self).happiness
                + transition_delta(
                old(self).treats@[old(self).treats@.len() - 2] as int,
                old(self).treats@.last() as int,
                to_add as int,
            ),
    {
        self.treats.push(to_add);
        proof {
            assert(self.treats@.drop_last() == old(self).treats@);
            lemma_score_bounds(self.treats@);
        }
        if self.length() == 1 {
            self.happiness = 1;
        } else if self.length() == 2 {
            self.happiness = 0;
        } else {
            let last: i32 = self.treats[self.length() - 2];
            let second_last: i32 = self.treats[self.length() - 3];
            let table: [i32; 9] = [-1, -1, 0, -1, 0, 1, 0, 1, 1];

            let mut index: usize = if last > second_last {
                0
            } else if last == second_last {
                3
            } else {
                6
            };
            if last > to_add {
                index += 0;
            } else if last == to_add {
                index += 1;
            } else {
                index += 2;
            }
            self.happiness = self.happiness + table[index];
        }
    }

    /// Number of treats handed out.
    pub fn length(&self) -> (r: usize)
        ensures
            r == self.treats@.len(),
    {
        self.treats.len()
    }
}

/// A copy of the line, with the same treats and happiness.
impl Clone for Puppies {
    fn clone(&self) -> (r: Puppies)
        ensures
            r.happiness == self.happiness,
            r.treats@ == self.treats@,
    {
        let treats = self.treats.clone();
        proof {
            assert(treats@ =~= self.treats@);
        }
        Puppies { happiness: self.happiness, treats }
    }
}

/// Happiness of handing out `treats` in the order given.
pub fn score(treats: &Vec<i32>) -> (r: i32)
    requires
        treats@.len() <= i32::MAX,
    ensures
        r == score_of(treats@),
{
    let mut p = Puppies::new();
    let mut i: usize = 0;
    while i < treats.len()
        invariant
            i <= treats@.len() <= i32::MAX,
            p.wf(),
            p.treats@ == treats@.subrange(0, i as int),
        decreases treats@.len() - i,
    {
        p.add_treat(treats[i]);
        i += 1;
        proof {
            assert(p.treats@ =~= treats@.subrange(0, i as int));
        }
    }
    proof {
        assert(treats@.subrange(0, i as int) =~= treats@);
    }
    p.happiness
}

} // verus!
