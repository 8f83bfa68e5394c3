use puppies::{guess, permutation_helper, score, singles_and_pairs, solve, treat_size_counts, Puppies};

fn sorted(v: &Vec<i32>) -> Vec<i32> {
    let mut s = v.clone();
    s.sort();
    s
}

fn best_by_enumeration(items: &Vec<i32>) -> i32 {
    fn walk(rest: &mut Vec<i32>, line: &mut Vec<i32>, best: &mut i32) {
        if rest.is_empty() {
            let s = score(line);
            if s > *best {
                *best = s;
            }
            return;
        }
        for i in 0..rest.len() {
            let x = rest.remove(i);
            line.push(x);
            walk(rest, line, best);
            line.pop();
            rest.insert(i, x);
        }
    }
    let mut rest = items.clone();
    let mut line = vec![];
    let mut best = i32::MIN;
    walk(&mut rest, &mut line, &mut best);
    best
}

#[test]
fn test_solve() {
    let best_score = solve(&vec![1, 1, 1, 1, 1, 2, 2, 3]).happiness;
    assert_eq!(best_score, 3);

    let best_score = solve(&vec![1, 2, 2, 3, 3, 3, 4]).happiness;
    assert_eq!(best_score, 2);

    let best_score = solve(&vec![1, 1, 2, 3, 3, 3, 3, 4, 5, 5]).happiness;
    assert_eq!(best_score, 4);

    let best_score = solve(&vec![1, 1, 2, 2, 3, 4, 4, 5, 5, 5, 6, 6]).happiness;
    assert_eq!(best_score, 4);

    let best_score = solve(&vec![1, 2, 3, 4, 5]).happiness;
    assert_eq!(best_score, 1);
    let best_score = solve(&vec![1, 1, 1, 1]).happiness;
    assert_eq!(best_score, 0);
    let best_score = solve(&vec![1, 1, 2, 3, 4]).happiness;
    assert_eq!(best_score, 2);
    let best_score = solve(&vec![1, 1, 1, 2, 2, 2, 2, 3, 3, 4]).happiness;
    assert_eq!(best_score, 3);
    let best_score = solve(&vec![1, 1, 1, 2, 2, 2, 2, 3, 3, 3, 3, 4, 4, 5]).happiness;
    assert_eq!(best_score, 5);
    let best_score = solve(&vec![1, 1, 2, 3, 4, 4]).happiness;
    assert_eq!(best_score, 2);
}

#[test]
fn test_score() {
    let mut v = vec![1, 2, 1, 2, 1, 3, 1, 1];
    assert_eq!(score(&v), 0);
    v = vec![1, 2, 2, 3, 3, 3, 4];
    assert_eq!(score(&v), 0);
    v = vec![1, 1, 1, 1, 1, 2, 2, 3];
    assert_eq!(score(&v), 1);
    v = vec![3, 2, 2, 3, 1, 3, 4];
    assert_eq!(score(&v), 2);
    v = vec![2, 1, 1, 2, 1, 1, 1, 3];
    assert_eq!(score(&v), 3);
    v = vec![1, 2, 3, 4, 5];
    assert_eq!(score(&v), 0);
    v = vec![1, 1, 1, 1];
    assert_eq!(score(&v), 0);
    v = vec![5, 4, 3, 2, 1];
    assert_eq!(score(&v), 0);
    v = vec![1];
    assert_eq!(score(&v), 1);
    v = vec![1, 2];
    assert_eq!(score(&v), 0);
    v = vec![2, 2];
    assert_eq!(score(&v), 0);
}

#[test]
fn solve_matches_enumeration_on_small_inputs() {
    let cases: Vec<Vec<i32>> = vec![
        vec![3, 1, 1, 2],
        vec![4, 1, 3, 1],
        vec![1, 3, 1, 4, 3, 2, 2],
        vec![2, 2, 3, 2, 1, 3, 1],
        vec![1, 1, 2, 2, 3, 3, 4, 4],
        vec![5, 1, 1, 5, 2, 2, 3],
        vec![1, 2, 3, 4, 5, 6, 7],
        vec![2, 1],
        vec![7],
    ];
    for items in cases {
        assert_eq!(solve(&items).happiness, best_by_enumeration(&items), "{:?}", items);
    }
}

#[test]
fn solve_score_is_rescored_order() {
    for items in [vec![1, 1, 1, 1, 1, 2, 2, 3], vec![1, 1, 2, 2, 3, 4, 4, 5, 5, 5, 6, 6], vec![4, 4, 9]] {
        let p = solve(&items);
        assert_eq!(score(&p.treats), p.happiness);
    }
}

#[test]
fn solve_returns_a_permutation() {
    for items in [vec![1, 2, 2, 3, 3, 3, 4], vec![1, 1, 2, 3, 3, 3, 3, 4, 5, 5], vec![6, 6, 6]] {
        let p = solve(&items);
        assert_eq!(sorted(&p.treats), sorted(&items));
    }
}

#[test]
fn solve_single_size() {
    let one = solve(&vec![4]);
    assert_eq!(one.happiness, 1);
    assert_eq!(one.treats, vec![4]);
    let many = solve(&vec![3, 3, 3, 3, 3]);
    assert_eq!(many.happiness, 0);
    assert_eq!(many.treats, vec![3, 3, 3, 3, 3]);
    let two = solve(&vec![2, 2]);
    assert_eq!(two.happiness, 0);
}

#[test]
fn add_treat_boundary_scores() {
    let mut p = Puppies::new();
    assert_eq!(p.happiness, 0);
    assert_eq!(p.length(), 0);
    p.add_treat(9);
    assert_eq!(p.happiness, 1);
    p.add_treat(1);
    assert_eq!(p.happiness, 0);
    assert_eq!(p.length(), 2);
    let mut q = Puppies::new();
    q.add_treat(3);
    q.add_treat(3);
    assert_eq!(q.happiness, 0);
}

#[test]
fn add_treat_each_transition() {
    let cases: [([i32; 3], i32); 9] = [
        ([1, 2, 1], -1),
        ([1, 2, 2], -1),
        ([1, 2, 3], 0),
        ([2, 2, 1], -1),
        ([2, 2, 2], 0),
        ([2, 2, 3], 1),
        ([3, 2, 1], 0),
        ([3, 2, 2], 1),
        ([3, 2, 3], 1),
    ];
    for (line, expected) in cases {
        let mut p = Puppies::new();
        for t in line {
            p.add_treat(t);
        }
        assert_eq!(p.happiness, expected, "{:?}", line);
        assert_eq!(p.treats, line.to_vec());
    }
}

#[test]
fn clone_keeps_line() {
    let mut p = Puppies::new();
    p.add_treat(2);
    p.add_treat(1);
    p.add_treat(1);
    let c = p.clone();
    assert_eq!(c.happiness, 1);
    assert_eq!(c.treats, vec![2, 1, 1]);
}

#[test]
fn counts_per_size() {
    assert_eq!(treat_size_counts(&vec![1, 1, 2, 3, 3, 3, 3, 4, 5, 5]), vec![0, 2, 1, 4, 1, 2]);
    assert_eq!(treat_size_counts(&vec![3]), vec![0, 0, 0, 1]);
    assert_eq!(treat_size_counts(&vec![2, 0, 2]), vec![1, 0, 2]);
}

#[test]
fn counts_split_into_singles_and_pairs() {
    let (singles, pairs) = singles_and_pairs(&vec![0, 2, 1, 4, 1, 2]);
    assert_eq!(singles, vec![2, 4]);
    assert_eq!(pairs, vec![1, 3, 3, 5]);
    let (singles, pairs) = singles_and_pairs(&vec![0, 5, 0, 3]);
    assert_eq!(singles, vec![1, 3]);
    assert_eq!(pairs, vec![1, 1, 3]);
}

#[test]
fn guess_orders_pairs_behind_larger_singles() {
    let g = guess(&vec![1, 1, 2, 3]);
    assert_eq!(g.treats, vec![2, 1, 1, 3]);
    assert_eq!(g.happiness, 2);
    let g = guess(&vec![1, 1, 1, 1, 1, 2, 2, 3]);
    assert_eq!(sorted(&g.treats), vec![1, 1, 1, 1, 1, 2, 2, 3]);
    assert_eq!(score(&g.treats), g.happiness);
}

#[test]
fn helper_with_nothing_left_returns_line() {
    let mut line = Puppies::new();
    line.add_treat(5);
    line.add_treat(2);
    let seed = guess(&vec![1, 2, 3]);
    let r = permutation_helper(&vec![0, 0, 0], &line, &seed);
    assert_eq!(r.treats, vec![5, 2]);
    assert_eq!(r.happiness, 0);
}

#[test]
fn helper_beats_a_poor_seed() {
    let mut seed = Puppies::new();
    for t in [1, 2, 3] {
        seed.add_treat(t);
    }
    assert_eq!(seed.happiness, 0);
    let r = permutation_helper(&vec![0, 1, 1, 1], &Puppies::new(), &seed);
    assert_eq!(r.happiness, 1);
    assert_eq!(sorted(&r.treats), vec![1, 2, 3]);
}

#[test]
fn helper_finds_a_gain_of_two_after_a_fall() {
    let mut seed = Puppies::new();
    for t in [1, 1, 2, 3] {
        seed.add_treat(t);
    }
    assert_eq!(seed.happiness, 1);
    let r = permutation_helper(&vec![0, 2, 1, 1], &Puppies::new(), &seed);
    assert_eq!(r.treats, vec![2, 1, 1, 3]);
    assert_eq!(r.happiness, 2);
}

#[test]
fn guess_takes_the_smallest_larger_single() {
    let g = guess(&vec![1, 1, 1, 1, 1, 2, 2, 3]);
    assert_eq!(g.treats, vec![2, 1, 1, 2, 1, 1, 1, 3]);
    assert_eq!(g.happiness, 3);
}
