//! Behavioural checks of the primitives and combinators: first-call
//! behaviour, determinism, completeness of the enumerated sets, and the edge
//! cases of each operation.

use exhaustigen::Gen;

#[test]
fn fresh_enumerator_first_done_is_not_terminal() {
    let mut g = Gen::new();
    assert!(!g.done());
}

#[test]
fn fresh_enumerator_without_choices_finishes_after_one_run() {
    let mut g = Gen::new();
    assert!(!g.done());
    assert!(g.done());
}

#[test]
fn gen_zero_is_always_zero() {
    let mut g = Gen::new();
    let mut vals = Vec::new();
    while !g.done() {
        vals.push(g.gen(0));
    }
    assert_eq!(vals, vec![0]);
}

#[test]
fn gen_walks_every_value_up_to_the_bound() {
    let mut g = Gen::new();
    let mut vals = Vec::new();
    while !g.done() {
        vals.push(g.gen(2));
    }
    assert_eq!(vals, vec![0, 1, 2]);
}

#[test]
fn flip_is_false_then_true() {
    let mut g = Gen::new();
    let mut vals = Vec::new();
    while !g.done() {
        vals.push(g.flip());
    }
    assert_eq!(vals, vec![false, true]);
}

#[test]
fn pick_selects_every_element_in_order() {
    let mut g = Gen::new();
    let input = vec![7, 11];
    let mut vals = Vec::new();
    while !g.done() {
        vals.push(*g.pick(&input));
    }
    assert_eq!(vals, vec![7, 11]);
}

#[test]
fn pick_of_a_single_element_runs_once() {
    let mut g = Gen::new();
    let input = vec![42];
    let mut vals = Vec::new();
    while !g.done() {
        vals.push(*g.pick(&input));
    }
    assert_eq!(vals, vec![42]);
}

#[test]
fn adaptive_bounds_enumerate_the_whole_tree() {
    // A later bound that depends on an earlier value: 0 or 1 extra choices.
    let mut g = Gen::new();
    let mut runs = Vec::new();
    while !g.done() {
        let first = g.gen(1);
        let second = g.gen(first);
        runs.push((first, second));
    }
    assert_eq!(runs, vec![(0, 0), (1, 0), (1, 1)]);
}

#[test]
fn replaying_the_same_calls_gives_identical_results() {
    let mut a = Gen::new();
    let mut b = Gen::new();
    let mut results_a = Vec::new();
    let mut results_b = Vec::new();
    while !a.done() {
        results_a.push(a.gen(2));
        results_a.push(if a.flip() { 1 } else { 0 });
        results_a.push(a.gen(1));
    }
    while !b.done() {
        results_b.push(b.gen(2));
        results_b.push(if b.flip() { 1 } else { 0 });
        results_b.push(b.gen(1));
    }
    assert_eq!(results_a, results_b);
}

#[test]
fn gen_elts_covers_every_bounded_sequence_exactly_once() {
    let mut g = Gen::new();
    let mut seen: Vec<Vec<usize>> = Vec::new();
    while !g.done() {
        seen.push(g.gen_elts(2, 2));
    }
    let mut expected: Vec<Vec<usize>> = vec![Vec::new()];
    for x in 0..3usize {
        expected.push(vec![x]);
    }
    for x in 0..3usize {
        for y in 0..3usize {
            expected.push(vec![x, y]);
        }
    }
    assert_eq!(seen.len(), expected.len());
    let mut sorted = seen.clone();
    sorted.sort();
    sorted.dedup();
    assert_eq!(sorted.len(), seen.len(), "a sequence was produced twice");
    expected.sort();
    assert_eq!(sorted, expected);
}

#[test]
fn gen_elts_with_zero_length_bound_runs_once() {
    let mut g = Gen::new();
    let mut runs = 0;
    while !g.done() {
        let elts = g.gen_elts(0, 9);
        assert!(elts.is_empty());
        runs += 1;
    }
    assert_eq!(runs, 1);
}

#[test]
fn gen_fixed_comb_counts_and_lengths() {
    let mut g = Gen::new();
    let input = vec![1, 2];
    let mut runs = 0;
    while !g.done() {
        let comb = g.gen_fixed_comb(2, &input);
        assert_eq!(comb.len(), 2);
        runs += 1;
    }
    assert_eq!(runs, 4);
}

#[test]
fn gen_bound_comb_counts() {
    let mut g = Gen::new();
    let input = vec![1, 2];
    let mut runs = 0;
    while !g.done() {
        let comb = g.gen_bound_comb(1, &input);
        assert!(comb.len() <= 1);
        runs += 1;
    }
    assert_eq!(runs, 3);
}

#[test]
fn every_permutation_appears_exactly_once() {
    let mut g = Gen::new();
    let input = vec![10, 20, 30];
    let mut seen: Vec<Vec<i32>> = Vec::new();
    while !g.done() {
        let perm: Vec<i32> = g.gen_perm(&input).into_iter().copied().collect();
        let mut sorted = perm.clone();
        sorted.sort();
        assert_eq!(sorted, input, "a run was not a permutation of the input");
        seen.push(perm);
    }
    assert_eq!(seen.len(), 6);
    seen.sort();
    seen.dedup();
    assert_eq!(seen.len(), 6, "an ordering was produced twice");
}

#[test]
fn gen_perm_of_empty_input_runs_once() {
    let mut g = Gen::new();
    let input: Vec<i32> = Vec::new();
    let mut runs = 0;
    while !g.done() {
        let perm = g.gen_perm(&input);
        assert!(perm.is_empty());
        runs += 1;
    }
    assert_eq!(runs, 1);
}

#[test]
fn every_inclusion_pattern_appears_exactly_once() {
    let mut g = Gen::new();
    let input = vec![1, 2, 3];
    let mut seen: Vec<Vec<i32>> = Vec::new();
    while !g.done() {
        let subset: Vec<i32> = g.gen_subset(&input).into_iter().copied().collect();
        seen.push(subset);
    }
    assert_eq!(seen.len(), 8);
    assert!(seen.contains(&Vec::new()), "the empty subset is missing");
    assert!(seen.contains(&vec![1, 2, 3]), "the full subset is missing");
    seen.sort();
    seen.dedup();
    assert_eq!(seen.len(), 8, "an inclusion pattern was produced twice");
}

#[test]
fn gen_subset_of_empty_input_runs_once() {
    let mut g = Gen::new();
    let input: Vec<i32> = Vec::new();
    let mut runs = 0;
    while !g.done() {
        let subset = g.gen_subset(&input);
        assert!(subset.is_empty());
        runs += 1;
    }
    assert_eq!(runs, 1);
}

#[test]
fn gen_fixed_by_invokes_the_callback_once_per_position() {
    let mut g = Gen::new();
    let mut runs = 0;
    let mut seen: Vec<Vec<usize>> = Vec::new();
    while !g.done() {
        let out = g.gen_fixed_by(2, |mut h: Gen| {
            let v = h.gen(1);
            (h, v)
        });
        assert_eq!(out.len(), 2);
        seen.push(out);
        runs += 1;
    }
    assert_eq!(runs, 4);
    seen.sort();
    seen.dedup();
    assert_eq!(seen.len(), 4);
}

#[test]
fn gen_bound_by_enumerates_the_length_as_a_choice() {
    let mut g = Gen::new();
    let mut runs = 0;
    while !g.done() {
        let out = g.gen_bound_by(2, |mut h: Gen| {
            let v = h.gen(1);
            (h, v)
        });
        assert!(out.len() <= 2);
        runs += 1;
    }
    // One empty run, two of length one, four of length two.
    assert_eq!(runs, 7);
}
