//! The enumeration loops over each sequence combinator, checking the exact
//! number of runs a full enumeration performs.

use exhaustigen::Gen;

#[test]
fn test_elts() {
    let mut gen = Gen::new();
    let mut i = 0;
    while !gen.done() {
        let elts = gen.gen_elts(3, 4);
        println!("{:?}", elts);
        i += 1;
    }
    assert_eq!(i, (5 * 5 * 5) + (5 * 5) + 5 + 1);
}

#[test]
fn test_comb() {
    let mut gen = Gen::new();
    let vec = vec![1, 2, 3, 4, 5];
    let mut i = 0;
    while !gen.done() {
        let comb = gen.gen_comb(&vec);
        println!("{:?}", comb);
        i += 1;
    }
    assert_eq!(
        i,
        (5 * 5 * 5 * 5 * 5) + (5 * 5 * 5 * 5) + (5 * 5 * 5) + (5 * 5) + 5 + 1
    );
}

#[test]
fn test_perm() {
    let mut gen = Gen::new();
    let vec = vec![1, 2, 3, 4, 5];
    let mut i = 0;
    while !gen.done() {
        let perm = gen.gen_perm(&vec);
        println!("{:?}", perm);
        i += 1;
    }
    assert_eq!(i, 5 * 4 * 3 * 2 * 1);
}

#[test]
fn test_subset() {
    let mut gen = Gen::new();
    let vec = vec![1, 2, 3, 4, 5];
    let mut i = 0;
    while !gen.done() {
        let subset = gen.gen_subset(&vec);
        println!("{:?}", subset);
        i += 1;
    }
    assert_eq!(i, 1 << 5);
}
