use mcmc_chains::{flatten, split_chains, StatsError};

#[test]
fn test_split_empty_chains() {
    // Make sure we Err on empty or minimum 0 length chains
    let a: Vec<f64> = vec![1.0];
    let b: Vec<f64> = vec![];
    let c: Vec<f64> = vec![];
    let chains = vec![a, b, c];
    assert!(split_chains(chains).is_err());

    let a: Vec<f64> = vec![];
    let b: Vec<f64> = vec![];
    let chains = vec![a, b];
    assert!(split_chains(chains).is_err());
}

#[test]
fn test_split_even_chains() {
    // Regular split with even numbers
    let a = vec![1.0, 2.0, 3.0, 4.0];
    let b = vec![5.0, 6.0, 7.0, 8.0];
    let chains = vec![a, b];
    let split = split_chains(chains).unwrap();
    assert_eq!(split[0], vec![1.0, 2.0]);
    assert_eq!(split[1], vec![3.0, 4.0]);
    assert_eq!(split[2], vec![5.0, 6.0]);
    assert_eq!(split[3], vec![7.0, 8.0]);
}

#[test]
fn test_split_odd_chains() {
    // Make sure the middle value gets dropped as Stan does
    let a = vec![1.0, 2.0, 3.0, 4.0, 4.5];
    let b = vec![5.0, 6.0, 7.0, 8.0, 8.5];
    let chains = vec![a, b];
    let split = split_chains(chains).unwrap();
    assert_eq!(split[0], vec![1.0, 2.0]);
    assert_eq!(split[1], vec![4.0, 4.5]);
    assert_eq!(split[2], vec![5.0, 6.0]);
    assert_eq!(split[3], vec![8.0, 8.5]);
}

#[test]
fn test_flatten() {
    // Regular split with even numbers
    let a = vec![1.0, 2.0, 3.0, 4.0];
    let b = vec![5.0, 6.0, 7.0, 8.0];
    let chains = vec![a, b];
    let flattened = flatten(&chains);
    assert_eq!(flattened, vec![1.0, 2.0, 3.0, 4.0, 5.0, 6.0, 7.0, 8.0]);
}

#[test]
fn split_error_kinds() {
    let none: Vec<Vec<f64>> = vec![];
    assert_eq!(split_chains(none), Err(StatsError::EmptyChainSet));
    assert_eq!(
        split_chains(vec![vec![1.0], vec![], vec![]]),
        Err(StatsError::NoDraws)
    );
    assert_eq!(split_chains::<f64>(vec![vec![], vec![]]), Err(StatsError::NoDraws));
}

#[test]
fn flatten_empty_inputs() {
    let none: Vec<Vec<f64>> = vec![];
    assert_eq!(flatten(&none), Vec::<f64>::new());
    let blanks: Vec<Vec<f64>> = vec![vec![], vec![]];
    assert_eq!(flatten(&blanks), Vec::<f64>::new());
}

#[test]
fn split_single_draw_chain() {
    // one draw: the middle draw is dropped, both halves are empty
    let split = split_chains(vec![vec![7.5]]).unwrap();
    assert_eq!(split, vec![Vec::<f64>::new(), Vec::new()]);
}

#[test]
fn split_unequal_lengths_uses_shortest() {
    // split point from the shortest chain (3 draws): first halves hold one
    // draw, the middle draw is dropped, longer chains keep the rest
    let chains = vec![vec![1u64, 2, 3, 4, 5, 6], vec![7, 8, 9]];
    let split = split_chains(chains).unwrap();
    assert_eq!(split, vec![vec![1], vec![3, 4, 5, 6], vec![7], vec![9]]);
}

#[test]
fn split_then_flatten_drops_only_middle() {
    let chains = vec![vec![1.0, 2.0, 3.0, 4.0, 4.5], vec![5.0, 6.0, 7.0, 8.0, 8.5]];
    let split = split_chains(chains).unwrap();
    let rejoined: Vec<Vec<f64>> = split
        .chunks(2)
        .map(|p| [p[0].clone(), p[1].clone()].concat())
        .collect();
    assert_eq!(rejoined, vec![vec![1.0, 2.0, 4.0, 4.5], vec![5.0, 6.0, 8.0, 8.5]]);
    assert_eq!(flatten(&split), flatten(&rejoined));

    let even = vec![vec![1, 2, 3, 4], vec![5, 6, 7, 8]];
    let split = split_chains(even.clone()).unwrap();
    assert_eq!(flatten(&split), flatten(&even));
}

#[test]
fn even_split_halves_have_half_length() {
    let chains = vec![vec![0u8; 6], vec![1u8; 6], vec![2u8; 6]];
    let split = split_chains(chains).unwrap();
    assert_eq!(split.len(), 6);
    for half in &split {
        assert_eq!(half.len(), 3);
    }
}
