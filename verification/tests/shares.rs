use ckbtc_minter::shares::distribute;

#[test]
fn distribute_five_over_three() {
    assert_eq!(distribute(5, 3), vec![2, 2, 1]);
}

#[test]
fn distribute_over_no_shares_is_empty() {
    assert_eq!(distribute(5, 0), Vec::<u64>::new());
}

#[test]
fn distribute_even_amount() {
    assert_eq!(distribute(12, 4), vec![3, 3, 3, 3]);
}

#[test]
fn distribute_less_than_shares() {
    assert_eq!(distribute(2, 5), vec![1, 1, 0, 0, 0]);
}

#[test]
fn distribute_nothing() {
    assert_eq!(distribute(0, 3), vec![0, 0, 0]);
}

#[test]
fn distribute_largest_amount() {
    let shares = distribute(u64::MAX, 2);
    assert_eq!(shares, vec![9_223_372_036_854_775_808, 9_223_372_036_854_775_807]);
}

#[test]
fn shares_add_up_and_differ_by_one_at_most() {
    for amount in [0u64, 1, 7, 100, 367, 1_000_003] {
        for n in [1u64, 2, 3, 7, 20] {
            let shares = distribute(amount, n);
            assert_eq!(shares.len() as u64, n);
            assert_eq!(shares.iter().sum::<u64>(), amount);
            let max = *shares.iter().max().unwrap();
            let min = *shares.iter().min().unwrap();
            assert!(max - min <= 1);
            for pair in shares.windows(2) {
                assert!(pair[0] >= pair[1]);
            }
        }
    }
}
