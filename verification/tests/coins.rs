use ckbtc_minter::coins::greedy;
use ckbtc_minter::utxo::{OutPoint, Utxo, UtxoSet};

fn utxo(tag: u8, value: u64) -> Utxo {
    Utxo { outpoint: OutPoint { txid: [tag; 32], vout: 0 }, value }
}

fn set_of(utxos: &[Utxo]) -> UtxoSet {
    let mut set = UtxoSet::new();
    for u in utxos {
        assert!(set.insert(*u));
    }
    set
}

fn total(utxos: &[Utxo]) -> u64 {
    utxos.iter().map(|u| u.value).sum()
}

#[test]
fn greedy_takes_the_tightest_cover() {
    let mut available = set_of(&[utxo(1, 100_000), utxo(2, 50_000)]);
    let solution = greedy(100_000, &mut available);
    assert_eq!(solution, vec![utxo(1, 100_000)]);
    assert_eq!(available.to_vec(), vec![utxo(2, 50_000)]);
}

#[test]
fn greedy_takes_the_cheapest_output_that_covers() {
    let mut available = set_of(&[utxo(1, 100_000), utxo(2, 50_000), utxo(3, 70_000)]);
    let solution = greedy(60_000, &mut available);
    assert_eq!(solution, vec![utxo(3, 70_000)]);
    assert_eq!(available.to_vec(), vec![utxo(1, 100_000), utxo(2, 50_000)]);
}

#[test]
fn greedy_takes_the_largest_while_it_falls_short() {
    let mut available = set_of(&[utxo(1, 100_000), utxo(2, 50_000), utxo(3, 30_000)]);
    let solution = greedy(120_000, &mut available);
    assert_eq!(solution, vec![utxo(1, 100_000), utxo(3, 30_000)]);
    assert_eq!(available.to_vec(), vec![utxo(2, 50_000)]);
}

#[test]
fn greedy_fails_without_touching_the_set() {
    let mut available = set_of(&[utxo(1, 100_000), utxo(2, 50_000)]);
    let before = available.clone();
    let solution = greedy(150_001, &mut available);
    assert!(solution.is_empty());
    assert_eq!(available, before);
}

#[test]
fn greedy_takes_everything_for_the_whole_value() {
    let mut available = set_of(&[utxo(1, 100_000), utxo(2, 50_000)]);
    let solution = greedy(150_000, &mut available);
    assert_eq!(total(&solution), 150_000);
    assert!(available.is_empty());
}

#[test]
fn greedy_for_nothing_takes_nothing() {
    let mut available = set_of(&[utxo(1, 100_000)]);
    let solution = greedy(0, &mut available);
    assert!(solution.is_empty());
    assert_eq!(available.len(), 1);
}

#[test]
fn greedy_on_an_empty_set() {
    let mut available = UtxoSet::new();
    assert!(greedy(1, &mut available).is_empty());
    assert!(available.is_empty());
}

#[test]
fn greedy_meets_its_three_promises() {
    let values = [1u64, 5, 10, 20, 50, 100, 1_000, 10_000];
    for target in [1u64, 3, 6, 37, 99, 186, 1_186, 11_186, 11_187] {
        let all: Vec<Utxo> =
            values.iter().enumerate().map(|(i, v)| utxo(i as u8 + 1, *v)).collect();
        let mut available = set_of(&all);
        let before = available.clone();
        let solution = greedy(target, &mut available);
        if total(&all) >= target {
            assert!(!solution.is_empty());
        }
        if solution.is_empty() {
            assert_eq!(available, before);
        } else {
            assert!(total(&solution) >= target);
            assert_eq!(total(&solution) + total(&available.to_vec()), total(&all));
        }
    }
}

#[test]
fn utxo_set_keeps_the_order_of_outpoints() {
    let mut set = UtxoSet::new();
    assert!(set.insert(utxo(3, 1)));
    assert!(set.insert(utxo(1, 2)));
    assert!(set.insert(utxo(2, 3)));
    assert!(!set.insert(utxo(2, 99)));
    assert_eq!(set.to_vec(), vec![utxo(1, 2), utxo(2, 3), utxo(3, 1)]);
    assert_eq!(set.position(&utxo(2, 3).outpoint), Some(1));
    assert!(set.contains(&utxo(2, 3)));
    assert!(!set.contains(&utxo(2, 99)));
    assert!(!set.remove(&utxo(2, 99)));
    assert!(set.remove(&utxo(2, 3)));
    assert_eq!(set.to_vec(), vec![utxo(1, 2), utxo(3, 1)]);
    assert_eq!(set.position(&utxo(2, 3).outpoint), None);
}

#[test]
fn outpoints_are_ordered_by_txid_then_index() {
    let a = OutPoint { txid: [1; 32], vout: 7 };
    let b = OutPoint { txid: [1; 32], vout: 8 };
    let mut high = [1u8; 32];
    high[31] = 2;
    let c = OutPoint { txid: high, vout: 0 };
    assert!(a.precedes(&b));
    assert!(!b.precedes(&a));
    assert!(b.precedes(&c));
    assert!(!a.precedes(&a));
    assert!(a.same(&a));
    assert!(!a.same(&b));
}

#[test]
fn putting_selected_outputs_back_restores_the_set() {
    let mut available = set_of(&[utxo(1, 100_000), utxo(2, 50_000), utxo(3, 30_000)]);
    let before = available.clone();
    let solution = greedy(120_000, &mut available);
    available.insert_all(&solution);
    assert_eq!(available, before);
}
