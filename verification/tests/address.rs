use ckbtc_minter::address::{
    account_to_bitcoin_address, account_to_p2wpkh_address, derivation_path, derive_public_key,
    Account, BitcoinAddress, ECDSAPublicKey, Network, Principal, DERIVATION_SCHEMA,
    MAX_PRINCIPAL_LEN,
};
use ckbtc_minter::hashes::hash160;

const GENERATOR: &str = "0279be667ef9dcbbac55a06295ce870b07029bfcdb2dce28d959f2815b16f81798";

fn master() -> ECDSAPublicKey {
    ECDSAPublicKey { public_key: hex::decode(GENERATOR).unwrap(), chain_code: vec![7; 32] }
}

fn account(owner: &[u8], subaccount: Option<[u8; 32]>) -> Account {
    Account { owner: Principal::from_slice(owner).unwrap(), subaccount }
}

fn known_address() -> BitcoinAddress {
    let mut hash = [0u8; 20];
    hash.copy_from_slice(&hex::decode("751e76e8199196d454941c45d1b3a323f1433bd6").unwrap());
    BitcoinAddress::P2wpkhV0(hash)
}

#[test]
fn principal_holds_up_to_29_bytes() {
    assert_eq!(MAX_PRINCIPAL_LEN, 29);
    assert_eq!(Principal::from_slice(&[1, 2, 3]).unwrap().to_vec(), vec![1, 2, 3]);
    assert_eq!(Principal::from_slice(&[]).unwrap().to_vec(), Vec::<u8>::new());
    assert_eq!(Principal::from_slice(&[9; 29]).unwrap().to_vec(), vec![9; 29]);
    assert!(Principal::from_slice(&[9; 30]).is_none());
}

#[test]
fn principals_compare_by_their_bytes() {
    let a = Principal::from_slice(&[1, 2]).unwrap();
    let b = Principal::from_slice(&[1, 2, 0]).unwrap();
    assert!(a.same(&a));
    assert!(!a.same(&b));
    assert_eq!(a, Principal::from_slice(&[1, 2]).unwrap());
}

#[test]
fn accounts_compare_by_owner_and_subaccount() {
    let a = account(&[1], None);
    assert!(a.same(&account(&[1], None)));
    assert!(!a.same(&account(&[2], None)));
    assert!(!a.same(&account(&[1], Some([0; 32]))));
    assert!(account(&[1], Some([5; 32])).same(&account(&[1], Some([5; 32]))));
    assert!(!account(&[1], Some([5; 32])).same(&account(&[1], Some([6; 32]))));
}

#[test]
fn derivation_path_of_an_account() {
    assert_eq!(DERIVATION_SCHEMA, 1);
    assert_eq!(
        derivation_path(&account(&[1, 2, 3], None)),
        vec![vec![1], vec![1, 2, 3], vec![0; 32]]
    );
    assert_eq!(
        derivation_path(&account(&[1, 2, 3], Some([9; 32]))),
        vec![vec![1], vec![1, 2, 3], vec![9; 32]]
    );
}

#[test]
fn address_text_on_each_network() {
    let address = known_address();
    assert_eq!(address.display(Network::Mainnet), "bc1qw508d6qejxtdg4y5r3zarvary0c5xw7kv8f3t4");
    assert_eq!(address.display(Network::Testnet), "tb1qw508d6qejxtdg4y5r3zarvary0c5xw7kxpjzsx");
    assert!(address.display(Network::Regtest).starts_with("bcrt1qw508d6qejxtdg4y5r3zarvary0c5xw7k"));
}

#[test]
fn address_of_a_public_key() {
    let address = BitcoinAddress::from_public_key(&hex::decode(GENERATOR).unwrap());
    assert_eq!(address, known_address());
    assert!(address.same(&known_address()));
    assert!(!address.same(&BitcoinAddress::P2wpkhV0([0; 20])));
}

#[test]
fn derived_keys_are_compressed_points_that_differ_by_account() {
    let key = master();
    let a = derive_public_key(&key, &account(&[1, 2, 3], None)).unwrap();
    let b = derive_public_key(&key, &account(&[1, 2, 3], Some([1; 32]))).unwrap();
    let c = derive_public_key(&key, &account(&[1, 2, 4], None)).unwrap();
    for derived in [&a, &b, &c] {
        assert_eq!(derived.public_key.len(), 33);
        assert!(derived.public_key[0] == 2 || derived.public_key[0] == 3);
        assert_eq!(derived.chain_code.len(), 32);
        assert_ne!(derived.public_key, key.public_key);
        assert_ne!(derived.chain_code, key.chain_code);
    }
    assert_ne!(a.public_key, b.public_key);
    assert_ne!(a.public_key, c.public_key);
    assert_ne!(b.public_key, c.public_key);
}

#[test]
fn derivation_gives_the_same_key_each_time() {
    let key = master();
    let account = account(&[1, 2, 3], Some([4; 32]));
    assert_eq!(derive_public_key(&key, &account), derive_public_key(&key, &account));
}

#[test]
fn no_subaccount_stands_for_the_zero_subaccount() {
    let key = master();
    assert_eq!(
        derive_public_key(&key, &account(&[1], None)),
        derive_public_key(&key, &account(&[1], Some([0; 32])))
    );
}

#[test]
fn derivation_from_a_key_off_the_curve_fails() {
    let key = ECDSAPublicKey { public_key: vec![5; 33], chain_code: vec![7; 32] };
    assert_eq!(derive_public_key(&key, &account(&[1], None)), None);
    assert_eq!(account_to_bitcoin_address(&key, &account(&[1], None)), None);
    assert_eq!(account_to_p2wpkh_address(Network::Mainnet, &key, &account(&[1], None)), None);
}

#[test]
fn address_of_an_account_is_the_hash_of_its_key() {
    let key = master();
    let account = account(&[1, 2, 3], None);
    let derived = derive_public_key(&key, &account).unwrap();
    let address = account_to_bitcoin_address(&key, &account).unwrap();
    assert_eq!(address, BitcoinAddress::P2wpkhV0(hash160(&derived.public_key)));
    assert_eq!(
        account_to_p2wpkh_address(Network::Testnet, &key, &account).unwrap(),
        address.display(Network::Testnet)
    );
}
