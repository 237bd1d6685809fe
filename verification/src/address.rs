//! Networks, accounts, and the addresses that outputs pay to.

use vstd::prelude::*;
use crate::hashes::{hash160, hash160_of, hmac_sha512, hmac_sha512_of};

verus! {

/// The Bitcoin network that the minter settles on.
#[derive(Clone, Copy, Debug, PartialEq, Eq, Structural)]
pub enum Network {
    Mainnet,
    Testnet,
    Regtest,
}

/// The master public key of the minter and the chain code that child keys
/// are derived with.
#[derive(Clone, Debug, PartialEq, Eq)]
pub struct ECDSAPublicKey {
    pub public_key: Vec<u8>,
    pub chain_code: Vec<u8>,
}

/// Most bytes that a principal can have.
pub const MAX_PRINCIPAL_LEN: usize = 29;

/// The identifier of whoever owns an account: up to 29 bytes.
#[derive(Clone, Copy, Debug, PartialEq, Eq)]
pub struct Principal {
    len: u8,
    bytes: [u8; 29],
}

impl View for Principal {
    type V = Seq<u8>;

    closed spec fn view(&self) -> Seq<u8> {
        self.bytes@.take(self.len as int)
    }
}

impl Principal {
    /// The length is in range and the bytes beyond it are zero, so that two
    /// principals of the same bytes are the same value.
    pub closed spec fn wf(&self) -> bool {
        &&& self.len <= 29
        &&& forall|i: int| self.len <= i < 29 ==> self.bytes@[i] == 0
    }

    /// The principal of the given bytes; `None` where they are more than 29.
    pub fn from_slice(bytes: &[u8]) -> (r: Option<Principal>)
        ensures
            r is Some <==> bytes@.len() <= MAX_PRINCIPAL_LEN,
            r is Some ==> r->0.wf() && r->0@ == bytes@,
    {
        if bytes.len() > MAX_PRINCIPAL_LEN {
            return None;
        }
        let mut buf: [u8; 29] = [0u8; 29];
        let mut i: usize = 0;
        while i < bytes.len()
            invariant
                i <= bytes@.len() <= 29,
                forall|j: int| 0 <= j < i ==> buf@[j] == bytes@[j],
                forall|j: int| i <= j < 29 ==> buf@[j] == 0,
            decreases bytes@.len() - i,
        {
            buf[i] = bytes[i];
            i = i + 1;
        }
        let p = Principal { len: bytes.len() as u8, bytes: buf };
        assert(p@ =~= bytes@);
        Some(p)
    }

    /// The bytes of the principal.
    pub fn to_vec(&self) -> (v: Vec<u8>)
        requires
            self.wf(),
        ensures
            v@ == self@,
    {
        let mut v: Vec<u8> = Vec::new();
        let mut i: usize = 0;
        while i < self.len as usize
            invariant
                i <= self.len <= 29,
                v@ == self.bytes@.take(i as int),
            decreases self.len - i,
        {
            v.push(self.bytes[i]);
            assert(v@ =~= self.bytes@.take(i + 1));
            i = i + 1;
        }
        v
    }

    /// Two principals of the same bytes are the same principal.
    pub proof fn lemma_view_injective(self, other: Principal)
        requires
            self.wf(),
            other.wf(),
            self@ == other@,
        ensures
            self == other,
    {
        assert(self.bytes@.len() == 29 && other.bytes@.len() == 29);
        assert(self@.len() == self.len && other@.len() == other.len);
        assert forall|i: int| 0 <= i < 29 implies self.bytes@[i] == other.bytes@[i] by {
            if i < self.len {
                assert(self@[i] == self.bytes@[i]);
                assert(other@[i] == other.bytes@[i]);
            }
        }
        assert(self.bytes@ =~= other.bytes@);
        assert(self.bytes =~= other.bytes);
    }

    /// Whether the two principals are the same.
    pub fn same(&self, other: &Principal) -> (r: bool)
        ensures
            r == (*self == *other),
    {
        if self.len != other.len {
            return false;
        }
        let mut i: usize = 0;
        while i < 29
            invariant
                i <= 29,
                forall|j: int| 0 <= j < i ==> self.bytes@[j] == other.bytes@[j],
            decreases 29 - i,
        {
            if self.bytes[i] != other.bytes[i] {
                return false;
            }
            i = i + 1;
        }
        assert(self.bytes@ =~= other.bytes@);
        assert(self.bytes =~= other.bytes);
        true
    }
}

/// Owner and optional subaccount of a token account.
#[derive(Clone, Copy, Debug, PartialEq, Eq)]
pub struct Account {
    pub owner: Principal,
    pub subaccount: Option<[u8; 32]>,
}

/// The first element of every derivation path: the version of the scheme.
pub const DERIVATION_SCHEMA: u8 = 1;

impl Account {
    /// The subaccount that the account stands for: its own, or 32 zero bytes
    /// where it names none.
    pub open spec fn effective_subaccount(&self) -> Seq<u8> {
        match self.subaccount {
            Some(bytes) => bytes@,
            None => Seq::new(32, |i: int| 0u8),
        }
    }

    /// The path under the master key at which the account's key is derived:
    /// the scheme's version, the owner, the subaccount.
    pub open spec fn path(&self) -> Seq<Seq<u8>> {
        seq![seq![DERIVATION_SCHEMA], self.owner@, self.effective_subaccount()]
    }

    /// Whether the two accounts are the same, owner and subaccount.
    pub fn same(&self, other: &Account) -> (r: bool)
        ensures
            r == (*self == *other),
    {
        if !self.owner.same(&other.owner) {
            return false;
        }
        match (&self.subaccount, &other.subaccount) {
            (Some(a), Some(b)) => {
                let mut k: usize = 0;
                while k < 32
                    invariant
                        k <= 32,
                        self.subaccount == Some(*a),
                        other.subaccount == Some(*b),
                        forall|j: int| 0 <= j < k ==> a@[j] == b@[j],
                    decreases 32 - k,
                {
                    if a[k] != b[k] {
                        return false;
                    }
                    k = k + 1;
                }
                assert(a@ =~= b@);
                assert(*a =~= *b);
                true
            },
            (None, None) => true,
            _ => false,
        }
    }
}

/// The derivation path of an account's key.
pub fn derivation_path(account: &Account) -> (path: Vec<Vec<u8>>)
    requires
        account.owner.wf(),
    ensures
        path@.len() == 3,
        path@.map_values(|p: Vec<u8>| p@) == account.path(),
{
    let mut schema: Vec<u8> = Vec::new();
    schema.push(DERIVATION_SCHEMA);
    let owner: Vec<u8> = account.owner.to_vec();
    let mut sub: Vec<u8> = Vec::new();
    match &account.subaccount {
        Some(bytes) => {
            crate::wire::put_bytes(&mut sub, bytes.as_slice());
        },
        None => {
            let mut i: usize = 0;
            while i < 32
                invariant
                    i <= 32,
                    sub@ == Seq::new(i as nat, |k: int| 0u8),
                decreases 32 - i,
            {
                sub.push(0);
                assert(sub@ =~= Seq::new((i + 1) as nat, |k: int| 0u8));
                i = i + 1;
            }
        },
    }
    assert(schema@ =~= seq![DERIVATION_SCHEMA]);
    assert(sub@ =~= account.effective_subaccount());
    let mut path: Vec<Vec<u8>> = Vec::new();
    path.push(schema);
    path.push(owner);
    path.push(sub);
    assert(path@.map_values(|p: Vec<u8>| p@) =~= account.path());
    path
}

/// Accounts that differ in owner or in the subaccount they stand for are
/// derived at different paths.
pub proof fn lemma_paths_differ(a: Account, b: Account)
    requires
        a.owner@ != b.owner@ || a.effective_subaccount() != b.effective_subaccount(),
    ensures
        a.path() != b.path(),
{
    if a.path() == b.path() {
        assert(a.path()[1] == b.path()[1]);
        assert(a.path()[2] == b.path()[2]);
    }
}

/// Where an output pays to: the hash of a public key, in a version 0 witness
/// program.
#[derive(Clone, Copy, Debug, PartialEq, Eq)]
pub enum BitcoinAddress {
    P2wpkhV0([u8; 20]),
}

impl BitcoinAddress {
    /// The 20 bytes of the public key hash.
    pub open spec fn pkhash(self) -> Seq<u8> {
        match self {
            BitcoinAddress::P2wpkhV0(h) => h@,
        }
    }

    /// The locking script of an output to this address: the witness version,
    /// the length of the hash, the hash.
    pub open spec fn script_pubkey(self) -> Seq<u8> {
        seq![0x00u8, 0x14u8] + self.pkhash()
    }

    /// Whether the two addresses are the same.
    pub fn same(&self, other: &BitcoinAddress) -> (r: bool)
        ensures
            r == (*self == *other),
    {
        match (self, other) {
            (BitcoinAddress::P2wpkhV0(a), BitcoinAddress::P2wpkhV0(b)) => {
                let mut k: usize = 0;
                while k < 20
                    invariant
                        k <= 20,
                        *self == BitcoinAddress::P2wpkhV0(*a),
                        *other == BitcoinAddress::P2wpkhV0(*b),
                        forall|j: int| 0 <= j < k ==> a@[j] == b@[j],
                    decreases 20 - k,
                {
                    if a[k] != b[k] {
                        return false;
                    }
                    k = k + 1;
                }
                assert(a@ =~= b@);
                assert(*a =~= *b);
                true
            },
        }
    }

    /// The address that pays to the holder of the given public key.
    pub fn from_public_key(pubkey: &[u8]) -> (address: BitcoinAddress)
        ensures
            address.pkhash() == hash160_of(pubkey@),
    {
        BitcoinAddress::P2wpkhV0(hash160(pubkey))
    }
}

/// The compressed encoding of the point that a public key and a tweak give:
/// the key's point plus the tweak times the generator. `None` where the key
/// is no point of the curve, the tweak is not below the order of the group,
/// or the sum is the point at infinity.
pub uninterp spec fn tweaked_key_of(public_key: Seq<u8>, tweak: Seq<u8>) -> Option<Seq<u8>>;

/// Calls `k256`: `PublicKey::from_sec1_bytes` reads the key,
/// `Scalar::from_repr` the tweak, the generator times the tweak is added to
/// the key's point, and `PublicKey::from_affine` with `to_encoded_point`
/// gives the compressed encoding of the sum. Each of the first, second and
/// fourth step can refuse, and then the result is `None`. The contract gives
/// the result the name `tweaked_key_of`: it depends on the key and the tweak
/// alone.
#[verifier::external_body]
pub(crate) fn tweak_public_key(public_key: &[u8], tweak: &[u8; 32]) -> (child: Option<Vec<u8>>)
    ensures
        match child {
            Some(key) => tweaked_key_of(public_key@, tweak@) == Some(key@),
            None => tweaked_key_of(public_key@, tweak@) is None,
        },
{
    let parent = k256::PublicKey::from_sec1_bytes(public_key).ok()?;
    let scalar = Option::<k256::Scalar>::from(
        <k256::Scalar as k256::elliptic_curve::PrimeField>::from_repr((*tweak).into()),
    )?;
    let sum = parent.to_projective() + k256::ProjectivePoint::GENERATOR * scalar;
    let child = k256::PublicKey::from_affine(sum.to_affine()).ok()?;
    let point = k256::elliptic_curve::sec1::ToEncodedPoint::to_encoded_point(&child, true);
    Some(point.as_bytes().to_vec())
}

/// The child of a key at one element of a derivation path: the code of the
/// key and the element under the chain code is split in two; its first half
/// tweaks the key, its second half is the child's chain code.
pub open spec fn child_key_of(key: (Seq<u8>, Seq<u8>), index: Seq<u8>) -> Option<(Seq<u8>, Seq<u8>)> {
    let code = hmac_sha512_of(key.1, key.0 + index);
    match tweaked_key_of(key.0, code.take(32)) {
        Some(child) => Some((child, code.skip(32))),
        None => None,
    }
}

/// The key at the end of a derivation path; `None` where a step on the way
/// gives no key.
pub open spec fn derived_key_of(key: (Seq<u8>, Seq<u8>), path: Seq<Seq<u8>>) -> Option<
    (Seq<u8>, Seq<u8>),
>
    decreases path.len(),
{
    if path.len() == 0 {
        Some(key)
    } else {
        match derived_key_of(key, path.drop_last()) {
            Some(parent) => child_key_of(parent, path.last()),
            None => None,
        }
    }
}

/// Derives the public key of an account from the master key, along the
/// derivation path of the account. `None` where a step gives no key, which
/// for a master key on the curve happens with negligible probability.
pub fn derive_public_key(ecdsa_public_key: &ECDSAPublicKey, account: &Account) -> (derived: Option<
    ECDSAPublicKey,
>)
    requires
        account.owner.wf(),
    ensures
        match derived {
            Some(key) => derived_key_of(
                (ecdsa_public_key.public_key@, ecdsa_public_key.chain_code@),
                account.path(),
            ) == Some((key.public_key@, key.chain_code@)),
            None => derived_key_of(
                (ecdsa_public_key.public_key@, ecdsa_public_key.chain_code@),
                account.path(),
            ) is None,
        },
{
    let path: Vec<Vec<u8>> = derivation_path(account);
    let ghost master = (ecdsa_public_key.public_key@, ecdsa_public_key.chain_code@);
    let ghost steps = path@.map_values(|p: Vec<u8>| p@);
    let mut public_key: Vec<u8> = Vec::new();
    crate::wire::put_bytes(&mut public_key, ecdsa_public_key.public_key.as_slice());
    let mut chain_code: Vec<u8> = Vec::new();
    crate::wire::put_bytes(&mut chain_code, ecdsa_public_key.chain_code.as_slice());
    assert(public_key@ =~= master.0 && chain_code@ =~= master.1);
    let mut i: usize = 0;
    assert(steps.take(0) =~= Seq::<Seq<u8>>::empty());
    while i < path.len()
        invariant
            i <= path@.len(),
            steps == path@.map_values(|p: Vec<u8>| p@),
            steps == account.path(),
            master == (ecdsa_public_key.public_key@, ecdsa_public_key.chain_code@),
            derived_key_of(master, steps.take(i as int)) == Some((public_key@, chain_code@)),
        decreases path@.len() - i,
    {
        let mut data: Vec<u8> = Vec::new();
        crate::wire::put_bytes(&mut data, public_key.as_slice());
        crate::wire::put_bytes(&mut data, path[i].as_slice());
        assert(data@ =~= public_key@ + steps[i as int]);
        let code: [u8; 64] = hmac_sha512(chain_code.as_slice(), data.as_slice());
        let mut tweak: [u8; 32] = [0u8; 32];
        let mut next_chain_code: Vec<u8> = Vec::new();
        let mut k: usize = 0;
        while k < 32
            invariant
                k <= 32,
                forall|j: int| 0 <= j < k ==> tweak@[j] == code@[j],
                next_chain_code@ == code@.subrange(32, 32 + k),
            decreases 32 - k,
        {
            tweak[k] = code[k];
            next_chain_code.push(code[k + 32]);
            assert(next_chain_code@ =~= code@.subrange(32, 32 + k + 1));
            k = k + 1;
        }
        assert(tweak@ =~= code@.take(32));
        assert(next_chain_code@ =~= code@.skip(32));
        proof {
            assert(steps.take(i + 1).drop_last() =~= steps.take(i as int));
            assert(steps.take(i + 1).last() == steps[i as int]);
        }
        match tweak_public_key(public_key.as_slice(), &tweak) {
            Some(child) => {
                public_key = child;
                chain_code = next_chain_code;
            },
            None => {
                proof {
                    assert(child_key_of((public_key@, chain_code@), steps[i as int]) is None);
                    assert(derived_key_of(master, steps.take(i + 1)) is None);
                    lemma_derivation_stays_failed(master, steps, i + 1);
                }
                return None;
            },
        }
        i = i + 1;
    }
    assert(steps.take(i as int) =~= steps);
    Some(ECDSAPublicKey { public_key, chain_code })
}

/// Once a step of a derivation gives no key, no longer path does.
pub proof fn lemma_derivation_stays_failed(key: (Seq<u8>, Seq<u8>), path: Seq<Seq<u8>>, k: int)
    requires
        0 <= k <= path.len(),
        derived_key_of(key, path.take(k)) is None,
    ensures
        derived_key_of(key, path) is None,
    decreases path.len() - k,
{
    if k < path.len() {
        assert(path.take(k + 1).drop_last() =~= path.take(k));
        lemma_derivation_stays_failed(key, path, k + 1);
    } else {
        assert(path.take(k) =~= path);
    }
}

/// The first part of an address, which names its network.
pub open spec fn hrp_of(network: Network) -> Seq<char> {
    match network {
        Network::Mainnet => "bc"@,
        Network::Testnet => "tb"@,
        Network::Regtest => "bcrt"@,
    }
}

/// Whether a string can be the first part of an address: one to 83
/// printable ASCII characters, not both upper and lower case among them.
pub open spec fn valid_hrp(hrp: Seq<char>) -> bool {
    &&& 1 <= hrp.len() <= 83
    &&& forall|i: int| 0 <= i < hrp.len() ==> 33 <= #[trigger] (hrp[i] as u32) <= 126
    &&& !((exists|i: int| 0 <= i < hrp.len() && 'a' <= #[trigger] hrp[i] <= 'z') && (exists|i: int|
        0 <= i < hrp.len() && 'A' <= #[trigger] hrp[i] <= 'Z'))
}

/// The version of the witness program that an address holds.
pub const WITNESS_VERSION: u8 = 0;

/// The text of the address that holds a witness program of the given
/// version on the network that `hrp` names, with the checksum of the first
/// address format.
pub uninterp spec fn segwit_address_of(hrp: Seq<char>, version: u8, program: Seq<u8>) -> Seq<char>;

/// Calls `bech32::encode` with the `Bech32` variant on the witness version
/// (`u5::try_from_u8`) followed by the program in base 32
/// (`ToBase32::to_base32`). A version above 31 is refused, and the encoder
/// refuses nothing but an unfit first part, so the result is `Some` exactly
/// where the version is 31 at most and `valid_hrp` holds. The contract
/// gives the text the name `segwit_address_of`: it depends on the first
/// part, the version and the program alone.
#[verifier::external_body]
pub(crate) fn segwit_address(hrp: &str, version: u8, program: &[u8]) -> (text: Option<String>)
    ensures
        text is Some <==> (valid_hrp(hrp@) && version <= 31),
        text is Some ==> text->0@ == segwit_address_of(hrp@, version, program@),
{
    let mut data = Vec::new();
    data.push(bech32::u5::try_from_u8(version).ok()?);
    data.extend(bech32::ToBase32::to_base32(&program));
    bech32::encode(hrp, data, bech32::Variant::Bech32).ok()
}

impl BitcoinAddress {
    /// The text of the address on the given network.
    pub fn display(&self, network: Network) -> (text: String)
        ensures
            text@ == segwit_address_of(hrp_of(network), WITNESS_VERSION, self.pkhash()),
    {
        let hrp: &str = match network {
            Network::Mainnet => "bc",
            Network::Testnet => "tb",
            Network::Regtest => "bcrt",
        };
        proof {
            reveal_strlit("bc");
            reveal_strlit("tb");
            reveal_strlit("bcrt");
            assert(valid_hrp(hrp@));
        }
        let text = match self {
            BitcoinAddress::P2wpkhV0(hash) => segwit_address(hrp, WITNESS_VERSION, hash.as_slice()),
        };
        match text {
            Some(text) => text,
            None => {
                assert(false);
                String::new()
            },
        }
    }
}

/// The address of an account: the hash of the account's public key.
pub fn account_to_bitcoin_address(ecdsa_public_key: &ECDSAPublicKey, account: &Account) -> (address:
    Option<BitcoinAddress>)
    requires
        account.owner.wf(),
    ensures
        match address {
            Some(a) => {
                let derived = derived_key_of(
                    (ecdsa_public_key.public_key@, ecdsa_public_key.chain_code@),
                    account.path(),
                );
                derived is Some && a.pkhash() == hash160_of((derived->0).0)
            },
            None => derived_key_of(
                (ecdsa_public_key.public_key@, ecdsa_public_key.chain_code@),
                account.path(),
            ) is None,
        },
{
    match derive_public_key(ecdsa_public_key, account) {
        Some(key) => Some(BitcoinAddress::from_public_key(key.public_key.as_slice())),
        None => None,
    }
}

/// The text of the address of an account on the given network.
pub fn account_to_p2wpkh_address(
    network: Network,
    ecdsa_public_key: &ECDSAPublicKey,
    account: &Account,
) -> (text: Option<String>)
    requires
        account.owner.wf(),
    ensures
        match text {
            Some(t) => {
                let derived = derived_key_of(
                    (ecdsa_public_key.public_key@, ecdsa_public_key.chain_code@),
                    account.path(),
                );
                derived is Some && t@ == segwit_address_of(
                    hrp_of(network),
                    WITNESS_VERSION,
                    hash160_of((derived->0).0),
                )
            },
            None => derived_key_of(
                (ecdsa_public_key.public_key@, ecdsa_public_key.chain_code@),
                account.path(),
            ) is None,
        },
{
    match account_to_bitcoin_address(ecdsa_public_key, account) {
        Some(address) => Some(address.display(network)),
        None => None,
    }
}

} // verus!
