//! Key derivation: seeds from mnemonics, master keys from seeds, and
//! extended keys along derivation paths (BIP32), carried as their base58
//! text. The arithmetic of each step is bdk's; the walk along a path, the
//! choice between private and public derivation, and the way a descriptor
//! becomes an address are this library's own.
use vstd::prelude::*;
use crate::path::{ChildStep, steps_wf, HARDENED_LIMIT};
use crate::descriptor::{Descriptor, DescriptorView, ScriptKind, KeyOrigin, InputError, descriptor_wf, body_text, is_key_char};
use bdk::bitcoin::util::bip32::{ChildNumber, ExtendedPrivKey, ExtendedPubKey};
use bdk::keys::bip39::{Language, Mnemonic, MnemonicType, Seed};
use std::str::FromStr;

verus! {

/// The chain a key or address belongs to.
#[derive(Clone, Copy, Debug, PartialEq, Eq, Structural)]
pub enum Network {
    Bitcoin,
    Testnet,
    Signet,
    Regtest,
}

/// Why a derivation could not be made.
#[derive(Clone, Copy, Debug, PartialEq, Eq, Structural)]
pub enum DerivationError {
    /// A hardened step was asked of a public key.
    HardenedDerivationRequiresPrivateKey,
    /// The key text was not a valid extended key of the kind needed, or the
    /// derivation gave no valid key.
    InvalidKey,
    /// A child index beyond the 31-bit unhardened range.
    DerivationOverflow,
}

pub open spec fn opt_view(o: Option<String>) -> Option<Seq<char>> {
    match o {
        Some(s) => Some(s@),
        None => None,
    }
}

pub open spec fn is_key_text(s: Seq<char>) -> bool {
    s.len() > 0 && forall|i: int| 0 <= i < s.len() ==> is_key_char(#[trigger] s[i])
}

/// The BIP39 seed of a phrase and passphrase, when the phrase is valid.
pub uninterp spec fn bip39_seed(phrase: Seq<char>, passphrase: Seq<char>) -> Option<Seq<u8>>;

/// The master private key of a seed, as text.
pub uninterp spec fn master_key_text(seed: Seq<u8>, net: Network) -> Option<Seq<char>>;

/// The private child of a private key, as text.
pub uninterp spec fn child_key_text(xprv: Seq<char>, index: u32, hardened: bool) -> Option<Seq<char>>;

/// The public child of a public key at an unhardened index, as text.
pub uninterp spec fn child_pub_text(xpub: Seq<char>, index: u32) -> Option<Seq<char>>;

/// The depth of a private key in its tree, read from its text.
pub uninterp spec fn xprv_depth_of(xprv: Seq<char>) -> Option<u8>;

/// The depth of a public key in its tree, read from its text.
pub uninterp spec fn xpub_depth_of(xpub: Seq<char>) -> Option<u8>;

/// The public key of a private key, as text.
pub uninterp spec fn public_key_text(xprv: Seq<char>) -> Option<Seq<char>>;

/// The fingerprint of a private key (the first four bytes of the hash of its
/// public key).
pub uninterp spec fn key_fingerprint(xprv: Seq<char>) -> Option<Seq<u8>>;

/// The pay-to-witness-public-key-hash address of a public key.
pub uninterp spec fn p2wpkh_address(xpub: Seq<char>, net: Network) -> Option<Seq<char>>;

/// The pay-to-public-key-hash address of a public key.
pub uninterp spec fn p2pkh_address(xpub: Seq<char>, net: Network) -> Option<Seq<char>>;

/// Relies on tiny-bip39's `Mnemonic::from_phrase` and `Seed::new`: the seed
/// of a valid English phrase with a passphrase.
#[verifier::external_body]
fn mnemonic_seed(phrase: &str, passphrase: &str) -> (r: Option<Vec<u8>>)
    ensures
        bip39_seed(phrase@, passphrase@) == match r {
            Some(v) => Some(v@),
            None => None::<Seq<u8>>,
        },
{
    let m = Mnemonic::from_phrase(phrase, Language::English).ok()?;
    Some(Seed::new(&m, passphrase).as_bytes().to_vec())
}

/// The number of spaces in a text.
pub open spec fn space_count(s: Seq<char>) -> nat
    decreases s.len(),
{
    if s.len() == 0 {
        0
    } else {
        space_count(s.drop_last()) + if s.last() == ' ' { 1nat } else { 0 }
    }
}

/// Relies on tiny-bip39's `Mnemonic::new`: a fresh random English phrase of
/// the given number of words, joined by single spaces. It is built from
/// entropy and its own checksum, so `from_phrase` accepts it and it has a
/// seed with every passphrase.
#[verifier::external_body]
fn random_phrase(word_count: usize) -> (r: String)
    requires
        supported_word_count(word_count),
    ensures
        forall|pass: Seq<char>| #[trigger] bip39_seed(r@, pass) is Some,
        space_count(r@) + 1 == word_count,
{
    let t = MnemonicType::for_word_count(word_count).unwrap();
    Mnemonic::new(t, Language::English).phrase().to_string()
}

/// Relies on `ExtendedPrivKey::new_master`: the master key of a seed, in
/// base58 text (letters and digits).
#[verifier::external_body]
fn new_master(seed: &Vec<u8>, net: Network) -> (r: Option<String>)
    ensures
        opt_view(r) == master_key_text(seed@, net),
        r matches Some(k) ==> is_key_text(k@),
{
    let n = match net {
        Network::Bitcoin => bdk::bitcoin::Network::Bitcoin,
        Network::Testnet => bdk::bitcoin::Network::Testnet,
        Network::Signet => bdk::bitcoin::Network::Signet,
        Network::Regtest => bdk::bitcoin::Network::Regtest,
    };
    ExtendedPrivKey::new_master(n, seed).ok().map(|k| k.to_string())
}

/// Relies on `ExtendedPrivKey::ckd_priv`: the private child of a private
/// key, in base58 text (letters and digits).
/// A child's depth is one more than its parent's, a `u8`, so the parent's
/// depth must be below 255.
#[verifier::external_body]
fn ckd_priv(xprv: &str, step: ChildStep) -> (r: Option<String>)
    requires
        step.wf(),
        xprv_depth_of(xprv@) matches Some(d) && d < 255,
    ensures
        opt_view(r) == child_key_text(xprv@, step.index, step.hardened),
        r matches Some(k) ==> is_key_text(k@),
{
    let k = ExtendedPrivKey::from_str(xprv).ok()?;
    let i = if step.hardened {
        ChildNumber::from_hardened_idx(step.index).ok()?
    } else {
        ChildNumber::from_normal_idx(step.index).ok()?
    };
    let secp = bdk::bitcoin::secp256k1::Secp256k1::new();
    k.ckd_priv(&secp, i).ok().map(|c| c.to_string())
}

/// Relies on `ExtendedPubKey::ckd_pub`: the public child of a public key at
/// an unhardened index, in base58 text (letters and digits).
/// A child's depth is one more than its parent's, a `u8`, so the parent's
/// depth must be below 255.
#[verifier::external_body]
fn ckd_pub(xpub: &str, index: u32) -> (r: Option<String>)
    requires
        index < HARDENED_LIMIT,
        xpub_depth_of(xpub@) matches Some(d) && d < 255,
    ensures
        opt_view(r) == child_pub_text(xpub@, index),
        r matches Some(k) ==> is_key_text(k@),
{
    let k = ExtendedPubKey::from_str(xpub).ok()?;
    let i = ChildNumber::from_normal_idx(index).ok()?;
    let secp = bdk::bitcoin::secp256k1::Secp256k1::verification_only();
    k.ckd_pub(&secp, i).ok().map(|c| c.to_string())
}

/// Relies on `ExtendedPrivKey::from_str`: the `depth` field of the key
/// that the text decodes to.
#[verifier::external_body]
fn xprv_depth(xprv: &str) -> (r: Option<u8>)
    ensures
        r == xprv_depth_of(xprv@),
{
    ExtendedPrivKey::from_str(xprv).ok().map(|k| k.depth)
}

/// Relies on `ExtendedPubKey::from_str`: the `depth` field of the key that
/// the text decodes to.
#[verifier::external_body]
fn xpub_depth(xpub: &str) -> (r: Option<u8>)
    ensures
        r == xpub_depth_of(xpub@),
{
    ExtendedPubKey::from_str(xpub).ok().map(|k| k.depth)
}

/// Relies on `ExtendedPubKey::from_private`: the public key of a private
/// key, in base58 text (letters and digits).
#[verifier::external_body]
fn neuter(xprv: &str) -> (r: Option<String>)
    ensures
        opt_view(r) == public_key_text(xprv@),
        r matches Some(k) ==> is_key_text(k@),
{
    let k = ExtendedPrivKey::from_str(xprv).ok()?;
    let secp = bdk::bitcoin::secp256k1::Secp256k1::signing_only();
    Some(ExtendedPubKey::from_private(&secp, &k).to_string())
}

/// Relies on `ExtendedPrivKey::fingerprint`: four bytes naming the key.
#[verifier::external_body]
fn fingerprint(xprv: &str) -> (r: Option<[u8; 4]>)
    ensures
        key_fingerprint(xprv@) == match r {
            Some(f) => Some(f@),
            None => None::<Seq<u8>>,
        },
{
    let k = ExtendedPrivKey::from_str(xprv).ok()?;
    let secp = bdk::bitcoin::secp256k1::Secp256k1::signing_only();
    Some(k.fingerprint(&secp).to_bytes())
}

/// Relies on `Address::p2wpkh`: the native segwit address of a public key.
#[verifier::external_body]
fn address_p2wpkh(xpub: &str, net: Network) -> (r: Option<String>)
    ensures
        opt_view(r) == p2wpkh_address(xpub@, net),
{
    let n = match net {
        Network::Bitcoin => bdk::bitcoin::Network::Bitcoin,
        Network::Testnet => bdk::bitcoin::Network::Testnet,
        Network::Signet => bdk::bitcoin::Network::Signet,
        Network::Regtest => bdk::bitcoin::Network::Regtest,
    };
    let k = ExtendedPubKey::from_str(xpub).ok()?;
    bdk::bitcoin::Address::p2wpkh(&k.public_key, n).ok().map(|a| a.to_string())
}

/// Relies on `Address::p2pkh`: the legacy address of a public key.
#[verifier::external_body]
fn address_p2pkh(xpub: &str, net: Network) -> (r: Option<String>)
    ensures
        opt_view(r) == p2pkh_address(xpub@, net),
{
    let n = match net {
        Network::Bitcoin => bdk::bitcoin::Network::Bitcoin,
        Network::Testnet => bdk::bitcoin::Network::Testnet,
        Network::Signet => bdk::bitcoin::Network::Signet,
        Network::Regtest => bdk::bitcoin::Network::Regtest,
    };
    let k = ExtendedPubKey::from_str(xpub).ok()?;
    Some(bdk::bitcoin::Address::p2pkh(&k.public_key, n).to_string())
}

/// Whether a mnemonic of this many words can be made.
pub open spec fn supported_word_count(n: usize) -> bool {
    n == 12 || n == 15 || n == 18 || n == 21 || n == 24
}

/// A fresh random mnemonic phrase of `word_count` English words.
pub fn generate_mnemonic(word_count: usize) -> (r: Result<String, InputError>)
    ensures
        r is Err <==> !supported_word_count(word_count),
        r matches Err(e) ==> e == InputError::UnsupportedWordCount,
        r matches Ok(p) ==> space_count(p@) + 1 == word_count && forall|pass: Seq<char>|
            #[trigger] bip39_seed(p@, pass) is Some,
{
    if !(word_count == 12 || word_count == 15 || word_count == 18 || word_count == 21 || word_count
        == 24) {
        return Err(InputError::UnsupportedWordCount);
    }
    Ok(random_phrase(word_count))
}

/// The seed of a mnemonic phrase and passphrase.
pub fn seed_from_mnemonic(phrase: &str, passphrase: &str) -> (r: Result<Vec<u8>, InputError>)
    ensures
        match r {
            Ok(s) => bip39_seed(phrase@, passphrase@) == Some(s@),
            Err(e) => bip39_seed(phrase@, passphrase@) is None && e == InputError::InvalidMnemonic,
        },
{
    match mnemonic_seed(phrase, passphrase) {
        Some(s) => Ok(s),
        None => Err(InputError::InvalidMnemonic),
    }
}

/// One private derivation step; none from a key at the deepest depth.
pub open spec fn priv_step(k: Seq<char>, st: ChildStep) -> Option<Seq<char>> {
    if xprv_depth_of(k) matches Some(d) && d < 255 {
        child_key_text(k, st.index, st.hardened)
    } else {
        None
    }
}

/// One public derivation step; none from a key at the deepest depth.
pub open spec fn pub_step(k: Seq<char>, st: ChildStep) -> Option<Seq<char>> {
    if xpub_depth_of(k) matches Some(d) && d < 255 {
        child_pub_text(k, st.index)
    } else {
        None
    }
}

/// The key reached from `xprv` by private derivation along `p`.
pub open spec fn derive_text(xprv: Seq<char>, p: Seq<ChildStep>) -> Option<Seq<char>>
    decreases p.len(),
{
    if p.len() == 0 {
        Some(xprv)
    } else {
        match derive_text(xprv, p.drop_last()) {
            Some(k) => priv_step(k, p.last()),
            None => None,
        }
    }
}

/// The key reached from `xpub` by public derivation along `p` (unhardened).
pub open spec fn derive_pub_text(xpub: Seq<char>, p: Seq<ChildStep>) -> Option<Seq<char>>
    decreases p.len(),
{
    if p.len() == 0 {
        Some(xpub)
    } else {
        match derive_pub_text(xpub, p.drop_last()) {
            Some(k) => pub_step(k, p.last()),
            None => None,
        }
    }
}

/// The key at `p` below the master key of `seed`.
pub open spec fn derived_key(seed: Seq<u8>, net: Network, p: Seq<ChildStep>) -> Option<Seq<char>> {
    match master_key_text(seed, net) {
        Some(m) => derive_text(m, p),
        None => None,
    }
}

/// Whether every index of the path is in the 31-bit range.
pub fn steps_in_range(path: &Vec<ChildStep>) -> (r: bool)
    ensures
        r == steps_wf(path@),
{
    let mut i: usize = 0;
    while i < path.len()
        invariant
            i <= path@.len(),
            forall|j: int| 0 <= j < i ==> (#[trigger] path@[j]).wf(),
        decreases path@.len() - i,
    {
        if path[i].index >= HARDENED_LIMIT {
            return false;
        }
        i += 1;
    }
    true
}

/// Derives the private key at `path` below `xprv`, one step at a time.
/// An index beyond the 31-bit range fails with `DerivationOverflow`.
pub fn derive_priv(xprv: &str, path: &Vec<ChildStep>) -> (r: Result<String, DerivationError>)
    ensures
        !steps_wf(path@) ==> r == Err::<String, DerivationError>(DerivationError::DerivationOverflow),
        steps_wf(path@) ==> match r {
            Ok(k) => derive_text(xprv@, path@) == Some(k@),
            Err(e) => derive_text(xprv@, path@) is None && e == DerivationError::InvalidKey,
        },
        r matches Ok(k) ==> (is_key_text(xprv@) || path@.len() > 0) ==> is_key_text(k@),
{
    if !steps_in_range(path) {
        return Err(DerivationError::DerivationOverflow);
    }
    let mut cur = xprv.to_string();
    let mut i: usize = 0;
    while i < path.len()
        invariant
            i <= path@.len(),
            steps_wf(path@),
            derive_text(xprv@, path@.take(i as int)) == Some(cur@),
            (is_key_text(xprv@) || i > 0) ==> is_key_text(cur@),
        decreases path@.len() - i,
    {
        assert(path@.take(i + 1).drop_last() =~= path@.take(i as int));
        let st = path[i];
        assert(path@[i as int].wf());
        let deep = match xprv_depth(cur.as_str()) {
            Some(d) => d >= 255,
            None => true,
        };
        if deep {
            proof {
                lemma_derive_none_extends(xprv@, path@, i as int + 1);
            }
            return Err(DerivationError::InvalidKey);
        }
        match ckd_priv(cur.as_str(), st) {
            Some(k) => {
                cur = k;
            },
            None => {
                proof {
                    lemma_derive_none_extends(xprv@, path@, i as int + 1);
                }
                return Err(DerivationError::InvalidKey);
            },
        }
        i += 1;
    }
    assert(path@.take(i as int) =~= path@);
    Ok(cur)
}

proof fn lemma_derive_none_extends(x: Seq<char>, p: Seq<ChildStep>, k: int)
    requires
        0 <= k <= p.len(),
        derive_text(x, p.take(k)) is None,
    ensures
        derive_text(x, p) is None,
    decreases p.len() - k,
{
    if k < p.len() {
        assert(p.take(k + 1).drop_last() =~= p.take(k));
        lemma_derive_none_extends(x, p, k + 1);
    } else {
        assert(p.take(k) =~= p);
    }
}

proof fn lemma_derive_pub_none_extends(x: Seq<char>, p: Seq<ChildStep>, k: int)
    requires
        0 <= k <= p.len(),
        derive_pub_text(x, p.take(k)) is None,
    ensures
        derive_pub_text(x, p) is None,
    decreases p.len() - k,
{
    if k < p.len() {
        assert(p.take(k + 1).drop_last() =~= p.take(k));
        lemma_derive_pub_none_extends(x, p, k + 1);
    } else {
        assert(p.take(k) =~= p);
    }
}

/// Whether any step of `p` is hardened.
pub open spec fn has_hardened(p: Seq<ChildStep>) -> bool {
    exists|i: int| 0 <= i < p.len() && (#[trigger] p[i]).hardened
}

/// Derives the public key at `path` below `xpub`. A hardened step cannot be
/// taken from a public key. An index beyond the 31-bit range fails with
/// `DerivationOverflow`.
pub fn derive_pub(xpub: &str, path: &Vec<ChildStep>) -> (r: Result<String, DerivationError>)
    ensures
        !steps_wf(path@) ==> r == Err::<String, DerivationError>(DerivationError::DerivationOverflow),
        steps_wf(path@) ==> match r {
            Ok(k) => !has_hardened(path@) && derive_pub_text(xpub@, path@) == Some(k@),
            Err(e) => if has_hardened(path@) {
                e == DerivationError::HardenedDerivationRequiresPrivateKey
            } else {
                derive_pub_text(xpub@, path@) is None && e == DerivationError::InvalidKey
            },
        },
{
    if !steps_in_range(path) {
        return Err(DerivationError::DerivationOverflow);
    }
    let mut j: usize = 0;
    while j < path.len()
        invariant
            j <= path@.len(),
            steps_wf(path@),
            forall|k: int| 0 <= k < j ==> !(#[trigger] path@[k]).hardened,
        decreases path@.len() - j,
    {
        if path[j].hardened {
            return Err(DerivationError::HardenedDerivationRequiresPrivateKey);
        }
        j += 1;
    }
    let mut cur = xpub.to_string();
    let mut i: usize = 0;
    while i < path.len()
        invariant
            i <= path@.len(),
            steps_wf(path@),
            forall|k: int| 0 <= k < path@.len() ==> !(#[trigger] path@[k]).hardened,
            derive_pub_text(xpub@, path@.take(i as int)) == Some(cur@),
        decreases path@.len() - i,
    {
        assert(path@.take(i + 1).drop_last() =~= path@.take(i as int));
        assert(path@[i as int].wf());
        let deep = match xpub_depth(cur.as_str()) {
            Some(d) => d >= 255,
            None => true,
        };
        if deep {
            proof {
                lemma_derive_pub_none_extends(xpub@, path@, i as int + 1);
            }
            return Err(DerivationError::InvalidKey);
        }
        match ckd_pub(cur.as_str(), path[i].index) {
            Some(k) => {
                cur = k;
            },
            None => {
                proof {
                    lemma_derive_pub_none_extends(xpub@, path@, i as int + 1);
                }
                return Err(DerivationError::InvalidKey);
            },
        }
        i += 1;
    }
    assert(path@.take(i as int) =~= path@);
    Ok(cur)
}

/// Derives the private key at `path` below the master key of `seed`.
pub fn derive_from_seed(seed: &Vec<u8>, net: Network, path: &Vec<ChildStep>) -> (r: Result<
    String,
    DerivationError,
>)
    ensures
        !steps_wf(path@) ==> r == Err::<String, DerivationError>(DerivationError::DerivationOverflow),
        steps_wf(path@) ==> match r {
            Ok(k) => derived_key(seed@, net, path@) == Some(k@),
            Err(e) => derived_key(seed@, net, path@) is None && e == DerivationError::InvalidKey,
        },
{
    if !steps_in_range(path) {
        return Err(DerivationError::DerivationOverflow);
    }
    match new_master(seed, net) {
        Some(m) => derive_priv(m.as_str(), path),
        None => Err(DerivationError::InvalidKey),
    }
}

/// Derivation is a function of its inputs: two derivations from the same
/// seed, network and path give the same key, byte for byte.
pub proof fn lemma_derivation_deterministic(
    seed: Seq<u8>,
    net: Network,
    p: Seq<ChildStep>,
    k1: Seq<char>,
    k2: Seq<char>,
)
    requires
        derived_key(seed, net, p) == Some(k1),
        derived_key(seed, net, p) == Some(k2),
    ensures
        k1 == k2,
{
}

/// The path below a descriptor's key that leads to the address at `index`.
pub open spec fn address_path(v: DescriptorView, index: u32) -> Seq<ChildStep> {
    v.tail + if v.wildcard {
        seq![ChildStep { index, hardened: false }]
    } else {
        Seq::empty()
    }
}

/// The public form of a descriptor's key: the public key of a private key,
/// and a public key as it is.
pub open spec fn account_pub(key: Seq<char>) -> Seq<char> {
    match public_key_text(key) {
        Some(p) => p,
        None => key,
    }
}

/// The address that the template makes of a public key.
pub open spec fn template_address(kind: ScriptKind, xpub: Seq<char>, net: Network) -> Option<
    Seq<char>,
> {
    match kind {
        ScriptKind::Wpkh => p2wpkh_address(xpub, net),
        ScriptKind::Pkh => p2pkh_address(xpub, net),
    }
}

/// The address of a descriptor at `index`.
pub open spec fn descriptor_address(v: DescriptorView, index: u32, net: Network) -> Option<
    Seq<char>,
> {
    match derive_pub_text(account_pub(v.key), address_path(v, index)) {
        Some(k) => template_address(v.kind, k, net),
        None => None,
    }
}

fn template_address_of(kind: ScriptKind, xpub: &str, net: Network) -> (r: Option<String>)
    ensures
        opt_view(r) == template_address(kind, xpub@, net),
{
    match kind {
        ScriptKind::Wpkh => address_p2wpkh(xpub, net),
        ScriptKind::Pkh => address_p2pkh(xpub, net),
    }
}

/// The address of a descriptor at `index` (standing for `*`), and the full
/// path from the master key to the key behind it.
pub fn derive_address(d: &Descriptor, index: u32, net: Network) -> (r: Result<
    (String, Vec<ChildStep>),
    DerivationError,
>)
    requires
        descriptor_wf(d@),
    ensures
        index >= HARDENED_LIMIT ==> r == Err::<(String, Vec<ChildStep>), DerivationError>(
            DerivationError::DerivationOverflow,
        ),
        index < HARDENED_LIMIT ==> match r {
            Ok((a, p)) => descriptor_address(d@, index, net) == Some(a@) && p@ == d@.origin
                + address_path(d@, index),
            Err(e) => descriptor_address(d@, index, net) is None && e == DerivationError::InvalidKey,
        },
{
    if index >= HARDENED_LIMIT {
        return Err(DerivationError::DerivationOverflow);
    }
    let mut below = d.tail.clone();
    assert(below@ == d.tail@);
    if d.wildcard {
        below.push(ChildStep { index, hardened: false });
    }
    assert(below@ =~= address_path(d@, index));
    let account = match neuter(d.key.as_str()) {
        Some(p) => p,
        None => d.key.clone(),
    };
    assert(account@ == account_pub(d@.key));
    assert(!has_hardened(below@));
    let key = match derive_pub(account.as_str(), &below) {
        Ok(k) => k,
        Err(_) => {
            return Err(DerivationError::InvalidKey);
        },
    };
    let addr = match template_address_of(d.kind, key.as_str(), net) {
        Some(a) => a,
        None => {
            return Err(DerivationError::InvalidKey);
        },
    };
    let mut full = d.origin.path.clone();
    assert(full@ == d.origin.path@);
    let mut i: usize = 0;
    while i < below.len()
        invariant
            i <= below@.len(),
            full@ == d.origin.path@ + below@.take(i as int),
        decreases below@.len() - i,
    {
        full.push(below[i]);
        i += 1;
        assert(full@ =~= d.origin.path@ + below@.take(i as int));
    }
    assert(below@.take(i as int) =~= below@);
    Ok((addr, full))
}

/// The path of a wallet's receive (`change` 0) or change (`change` 1) keys:
/// `m/84'/1'/0'/change`.
pub open spec fn account_path(change: u32) -> Seq<ChildStep> {
    seq![
        ChildStep { index: 84, hardened: true },
        ChildStep { index: 1, hardened: true },
        ChildStep { index: 0, hardened: true },
        ChildStep { index: change, hardened: false },
    ]
}

/// The descriptor of a wallet's receive or change keys for `seed`: the
/// private key at the account path, with the master fingerprint and that
/// path as its origin, and a `*` for the address index.
pub open spec fn wallet_descriptor(seed: Seq<u8>, net: Network, change: u32) -> Option<DescriptorView> {
    match master_key_text(seed, net) {
        Some(m) => match (key_fingerprint(m), derive_text(m, account_path(change))) {
            (Some(fp), Some(k)) => Some(
                DescriptorView {
                    kind: ScriptKind::Wpkh,
                    fingerprint: fp,
                    origin: account_path(change),
                    key: k,
                    tail: Seq::empty(),
                    wildcard: true,
                },
            ),
            _ => None,
        },
        None => None,
    }
}

/// Builds the descriptor of a wallet's receive or change keys for `seed`.
pub fn wallet_descriptor_for_seed(seed: &Vec<u8>, net: Network, change: u32) -> (r: Result<
    Descriptor,
    DerivationError,
>)
    ensures
        change >= HARDENED_LIMIT ==> (r matches Err(e) && e == DerivationError::DerivationOverflow),
        change < HARDENED_LIMIT ==> match r {
            Ok(d) => wallet_descriptor(seed@, net, change) == Some(d@) && descriptor_wf(d@),
            Err(e) => wallet_descriptor(seed@, net, change) is None && e
                == DerivationError::InvalidKey,
        },
{
    if change >= HARDENED_LIMIT {
        return Err(DerivationError::DerivationOverflow);
    }
    let m = match new_master(seed, net) {
        Some(m) => m,
        None => {
            return Err(DerivationError::InvalidKey);
        },
    };
    let fp = match fingerprint(m.as_str()) {
        Some(f) => f,
        None => {
            return Err(DerivationError::InvalidKey);
        },
    };
    let path = vec![
        ChildStep { index: 84, hardened: true },
        ChildStep { index: 1, hardened: true },
        ChildStep { index: 0, hardened: true },
        ChildStep { index: change, hardened: false },
    ];
    assert(path@ =~= account_path(change));
    let key = match derive_priv(m.as_str(), &path) {
        Ok(k) => k,
        Err(e) => {
            return Err(e);
        },
    };
    let d = Descriptor {
        kind: ScriptKind::Wpkh,
        origin: KeyOrigin { fingerprint: fp, path },
        key,
        tail: Vec::new(),
        wildcard: true,
    };
    assert(d@.tail =~= Seq::<ChildStep>::empty());
    Ok(d)
}

/// The texts of the receive and change descriptors for `seed`.
pub open spec fn wallet_descriptor_texts(seed: Seq<u8>, net: Network) -> Option<
    (Seq<char>, Seq<char>),
> {
    match (wallet_descriptor(seed, net, 0), wallet_descriptor(seed, net, 1)) {
        (Some(v), Some(w)) => Some((body_text(v), body_text(w))),
        _ => None,
    }
}

/// The texts of a wallet's receive and change descriptors for `seed`.
pub fn descriptors_from_seed(seed: &Vec<u8>, net: Network) -> (r: Result<
    (String, String),
    DerivationError,
>)
    ensures
        match r {
            Ok((a, b)) => wallet_descriptor_texts(seed@, net) == Some((a@, b@)),
            Err(e) => wallet_descriptor_texts(seed@, net) is None && e == DerivationError::InvalidKey,
        },
{
    let receive = wallet_descriptor_for_seed(seed, net, 0)?;
    let change = wallet_descriptor_for_seed(seed, net, 1)?;
    Ok((receive.to_string(), change.to_string()))
}

/// The passphrase that protects the mnemonic of fresh descriptors.
pub open spec fn fresh_passphrase() -> Seq<char> {
    seq!['r', 'a', 'n', 'd', 'o', 'm', ' ', 'p', 'a', 's', 's', 'w', 'o', 'r', 'd']
}

/// Fresh receive and change descriptors for a regtest wallet, from a new
/// random twelve-word mnemonic protected by the passphrase
/// `random password`.
pub fn get_descriptors() -> (r: Result<(String, String), DerivationError>)
    ensures
        exists|phrase: Seq<char>, seed: Seq<u8>|
            #![trigger bip39_seed(phrase, fresh_passphrase()), wallet_descriptor_texts(seed, Network::Regtest)]
            space_count(phrase) == 11 && bip39_seed(phrase, fresh_passphrase()) == Some(
                seed,
            ) && match r {
                Ok((a, b)) => wallet_descriptor_texts(seed, Network::Regtest) == Some((a@, b@)),
                Err(e) => wallet_descriptor_texts(seed, Network::Regtest) is None && e
                    == DerivationError::InvalidKey,
            },
{
    let phrase = random_phrase(12);
    let pass = "random password";
    proof {
        reveal_strlit("random password");
        assert(pass@ =~= fresh_passphrase());
        assert(bip39_seed(phrase@, pass@) is Some);
    }
    let seed = match mnemonic_seed(phrase.as_str(), pass) {
        Some(s) => s,
        None => {
            return Err(DerivationError::InvalidKey);
        },
    };
    let r = descriptors_from_seed(&seed, Network::Regtest);
    proof {
        assert(bip39_seed(phrase@, fresh_passphrase()) == Some(seed@));
        assert(wallet_descriptor_texts(seed@, Network::Regtest) == wallet_descriptor_texts(seed@, Network::Regtest));
    }
    r
}

} // verus!
