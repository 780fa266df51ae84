use hdwallet_core::descriptor::{Descriptor, InputError};
use hdwallet_core::keys::{
    derive_address, derive_from_seed, derive_pub, descriptors_from_seed, generate_mnemonic,
    get_descriptors, seed_from_mnemonic, wallet_descriptor_for_seed, DerivationError, Network,
};
use hdwallet_core::path::{parse_path, ChildStep};

const ABANDON: &str = "abandon abandon abandon abandon abandon abandon abandon abandon abandon abandon abandon about";

fn abandon_seed() -> Vec<u8> {
    seed_from_mnemonic(ABANDON, "").unwrap()
}

#[test]
fn seed_is_sixty_four_bytes_and_checked() {
    assert_eq!(abandon_seed().len(), 64);
    assert_eq!(seed_from_mnemonic("abandon abandon", ""), Err(InputError::InvalidMnemonic));
    let other = seed_from_mnemonic(ABANDON, "TREZOR").unwrap();
    assert_ne!(other, abandon_seed());
}

#[test]
fn derivation_is_deterministic() {
    let seed = abandon_seed();
    let p = parse_path("m/84'/1'/0'/0").unwrap();
    let a = derive_from_seed(&seed, Network::Testnet, &p).unwrap();
    let b = derive_from_seed(&seed, Network::Testnet, &p).unwrap();
    assert_eq!(a, b);
    assert!(a.starts_with("tprv"));
    let q = parse_path("m/84'/1'/0'/1").unwrap();
    assert_ne!(derive_from_seed(&seed, Network::Testnet, &q).unwrap(), a);
}

#[test]
fn golden_vector_abandon_seed() {
    let seed = abandon_seed();
    let d = wallet_descriptor_for_seed(&seed, Network::Testnet, 0).unwrap();
    assert_eq!(d.origin.fingerprint, [0x73, 0xc5, 0xda, 0x0a]);
    let (addr, path) = derive_address(&d, 0, Network::Testnet).unwrap();
    assert_eq!(addr, "tb1q6rz28mcfaxtmd6v789l9rrlrusdprr9pqcpvkl");
    assert_eq!(path, parse_path("m/84'/1'/0'/0/0").unwrap());
    let main = wallet_descriptor_for_seed(&seed, Network::Bitcoin, 0).unwrap();
    let mut d0 = main.clone();
    d0.origin.path = parse_path("m/84'/0'/0'/0").unwrap();
    d0.key = derive_from_seed(&seed, Network::Bitcoin, &d0.origin.path).unwrap();
    let (addr, _) = derive_address(&d0, 0, Network::Bitcoin).unwrap();
    assert_eq!(addr, "bc1qcr8te4kr609gcawutmrza0j4xv80jy8z306fyu");
}

#[test]
fn parsed_descriptor_address_matches_direct_derivation() {
    let seed = abandon_seed();
    let d = wallet_descriptor_for_seed(&seed, Network::Testnet, 0).unwrap();
    let parsed = Descriptor::parse(&d.to_string()).unwrap();
    let (via_descriptor, path) = derive_address(&parsed, 5, Network::Testnet).unwrap();
    assert_eq!(path, parse_path("m/84'/1'/0'/0/5").unwrap());
    let mut direct = parsed.clone();
    direct.key = derive_from_seed(&seed, Network::Testnet, &path).unwrap();
    direct.wildcard = false;
    let (direct_addr, _) = derive_address(&direct, 0, Network::Testnet).unwrap();
    assert_eq!(via_descriptor, direct_addr);
    let (other, _) = derive_address(&parsed, 6, Network::Testnet).unwrap();
    assert_ne!(other, via_descriptor);
}

#[test]
fn public_derivation_refuses_hardened_steps() {
    let p = vec![ChildStep { index: 0, hardened: true }];
    assert_eq!(derive_pub("tpubAnything", &p), Err(DerivationError::HardenedDerivationRequiresPrivateKey));
    let q = vec![ChildStep { index: 0, hardened: false }];
    assert_eq!(derive_pub("not a key", &q), Err(DerivationError::InvalidKey));
}

#[test]
fn wallet_descriptors_from_seed() {
    let seed = abandon_seed();
    let (receive, change) = descriptors_from_seed(&seed, Network::Regtest).unwrap();
    assert!(receive.starts_with("wpkh([73c5da0a/84'/1'/0'/0]tprv"));
    assert!(change.starts_with("wpkh([73c5da0a/84'/1'/0'/1]tprv"));
    assert!(receive.ends_with("/*)"));
    assert!(!receive.contains('#'));
    assert!(Descriptor::parse(&receive).is_ok());
}

#[test]
fn indices_beyond_range_overflow() {
    let seed = abandon_seed();
    let p = vec![ChildStep { index: 0x8000_0000, hardened: false }];
    assert_eq!(derive_from_seed(&seed, Network::Testnet, &p), Err(DerivationError::DerivationOverflow));
    assert_eq!(derive_pub("tpubAnything", &p), Err(DerivationError::DerivationOverflow));
    let d = wallet_descriptor_for_seed(&seed, Network::Testnet, 0).unwrap();
    assert!(matches!(derive_address(&d, 0x8000_0000, Network::Testnet), Err(DerivationError::DerivationOverflow)));
    assert!(matches!(
        wallet_descriptor_for_seed(&seed, Network::Testnet, 0x8000_0000),
        Err(DerivationError::DerivationOverflow)
    ));
}

#[test]
fn fresh_descriptors_differ() {
    let (a, b) = get_descriptors().unwrap();
    let (c, _) = get_descriptors().unwrap();
    assert_ne!(a, b);
    assert_ne!(a, c);
    assert!(a.starts_with("wpkh(["));
    assert!(a.contains("/84'/1'/0'/0]tprv"));
    assert!(b.contains("/84'/1'/0'/1]tprv"));
    assert!(a.ends_with("/*)") && b.ends_with("/*)"));
    assert!(Descriptor::parse(&a).is_ok());
}

#[test]
fn mnemonic_word_counts() {
    assert_eq!(generate_mnemonic(13), Err(InputError::UnsupportedWordCount));
    let m = generate_mnemonic(12).unwrap();
    assert_eq!(m.split(' ').count(), 12);
    assert!(seed_from_mnemonic(&m, "").is_ok());
    assert_eq!(generate_mnemonic(24).unwrap().split(' ').count(), 24);
}
