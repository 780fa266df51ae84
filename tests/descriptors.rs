use hdwallet_core::descriptor::{Descriptor, InputError, KeyOrigin, ScriptKind};
use hdwallet_core::path::{parse_path, path_to_string, ChildStep};

fn h(i: u32) -> ChildStep {
    ChildStep { index: i, hardened: true }
}

fn n(i: u32) -> ChildStep {
    ChildStep { index: i, hardened: false }
}

fn sample() -> Descriptor {
    Descriptor {
        kind: ScriptKind::Wpkh,
        origin: KeyOrigin { fingerprint: [0x73, 0xc5, 0xda, 0x0a], path: vec![h(84), h(1), h(0)] },
        key: "tpubDC8msFGeGuwnKG9Upg7DM2b4DaRqg3CUZa5g8v2SRQ6K4NSkxUgd7HsL2XVWbVm39yBA4LAxysQAm397zwQSQoQgewGiYZqrA9DsP4zbQ1M".to_string(),
        tail: vec![n(0)],
        wildcard: true,
    }
}

#[test]
fn path_text_round_trip() {
    let p = vec![h(84), h(1), h(0), n(0)];
    assert_eq!(path_to_string(&p), "/84'/1'/0'/0");
    assert_eq!(parse_path("m/84'/1'/0'/0"), Ok(p.clone()));
    assert_eq!(parse_path("m/84h/1h/0h/0"), Ok(p));
    assert_eq!(parse_path("m"), Ok(vec![]));
}

#[test]
fn path_rejects_bad_text() {
    assert_eq!(parse_path("/84'/1'"), Err(InputError::InvalidPath));
    assert_eq!(parse_path("m/2147483648"), Err(InputError::InvalidPath));
    assert_eq!(parse_path("m//1"), Err(InputError::InvalidPath));
    assert_eq!(parse_path("m/1/"), Err(InputError::InvalidPath));
    assert_eq!(parse_path("m/x"), Err(InputError::InvalidPath));
    assert_eq!(parse_path("m/2147483647'"), Ok(vec![h(2147483647)]));
}

#[test]
fn descriptor_text_has_origin_and_no_checksum() {
    let d = sample();
    let body = "wpkh([73c5da0a/84'/1'/0']tpubDC8msFGeGuwnKG9Upg7DM2b4DaRqg3CUZa5g8v2SRQ6K4NSkxUgd7HsL2XVWbVm39yBA4LAxysQAm397zwQSQoQgewGiYZqrA9DsP4zbQ1M/0/*)";
    assert_eq!(d.to_string(), body);
    let t = d.to_checksummed_string();
    let (b, sum) = t.split_once('#').unwrap();
    assert_eq!(b, body);
    assert_eq!(sum.len(), 8);
}

#[test]
fn descriptor_parse_round_trip() {
    let d = sample();
    let p = Descriptor::parse(&d.to_string()).unwrap();
    assert_eq!(p.kind, d.kind);
    assert_eq!(p.origin.fingerprint, d.origin.fingerprint);
    assert_eq!(p.origin.path, d.origin.path);
    assert_eq!(p.key, d.key);
    assert_eq!(p.tail, d.tail);
    assert_eq!(p.wildcard, d.wildcard);
    assert_eq!(p.to_string(), d.to_string());
    let q = Descriptor::parse(&d.to_checksummed_string()).unwrap();
    assert_eq!(q.to_string(), d.to_string());
    assert_eq!(q.origin.path, d.origin.path);
    assert_eq!(q.key, d.key);
}

#[test]
fn descriptor_parse_without_checksum() {
    let t = "pkh([00ff10ab/44'/0'/0']xpubKEY1/1/2)";
    let p = Descriptor::parse(t).unwrap();
    assert_eq!(p.kind, ScriptKind::Pkh);
    assert_eq!(p.origin.fingerprint, [0x00, 0xff, 0x10, 0xab]);
    assert_eq!(p.origin.path, vec![h(44), h(0), h(0)]);
    assert_eq!(p.key, "xpubKEY1");
    assert_eq!(p.tail, vec![n(1), n(2)]);
    assert!(!p.wildcard);
}

#[test]
fn descriptor_rejects_bad_checksum() {
    let t = sample().to_checksummed_string();
    let (body, sum) = t.split_once('#').unwrap();
    let mut wrong: Vec<char> = sum.chars().collect();
    wrong[0] = if wrong[0] == 'q' { 'p' } else { 'q' };
    let bad = format!("{}#{}", body, wrong.into_iter().collect::<String>());
    assert!(matches!(Descriptor::parse(&bad), Err(InputError::MalformedDescriptor)));
}

#[test]
fn descriptor_rejects_bad_grammar() {
    for t in [
        "",
        "wpkh()",
        "wpkh([73c5da0a]key",
        "wpkh([73C5DA0A]key)",
        "wpkh([73c5da0]key)",
        "sh([73c5da0a]key)",
        "wpkh([73c5da0a/84h]key)",
        "wpkh([73c5da0a]key/1'/*)",
        "wpkh([73c5da0a]ke-y)",
        "wpkh([73c5da0a]/0)",
    ] {
        assert!(matches!(Descriptor::parse(t), Err(InputError::MalformedDescriptor)), "{}", t);
    }
}
