use indexmap::IndexMap;
use sha2::Digest;
use windows_sdk::fetch::{
    cache_file_name, digest_matches, fetch_step, manifest_payload, total_payload_size, FetchAction, FetchError,
    FetchEvent,
};
use windows_sdk::model::{Channel, ChannelItem, ChannelItemType, Package, PackageType, Payload};

fn sha(data: &[u8]) -> [u8; 32] {
    sha2::Sha256::digest(data).into()
}

fn payload(name: &str, digest: [u8; 32], size: u64) -> Payload {
    Payload {
        file_name: name.to_string(),
        sha256: digest,
        size,
        url: url::Url::parse("https://example.com/payload").unwrap(),
    }
}

fn package(payloads: Vec<Payload>) -> Package {
    Package {
        id: "P".to_string(),
        version: "1".to_string(),
        ty: PackageType::Msi,
        dependencies: IndexMap::new(),
        payloads,
    }
}

#[test]
fn cache_name_is_lowercase_hex_of_digest() {
    let p = payload("a.msi", sha(b"abc"), 3);
    assert_eq!(cache_file_name(&p), "ba7816bf8f01cfea414140de5dae2223b00361a396177a9cb410ff61f20015ad");
    let mut d = [0u8; 32];
    d[0] = 0x0f;
    d[31] = 0xa0;
    let q = payload("b.msi", d, 0);
    let expected = format!("0f{}a0", "00".repeat(30));
    assert_eq!(cache_file_name(&q), expected);
}

#[test]
fn digest_comparison() {
    let d = sha(b"abc");
    assert!(digest_matches(&d, b"abc"));
    assert!(!digest_matches(&d, b"abd"));
    assert!(!digest_matches(&d, b""));
    assert!(digest_matches(&sha(b""), b""));
}

#[test]
fn lookup_decides_between_cache_and_network() {
    let p = payload("a.msi", sha(b"x"), 1);
    assert!(matches!(fetch_step(&p, FetchEvent::CacheLookup { present: true }), FetchAction::ReadCache));
    assert!(matches!(fetch_step(&p, FetchEvent::CacheLookup { present: false }), FetchAction::Download));
}

#[test]
fn corrupted_cache_is_fatal() {
    let p = payload("a.msi", sha(b"good"), 4);
    match fetch_step(&p, FetchEvent::CacheRead(b"evil".to_vec())) {
        FetchAction::Fail(e) => assert_eq!(e, FetchError::CorruptCache),
        other => panic!("unexpected {:?}", other),
    }
    assert!(matches!(fetch_step(&p, FetchEvent::CacheRead(b"good".to_vec())), FetchAction::Done));
}

#[test]
fn mismatched_download_is_not_stored() {
    let p = payload("a.msi", sha(b"good"), 4);
    match fetch_step(&p, FetchEvent::DownloadFinished(b"bad!".to_vec())) {
        FetchAction::Fail(e) => assert_eq!(e, FetchError::DigestMismatch),
        other => panic!("unexpected {:?}", other),
    }
}

#[test]
fn transport_failure_is_fatal() {
    let p = payload("a.msi", sha(b"good"), 4);
    match fetch_step(&p, FetchEvent::DownloadFailed) {
        FetchAction::Fail(e) => assert_eq!(e, FetchError::Transport),
        other => panic!("unexpected {:?}", other),
    }
    assert!(matches!(fetch_step(&p, FetchEvent::StoreFinished), FetchAction::Done));
}

#[test]
fn fetch_then_reuse_without_network() {
    let body: Vec<u8> = (0..1024u32).map(|i| (i % 251) as u8).collect();
    let p = payload("big.cab", sha(&body), 1024);
    // First fetch: nothing cached, download, store.
    assert!(matches!(fetch_step(&p, FetchEvent::CacheLookup { present: false }), FetchAction::Download));
    let stored = match fetch_step(&p, FetchEvent::DownloadFinished(body.clone())) {
        FetchAction::Store(bytes) => bytes,
        other => panic!("unexpected {:?}", other),
    };
    assert_eq!(stored, body);
    assert!(matches!(fetch_step(&p, FetchEvent::StoreFinished), FetchAction::Done));
    // Second fetch: the file is there, it is read and accepted; no download.
    assert!(matches!(fetch_step(&p, FetchEvent::CacheLookup { present: true }), FetchAction::ReadCache));
    assert!(matches!(fetch_step(&p, FetchEvent::CacheRead(stored)), FetchAction::Done));
}

#[test]
fn total_size_sums_all_payloads() {
    let pkgs = vec![
        package(vec![payload("a", sha(b"a"), 10), payload("b", sha(b"b"), 20)]),
        package(Vec::new()),
        package(vec![payload("c", sha(b"c"), 5)]),
    ];
    assert_eq!(total_payload_size(&pkgs), Some(35));
    assert_eq!(total_payload_size(&Vec::new()), Some(0));
}

#[test]
fn total_size_overflow_is_reported() {
    let pkgs = vec![package(vec![payload("a", sha(b"a"), u64::MAX)]), package(vec![payload("b", sha(b"b"), 1)])];
    assert_eq!(total_payload_size(&pkgs), None);
    let fits = vec![package(vec![payload("a", sha(b"a"), u64::MAX - 1), payload("b", sha(b"b"), 1)])];
    assert_eq!(total_payload_size(&fits), Some(u64::MAX));
}

fn item(ty: ChannelItemType, payloads: Option<Vec<Payload>>) -> ChannelItem {
    ChannelItem { id: "item".to_string(), version: "1".to_string(), ty, payloads }
}

#[test]
fn manifest_payload_is_first_of_manifest_item() {
    let channel = Channel {
        channel_items: vec![
            item(ChannelItemType::Other, Some(vec![payload("other.json", sha(b"o"), 1)])),
            item(ChannelItemType::Manifest, Some(vec![payload("m.json", sha(b"m"), 2), payload("n.json", sha(b"n"), 3)])),
            item(ChannelItemType::Manifest, Some(vec![payload("late.json", sha(b"l"), 4)])),
        ],
    };
    let p = manifest_payload(&channel).unwrap();
    assert_eq!(p.file_name, "m.json");
}

#[test]
fn manifest_payload_missing() {
    let none = Channel { channel_items: vec![item(ChannelItemType::Other, None)] };
    assert!(manifest_payload(&none).is_none());
    let empty = Channel { channel_items: vec![item(ChannelItemType::Manifest, Some(Vec::new()))] };
    assert!(manifest_payload(&empty).is_none());
    let absent = Channel {
        channel_items: vec![
            item(ChannelItemType::Manifest, None),
            item(ChannelItemType::Manifest, Some(vec![payload("m.json", sha(b"m"), 2)])),
        ],
    };
    assert!(manifest_payload(&absent).is_none());
}
