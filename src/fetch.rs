//! The fetch cache: where a payload is kept, how its bytes are checked
//! against the declared digest, and what to do at each step of fetching it.
//!
//! A payload is kept under the lower-case hexadecimal form of its declared
//! SHA-256 digest. Bytes are trusted only once their digest equals the
//! declared one: bytes read from the cache that do not match are a corrupt
//! cache, and downloaded bytes that do not match are never stored.
use vstd::prelude::*;
use digest::Digest;
use crate::model::{Channel, ChannelItem, ChannelItemType, Package, Payload};

verus! {

/// The SHA-256 digest of a byte sequence.
pub uninterp spec fn sha256_of(data: Seq<u8>) -> Seq<u8>;

/// Relies on sha2::Sha256 through digest::Digest::digest: the SHA-256 digest
/// of the bytes, which depends on the bytes alone.
#[verifier::external_body]
fn sha256_digest(data: &[u8]) -> (r: Vec<u8>)
    ensures
        r@ == sha256_of(data@),
{
    sha2::Sha256::digest(data).to_vec()
}

/// The lower-case hexadecimal digit of a value below 16.
pub open spec fn hex_digit(v: int) -> char {
    if v < 10 {
        ((48 + v) as u32) as char
    } else {
        ((87 + v) as u32) as char
    }
}

/// Two lower-case hexadecimal digits per byte, the high half first.
pub open spec fn hex_lower(b: Seq<u8>) -> Seq<char> {
    Seq::new(
        2 * b.len(),
        |i: int|
            if i % 2 == 0 {
                hex_digit(b[i / 2] as int / 16)
            } else {
                hex_digit(b[i / 2] as int % 16)
            },
    )
}

/// Relies on hex::encode: two lower-case hexadecimal digits per byte, the
/// high half first.
#[verifier::external_body]
fn hex_encode(b: &[u8]) -> (r: String)
    ensures
        r@ == hex_lower(b@),
{
    hex::encode(b)
}

/// The name a payload is kept under in the cache: its declared digest in
/// lower-case hexadecimal.
pub fn cache_file_name(payload: &Payload) -> (r: String)
    ensures
        r@ == hex_lower(payload.sha256@),
{
    hex_encode(payload.sha256.as_slice())
}

/// The bytes' digest is the declared one.
pub fn digest_matches(declared: &[u8; 32], data: &[u8]) -> (r: bool)
    ensures
        r == (sha256_of(data@) == declared@),
{
    let d = sha256_digest(data);
    if d.len() != 32 {
        return false;
    }
    let mut k: usize = 0;
    while k < 32
        invariant
            k <= 32,
            d@.len() == 32,
            declared@.len() == 32,
            d@ == sha256_of(data@),
            forall|j: int| 0 <= j < k ==> d@[j] == declared@[j],
        decreases 32 - k,
    {
        if d[k] != declared[k] {
            return false;
        }
        k += 1;
    }
    assert(d@ =~= declared@);
    true
}

/// Why fetching a payload failed.
#[derive(Clone, Copy, Debug, PartialEq, Eq, Structural)]
pub enum FetchError {
    /// The payload could not be downloaded.
    Transport,
    /// The cached file's digest is not the declared one.
    CorruptCache,
    /// The downloaded bytes' digest is not the declared one.
    DigestMismatch,
}

/// What happened at the last step of fetching one payload.
#[derive(Debug)]
pub enum FetchEvent {
    /// The cache was looked at; `present` tells whether the file is there.
    CacheLookup { present: bool },
    /// The cached file was read whole.
    CacheRead(Vec<u8>),
    /// The payload was downloaded whole.
    DownloadFinished(Vec<u8>),
    /// The download failed.
    DownloadFailed,
    /// The bytes handed to `Store` were written to the cache.
    StoreFinished,
}

/// What to do next to fetch one payload.
#[derive(Debug)]
pub enum FetchAction {
    /// Read the cached file.
    ReadCache,
    /// Download the payload from its URL.
    Download,
    /// Write these verified bytes to the cache.
    Store(Vec<u8>),
    /// The cached file holds the payload.
    Done,
    /// Stop fetching.
    Fail(FetchError),
}

/// The step from each event of fetching a payload with the declared digest.
pub open spec fn next_fetch_action(declared: Seq<u8>, event: FetchEvent) -> FetchAction {
    match event {
        FetchEvent::CacheLookup { present } => if present {
            FetchAction::ReadCache
        } else {
            FetchAction::Download
        },
        FetchEvent::CacheRead(bytes) => if sha256_of(bytes@) == declared {
            FetchAction::Done
        } else {
            FetchAction::Fail(FetchError::CorruptCache)
        },
        FetchEvent::DownloadFinished(bytes) => if sha256_of(bytes@) == declared {
            FetchAction::Store(bytes)
        } else {
            FetchAction::Fail(FetchError::DigestMismatch)
        },
        FetchEvent::DownloadFailed => FetchAction::Fail(FetchError::Transport),
        FetchEvent::StoreFinished => FetchAction::Done,
    }
}

/// Decides the next step of fetching `payload` from what just happened.
pub fn fetch_step(payload: &Payload, event: FetchEvent) -> (r: FetchAction)
    ensures
        r == next_fetch_action(payload.sha256@, event),
{
    match event {
        FetchEvent::CacheLookup { present } => if present {
            FetchAction::ReadCache
        } else {
            FetchAction::Download
        },
        FetchEvent::CacheRead(bytes) => if digest_matches(&payload.sha256, bytes.as_slice()) {
            FetchAction::Done
        } else {
            FetchAction::Fail(FetchError::CorruptCache)
        },
        FetchEvent::DownloadFinished(bytes) => if digest_matches(&payload.sha256, bytes.as_slice()) {
            FetchAction::Store(bytes)
        } else {
            FetchAction::Fail(FetchError::DigestMismatch)
        },
        FetchEvent::DownloadFailed => FetchAction::Fail(FetchError::Transport),
        FetchEvent::StoreFinished => FetchAction::Done,
    }
}


/// Fetching never vouches for bytes whose digest is not the declared one:
/// bytes read from the cache are accepted exactly when their digest is the
/// declared one and are otherwise a corrupt cache, and downloaded bytes are
/// stored exactly when their digest is the declared one.
pub proof fn lemma_fetch_trusts_only_matching_bytes(declared: Seq<u8>, bytes: Vec<u8>)
    ensures
        next_fetch_action(declared, FetchEvent::CacheRead(bytes)) is Done <==> sha256_of(bytes@) == declared,
        sha256_of(bytes@) != declared ==> next_fetch_action(declared, FetchEvent::CacheRead(bytes))
            == FetchAction::Fail(FetchError::CorruptCache),
        next_fetch_action(declared, FetchEvent::DownloadFinished(bytes)) is Store <==> sha256_of(bytes@) == declared,
        sha256_of(bytes@) != declared ==> next_fetch_action(declared, FetchEvent::DownloadFinished(bytes))
            == FetchAction::Fail(FetchError::DigestMismatch),
{
}

/// Once a download of a payload has been accepted for storing, fetching
/// the same payload again finds it in the cache without a download, and the
/// same bytes read back are accepted.
pub proof fn lemma_cache_reuse(declared: Seq<u8>, downloaded: Vec<u8>, read_back: Vec<u8>)
    requires
        next_fetch_action(declared, FetchEvent::DownloadFinished(downloaded)) is Store,
        read_back@ == downloaded@,
    ensures
        next_fetch_action(declared, FetchEvent::CacheLookup { present: true }) == FetchAction::ReadCache,
        next_fetch_action(declared, FetchEvent::CacheRead(read_back)) == FetchAction::Done,
{
}

/// The sum of the declared sizes of the payloads.
pub open spec fn payload_bytes(ps: Seq<Payload>) -> int
    decreases ps.len(),
{
    if ps.len() == 0 {
        0
    } else {
        payload_bytes(ps.drop_last()) + ps.last().size
    }
}

/// The sum of the declared sizes of all payloads of the packages.
pub open spec fn total_bytes(pkgs: Seq<Package>) -> int
    decreases pkgs.len(),
{
    if pkgs.len() == 0 {
        0
    } else {
        total_bytes(pkgs.drop_last()) + payload_bytes(pkgs.last().payloads@)
    }
}

proof fn lemma_payload_bytes_grow(ps: Seq<Payload>, i: int)
    requires
        0 <= i <= ps.len(),
    ensures
        0 <= payload_bytes(ps.subrange(0, i)) <= payload_bytes(ps),
    decreases ps.len(),
{
    if i < ps.len() {
        lemma_payload_bytes_grow(ps.drop_last(), i);
        assert(ps.drop_last().subrange(0, i) =~= ps.subrange(0, i));
    } else {
        assert(ps.subrange(0, i) =~= ps);
        lemma_payload_bytes_grow_base(ps);
    }
}

proof fn lemma_payload_bytes_grow_base(ps: Seq<Payload>)
    ensures
        0 <= payload_bytes(ps),
    decreases ps.len(),
{
    if ps.len() > 0 {
        lemma_payload_bytes_grow_base(ps.drop_last());
    }
}

proof fn lemma_total_bytes_grow(pkgs: Seq<Package>, i: int)
    requires
        0 <= i <= pkgs.len(),
    ensures
        0 <= total_bytes(pkgs.subrange(0, i)) <= total_bytes(pkgs),
    decreases pkgs.len(),
{
    if i < pkgs.len() {
        lemma_total_bytes_grow(pkgs.drop_last(), i);
        assert(pkgs.drop_last().subrange(0, i) =~= pkgs.subrange(0, i));
        lemma_payload_bytes_grow_base(pkgs.last().payloads@);
    } else {
        assert(pkgs.subrange(0, i) =~= pkgs);
        if pkgs.len() > 0 {
            lemma_total_bytes_grow(pkgs.drop_last(), i - 1);
            assert(pkgs.drop_last().subrange(0, i - 1) =~= pkgs.drop_last());
            lemma_payload_bytes_grow_base(pkgs.last().payloads@);
        }
    }
}

/// The sum of the declared sizes of all payloads, the measure of progress
/// for fetching and extracting them; nothing if it does not fit in 64 bits.
pub fn total_payload_size(packages: &Vec<Package>) -> (r: Option<u64>)
    ensures
        r == if total_bytes(packages@) <= u64::MAX {
            Some(total_bytes(packages@) as u64)
        } else {
            None::<u64>
        },
{
    let mut total: u64 = 0;
    for i in 0..packages.len()
        invariant
            total == total_bytes(packages@.subrange(0, i as int)),
    {
        let ps = &packages[i].payloads;
        let mut sub: u64 = total;
        for j in 0..ps.len()
            invariant
                i < packages@.len(),
                ps == &packages@[i as int].payloads,
                sub == total_bytes(packages@.subrange(0, i as int)) + payload_bytes(ps@.subrange(0, j as int)),
        {
            let size = ps[j].size;
            assert(ps@.subrange(0, j + 1).drop_last() =~= ps@.subrange(0, j as int));
            match sub.checked_add(size) {
                Some(v) => {
                    sub = v;
                },
                None => {
                    proof {
                        lemma_payload_bytes_grow(ps@, j + 1);
                        assert(packages@.subrange(0, i + 1).drop_last() =~= packages@.subrange(0, i as int));
                        lemma_total_bytes_grow(packages@, i + 1);
                    }
                    return None;
                },
            }
        }
        assert(ps@.subrange(0, ps@.len() as int) =~= ps@);
        assert(packages@.subrange(0, i + 1).drop_last() =~= packages@.subrange(0, i as int));
        total = sub;
    }
    assert(packages@.subrange(0, packages@.len() as int) =~= packages@);
    Some(total)
}

/// `i` is the first item of the channel that is the manifest.
pub open spec fn is_manifest_item(items: Seq<ChannelItem>, i: int) -> bool {
    &&& 0 <= i < items.len()
    &&& items[i].ty == ChannelItemType::Manifest
    &&& forall|j: int| 0 <= j < i ==> (#[trigger] items[j]).ty != ChannelItemType::Manifest
}

/// The channel's manifest item has a first payload.
pub open spec fn has_manifest_payload(items: Seq<ChannelItem>, i: int) -> bool {
    is_manifest_item(items, i) && items[i].payloads is Some && items[i].payloads.unwrap()@.len() > 0
}

/// The payload that points at the manifest: the first payload of the first
/// item of the channel that is the manifest; nothing if there is no such
/// item or it has no payload.
pub fn manifest_payload(channel: &Channel) -> (r: Option<&Payload>)
    ensures
        r is Some <==> exists|i: int| has_manifest_payload(channel.channel_items@, i),
        forall|i: int| #[trigger] has_manifest_payload(channel.channel_items@, i) ==> r == Some(
            &channel.channel_items@[i].payloads.unwrap()@[0],
        ),
{
    let items = &channel.channel_items;
    let mut i: usize = 0;
    while i < items.len()
        invariant
            items == &channel.channel_items,
            i <= items@.len(),
            forall|j: int| 0 <= j < i ==> (#[trigger] items@[j]).ty != ChannelItemType::Manifest,
        decreases items@.len() - i,
    {
        if items[i].ty == ChannelItemType::Manifest {
            assert(is_manifest_item(items@, i as int));
            assert forall|k: int| #[trigger] is_manifest_item(items@, k) implies k == i by {
                if k < i {
                    assert(items@[k].ty != ChannelItemType::Manifest);
                } else if k > i {
                    assert(items@[i as int].ty != ChannelItemType::Manifest);
                }
            }
            match &items[i].payloads {
                Some(ps) => {
                    if ps.len() > 0 {
                        assert(items@[i as int].payloads == Some(*ps));
                        assert(items@[i as int].payloads.unwrap()@.len() > 0);
                        assert(has_manifest_payload(channel.channel_items@, i as int));
                        return Some(&ps[0]);
                    }
                },
                None => {},
            }
            assert forall|k: int| !has_manifest_payload(channel.channel_items@, k) by {
                if has_manifest_payload(channel.channel_items@, k) {
                    assert(is_manifest_item(items@, k));
                }
            }
            return None;
        }
        i += 1;
    }
    assert forall|k: int| !has_manifest_payload(channel.channel_items@, k) by {
        if has_manifest_payload(channel.channel_items@, k) {
            assert(items@[k].ty == ChannelItemType::Manifest);
        }
    }
    None
}

} // verus!
