//! The stored form of records.
//!
//! Records are written with `postcard`, field after field. A digest is written
//! as its key form, so that a stored digest says its own algorithm.
use vstd::prelude::*;

use crate::bytes::{after, lemma_has_prefix_concat};
use crate::digest::Digest;
use crate::registry::error::{corrupt, RegistryError, Result};
use crate::registry::suffix::{digest_at, lemma_digest_at};
use crate::types::{
    AnnotationsView, BucketView, ChildRef, CounterBucket, ManifestRecord, ManifestView, Platform,
    PlatformView, ReferrerRecord, ReferrerView, RepoBlobRecord, TagEvent, TagEventKind,
};

verus! {

/// A platform's fields in the order they are written.
pub type PlatformWire = (String, String, Option<String>);

/// A manifest record's fields in the order they are written, in two halves.
pub type ManifestWire = (
    (u32, Vec<u8>, String, u64, u64, Option<PlatformWire>),
    (
        Vec<Vec<u8>>,
        Vec<(Vec<u8>, Option<PlatformWire>)>,
        Option<Vec<u8>>,
        Option<String>,
        Vec<(String, String)>,
        u64,
    ),
);

/// What a manifest record's fields say.
pub type ManifestWireView = (
    (u32, Seq<u8>, Seq<char>, u64, u64, Option<PlatformView>),
    (
        Seq<Seq<u8>>,
        Seq<(Seq<u8>, Option<PlatformView>)>,
        Option<Seq<u8>>,
        Option<Seq<char>>,
        AnnotationsView,
        u64,
    ),
);

/// A referrer record's fields in the order they are written.
pub type ReferrerWire = (String, Option<String>, u64, Vec<(String, String)>);

/// What a referrer record's fields say.
pub type ReferrerWireView = (Seq<char>, Option<Seq<char>>, u64, AnnotationsView);

// --- the encoding --------------------------------------------------------

/// The manifest fields that `postcard` reads from some bytes.
pub uninterp spec fn manifest_wire(bytes: Seq<u8>) -> Option<ManifestWireView>;

/// The referrer fields that `postcard` reads from some bytes.
pub uninterp spec fn referrer_wire(bytes: Seq<u8>) -> Option<ReferrerWireView>;

/// The two numbers that `postcard` reads from some bytes.
pub uninterp spec fn number_pair_wire(bytes: Seq<u8>) -> Option<(u64, u64)>;

/// The three series of counters that `postcard` reads from some bytes.
pub uninterp spec fn counters_wire(bytes: Seq<u8>) -> Option<BucketView>;

/// The event fields that `postcard` reads from some bytes.
pub uninterp spec fn event_wire(bytes: Seq<u8>) -> Option<(u32, Seq<char>, u64)>;

/// The bytes that `postcard` writes for an event's fields.
pub uninterp spec fn event_bytes(kind: u32, media_type: Seq<char>, size: u64) -> Seq<u8>;

/// The bytes that `postcard` writes for three series of counters.
pub uninterp spec fn counters_bytes(counters: BucketView) -> Seq<u8>;

/// `postcard::from_bytes` at a manifest's fields. What it reads depends on the
/// bytes alone.
#[verifier::external_body]
fn read_manifest(bytes: &[u8]) -> (r: Option<ManifestWire>)
    ensures
        r.deep_view() == manifest_wire(bytes@),
{
    postcard::from_bytes(bytes).ok()
}

/// `postcard::to_allocvec` at a manifest's fields. It writes to memory, so it
/// does not fail, and what it writes reads back as what was written.
#[verifier::external_body]
fn write_manifest(wire: &ManifestWire) -> (r: Option<Vec<u8>>)
    ensures
        r is Some,
        manifest_wire((r->0)@) == Some(wire.deep_view()),
{
    postcard::to_allocvec(wire).ok()
}

/// `postcard::from_bytes` at a referrer's fields. What it reads depends on the
/// bytes alone.
#[verifier::external_body]
fn read_referrer(bytes: &[u8]) -> (r: Option<ReferrerWire>)
    ensures
        r.deep_view() == referrer_wire(bytes@),
{
    postcard::from_bytes(bytes).ok()
}

/// `postcard::to_allocvec` at a referrer's fields. It writes to memory, so it
/// does not fail, and what it writes reads back as what was written.
#[verifier::external_body]
fn write_referrer(wire: &ReferrerWire) -> (r: Option<Vec<u8>>)
    ensures
        r is Some,
        referrer_wire((r->0)@) == Some(wire.deep_view()),
{
    postcard::to_allocvec(wire).ok()
}

/// `postcard::from_bytes` at two numbers. What it reads depends on the bytes
/// alone.
#[verifier::external_body]
fn read_number_pair(bytes: &[u8]) -> (r: Option<(u64, u64)>)
    ensures
        r == number_pair_wire(bytes@),
{
    postcard::from_bytes(bytes).ok()
}

/// `postcard::to_allocvec` at two numbers. It writes to memory, so it does not
/// fail, and what it writes reads back as what was written.
#[verifier::external_body]
fn write_number_pair(pair: (u64, u64)) -> (r: Option<Vec<u8>>)
    ensures
        r is Some,
        number_pair_wire((r->0)@) == Some(pair),
{
    postcard::to_allocvec(&pair).ok()
}

/// `postcard::from_bytes` at three series of counters. What it reads depends on
/// the bytes alone.
#[verifier::external_body]
fn read_counters(bytes: &[u8]) -> (r: Option<([u32; 24], [u32; 24], [u64; 24])>)
    ensures
        match r {
            Some((a, b, c)) => counters_wire(bytes@) == Some((a@, b@, c@)),
            None => counters_wire(bytes@) is None,
        },
{
    postcard::from_bytes(bytes).ok()
}

/// `postcard::to_allocvec` at three series of counters. It writes to memory, so
/// it does not fail; what it writes depends on the counters alone, and reads
/// back as what was written.
#[verifier::external_body]
fn write_counters(a: &[u32; 24], b: &[u32; 24], c: &[u64; 24]) -> (r: Option<Vec<u8>>)
    ensures
        r is Some,
        (r->0)@ == counters_bytes((a@, b@, c@)),
        counters_wire((r->0)@) == Some((a@, b@, c@)),
{
    postcard::to_allocvec(&(a, b, c)).ok()
}

/// `postcard::from_bytes` at an event's fields. What it reads depends on the
/// bytes alone.
#[verifier::external_body]
fn read_event(bytes: &[u8]) -> (r: Option<(u32, String, u64)>)
    ensures
        r.deep_view() == event_wire(bytes@),
{
    postcard::from_bytes(bytes).ok()
}

/// `postcard::to_allocvec` at an event's fields. It writes to memory, so it does
/// not fail; what it writes depends on the fields alone, and reads back as what
/// was written.
#[verifier::external_body]
fn write_event(kind: u32, media_type: &str, size: u64) -> (r: Option<Vec<u8>>)
    ensures
        r is Some,
        (r->0)@ == event_bytes(kind, media_type@, size),
        event_wire((r->0)@) == Some((kind, media_type@, size)),
{
    postcard::to_allocvec(&(kind, media_type, size)).ok()
}

// --- records ---------------------------------------------------------------

/// The record that stored bytes hold, if they hold one.
pub open spec fn manifest_of(bytes: Seq<u8>) -> Option<ManifestView> {
    match manifest_wire(bytes) {
        Some(w) => manifest_from_wire(w),
        None => None,
    }
}

/// Every digest of a manifest's fields reads back.
pub open spec fn wire_digests_read(w: ManifestWireView) -> bool {
    &&& digest_at(w.0.1, 0) is Some
    &&& forall|i: int| 0 <= i < w.1.0.len() ==> digest_at(#[trigger] w.1.0[i], 0) is Some
    &&& forall|i: int| 0 <= i < w.1.1.len() ==> digest_at((#[trigger] w.1.1[i]).0, 0) is Some
    &&& w.1.2 matches Some(b) ==> digest_at(b, 0) is Some
}

/// The record that a manifest's fields make.
pub open spec fn manifest_from_wire(w: ManifestWireView) -> Option<ManifestView> {
    if wire_digests_read(w) {
        Some(
            ManifestView {
                repo: w.0.0,
                digest: digest_at(w.0.1, 0)->0,
                media_type: w.0.2,
                size: w.0.3,
                total_layer_size: w.0.4,
                platform: w.0.5,
                layers: w.1.0.map_values(|b: Seq<u8>| digest_at(b, 0)->0),
                children: w.1.1.map_values(
                    |c: (Seq<u8>, Option<PlatformView>)| (digest_at(c.0, 0)->0, c.1),
                ),
                subject: match w.1.2 {
                    Some(b) => Some(digest_at(b, 0)->0),
                    None => None,
                },
                artifact_type: w.1.3,
                annotations: w.1.4,
                pushed_at: w.1.5,
            },
        )
    } else {
        None
    }
}

/// The fields that a record is written as.
pub open spec fn manifest_to_wire(m: ManifestView) -> ManifestWireView {
    (
        (m.repo, m.digest.encoded(), m.media_type, m.size, m.total_layer_size, m.platform),
        (
            m.layers.map_values(|d: Digest| d.encoded()),
            m.children.map_values(|c: (Digest, Option<PlatformView>)| (c.0.encoded(), c.1)),
            match m.subject {
                Some(d) => Some(d.encoded()),
                None => None,
            },
            m.artifact_type,
            m.annotations,
            m.pushed_at,
        ),
    )
}

/// The referrer record that stored bytes hold, if they hold one.
pub open spec fn referrer_of(bytes: Seq<u8>) -> Option<ReferrerView> {
    match referrer_wire(bytes) {
        Some(w) => Some(
            ReferrerView { media_type: w.0, artifact_type: w.1, size: w.2, annotations: w.3 },
        ),
        None => None,
    }
}

/// The number that an event's kind is written as.
pub open spec fn kind_number(kind: TagEventKind) -> u32 {
    match kind {
        TagEventKind::Created => 0,
        TagEventKind::Deleted => 1,
    }
}

/// A digest's key form, read from its start, is the digest.
proof fn lemma_digest_at_start(d: Digest)
    ensures
        digest_at(d.encoded(), 0) == Some(d),
{
    assert(after(d.encoded(), 0) =~= d.encoded() + Seq::<u8>::empty());
    lemma_has_prefix_concat(d.encoded(), Seq::empty());
    lemma_digest_at(d.encoded(), 0, d);
}

/// A record's own fields make the record.
pub proof fn manifest_fields_round_trip(m: ManifestView)
    ensures
        manifest_from_wire(manifest_to_wire(m)) == Some(m),
{
    let w = manifest_to_wire(m);
    lemma_digest_at_start(m.digest);
    assert forall|i: int| 0 <= i < m.layers.len() implies digest_at(#[trigger] w.1.0[i], 0) == Some(
        m.layers[i],
    ) by {
        lemma_digest_at_start(m.layers[i]);
    }
    assert forall|i: int| 0 <= i < m.children.len() implies digest_at((#[trigger] w.1.1[i]).0, 0)
        == Some(m.children[i].0) by {
        lemma_digest_at_start(m.children[i].0);
    }
    if let Some(d) = m.subject {
        lemma_digest_at_start(d);
    }
    let back = manifest_from_wire(w)->0;
    assert(back.layers =~= m.layers);
    assert(back.children =~= m.children);
}

fn read_digest(bytes: &Vec<u8>) -> (r: Option<Digest>)
    ensures
        r == digest_at(bytes@, 0),
{
    proof {
        assert(after(bytes@, 0) =~= bytes@);
    }
    match Digest::decode(bytes.as_slice()) {
        Some((d, _)) => {
            proof {
                lemma_digest_at(bytes@, 0, d);
            }
            Some(d)
        },
        None => None,
    }
}

fn digest_bytes(d: &Digest) -> (r: Vec<u8>)
    ensures
        r@ == d.encoded(),
{
    let mut out: Vec<u8> = Vec::new();
    d.encode_into(&mut out);
    assert(out@ =~= d.encoded());
    out
}

/// A copy of an optional text.
pub(crate) fn copy_text(s: &Option<String>) -> (r: Option<String>)
    ensures
        r.deep_view() == s.deep_view(),
{
    match s {
        Some(t) => Some(t.clone()),
        None => None,
    }
}

/// A copy of annotations.
pub(crate) fn copy_annotations(a: &Vec<(String, String)>) -> (r: Vec<(String, String)>)
    ensures
        r.deep_view() == a.deep_view(),
{
    let mut out: Vec<(String, String)> = Vec::new();
    let mut i: usize = 0;
    while i < a.len()
        invariant
            i <= a@.len(),
            out@.len() == i,
            forall|k: int| 0 <= k < i ==> (#[trigger] out@[k]).deep_view() == a@[k].deep_view(),
        decreases a@.len() - i,
    {
        out.push((a[i].0.clone(), a[i].1.clone()));
        i += 1;
    }
    assert(out.deep_view() =~= a.deep_view());
    out
}

fn platform_from(p: &Option<PlatformWire>) -> (r: Option<Platform>)
    ensures
        r.deep_view() == p.deep_view(),
{
    match p {
        Some(w) => Some(
            Platform { os: w.0.clone(), arch: w.1.clone(), variant: copy_text(&w.2) },
        ),
        None => None,
    }
}

fn platform_to(p: &Option<Platform>) -> (r: Option<PlatformWire>)
    ensures
        r.deep_view() == p.deep_view(),
{
    match p {
        Some(w) => Some((w.os.clone(), w.arch.clone(), copy_text(&w.variant))),
        None => None,
    }
}

/// Read a manifest record.
pub fn decode_manifest(bytes: &[u8]) -> (r: Result<ManifestRecord>)
    ensures
        match r {
            Ok(m) => manifest_of(bytes@) == Some(m.deep_view()),
            Err(e) => manifest_of(bytes@) is None && e@ == corrupt("ManifestRecord"@),
        },
{
    let wire = match read_manifest(bytes) {
        Some(w) => w,
        None => return Err(RegistryError::corrupt("ManifestRecord")),
    };
    let ghost w = wire.deep_view();
    assert(manifest_wire(bytes@) == Some(w));
    let (head, tail) = wire;
    proof {
        assert(w.0.1 =~= head.1@);
        if tail.2 is Some {
            assert(w.1.2->0 =~= (tail.2->0)@);
        }
    }
    let digest = match read_digest(&head.1) {
        Some(d) => d,
        None => return Err(RegistryError::corrupt("ManifestRecord")),
    };
    let mut layers: Vec<Digest> = Vec::new();
    let mut i: usize = 0;
    while i < tail.0.len()
        invariant
            i <= tail.0@.len(),
            layers@.len() == i,
            w == ((head, tail)).deep_view(),
            manifest_wire(bytes@) == Some(w),
            forall|k: int| 0 <= k < i ==> digest_at(#[trigger] w.1.0[k], 0) == Some(layers@[k]),
        decreases tail.0@.len() - i,
    {
        assert(w.1.0[i as int] == tail.0@[i as int]@);
        match read_digest(&tail.0[i]) {
            Some(d) => layers.push(d),
            None => return Err(RegistryError::corrupt("ManifestRecord")),
        }
        i += 1;
    }
    let mut children: Vec<ChildRef> = Vec::new();
    i = 0;
    while i < tail.1.len()
        invariant
            i <= tail.1@.len(),
            children@.len() == i,
            w == ((head, tail)).deep_view(),
            manifest_wire(bytes@) == Some(w),
            forall|k: int|
                0 <= k < i ==> digest_at((#[trigger] w.1.1[k]).0, 0) == Some(children@[k].digest),
            forall|k: int|
                0 <= k < i ==> (#[trigger] w.1.1[k]).1 == children@[k].platform.deep_view(),
        decreases tail.1@.len() - i,
    {
        assert(w.1.1[i as int].0 == tail.1@[i as int].0@);
        assert(w.1.1[i as int].1 == tail.1@[i as int].1.deep_view());
        match read_digest(&tail.1[i].0) {
            Some(d) => children.push(
                ChildRef { digest: d, platform: platform_from(&tail.1[i].1) },
            ),
            None => return Err(RegistryError::corrupt("ManifestRecord")),
        }
        i += 1;
    }
    let subject = match &tail.2 {
        Some(b) => match read_digest(b) {
            Some(d) => Some(d),
            None => return Err(RegistryError::corrupt("ManifestRecord")),
        },
        None => None,
    };
    let platform = platform_from(&head.5);
    let m = ManifestRecord {
        repo: head.0,
        digest,
        media_type: head.2,
        size: head.3,
        total_layer_size: head.4,
        platform,
        layers,
        children,
        subject,
        artifact_type: tail.3,
        annotations: tail.4,
        pushed_at: tail.5,
    };
    proof {
        assert forall|k: int| 0 <= k < w.1.0.len() implies digest_at(#[trigger] w.1.0[k], 0)
            is Some by {}
        assert(wire_digests_read(w));
        let v = manifest_from_wire(w)->0;
        assert(v.layers =~= m.deep_view().layers);
        assert(v.children =~= m.deep_view().children);
    }
    Ok(m)
}

/// Write a manifest record.
pub fn encode_manifest(m: &ManifestRecord) -> (r: Result<Vec<u8>>)
    ensures
        r matches Ok(bytes) && manifest_of(bytes@) == Some(m.deep_view()),
{
    let ghost v = m.deep_view();
    let ghost w = manifest_to_wire(v);
    let mut layers: Vec<Vec<u8>> = Vec::new();
    let mut i: usize = 0;
    while i < m.layers.len()
        invariant
            i <= m.layers@.len(),
            layers@.len() == i,
            forall|k: int| 0 <= k < i ==> (#[trigger] layers@[k])@ == m.layers@[k].encoded(),
        decreases m.layers@.len() - i,
    {
        layers.push(digest_bytes(&m.layers[i]));
        i += 1;
    }
    let mut children: Vec<(Vec<u8>, Option<PlatformWire>)> = Vec::new();
    i = 0;
    while i < m.children.len()
        invariant
            i <= m.children@.len(),
            children@.len() == i,
            forall|k: int|
                0 <= k < i ==> (#[trigger] children@[k]).0@ == m.children@[k].digest.encoded()
                    && children@[k].1.deep_view() == m.children@[k].platform.deep_view(),
        decreases m.children@.len() - i,
    {
        let c = &m.children[i];
        children.push((digest_bytes(&c.digest), platform_to(&c.platform)));
        i += 1;
    }
    let subject = match &m.subject {
        Some(d) => Some(digest_bytes(d)),
        None => None,
    };
    let wire: ManifestWire = (
        (
            m.repo,
            digest_bytes(&m.digest),
            m.media_type.clone(),
            m.size,
            m.total_layer_size,
            platform_to(&m.platform),
        ),
        (
            layers,
            children,
            subject,
            copy_text(&m.artifact_type),
            copy_annotations(&m.annotations),
            m.pushed_at,
        ),
    );
    proof {
        assert(wire.0.1.deep_view() =~= w.0.1);
        assert forall|k: int| 0 <= k < layers@.len() implies #[trigger] wire.1.0.deep_view()[k]
            == w.1.0[k] by {
            assert(layers@[k].deep_view() =~= layers@[k]@);
        }
        assert(wire.1.0.deep_view() =~= w.1.0);
        assert forall|k: int| 0 <= k < children@.len() implies #[trigger] wire.1.1.deep_view()[k]
            == w.1.1[k] by {
            assert(children@[k].0.deep_view() =~= children@[k].0@);
        }
        assert(wire.1.1.deep_view() =~= w.1.1);
        if wire.1.2 is Some {
            assert((wire.1.2->0).deep_view() =~= (wire.1.2->0)@);
        }
        assert(wire.deep_view() == w);
        manifest_fields_round_trip(v);
    }
    match write_manifest(&wire) {
        Some(bytes) => Ok(bytes),
        None => Err(RegistryError::corrupt("ManifestRecord")),
    }
}

/// Read a referrer record.
pub fn decode_referrer(bytes: &[u8]) -> (r: Result<ReferrerRecord>)
    ensures
        match r {
            Ok(m) => referrer_of(bytes@) == Some(m.deep_view()),
            Err(e) => referrer_of(bytes@) is None && e@ == corrupt("ReferrerRecord"@),
        },
{
    match read_referrer(bytes) {
        Some((media_type, artifact_type, size, annotations)) => Ok(
            ReferrerRecord { media_type, artifact_type, size, annotations },
        ),
        None => Err(RegistryError::corrupt("ReferrerRecord")),
    }
}

/// Write a referrer record.
pub fn encode_referrer(m: &ReferrerRecord) -> (r: Result<Vec<u8>>)
    ensures
        r matches Ok(bytes) && referrer_of(bytes@) == Some(m.deep_view()),
{
    let wire: ReferrerWire = (
        m.media_type.clone(),
        copy_text(&m.artifact_type),
        m.size,
        copy_annotations(&m.annotations),
    );
    match write_referrer(&wire) {
        Some(bytes) => Ok(bytes),
        None => Err(RegistryError::corrupt("ReferrerRecord")),
    }
}

/// Read a blob's membership record.
pub fn decode_repo_blob(bytes: &[u8]) -> (r: Result<RepoBlobRecord>)
    ensures
        match r {
            Ok(m) => number_pair_wire(bytes@) == Some((m.size, m.added_at)),
            Err(e) => number_pair_wire(bytes@) is None && e@ == corrupt("RepoBlobRecord"@),
        },
{
    match read_number_pair(bytes) {
        Some((size, added_at)) => Ok(RepoBlobRecord { size, added_at }),
        None => Err(RegistryError::corrupt("RepoBlobRecord")),
    }
}

/// Write a blob's membership record.
pub fn encode_repo_blob(m: &RepoBlobRecord) -> (r: Result<Vec<u8>>)
    ensures
        r matches Ok(bytes) && number_pair_wire(bytes@) == Some((m.size, m.added_at)),
{
    match write_number_pair((m.size, m.added_at)) {
        Some(bytes) => Ok(bytes),
        None => Err(RegistryError::corrupt("RepoBlobRecord")),
    }
}

/// Read a day's counters.
pub fn decode_bucket(bytes: &[u8]) -> (r: Result<CounterBucket>)
    ensures
        match r {
            Ok(b) => counters_wire(bytes@) == Some(b@),
            Err(e) => counters_wire(bytes@) is None && e@ == corrupt("CounterBucket"@),
        },
{
    match read_counters(bytes) {
        Some((manifest_pulls, blob_pulls, bytes_out)) => Ok(
            CounterBucket { manifest_pulls, blob_pulls, bytes_out },
        ),
        None => Err(RegistryError::corrupt("CounterBucket")),
    }
}

/// Write a day's counters.
pub fn encode_bucket(b: &CounterBucket) -> (r: Result<Vec<u8>>)
    ensures
        r matches Ok(bytes) && bytes@ == counters_bytes(b@) && counters_wire(bytes@) == Some(b@),
{
    match write_counters(&b.manifest_pulls, &b.blob_pulls, &b.bytes_out) {
        Some(bytes) => Ok(bytes),
        None => Err(RegistryError::corrupt("CounterBucket")),
    }
}

/// Read a tag event.
pub fn decode_event(bytes: &[u8]) -> (r: Result<TagEvent>)
    ensures
        match r {
            Ok(m) => event_wire(bytes@) == Some((kind_number(m.event), m.media_type@, m.size)),
            Err(e) => e@ == corrupt("TagEvent"@) && (event_wire(bytes@) matches Some(w) ==> w.0
                > 1),
        },
{
    match read_event(bytes) {
        Some((0, media_type, size)) => Ok(
            TagEvent { event: TagEventKind::Created, media_type, size },
        ),
        Some((1, media_type, size)) => Ok(
            TagEvent { event: TagEventKind::Deleted, media_type, size },
        ),
        _ => Err(RegistryError::corrupt("TagEvent")),
    }
}

/// Write a tag event.
pub fn encode_event(m: &TagEvent) -> (r: Result<Vec<u8>>)
    ensures
        r matches Ok(bytes) && bytes@ == event_bytes(kind_number(m.event), m.media_type@, m.size)
            && event_wire(bytes@) == Some((kind_number(m.event), m.media_type@, m.size)),
{
    let kind: u32 = match m.event {
        TagEventKind::Created => 0,
        TagEventKind::Deleted => 1,
    };
    match write_event(kind, m.media_type.as_str(), m.size) {
        Some(bytes) => Ok(bytes),
        None => Err(RegistryError::corrupt("TagEvent")),
    }
}

} // verus!
