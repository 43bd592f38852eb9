//! Limits and switches the handlers consult.
use vstd::prelude::*;

verus! {

#[derive(Debug, Clone, Copy)]
pub struct ServerConfig {
    /// Largest manifest accepted, in bytes. Above it, `413`.
    ///
    /// Registries are asked for at least 4 MiB, and manifests close to it do occur;
    /// 8 MiB costs nothing, because the body is compressed at rest.
    pub max_manifest_bytes: usize,
    /// Largest single request body accepted on an upload `POST`, `PATCH` or `PUT`.
    ///
    /// A per-request bound, not a blob-size bound: a larger blob is pushed in
    /// chunks.
    pub max_upload_chunk_bytes: usize,
    /// Page size used when `?n=` is absent.
    pub default_page_size: usize,
    /// Ceiling for `?n=`. An oversized `n` is clamped, not rejected.
    pub max_page_size: usize,
    /// Maximum `?tag=` parameters on one manifest `PUT`. Above it, `414`.
    pub max_tag_params: usize,
    /// Advertised `OCI-Chunk-Min-Length`, if any.
    pub chunk_min_length: Option<u64>,
    /// Whether `/v2/<name>/referrers/<digest>` is served.
    pub referrers_enabled: bool,
}

impl Default for ServerConfig {
    fn default() -> (r: ServerConfig)
        ensures
            r.max_manifest_bytes == 8 * 1024 * 1024,
            r.max_upload_chunk_bytes == 1024 * 1024 * 1024,
            r.default_page_size == 1000,
            r.max_page_size == 1000,
            r.max_tag_params == 32,
            r.chunk_min_length is None,
            !r.referrers_enabled,
    {
        ServerConfig {
            max_manifest_bytes: 8 * 1024 * 1024,
            max_upload_chunk_bytes: 1024 * 1024 * 1024,
            default_page_size: 1000,
            max_page_size: 1000,
            max_tag_params: 32,
            chunk_min_length: None,
            referrers_enabled: false,
        }
    }
}

/// The arguments of `serve` that decide limits.
#[derive(Debug, Clone, Copy)]
pub struct ServeLimits {
    pub allow_missing_references: bool,
    pub max_manifest_bytes: usize,
    pub default_page_size: usize,
    pub max_page_size: usize,
    pub referrers: bool,
}

/// The registry's own limits, which are not the HTTP layer's.
#[derive(Debug, Clone, Copy)]
pub struct RegistryOptions {
    pub validate_references: bool,
    pub max_manifest_bytes: usize,
}

impl ServeLimits {
    /// `max_manifest_bytes` is the same number here and in [`ServerConfig`]: the
    /// handler's copy decides a `413` before the body is read, and this one is the
    /// backstop for a caller that did not come through HTTP.
    pub fn registry_options(&self) -> (r: RegistryOptions)
        ensures
            r.validate_references == !self.allow_missing_references,
            r.max_manifest_bytes == self.max_manifest_bytes,
    {
        RegistryOptions {
            validate_references: !self.allow_missing_references,
            max_manifest_bytes: self.max_manifest_bytes,
        }
    }

    pub fn server_config(&self) -> (r: ServerConfig)
        ensures
            r.max_manifest_bytes == self.max_manifest_bytes,
            r.default_page_size == self.default_page_size,
            r.max_page_size == self.max_page_size,
            r.referrers_enabled == self.referrers,
            r.max_upload_chunk_bytes == 1024 * 1024 * 1024,
            r.max_tag_params == 32,
            r.chunk_min_length is None,
    {
        ServerConfig {
            max_manifest_bytes: self.max_manifest_bytes,
            default_page_size: self.default_page_size,
            max_page_size: self.max_page_size,
            referrers_enabled: self.referrers,
            ..ServerConfig::default()
        }
    }
}

/// An address to listen on or to connect to.
#[derive(Debug, Clone, Copy, PartialEq, Eq)]
pub enum Host {
    V4([u8; 4]),
    V6([u16; 8]),
}

/// Whether an address means every interface.
pub open spec fn is_unspecified(host: Host) -> bool {
    match host {
        Host::V4(a) => forall|i: int| 0 <= i < 4 ==> #[trigger] a@[i] == 0,
        Host::V6(a) => forall|i: int| 0 <= i < 8 ==> #[trigger] a@[i] == 0,
    }
}

/// A bound address as one that can be connected to. "Every interface" is not an
/// address anything connects to; the loopback address works from the host.
pub fn reachable(host: Host) -> (r: Host)
    ensures
        match (host, r) {
            (Host::V4(_), Host::V4(b)) => if is_unspecified(host) {
                b@ == seq![127u8, 0, 0, 1]
            } else {
                r == host
            },
            (Host::V6(_), Host::V6(b)) => if is_unspecified(host) {
                b@ == seq![0u16, 0, 0, 0, 0, 0, 0, 1]
            } else {
                r == host
            },
            _ => false,
        },
{
    match host {
        Host::V4(a) => if a[0] == 0 && a[1] == 0 && a[2] == 0 && a[3] == 0 {
            let b: [u8; 4] = [127, 0, 0, 1];
            assert(b@ =~= seq![127u8, 0, 0, 1]);
            Host::V4(b)
        } else {
            host
        },
        Host::V6(a) => if a[0] == 0 && a[1] == 0 && a[2] == 0 && a[3] == 0 && a[4] == 0 && a[5] == 0
            && a[6] == 0 && a[7] == 0 {
            let b: [u16; 8] = [0, 0, 0, 0, 0, 0, 0, 1];
            assert(b@ =~= seq![0u16, 0, 0, 0, 0, 0, 0, 1]);
            Host::V6(b)
        } else {
            host
        },
    }
}

} // verus!
