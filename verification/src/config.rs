//! The configuration surface and its pre-run validation.
//!
//! A configuration describes zero or more proxies (each with a discovery
//! stanza, server stanzas and an optional client stanza) plus the global
//! buffer size and admin settings. `configure` applies the documented
//! defaults and validates the one startup invariant: a TLS server stanza
//! must name at least one identity, or configuration fails before anything
//! is bound.

use vstd::prelude::*;
use crate::Addr;

verus! {

/// Paths of a certificate chain and its private key.
#[derive(PartialEq, Eq, Debug)]
pub struct TlsServerIdentity {
    pub certs: Vec<String>,
    pub private_key: String,
}

/// One listening socket: plain TCP, or TLS-terminating with its identities.
#[derive(PartialEq, Eq, Debug)]
pub enum ServerConfig {
    Tcp { addr: Addr },
    Tls {
        addr: Addr,
        alpn_protocols: Option<Vec<String>>,
        default_identity: Option<TlsServerIdentity>,
        identities: Vec<(Vec<u8>, TlsServerIdentity)>,
    },
}

/// TLS origination toward upstreams.
#[derive(PartialEq, Eq, Debug)]
pub struct TlsClientConfig {
    pub dns_name: String,
    pub trust_certs: Option<Vec<String>>,
}

/// The optional client stanza of one proxy.
#[derive(PartialEq, Eq, Debug)]
pub struct ClientConfig {
    pub tls: Option<TlsClientConfig>,
}

/// The discovery stanza of one proxy.
#[derive(PartialEq, Eq, Debug)]
pub struct NamerdConfig {
    pub addr: Addr,
    pub path: String,
    pub namespace: Option<String>,
    pub interval_secs: Option<u64>,
}

/// One proxy stanza.
#[derive(PartialEq, Eq, Debug)]
pub struct ProxyConfig {
    pub label: String,
    pub namerd: NamerdConfig,
    pub servers: Vec<ServerConfig>,
    pub client: Option<ClientConfig>,
    pub max_waiters: Option<usize>,
}

/// The admin stanza.
#[derive(PartialEq, Eq, Debug)]
pub struct AdminConfig {
    pub addr: Option<Addr>,
    pub metrics_interval_secs: Option<u64>,
}

/// A whole configuration, as loaded.
#[derive(PartialEq, Eq, Debug)]
pub struct AppConfig {
    pub proxies: Vec<ProxyConfig>,
    pub buffer_size: Option<usize>,
    pub admin: Option<AdminConfig>,
}

/// Admin settings with defaults applied.
#[derive(PartialEq, Eq, Debug)]
pub struct AdminSettings {
    pub addr: Addr,
    pub metrics_interval_secs: u64,
}

/// One proxy with defaults applied.
#[derive(PartialEq, Eq, Debug)]
pub struct ProxySettings {
    pub label: String,
    pub namerd_addr: Addr,
    pub namerd_path: String,
    pub namespace: String,
    pub interval_secs: u64,
    pub servers: Vec<ServerConfig>,
    pub client: Option<ClientConfig>,
    pub max_waiters: usize,
}

/// A whole configuration with defaults applied, ready to run.
#[derive(PartialEq, Eq, Debug)]
pub struct AppSettings {
    pub buffer_size: usize,
    pub admin: AdminSettings,
    pub proxies: Vec<ProxySettings>,
}

/// Configuration failure: startup stops before anything is bound.
#[derive(Clone, Copy, PartialEq, Eq, Structural, Debug)]
pub enum ConfigError {
    /// A TLS server stanza names no identity at all.
    NoTlsIdentities,
}

pub const DEFAULT_BUFFER_SIZE: usize = 8192;

pub const DEFAULT_MAX_WAITERS: usize = 8;

pub const DEFAULT_NAMERD_SECONDS: u64 = 60;

pub const DEFAULT_METRICS_SECONDS: u64 = 10;

pub const DEFAULT_ADMIN_PORT: u16 = 9989;

/// The default admin address, all interfaces on the default port.
pub fn default_admin_addr() -> (r: Addr)
    ensures
        r == (Addr { ip: 0, port: DEFAULT_ADMIN_PORT }),
{
    Addr { ip: 0, port: DEFAULT_ADMIN_PORT }
}

/// Whether a server stanza can present a certificate on every handshake:
/// plain TCP always can; a TLS stanza needs a default or a named identity.
pub open spec fn server_has_identity(s: ServerConfig) -> bool {
    match s {
        ServerConfig::Tcp { .. } => true,
        ServerConfig::Tls { default_identity, identities, .. } => default_identity is Some
            || identities@.len() > 0,
    }
}

/// Whether every server stanza of every proxy can present an identity.
pub open spec fn all_tls_configured(proxies: Seq<ProxyConfig>) -> bool {
    forall|i: int, j: int|
        0 <= i < proxies.len() && 0 <= j < proxies[i].servers@.len() ==> server_has_identity(
            #[trigger] proxies[i].servers@[j],
        )
}

/// The documented defaults, applied to one proxy stanza.
pub open spec fn proxy_settings_match(p: ProxyConfig, s: ProxySettings) -> bool {
    &&& s.label == p.label
    &&& s.namerd_addr == p.namerd.addr
    &&& s.namerd_path == p.namerd.path
    &&& s.namespace@ == (match p.namerd.namespace {
        Some(ns) => ns@,
        None => "default"@,
    })
    &&& s.interval_secs == (match p.namerd.interval_secs {
        Some(v) => v,
        None => DEFAULT_NAMERD_SECONDS,
    })
    &&& s.servers == p.servers
    &&& s.client == p.client
    &&& s.max_waiters == (match p.max_waiters {
        Some(v) => v,
        None => DEFAULT_MAX_WAITERS,
    })
}

/// Turns a loaded configuration into runnable settings: applies every
/// documented default, keeps the proxies in order, and fails (before
/// anything is bound) exactly when some TLS server stanza names no identity.
pub fn configure(app: AppConfig) -> (r: Result<AppSettings, ConfigError>)
    ensures
        match r {
            Ok(s) => {
                &&& all_tls_configured(app.proxies@)
                &&& s.buffer_size == (match app.buffer_size {
                    Some(v) => v,
                    None => DEFAULT_BUFFER_SIZE,
                })
                &&& s.admin.addr == (match app.admin {
                    Some(a) => match a.addr {
                        Some(ad) => ad,
                        None => Addr { ip: 0, port: DEFAULT_ADMIN_PORT },
                    },
                    None => Addr { ip: 0, port: DEFAULT_ADMIN_PORT },
                })
                &&& s.admin.metrics_interval_secs == (match app.admin {
                    Some(a) => match a.metrics_interval_secs {
                        Some(v) => v,
                        None => DEFAULT_METRICS_SECONDS,
                    },
                    None => DEFAULT_METRICS_SECONDS,
                })
                &&& s.proxies@.len() == app.proxies@.len()
                &&& forall|i: int|
                    0 <= i < app.proxies@.len() ==> proxy_settings_match(
                        #[trigger] app.proxies@[i],
                        s.proxies@[i],
                    )
            },
            Err(e) => e == ConfigError::NoTlsIdentities && !all_tls_configured(app.proxies@),
        },
{
    let AppConfig { mut proxies, buffer_size, admin } = app;
    let ghost p0 = proxies@;
    let buffer_size = match buffer_size {
        Some(v) => v,
        None => DEFAULT_BUFFER_SIZE,
    };
    let (admin_addr, metrics_interval_secs): (Addr, u64) = match admin {
        Some(a) => {
            let addr = match a.addr {
                Some(ad) => ad,
                None => default_admin_addr(),
            };
            let secs = match a.metrics_interval_secs {
                Some(v) => v,
                None => DEFAULT_METRICS_SECONDS,
            };
            (addr, secs)
        },
        None => (default_admin_addr(), DEFAULT_METRICS_SECONDS),
    };
    let mut out: Vec<ProxySettings> = Vec::new();
    while proxies.len() > 0
        invariant
            p0 == app.proxies@,
            out@.len() + proxies@.len() == p0.len(),
            proxies@ == p0.skip(out@.len() as int),
            forall|i: int|
                0 <= i < out@.len() ==> proxy_settings_match(#[trigger] p0[i], out@[i]),
            forall|i: int, j: int|
                0 <= i < out@.len() && 0 <= j < p0[i].servers@.len() ==> server_has_identity(
                    #[trigger] p0[i].servers@[j],
                ),
        decreases proxies@.len(),
    {
        let ghost done = out@.len() as int;
        let p = proxies.remove(0);
        proof {
            assert(p == p0[done]);
            assert(p0.skip(done).skip(1) =~= p0.skip(done + 1));
        }
        let ProxyConfig { label, namerd, servers, client, max_waiters } = p;
        proof {
            assert(0 <= done < p0.len());
            assert(servers == p0[done].servers);
        }
        let mut k: usize = 0;
        while k < servers.len()
            invariant
                p0 == app.proxies@,
                0 <= done < p0.len(),
                servers == p0[done].servers,
                k <= servers@.len(),
                forall|j: int| 0 <= j < k ==> server_has_identity(#[trigger] servers@[j]),
            decreases servers@.len() - k,
        {
            let ok = match &servers[k] {
                ServerConfig::Tcp { .. } => true,
                ServerConfig::Tls { default_identity, identities, .. } => default_identity.is_some()
                    || identities.len() > 0,
            };
            if !ok {
                proof {
                    assert(!server_has_identity(servers@[k as int]));
                    assert(servers@[k as int] == p0[done].servers@[k as int]);
                    assert(!server_has_identity(p0[done].servers@[k as int]));
                }
                return Err(ConfigError::NoTlsIdentities);
            }
            k += 1;
        }
        let namespace = match namerd.namespace {
            Some(ns) => ns,
            None => String::from_str("default"),
        };
        let interval_secs = match namerd.interval_secs {
            Some(v) => v,
            None => DEFAULT_NAMERD_SECONDS,
        };
        let max_waiters = match max_waiters {
            Some(v) => v,
            None => DEFAULT_MAX_WAITERS,
        };
        out.push(
            ProxySettings {
                label,
                namerd_addr: namerd.addr,
                namerd_path: namerd.path,
                namespace,
                interval_secs,
                servers,
                client,
                max_waiters,
            },
        );
    }
    proof {
        assert(out@.len() == p0.len());
        assert(forall|i: int|
            0 <= i < p0.len() ==> proxy_settings_match(#[trigger] p0[i], out@[i]));
    }
    Ok(
        AppSettings {
            buffer_size,
            admin: AdminSettings { addr: admin_addr, metrics_interval_secs },
            proxies: out,
        },
    )
}

} // verus!
