use tcplb::Addr;
use tcplb::config::AdminConfig;
use tcplb::config::AppConfig;
use tcplb::config::ConfigError;
use tcplb::config::NamerdConfig;
use tcplb::config::ProxyConfig;
use tcplb::config::ServerConfig;
use tcplb::config::TlsServerIdentity;
use tcplb::config::configure;
use tcplb::sni::Sni;
use tcplb::sni::SniChoice;

fn identity(tag: &str) -> TlsServerIdentity {
    TlsServerIdentity {
        certs: vec![format!("{tag}.chain.pem")],
        private_key: format!("{tag}.key.pem"),
    }
}

fn namerd() -> NamerdConfig {
    NamerdConfig {
        addr: Addr { ip: 0x7f000001, port: 4180 },
        path: "/svc/web".to_string(),
        namespace: None,
        interval_secs: None,
    }
}

fn proxy(servers: Vec<ServerConfig>) -> ProxyConfig {
    ProxyConfig {
        label: "web".to_string(),
        namerd: namerd(),
        servers,
        client: None,
        max_waiters: None,
    }
}

#[test]
fn global_defaults_apply() {
    let app = AppConfig { proxies: Vec::new(), buffer_size: None, admin: None };
    let s = configure(app).unwrap();
    assert_eq!(s.buffer_size, 8192);
    assert_eq!(s.admin.addr, Addr { ip: 0, port: 9989 });
    assert_eq!(s.admin.metrics_interval_secs, 10);
    assert!(s.proxies.is_empty());
}

#[test]
fn explicit_values_override_defaults() {
    let app = AppConfig {
        proxies: Vec::new(),
        buffer_size: Some(1024),
        admin: Some(AdminConfig {
            addr: Some(Addr { ip: 0x7f000001, port: 7777 }),
            metrics_interval_secs: Some(30),
        }),
    };
    let s = configure(app).unwrap();
    assert_eq!(s.buffer_size, 1024);
    assert_eq!(s.admin.addr, Addr { ip: 0x7f000001, port: 7777 });
    assert_eq!(s.admin.metrics_interval_secs, 30);
}

#[test]
fn proxy_defaults_apply() {
    let tcp = ServerConfig::Tcp { addr: Addr { ip: 0, port: 7474 } };
    let app = AppConfig { proxies: vec![proxy(vec![tcp])], buffer_size: None, admin: None };
    let s = configure(app).unwrap();
    assert_eq!(s.proxies.len(), 1);
    let p = &s.proxies[0];
    assert_eq!(p.label, "web");
    assert_eq!(p.namespace, "default");
    assert_eq!(p.interval_secs, 60);
    assert_eq!(p.max_waiters, 8);
    assert_eq!(p.namerd_addr, Addr { ip: 0x7f000001, port: 4180 });
}

#[test]
fn tls_without_identities_fails_before_anything_runs() {
    let bare_tls = ServerConfig::Tls {
        addr: Addr { ip: 0, port: 7575 },
        alpn_protocols: None,
        default_identity: None,
        identities: Vec::new(),
    };
    let app = AppConfig { proxies: vec![proxy(vec![bare_tls])], buffer_size: None, admin: None };
    assert_eq!(configure(app).unwrap_err(), ConfigError::NoTlsIdentities);
}

#[test]
fn tls_with_default_identity_passes() {
    let tls = ServerConfig::Tls {
        addr: Addr { ip: 0, port: 7575 },
        alpn_protocols: None,
        default_identity: Some(identity("default")),
        identities: Vec::new(),
    };
    let app = AppConfig { proxies: vec![proxy(vec![tls])], buffer_size: None, admin: None };
    assert!(configure(app).is_ok());
}

#[test]
fn sni_picks_named_then_default_then_rejects() {
    let sni = Sni {
        identities: vec![(b"example.com".to_vec(), identity("example"))],
        default_identity: Some(identity("default")),
    };
    assert_eq!(
        sni.select_identity(Some(&b"example.com".to_vec())),
        SniChoice::Named(0),
        "the matching named identity wins"
    );
    assert_eq!(
        sni.select_identity(Some(&b"other.test".to_vec())),
        SniChoice::UseDefault,
        "an unmatched name falls back to the default"
    );
    assert_eq!(
        sni.select_identity(None),
        SniChoice::UseDefault,
        "no server name goes to the default"
    );

    let no_default = Sni {
        identities: vec![(b"example.com".to_vec(), identity("example"))],
        default_identity: None,
    };
    assert_eq!(no_default.select_identity(Some(&b"example.com".to_vec())), SniChoice::Named(0));
    assert_eq!(no_default.select_identity(Some(&b"other.test".to_vec())), SniChoice::Reject);
    assert_eq!(no_default.select_identity(None), SniChoice::Reject);
}
