use scrtsync::sources::{SourceConfig, parse_uri};
use scrtsync::sources::vault::VaultSource;
use scrtsync::errors::SourceError;

#[test]
fn file_source_joins_host_and_path() {
    match SourceConfig::new("file://data/secrets.env") {
        Ok(SourceConfig::File(f)) => assert_eq!(f.path, "data/secrets.env"),
        other => panic!("expected a file source, got {:?}", other.is_ok()),
    }
}

#[test]
fn file_source_trims_slashes() {
    match SourceConfig::new("file://dir/sub/") {
        Ok(SourceConfig::File(f)) => assert_eq!(f.path, "dir/sub"),
        _ => panic!("expected a file source"),
    }
}

#[test]
fn k8s_source_reads_context_and_name() {
    match SourceConfig::new("k8s://prod/my-secret") {
        Ok(SourceConfig::K8s(k)) => {
            assert_eq!(k.context, "prod");
            assert_eq!(k.secret_name, "my-secret");
        },
        _ => panic!("expected a k8s source"),
    }
}

#[test]
fn kubernetes_scheme_is_an_alias() {
    match SourceConfig::new("kubernetes://staging/app") {
        Ok(SourceConfig::K8s(k)) => {
            assert_eq!(k.context, "staging");
            assert_eq!(k.secret_name, "app");
        },
        _ => panic!("expected a k8s source"),
    }
}

#[test]
fn std_scheme_builds_stream_source() {
    assert!(matches!(SourceConfig::new("std://"), Ok(SourceConfig::Std(_))));
}

#[test]
fn vault_source_reads_mount_and_path() {
    match SourceConfig::new("vault://secret/myapp") {
        Ok(SourceConfig::Vault(v)) => {
            assert_eq!(v.mount_path, "secret");
            assert_eq!(v.secret_path, "/myapp");
        },
        _ => panic!("expected a vault source"),
    }
}

#[test]
fn vault_url_is_addr_v1_mount_path() {
    let v = match SourceConfig::new("vault://secret/myapp") {
        Ok(SourceConfig::Vault(v)) => v,
        _ => panic!("expected a vault source"),
    };
    assert_eq!(v.url("http://127.0.0.1:8200"), "http://127.0.0.1:8200/v1/secret/myapp");
}

#[test]
fn vault_token_prefers_environment() {
    assert_eq!(
        VaultSource::select_token(Some("env".to_string()), Some("file".to_string())),
        Some("env".to_string())
    );
    assert_eq!(
        VaultSource::select_token(None, Some("file".to_string())),
        Some("file".to_string())
    );
    assert_eq!(VaultSource::select_token(None, None), None);
}

#[test]
fn unknown_scheme_is_rejected_naming_it() {
    match SourceConfig::new("ftp://host/path") {
        Err(SourceError::UnsupportedScheme(s)) => {
            assert_eq!(s, "ftp");
            assert_eq!(
                SourceError::UnsupportedScheme(s).message(),
                "invalid source scheme: 'ftp', supported schemes: file, k8s|kubernetes, std, vault"
            );
        },
        _ => panic!("expected an unsupported-scheme error"),
    }
}

#[test]
fn unparseable_uri_is_rejected() {
    match SourceConfig::new("not a uri") {
        Err(SourceError::UriParse(_)) => {},
        _ => panic!("expected a parse error"),
    }
}

#[test]
fn k8s_missing_host_is_rejected() {
    match SourceConfig::new("k8s:///name") {
        Err(SourceError::Construction(m)) => {
            assert!(
                m == "Kubernetes context cannot be empty"
                    || m == "URL missing host for Kubernetes context"
            );
        },
        _ => panic!("expected a construction error"),
    }
}

#[test]
fn vault_missing_host_is_rejected() {
    match SourceConfig::new("vault:///path") {
        Err(SourceError::Construction(m)) => {
            assert!(m == "Vault URL host cannot be empty" || m == "Vault URL missing host");
        },
        _ => panic!("expected a construction error"),
    }
}

#[test]
fn parse_uri_extracts_parts() {
    let p = parse_uri("vault://mount/a/b?q=1").unwrap();
    assert_eq!(p.scheme, "vault");
    assert_eq!(p.host, Some("mount".to_string()));
    assert_eq!(p.path, "/a/b");
}
