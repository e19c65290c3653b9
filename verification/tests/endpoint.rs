use txkv::backend::BackendKind;
use txkv::ds::Config;
use txkv::endpoint::{make_url, resolve_kind, scheme_kind, Endpoint, IntoEndpoint, Journal, Mem};
use txkv::err::Error;

#[test]
fn make_url_joins_scheme_and_path() {
    assert_eq!(make_url("mem", "data"), "mem://data");
    assert_eq!(make_url("journal", "/tmp/db"), "journal:///tmp/db");
    assert_eq!(make_url("mem", ""), "mem://");
}

#[test]
fn scheme_selects_backend() {
    assert_eq!(scheme_kind("mem"), Some(BackendKind::Memory));
    assert_eq!(scheme_kind("journal"), Some(BackendKind::Journal));
    assert_eq!(scheme_kind("tikv"), None);
    assert_eq!(scheme_kind(""), None);
}

#[test]
fn endpoint_resolution_memory() {
    let ep = IntoEndpoint::<Mem>::into_endpoint("data").unwrap();
    assert_eq!(ep.address, "data");
    // resolution goes through the scheme of the parsed URL: this fails if
    // the URL parser or the scheme accessor handed back anything but the
    // normalized scheme
    assert_eq!(resolve_kind(&ep).unwrap(), BackendKind::Memory);
}

#[test]
fn endpoint_resolution_journal() {
    let ep = IntoEndpoint::<Journal>::into_endpoint("wal").unwrap();
    assert_eq!(resolve_kind(&ep).unwrap(), BackendKind::Journal);
}

#[test]
fn unknown_scheme_is_unsupported() {
    let ep = Endpoint {
        endpoint: url::Url::parse("tikv://10.0.0.1:2379").unwrap(),
        address: "10.0.0.1:2379".to_string(),
        config: Config { node_id: String::new() },
    };
    assert!(matches!(resolve_kind(&ep), Err(Error::UnsupportedFeature)));
}

#[test]
fn scheme_is_normalized_to_lower_case() {
    let ep = Endpoint {
        endpoint: url::Url::parse("MEM://x").unwrap(),
        address: "x".to_string(),
        config: Config { node_id: String::new() },
    };
    assert_eq!(resolve_kind(&ep).unwrap(), BackendKind::Memory);
}
