use std::io::Write;

use searchidx::errors::{ErrorLayer, ServerError};
use searchidx::server::{
    make_local_server, Config, CrossrefStep, LocalIndex, TreeConfigPaths, TreeEntry,
};

fn sample_config() -> Config {
    Config {
        trees: vec![
            TreeEntry {
                name: "mozilla-central".to_string(),
                paths: TreeConfigPaths { index_path: "/index/mozilla-central".to_string() },
            },
            TreeEntry {
                name: "comm-central".to_string(),
                paths: TreeConfigPaths { index_path: "/index/comm-central".to_string() },
            },
        ],
    }
}

fn sample_server() -> LocalIndex {
    make_local_server(sample_config(), "mozilla-central", None, false).unwrap()
}

fn gzip(bytes: &[u8]) -> Vec<u8> {
    let mut enc = flate2::write::GzEncoder::new(Vec::new(), flate2::Compression::default());
    enc.write_all(bytes).unwrap();
    enc.finish().unwrap()
}

#[test]
fn known_tree_builds_a_server() {
    let srv = make_local_server(
        sample_config(),
        "comm-central",
        Some(b"abc sym\n".to_vec()),
        true,
    )
    .unwrap();
    assert_eq!(srv.tree_name, "comm-central");
    assert_eq!(srv.config_paths.index_path, "/index/comm-central");
    assert!(srv.has_crossref);
}

#[test]
fn unknown_tree_is_an_input_error() {
    let err = make_local_server(sample_config(), "no-such-tree", None, false).unwrap_err();
    match err {
        ServerError::StickyProblem(d) => {
            assert!(matches!(d.layer, ErrorLayer::BadInput));
            assert_eq!(d.message, "bad tree name: no-such-tree");
        },
        ServerError::Unsupported => panic!("wrong error kind"),
    }
}

#[test]
fn analysis_path_is_pure_formatting() {
    let srv = sample_server();
    let p = srv.translate_analysis_path("dom/base/Node.cpp").unwrap();
    assert_eq!(p, "/index/mozilla-central/analysis/dom/base/Node.cpp.gz");
}

#[test]
fn file_path_is_pure_formatting() {
    let srv = sample_server();
    let p = srv.translate_file_path("dom/base/Node.cpp").unwrap();
    assert_eq!(p, "/index/mozilla-central/file/dom/base/Node.cpp.gz");
}

#[test]
fn ndjson_round_trips_through_gzip() {
    let payload = "{\"kind\":\"def\",\"sym\":\"a\"}\n{\"kind\":\"use\",\"sym\":\"b\"}\n{\"n\":3}\n";
    let srv = sample_server();
    let values = srv.fetch_raw_analysis(&gzip(payload.as_bytes())).unwrap();
    let expected: Vec<serde_json::Value> = payload
        .lines()
        .map(|l| serde_json::from_str(l).unwrap())
        .collect();
    assert_eq!(values.len(), 3);
    assert_eq!(values, expected);
}

#[test]
fn one_malformed_ndjson_line_fails_the_whole_call() {
    let payload = "{\"ok\":1}\nnot json at all\n{\"ok\":2}\n";
    let srv = sample_server();
    let err = srv.fetch_raw_analysis(&gzip(payload.as_bytes())).unwrap_err();
    match err {
        ServerError::StickyProblem(d) => assert!(matches!(d.layer, ErrorLayer::ServerLayer)),
        ServerError::Unsupported => panic!("wrong error kind"),
    }
}

#[test]
fn html_round_trips_through_gzip() {
    let html = "<!DOCTYPE html><html><body>n&auml;ive \u{2603}</body></html>";
    let srv = sample_server();
    let text = srv.fetch_html(&gzip(html.as_bytes())).unwrap();
    assert_eq!(text, html);
}

#[test]
fn corrupt_gzip_is_a_storage_error() {
    let srv = sample_server();
    let err = srv.fetch_html(&b"not gzip at all".to_vec()).unwrap_err();
    match err {
        ServerError::StickyProblem(d) => assert!(matches!(d.layer, ErrorLayer::ServerLayer)),
        ServerError::Unsupported => panic!("wrong error kind"),
    }
}

#[test]
fn search_identifiers_returns_display_id_then_symbol() {
    let srv = make_local_server(
        sample_config(),
        "mozilla-central",
        Some(b"Node _ZNode\nNodeList _ZNodeList\n".to_vec()),
        false,
    )
    .unwrap();
    let found = srv.search_identifiers("node", false, true, 10).unwrap();
    assert_eq!(
        found,
        vec![
            ("Node".to_string(), "_ZNode".to_string()),
            ("NodeList".to_string(), "_ZNodeList".to_string()),
        ]
    );
}

#[test]
fn search_on_absent_index_is_empty_not_an_error() {
    let srv = sample_server();
    let found = srv.search_identifiers("anything", false, true, 5).unwrap();
    assert!(found.is_empty());
}

#[test]
fn crossref_without_map_answers_null() {
    let srv = make_local_server(sample_config(), "mozilla-central", None, false).unwrap();
    assert_eq!(srv.crossref_lookup(), CrossrefStep::UseNull);
    let with_map = make_local_server(sample_config(), "mozilla-central", None, true).unwrap();
    assert_eq!(with_map.crossref_lookup(), CrossrefStep::ConsultMap);
}

#[test]
fn perform_query_is_always_unsupported() {
    let srv = sample_server();
    assert!(matches!(srv.perform_query(""), Err(ServerError::Unsupported)));
    assert!(matches!(
        srv.perform_query("search-identifiers --needle foo"),
        Err(ServerError::Unsupported)
    ));
}

#[test]
fn empty_gzip_payload_yields_no_records() {
    let srv = sample_server();
    let values = srv.fetch_raw_analysis(&gzip(b"")).unwrap();
    assert!(values.is_empty());
}
