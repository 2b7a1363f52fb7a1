use noah_kv::service::{http_delete, http_get, http_list, http_set, test_cors, NoahServer};
use noah_kv::store::NanoEngine;

fn sorted(mut keys: Vec<String>) -> Vec<String> {
    keys.sort();
    keys
}

#[test]
fn rpc_set_always_succeeds_with_its_message() {
    let mut server = NoahServer::new();
    let resp = server.set("a", "1".to_string());
    assert!(resp.success);
    assert_eq!(resp.message, "Key 'a' set successfully");
}

#[test]
fn rpc_get_reports_found_as_a_field() {
    let mut server = NoahServer::new();
    server.set("a", "hello".to_string());
    let found = server.get("a");
    assert!(found.found);
    assert_eq!(found.value, "hello");
    let missing = server.get("nope");
    assert!(!missing.found);
    assert_eq!(missing.value, "");
}

#[test]
fn rpc_delete_distinguishes_present_from_absent() {
    let mut server = NoahServer::new();
    server.set("a", "1".to_string());
    let hit = server.delete("a");
    assert!(hit.success);
    assert_eq!(hit.message, "Key 'a' deleted successfully");
    let miss = server.delete("a");
    assert!(!miss.success);
    assert_eq!(miss.message, "Key 'a' not found");
}

#[test]
fn rpc_list_honours_the_prefix() {
    let mut server = NoahServer::new();
    server.set("app1", "1".to_string());
    server.set("zed", "2".to_string());
    let resp = server.list("app");
    assert_eq!(resp.keys, vec!["app1".to_string()]);
    let all = server.list("");
    assert_eq!(sorted(all.keys), vec!["app1".to_string(), "zed".to_string()]);
}

#[test]
fn with_engine_serves_seeded_entries() {
    let mut engine = NanoEngine::new();
    engine.set("seeded", b"value".to_vec());
    let server = NoahServer::with_engine(engine);
    let resp = server.get("seeded");
    assert!(resp.found);
    assert_eq!(resp.value, "value");
}

#[test]
fn http_set_and_get_mirror_the_rpc_outcomes() {
    let mut engine = NanoEngine::new();
    let set_resp = http_set(&mut engine, "a", "1".to_string());
    assert!(set_resp.success);
    assert_eq!(set_resp.message, "Key 'a' set successfully");
    assert!(set_resp.data.is_none());

    let get_resp = http_get(&engine, "a");
    assert!(get_resp.success);
    assert_eq!(get_resp.message, "Key found");
    assert_eq!(get_resp.data, Some("1".to_string()));

    let missing = http_get(&engine, "b");
    assert!(!missing.success);
    assert_eq!(missing.message, "Key not found");
    assert!(missing.data.is_none());
}

#[test]
fn http_delete_mirrors_the_rpc_outcomes() {
    let mut engine = NanoEngine::new();
    engine.set("a", b"1".to_vec());
    let hit = http_delete(&mut engine, "a");
    assert!(hit.success);
    assert_eq!(hit.message, "Key 'a' deleted successfully");
    let miss = http_delete(&mut engine, "a");
    assert!(!miss.success);
    assert_eq!(miss.message, "Key 'a' not found");
}

#[test]
fn http_list_returns_every_key() {
    let mut engine = NanoEngine::new();
    engine.set("x", b"1".to_vec());
    engine.set("y", b"2".to_vec());
    assert_eq!(sorted(http_list(&engine)), vec!["x".to_string(), "y".to_string()]);
}

#[test]
fn invalid_utf8_values_come_back_lossily_over_text() {
    let mut engine = NanoEngine::new();
    engine.set("bin", vec![b'h', b'i', 0xff]);
    let resp = http_get(&engine, "bin");
    assert!(resp.success);
    assert_eq!(resp.data, Some("hi\u{fffd}".to_string()));
    // The store itself keeps the exact bytes.
    assert_eq!(engine.get("bin"), Some(vec![b'h', b'i', 0xff]));
}

#[test]
fn cors_diagnostic_route_is_fixed() {
    assert_eq!(test_cors(), "CORS test successful");
}
