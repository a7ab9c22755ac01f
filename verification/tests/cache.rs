use hitormiss::agent::{execute, registration_accepted, registration_request, serve};
use hitormiss::cache::Cache;
use hitormiss::parser::parse_request;

fn text(reply: Vec<u8>) -> String {
    String::from_utf8(reply).unwrap()
}

fn ask(cache: &mut Cache, request: &str) -> String {
    text(serve(cache, request.as_bytes().to_vec()))
}

#[test]
fn partition_check_if_value_was_added_to_cache() {
    let mut cache = Cache::new(2);
    cache.put(String::from("Name"), String::from("Fjoni"));
    assert_eq!(cache.get("Name").unwrap(), "Fjoni");
}

#[test]
fn a_missing_key_is_not_found() {
    let mut cache = Cache::new(2);
    assert_eq!(cache.get("a"), None);
    cache.put("a".to_string(), "1".to_string());
    assert_eq!(cache.get("b"), None);
    assert_eq!(cache.get("a").as_deref(), Some("1"));
}

#[test]
fn storing_again_overwrites() {
    let mut cache = Cache::new(2);
    cache.put("a".to_string(), "1".to_string());
    cache.put("a".to_string(), "2".to_string());
    assert_eq!(cache.get("a").as_deref(), Some("2"));
    assert_eq!(text(cache.dump()), "Key: a, Value: 2 \n\0");
}

#[test]
fn one_key_too_many_evicts_the_least_recent() {
    let mut cache = Cache::new(3);
    for (k, v) in [("a", "1"), ("b", "2"), ("c", "3"), ("d", "4")] {
        cache.put(k.to_string(), v.to_string());
    }
    assert_eq!(
        text(cache.dump()),
        "Key: d, Value: 4 \nKey: c, Value: 3 \nKey: b, Value: 2 \n\0"
    );
    assert_eq!(cache.get("a"), None);
    assert_eq!(cache.get("b").as_deref(), Some("2"));
    assert_eq!(cache.get("c").as_deref(), Some("3"));
    assert_eq!(cache.get("d").as_deref(), Some("4"));
}

#[test]
fn a_read_refreshes_the_key() {
    let mut cache = Cache::new(2);
    cache.put("a".to_string(), "1".to_string());
    cache.put("b".to_string(), "2".to_string());
    assert_eq!(cache.get("a").as_deref(), Some("1"));
    cache.put("c".to_string(), "3".to_string());
    assert_eq!(cache.get("b"), None);
    assert_eq!(cache.get("a").as_deref(), Some("1"));
    assert_eq!(cache.get("c").as_deref(), Some("3"));
}

#[test]
fn an_overwrite_refreshes_the_key() {
    let mut cache = Cache::new(2);
    cache.put("a".to_string(), "1".to_string());
    cache.put("b".to_string(), "2".to_string());
    cache.put("a".to_string(), "9".to_string());
    cache.put("c".to_string(), "3".to_string());
    assert_eq!(text(cache.dump()), "Key: c, Value: 3 \nKey: a, Value: 9 \n\0");
}

#[test]
fn a_cache_of_one_keeps_the_last_key() {
    let mut cache = Cache::new(1);
    cache.put("a".to_string(), "1".to_string());
    cache.put("b".to_string(), "2".to_string());
    assert_eq!(cache.get("a"), None);
    assert_eq!(cache.get("b").as_deref(), Some("2"));
}

#[test]
fn deleting_removes_and_an_absent_key_is_no_error() {
    let mut cache = Cache::new(2);
    cache.put("a".to_string(), "1".to_string());
    cache.put("b".to_string(), "2".to_string());
    cache.delete("a");
    cache.delete("zzz");
    assert_eq!(cache.get("a"), None);
    assert_eq!(text(cache.dump()), "Key: b, Value: 2 \n\0");
    cache.delete("b");
    assert_eq!(text(cache.dump()), "\0");
}

#[test]
fn a_deleted_key_frees_its_place() {
    let mut cache = Cache::new(2);
    cache.put("a".to_string(), "1".to_string());
    cache.put("b".to_string(), "2".to_string());
    cache.delete("b");
    cache.put("c".to_string(), "3".to_string());
    assert_eq!(text(cache.dump()), "Key: c, Value: 3 \nKey: a, Value: 1 \n\0");
}

#[test]
fn served_requests_get_the_literal_replies() {
    let mut cache = Cache::new(2);
    assert_eq!(ask(&mut cache, "GET missing-key\0"), "MSS missing-key\0");
    assert_eq!(ask(&mut cache, "SET key value\0"), "OK\0");
    assert_eq!(ask(&mut cache, "GET key\0"), "HIT key value\0");
    assert_eq!(ask(&mut cache, "DEL key\0"), "OK\0");
    assert_eq!(ask(&mut cache, "GET key\0"), "MSS key\0");
    assert_eq!(ask(&mut cache, "DEL key\0"), "OK\0");
    assert_eq!(ask(&mut cache, "FOO\0"), "ERR 1 Invalid request: command not found\0");
}

#[test]
fn serving_goes_on_after_an_error() {
    let mut cache = Cache::new(2);
    assert_eq!(ask(&mut cache, "SET a 1\0"), "OK\0");
    assert_eq!(ask(&mut cache, "SET a\0"), "ERR 2 Invalid request: not enough arguments\0");
    assert_eq!(
        text(serve(&mut cache, vec![0xFF, 0])),
        "ERR 4 Invalid request: invalid UTF-8 sequence\0"
    );
    assert_eq!(ask(&mut cache, "GET a\0"), "HIT a 1\0");
}

#[test]
fn a_partition_lists_its_data() {
    let mut cache = Cache::new(2);
    assert_eq!(ask(&mut cache, "LSD\0"), "\0");
    ask(&mut cache, "SET a 1\0");
    ask(&mut cache, "SET b 2\0");
    ask(&mut cache, "GET a\0");
    assert_eq!(ask(&mut cache, "LSD\0"), "Key: a, Value: 1 \nKey: b, Value: 2 \n\0");
}

#[test]
fn a_partition_serves_no_other_command() {
    let mut cache = Cache::new(2);
    let unsupported =
        "ERR 8 Internal error: this command is not supported on this node (partition)\0";
    for request in ["LSP\0", "NTF\0", "ACK\0", "OK\0", "HIT a 1\0", "MSS a\0", "ERR 1 m\0"] {
        assert_eq!(ask(&mut cache, request), unsupported);
    }
    assert_eq!(ask(&mut cache, "LSD\0"), "\0");
}

#[test]
fn a_decoded_request_is_carried_out() {
    let mut cache = Cache::new(2);
    let set = parse_request(b"SET a 1\0".to_vec()).unwrap();
    assert_eq!(text(execute(&mut cache, set)), "OK\0");
    let mut get = parse_request(b"GET a\0".to_vec()).unwrap();
    assert_eq!(text(execute(&mut cache, get.clone())), "HIT a 1\0");
    get.key = None;
    assert_eq!(
        text(execute(&mut cache, get)),
        "ERR 2 Invalid request: not enough arguments\0"
    );
}

#[test]
fn a_served_get_refreshes_the_key() {
    let mut cache = Cache::new(2);
    ask(&mut cache, "SET a 1\0");
    ask(&mut cache, "SET b 2\0");
    assert_eq!(ask(&mut cache, "GET a\0"), "HIT a 1\0");
    ask(&mut cache, "SET c 3\0");
    assert_eq!(ask(&mut cache, "GET b\0"), "MSS b\0");
    assert_eq!(ask(&mut cache, "GET a\0"), "HIT a 1\0");
}

#[test]
fn registration_is_a_notice_answered_by_an_acknowledgement() {
    assert_eq!(registration_request(), b"NTF\0".to_vec());
    assert!(registration_accepted(b"ACK\0".to_vec()));
    let mut padded = b"ACK\0".to_vec();
    padded.resize(4096, 0);
    assert!(registration_accepted(padded));
    assert!(!registration_accepted(b"OK\0".to_vec()));
    assert!(!registration_accepted(b"ERR 9 Internal error: partition unavailable\0".to_vec()));
    assert!(!registration_accepted(b"\0".to_vec()));
    assert!(!registration_accepted(vec![0xFF]));
    assert!(!registration_accepted(vec![]));
}
