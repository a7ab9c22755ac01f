use hitormiss::agent::{registration_accepted, registration_request, serve};
use hitormiss::cache::Cache;
use hitormiss::error::ErrorCode;
use hitormiss::master::{
    conclude_forward, forward_to_partition, handle_connection, handle_failed_forward,
    handle_list, handle_notify, unregister_partition, Decision, ForwardOutcome,
};
use hitormiss::parser::{parse_request, ParsedRequest};
use hitormiss::registry::Partition;
use hitormiss::router::Router;

fn node(port: u16) -> Partition {
    Partition::new(
        format!("id-{}", port),
        format!("127.0.0.1:{}", port),
        port as u64,
        "2024-01-02 03:04:05.678".to_string(),
    )
}

fn text(reply: Vec<u8>) -> String {
    String::from_utf8(reply).unwrap()
}

fn decide(router: &Router, request: &str) -> Decision {
    let mut buffer = request.as_bytes().to_vec();
    buffer.resize(4096, 0);
    handle_connection(router, buffer)
}

fn reply_of(decision: Decision) -> String {
    match decision {
        Decision::Reply(bytes) => text(bytes),
        Decision::Reject { .. } => panic!("rejected"),
        Decision::Forward { .. } => panic!("forwarded"),
        Decision::Register => panic!("registration"),
    }
}

fn forward_of(decision: Decision) -> (Partition, ParsedRequest, Vec<u8>) {
    match decision {
        Decision::Forward { partition, request, bytes } => (partition, request, bytes),
        Decision::Reply(bytes) => panic!("replied {}", text(bytes)),
        Decision::Reject { .. } => panic!("rejected"),
        Decision::Register => panic!("registration"),
    }
}

const NO_PARTITION: &str = "ERR 6 Internal error: no partition found\0";
const UNSUPPORTED: &str =
    "ERR 7 Internal error: this command is not supported on this node (master)\0";

#[test]
fn without_partitions_data_requests_are_answered_by_an_error() {
    let router = Router::new(3);
    for request in ["GET a\0", "SET a 1\0", "DEL a\0", "GET a b c\0"] {
        assert_eq!(reply_of(decide(&router, request)), NO_PARTITION);
    }
}

#[test]
fn after_the_last_partition_left_data_requests_are_answered_by_an_error() {
    let mut router = Router::new(3);
    handle_notify(&mut router, node(1));
    unregister_partition(&mut router, &node(1));
    for request in ["GET a\0", "SET a 1\0", "DEL a\0"] {
        assert_eq!(reply_of(decide(&router, request)), NO_PARTITION);
    }
}

#[test]
fn a_request_that_does_not_decode_is_rejected_with_its_error() {
    let router = Router::new(1);
    match decide(&router, "FOO\0") {
        Decision::Reject { reply, error } => {
            assert_eq!(text(reply), "ERR 1 Invalid request: command not found\0");
            assert_eq!(error.code, ErrorCode::InvalidRequestCmd);
            assert_eq!(error.msg, "Invalid request: command not found");
        }
        _ => panic!("not rejected"),
    }
    match decide(&router, "SET a\0") {
        Decision::Reject { reply, error } => {
            assert_eq!(text(reply), "ERR 2 Invalid request: not enough arguments\0");
            assert_eq!(error.code, ErrorCode::NotEnoughArgs);
        }
        _ => panic!("not rejected"),
    }
    match handle_connection(&router, vec![0xC0, 0x80]) {
        Decision::Reject { reply, error } => {
            assert_eq!(text(reply), "ERR 4 Invalid request: invalid UTF-8 sequence\0");
            assert_eq!(error.code, ErrorCode::InvalidSequence);
        }
        _ => panic!("not rejected"),
    }
}

#[test]
fn the_master_does_not_serve_partition_commands() {
    let mut router = Router::new(1);
    handle_notify(&mut router, node(1));
    for request in ["LSD\0", "LSD a\0", "ACK\0", "OK\0", "HIT a 1\0", "MSS a\0", "ERR 1 m\0"] {
        assert_eq!(reply_of(decide(&router, request)), UNSUPPORTED);
    }
}

#[test]
fn a_notice_asks_for_registration() {
    let router = Router::new(1);
    assert!(matches!(decide(&router, "NTF\0"), Decision::Register));
}

#[test]
fn registration_is_acknowledged() {
    let mut router = Router::new(2);
    let first = handle_notify(&mut router, node(1));
    assert_eq!(first.reply, b"ACK\0".to_vec());
    assert!(first.replaced.is_none());
    assert_eq!(router.len(), 1);
    assert_eq!(router.partition("127.0.0.1:1").unwrap().conn, 1);
    let mut again = node(1);
    again.conn = 77;
    let second = handle_notify(&mut router, again);
    assert_eq!(second.reply, b"ACK\0".to_vec());
    assert_eq!(second.replaced.unwrap().conn, 1);
    assert_eq!(router.len(), 1);
    assert_eq!(router.partition("127.0.0.1:1").unwrap().conn, 77);
    let third = handle_notify(&mut router, node(2));
    assert_eq!(third.reply, b"ACK\0".to_vec());
    assert!(third.replaced.is_none());
    assert_eq!(router.len(), 2);
}

#[test]
fn the_listing_is_an_lsp_frame() {
    let mut router = Router::new(1);
    assert_eq!(text(handle_list(&router)), "LSP []\0");
    assert_eq!(reply_of(decide(&router, "LSP\0")), "LSP []\0");
    handle_notify(&mut router, node(1));
    assert_eq!(
        reply_of(decide(&router, "LSP\0")),
        "LSP [Partition { id: id-1, addr: \"127.0.0.1:1\", time_joined: \"2024-01-02 \
         03:04:05.678\" }]\0"
    );
}

#[test]
fn a_data_request_is_forwarded_as_it_was_received() {
    let mut router = Router::new(2);
    handle_notify(&mut router, node(1));
    let (partition, request, bytes) = forward_of(decide(&router, "SET a 1\0"));
    assert_eq!(partition.addr, "127.0.0.1:1");
    assert_eq!(partition.conn, 1);
    assert_eq!(bytes, b"SET a 1\0".to_vec());
    assert_eq!(request.original_rq, "SET a 1");
    let (_, request, bytes) = forward_of(decide(&router, "SET a\tsome  value\n\0"));
    assert_eq!(bytes, b"SET a\tsome  value\n\0".to_vec());
    assert_eq!(request.original_rq, "SET a\tsome  value\n");
    assert_eq!(request.key.as_deref(), Some("a"));
    assert_eq!(request.value.as_deref(), Some("some  value"));
}

#[test]
fn a_request_goes_to_the_partition_that_the_ring_finds() {
    let mut router = Router::new(3);
    for port in 1..6 {
        handle_notify(&mut router, node(port));
    }
    for key in ["a", "b", "c", "d", "e", "f", "g"] {
        let expected = router.lookup(key).unwrap().addr.clone();
        for command in ["GET", "DEL"] {
            let (partition, _, _) = forward_of(decide(&router, &format!("{} {}\0", command, key)));
            assert_eq!(partition.addr, expected);
        }
        let (partition, _, _) = forward_of(decide(&router, &format!("SET {} 1\0", key)));
        assert_eq!(partition.addr, expected);
    }
}

#[test]
fn a_request_without_key_finds_no_partition() {
    let mut router = Router::new(1);
    handle_notify(&mut router, node(1));
    let mut request = parse_request(b"GET a\0".to_vec()).unwrap();
    request.key = None;
    assert_eq!(reply_of(forward_to_partition(&router, request)), NO_PARTITION);
}

#[test]
fn an_answer_is_passed_on_unchanged() {
    let mut router = Router::new(1);
    handle_notify(&mut router, node(1));
    let (partition, request, _) = forward_of(decide(&router, "GET a\0"));
    let answer = vec![b'H', b'I', b'T', b' ', 0xFF, 0, 7];
    let outcome = ForwardOutcome::Replied(answer.clone());
    assert!(!outcome.failed());
    let conclusion = conclude_forward(&mut router, &partition, &request, outcome);
    assert_eq!(conclusion.reply, Some(answer));
    assert!(!conclusion.evicted);
    assert_eq!(router.len(), 1);
}

#[test]
fn a_failed_forward_evicts_and_falls_back() {
    let outcomes: Vec<fn() -> ForwardOutcome> = vec![
        || ForwardOutcome::WriteFailed,
        || ForwardOutcome::ReadFailed,
        || ForwardOutcome::Replied(Vec::new()),
    ];
    for outcome in outcomes {
        for (request, fallback) in
            [("GET a key\0", "MSS a key\0"), ("SET a 1\0", "OK\0"), ("DEL a\0", "OK\0")]
        {
            let mut router = Router::new(2);
            handle_notify(&mut router, node(1));
            let (partition, parsed, _) = forward_of(decide(&router, request));
            assert!(outcome().failed());
            let conclusion = conclude_forward(&mut router, &partition, &parsed, outcome());
            assert!(conclusion.evicted);
            assert_eq!(conclusion.reply.map(text).as_deref(), Some(fallback));
            assert_eq!(router.len(), 0);
            assert!(router.partition("127.0.0.1:1").is_none());
            assert_eq!(reply_of(decide(&router, "LSP\0")), "LSP []\0");
            assert_eq!(reply_of(decide(&router, request)), NO_PARTITION);
        }
    }
}

#[test]
fn after_an_eviction_the_others_keep_their_keys() {
    let mut router = Router::new(3);
    for port in 1..5 {
        handle_notify(&mut router, node(port));
    }
    let keys: Vec<String> = (0..100).map(|i| format!("k{}", i)).collect();
    let before: Vec<String> = keys.iter().map(|k| router.lookup(k).unwrap().addr.clone()).collect();
    let (partition, request, _) = forward_of(decide(&router, "GET k0\0"));
    let gone = partition.addr.clone();
    let conclusion =
        conclude_forward(&mut router, &partition, &request, ForwardOutcome::ReadFailed);
    assert_eq!(conclusion.reply.map(text).as_deref(), Some("MSS k0\0"));
    assert_eq!(router.len(), 3);
    assert!(router.list().iter().all(|p| p.addr != gone));
    assert!(!text(handle_list(&router)).contains(&format!("\"{}\"", gone)));
    for (key, was) in keys.iter().zip(before.iter()) {
        let now = router.lookup(key).unwrap().addr.clone();
        if was == &gone {
            assert_ne!(now, gone);
        } else {
            assert_eq!(&now, was);
        }
    }
}

#[test]
fn fallback_replies() {
    let get = parse_request(b"GET k\0".to_vec()).unwrap();
    assert_eq!(handle_failed_forward(&get).map(text).as_deref(), Some("MSS k\0"));
    let mut keyless = get.clone();
    keyless.key = None;
    assert_eq!(
        handle_failed_forward(&keyless).map(text).as_deref(),
        Some("ERR 10 Internal error: unknown error\0")
    );
    let set = parse_request(b"SET k v\0".to_vec()).unwrap();
    assert_eq!(handle_failed_forward(&set).map(text).as_deref(), Some("OK\0"));
    let del = parse_request(b"DEL k\0".to_vec()).unwrap();
    assert_eq!(handle_failed_forward(&del).map(text).as_deref(), Some("OK\0"));
    let lsd = parse_request(b"LSD\0".to_vec()).unwrap();
    assert_eq!(handle_failed_forward(&lsd), None);
}

#[test]
fn a_partition_registers_and_serves_through_the_master() {
    let mut router = Router::new(1);
    let mut cache = Cache::new(2);

    let notice = registration_request();
    assert!(matches!(handle_connection(&router, notice), Decision::Register));
    let ack = handle_notify(&mut router, node(9)).reply;
    assert_eq!(ack, b"ACK\0".to_vec());
    assert!(registration_accepted(ack));

    let (partition, request, bytes) = forward_of(decide(&router, "SET a 1\0"));
    assert_eq!(partition.conn, 9);
    assert_eq!(bytes, b"SET a 1\0".to_vec());
    let answer = serve(&mut cache, bytes);
    assert_eq!(answer, b"OK\0".to_vec());
    let reply =
        conclude_forward(&mut router, &partition, &request, ForwardOutcome::Replied(answer)).reply;
    assert_eq!(reply, Some(b"OK\0".to_vec()));

    let (partition, request, bytes) = forward_of(decide(&router, "GET a\0"));
    assert_eq!(partition.conn, 9);
    let answer = serve(&mut cache, bytes);
    let reply =
        conclude_forward(&mut router, &partition, &request, ForwardOutcome::Replied(answer)).reply;
    assert_eq!(reply, Some(b"HIT a 1\0".to_vec()));
}
