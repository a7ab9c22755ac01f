use hash_ring::HashRing;
use hitormiss::registry::{describe_all, Partition};
use hitormiss::router::{all_different, holds_number, positions_of, share_number, Router};
use std::hash::Hasher;

fn node(port: u16) -> Partition {
    Partition::new(
        format!("id-{}", port),
        format!("127.0.0.1:{}", port),
        port as u64,
        "2024-01-02 03:04:05.678".to_string(),
    )
}

fn keys() -> Vec<String> {
    let mut keys = Vec::new();
    for i in 0..300 {
        keys.push(format!("key-{}", i));
    }
    keys.push("".to_string());
    keys.push("a key with spaces".to_string());
    keys.push("clé".to_string());
    keys
}

fn listing(router: &Router) -> String {
    describe_all(&router.list())
}

fn owner(router: &Router, key: &str) -> Option<String> {
    router.lookup(key).map(|p| p.addr.clone())
}

#[test]
fn an_empty_ring_finds_nobody() {
    let router = Router::new(3);
    assert_eq!(router.len(), 0);
    for key in keys() {
        assert!(router.lookup(&key).is_none());
    }
}

#[test]
fn a_ring_without_replicas_finds_nobody() {
    let mut router = Router::new(0);
    assert!(router.register(node(1)).is_none());
    assert_eq!(router.len(), 1);
    assert!(router.lookup("a").is_none());
    assert!(router.unregister("127.0.0.1:1"));
    assert_eq!(router.len(), 0);
}

#[test]
fn a_single_member_owns_every_key() {
    let mut router = Router::new(1);
    assert!(router.register(node(7000)).is_none());
    for key in keys() {
        let found = router.lookup(&key).unwrap();
        assert_eq!(found.addr, "127.0.0.1:7000");
        assert_eq!(found.id, "id-7000");
        assert_eq!(found.conn, 7000);
    }
}

#[test]
fn the_same_key_finds_the_same_member() {
    let mut router = Router::new(5);
    for port in 7000..7008 {
        assert!(router.register(node(port)).is_none());
    }
    for key in keys() {
        let first = owner(&router, &key);
        assert!(first.is_some());
        for _ in 0..3 {
            assert_eq!(owner(&router, &key), first);
        }
    }
}

#[test]
fn the_order_of_joining_does_not_matter() {
    let mut forward = Router::new(4);
    let mut backward = Router::new(4);
    for port in 7000..7006 {
        forward.register(node(port));
    }
    for port in (7000..7006).rev() {
        backward.register(node(port));
    }
    for key in keys() {
        assert_eq!(owner(&forward, &key), owner(&backward, &key));
    }
}

#[test]
fn members_are_found_as_the_ring_of_addresses_finds_them() {
    for replicas in [1u16, 2, 10] {
        let mut router = Router::new(replicas);
        let mut ring: HashRing<String> = HashRing::new(Vec::new(), replicas as isize);
        for port in 7000..7010 {
            router.register(node(port));
            ring.add_node(&format!("127.0.0.1:{}", port));
        }
        let mut owners = std::collections::HashSet::new();
        for key in keys() {
            let expected = ring.get_node(key.clone()).cloned();
            assert_eq!(owner(&router, &key), expected);
            owners.insert(expected);
        }
        assert!(owners.len() > 1);
        router.unregister("127.0.0.1:7003");
        ring.remove_node(&"127.0.0.1:7003".to_string());
        for key in keys() {
            assert_eq!(owner(&router, &key), ring.get_node(key.clone()).cloned());
        }
    }
}

#[test]
fn removing_a_member_moves_only_its_own_keys() {
    let mut router = Router::new(3);
    for port in 7000..7006 {
        router.register(node(port));
    }
    let before: Vec<Option<String>> = keys().iter().map(|k| owner(&router, k)).collect();
    assert!(router.unregister("127.0.0.1:7002"));
    let mut moved = 0;
    for (key, was) in keys().iter().zip(before.iter()) {
        let now = owner(&router, key);
        if was.as_deref() == Some("127.0.0.1:7002") {
            assert_ne!(now.as_deref(), Some("127.0.0.1:7002"));
            assert!(now.is_some());
            moved += 1;
        } else {
            assert_eq!(&now, was);
        }
    }
    assert!(moved > 0);
}

#[test]
fn a_member_that_joins_takes_keys_only_for_itself() {
    let mut router = Router::new(3);
    for port in 7000..7004 {
        router.register(node(port));
    }
    let before: Vec<Option<String>> = keys().iter().map(|k| owner(&router, k)).collect();
    router.register(node(7004));
    for (key, was) in keys().iter().zip(before.iter()) {
        let now = owner(&router, key);
        assert!(&now == was || now.as_deref() == Some("127.0.0.1:7004"));
    }
}

#[test]
fn removing_the_last_member_empties_the_ring() {
    let mut router = Router::new(2);
    router.register(node(1));
    assert!(router.unregister("127.0.0.1:1"));
    assert!(!router.unregister("127.0.0.1:1"));
    assert_eq!(router.len(), 0);
    assert!(router.lookup("a").is_none());
    assert!(router.register(node(1)).is_none());
    assert_eq!(owner(&router, "a").as_deref(), Some("127.0.0.1:1"));
}

#[test]
fn removing_a_stranger_changes_nothing() {
    let mut router = Router::new(2);
    router.register(node(1));
    router.register(node(2));
    let before: Vec<Option<String>> = keys().iter().map(|k| owner(&router, k)).collect();
    assert!(!router.unregister("127.0.0.1:3"));
    assert_eq!(router.len(), 2);
    let after: Vec<Option<String>> = keys().iter().map(|k| owner(&router, k)).collect();
    assert_eq!(before, after);
}

#[test]
fn registering_an_address_again_replaces_its_record() {
    let mut router = Router::new(2);
    router.register(node(1));
    router.register(node(2));
    let before: Vec<Option<String>> = keys().iter().map(|k| owner(&router, k)).collect();
    let again = Partition::new(
        "other-id".to_string(),
        "127.0.0.1:1".to_string(),
        99,
        "later".to_string(),
    );
    let replaced = router.register(again).unwrap();
    assert_eq!(replaced.id, "id-1");
    assert_eq!(replaced.conn, 1);
    assert_eq!(router.len(), 2);
    let record = router.partition("127.0.0.1:1").unwrap();
    assert_eq!(record.id, "other-id");
    assert_eq!(record.conn, 99);
    let after: Vec<Option<String>> = keys().iter().map(|k| owner(&router, k)).collect();
    assert_eq!(before, after);
    assert!(router.unregister("127.0.0.1:1"));
    for key in keys() {
        assert_eq!(owner(&router, &key).as_deref(), Some("127.0.0.1:2"));
    }
}

#[test]
fn records_are_found_by_address() {
    let mut router = Router::new(1);
    assert!(router.partition("127.0.0.1:1").is_none());
    router.register(node(1));
    router.register(node(2));
    assert_eq!(router.partition("127.0.0.1:2").unwrap().id, "id-2");
    assert!(router.partition("127.0.0.1:3").is_none());
}

#[test]
fn nodes_are_the_same_by_address_alone() {
    let a = node(1);
    let mut b = node(1);
    b.id = "another".to_string();
    b.conn = 5;
    b.time_joined = "never".to_string();
    assert!(a.same_node(&b));
    assert!(!a.same_node(&node(2)));
    assert_eq!(a.to_string(), "127.0.0.1:1");
    let copy = b.duplicate();
    assert_eq!(copy.id, "another");
    assert_eq!(copy.addr, "127.0.0.1:1");
    assert_eq!(copy.conn, 5);
    assert_eq!(copy.time_joined, "never");
}

#[test]
fn a_listing_shows_the_members_in_the_order_of_their_addresses() {
    let mut router = Router::new(1);
    assert_eq!(listing(&router), "[]");
    router.register(node(2));
    assert_eq!(
        listing(&router),
        "[Partition { id: id-2, addr: \"127.0.0.1:2\", time_joined: \"2024-01-02 03:04:05.678\" }]"
    );
    router.register(node(1));
    router.register(node(10));
    let addresses: Vec<String> = router.list().iter().map(|p| p.addr.clone()).collect();
    assert_eq!(addresses, vec!["127.0.0.1:1", "127.0.0.1:10", "127.0.0.1:2"]);
    router.unregister("127.0.0.1:10");
    assert_eq!(
        listing(&router),
        "[Partition { id: id-1, addr: \"127.0.0.1:1\", time_joined: \"2024-01-02 03:04:05.678\" }, \
         Partition { id: id-2, addr: \"127.0.0.1:2\", time_joined: \"2024-01-02 03:04:05.678\" }]"
    );
}

#[test]
fn every_new_address_joins() {
    let mut router = Router::new(10);
    for port in 7000..7050 {
        assert!(router.register(node(port)).is_none());
        assert!(router.partition(&format!("127.0.0.1:{}", port)).is_some());
    }
    assert_eq!(router.len(), 50);
    for key in keys() {
        assert!(router.lookup(&key).is_some());
    }
}

#[test]
fn quoted_fields_are_escaped() {
    let odd = Partition::new("i".to_string(), "a\"b\\c\n".to_string(), 0, "t\t".to_string());
    assert_eq!(
        odd.describe(),
        "Partition { id: i, addr: \"a\\\"b\\\\c\\n\", time_joined: \"t\\t\" }"
    );
    assert_eq!(describe_all(&vec![]), "[]");
}

#[test]
fn positions_are_the_hashes_of_address_and_index() {
    let positions = positions_of("127.0.0.1:7000", 12);
    assert_eq!(positions.len(), 12);
    for (i, p) in positions.iter().enumerate() {
        let mut hasher = twox_hash::XxHash64::default();
        hasher.write(format!("127.0.0.1:7000:{}", i).as_bytes());
        assert_eq!(*p, hasher.finish());
    }
    assert_eq!(positions_of("x", 0), Vec::<u64>::new());
    assert_ne!(positions_of("a", 1), positions_of("b", 1));
}

#[test]
fn numbers_in_lists() {
    assert!(all_different(&vec![]));
    assert!(all_different(&vec![3]));
    assert!(all_different(&vec![3, 1, 2]));
    assert!(!all_different(&vec![3, 1, 3]));
    assert!(!all_different(&vec![1, 2, 2]));
    assert!(holds_number(&vec![1, 2, 3], 0, 1));
    assert!(!holds_number(&vec![1, 2, 3], 1, 1));
    assert!(holds_number(&vec![1, 2, 3], 2, 3));
    assert!(!holds_number(&vec![1, 2, 3], 3, 3));
    assert!(!share_number(&vec![1, 2], &vec![3, 4]));
    assert!(share_number(&vec![1, 2], &vec![3, 2]));
    assert!(!share_number(&vec![], &vec![1]));
    assert!(!share_number(&vec![1], &vec![]));
}

#[test]
fn members_come_and_go_in_any_order() {
    let mut router = Router::new(4);
    let mut ring: HashRing<String> = HashRing::new(Vec::new(), 4);
    let ports = [7005u16, 7001, 7009, 7003, 7007, 7000, 7008];
    for port in ports {
        router.register(node(port));
    }
    let mut sorted = ports.to_vec();
    sorted.sort();
    for port in sorted {
        ring.add_node(&format!("127.0.0.1:{}", port));
    }
    for key in keys() {
        assert_eq!(owner(&router, &key), ring.get_node(key.clone()).cloned());
    }
    for port in [7009u16, 7000, 7005] {
        assert!(router.unregister(&format!("127.0.0.1:{}", port)));
        ring.remove_node(&format!("127.0.0.1:{}", port));
        for key in keys() {
            assert_eq!(owner(&router, &key), ring.get_node(key.clone()).cloned());
        }
    }
    assert_eq!(router.len(), 4);
}

#[test]
fn a_ring_made_anew_finds_the_same_members() {
    let mut router = Router::new(3);
    let mut ring: HashRing<String> = HashRing::new(Vec::new(), 3);
    for port in [7004u16, 7002, 7003, 7001] {
        router.register(node(port));
    }
    for port in 7001..7005 {
        ring.add_node(&format!("127.0.0.1:{}", port));
    }
    let before: Vec<Option<String>> = keys().iter().map(|k| owner(&router, k)).collect();
    router.rebuild();
    assert_eq!(router.len(), 4);
    for (key, was) in keys().iter().zip(before.iter()) {
        assert_eq!(&owner(&router, key), was);
        assert_eq!(owner(&router, key), ring.get_node(key.clone()).cloned());
    }
    router.unregister("127.0.0.1:7002");
    router.rebuild();
    ring.remove_node(&"127.0.0.1:7002".to_string());
    for key in keys() {
        assert_eq!(owner(&router, &key), ring.get_node(key.clone()).cloned());
    }
    let mut empty = Router::new(3);
    empty.rebuild();
    assert!(empty.lookup("a").is_none());
}
