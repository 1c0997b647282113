use gossimini::gossip::{GossipProtocol, ProtocolName};
use gossimini::{Ack, MsgId, Payload, SeenCache, TopicId, WireMsg};

#[test]
fn basic_pub_seen_cache() {
    let topic = TopicId::new("room1");
    let msg_id = MsgId::from_bytes([0; 32]);
    let data = vec![1, 2, 3];
    let m1 = WireMsg::Publish {
        topic: topic.clone(),
        msg_id,
        data: Payload(data.clone()),
    };
    let m2 = WireMsg::Publish {
        topic: topic.clone(),
        msg_id,
        data: Payload(data.clone()),
    };
    if let WireMsg::Publish {
        topic: t1,
        data: d1,
        ..
    } = m1.clone()
    {
        if let WireMsg::Publish {
            topic: t2,
            data: d2,
            ..
        } = m2.clone()
        {
            assert_eq!(t1, t2);
            assert_eq!(d1, d2);
        } else {
            panic!("m2 not Publish");
        }
    } else {
        panic!("m1 not Publish");
    }

    // SeenCache duplicate detection
    let mut cache = SeenCache::new(10);
    assert_eq!(cache.insert(&msg_id), true); // first time
    assert_eq!(cache.insert(&msg_id), false); // duplicate
}

#[test]
fn topic_keeps_its_name() {
    let topic = TopicId::new("news");
    assert_eq!(topic.0, String::from("news"));
    assert_eq!(topic, TopicId(String::from("news")));
    assert_ne!(topic, TopicId::new("sport"));
}

#[test]
fn msg_id_keeps_its_bytes() {
    let mut bytes = [0u8; 32];
    bytes[0] = 7;
    bytes[31] = 255;
    let id = MsgId::from_bytes(bytes);
    assert_eq!(id.0, bytes);
    assert_ne!(id, MsgId::from_bytes([0; 32]));
}

#[test]
fn msg_id_of_data_is_its_fnv_digest() {
    let empty = MsgId::from_data(&[]);
    assert_eq!(
        empty.0,
        [
            0x25, 0x23, 0x22, 0x84, 0xe4, 0x9c, 0xf2, 0xcb, 0x24, 0x23, 0x22, 0x84, 0xe4, 0x9c, 0xf2,
            0xcb, 0x27, 0x23, 0x22, 0x84, 0xe4, 0x9c, 0xf2, 0xcb, 0x26, 0x23, 0x22, 0x84, 0xe4, 0x9c,
            0xf2, 0xcb,
        ]
    );
    let a = MsgId::from_data(b"a");
    assert_eq!(a.0[0..8], [0x8c, 0xec, 0x01, 0x86, 0x4c, 0xdc, 0x63, 0xaf]);
    assert_eq!(MsgId::from_data(b"a"), a);
    assert_ne!(MsgId::from_data(b"b"), a);
}

#[test]
fn seen_cache_reports_its_capacity_and_ids() {
    let mut cache = SeenCache::new(3);
    assert_eq!(cache.capacity(), 3);
    assert!(cache.seen().is_empty());
    cache.insert(&id(1));
    cache.insert(&id(2));
    cache.insert(&id(1));
    let mut ids = cache.seen();
    ids.sort_by_key(|m| m.0);
    assert_eq!(ids, vec![id(1), id(2)]);
}

#[test]
fn protocol_name_is_gossimini_req() {
    assert_eq!(GossipProtocol::protocol_name(), b"/gossimini/req/1.0.0");
}

#[test]
fn ack_holds_its_answer() {
    assert!(Ack { ok: true }.ok);
    assert_ne!(Ack { ok: true }, Ack { ok: false });
}

fn id(n: u8) -> MsgId {
    let mut bytes = [0u8; 32];
    bytes[5] = n;
    MsgId::from_bytes(bytes)
}

#[test]
fn seen_cache_empties_when_full() {
    let mut cache = SeenCache::new(2);
    assert!(cache.insert(&id(1)));
    assert!(cache.insert(&id(2)));
    assert!(cache.contains(&id(1)));
    assert!(cache.contains(&id(2)));
    // full: an unseen id replaces all remembered ids
    assert!(cache.insert(&id(3)));
    assert!(!cache.contains(&id(1)));
    assert!(!cache.contains(&id(2)));
    assert!(cache.contains(&id(3)));
    // a known id changes nothing
    assert!(!cache.insert(&id(3)));
    assert!(!cache.contains(&id(2)));
    // forgotten ids are new again; below the capacity nothing is forgotten
    assert!(cache.insert(&id(1)));
    assert!(cache.contains(&id(3)));
    assert!(cache.contains(&id(1)));
}

#[test]
fn seen_cache_of_capacity_zero_keeps_one() {
    let mut cache = SeenCache::new(0);
    assert!(!cache.contains(&id(1)));
    assert!(cache.insert(&id(1)));
    assert!(cache.contains(&id(1)));
    assert!(!cache.insert(&id(1)));
    assert!(cache.insert(&id(2)));
    assert!(cache.contains(&id(2)));
    assert!(!cache.contains(&id(1)));
}

#[test]
fn lru_seen_cache_evicts_least_recent() {
    let mut cache = gossimini::cache::SeenCache::new(2);
    assert!(cache.insert(&id(1)));
    assert!(cache.insert(&id(2)));
    // repeat: refreshes 1, so 2 is now least recent
    assert!(!cache.insert(&id(1)));
    // 3 evicts 2
    assert!(cache.insert(&id(3)));
    assert!(!cache.insert(&id(1)));
    assert!(cache.insert(&id(2)));
    // 2 evicted 3 (1 was refreshed just before)
    assert!(!cache.insert(&id(1)));
    assert!(cache.insert(&id(3)));
}

#[test]
fn lru_seen_cache_of_one() {
    let mut cache = gossimini::cache::SeenCache::new(1);
    assert!(cache.insert(&id(9)));
    assert!(!cache.insert(&id(9)));
    assert!(cache.insert(&id(8)));
    assert!(cache.insert(&id(9)));
}
