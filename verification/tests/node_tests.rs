use gossimini::node::{NodeState, Outgoing, PeerKey, MESH_D, MESH_D_HIGH, MESH_D_LOW};
use gossimini::{MsgId, Payload, TopicId, WireMsg};

fn peer(n: u8) -> PeerKey {
    vec![0, 36, 8, 1, 18, 32, n]
}

fn publish(topic: &str, data: &[u8]) -> WireMsg {
    WireMsg::Publish {
        topic: TopicId::new(topic),
        msg_id: MsgId::from_data(data),
        data: Payload(data.to_vec()),
    }
}

fn ihave(topic: &str, data: &[u8]) -> WireMsg {
    WireMsg::IHave { topic: TopicId::new(topic), msg_id: MsgId::from_data(data) }
}

fn targets_of(out: &[Outgoing], msg: &WireMsg) -> Vec<PeerKey> {
    let mut t: Vec<PeerKey> = out.iter().filter(|o| &o.msg == msg).map(|o| o.to.clone()).collect();
    t.sort();
    t
}

fn mesh_of(node: &NodeState, topic: &str) -> Vec<PeerKey> {
    let entry = node.peer_subs.iter().find(|e| e.topic == TopicId::new(topic)).expect("topic entry");
    let mut m = entry.mesh.clone();
    m.sort();
    m
}

#[test]
fn new_node_is_subscribed_to_news() {
    let node = NodeState::new();
    assert_eq!(node.local_subs, vec![TopicId::new("news")]);
    assert!(node.peer_subs.is_empty());
    assert!(node.autosub.is_none());
    assert!(node.autopub.is_none());
    assert!(node.peers.is_empty());
    assert!(node.recent.is_empty());
    assert_eq!(node.seen.capacity(), 4096);
    assert!(node.seen.seen().is_empty());
}

#[test]
fn subscriptions_are_listed_once() {
    let mut node = NodeState::new();
    node.peer_subscribe(peer(1), TopicId::new("room"));
    node.peer_subscribe(peer(2), TopicId::new("room"));
    node.peer_subscribe(peer(1), TopicId::new("room"));
    node.peer_subscribe(peer(3), TopicId::new("other"));
    let mut listed = node.subscribed_peers(&TopicId::new("room"));
    listed.sort();
    assert_eq!(listed, vec![peer(1), peer(2)]);
    assert_eq!(node.subscribed_peers(&TopicId::new("other")), vec![peer(3)]);
    assert!(node.subscribed_peers(&TopicId::new("none")).is_empty());
}

#[test]
fn unsubscribe_forgets_the_whole_topic() {
    let mut node = NodeState::new();
    node.peer_subscribe(peer(1), TopicId::new("room"));
    node.peer_subscribe(peer(2), TopicId::new("room"));
    node.peer_subscribe(peer(2), TopicId::new("other"));
    node.peer_unsubscribe(peer(1), &TopicId::new("room"));
    assert!(node.subscribed_peers(&TopicId::new("room")).is_empty());
    assert_eq!(node.subscribed_peers(&TopicId::new("other")), vec![peer(2)]);
    node.peer_unsubscribe(peer(2), &TopicId::new("none"));
    assert_eq!(node.subscribed_peers(&TopicId::new("other")), vec![peer(2)]);
}

#[test]
fn subscribe_request_is_recorded_and_acked() {
    let mut node = NodeState::new();
    let reply = node.on_request(peer(4), WireMsg::Subscribe { topic: TopicId::new("room") }, true);
    assert!(reply.ack.ok);
    assert!(reply.forward.is_empty());
    assert_eq!(node.subscribed_peers(&TopicId::new("room")), vec![peer(4)]);
    let reply = node.on_request(peer(5), WireMsg::Unsubscribe { topic: TopicId::new("room") }, true);
    assert!(reply.ack.ok);
    assert!(reply.forward.is_empty());
    assert!(node.subscribed_peers(&TopicId::new("room")).is_empty());
}

#[test]
fn publication_goes_in_full_to_the_mesh_and_as_ihave_to_the_rest() {
    let mut node = NodeState::new();
    for n in 1..=4 {
        node.peer_subscribe(peer(n), TopicId::new("room"));
    }
    node.on_request(peer(1), WireMsg::Graft { topic: TopicId::new("room") }, true);
    node.on_request(peer(2), WireMsg::Graft { topic: TopicId::new("room") }, true);
    let msg = publish("room", &[1, 2, 3]);
    let reply = node.on_request(peer(2), msg.clone(), true);
    assert!(reply.ack.ok);
    assert_eq!(reply.forward.len(), 3);
    assert_eq!(targets_of(&reply.forward, &msg), vec![peer(1)]);
    assert_eq!(targets_of(&reply.forward, &ihave("room", &[1, 2, 3])), vec![peer(3), peer(4)]);
    assert!(node.seen.contains(&MsgId::from_data(&[1, 2, 3])));
    // the same publication again is acknowledged but not spread
    let again = node.on_request(peer(3), msg, true);
    assert!(again.ack.ok);
    assert!(again.forward.is_empty());
}

#[test]
fn publication_with_a_wrong_id_is_refused() {
    let mut node = NodeState::new();
    node.peer_subscribe(peer(1), TopicId::new("room"));
    let wrong = MsgId::from_bytes([7; 32]);
    let msg = WireMsg::Publish { topic: TopicId::new("room"), msg_id: wrong, data: Payload(vec![1]) };
    let reply = node.on_request(peer(2), msg, true);
    assert!(!reply.ack.ok);
    assert!(reply.forward.is_empty());
    assert!(!node.seen.contains(&wrong));
    assert!(node.recent.is_empty());
}

#[test]
fn publication_rejected_by_its_hook_is_neither_kept_nor_spread() {
    let mut node = NodeState::new();
    node.peer_subscribe(peer(1), TopicId::new("room"));
    let reply = node.on_request(peer(2), publish("room", &[5]), false);
    assert!(!reply.ack.ok);
    assert!(reply.forward.is_empty());
    assert!(!node.seen.contains(&MsgId::from_data(&[5])));
    assert!(node.recent.is_empty());
    // once accepted it spreads
    let reply = node.on_request(peer(2), publish("room", &[5]), true);
    assert!(reply.ack.ok);
    assert_eq!(reply.forward.len(), 1);
}

#[test]
fn ihave_of_an_unseen_message_is_answered_by_iwant() {
    let mut node = NodeState::new();
    let id = MsgId::from_data(&[9]);
    let reply = node.on_request(peer(1), WireMsg::IHave { topic: TopicId::new("room"), msg_id: id }, true);
    assert!(reply.ack.ok);
    assert_eq!(reply.forward.len(), 1);
    assert_eq!(reply.forward[0].to, peer(1));
    assert_eq!(reply.forward[0].msg, WireMsg::IWant { msg_id: id });
    node.on_request(peer(1), publish("room", &[9]), true);
    let reply = node.on_request(peer(2), WireMsg::IHave { topic: TopicId::new("room"), msg_id: id }, true);
    assert!(reply.forward.is_empty());
}

#[test]
fn iwant_is_answered_with_the_kept_publication() {
    let mut node = NodeState::new();
    let id = MsgId::from_data(&[4, 4]);
    let reply = node.on_request(peer(3), WireMsg::IWant { msg_id: id }, true);
    assert!(reply.ack.ok);
    assert!(reply.forward.is_empty());
    node.on_request(peer(1), publish("room", &[4, 4]), true);
    assert_eq!(node.recent.len(), 1);
    let reply = node.on_request(peer(3), WireMsg::IWant { msg_id: id }, true);
    assert_eq!(reply.forward.len(), 1);
    assert_eq!(reply.forward[0].to, peer(3));
    assert_eq!(reply.forward[0].msg, publish("room", &[4, 4]));
}

#[test]
fn graft_and_prune_change_the_mesh() {
    let mut node = NodeState::new();
    node.on_request(peer(1), WireMsg::Graft { topic: TopicId::new("room") }, true);
    assert_eq!(node.subscribed_peers(&TopicId::new("room")), vec![peer(1)]);
    assert_eq!(mesh_of(&node, "room"), vec![peer(1)]);
    node.on_request(peer(1), WireMsg::Prune { topic: TopicId::new("room") }, true);
    assert_eq!(node.subscribed_peers(&TopicId::new("room")), vec![peer(1)]);
    assert!(mesh_of(&node, "room").is_empty());
}

#[test]
fn heartbeat_grafts_a_small_mesh() {
    let mut node = NodeState::new();
    for n in 1..=10 {
        node.peer_subscribe(peer(n), TopicId::new("room"));
    }
    let out = node.heartbeat();
    assert_eq!(mesh_of(&node, "room").len(), MESH_D);
    assert_eq!(out.len(), MESH_D);
    let graft = WireMsg::Graft { topic: TopicId::new("room") };
    assert_eq!(targets_of(&out, &graft), mesh_of(&node, "room"));
    // a mesh within the bounds stays
    assert!(node.heartbeat().is_empty());
}

#[test]
fn heartbeat_takes_every_subscriber_of_a_small_topic() {
    let mut node = NodeState::new();
    node.peer_subscribe(peer(1), TopicId::new("room"));
    node.peer_subscribe(peer(2), TopicId::new("room"));
    let out = node.heartbeat();
    assert_eq!(mesh_of(&node, "room"), vec![peer(1), peer(2)]);
    assert_eq!(out.len(), 2);
    assert!(MESH_D_LOW > 2);
}

#[test]
fn heartbeat_prunes_a_large_mesh() {
    let mut node = NodeState::new();
    for n in 1..=20 {
        node.on_request(peer(n), WireMsg::Graft { topic: TopicId::new("room") }, true);
    }
    assert_eq!(mesh_of(&node, "room").len(), 20);
    assert!(20 > MESH_D_HIGH);
    let out = node.heartbeat();
    assert_eq!(mesh_of(&node, "room").len(), MESH_D);
    let prune = WireMsg::Prune { topic: TopicId::new("room") };
    assert_eq!(targets_of(&out, &prune).len(), 20 - MESH_D);
    for p in targets_of(&out, &prune) {
        assert!(!mesh_of(&node, "room").contains(&p));
    }
}

#[test]
fn first_dialed_connection_is_greeted() {
    let mut node = NodeState::new();
    node.set_autosub(TopicId::new("room"));
    node.set_autopub(TopicId::new("room"), vec![9, 9]);
    let out = node.on_connected(&peer(1), true);
    assert_eq!(out.len(), 2);
    assert_eq!(out[0].to, peer(1));
    assert_eq!(out[0].msg, WireMsg::Subscribe { topic: TopicId::new("room") });
    assert_eq!(out[1].to, peer(1));
    assert_eq!(out[1].msg, publish("room", &[9, 9]));
    assert!(node.local_subs.contains(&TopicId::new("room")));
    assert!(node.local_subs.contains(&TopicId::new("news")));
    assert!(node.on_connected(&peer(1), true).is_empty());
    assert!(node.on_connected(&peer(2), false).is_empty());
    assert_eq!(node.peers, vec![peer(1)]);
}

#[test]
fn greeting_without_auto_settings_is_empty() {
    let mut node = NodeState::new();
    assert!(node.on_connected(&peer(1), true).is_empty());
    assert_eq!(node.peers, vec![peer(1)]);
    node.set_autosub(TopicId::new("news"));
    let out = node.on_connected(&peer(2), true);
    assert_eq!(out.len(), 1);
    assert_eq!(out[0].msg, WireMsg::Subscribe { topic: TopicId::new("news") });
    assert_eq!(node.local_subs, vec![TopicId::new("news")]);
}
