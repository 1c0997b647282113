//! What a gossip node remembers, and what it decides when peers connect to
//! it, send it requests, or a heartbeat comes. The network around it
//! performs the decisions.
//!
//! Each topic has a mesh of about `MESH_D` of its subscribers, which a
//! heartbeat keeps between `MESH_D_LOW` and `MESH_D_HIGH` peers by `Graft`
//! and `Prune`. A new publication goes in full to the mesh only; the other
//! subscribers get a short `IHave` and pull the payload with `IWant`.

use crate::message::{digest_id, Ack, MsgId, Payload, TopicId, WireMsg, WireMsgView};
use crate::seen::{after_insert, SeenCache};
use vstd::prelude::*;

verus! {

/// A peer, by the bytes of its identity.
pub type PeerKey = Vec<u8>;

/// The peers a list of peer keys names.
pub open spec fn peer_set(peers: Seq<PeerKey>) -> Set<Seq<u8>> {
    Set::new(|p: Seq<u8>| exists|i: int| 0 <= i < peers.len() && peers[i]@ == p)
}

/// Whether a list of peer keys names each peer once.
pub open spec fn distinct_peers(peers: Seq<PeerKey>) -> bool {
    forall|i: int, j: int| 0 <= i < j < peers.len() ==> peers[i]@ != peers[j]@
}

/// The topic names a list of topics holds.
pub open spec fn topic_set(topics: Seq<TopicId>) -> Set<Seq<char>> {
    Set::new(|t: Seq<char>| exists|i: int| 0 <= i < topics.len() && topics[i]@ == t)
}

/// Whether a list of topics names each topic once.
pub open spec fn distinct_topics(topics: Seq<TopicId>) -> bool {
    forall|i: int, j: int| 0 <= i < j < topics.len() ==> topics[i]@ != topics[j]@
}

/// The peers subscribed to one topic, and those of them in the topic's
/// mesh: the peers this node sends the topic's publications in full.
pub struct TopicSubscribers {
    pub topic: TopicId,
    pub peers: Vec<PeerKey>,
    pub mesh: Vec<PeerKey>,
}

/// Whether an entry names each subscriber once, each mesh peer once, and
/// only subscribers in its mesh.
pub open spec fn entry_wf(entry: TopicSubscribers) -> bool {
    &&& distinct_peers(entry.peers@)
    &&& distinct_peers(entry.mesh@)
    &&& peer_set(entry.mesh@).subset_of(peer_set(entry.peers@))
}

/// Whether some entry of `entries` is about `topic`.
pub open spec fn has_topic(entries: Seq<TopicSubscribers>, topic: Seq<char>) -> bool {
    exists|i: int| 0 <= i < entries.len() && entries[i].topic@ == topic
}

/// The subscriptions a list of entries records: topic to subscribed peers.
pub open spec fn subscription_map(entries: Seq<TopicSubscribers>) -> Map<Seq<char>, Set<Seq<u8>>> {
    Map::new(
        |t: Seq<char>| has_topic(entries, t),
        |t: Seq<char>|
            peer_set(entries[choose|i: int| 0 <= i < entries.len() && entries[i].topic@ == t].peers@),
    )
}

/// The meshes a list of entries records: topic to mesh peers.
pub open spec fn mesh_map(entries: Seq<TopicSubscribers>) -> Map<Seq<char>, Set<Seq<u8>>> {
    Map::new(
        |t: Seq<char>| has_topic(entries, t),
        |t: Seq<char>|
            peer_set(entries[choose|i: int| 0 <= i < entries.len() && entries[i].topic@ == t].mesh@),
    )
}

/// Whether a list of entries names each topic once, and each entry is well
/// formed.
pub open spec fn entries_wf(entries: Seq<TopicSubscribers>) -> bool {
    &&& forall|i: int, j: int| 0 <= i < j < entries.len() ==> entries[i].topic@ != entries[j].topic@
    &&& forall|i: int| 0 <= i < entries.len() ==> entry_wf(#[trigger] entries[i])
}

/// The peers subscribed to `topic` (none when the topic has no entry).
pub open spec fn lookup(subs: Map<Seq<char>, Set<Seq<u8>>>, topic: Seq<char>) -> Set<Seq<u8>> {
    if subs.dom().contains(topic) {
        subs[topic]
    } else {
        Set::empty()
    }
}

/// The subscriptions after `peer` subscribes to `topic`.
pub open spec fn subscribed(
    subs: Map<Seq<char>, Set<Seq<u8>>>,
    topic: Seq<char>,
    peer: Seq<u8>,
) -> Map<Seq<char>, Set<Seq<u8>>> {
    subs.insert(topic, lookup(subs, topic).insert(peer))
}

/// The subscriptions after a peer unsubscribes from `topic`: the topic's
/// entry goes, with every peer in it.
pub open spec fn unsubscribed(subs: Map<Seq<char>, Set<Seq<u8>>>, topic: Seq<char>) -> Map<
    Seq<char>,
    Set<Seq<u8>>,
> {
    subs.remove(topic)
}

/// A peer that subscribed to a topic is among its subscribers.
pub proof fn law_subscriber_listed(subs: Map<Seq<char>, Set<Seq<u8>>>, topic: Seq<char>, peer: Seq<u8>)
    ensures
        lookup(subscribed(subs, topic, peer), topic).contains(peer),
{
}

/// Subscribing twice is subscribing once.
pub proof fn law_subscribe_idempotent(
    subs: Map<Seq<char>, Set<Seq<u8>>>,
    topic: Seq<char>,
    peer: Seq<u8>,
)
    ensures
        subscribed(subscribed(subs, topic, peer), topic, peer) == subscribed(subs, topic, peer),
{
    let once = subscribed(subs, topic, peer);
    assert(lookup(once, topic).insert(peer) =~= lookup(once, topic));
    assert(once.insert(topic, lookup(once, topic).insert(peer)) =~= once);
}

/// After an unsubscription a topic has no subscribers.
pub proof fn law_unsubscribe_clears(subs: Map<Seq<char>, Set<Seq<u8>>>, topic: Seq<char>)
    ensures
        lookup(unsubscribed(subs, topic), topic) == Set::<Seq<u8>>::empty(),
{
}

/// Subscribing to or unsubscribing from a topic leaves every other topic's
/// subscribers as they were.
pub proof fn law_other_topics_untouched(
    subs: Map<Seq<char>, Set<Seq<u8>>>,
    topic: Seq<char>,
    other: Seq<char>,
    peer: Seq<u8>,
)
    requires
        topic != other,
    ensures
        lookup(subscribed(subs, topic, peer), other) == lookup(subs, other),
        lookup(unsubscribed(subs, topic), other) == lookup(subs, other),
{
}

/// A request to send to a peer.
pub struct Outgoing {
    pub to: PeerKey,
    pub msg: WireMsg,
}

impl View for Outgoing {
    type V = (Seq<u8>, WireMsgView);

    open spec fn view(&self) -> (Seq<u8>, WireMsgView) {
        (self.to@, self.msg@)
    }
}

/// The peers a list of outgoing requests goes to.
pub open spec fn sent_to(out: Seq<Outgoing>) -> Set<Seq<u8>> {
    Set::new(|q: Seq<u8>| exists|j: int| 0 <= j < out.len() && out[j].to@ == q)
}

/// Whether a list of outgoing requests goes to each peer at most once.
pub open spec fn distinct_targets(out: Seq<Outgoing>) -> bool {
    forall|a: int, b: int| 0 <= a < b < out.len() ==> out[a].to@ != out[b].to@
}

/// The answer to a request, and the requests it makes the node send on.
pub struct Reply {
    pub ack: Ack,
    pub forward: Vec<Outgoing>,
}

/// A publication a node keeps, to hand out when a peer asks for it.
pub struct StoredMsg {
    pub id: MsgId,
    pub topic: TopicId,
    pub data: Payload,
}

impl View for StoredMsg {
    type V = (MsgId, Seq<char>, Seq<u8>);

    open spec fn view(&self) -> (MsgId, Seq<char>, Seq<u8>) {
        (self.id, self.topic@, self.data@)
    }
}

/// How many recent publications a node keeps.
pub const RECENT_LIMIT: usize = 128;

/// The publications a list of stored messages holds, oldest first.
pub open spec fn stored_views(recent: Seq<StoredMsg>) -> Seq<(MsgId, Seq<char>, Seq<u8>)> {
    recent.map_values(|m: StoredMsg| m@)
}

/// The publications kept after `msg` is kept: the oldest one goes when
/// `RECENT_LIMIT` are kept already.
pub open spec fn remembered(
    recent: Seq<(MsgId, Seq<char>, Seq<u8>)>,
    msg: (MsgId, Seq<char>, Seq<u8>),
) -> Seq<(MsgId, Seq<char>, Seq<u8>)> {
    if recent.len() >= RECENT_LIMIT {
        recent.drop_first().push(msg)
    } else {
        recent.push(msg)
    }
}

/// The topic and payload of the oldest kept publication with id `id`.
pub open spec fn first_stored(recent: Seq<(MsgId, Seq<char>, Seq<u8>)>, id: MsgId) -> Option<
    (Seq<char>, Seq<u8>),
>
    decreases recent.len(),
{
    if recent.len() == 0 {
        None
    } else if recent[0].0 == id {
        Some((recent[0].1, recent[0].2))
    } else {
        first_stored(recent.drop_first(), id)
    }
}

/// The views of a list of outgoing requests.
pub open spec fn out_views(out: Seq<Outgoing>) -> Seq<(Seq<u8>, WireMsgView)> {
    out.map_values(|o: Outgoing| o@)
}

/// The peers a list of outgoing requests sends `msg` to.
pub open spec fn sent_with(out: Seq<Outgoing>, msg: WireMsgView) -> Set<Seq<u8>> {
    Set::new(|q: Seq<u8>| exists|j: int| 0 <= j < out.len() && out[j].to@ == q && out[j].msg@ == msg)
}

/// What a node remembers.
pub struct NodeState {
    /// Ids of the messages seen.
    pub seen: SeenCache,
    /// Topics this node subscribed to.
    pub local_subs: Vec<TopicId>,
    /// Topics peers subscribed to, with their subscribers.
    pub peer_subs: Vec<TopicSubscribers>,
    /// The topic to subscribe to at each peer this node dials.
    pub autosub: Option<TopicId>,
    /// The topic and data to publish to each peer this node dials.
    pub autopub: Option<(TopicId, Vec<u8>)>,
    /// Peers this node dialed and greeted.
    pub peers: Vec<PeerKey>,
    /// Recent publications, oldest first, to answer `IWant`.
    pub recent: Vec<StoredMsg>,
}

/// Whether a node admits a publication of `data` under `msg_id`: the id is
/// the payload's digest and the topic's validation hook `accepted` it.
pub open spec fn admits(data: Seq<u8>, msg_id: MsgId, accepted: bool) -> bool {
    digest_id(data) == msg_id && accepted
}

/// Whether a node that has seen `ids` spreads a publication of `data`
/// under `msg_id`: it admits it and has not seen it.
pub open spec fn forwards_publication(ids: Set<MsgId>, data: Seq<u8>, msg_id: MsgId, accepted: bool) -> bool {
    admits(data, msg_id, accepted) && !ids.contains(msg_id)
}

/// A publication is spread once: after a node handled it, the same
/// publication again is not spread.
pub proof fn law_publication_forwarded_once(ids: Set<MsgId>, capacity: nat, data: Seq<u8>, msg_id: MsgId, accepted: bool)
    requires
        admits(data, msg_id, accepted),
    ensures
        !forwards_publication(after_insert(ids, capacity, msg_id), data, msg_id, accepted),
{
}

/// Every well-formed publication is admitted: whatever its payload, a
/// publication under its payload's digest that its hook accepts is admitted,
/// and spread when the node has not seen it.
pub proof fn law_well_formed_admitted(ids: Set<MsgId>, data: Seq<u8>)
    ensures
        admits(data, digest_id(data), true),
        !ids.contains(digest_id(data)) ==> forwards_publication(ids, data, digest_id(data), true),
{
}

/// A publication whose id is not its payload's digest is refused,
/// whatever its hook says.
pub proof fn law_wrong_id_refused(data: Seq<u8>, msg_id: MsgId, accepted: bool)
    requires
        msg_id != digest_id(data),
    ensures
        !admits(data, msg_id, accepted),
{
}

/// A repeat is dropped: a publication whose id the node still remembers is
/// not spread, whatever its topic's hook says, and it is acknowledged when
/// the node admits it.
pub proof fn law_repeat_not_spread(ids: Set<MsgId>, data: Seq<u8>, msg_id: MsgId, accepted: bool)
    requires
        ids.contains(msg_id),
    ensures
        !forwards_publication(ids, data, msg_id, accepted),
{
}

/// A publication that its topic's hook rejects is neither remembered nor
/// spread.
pub proof fn law_rejected_not_spread(ids: Set<MsgId>, data: Seq<u8>, msg_id: MsgId)
    ensures
        !admits(data, msg_id, false),
        !forwards_publication(ids, data, msg_id, false),
{
}

/// Whether a connection to `peer` is the first this node dialed to it,
/// given the peers it `greeted` before.
pub open spec fn first_dialed(greeted: Set<Seq<u8>>, peer: Seq<u8>, dialer: bool) -> bool {
    dialer && !greeted.contains(peer)
}

/// The peers greeted after a connection to `peer`.
pub open spec fn greeted_after(greeted: Set<Seq<u8>>, peer: Seq<u8>, dialer: bool) -> Set<Seq<u8>> {
    if first_dialed(greeted, peer, dialer) {
        greeted.insert(peer)
    } else {
        greeted
    }
}

/// A node greets a peer once: after the first connection it dialed to a
/// peer, no later connection to that peer is a first one.
pub proof fn law_greet_once(greeted: Set<Seq<u8>>, peer: Seq<u8>, later: bool)
    ensures
        !first_dialed(greeted_after(greeted, peer, true), peer, later),
{
}

/// The mesh size a heartbeat aims at.
pub const MESH_D: usize = 6;

/// Below this many peers a heartbeat grafts peers into a mesh.
pub const MESH_D_LOW: usize = 4;

/// Above this many peers a heartbeat prunes peers from a mesh.
pub const MESH_D_HIGH: usize = 12;

/// How a heartbeat moves the mesh `old` of a topic with subscribers `subs`
/// to `new`: a mesh below `MESH_D_LOW` only grows, to `MESH_D` peers or all
/// subscribers; a mesh above `MESH_D_HIGH` only shrinks, to `MESH_D` peers;
/// any other mesh stays.
pub open spec fn mesh_rebalanced(subs: Set<Seq<u8>>, old: Set<Seq<u8>>, new: Set<Seq<u8>>) -> bool {
    &&& new.finite()
    &&& new.subset_of(subs)
    &&& if old.len() < MESH_D_LOW {
        &&& old.subset_of(new)
        &&& new.len() <= MESH_D
        &&& (new.len() == MESH_D || new == subs)
    } else if old.len() > MESH_D_HIGH {
        &&& new.subset_of(old)
        &&& new.len() == MESH_D
    } else {
        new == old
    }
}

/// Whether a mesh of a topic with subscribers `subs` is within the bounds:
/// only subscribers, at most `MESH_D_HIGH` of them, and at least
/// `MESH_D_LOW` unless every subscriber is in it.
pub open spec fn mesh_in_bounds(subs: Set<Seq<u8>>, mesh: Set<Seq<u8>>) -> bool {
    &&& mesh.finite()
    &&& mesh.subset_of(subs)
    &&& mesh.len() <= MESH_D_HIGH
    &&& (mesh.len() >= MESH_D_LOW || mesh == subs)
}

/// After a heartbeat every mesh is within the bounds.
pub proof fn law_heartbeat_bounds(subs: Set<Seq<u8>>, old: Set<Seq<u8>>, new: Set<Seq<u8>>)
    requires
        old.finite(),
        mesh_rebalanced(subs, old, new),
    ensures
        mesh_in_bounds(subs, new),
{
    if old.len() < MESH_D_LOW {
        if new.len() < MESH_D_LOW {
            assert(new.len() != MESH_D);
        }
    }
}

/// A publication goes in full to at most `MESH_D_HIGH` peers of a mesh
/// within the bounds.
pub proof fn law_full_copies_bounded(subs: Set<Seq<u8>>, mesh: Set<Seq<u8>>, from: Seq<u8>)
    requires
        mesh_in_bounds(subs, mesh),
    ensures
        mesh.remove(from).len() <= MESH_D_HIGH,
{
}

/// The control requests a heartbeat sends for `topic` when its mesh moves
/// from `old` to `new`: `Graft` to each peer added, `Prune` to each peer
/// dropped.
pub open spec fn mesh_control(topic: Seq<char>, old: Set<Seq<u8>>, new: Set<Seq<u8>>) -> Set<
    (Seq<u8>, WireMsgView),
> {
    Set::new(
        |m: (Seq<u8>, WireMsgView)|
            (m.1 == WireMsgView::Graft { topic } && new.contains(m.0) && !old.contains(m.0)) || (m.1
                == WireMsgView::Prune { topic } && old.contains(m.0) && !new.contains(m.0)),
    )
}

/// The control requests a heartbeat sends when the meshes move from `old`
/// to `new`.
pub open spec fn heartbeat_control(
    old: Map<Seq<char>, Set<Seq<u8>>>,
    new: Map<Seq<char>, Set<Seq<u8>>>,
) -> Set<(Seq<u8>, WireMsgView)> {
    Set::new(
        |m: (Seq<u8>, WireMsgView)|
            exists|t: Seq<char>| old.dom().contains(t) && #[trigger] mesh_control(t, old[t], new[t]).contains(m),
    )
}

/// The requests a node sends to a peer it dialed for the first time: a
/// subscription to `autosub`, then a publication of `autopub` under the
/// digest of its data.
pub open spec fn greeting(
    peer: Seq<u8>,
    autosub: Option<TopicId>,
    autopub: Option<(TopicId, Vec<u8>)>,
) -> Seq<(Seq<u8>, WireMsgView)> {
    let sub = match autosub {
        Some(topic) => seq![(peer, WireMsgView::Subscribe { topic: topic@ })],
        None => Seq::empty(),
    };
    let publ = match autopub {
        Some((topic, data)) => seq![
            (peer, WireMsgView::Publish { topic: topic@, msg_id: digest_id(data@), data: data@ }),
        ],
        None => Seq::empty(),
    };
    sub + publ
}

/// A greeting starts with the subscription when one is set, and ends with
/// the publication of `autopub` under its data's digest whenever one is
/// set, whether a subscription is set or not; it holds nothing else.
pub proof fn law_greeting_parts(
    peer: Seq<u8>,
    autosub: Option<TopicId>,
    autopub: Option<(TopicId, Vec<u8>)>,
)
    ensures
        greeting(peer, autosub, autopub).len() == (if autosub is Some { 1int } else { 0 }) + (
        if autopub is Some { 1int } else { 0 }),
        autosub matches Some(t) ==> greeting(peer, autosub, autopub)[0] == (
            peer,
            WireMsgView::Subscribe { topic: t@ },
        ),
        autopub matches Some((t, d)) ==> greeting(peer, autosub, autopub).last() == (
            peer,
            WireMsgView::Publish { topic: t@, msg_id: digest_id(d@), data: d@ },
        ),
{
}

/// Where the oldest kept publication with an id is: the earliest entry with
/// that id, and none when no entry has it.
pub proof fn law_first_stored_is_earliest(recent: Seq<(MsgId, Seq<char>, Seq<u8>)>, id: MsgId)
    ensures
        first_stored(recent, id) is None <==> (forall|j: int| 0 <= j < recent.len() ==> recent[j].0 != id),
        first_stored(recent, id) is Some ==> exists|j: int|
            0 <= j < recent.len() && recent[j].0 == id && (forall|k: int| 0 <= k < j ==> recent[k].0 != id)
                && first_stored(recent, id) == Some((recent[j].1, recent[j].2)),
    decreases recent.len(),
{
    if recent.len() > 0 {
        let rest = recent.drop_first();
        law_first_stored_is_earliest(rest, id);
        if recent[0].0 != id {
            assert forall|j: int| 0 <= j < rest.len() implies rest[j] == recent[j + 1] by {}
            if first_stored(recent, id) is None {
                assert forall|j: int| 0 <= j < recent.len() implies recent[j].0 != id by {
                    if j > 0 {
                        assert(rest[j - 1] == recent[j]);
                    }
                }
            } else {
                let j = choose|j: int|
                    0 <= j < rest.len() && rest[j].0 == id && (forall|k: int| 0 <= k < j ==> rest[k].0 != id)
                        && first_stored(rest, id) == Some((rest[j].1, rest[j].2));
                assert(recent[j + 1] == rest[j]);
                assert forall|k: int| 0 <= k < j + 1 implies recent[k].0 != id by {
                    if k > 0 {
                        assert(recent[k] == rest[k - 1]);
                    }
                }
            }
            if forall|j: int| 0 <= j < recent.len() ==> recent[j].0 != id {
                assert forall|j: int| 0 <= j < rest.len() implies rest[j].0 != id by {
                    assert(rest[j] == recent[j + 1]);
                }
            }
        }
    }
}

/// Keeping a publication below the limit forgets nothing: every kept
/// publication is still pulled as before, and the new one can be pulled.
pub proof fn law_keep_below_limit(
    recent: Seq<(MsgId, Seq<char>, Seq<u8>)>,
    msg: (MsgId, Seq<char>, Seq<u8>),
    id: MsgId,
)
    requires
        recent.len() < RECENT_LIMIT,
    ensures
        remembered(recent, msg).len() == recent.len() + 1,
        first_stored(recent, id) is Some ==> first_stored(remembered(recent, msg), id) == first_stored(
            recent,
            id,
        ),
        first_stored(remembered(recent, msg), msg.0) is Some,
{
    let after = remembered(recent, msg);
    assert(after =~= recent.push(msg));
    law_first_stored_is_earliest(recent, id);
    law_first_stored_is_earliest(after, id);
    law_first_stored_is_earliest(after, msg.0);
    if first_stored(recent, id) is Some {
        let j = choose|j: int|
            0 <= j < recent.len() && recent[j].0 == id && (forall|k: int| 0 <= k < j ==> recent[k].0 != id)
                && first_stored(recent, id) == Some((recent[j].1, recent[j].2));
        assert(after[j] == recent[j]);
        let j2 = choose|j2: int|
            0 <= j2 < after.len() && after[j2].0 == id && (forall|k: int| 0 <= k < j2 ==> after[k].0 != id)
                && first_stored(after, id) == Some((after[j2].1, after[j2].2));
        if j2 < j {
            assert(after[j2] == recent[j2]);
        } else if j2 > j {
            assert(after[j].0 == id);
        }
    }
    assert(after[recent.len() as int].0 == msg.0);
}

/// Keeping a publication keeps at most `RECENT_LIMIT`, drops at most the
/// oldest one, and keeps the new one last.
pub proof fn law_keep_drops_only_oldest(
    recent: Seq<(MsgId, Seq<char>, Seq<u8>)>,
    msg: (MsgId, Seq<char>, Seq<u8>),
)
    requires
        recent.len() <= RECENT_LIMIT,
    ensures
        remembered(recent, msg).len() <= RECENT_LIMIT,
        remembered(recent, msg).last() == msg,
        recent.len() < RECENT_LIMIT ==> remembered(recent, msg).drop_last() == recent,
        recent.len() == RECENT_LIMIT ==> remembered(recent, msg).drop_last() == recent.drop_first(),
{
    assert(recent.push(msg).drop_last() =~= recent);
    if recent.len() > 0 {
        assert(recent.drop_first().push(msg).drop_last() =~= recent.drop_first());
    }
}

/// Whether two peer keys name the same peer.
fn same_peer(a: &PeerKey, b: &PeerKey) -> (same: bool)
    ensures
        same == (a@ == b@),
{
    if a.len() != b.len() {
        return false;
    }
    let mut i: usize = 0;
    while i < a.len()
        invariant
            a.len() == b.len(),
            i <= a.len(),
            forall|j: int| 0 <= j < i ==> a@[j] == b@[j],
        decreases a.len() - i,
    {
        if a[i] != b[i] {
            return false;
        }
        i = i + 1;
    }
    assert(a@ =~= b@);
    true
}

/// A second key for the same peer.
fn copy_peer(p: &PeerKey) -> (q: PeerKey)
    ensures
        q@ == p@,
{
    let q = p.clone();
    assert(q@ =~= p@);
    q
}

/// Whether `peer` is in `peers`.
fn has_peer(peers: &Vec<PeerKey>, peer: &PeerKey) -> (found: bool)
    ensures
        found == peer_set(peers@).contains(peer@),
{
    let mut i: usize = 0;
    while i < peers.len()
        invariant
            i <= peers.len(),
            forall|j: int| 0 <= j < i ==> peers@[j]@ != peer@,
        decreases peers.len() - i,
    {
        if same_peer(&peers[i], peer) {
            return true;
        }
        i = i + 1;
    }
    false
}

/// A copy of a list of peer keys.
fn copy_peers(peers: &Vec<PeerKey>) -> (copy: Vec<PeerKey>)
    ensures
        copy.len() == peers.len(),
        forall|i: int| 0 <= i < peers.len() ==> (#[trigger] copy@[i])@ == peers@[i]@,
{
    let mut copy: Vec<PeerKey> = Vec::new();
    let mut i: usize = 0;
    while i < peers.len()
        invariant
            i <= peers.len(),
            copy.len() == i,
            forall|j: int| 0 <= j < i ==> (#[trigger] copy@[j])@ == peers@[j]@,
        decreases peers.len() - i,
    {
        copy.push(copy_peer(&peers[i]));
        i = i + 1;
    }
    copy
}

/// Whether `topic` is in `topics`.
fn has_topic_in(topics: &Vec<TopicId>, topic: &TopicId) -> (found: bool)
    ensures
        found == topic_set(topics@).contains(topic@),
{
    let mut i: usize = 0;
    while i < topics.len()
        invariant
            i <= topics.len(),
            forall|j: int| 0 <= j < i ==> topics@[j]@ != topic@,
        decreases topics.len() - i,
    {
        if topics[i].same_as(topic) {
            return true;
        }
        i = i + 1;
    }
    false
}

/// The position of the entry about `topic`, if any.
fn find_topic(entries: &Vec<TopicSubscribers>, topic: &TopicId) -> (found: Option<usize>)
    ensures
        match found {
            Some(i) => i < entries.len() && entries@[i as int].topic@ == topic@,
            None => !has_topic(entries@, topic@),
        },
{
    let mut i: usize = 0;
    while i < entries.len()
        invariant
            i <= entries.len(),
            forall|j: int| 0 <= j < i ==> entries@[j].topic@ != topic@,
        decreases entries.len() - i,
    {
        if entries[i].topic.same_as(topic) {
            return Some(i);
        }
        i = i + 1;
    }
    None
}

/// In entries that name each topic once, the map holds each entry's peers
/// under its topic.
proof fn lemma_map_at(entries: Seq<TopicSubscribers>, i: int)
    requires
        entries_wf(entries),
        0 <= i < entries.len(),
    ensures
        subscription_map(entries).dom().contains(entries[i].topic@),
        subscription_map(entries)[entries[i].topic@] == peer_set(entries[i].peers@),
        mesh_map(entries).dom().contains(entries[i].topic@),
        mesh_map(entries)[entries[i].topic@] == peer_set(entries[i].mesh@),
{
    let t = entries[i].topic@;
    assert(has_topic(entries, t));
    let c = choose|c: int| 0 <= c < entries.len() && entries[c].topic@ == t;
    assert(0 <= c < entries.len() && entries[c].topic@ == t);
    if c < i {
        assert(entries[c].topic@ != entries[i].topic@);
    } else if c > i {
        assert(entries[i].topic@ != entries[c].topic@);
    }
}

/// Adds `topic` to a list of topics that names each topic once.
fn insert_topic(topics: &mut Vec<TopicId>, topic: TopicId)
    requires
        distinct_topics(old(topics)@),
    ensures
        distinct_topics(final(topics)@),
        topic_set(final(topics)@) == topic_set(old(topics)@).insert(topic@),
{
    if has_topic_in(topics, &topic) {
        assert(topic_set(topics@).insert(topic@) =~= topic_set(topics@));
        return;
    }
    let ghost before = topics@;
    let ghost t = topic@;
    topics.push(topic);
    proof {
        let after = topics@;
        assert forall|i: int, j: int| 0 <= i < j < after.len() implies after[i]@ != after[j]@ by {
            if j == before.len() {
                assert(after[i] == before[i]);
            }
        }
        assert forall|q: Seq<char>| topic_set(after).contains(q) <==> topic_set(before).insert(t).contains(q) by {
            if topic_set(before).contains(q) {
                let k = choose|k: int| 0 <= k < before.len() && before[k]@ == q;
                assert(after[k]@ == q);
            }
            if q == t {
                assert(after[before.len() as int]@ == q);
            }
            if topic_set(after).contains(q) && q != t {
                let k = choose|k: int| 0 <= k < after.len() && after[k]@ == q;
                assert(before[k]@ == q);
            }
        }
        assert(topic_set(after) =~= topic_set(before).insert(t));
    }
}

/// Keeps `msg` among the recent publications.
fn keep_recent(recent: &mut Vec<StoredMsg>, msg: StoredMsg)
    requires
        old(recent).len() <= RECENT_LIMIT,
    ensures
        final(recent).len() <= RECENT_LIMIT,
        stored_views(final(recent)@) == remembered(stored_views(old(recent)@), msg@),
{
    let ghost before = recent@;
    let ghost m = msg@;
    if recent.len() >= RECENT_LIMIT {
        recent.remove(0);
        proof {
            assert(recent@ =~= before.drop_first());
        }
    }
    let ghost mid = recent@;
    recent.push(msg);
    proof {
        assert(recent@ =~= mid.push(recent@[mid.len() as int]));
        assert(stored_views(recent@) =~= remembered(stored_views(before), m));
    }
}

/// The position of the oldest kept publication with id `id`, if any.
fn find_stored(recent: &Vec<StoredMsg>, id: &MsgId) -> (found: Option<usize>)
    ensures
        match found {
            Some(j) => j < recent.len() && recent@[j as int].id == *id && first_stored(
                stored_views(recent@),
                *id,
            ) == Some((recent@[j as int].topic@, recent@[j as int].data@)),
            None => first_stored(stored_views(recent@), *id) is None,
        },
{
    let ghost all = stored_views(recent@);
    assert(all.subrange(0, all.len() as int) =~= all);
    let mut k: usize = 0;
    while k < recent.len()
        invariant
            k <= recent.len(),
            all == stored_views(recent@),
            first_stored(all, *id) == first_stored(all.subrange(k as int, all.len() as int), *id),
        decreases recent.len() - k,
    {
        let ghost rest = all.subrange(k as int, all.len() as int);
        assert(rest[0] == recent@[k as int]@);
        if recent[k].id.same_as(id) {
            return Some(k);
        }
        assert(rest.drop_first() =~= all.subrange(k + 1, all.len() as int));
        k = k + 1;
    }
    assert(all.subrange(k as int, all.len() as int).len() == 0);
    None
}

/// A list of peers without `peer`.
fn without_peer(peers: &Vec<PeerKey>, peer: &PeerKey) -> (rest: Vec<PeerKey>)
    requires
        distinct_peers(peers@),
    ensures
        distinct_peers(rest@),
        peer_set(rest@) == peer_set(peers@).remove(peer@),
{
    let mut rest: Vec<PeerKey> = Vec::new();
    let mut k: usize = 0;
    while k < peers.len()
        invariant
            k <= peers.len(),
            distinct_peers(peers@),
            distinct_peers(rest@),
            peer_set(rest@) == peer_set(peers@.subrange(0, k as int)).remove(peer@),
        decreases peers.len() - k,
    {
        let ghost before = rest@;
        let ghost upto = peers@.subrange(0, k as int);
        let ghost next = peers@.subrange(0, k + 1);
        let ghost p = peers@[k as int]@;
        proof {
            assert forall|q: Seq<u8>| peer_set(next).contains(q) <==> peer_set(upto).insert(p).contains(q) by {
                if peer_set(next).contains(q) {
                    let j = choose|j: int| 0 <= j < next.len() && next[j]@ == q;
                    if j < k {
                        assert(upto[j]@ == q);
                    }
                }
                if peer_set(upto).contains(q) {
                    let j = choose|j: int| 0 <= j < upto.len() && upto[j]@ == q;
                    assert(next[j]@ == q);
                }
                if q == p {
                    assert(next[k as int]@ == q);
                }
            }
            assert(peer_set(next) =~= peer_set(upto).insert(p));
        }
        if !same_peer(&peers[k], peer) {
            let key = copy_peer(&peers[k]);
            proof {
                assert(!peer_set(upto).contains(p)) by {
                    if peer_set(upto).contains(p) {
                        let j = choose|j: int| 0 <= j < upto.len() && upto[j]@ == p;
                        assert(peers@[j]@ == p);
                    }
                }
                lemma_peer_push(before, key);
            }
            rest.push(key);
            proof {
                assert(peer_set(rest@) =~= peer_set(next).remove(peer@));
            }
        } else {
            assert(peer_set(rest@) =~= peer_set(next).remove(peer@));
        }
        k = k + 1;
    }
    assert(peers@.subrange(0, peers.len() as int) =~= peers@);
    rest
}

/// The peers of a prefix one longer: one peer more.
proof fn lemma_prefix_step(ps: Seq<PeerKey>, k: int)
    requires
        0 <= k < ps.len(),
    ensures
        peer_set(ps.subrange(0, k + 1)) == peer_set(ps.subrange(0, k)).insert(ps[k]@),
{
    let upto = ps.subrange(0, k);
    let next = ps.subrange(0, k + 1);
    assert forall|q: Seq<u8>| peer_set(next).contains(q) <==> peer_set(upto).insert(ps[k]@).contains(q) by {
        if peer_set(next).contains(q) {
            let j = choose|j: int| 0 <= j < next.len() && next[j]@ == q;
            if j < k {
                assert(upto[j]@ == q);
            }
        }
        if peer_set(upto).contains(q) {
            let j = choose|j: int| 0 <= j < upto.len() && upto[j]@ == q;
            assert(next[j]@ == q);
        }
        if q == ps[k]@ {
            assert(next[k]@ == q);
        }
    }
    assert(peer_set(next) =~= peer_set(upto).insert(ps[k]@));
}

/// One outgoing request more: its peer is sent to, and sent `msg` when it
/// carries `msg`.
proof fn lemma_push_out(before: Seq<Outgoing>, after: Seq<Outgoing>, msg: WireMsgView)
    requires
        after.len() == before.len() + 1,
        forall|j: int| 0 <= j < before.len() ==> after[j] == before[j],
    ensures
        sent_to(after) == sent_to(before).insert(after.last().to@),
        sent_with(after, msg) == (if after.last().msg@ == msg {
            sent_with(before, msg).insert(after.last().to@)
        } else {
            sent_with(before, msg)
        }),
{
    let n = before.len() as int;
    assert forall|q: Seq<u8>| sent_to(after).contains(q) <==> sent_to(before).insert(after.last().to@).contains(q) by {
        if sent_to(after).contains(q) {
            let j = choose|j: int| 0 <= j < after.len() && after[j].to@ == q;
            if j < n {
                assert(before[j].to@ == q);
            }
        }
        if sent_to(before).contains(q) {
            let j = choose|j: int| 0 <= j < before.len() && before[j].to@ == q;
            assert(after[j].to@ == q);
        }
        if q == after.last().to@ {
            assert(after[n].to@ == q);
        }
    }
    assert(sent_to(after) =~= sent_to(before).insert(after.last().to@));
    let target = if after.last().msg@ == msg {
        sent_with(before, msg).insert(after.last().to@)
    } else {
        sent_with(before, msg)
    };
    assert forall|q: Seq<u8>| sent_with(after, msg).contains(q) <==> target.contains(q) by {
        if sent_with(after, msg).contains(q) {
            let j = choose|j: int| 0 <= j < after.len() && after[j].to@ == q && after[j].msg@ == msg;
            if j < n {
                assert(before[j].to@ == q && before[j].msg@ == msg);
            }
        }
        if sent_with(before, msg).contains(q) {
            let j = choose|j: int| 0 <= j < before.len() && before[j].to@ == q && before[j].msg@ == msg;
            assert(after[j].to@ == q && after[j].msg@ == msg);
        }
        if q == after.last().to@ && after.last().msg@ == msg {
            assert(after[n].to@ == q && after[n].msg@ == msg);
        }
    }
    assert(sent_with(after, msg) =~= target);
}

/// A list of peers without repeats has as many peers as entries.
proof fn lemma_peer_set_len(v: Seq<PeerKey>)
    requires
        distinct_peers(v),
    ensures
        peer_set(v).finite(),
        peer_set(v).len() == v.len(),
    decreases v.len(),
{
    if v.len() == 0 {
        assert(peer_set(v) =~= Set::<Seq<u8>>::empty());
    } else {
        let n = v.len() - 1;
        let d = v.subrange(0, n);
        lemma_prefix_step(v, n);
        assert(v.subrange(0, n + 1) =~= v);
        assert(distinct_peers(d)) by {
            assert forall|i: int, j: int| 0 <= i < j < d.len() implies d[i]@ != d[j]@ by {
                assert(d[i] == v[i] && d[j] == v[j]);
            }
        }
        lemma_peer_set_len(d);
        assert(!peer_set(d).contains(v[n]@)) by {
            if peer_set(d).contains(v[n]@) {
                let j = choose|j: int| 0 <= j < d.len() && d[j]@ == v[n]@;
                assert(d[j] == v[j]);
            }
        }
    }
}

/// The peers of a list whose entries match another's one for one.
proof fn lemma_same_views(a: Seq<PeerKey>, b: Seq<PeerKey>)
    requires
        a.len() == b.len(),
        forall|j: int| 0 <= j < a.len() ==> a[j]@ == b[j]@,
    ensures
        peer_set(a) == peer_set(b),
        distinct_peers(a) == distinct_peers(b),
{
    assert forall|q: Seq<u8>| peer_set(a).contains(q) <==> peer_set(b).contains(q) by {
        if peer_set(a).contains(q) {
            let j = choose|j: int| 0 <= j < a.len() && a[j]@ == q;
            assert(b[j]@ == q);
        }
        if peer_set(b).contains(q) {
            let j = choose|j: int| 0 <= j < b.len() && b[j]@ == q;
            assert(a[j]@ == q);
        }
    }
    assert(peer_set(a) =~= peer_set(b));
}

/// The mesh a heartbeat leaves for `topic`, whose subscribers are `peers`
/// and whose mesh is `mesh`, with the control requests it sends.
fn rebalance(topic: &TopicId, peers: &Vec<PeerKey>, mesh: &Vec<PeerKey>) -> (res: (Vec<PeerKey>, Vec<Outgoing>))
    requires
        distinct_peers(peers@),
        distinct_peers(mesh@),
        peer_set(mesh@).subset_of(peer_set(peers@)),
    ensures
        distinct_peers(res.0@),
        mesh_rebalanced(peer_set(peers@), peer_set(mesh@), peer_set(res.0@)),
        out_views(res.1@).to_set() == mesh_control(topic@, peer_set(mesh@), peer_set(res.0@)),
        out_views(res.1@).no_duplicates(),
{
    proof {
        lemma_peer_set_len(mesh@);
    }
    let ghost t = topic@;
    if mesh.len() < MESH_D_LOW {
        let mut new = copy_peers(mesh);
        proof {
            lemma_same_views(new@, mesh@);
        }
        let mut msgs: Vec<Outgoing> = Vec::new();
        let mut k: usize = 0;
        while k < peers.len() && new.len() < MESH_D
            invariant
                k <= peers.len(),
                t == topic@,
                distinct_peers(peers@),
                distinct_peers(mesh@),
                mesh.len() < MESH_D_LOW,
                distinct_peers(new@),
                mesh.len() <= new.len() <= MESH_D,
                forall|j: int| 0 <= j < mesh.len() ==> (#[trigger] new@[j])@ == mesh@[j]@,
                peer_set(mesh@).subset_of(peer_set(peers@)),
                peer_set(new@).subset_of(peer_set(peers@)),
                peer_set(peers@.subrange(0, k as int)).subset_of(peer_set(new@)),
                msgs.len() + mesh.len() == new.len(),
                forall|j: int|
                    0 <= j < msgs.len() ==> (#[trigger] msgs@[j])@ == (
                        new@[mesh.len() + j]@,
                        WireMsgView::Graft { topic: t },
                    ),
            decreases peers.len() - k,
        {
            let ghost nb = new@;
            let ghost mb = msgs@;
            proof {
                lemma_prefix_step(peers@, k as int);
            }
            if !has_peer(&new, &peers[k]) {
                let key = copy_peer(&peers[k]);
                proof {
                    lemma_peer_push(new@, key);
                    assert(peer_set(peers@).contains(peers@[k as int]@));
                }
                new.push(key);
                msgs.push(Outgoing { to: copy_peer(&peers[k]), msg: WireMsg::Graft { topic: topic.duplicate() } });
                proof {
                    assert forall|j: int| 0 <= j < mesh.len() implies (#[trigger] new@[j])@ == mesh@[j]@ by {
                        assert(new@[j] == nb[j]);
                    }
                    assert forall|j: int| 0 <= j < msgs.len() implies (#[trigger] msgs@[j])@ == (
                        new@[mesh.len() + j]@,
                        WireMsgView::Graft { topic: t },
                    ) by {
                        if j < mb.len() {
                            assert(msgs@[j] == mb[j]);
                            assert(new@[mesh.len() + j] == nb[mesh.len() + j]);
                        }
                    }
                }
            }
            k = k + 1;
        }
        proof {
            let old_set = peer_set(mesh@);
            let new_set = peer_set(new@);
            lemma_peer_set_len(new@);
            assert(old_set.subset_of(new_set)) by {
                assert forall|q: Seq<u8>| old_set.contains(q) implies new_set.contains(q) by {
                    let j = choose|j: int| 0 <= j < mesh@.len() && mesh@[j]@ == q;
                    assert(new@[j]@ == q);
                }
            }
            if k == peers.len() {
                assert(peers@.subrange(0, k as int) =~= peers@);
                assert(new_set =~= peer_set(peers@));
            }
            let ctl = mesh_control(t, old_set, new_set);
            let outs = out_views(msgs@);
            assert forall|m: (Seq<u8>, WireMsgView)| outs.to_set().contains(m) <==> ctl.contains(m) by {
                if outs.to_set().contains(m) {
                    let j = choose|j: int| 0 <= j < outs.len() && outs[j] == m;
                    let idx = mesh.len() + j;
                    assert(msgs@[j]@ == m);
                    assert(new_set.contains(new@[idx]@));
                    if old_set.contains(new@[idx]@) {
                        let i = choose|i: int| 0 <= i < mesh@.len() && mesh@[i]@ == new@[idx]@;
                        assert(new@[i]@ == new@[idx]@);
                    }
                }
                if ctl.contains(m) {
                    if new_set.contains(m.0) && !old_set.contains(m.0) {
                        let idx = choose|idx: int| 0 <= idx < new@.len() && new@[idx]@ == m.0;
                        if idx < mesh.len() {
                            assert(mesh@[idx]@ == m.0);
                        }
                        let j = idx - mesh.len();
                        assert(msgs@[j]@ == m);
                        assert(outs[j] == m);
                    }
                }
            }
            assert(outs.to_set() =~= ctl);
            assert forall|a: int, b: int| 0 <= a < outs.len() && 0 <= b < outs.len() && a != b implies outs[a]
                != outs[b] by {
                assert(outs[a] == msgs@[a]@ && outs[b] == msgs@[b]@);
                let ia = mesh.len() + a;
                let ib = mesh.len() + b;
                if ia < ib {
                    assert(new@[ia]@ != new@[ib]@);
                } else {
                    assert(new@[ib]@ != new@[ia]@);
                }
            }
        }
        (new, msgs)
    } else if mesh.len() > MESH_D_HIGH {
        let mut new: Vec<PeerKey> = Vec::new();
        let mut msgs: Vec<Outgoing> = Vec::new();
        let mut k: usize = 0;
        while k < mesh.len()
            invariant
                k <= mesh.len(),
                t == topic@,
                mesh.len() > MESH_D_HIGH,
                distinct_peers(mesh@),
                new.len() == (if k < MESH_D { k } else { MESH_D }),
                forall|j: int| 0 <= j < new.len() ==> (#[trigger] new@[j])@ == mesh@[j]@,
                msgs.len() == k - new.len(),
                forall|j: int|
                    0 <= j < msgs.len() ==> (#[trigger] msgs@[j])@ == (
                        mesh@[MESH_D + j]@,
                        WireMsgView::Prune { topic: t },
                    ),
            decreases mesh.len() - k,
        {
            let ghost nb = new@;
            let ghost mb = msgs@;
            if k < MESH_D {
                new.push(copy_peer(&mesh[k]));
                assert forall|j: int| 0 <= j < new.len() implies (#[trigger] new@[j])@ == mesh@[j]@ by {
                    if j < nb.len() {
                        assert(new@[j] == nb[j]);
                    }
                }
            } else {
                msgs.push(Outgoing { to: copy_peer(&mesh[k]), msg: WireMsg::Prune { topic: topic.duplicate() } });
                assert forall|j: int| 0 <= j < msgs.len() implies (#[trigger] msgs@[j])@ == (
                    mesh@[MESH_D + j]@,
                    WireMsgView::Prune { topic: t },
                ) by {
                    if j < mb.len() {
                        assert(msgs@[j] == mb[j]);
                    }
                }
            }
            k = k + 1;
        }
        proof {
            let old_set = peer_set(mesh@);
            let new_set = peer_set(new@);
            assert(distinct_peers(new@)) by {
                assert forall|a: int, b: int| 0 <= a < b < new@.len() implies new@[a]@ != new@[b]@ by {
                    assert(new@[a]@ == mesh@[a]@ && new@[b]@ == mesh@[b]@);
                }
            }
            lemma_peer_set_len(new@);
            assert(new_set.subset_of(old_set)) by {
                assert forall|q: Seq<u8>| new_set.contains(q) implies old_set.contains(q) by {
                    let j = choose|j: int| 0 <= j < new@.len() && new@[j]@ == q;
                    assert(mesh@[j]@ == q);
                }
            }
            let ctl = mesh_control(t, old_set, new_set);
            let outs = out_views(msgs@);
            assert forall|m: (Seq<u8>, WireMsgView)| outs.to_set().contains(m) <==> ctl.contains(m) by {
                if outs.to_set().contains(m) {
                    let j = choose|j: int| 0 <= j < outs.len() && outs[j] == m;
                    let idx = MESH_D + j;
                    assert(msgs@[j]@ == m);
                    assert(old_set.contains(mesh@[idx]@));
                    if new_set.contains(mesh@[idx]@) {
                        let i = choose|i: int| 0 <= i < new@.len() && new@[i]@ == mesh@[idx]@;
                        assert(mesh@[i]@ == mesh@[idx]@);
                    }
                }
                if ctl.contains(m) {
                    if old_set.contains(m.0) && !new_set.contains(m.0) {
                        let idx = choose|idx: int| 0 <= idx < mesh@.len() && mesh@[idx]@ == m.0;
                        if idx < MESH_D {
                            assert(new@[idx]@ == m.0);
                        }
                        let j = idx - MESH_D;
                        assert(msgs@[j]@ == m);
                        assert(outs[j] == m);
                    }
                }
            }
            assert(outs.to_set() =~= ctl);
            assert forall|a: int, b: int| 0 <= a < outs.len() && 0 <= b < outs.len() && a != b implies outs[a]
                != outs[b] by {
                assert(outs[a] == msgs@[a]@ && outs[b] == msgs@[b]@);
                let ia = MESH_D + a;
                let ib = MESH_D + b;
                if ia < ib {
                    assert(mesh@[ia]@ != mesh@[ib]@);
                } else {
                    assert(mesh@[ib]@ != mesh@[ia]@);
                }
            }
        }
        (new, msgs)
    } else {
        let new = copy_peers(mesh);
        let msgs: Vec<Outgoing> = Vec::new();
        proof {
            lemma_same_views(new@, mesh@);
            let ctl = mesh_control(t, peer_set(mesh@), peer_set(new@));
            assert(out_views(msgs@).to_set() =~= ctl);
        }
        (new, msgs)
    }
}

/// Adding a peer that is not in a list adds it to the list's set and keeps
/// the list free of repeats.
proof fn lemma_peer_push(peers: Seq<PeerKey>, p: PeerKey)
    requires
        distinct_peers(peers),
        !peer_set(peers).contains(p@),
    ensures
        distinct_peers(peers.push(p)),
        peer_set(peers.push(p)) == peer_set(peers).insert(p@),
{
    let after = peers.push(p);
    assert forall|i: int, j: int| 0 <= i < j < after.len() implies after[i]@ != after[j]@ by {
        if j == peers.len() {
            assert(peers[i]@ == after[i]@);
        }
    }
    assert forall|q: Seq<u8>| peer_set(after).contains(q) <==> peer_set(peers).insert(p@).contains(q) by {
        if peer_set(peers).contains(q) {
            let k = choose|k: int| 0 <= k < peers.len() && peers[k]@ == q;
            assert(after[k]@ == q);
        }
        if q == p@ {
            assert(after[peers.len() as int]@ == q);
        }
        if peer_set(after).contains(q) && q != p@ {
            let k = choose|k: int| 0 <= k < after.len() && after[k]@ == q;
            assert(peers[k]@ == q);
        }
    }
    assert(peer_set(after) =~= peer_set(peers).insert(p@));
}

/// Replacing an entry by one about the same topic replaces that topic's
/// subscribers.
proof fn lemma_update_entry(before: Seq<TopicSubscribers>, i: int, entry: TopicSubscribers)
    requires
        entries_wf(before),
        0 <= i < before.len(),
        entry.topic@ == before[i].topic@,
        entry_wf(entry),
    ensures
        entries_wf(before.update(i, entry)),
        subscription_map(before.update(i, entry)) == subscription_map(before).insert(
            entry.topic@,
            peer_set(entry.peers@),
        ),
        mesh_map(before.update(i, entry)) == mesh_map(before).insert(entry.topic@, peer_set(entry.mesh@)),
{
    let after = before.update(i, entry);
    assert forall|a: int| 0 <= a < after.len() implies after[a].topic@ == before[a].topic@ by {}
    assert forall|a: int| 0 <= a < after.len() implies entry_wf(#[trigger] after[a]) by {
        if a != i {
            assert(after[a] == before[a]);
        }
    }
    let m = subscription_map(before).insert(entry.topic@, peer_set(entry.peers@));
    assert forall|k: Seq<char>| has_topic(after, k) <==> m.dom().contains(k) by {
        if has_topic(after, k) {
            let j = choose|j: int| 0 <= j < after.len() && after[j].topic@ == k;
            assert(before[j].topic@ == k);
        }
        if has_topic(before, k) {
            let j = choose|j: int| 0 <= j < before.len() && before[j].topic@ == k;
            assert(after[j].topic@ == k);
        }
        if k == entry.topic@ {
            assert(after[i].topic@ == k);
        }
    }
    assert forall|k: Seq<char>| #[trigger] subscription_map(after).dom().contains(k) implies subscription_map(
        after,
    )[k] == m[k] by {
        let j = choose|j: int| 0 <= j < after.len() && after[j].topic@ == k;
        lemma_map_at(after, j);
        if j != i {
            lemma_map_at(before, j);
            assert(after[j] == before[j]);
        }
    }
    assert(subscription_map(after) =~= m);
    let mm = mesh_map(before).insert(entry.topic@, peer_set(entry.mesh@));
    assert forall|k: Seq<char>| #[trigger] mesh_map(after).dom().contains(k) implies mesh_map(
        after,
    )[k] == mm[k] by {
        let j = choose|j: int| 0 <= j < after.len() && after[j].topic@ == k;
        lemma_map_at(after, j);
        if j != i {
            lemma_map_at(before, j);
            assert(after[j] == before[j]);
        }
    }
    assert(mesh_map(after) =~= mm);
}

/// Appending an entry about a new topic adds that topic's subscribers.
proof fn lemma_push_entry(before: Seq<TopicSubscribers>, entry: TopicSubscribers)
    requires
        entries_wf(before),
        !has_topic(before, entry.topic@),
        entry_wf(entry),
    ensures
        entries_wf(before.push(entry)),
        subscription_map(before.push(entry)) == subscription_map(before).insert(
            entry.topic@,
            peer_set(entry.peers@),
        ),
        mesh_map(before.push(entry)) == mesh_map(before).insert(entry.topic@, peer_set(entry.mesh@)),
{
    let after = before.push(entry);
    let n = before.len() as int;
    assert forall|a: int, b: int| 0 <= a < b < after.len() implies after[a].topic@ != after[b].topic@ by {
        if b == n {
            assert(after[a] == before[a]);
        }
    }
    assert forall|a: int| 0 <= a < after.len() implies entry_wf(#[trigger] after[a]) by {
        if a < n {
            assert(after[a] == before[a]);
        }
    }
    let m = subscription_map(before).insert(entry.topic@, peer_set(entry.peers@));
    assert forall|k: Seq<char>| has_topic(after, k) <==> m.dom().contains(k) by {
        if has_topic(after, k) {
            let j = choose|j: int| 0 <= j < after.len() && after[j].topic@ == k;
            if j < n {
                assert(before[j].topic@ == k);
            }
        }
        if has_topic(before, k) {
            let j = choose|j: int| 0 <= j < before.len() && before[j].topic@ == k;
            assert(after[j].topic@ == k);
        }
        if k == entry.topic@ {
            assert(after[n].topic@ == k);
        }
    }
    assert forall|k: Seq<char>| #[trigger] subscription_map(after).dom().contains(k) implies subscription_map(
        after,
    )[k] == m[k] by {
        let j = choose|j: int| 0 <= j < after.len() && after[j].topic@ == k;
        lemma_map_at(after, j);
        if j < n {
            lemma_map_at(before, j);
            assert(after[j] == before[j]);
        }
    }
    assert(subscription_map(after) =~= m);
    let mm = mesh_map(before).insert(entry.topic@, peer_set(entry.mesh@));
    assert forall|k: Seq<char>| #[trigger] mesh_map(after).dom().contains(k) implies mesh_map(
        after,
    )[k] == mm[k] by {
        let j = choose|j: int| 0 <= j < after.len() && after[j].topic@ == k;
        lemma_map_at(after, j);
        if j < n {
            lemma_map_at(before, j);
            assert(after[j] == before[j]);
        }
    }
    assert(mesh_map(after) =~= mm);
}

/// Dropping an entry drops its topic.
proof fn lemma_remove_entry(before: Seq<TopicSubscribers>, i: int)
    requires
        entries_wf(before),
        0 <= i < before.len(),
    ensures
        entries_wf(before.remove(i)),
        subscription_map(before.remove(i)) == subscription_map(before).remove(before[i].topic@),
        mesh_map(before.remove(i)) == mesh_map(before).remove(before[i].topic@),
{
    let after = before.remove(i);
    let t = before[i].topic@;
    assert forall|a: int| 0 <= a < after.len() implies #[trigger] after[a] == (if a < i {
        before[a]
    } else {
        before[a + 1]
    }) by {}
    assert forall|a: int, b: int| 0 <= a < b < after.len() implies after[a].topic@ != after[b].topic@ by {
        let ia = if a < i { a } else { a + 1 };
        let ib = if b < i { b } else { b + 1 };
        assert(after[a] == before[ia] && after[b] == before[ib]);
    }
    assert forall|a: int| 0 <= a < after.len() implies entry_wf(#[trigger] after[a]) by {
        let ia = if a < i { a } else { a + 1 };
        assert(after[a] == before[ia]);
    }
    let m = subscription_map(before).remove(t);
    assert forall|k: Seq<char>| has_topic(after, k) <==> m.dom().contains(k) by {
        if has_topic(after, k) {
            let j = choose|j: int| 0 <= j < after.len() && after[j].topic@ == k;
            let ij = if j < i { j } else { j + 1 };
            assert(after[j] == before[ij]);
            assert(before[ij].topic@ == k);
            assert(ij != i);
            if ij < i {
                assert(before[ij].topic@ != before[i].topic@);
            } else {
                assert(before[i].topic@ != before[ij].topic@);
            }
        }
        if has_topic(before, k) && k != t {
            let j = choose|j: int| 0 <= j < before.len() && before[j].topic@ == k;
            assert(j != i);
            let aj = if j < i { j } else { j - 1 };
            assert(after[aj] == before[j]);
        }
    }
    assert forall|k: Seq<char>| #[trigger] subscription_map(after).dom().contains(k) implies subscription_map(
        after,
    )[k] == m[k] by {
        let j = choose|j: int| 0 <= j < after.len() && after[j].topic@ == k;
        let ij = if j < i { j } else { j + 1 };
        assert(after[j] == before[ij]);
        lemma_map_at(after, j);
        lemma_map_at(before, ij);
    }
    assert(subscription_map(after) =~= m);
    let mm = mesh_map(before).remove(t);
    assert forall|k: Seq<char>| #[trigger] mesh_map(after).dom().contains(k) implies mesh_map(
        after,
    )[k] == mm[k] by {
        let j = choose|j: int| 0 <= j < after.len() && after[j].topic@ == k;
        let ij = if j < i { j } else { j + 1 };
        assert(after[j] == before[ij]);
        lemma_map_at(after, j);
        lemma_map_at(before, ij);
    }
    assert(mesh_map(after) =~= mm);
}

impl NodeState {
    /// Topic to subscribers, as peers subscribed.
    pub open spec fn subscriptions(&self) -> Map<Seq<char>, Set<Seq<u8>>> {
        subscription_map(self.peer_subs@)
    }

    /// Topic to mesh peers.
    pub open spec fn meshes(&self) -> Map<Seq<char>, Set<Seq<u8>>> {
        mesh_map(self.peer_subs@)
    }

    /// The topics this node subscribed to.
    pub open spec fn local_topics(&self) -> Set<Seq<char>> {
        topic_set(self.local_subs@)
    }

    /// The peers this node dialed and greeted.
    pub open spec fn greeted(&self) -> Set<Seq<u8>> {
        peer_set(self.peers@)
    }

    /// The state's invariant: every list names each of its members once, and
    /// the seen cache keeps its own.
    pub open spec fn wf(&self) -> bool {
        &&& self.seen.wf()
        &&& distinct_topics(self.local_subs@)
        &&& entries_wf(self.peer_subs@)
        &&& distinct_peers(self.peers@)
        &&& self.recent.len() <= RECENT_LIMIT
    }

    /// A node that remembers up to 4096 message ids, subscribed to `news`.
    pub fn new() -> (node: NodeState)
        ensures
            node.wf(),
            node.seen.ids() == Set::<MsgId>::empty(),
            node.seen.max_ids() == 4096,
            node.local_topics() == set!["news"@],
            node.subscriptions() == Map::<Seq<char>, Set<Seq<u8>>>::empty(),
            node.autosub is None,
            node.autopub is None,
            node.greeted() == Set::<Seq<u8>>::empty(),
            node.recent.len() == 0,
    {
        let mut local_subs = Vec::new();
        local_subs.push(TopicId::new("news"));
        let node = NodeState {
            seen: SeenCache::new(4096),
            local_subs,
            peer_subs: Vec::new(),
            autosub: None,
            autopub: None,
            peers: Vec::new(),
            recent: Vec::new(),
        };
        proof {
            assert(node.local_topics() =~= set!["news"@]) by {
                assert(node.local_subs@[0]@ == "news"@);
            }
            assert(node.subscriptions() =~= Map::<Seq<char>, Set<Seq<u8>>>::empty());
            assert(node.greeted() =~= Set::<Seq<u8>>::empty());
        }
        node
    }

    /// Subscribes to `topic` at every peer dialed from now on.
    pub fn set_autosub(&mut self, topic: TopicId)
        ensures
            final(self).autosub == Some(topic),
            final(self).seen == old(self).seen,
            final(self).local_subs == old(self).local_subs,
            final(self).peer_subs == old(self).peer_subs,
            final(self).autopub == old(self).autopub,
            final(self).peers == old(self).peers,
            final(self).recent == old(self).recent,
    {
        self.autosub = Some(topic);
    }

    /// Publishes `data` on `topic` to every peer dialed from now on.
    pub fn set_autopub(&mut self, topic: TopicId, data: Vec<u8>)
        ensures
            final(self).autopub == Some((topic, data)),
            final(self).seen == old(self).seen,
            final(self).local_subs == old(self).local_subs,
            final(self).peer_subs == old(self).peer_subs,
            final(self).autosub == old(self).autosub,
            final(self).peers == old(self).peers,
            final(self).recent == old(self).recent,
    {
        self.autopub = Some((topic, data));
    }

    /// Records that `peer` subscribed to `topic`.
    pub fn peer_subscribe(&mut self, peer: PeerKey, topic: TopicId)
        requires
            old(self).wf(),
        ensures
            final(self).wf(),
            final(self).subscriptions() == subscribed(old(self).subscriptions(), topic@, peer@),
            final(self).meshes() == old(self).meshes().insert(topic@, lookup(old(self).meshes(), topic@)),
            final(self).seen == old(self).seen,
            final(self).local_subs == old(self).local_subs,
            final(self).autosub == old(self).autosub,
            final(self).autopub == old(self).autopub,
            final(self).peers == old(self).peers,
            final(self).recent == old(self).recent,
    {
        let ghost subs = self.subscriptions();
        match find_topic(&self.peer_subs, &topic) {
            Some(i) => {
                proof {
                    lemma_map_at(self.peer_subs@, i as int);
                }
                if !has_peer(&self.peer_subs[i].peers, &peer) {
                    let ghost before = self.peer_subs@;
                    let mut entry = self.peer_subs.remove(i);
                    proof {
                        assert(entry == before[i as int]);
                        assert(entry_wf(before[i as int]));
                        lemma_peer_push(entry.peers@, peer);
                    }
                    entry.peers.push(peer);
                    let ghost e = entry;
                    self.peer_subs.insert(i, entry);
                    proof {
                        assert(self.peer_subs@ =~= before.update(i as int, e));
                        lemma_update_entry(before, i as int, e);
                        let ms = lookup(mesh_map(before), topic@);
                        assert(mesh_map(before).insert(topic@, ms) =~= mesh_map(before));
                    }
                } else {
                    assert(self.meshes().insert(topic@, lookup(self.meshes(), topic@)) =~= self.meshes());
                    assert(lookup(subs, topic@).insert(peer@) =~= lookup(subs, topic@));
                    assert(subs.insert(topic@, lookup(subs, topic@).insert(peer@)) =~= subs);
                }
            },
            None => {
                let ghost before = self.peer_subs@;
                let mut peers = Vec::new();
                proof {
                    assert(peer_set(peers@) =~= Set::<Seq<u8>>::empty());
                    lemma_peer_push(peers@, peer);
                }
                peers.push(peer);
                let entry = TopicSubscribers { topic, peers, mesh: Vec::new() };
                proof {
                    assert(peer_set(entry.mesh@) =~= Set::<Seq<u8>>::empty());
                    lemma_push_entry(before, entry);
                    assert(!mesh_map(before).dom().contains(topic@));
                    assert(!subs.dom().contains(topic@));
                    assert(peer_set(entry.peers@) =~= Set::<Seq<u8>>::empty().insert(entry.peers@[0]@));
                }
                self.peer_subs.push(entry);
            },
        }
    }

    /// Records that a peer unsubscribed from `topic`: every subscriber of the
    /// topic is forgotten, whoever `_peer` is.
    pub fn peer_unsubscribe(&mut self, _peer: PeerKey, topic: &TopicId)
        requires
            old(self).wf(),
        ensures
            final(self).wf(),
            final(self).subscriptions() == unsubscribed(old(self).subscriptions(), topic@),
            final(self).meshes() == old(self).meshes().remove(topic@),
            final(self).seen == old(self).seen,
            final(self).local_subs == old(self).local_subs,
            final(self).autosub == old(self).autosub,
            final(self).autopub == old(self).autopub,
            final(self).peers == old(self).peers,
            final(self).recent == old(self).recent,
    {
        match find_topic(&self.peer_subs, topic) {
            Some(i) => {
                let ghost before = self.peer_subs@;
                self.peer_subs.remove(i);
                proof {
                    lemma_remove_entry(before, i as int);
                }
            },
            None => {
                assert(self.subscriptions().remove(topic@) =~= self.subscriptions());
                assert(self.meshes().remove(topic@) =~= self.meshes());
            },
        }
    }

    /// The peers subscribed to `topic`, each once.
    pub fn subscribed_peers(&self, topic: &TopicId) -> (peers: Vec<PeerKey>)
        requires
            self.wf(),
        ensures
            distinct_peers(peers@),
            peer_set(peers@) == lookup(self.subscriptions(), topic@),
    {
        match find_topic(&self.peer_subs, topic) {
            Some(i) => {
                let peers = copy_peers(&self.peer_subs[i].peers);
                proof {
                    let src = self.peer_subs@[i as int].peers@;
                    lemma_map_at(self.peer_subs@, i as int);
                    assert(distinct_peers(src));
                    assert(peer_set(peers@) =~= peer_set(src)) by {
                        assert forall|q: Seq<u8>| peer_set(peers@).contains(q) <==> peer_set(src).contains(q) by {
                            if peer_set(src).contains(q) {
                                let k = choose|k: int| 0 <= k < src.len() && src[k]@ == q;
                                assert(peers@[k]@ == q);
                            }
                            if peer_set(peers@).contains(q) {
                                let k = choose|k: int| 0 <= k < peers@.len() && peers@[k]@ == q;
                                assert(src[k]@ == q);
                            }
                        }
                    }
                    assert forall|a: int, b: int| 0 <= a < b < peers@.len() implies peers@[a]@ != peers@[b]@ by {
                        assert(peers@[a]@ == src[a]@ && peers@[b]@ == src[b]@);
                    }
                }
                peers
            },
            None => {
                let peers: Vec<PeerKey> = Vec::new();
                assert(peer_set(peers@) =~= Set::<Seq<u8>>::empty());
                peers
            },
        }
    }
    /// Adds `peer`, a subscriber of `topic`, to the topic's mesh.
    fn mesh_add(&mut self, peer: PeerKey, topic: &TopicId)
        requires
            old(self).wf(),
            lookup(old(self).subscriptions(), topic@).contains(peer@),
        ensures
            final(self).wf(),
            final(self).subscriptions() == old(self).subscriptions(),
            final(self).meshes() == old(self).meshes().insert(
                topic@,
                lookup(old(self).meshes(), topic@).insert(peer@),
            ),
            final(self).seen == old(self).seen,
            final(self).local_subs == old(self).local_subs,
            final(self).autosub == old(self).autosub,
            final(self).autopub == old(self).autopub,
            final(self).peers == old(self).peers,
            final(self).recent == old(self).recent,
    {
        let ghost subs = self.subscriptions();
        let ghost meshes = self.meshes();
        match find_topic(&self.peer_subs, topic) {
            Some(i) => {
                proof {
                    lemma_map_at(self.peer_subs@, i as int);
                }
                if !has_peer(&self.peer_subs[i].mesh, &peer) {
                    let ghost before = self.peer_subs@;
                    let mut entry = self.peer_subs.remove(i);
                    proof {
                        assert(entry == before[i as int]);
                        assert(entry_wf(before[i as int]));
                        lemma_peer_push(entry.mesh@, peer);
                    }
                    entry.mesh.push(peer);
                    let ghost e = entry;
                    self.peer_subs.insert(i, entry);
                    proof {
                        assert(self.peer_subs@ =~= before.update(i as int, e));
                        lemma_update_entry(before, i as int, e);
                        assert(subs.insert(topic@, peer_set(e.peers@)) =~= subs);
                    }
                } else {
                    assert(lookup(meshes, topic@).insert(peer@) =~= lookup(meshes, topic@));
                    assert(meshes.insert(topic@, lookup(meshes, topic@).insert(peer@)) =~= meshes);
                }
            },
            None => {},
        }
    }

    /// Drops `peer` from the mesh of `topic`.
    fn mesh_drop(&mut self, peer: &PeerKey, topic: &TopicId)
        requires
            old(self).wf(),
        ensures
            final(self).wf(),
            final(self).subscriptions() == old(self).subscriptions(),
            final(self).meshes() == (if old(self).meshes().dom().contains(topic@) {
                old(self).meshes().insert(topic@, old(self).meshes()[topic@].remove(peer@))
            } else {
                old(self).meshes()
            }),
            final(self).seen == old(self).seen,
            final(self).local_subs == old(self).local_subs,
            final(self).autosub == old(self).autosub,
            final(self).autopub == old(self).autopub,
            final(self).peers == old(self).peers,
            final(self).recent == old(self).recent,
    {
        let ghost subs = self.subscriptions();
        match find_topic(&self.peer_subs, topic) {
            Some(i) => {
                let ghost before = self.peer_subs@;
                proof {
                    lemma_map_at(before, i as int);
                }
                let mut entry = self.peer_subs.remove(i);
                proof {
                    assert(entry == before[i as int]);
                    assert(entry_wf(before[i as int]));
                }
                let rest = without_peer(&entry.mesh, peer);
                entry.mesh = rest;
                let ghost e = entry;
                self.peer_subs.insert(i, entry);
                proof {
                    assert(self.peer_subs@ =~= before.update(i as int, e));
                    lemma_update_entry(before, i as int, e);
                    assert(subs.insert(topic@, peer_set(e.peers@)) =~= subs);
                }
            },
            None => {},
        }
    }

    /// Handles a request from peer `from`; `accepted` is the verdict of the
    /// validation hook of a publication's topic on its payload.
    ///
    /// A publication is admitted when its id is the digest of its payload and
    /// its topic's hook accepts it; the ack says whether it was admitted. An
    /// admitted publication not seen before is remembered, kept for `IWant`,
    /// sent in full to the topic's mesh and announced by `IHave` to the
    /// topic's other subscribers, never back to its sender. `IHave` of an
    /// unseen message is answered by `IWant`; `IWant` of a kept publication
    /// by that publication. Subscriptions, unsubscriptions, `Graft` and
    /// `Prune` are recorded.
    pub fn on_request(&mut self, from: PeerKey, request: WireMsg, accepted: bool) -> (reply: Reply)
        requires
            old(self).wf(),
        ensures
            final(self).wf(),
            final(self).local_subs == old(self).local_subs,
            final(self).autosub == old(self).autosub,
            final(self).autopub == old(self).autopub,
            final(self).peers == old(self).peers,
            distinct_targets(reply.forward@),
            match request@ {
                WireMsgView::Publish { topic, msg_id, data } => {
                    let admitted = admits(data, msg_id, accepted);
                    let fresh = forwards_publication(old(self).seen.ids(), data, msg_id, accepted);
                    &&& reply.ack.ok == admitted
                    &&& final(self).seen.wf()
                    &&& final(self).seen.max_ids() == old(self).seen.max_ids()
                    &&& final(self).seen.ids() == (if admitted {
                        after_insert(old(self).seen.ids(), old(self).seen.max_ids(), msg_id)
                    } else {
                        old(self).seen.ids()
                    })
                    &&& final(self).peer_subs == old(self).peer_subs
                    &&& stored_views(final(self).recent@) == (if fresh {
                        remembered(stored_views(old(self).recent@), (msg_id, topic, data))
                    } else {
                        stored_views(old(self).recent@)
                    })
                    &&& forall|j: int|
                        0 <= j < reply.forward.len() ==> (#[trigger] reply.forward@[j]).msg@ == request@
                            || reply.forward@[j].msg@ == (WireMsgView::IHave { topic, msg_id })
                    &&& sent_with(reply.forward@, request@) == (if fresh {
                        lookup(old(self).meshes(), topic).remove(from@)
                    } else {
                        Set::<Seq<u8>>::empty()
                    })
                    &&& sent_with(reply.forward@, WireMsgView::IHave { topic, msg_id }) == (if fresh {
                        lookup(old(self).subscriptions(), topic).difference(
                            lookup(old(self).meshes(), topic),
                        ).remove(from@)
                    } else {
                        Set::<Seq<u8>>::empty()
                    })
                    &&& !fresh ==> reply.forward.len() == 0
                },
                WireMsgView::Subscribe { topic } => {
                    &&& reply.ack.ok
                    &&& reply.forward.len() == 0
                    &&& final(self).seen == old(self).seen
                    &&& final(self).recent == old(self).recent
                    &&& final(self).subscriptions() == subscribed(old(self).subscriptions(), topic, from@)
                    &&& final(self).meshes() == old(self).meshes().insert(
                        topic,
                        lookup(old(self).meshes(), topic),
                    )
                },
                WireMsgView::Unsubscribe { topic } => {
                    &&& reply.ack.ok
                    &&& reply.forward.len() == 0
                    &&& final(self).seen == old(self).seen
                    &&& final(self).recent == old(self).recent
                    &&& final(self).subscriptions() == unsubscribed(old(self).subscriptions(), topic)
                    &&& final(self).meshes() == old(self).meshes().remove(topic)
                },
                WireMsgView::IHave { topic, msg_id } => {
                    &&& reply.ack.ok
                    &&& final(self).seen == old(self).seen
                    &&& final(self).recent == old(self).recent
                    &&& final(self).peer_subs == old(self).peer_subs
                    &&& out_views(reply.forward@) == (if old(self).seen.ids().contains(msg_id) {
                        Seq::<(Seq<u8>, WireMsgView)>::empty()
                    } else {
                        seq![(from@, WireMsgView::IWant { msg_id })]
                    })
                },
                WireMsgView::IWant { msg_id } => {
                    &&& reply.ack.ok
                    &&& final(self).seen == old(self).seen
                    &&& final(self).recent == old(self).recent
                    &&& final(self).peer_subs == old(self).peer_subs
                    &&& out_views(reply.forward@) == match first_stored(
                        stored_views(old(self).recent@),
                        msg_id,
                    ) {
                        Some((topic, data)) => seq![
                            (from@, WireMsgView::Publish { topic, msg_id, data }),
                        ],
                        None => Seq::<(Seq<u8>, WireMsgView)>::empty(),
                    }
                },
                WireMsgView::Graft { topic } => {
                    &&& reply.ack.ok
                    &&& reply.forward.len() == 0
                    &&& final(self).seen == old(self).seen
                    &&& final(self).recent == old(self).recent
                    &&& final(self).subscriptions() == subscribed(old(self).subscriptions(), topic, from@)
                    &&& final(self).meshes() == old(self).meshes().insert(
                        topic,
                        lookup(old(self).meshes(), topic).insert(from@),
                    )
                },
                WireMsgView::Prune { topic } => {
                    &&& reply.ack.ok
                    &&& reply.forward.len() == 0
                    &&& final(self).seen == old(self).seen
                    &&& final(self).recent == old(self).recent
                    &&& final(self).subscriptions() == old(self).subscriptions()
                    &&& final(self).meshes() == (if old(self).meshes().dom().contains(topic) {
                        old(self).meshes().insert(topic, old(self).meshes()[topic].remove(from@))
                    } else {
                        old(self).meshes()
                    })
                },
            },
    {
        match request {
            WireMsg::Publish { topic, msg_id, data } => self.on_publish(from, topic, msg_id, data, accepted),
            WireMsg::Subscribe { topic } => {
                self.peer_subscribe(from, topic);
                Reply { ack: Ack { ok: true }, forward: Vec::new() }
            },
            WireMsg::Unsubscribe { topic } => {
                self.peer_unsubscribe(from, &topic);
                Reply { ack: Ack { ok: true }, forward: Vec::new() }
            },
            WireMsg::IHave { topic: _, msg_id } => {
                let mut forward: Vec<Outgoing> = Vec::new();
                if !self.seen.contains(&msg_id) {
                    forward.push(Outgoing { to: from, msg: WireMsg::IWant { msg_id } });
                }
                assert(out_views(forward@) =~= (if old(self).seen.ids().contains(msg_id) {
                    Seq::<(Seq<u8>, WireMsgView)>::empty()
                } else {
                    seq![(from@, WireMsgView::IWant { msg_id })]
                }));
                Reply { ack: Ack { ok: true }, forward }
            },
            WireMsg::IWant { msg_id } => {
                let mut forward: Vec<Outgoing> = Vec::new();
                match find_stored(&self.recent, &msg_id) {
                    Some(j) => {
                        let msg = WireMsg::Publish {
                            topic: self.recent[j].topic.duplicate(),
                            msg_id,
                            data: self.recent[j].data.duplicate(),
                        };
                        forward.push(Outgoing { to: from, msg });
                    },
                    None => {},
                }
                assert(out_views(forward@) =~= match first_stored(
                    stored_views(self.recent@),
                    msg_id,
                ) {
                    Some((topic, data)) => seq![(from@, WireMsgView::Publish { topic, msg_id, data })],
                    None => Seq::<(Seq<u8>, WireMsgView)>::empty(),
                });
                Reply { ack: Ack { ok: true }, forward }
            },
            WireMsg::Graft { topic } => {
                self.peer_subscribe(copy_peer(&from), topic.duplicate());
                self.mesh_add(from, &topic);
                Reply { ack: Ack { ok: true }, forward: Vec::new() }
            },
            WireMsg::Prune { topic } => {
                self.mesh_drop(&from, &topic);
                Reply { ack: Ack { ok: true }, forward: Vec::new() }
            },
        }
    }

    /// Handles a publication of `data` under `msg_id` on `topic` from peer
    /// `from`, which the topic's hook `accepted` or not.
    fn on_publish(&mut self, from: PeerKey, topic: TopicId, msg_id: MsgId, data: Payload, accepted: bool) -> (reply: Reply)
        requires
            old(self).wf(),
        ensures
            final(self).wf(),
            final(self).local_subs == old(self).local_subs,
            final(self).autosub == old(self).autosub,
            final(self).autopub == old(self).autopub,
            final(self).peers == old(self).peers,
            distinct_targets(reply.forward@),
            ({
                let req = WireMsgView::Publish { topic: topic@, msg_id, data: data@ };
                let ihave = WireMsgView::IHave { topic: topic@, msg_id };
                let admitted = admits(data@, msg_id, accepted);
                let fresh = forwards_publication(old(self).seen.ids(), data@, msg_id, accepted);
                &&& reply.ack.ok == admitted
                &&& final(self).seen.wf()
                &&& final(self).seen.max_ids() == old(self).seen.max_ids()
                &&& final(self).seen.ids() == (if admitted {
                    after_insert(old(self).seen.ids(), old(self).seen.max_ids(), msg_id)
                } else {
                    old(self).seen.ids()
                })
                &&& final(self).peer_subs == old(self).peer_subs
                &&& stored_views(final(self).recent@) == (if fresh {
                    remembered(stored_views(old(self).recent@), (msg_id, topic@, data@))
                } else {
                    stored_views(old(self).recent@)
                })
                &&& forall|j: int|
                    0 <= j < reply.forward.len() ==> (#[trigger] reply.forward@[j]).msg@ == req
                        || reply.forward@[j].msg@ == ihave
                &&& sent_with(reply.forward@, req) == (if fresh {
                    lookup(old(self).meshes(), topic@).remove(from@)
                } else {
                    Set::<Seq<u8>>::empty()
                })
                &&& sent_with(reply.forward@, ihave) == (if fresh {
                    lookup(old(self).subscriptions(), topic@).difference(
                        lookup(old(self).meshes(), topic@),
                    ).remove(from@)
                } else {
                    Set::<Seq<u8>>::empty()
                })
                &&& !fresh ==> reply.forward.len() == 0
            }),
    {
        let ghost req = WireMsgView::Publish { topic: topic@, msg_id, data: data@ };
        let ghost ihave = WireMsgView::IHave { topic: topic@, msg_id };
        let computed = MsgId::from_data(data.0.as_slice());
        let admitted = computed.same_as(&msg_id) && accepted;
        let fresh = if admitted {
            self.seen.insert(&computed)
        } else {
            false
        };
        let mut forward: Vec<Outgoing> = Vec::new();
        if fresh {
            keep_recent(
                &mut self.recent,
                StoredMsg { id: msg_id, topic: topic.duplicate(), data: data.duplicate() },
            );
            match find_topic(&self.peer_subs, &topic) {
                Some(i) => {
                    proof {
                        lemma_map_at(self.peer_subs@, i as int);
                        assert(entry_wf(self.peer_subs@[i as int]));
                    }
                    let ps = &self.peer_subs[i].peers;
                    let ms = &self.peer_subs[i].mesh;
                    let mut k: usize = 0;
                    while k < ps.len()
                        invariant
                            k <= ps.len(),
                            req == (WireMsgView::Publish { topic: topic@, msg_id, data: data@ }),
                            ihave == (WireMsgView::IHave { topic: topic@, msg_id }),
                            distinct_peers(ps@),
                            forall|j: int|
                                0 <= j < forward.len() ==> (#[trigger] forward@[j]).msg@ == req
                                    || forward@[j].msg@ == ihave,
                            distinct_targets(forward@),
                            sent_to(forward@) == peer_set(ps@.subrange(0, k as int)).remove(from@),
                            sent_with(forward@, req) == peer_set(ps@.subrange(0, k as int)).intersect(
                                peer_set(ms@),
                            ).remove(from@),
                            sent_with(forward@, ihave) == peer_set(ps@.subrange(0, k as int)).difference(
                                peer_set(ms@),
                            ).remove(from@),
                        decreases ps.len() - k,
                    {
                        let ghost before = forward@;
                        let ghost upto = ps@.subrange(0, k as int);
                        let ghost next = ps@.subrange(0, k + 1);
                        let ghost p = ps@[k as int]@;
                        proof {
                            lemma_prefix_step(ps@, k as int);
                            assert(!peer_set(upto).contains(p)) by {
                                if peer_set(upto).contains(p) {
                                    let j = choose|j: int| 0 <= j < upto.len() && upto[j]@ == p;
                                    assert(ps@[j]@ == p);
                                }
                            }
                        }
                        if !same_peer(&ps[k], &from) {
                            let in_mesh = has_peer(ms, &ps[k]);
                            let msg = if in_mesh {
                                WireMsg::Publish { topic: topic.duplicate(), msg_id, data: data.duplicate() }
                            } else {
                                WireMsg::IHave { topic: topic.duplicate(), msg_id }
                            };
                            let out = Outgoing { to: copy_peer(&ps[k]), msg };
                            let ghost ov = out@;
                            forward.push(out);
                            proof {
                                lemma_push_out(before, forward@, req);
                                lemma_push_out(before, forward@, ihave);
                                assert(forward@.last()@ == ov);
                                assert forall|j: int| 0 <= j < forward.len() implies (
                                #[trigger] forward@[j]).msg@ == req || forward@[j].msg@ == ihave by {
                                    if j < before.len() {
                                        assert(forward@[j] == before[j]);
                                    }
                                }
                                assert forall|a: int, b: int|
                                    0 <= a < b < forward@.len() implies forward@[a].to@ != forward@[b].to@ by {
                                    if b == before.len() {
                                        assert(forward@[a] == before[a]);
                                        assert(sent_to(before).contains(before[a].to@));
                                    } else {
                                        assert(forward@[a] == before[a] && forward@[b] == before[b]);
                                    }
                                }
                                assert(sent_to(forward@) =~= peer_set(next).remove(from@));
                                assert(sent_with(forward@, req) =~= peer_set(next).intersect(
                                    peer_set(ms@),
                                ).remove(from@));
                                assert(sent_with(forward@, ihave) =~= peer_set(next).difference(
                                    peer_set(ms@),
                                ).remove(from@));
                            }
                        } else {
                            assert(sent_to(forward@) =~= peer_set(next).remove(from@));
                            assert(sent_with(forward@, req) =~= peer_set(next).intersect(peer_set(ms@)).remove(
                                from@,
                            ));
                            assert(sent_with(forward@, ihave) =~= peer_set(next).difference(
                                peer_set(ms@),
                            ).remove(from@));
                        }
                        k = k + 1;
                    }
                    proof {
                        assert(ps@.subrange(0, ps.len() as int) =~= ps@);
                        assert(peer_set(ps@).intersect(peer_set(ms@)) =~= peer_set(ms@));
                    }
                },
                None => {
                    assert(sent_with(forward@, req) =~= Set::<Seq<u8>>::empty());
                    assert(sent_with(forward@, ihave) =~= Set::<Seq<u8>>::empty());
                },
            }
        } else {
            assert(sent_with(forward@, req) =~= Set::<Seq<u8>>::empty());
            assert(sent_with(forward@, ihave) =~= Set::<Seq<u8>>::empty());
        }
        Reply { ack: Ack { ok: admitted }, forward }
    }

    /// Handles a connection to `peer`, which this node dialed when `dialer`
    /// holds.
    ///
    /// The first connection this node dials to a peer greets it: a
    /// subscription to the topic set by `set_autosub`, which becomes a topic
    /// of this node, then the publication set by `set_autopub`, under the
    /// digest of its data. Any other connection changes nothing.
    pub fn on_connected(&mut self, peer: &PeerKey, dialer: bool) -> (out: Vec<Outgoing>)
        requires
            old(self).wf(),
        ensures
            final(self).wf(),
            final(self).seen == old(self).seen,
            final(self).peer_subs == old(self).peer_subs,
            final(self).autosub == old(self).autosub,
            final(self).autopub == old(self).autopub,
            final(self).recent == old(self).recent,
            ({
                let first = first_dialed(old(self).greeted(), peer@, dialer);
                &&& final(self).greeted() == greeted_after(old(self).greeted(), peer@, dialer)
                &&& out_views(out@) == (if first {
                    greeting(peer@, old(self).autosub, old(self).autopub)
                } else {
                    Seq::<(Seq<u8>, WireMsgView)>::empty()
                })
                &&& final(self).local_topics() == (if first && old(self).autosub is Some {
                    old(self).local_topics().insert(old(self).autosub->0@)
                } else {
                    old(self).local_topics()
                })
            }),
    {
        let mut out: Vec<Outgoing> = Vec::new();
        if dialer && !has_peer(&self.peers, peer) {
            let key = copy_peer(peer);
            proof {
                lemma_peer_push(self.peers@, key);
            }
            self.peers.push(key);
            let sub = match &self.autosub {
                Some(topic) => Some(topic.duplicate()),
                None => None,
            };
            match sub {
                Some(topic) => {
                    out.push(Outgoing { to: copy_peer(peer), msg: WireMsg::Subscribe { topic: topic.duplicate() } });
                    insert_topic(&mut self.local_subs, topic);
                },
                None => {},
            }
            match &self.autopub {
                Some((topic, data)) => {
                    let bytes = data.clone();
                    assert(bytes@ =~= data@);
                    let id = MsgId::from_data(data.as_slice());
                    out.push(
                        Outgoing {
                            to: copy_peer(peer),
                            msg: WireMsg::Publish { topic: topic.duplicate(), msg_id: id, data: Payload(bytes) },
                        },
                    );
                },
                None => {},
            }
            proof {
                let g = greeting(peer@, old(self).autosub, old(self).autopub);
                assert(out_views(out@) =~= g);
            }
        } else {
            assert(out_views(out@) =~= Seq::<(Seq<u8>, WireMsgView)>::empty());
        }
        out
    }

    /// One heartbeat: brings the mesh of every topic within the bounds,
    /// grafting subscribers into a small mesh and pruning a large one, and
    /// returns the `Graft` and `Prune` requests that tell the peers.
    pub fn heartbeat(&mut self) -> (out: Vec<Outgoing>)
        requires
            old(self).wf(),
        ensures
            final(self).wf(),
            final(self).subscriptions() == old(self).subscriptions(),
            final(self).meshes().dom() == old(self).meshes().dom(),
            forall|t: Seq<char>|
                #![trigger final(self).meshes()[t]]
                old(self).meshes().dom().contains(t) ==> mesh_rebalanced(
                    old(self).subscriptions()[t],
                    old(self).meshes()[t],
                    final(self).meshes()[t],
                ) && mesh_in_bounds(final(self).subscriptions()[t], final(self).meshes()[t]),
            out_views(out@).to_set() == heartbeat_control(old(self).meshes(), final(self).meshes()),
            out_views(out@).no_duplicates(),
            final(self).seen == old(self).seen,
            final(self).local_subs == old(self).local_subs,
            final(self).autosub == old(self).autosub,
            final(self).autopub == old(self).autopub,
            final(self).peers == old(self).peers,
            final(self).recent == old(self).recent,
    {
        let ghost orig = self.peer_subs@;
        let mut out: Vec<Outgoing> = Vec::new();
        let mut i: usize = 0;
        while i < self.peer_subs.len()
            invariant
                i <= self.peer_subs.len(),
                self.peer_subs.len() == orig.len(),
                orig == old(self).peer_subs@,
                entries_wf(orig),
                forall|j: int|
                    0 <= j < orig.len() ==> (#[trigger] self.peer_subs@[j]).topic == orig[j].topic
                        && self.peer_subs@[j].peers == orig[j].peers && entry_wf(self.peer_subs@[j]),
                forall|j: int|
                    #![trigger self.peer_subs@[j]]
                    0 <= j < i ==> mesh_rebalanced(
                        peer_set(orig[j].peers@),
                        peer_set(orig[j].mesh@),
                        peer_set(self.peer_subs@[j].mesh@),
                    ),
                forall|j: int| i <= j < orig.len() ==> #[trigger] self.peer_subs@[j] == orig[j],
                forall|m: (Seq<u8>, WireMsgView)|
                    out_views(out@).to_set().contains(m) <==> exists|j: int|
                        0 <= j < i && #[trigger] mesh_control(
                            orig[j].topic@,
                            peer_set(orig[j].mesh@),
                            peer_set(self.peer_subs@[j].mesh@),
                        ).contains(m),
                out_views(out@).no_duplicates(),
                self.seen == old(self).seen,
                self.local_subs == old(self).local_subs,
                self.autosub == old(self).autosub,
                self.autopub == old(self).autopub,
                self.peers == old(self).peers,
                self.recent == old(self).recent,
            decreases orig.len() - i,
        {
            let ghost before = self.peer_subs@;
            let ghost ob = out@;
            let mut entry = self.peer_subs.remove(i);
            proof {
                assert(entry == orig[i as int]);
                assert(entry_wf(orig[i as int]));
            }
            let (mesh, mut msgs) = rebalance(&entry.topic, &entry.peers, &entry.mesh);
            let ghost mv = msgs@;
            entry.mesh = mesh;
            let ghost e = entry;
            self.peer_subs.insert(i, entry);
            out.append(&mut msgs);
            proof {
                assert(self.peer_subs@ =~= before.update(i as int, e));
                assert(out@ =~= ob + mv);
                assert(out_views(out@) =~= out_views(ob) + out_views(mv));
                let ctl_i = mesh_control(orig[i as int].topic@, peer_set(orig[i as int].mesh@), peer_set(e.mesh@));
                assert forall|a: int, b: int|
                    0 <= a < out_views(ob).len() && 0 <= b < out_views(mv).len() implies out_views(ob)[a]
                    != out_views(mv)[b] by {
                    let m = out_views(ob)[a];
                    if m == out_views(mv)[b] {
                        assert(out_views(ob).to_set().contains(m));
                        let j = choose|j: int|
                            0 <= j < i && #[trigger] mesh_control(
                                orig[j].topic@,
                                peer_set(orig[j].mesh@),
                                peer_set(before[j].mesh@),
                            ).contains(m);
                        assert(out_views(mv).to_set().contains(m));
                        assert(ctl_i.contains(m));
                        assert(orig[j].topic@ != orig[i as int].topic@);
                    }
                }
                vstd::seq_lib::lemma_no_dup_in_concat(out_views(ob), out_views(mv));
                assert forall|j: int| 0 <= j < orig.len() implies (#[trigger] self.peer_subs@[j]).topic
                    == orig[j].topic && self.peer_subs@[j].peers == orig[j].peers && entry_wf(
                    self.peer_subs@[j],
                ) by {
                    if j == i {
                        assert(peer_set(e.mesh@).subset_of(peer_set(e.peers@)));
                    }
                }
                assert forall|m: (Seq<u8>, WireMsgView)|
                    out_views(out@).to_set().contains(m) <==> exists|j: int|
                        0 <= j < i + 1 && #[trigger] mesh_control(
                            orig[j].topic@,
                            peer_set(orig[j].mesh@),
                            peer_set(self.peer_subs@[j].mesh@),
                        ).contains(m) by {
                    let ctl_i = mesh_control(orig[i as int].topic@, peer_set(orig[i as int].mesh@), peer_set(e.mesh@));
                    assert(out_views(mv).to_set() == ctl_i);
                    if out_views(out@).to_set().contains(m) {
                        let k = choose|k: int| 0 <= k < out@.len() && out_views(out@)[k] == m;
                        if k < ob.len() {
                            assert(out_views(ob)[k] == m);
                            assert(out_views(ob).to_set().contains(m));
                            let j = choose|j: int|
                                0 <= j < i && #[trigger] mesh_control(
                                    orig[j].topic@,
                                    peer_set(orig[j].mesh@),
                                    peer_set(before[j].mesh@),
                                ).contains(m);
                            assert(self.peer_subs@[j] == before[j]);
                        } else {
                            assert(out_views(mv)[k - ob.len()] == m);
                            assert(out_views(mv).to_set().contains(m));
                            assert(self.peer_subs@[i as int] == e);
                        }
                    }
                    if exists|j: int|
                        0 <= j < i + 1 && #[trigger] mesh_control(
                            orig[j].topic@,
                            peer_set(orig[j].mesh@),
                            peer_set(self.peer_subs@[j].mesh@),
                        ).contains(m) {
                        let j = choose|j: int|
                            0 <= j < i + 1 && #[trigger] mesh_control(
                                orig[j].topic@,
                                peer_set(orig[j].mesh@),
                                peer_set(self.peer_subs@[j].mesh@),
                            ).contains(m);
                        if j < i {
                            assert(self.peer_subs@[j] == before[j]);
                            assert(out_views(ob).to_set().contains(m));
                            let k = choose|k: int| 0 <= k < ob.len() && out_views(ob)[k] == m;
                            assert(out_views(out@)[k] == m);
                        } else {
                            assert(self.peer_subs@[j] == e);
                            assert(out_views(mv).to_set().contains(m));
                            let k = choose|k: int| 0 <= k < mv.len() && out_views(mv)[k] == m;
                            assert(out_views(out@)[ob.len() + k] == m);
                        }
                    }
                }
            }
            i = i + 1;
        }
        proof {
            let cur = self.peer_subs@;
            assert forall|a: int, b: int| 0 <= a < b < cur.len() implies cur[a].topic@ != cur[b].topic@ by {
                assert(cur[a].topic == orig[a].topic && cur[b].topic == orig[b].topic);
            }
            assert(entries_wf(cur));
            assert forall|t: Seq<char>| has_topic(cur, t) <==> has_topic(orig, t) by {
                if has_topic(cur, t) {
                    let j = choose|j: int| 0 <= j < cur.len() && cur[j].topic@ == t;
                    assert(cur[j].topic == orig[j].topic);
                }
                if has_topic(orig, t) {
                    let j = choose|j: int| 0 <= j < orig.len() && orig[j].topic@ == t;
                    assert(cur[j].topic == orig[j].topic);
                }
            }
            assert forall|t: Seq<char>| #[trigger] subscription_map(cur).dom().contains(t) implies subscription_map(
                cur,
            )[t] == subscription_map(orig)[t] && mesh_rebalanced(
                subscription_map(orig)[t],
                mesh_map(orig)[t],
                mesh_map(cur)[t],
            ) by {
                let j = choose|j: int| 0 <= j < cur.len() && cur[j].topic@ == t;
                assert(cur[j].topic == orig[j].topic);
                lemma_map_at(cur, j);
                lemma_map_at(orig, j);
            }
            assert(subscription_map(cur) =~= subscription_map(orig));
            assert(mesh_map(cur).dom() =~= mesh_map(orig).dom());
            let hc = heartbeat_control(mesh_map(orig), mesh_map(cur));
            assert forall|m: (Seq<u8>, WireMsgView)| out_views(out@).to_set().contains(m) <==> hc.contains(m) by {
                if out_views(out@).to_set().contains(m) {
                    let j = choose|j: int|
                        0 <= j < orig.len() && #[trigger] mesh_control(
                            orig[j].topic@,
                            peer_set(orig[j].mesh@),
                            peer_set(cur[j].mesh@),
                        ).contains(m);
                    lemma_map_at(cur, j);
                    lemma_map_at(orig, j);
                    assert(cur[j].topic == orig[j].topic);
                    let t = orig[j].topic@;
                    assert(mesh_control(t, mesh_map(orig)[t], mesh_map(cur)[t]).contains(m));
                }
                if hc.contains(m) {
                    let t = choose|t: Seq<char>|
                        mesh_map(orig).dom().contains(t) && #[trigger] mesh_control(
                            t,
                            mesh_map(orig)[t],
                            mesh_map(cur)[t],
                        ).contains(m);
                    let j = choose|j: int| 0 <= j < orig.len() && orig[j].topic@ == t;
                    lemma_map_at(cur, j);
                    lemma_map_at(orig, j);
                    assert(cur[j].topic == orig[j].topic);
                    assert(mesh_control(orig[j].topic@, peer_set(orig[j].mesh@), peer_set(cur[j].mesh@)).contains(
                        m,
                    ));
                }
            }
            assert(out_views(out@).to_set() =~= hc);
        }
        out
    }
}

} // verus!
