# gossimini

A tiny gossip node: peers subscribe to topics and publish messages on them.
For each topic a node keeps a mesh of about `MESH_D` subscribers, which a
periodic heartbeat rebalances with `Graft` and `Prune`. A new publication
that its id matches (the digest of its payload) and its topic's validation
hook accepts goes in full to the mesh; the other subscribers get a short
`IHave` and pull the payload with `IWant`. Repeats are dropped by
remembering the ids seen.

Layout:

- `src/` is the verified library (Verus):
  - `message.rs`: topics, message ids (and the digest that names a
    payload), payloads, requests and acks;
  - `seen.rs`: the bounded set of seen ids that empties itself when full;
  - `cache.rs`: a seen-id cache on `lru::LruCache`, which forgets the least
    recently seen id first;
  - `node.rs`: a node's state (seen ids, subscriptions and meshes, recent
    publications, automatic subscription and publication) and its decisions
    on each request, each new connection and each heartbeat;
  - `gossip.rs`: the request/response protocol's name.
- `app/` is the program around it: the JSON wire format (serde), the libp2p
  swarm that carries out the library's decisions, and the command line.
- `tests/` exercises the library.
