//! The name of the request/response protocol nodes speak.

use vstd::prelude::*;

verus! {

/// The gossip request/response protocol.
pub struct GossipProtocol;

/// A protocol that names itself on the wire.
pub trait ProtocolName {
    /// The protocol's name, as bytes.
    fn protocol_name() -> &'static [u8];
}

/// The bytes of `/gossimini/req/1.0.0`.
pub open spec fn gossip_protocol_name() -> Seq<u8> {
    seq![
        47u8, 103u8, 111u8, 115u8, 115u8, 105u8, 109u8, 105u8, 110u8, 105u8, 47u8,
        114u8, 101u8, 113u8, 47u8, 49u8, 46u8, 48u8, 46u8, 48u8,
    ]
}

/// The bytes of `/gossimini/req/1.0.0`.
const GOSSIP_PROTOCOL_NAME: [u8; 20] = [
    47, 103, 111, 115, 115, 105, 109, 105, 110, 105, 47, 114, 101, 113, 47, 49, 46, 48, 46, 48,
];

impl ProtocolName for GossipProtocol {
    fn protocol_name() -> (name: &'static [u8])
        ensures
            name@ == gossip_protocol_name(),
    {
        let name: &'static [u8] = &GOSSIP_PROTOCOL_NAME;
        assert(name@ =~= gossip_protocol_name());
        name
    }
}

/// The codec of the gossip protocol.
pub struct GossipCodec;

/// A request of the gossip protocol, encoded.
pub type GossipRequest = Vec<u8>;

/// A response of the gossip protocol, encoded.
pub type GossipResponse = Vec<u8>;

} // verus!
