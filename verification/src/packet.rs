//! Control packets exchanged with directly-connected peers.
//!
//! Wire encoding is the transport collaborator's concern; the routing core
//! only constructs the packets as plain values and says who receives them.

use vstd::prelude::*;
use crate::metric::Metric;
use crate::router_id::RouterId;
use crate::sequence_number::SeqNo;
use crate::subnet::Subnet;

verus! {

/// Kind of a control packet.
#[derive(Clone, Copy, Debug, PartialEq, Eq, Structural)]
pub enum ControlPacketType {
    /// Liveness/neighbour discovery; carries no body.
    Hello,
    /// A route advertisement or retraction; carries an [`UpdateBody`].
    Update,
}

/// Body of a route update: the advertised subnet, its origin, and the
/// (seqno, metric) pair as seen by the sender.
#[derive(Clone, Copy, Debug, PartialEq, Eq, Structural)]
pub struct UpdateBody {
    pub subnet: Subnet,
    pub router_id: RouterId,
    pub seqno: SeqNo,
    pub metric: Metric,
}

/// A control packet addressed to one peer.
#[derive(Clone, Copy, Debug, PartialEq, Eq, Structural)]
pub struct ControlPacket {
    pub message_type: ControlPacketType,
    pub body_length: u16,
    pub body: Option<UpdateBody>,
}

impl ControlPacket {
    /// The zero-body Hello packet used for liveness.
    pub fn hello() -> (r: ControlPacket)
        ensures
            r.message_type == ControlPacketType::Hello,
            r.body_length == 0,
            r.body is None,
    {
        ControlPacket { message_type: ControlPacketType::Hello, body_length: 0, body: None }
    }

    /// A route update packet carrying the given advertisement. The wire
    /// length of the body is assigned by the transport encoder, not here.
    pub fn update(body: UpdateBody) -> (r: ControlPacket)
        ensures
            r.message_type == ControlPacketType::Update,
            r.body_length == 0,
            r.body == Some(body),
    {
        ControlPacket {
            message_type: ControlPacketType::Update,
            body_length: 0,
            body: Some(body),
        }
    }
}

} // verus!
