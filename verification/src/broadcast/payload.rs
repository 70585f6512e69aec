//! The payloads of the broadcast workload.

use crate::node_map::NodeMap;
use std::collections::HashSet;
use vstd::prelude::*;

verus! {

/// What a message of the broadcast workload says.
#[derive(Debug)]
pub enum Payload {
    /// A client asks the node to accept a value.
    Broadcast { message: u64 },
    BroadcastOk,
    /// A client asks for the values the node has accepted.
    Read,
    ReadOk { messages: HashSet<u64> },
    /// The harness tells each node who its neighbours are.
    Topology { topology: NodeMap<Vec<String>> },
    TopologyOk,
    /// A neighbour pushes values that it believes the receiver lacks.
    Gossip { messages: HashSet<u64> },
    /// The acknowledgement of a gossip, itself carrying values for the sender.
    GossipOk { messages: HashSet<u64> },
}

/// What the node's own timer injects into its event stream.
#[derive(Debug, Clone, Copy, PartialEq, Eq, Structural)]
pub enum InjectedPayload {
    /// It is time for another gossip round.
    Gossip,
}

/// A payload as a mathematical value.
#[verifier::ext_equal]
pub enum PayloadView {
    Broadcast { message: u64 },
    BroadcastOk,
    Read,
    ReadOk { messages: Set<u64> },
    Topology { topology: Map<Seq<char>, Seq<Seq<char>>> },
    TopologyOk,
    Gossip { messages: Set<u64> },
    GossipOk { messages: Set<u64> },
}

/// The identifiers of a list of nodes, as character sequences.
pub open spec fn node_ids(nodes: Seq<String>) -> Seq<Seq<char>> {
    nodes.map_values(|n: String| n@)
}

/// A topology as a map from each node's identifier to its neighbours'.
pub open spec fn topology_view(topology: Map<Seq<char>, Vec<String>>) -> Map<
    Seq<char>,
    Seq<Seq<char>>,
> {
    topology.map_values(|neighbors: Vec<String>| node_ids(neighbors@))
}

impl View for Payload {
    type V = PayloadView;

    open spec fn view(&self) -> PayloadView {
        match self {
            Payload::Broadcast { message } => PayloadView::Broadcast { message: *message },
            Payload::BroadcastOk => PayloadView::BroadcastOk,
            Payload::Read => PayloadView::Read,
            Payload::ReadOk { messages } => PayloadView::ReadOk { messages: messages@ },
            Payload::Topology { topology } => PayloadView::Topology {
                topology: topology_view(topology@),
            },
            Payload::TopologyOk => PayloadView::TopologyOk,
            Payload::Gossip { messages } => PayloadView::Gossip { messages: messages@ },
            Payload::GossipOk { messages } => PayloadView::GossipOk { messages: messages@ },
        }
    }
}

} // verus!
