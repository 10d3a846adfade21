use vstd::prelude::*;

use crate::allocation::{configs_view, relays_updated, RelayConfig};
use crate::connection::Candidate;
use crate::intents::{ResourceId, SentConnectionIntents};
use crate::node::{without, Client, Node};
use crate::phoenix::OutboundRequestId;

verus! {

/// A message from the portal that the client's node acts on.
pub enum IngressMessage {
    /// Candidates that gateway `gateway` signalled.
    IceCandidates { gateway: u64, candidates: Vec<Candidate> },
    /// Candidates that gateway `gateway` withdrew.
    InvalidateIceCandidates { gateway: u64, candidates: Vec<Candidate> },
    /// Relays that went away and relays that are there.
    RelaysPresence { disconnected: Vec<u64>, connected: Vec<RelayConfig> },
}

/// The remote candidates `s` after each of `cs` was signalled, in order.
pub open spec fn with_all(s: Seq<Candidate>, cs: Seq<Candidate>) -> Seq<Candidate>
    decreases cs.len(),
{
    if cs.len() == 0 {
        s
    } else {
        let prev = with_all(s, cs.drop_last());
        if prev.contains(cs.last()) { prev } else { prev.push(cs.last()) }
    }
}

/// The remote candidates `s` after each of `cs` was withdrawn.
pub open spec fn without_all(s: Seq<Candidate>, cs: Seq<Candidate>) -> Seq<Candidate>
    decreases cs.len(),
{
    if cs.len() == 0 {
        s
    } else {
        without(without_all(s, cs.drop_last()), cs.last())
    }
}

/// Hands a portal message to the client's node: candidates go to the
/// gateway's connection, relay changes to the allocations.
pub fn handle_ingress_message(node: &mut Node<Client>, msg: IngressMessage)
    requires
        old(node).wf(),
    ensures
        final(node).wf(),
        final(node).ids() == old(node).ids(),
        match msg {
            IngressMessage::IceCandidates { gateway, candidates } => forall|k: int|
                0 <= k < old(node).ids().len() && old(node).ids()[k] == gateway ==> #[trigger] final(node).infos()[k].remotes
                    == with_all(old(node).infos()[k].remotes, candidates@),
            IngressMessage::InvalidateIceCandidates { gateway, candidates } => forall|k: int|
                0 <= k < old(node).ids().len() && old(node).ids()[k] == gateway ==> #[trigger] final(node).infos()[k].remotes
                    == without_all(old(node).infos()[k].remotes, candidates@),
            IngressMessage::RelaysPresence { disconnected, connected } => final(node).relays()
                == relays_updated(old(node).relays(), disconnected@, configs_view(connected@)),
        },
{
    match msg {
        IngressMessage::IceCandidates { gateway, candidates } => {
            let mut i: usize = 0;
            while i < candidates.len()
                invariant
                    node.wf(),
                    0 <= i <= candidates@.len(),
                    node.ids() == old(node).ids(),
                    forall|k: int| 0 <= k < old(node).ids().len() && old(node).ids()[k] == gateway ==> #[trigger] node.infos()[k].remotes
                        == with_all(old(node).infos()[k].remotes, candidates@.subrange(0, i as int)),
                decreases candidates@.len() - i,
            {
                proof {
                    let sub = candidates@.subrange(0, i + 1);
                    assert(sub.drop_last() =~= candidates@.subrange(0, i as int));
                    assert(sub.last() == candidates@[i as int]);
                }
                node.add_remote_candidate(gateway, candidates[i]);
                i += 1;
            }
            proof {
                assert(candidates@.subrange(0, candidates@.len() as int) =~= candidates@);
            }
        },
        IngressMessage::InvalidateIceCandidates { gateway, candidates } => {
            let mut i: usize = 0;
            while i < candidates.len()
                invariant
                    node.wf(),
                    0 <= i <= candidates@.len(),
                    node.ids() == old(node).ids(),
                    forall|k: int| 0 <= k < old(node).ids().len() && old(node).ids()[k] == gateway ==> #[trigger] node.infos()[k].remotes
                        == without_all(old(node).infos()[k].remotes, candidates@.subrange(0, i as int)),
                decreases candidates@.len() - i,
            {
                proof {
                    let sub = candidates@.subrange(0, i + 1);
                    assert(sub.drop_last() =~= candidates@.subrange(0, i as int));
                    assert(sub.last() == candidates@[i as int]);
                }
                node.remove_remote_candidate(gateway, candidates[i]);
                i += 1;
            }
            proof {
                assert(candidates@.subrange(0, candidates@.len() as int) =~= candidates@);
            }
        },
        IngressMessage::RelaysPresence { disconnected, connected } => {
            node.update_relays(&disconnected, &connected);
        },
    }
}

/// The connection the portal's details ask the client to set up.
#[derive(Debug, Clone, Copy, PartialEq, Eq)]
pub struct ConnectionRequest {
    pub resource: ResourceId,
    pub gateway: u64,
    pub site: u64,
}

/// Takes the connection details that the portal sent for request
/// `reference`: they are used only when they answer the latest intent still
/// registered for the resource, and then say which connection to request.
pub fn handle_connection_details(
    intents: &mut SentConnectionIntents,
    reference: OutboundRequestId,
    resource: ResourceId,
    gateway: u64,
    site: u64,
) -> (r: Option<ConnectionRequest>)
    requires
        old(intents).wf(),
    ensures
        final(intents).wf(),
        r.is_some() == crate::intents::is_latest_intent(old(intents)@, reference@, resource@),
        r.is_some() ==> r == Some(ConnectionRequest { resource, gateway, site })
            && final(intents)@ == crate::intents::without_resource(old(intents)@, resource@),
        r.is_none() ==> final(intents)@ == old(intents)@,
{
    if intents.handle_connection_details_received(reference, resource) {
        Some(ConnectionRequest { resource, gateway, site })
    } else {
        None
    }
}

} // verus!
