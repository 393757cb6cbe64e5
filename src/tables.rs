//! The routing tables of a node: faces, resources with their declaration
//! scopes, and the link-state views of the router and peer networks.
//!
//! Resources and faces are identified by their position in `resources`
//! and `faces`. Declarations that the engine decides to send are returned
//! as [`Outbound`] values for the transport to deliver.

use vstd::prelude::*;

verus! {

/// The bytes of `@/liveliness`, the prefix of the key expressions that
/// carry liveliness tokens.
pub open spec fn liveliness_prefix() -> Seq<u8> {
    seq![64u8, 47u8, 108u8, 105u8, 118u8, 101u8, 108u8, 105u8, 110u8, 101u8, 115u8, 115u8]
}

/// The key expression `expr` starts with the liveliness prefix.
pub open spec fn is_liveliness(expr: Seq<char>) -> bool {
    let b = vstd::utf8::encode_utf8(expr);
    b.len() >= liveliness_prefix().len() && b.subrange(0, liveliness_prefix().len() as int)
        == liveliness_prefix()
}

/// Whether a key expression starts with the liveliness prefix.
pub fn starts_with_liveliness(expr: &String) -> (r: bool)
    ensures
        r == is_liveliness(expr@),
{
    let prefix: Vec<u8> = vec![64u8, 47u8, 108u8, 105u8, 118u8, 101u8, 108u8, 105u8, 110u8, 101u8, 115u8, 115u8];
    assert(prefix@ =~= liveliness_prefix());
    let b = expr.as_str().as_bytes();
    if b.len() < prefix.len() {
        return false;
    }
    let mut k: usize = 0;
    while k < prefix.len()
        invariant
            k <= prefix@.len(),
            prefix@.len() <= b@.len(),
            prefix@ == liveliness_prefix(),
            b@ == vstd::utf8::encode_utf8(expr@),
            forall|j: int| 0 <= j < k ==> b@[j] == prefix@[j],
        decreases prefix@.len() - k,
    {
        if b[k] != prefix[k] {
            assert(b@.subrange(0, prefix@.len() as int)[k as int] != liveliness_prefix()[k as int]);
            return false;
        }
        k = k + 1;
    }
    assert(b@.subrange(0, prefix@.len() as int) =~= liveliness_prefix());
    true
}

/// The role of a node in the overlay.
#[derive(Clone, Copy, Debug, PartialEq, Eq, Hash, Structural)]
pub enum WhatAmI {
    Router,
    Peer,
    Client,
}

/// A node identity.
#[derive(Clone, Copy, Debug, PartialEq, Eq, Hash, Structural)]
pub struct ZenohId {
    pub id: u128,
}

/// Reliability a subscriber asks for.
#[derive(Clone, Copy, Debug, PartialEq, Eq, Structural)]
pub enum Reliability {
    Reliable,
    BestEffort,
}

/// Whether samples are pushed to a subscriber or pulled by it.
#[derive(Clone, Copy, Debug, PartialEq, Eq, Structural)]
pub enum Mode {
    Push,
    Pull,
}

#[derive(Clone, Copy, Debug, PartialEq, Eq, Structural)]
pub struct SubscriberInfo {
    pub reliability: Reliability,
    pub mode: Mode,
}

/// What a queryable announces: how complete its answers are and how far
/// away it is.
#[derive(Clone, Copy, Debug, PartialEq, Eq, Structural)]
pub struct QueryableInfo {
    pub complete: u8,
    pub distance: u8,
}

/// The client-scope registrations of one face on one resource.
#[derive(Clone, Copy, Debug, PartialEq, Eq, Structural)]
pub struct SessionContext {
    pub face: usize,
    pub subs: Option<SubscriberInfo>,
    pub qabl: Option<QueryableInfo>,
}

/// One node of the key-expression trie with its declarations.
#[derive(Clone, Debug)]
pub struct Resource {
    pub expr: String,
    pub router_subs: Vec<ZenohId>,
    pub peer_subs: Vec<ZenohId>,
    pub router_qabls: Vec<(ZenohId, QueryableInfo)>,
    pub peer_qabls: Vec<(ZenohId, QueryableInfo)>,
    pub session_ctxs: Vec<SessionContext>,
}

/// A session to one remote node.
#[derive(Clone, Debug)]
pub struct FaceState {
    pub id: usize,
    pub zid: ZenohId,
    pub whatami: WhatAmI,
    pub local_subs: Vec<usize>,
    pub remote_subs: Vec<usize>,
    pub local_qabls: Vec<(usize, QueryableInfo)>,
    pub remote_qabls: Vec<usize>,
}

/// A node of a link-state graph, with the nodes it is linked to.
#[derive(Clone, Debug)]
pub struct Node {
    pub zid: ZenohId,
    pub links: Vec<ZenohId>,
}

/// A read-only view of a link-state network: its nodes, and for each
/// source index the children of that source in its spanning tree.
#[derive(Clone, Debug)]
pub struct Network {
    pub nodes: Vec<Node>,
    pub trees: Vec<Vec<usize>>,
}

/// The body of a declaration sent on a face.
#[derive(Clone, Copy, Debug, PartialEq, Eq, Structural)]
pub enum Declaration {
    DeclareSubscriber { res: usize, info: SubscriberInfo },
    UndeclareSubscriber { res: usize },
    DeclareQueryable { res: usize, info: QueryableInfo },
    UndeclareQueryable { res: usize },
}

/// A declaration to send on face `face`, routed along the tree of source
/// `node_id` (0 when it is not sourced).
#[derive(Clone, Copy, Debug, PartialEq, Eq, Structural)]
pub struct Outbound {
    pub face: usize,
    pub node_id: u16,
    pub body: Declaration,
}

/// The routing tables of this node.
#[derive(Clone, Debug)]
pub struct Tables {
    pub zid: ZenohId,
    pub whatami: WhatAmI,
    pub full_peer_net: bool,
    pub faces: Vec<FaceState>,
    pub resources: Vec<Resource>,
    pub router_subs: Vec<usize>,
    pub peer_subs: Vec<usize>,
    pub router_qabls: Vec<usize>,
    pub peer_qabls: Vec<usize>,
    pub routers_net: Option<Network>,
    pub peers_net: Option<Network>,
}

/// Index of the first node of `nodes` with identity `z`, or -1.
pub open spec fn find_node(nodes: Seq<Node>, z: ZenohId) -> int
    decreases nodes.len(),
{
    if nodes.len() == 0 {
        -1
    } else if find_node(nodes.drop_last(), z) >= 0 {
        find_node(nodes.drop_last(), z)
    } else if nodes.last().zid == z {
        nodes.len() - 1
    } else {
        -1
    }
}

/// `dest` is not among `links`: a node with these links needs a broker to
/// reach it.
pub open spec fn brokering_to(links: Seq<ZenohId>, dest: ZenohId) -> bool {
    !links.contains(dest)
}

/// Both peers are in the peer network and `b` is not linked from `a`.
pub open spec fn brokering(peers: Option<Network>, a: ZenohId, b: ZenohId) -> bool {
    match peers {
        Some(net) => {
            let ia = find_node(net.nodes@, a);
            &&& ia >= 0
            &&& find_node(net.nodes@, b) >= 0
            &&& brokering_to(net.nodes@[ia].links@, b)
        },
        None => false,
    }
}

/// Whether a subscription declared by a `src` face goes to a `dst` face,
/// on a node of role `local`.
pub open spec fn sub_allowed(
    local: WhatAmI,
    full_peer_net: bool,
    src: WhatAmI,
    dst: WhatAmI,
    broker: bool,
) -> bool {
    match local {
        WhatAmI::Router => if full_peer_net {
            dst == WhatAmI::Client
        } else {
            dst != WhatAmI::Router && (src != WhatAmI::Peer || dst != WhatAmI::Peer || broker)
        },
        WhatAmI::Peer => if full_peer_net {
            dst == WhatAmI::Client
        } else {
            src == WhatAmI::Client || dst == WhatAmI::Client
        },
        WhatAmI::Client => src == WhatAmI::Client || dst == WhatAmI::Client,
    }
}

/// Index of the first node with identity `z`, if any.
pub fn get_idx(net: &Network, z: ZenohId) -> (r: Option<usize>)
    ensures
        r matches Some(k) ==> k == find_node(net.nodes@, z) && k < net.nodes@.len(),
        r is None ==> find_node(net.nodes@, z) == -1,
{
    let mut k: usize = 0;
    while k < net.nodes.len()
        invariant
            k <= net.nodes@.len(),
            find_node(net.nodes@.subrange(0, k as int), z) == -1,
        decreases net.nodes@.len() - k,
    {
        assert(net.nodes@.subrange(0, k + 1).drop_last() =~= net.nodes@.subrange(0, k as int));
        if net.nodes[k].zid == z {
            proof { lemma_find_node_prefix(net.nodes@, z, k as int + 1); }
            return Some(k);
        }
        k = k + 1;
    }
    assert(net.nodes@.subrange(0, k as int) =~= net.nodes@);
    None
}

proof fn lemma_find_node_prefix(nodes: Seq<Node>, z: ZenohId, n: int)
    requires
        0 < n <= nodes.len(),
        find_node(nodes.subrange(0, n), z) >= 0,
    ensures
        find_node(nodes, z) == find_node(nodes.subrange(0, n), z),
    decreases nodes.len() - n,
{
    if n < nodes.len() {
        assert(nodes.subrange(0, n + 1).drop_last() =~= nodes.subrange(0, n));
        lemma_find_node_prefix(nodes, z, n + 1);
    } else {
        assert(nodes.subrange(0, n) =~= nodes);
    }
}

/// Whether `dest` is missing from `links`.
pub fn failover_brokering_to(links: &Vec<ZenohId>, dest: ZenohId) -> (r: bool)
    ensures
        r == brokering_to(links@, dest),
{
    let mut k: usize = 0;
    while k < links.len()
        invariant
            k <= links@.len(),
            forall|j: int| 0 <= j < k ==> links@[j] != dest,
        decreases links@.len() - k,
    {
        if links[k] == dest {
            assert(links@[k as int] == dest);
            return false;
        }
        k = k + 1;
    }
    true
}

impl Tables {
    /// Whether this node must broker between peers `a` and `b`: both are in
    /// the peer network and `b` is not linked from `a`.
    pub fn failover_brokering(&self, a: ZenohId, b: ZenohId) -> (r: bool)
        ensures
            r == brokering(self.peers_net, a, b),
    {
        match &self.peers_net {
            Some(net) => {
                match get_idx(net, a) {
                    Some(ia) => {
                        if get_idx(net, b).is_none() {
                            return false;
                        }
                        failover_brokering_to(&net.nodes[ia].links, b)
                    },
                    None => false,
                }
            },
            None => false,
        }
    }
}

} // verus!
