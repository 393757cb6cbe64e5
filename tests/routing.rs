use overlay_core::pubsub::{
    client_subs, declare_client_subscription, declare_peer_subscription,
    declare_router_subscription, forget_client_subscription, forget_peer_subscription,
    forget_router_subscription, pubsub_linkstate_change, pubsub_new_face, pubsub_remove_node,
    pubsub_tree_change, remote_peer_subs, remote_router_subs,
};
use overlay_core::queries::{
    client_qabls, declare_client_queryable, declare_peer_queryable, declare_router_queryable,
    forget_client_queryable, forget_peer_queryable, forget_router_queryable, local_qabl_info,
    merge_qabl_infos, queries_linkstate_change, queries_new_face, queries_remove_node,
    queries_tree_change, remote_peer_qabls, remote_router_qabls,
};
use overlay_core::tables::{
    failover_brokering_to, Declaration, FaceState, Mode, Network, Node, Outbound, QueryableInfo,
    Reliability, Resource, SubscriberInfo, Tables, WhatAmI, ZenohId,
};

fn zid(id: u128) -> ZenohId {
    ZenohId { id }
}

fn face(id: usize, z: u128, role: WhatAmI) -> FaceState {
    FaceState {
        id,
        zid: zid(z),
        whatami: role,
        local_subs: Vec::new(),
        remote_subs: Vec::new(),
        local_qabls: Vec::new(),
        remote_qabls: Vec::new(),
    }
}

fn resource(expr: &str) -> Resource {
    Resource {
        expr: expr.to_string(),
        router_subs: Vec::new(),
        peer_subs: Vec::new(),
        router_qabls: Vec::new(),
        peer_qabls: Vec::new(),
        session_ctxs: Vec::new(),
    }
}

fn tables(role: WhatAmI, full_peer_net: bool, faces: Vec<FaceState>, exprs: &[&str]) -> Tables {
    Tables {
        zid: zid(100),
        whatami: role,
        full_peer_net,
        faces,
        resources: exprs.iter().map(|e| resource(e)).collect(),
        router_subs: Vec::new(),
        peer_subs: Vec::new(),
        router_qabls: Vec::new(),
        peer_qabls: Vec::new(),
        routers_net: None,
        peers_net: None,
    }
}

fn push_info() -> SubscriberInfo {
    SubscriberInfo {
        reliability: Reliability::Reliable,
        mode: Mode::Push,
    }
}

fn peer_net() -> Network {
    Network {
        nodes: vec![
            Node { zid: zid(1), links: vec![zid(2)] },
            Node { zid: zid(2), links: vec![zid(1)] },
            Node { zid: zid(3), links: vec![] },
        ],
        trees: vec![],
    }
}

#[test]
fn brokering_needs_both_peers_and_no_link() {
    let mut t = tables(WhatAmI::Router, false, vec![], &[]);
    assert!(!t.failover_brokering(zid(1), zid(3)));
    t.peers_net = Some(peer_net());
    assert!(t.failover_brokering(zid(1), zid(3)));
    assert!(!t.failover_brokering(zid(1), zid(2)));
    assert!(!t.failover_brokering(zid(1), zid(9)));
    assert!(!t.failover_brokering(zid(9), zid(1)));
    assert!(failover_brokering_to(&vec![zid(1)], zid(2)));
    assert!(!failover_brokering_to(&vec![zid(1), zid(2)], zid(2)));
}

#[test]
fn router_client_subscription_reaches_other_clients() {
    let faces = vec![
        face(0, 10, WhatAmI::Client),
        face(1, 11, WhatAmI::Client),
        face(2, 12, WhatAmI::Peer),
        face(3, 13, WhatAmI::Router),
    ];
    let mut t = tables(WhatAmI::Router, false, faces, &["demo/a"]);
    let mut out = Vec::new();
    declare_client_subscription(&mut t, 0, 0, push_info(), &mut out);
    assert!(t.faces[1].local_subs.contains(&0));
    assert!(t.faces[2].local_subs.contains(&0));
    assert!(!t.faces[0].local_subs.contains(&0));
    assert!(!t.faces[3].local_subs.contains(&0));
    assert_eq!(t.resources[0].router_subs, vec![zid(100)]);
    assert_eq!(t.router_subs, vec![0]);
    assert_eq!(t.faces[0].remote_subs, vec![0]);
    assert_eq!(client_subs(&t, 0), vec![0]);
    assert_eq!(
        out,
        vec![
            Outbound {
                face: 1,
                node_id: 0,
                body: Declaration::DeclareSubscriber { res: 0, info: push_info() },
            },
            Outbound {
                face: 2,
                node_id: 0,
                body: Declaration::DeclareSubscriber { res: 0, info: push_info() },
            },
        ]
    );
}

#[test]
fn liveliness_subscription_echoes_to_its_source() {
    let faces = vec![face(0, 10, WhatAmI::Client), face(1, 11, WhatAmI::Client)];
    let mut t = tables(WhatAmI::Router, false, faces, &["@/liveliness/x"]);
    let mut out = Vec::new();
    declare_client_subscription(&mut t, 0, 0, push_info(), &mut out);
    assert!(t.faces[0].local_subs.contains(&0));
    assert!(t.faces[1].local_subs.contains(&0));
}

#[test]
fn unknown_face_or_resource_is_dropped() {
    let mut t = tables(WhatAmI::Router, false, vec![face(0, 10, WhatAmI::Client)], &["a"]);
    let mut out = Vec::new();
    declare_client_subscription(&mut t, 5, 0, push_info(), &mut out);
    declare_client_subscription(&mut t, 0, 7, push_info(), &mut out);
    assert!(out.is_empty());
    assert!(t.resources[0].session_ctxs.is_empty());
}

#[test]
fn forgetting_the_last_client_subscription_withdraws_it() {
    let faces = vec![
        face(0, 10, WhatAmI::Client),
        face(1, 11, WhatAmI::Client),
        face(2, 12, WhatAmI::Client),
    ];
    let mut t = tables(WhatAmI::Router, false, faces, &["demo/a"]);
    let mut out = Vec::new();
    declare_client_subscription(&mut t, 0, 0, push_info(), &mut out);
    out.clear();
    forget_client_subscription(&mut t, 0, 0, &mut out);
    for f in &t.faces {
        assert!(!f.local_subs.contains(&0));
    }
    assert!(t.resources[0].router_subs.is_empty());
    assert!(t.router_subs.is_empty());
    assert!(t.faces[0].remote_subs.is_empty());
    assert_eq!(
        out,
        vec![
            Outbound { face: 1, node_id: 0, body: Declaration::UndeclareSubscriber { res: 0 } },
            Outbound { face: 2, node_id: 0, body: Declaration::UndeclareSubscriber { res: 0 } },
        ]
    );
}

#[test]
fn peer_in_partial_mesh_forwards_client_subscriptions_to_peers() {
    let faces = vec![
        face(0, 10, WhatAmI::Client),
        face(1, 11, WhatAmI::Peer),
        face(2, 12, WhatAmI::Client),
    ];
    let mut t = tables(WhatAmI::Peer, false, faces, &["demo/a"]);
    let mut out = Vec::new();
    declare_client_subscription(&mut t, 0, 0, push_info(), &mut out);
    assert!(t.faces[1].local_subs.contains(&0));
    assert!(t.faces[2].local_subs.contains(&0));
    assert!(t.resources[0].peer_subs.is_empty());
}

#[test]
fn peer_in_full_mesh_registers_itself_in_peer_scope() {
    let faces = vec![
        face(0, 10, WhatAmI::Client),
        face(1, 11, WhatAmI::Peer),
        face(2, 12, WhatAmI::Client),
    ];
    let mut t = tables(WhatAmI::Peer, true, faces, &["demo/a"]);
    let mut out = Vec::new();
    declare_client_subscription(&mut t, 0, 0, push_info(), &mut out);
    assert_eq!(t.resources[0].peer_subs, vec![zid(100)]);
    assert!(!t.faces[1].local_subs.contains(&0));
    assert!(t.faces[2].local_subs.contains(&0));
}

#[test]
fn router_subscription_is_sent_along_the_router_tree() {
    let faces = vec![
        face(0, 1, WhatAmI::Router),
        face(1, 2, WhatAmI::Router),
        face(2, 3, WhatAmI::Client),
    ];
    let mut t = tables(WhatAmI::Router, false, faces, &["demo/a"]);
    t.routers_net = Some(Network {
        nodes: vec![
            Node { zid: zid(1), links: vec![zid(100)] },
            Node { zid: zid(2), links: vec![zid(100)] },
            Node { zid: zid(100), links: vec![zid(1), zid(2)] },
        ],
        trees: vec![vec![2, 1], vec![], vec![]],
    });
    let mut out = Vec::new();
    declare_router_subscription(&mut t, 0, 0, push_info(), zid(1), &mut out);
    assert_eq!(t.resources[0].router_subs, vec![zid(1)]);
    assert!(out.contains(&Outbound {
        face: 1,
        node_id: 0,
        body: Declaration::DeclareSubscriber { res: 0, info: push_info() },
    }));
    assert!(t.faces[2].local_subs.contains(&0));
    assert!(remote_router_subs(&t, 0));
    forget_router_subscription(&mut t, 0, 0, zid(1), &mut out);
    assert!(t.resources[0].router_subs.is_empty());
    assert!(!t.faces[2].local_subs.contains(&0));
}

#[test]
fn router_registers_peer_subscriptions_in_router_scope() {
    let faces = vec![face(0, 1, WhatAmI::Peer), face(1, 11, WhatAmI::Client)];
    let mut t = tables(WhatAmI::Router, false, faces, &["demo/a"]);
    let mut out = Vec::new();
    declare_peer_subscription(&mut t, 0, 0, push_info(), zid(1), &mut out);
    assert_eq!(t.resources[0].peer_subs, vec![zid(1)]);
    assert_eq!(t.resources[0].router_subs, vec![zid(100)]);
    assert!(remote_peer_subs(&t, 0));
    forget_peer_subscription(&mut t, 0, 0, zid(1), &mut out);
    assert!(t.resources[0].peer_subs.is_empty());
    assert!(t.resources[0].router_subs.is_empty());
    assert!(!t.faces[1].local_subs.contains(&0));
}

#[test]
fn removing_a_router_clears_its_subscriptions() {
    let faces = vec![face(0, 1, WhatAmI::Router), face(1, 11, WhatAmI::Client)];
    let mut t = tables(WhatAmI::Router, false, faces, &["demo/a", "demo/b"]);
    let mut out = Vec::new();
    declare_router_subscription(&mut t, 0, 0, push_info(), zid(1), &mut out);
    declare_router_subscription(&mut t, 0, 1, push_info(), zid(1), &mut out);
    pubsub_remove_node(&mut t, zid(1), WhatAmI::Router, &mut out);
    assert!(t.resources[0].router_subs.is_empty());
    assert!(t.resources[1].router_subs.is_empty());
    assert!(t.faces[1].local_subs.is_empty());
}

#[test]
fn new_client_face_of_router_hears_known_subscriptions() {
    let faces = vec![face(0, 1, WhatAmI::Router), face(1, 11, WhatAmI::Client)];
    let mut t = tables(WhatAmI::Router, false, faces, &["demo/a"]);
    let mut out = Vec::new();
    declare_router_subscription(&mut t, 0, 0, push_info(), zid(1), &mut out);
    t.faces.push(face(2, 12, WhatAmI::Client));
    out.clear();
    pubsub_new_face(&mut t, 2, &mut out);
    assert!(t.faces[2].local_subs.contains(&0));
    assert_eq!(out.len(), 1);
}

#[test]
fn merging_queryable_infos() {
    let a = QueryableInfo { complete: 1, distance: 5 };
    let b = QueryableInfo { complete: 0, distance: 3 };
    assert_eq!(merge_qabl_infos(a, &b), QueryableInfo { complete: 1, distance: 3 });
    let c = QueryableInfo { complete: 0, distance: 2 };
    let d = QueryableInfo { complete: 0, distance: 9 };
    assert_eq!(merge_qabl_infos(c, &d), QueryableInfo { complete: 0, distance: 2 });
}

#[test]
fn client_queryables_are_aggregated_per_face() {
    let faces = vec![
        face(0, 10, WhatAmI::Client),
        face(1, 11, WhatAmI::Client),
        face(2, 12, WhatAmI::Client),
    ];
    let mut t = tables(WhatAmI::Client, false, faces, &["demo/q"]);
    let mut out = Vec::new();
    declare_client_queryable(&mut t, 0, 0, QueryableInfo { complete: 1, distance: 4 }, &mut out);
    declare_client_queryable(&mut t, 1, 0, QueryableInfo { complete: 0, distance: 2 }, &mut out);
    assert_eq!(client_qabls(&t, 0), vec![0, 1]);
    assert_eq!(local_qabl_info(&t, 0, 2), QueryableInfo { complete: 1, distance: 2 });
    assert_eq!(t.faces[2].local_qabls, vec![(0, QueryableInfo { complete: 1, distance: 2 })]);
    assert!(!remote_router_qabls(&t, 0));
    assert!(!remote_peer_qabls(&t, 0));
    assert!(out.contains(&Outbound {
        face: 2,
        node_id: 0,
        body: Declaration::DeclareQueryable { res: 0, info: QueryableInfo { complete: 1, distance: 2 } },
    }));
}

#[test]
fn forgetting_the_last_client_queryable_withdraws_it() {
    let faces = vec![face(0, 10, WhatAmI::Client), face(1, 11, WhatAmI::Client)];
    let mut t = tables(WhatAmI::Peer, false, faces, &["demo/q"]);
    let mut out = Vec::new();
    declare_client_queryable(&mut t, 0, 0, QueryableInfo { complete: 1, distance: 0 }, &mut out);
    assert_eq!(t.faces[1].local_qabls.len(), 1);
    out.clear();
    forget_client_queryable(&mut t, 0, 0, &mut out);
    assert!(t.faces[1].local_qabls.is_empty());
    assert!(t.faces[0].remote_qabls.is_empty());
    assert_eq!(
        out,
        vec![Outbound { face: 1, node_id: 0, body: Declaration::UndeclareQueryable { res: 0 } }]
    );
}

#[test]
fn router_queryables_follow_router_scope() {
    let faces = vec![face(0, 1, WhatAmI::Router), face(1, 11, WhatAmI::Client)];
    let mut t = tables(WhatAmI::Router, false, faces, &["demo/q"]);
    let mut out = Vec::new();
    let info = QueryableInfo { complete: 1, distance: 3 };
    declare_router_queryable(&mut t, 0, 0, info, zid(1), &mut out);
    assert_eq!(t.resources[0].router_qabls, vec![(zid(1), info)]);
    assert_eq!(t.faces[1].local_qabls, vec![(0, info)]);
    assert!(remote_router_qabls(&t, 0));
    forget_router_queryable(&mut t, 0, 0, zid(1), &mut out);
    assert!(t.resources[0].router_qabls.is_empty());
    assert!(t.faces[1].local_qabls.is_empty());
}

#[test]
fn peer_queryable_on_router_is_forwarded_in_router_scope() {
    let faces = vec![face(0, 1, WhatAmI::Peer), face(1, 11, WhatAmI::Client)];
    let mut t = tables(WhatAmI::Router, false, faces, &["demo/q"]);
    let mut out = Vec::new();
    let info = QueryableInfo { complete: 0, distance: 1 };
    declare_peer_queryable(&mut t, 0, 0, info, zid(1), &mut out);
    assert_eq!(t.resources[0].peer_qabls, vec![(zid(1), info)]);
    assert_eq!(t.resources[0].router_qabls.len(), 1);
    assert_eq!(t.resources[0].router_qabls[0].0, zid(100));
    forget_peer_queryable(&mut t, 0, 0, zid(1), &mut out);
    assert!(t.resources[0].peer_qabls.is_empty());
    assert!(t.resources[0].router_qabls.is_empty());
}

#[test]
fn removing_a_router_clears_its_queryables() {
    let faces = vec![face(0, 1, WhatAmI::Router), face(1, 11, WhatAmI::Client)];
    let mut t = tables(WhatAmI::Router, false, faces, &["demo/q"]);
    let mut out = Vec::new();
    declare_router_queryable(&mut t, 0, 0, QueryableInfo { complete: 1, distance: 1 }, zid(1), &mut out);
    queries_remove_node(&mut t, zid(1), WhatAmI::Router, &mut out);
    assert!(t.resources[0].router_qabls.is_empty());
    assert!(t.faces[1].local_qabls.is_empty());
}

#[test]
fn new_client_face_of_router_is_told_queryables() {
    let faces = vec![face(0, 1, WhatAmI::Router)];
    let mut t = tables(WhatAmI::Router, false, faces, &["demo/q"]);
    let mut out = Vec::new();
    let info = QueryableInfo { complete: 1, distance: 2 };
    declare_router_queryable(&mut t, 0, 0, info, zid(1), &mut out);
    t.faces.push(face(1, 11, WhatAmI::Client));
    out.clear();
    queries_new_face(&mut t, 1, &mut out);
    assert_eq!(t.faces[1].local_qabls, vec![(0, info)]);
    assert_eq!(
        out,
        vec![Outbound { face: 1, node_id: 0, body: Declaration::DeclareQueryable { res: 0, info } }]
    );
}

#[test]
fn tree_change_resends_along_new_children() {
    let faces = vec![face(0, 1, WhatAmI::Router), face(1, 2, WhatAmI::Router)];
    let mut t = tables(WhatAmI::Router, false, faces, &["demo/a"]);
    t.routers_net = Some(Network {
        nodes: vec![
            Node { zid: zid(1), links: vec![] },
            Node { zid: zid(2), links: vec![] },
        ],
        trees: vec![vec![], vec![]],
    });
    let mut out = Vec::new();
    declare_router_subscription(&mut t, 0, 0, push_info(), zid(1), &mut out);
    let info = QueryableInfo { complete: 1, distance: 0 };
    declare_router_queryable(&mut t, 0, 0, info, zid(1), &mut out);
    out.clear();
    pubsub_tree_change(&t, &vec![vec![1], vec![]], WhatAmI::Router, &mut out);
    assert_eq!(
        out,
        vec![Outbound {
            face: 1,
            node_id: 0,
            body: Declaration::DeclareSubscriber { res: 0, info: push_info() },
        }]
    );
    out.clear();
    queries_tree_change(&t, &vec![vec![1], vec![]], WhatAmI::Router, &mut out);
    assert_eq!(
        out,
        vec![Outbound { face: 1, node_id: 0, body: Declaration::DeclareQueryable { res: 0, info } }]
    );
}

#[test]
fn link_changes_decide_brokering_between_peers() {
    let faces = vec![face(0, 1, WhatAmI::Peer), face(1, 3, WhatAmI::Peer)];
    let mut t = tables(WhatAmI::Router, false, faces, &["demo/a"]);
    t.peers_net = Some(peer_net());
    let mut out = Vec::new();
    declare_peer_subscription(&mut t, 0, 0, push_info(), zid(1), &mut out);
    declare_client_subscription(&mut t, 0, 0, push_info(), &mut out);
    declare_client_subscription(&mut t, 1, 0, push_info(), &mut out);
    t.faces[1].local_subs.clear();
    t.faces[0].remote_subs = vec![0];
    out.clear();
    pubsub_linkstate_change(&mut t, zid(1), &vec![zid(2)], &mut out);
    assert!(t.faces[1].local_subs.contains(&0));
    assert_eq!(
        out,
        vec![Outbound {
            face: 1,
            node_id: 0,
            body: Declaration::DeclareSubscriber { res: 0, info: push_info() },
        }]
    );
    out.clear();
    queries_linkstate_change(&mut t, zid(1), &vec![zid(2)], &mut out);
    assert!(out.is_empty());
}

#[test]
fn new_peer_face_of_router_hears_bridged_subscriptions() {
    let faces = vec![face(0, 1, WhatAmI::Router), face(1, 11, WhatAmI::Client), face(2, 3, WhatAmI::Peer)];
    let mut t = tables(WhatAmI::Router, false, faces, &["demo/a", "demo/b"]);
    let mut out = Vec::new();
    declare_router_subscription(&mut t, 0, 0, push_info(), zid(1), &mut out);
    declare_client_subscription(&mut t, 1, 1, push_info(), &mut out);
    t.faces[2].local_subs.clear();
    out.clear();
    pubsub_new_face(&mut t, 2, &mut out);
    assert_eq!(t.faces[2].local_subs, vec![0, 1]);
    assert_eq!(out.len(), 2);
}
